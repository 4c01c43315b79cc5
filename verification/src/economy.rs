//! The store of activities: expenses and incomes by year, month and date.

pub mod all_activities;
pub mod expense;
pub mod income;
pub mod io;
pub mod line;
pub mod monthly_activities;
pub mod traits;
pub mod yearly_activities;
