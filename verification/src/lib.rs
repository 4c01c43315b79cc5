//! A personal ledger manager: a taxonomy of concepts kept as an ordered tree,
//! and a store of dated expenses and incomes sorted by year, month and date.

pub mod concepts;
pub mod decimal;
pub mod economy;
pub mod expense_types;
pub mod io;
pub mod menus;
pub mod sorted;
pub mod text;
pub mod time;
pub mod utils;
