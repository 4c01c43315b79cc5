//! Calendar values: months, dates, and ranges of months.

pub mod date;
