//! What the menus compute: sums of money by concept, the rows of the
//! reports, the columns of the tables, and the changes that reach many
//! activities at once.

pub mod activities;
pub mod activity_summary;
pub mod concept_types;
pub mod statistics;
pub mod utils;
