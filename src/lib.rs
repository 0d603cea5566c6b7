//! Expense tracking core: purchase records, category registry, sorting,
//! per-period cost aggregation and a line-oriented text format.
pub mod date;
pub mod organize;
pub mod text;
pub mod category;
pub mod entry;
pub mod datamanager;
pub mod costmap;
pub mod csvadapter;
pub mod laws;
pub mod view;
