//! Where tracked data lives: the file layout of the flat store and the row
//! conversions of the database store.
pub mod flat;
pub mod sqlite;
