//! Time tracking with hierarchical tags and a human-readable storage format.
pub mod datetime;
pub mod error;
pub mod log;
pub mod report;
pub mod status;
pub mod store;
pub mod tags;
pub mod text;

pub use error::TaktError;
