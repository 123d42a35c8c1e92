//! A small pipeline for charting daily heart-rate averages.
//!
//! The library turns the text of per-day sample files into an ordered
//! series of chart points: it parses each data line into a timestamped
//! value, aggregates each file into a calendar day with the exact mean of
//! its values, and sorts the per-day summaries chronologically. Reading
//! the files and rendering the chart are left to the surrounding program.

pub mod aggregate;
pub mod collect;
pub mod date;
pub mod loader;
pub mod pipeline;
pub mod record;
pub mod sort;
pub mod split;
pub mod timestamp;
pub mod value;

pub use aggregate::DaySummary;
pub use date::Date;
pub use pipeline::ChartPoint;
pub use record::Sample;
pub use value::Value;
