//! Frequency-aggregation pipeline: given a comma-separated dataset, count the
//! occurrences of the values in one designated column, select the most
//! frequent value, and render the outcome as an HTTP-shaped status and body.

pub mod csvio;
pub mod freq;
pub mod pipeline;
