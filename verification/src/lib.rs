//! Verified core of a reciprocal-frequency-counter telemetry pipeline.
//!
//! Raw serial bytes are framed into lines, each line is decoded into a raw
//! counter record, the record is converted into exact rational frequency
//! values, and the values are appended to a sliding-time-window buffer with
//! one ordered series per channel.

pub mod convert;
pub mod frame;
pub mod ingest;
pub mod parser;
pub mod window;
