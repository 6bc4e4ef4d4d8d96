//! Status-line entries: each reader turns plain sampled values into display
//! entries, and the emitter renders them as the bar's JSON stream.

pub mod text;
pub mod entry;
pub mod readers;
pub mod calendar;
pub mod laws;
