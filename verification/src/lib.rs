//! A time-windowed event-frequency counter.
//!
//! Every recorded occurrence of a key is stamped with the moment at which it
//! was seen. Recording a key also drops everything older than the trailing
//! window that the caller names, and reports how often the key has been seen
//! within that window, the new occurrence included.
//!
//! * [`timestamp`] holds the moments and the arithmetic on them.
//! * [`model`] holds the mathematical model of a counter.
//! * [`window`] holds the counter for one category of events.
//! * [`cache`] bundles one counter per tracked category.
//! * [`laws`] states what holds across several recordings.

pub mod cache;
pub mod laws;
pub mod model;
pub mod timestamp;
pub mod window;
