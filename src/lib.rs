//! Highlight selection over a media timeline: from the silences detected in
//! a recording, the stretches worth keeping, padded, merged and bounded in
//! length.
//!
//! Every time value in this crate is a signed count of microseconds; a level
//! is a signed count of millidecibels.
pub mod config;
pub mod ffmpeg;
pub mod processor;
pub mod timeline;

pub use config::Config;
pub use processor::Processor;
