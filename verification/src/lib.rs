//! The decisions of a Linux system monitor: reading kernel text, aggregating task
//! counters, ranking processes, laying out the tooltip and driving the loader.

pub mod aggregate;
pub mod control;
pub mod histogram;
pub mod json;
pub mod loader;
pub mod lossy;
pub mod messages;
pub mod object;
pub mod probe;
pub mod procfs;
pub mod ranking;
pub mod reading;
pub mod sample;
pub mod seeding;
pub mod sorting;
pub mod stats;
pub mod sysfs;
pub mod text;
pub mod tooltip;
