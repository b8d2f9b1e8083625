//! Benchmarking of a dictation program's installed builds: which of them run
//! here, in what order they are timed, what their output says, how well they
//! heard, and which one to recommend.

pub mod benchmark;
pub mod distance;
pub mod output;
pub mod process;
pub mod recommend;
pub mod recording;
pub mod report;
pub mod secs;
pub mod text;
pub mod variant;
pub mod words;
