//! A small power-management library: it parses an xscreensaver-style
//! configuration into suspend thresholds and decides, from a stream of
//! lock/unlock event lines and the passage of time, when the machine
//! should be suspended.

pub mod config;
pub mod machine;
