//! Verified core of a serial-stream plotter: a line decoder that accepts
//! newline-delimited numeric readings, a sliding time-window buffer of
//! recent samples, and the start/stop lifecycle of an acquisition session
//! draining a producer's queue. The shell around the core only enumerates
//! and opens devices, converts accepted lines to values, and renders what
//! `poll` hands back.

pub mod buffer;
pub mod decoder;
pub mod reader;
pub mod session;
