//! File operations and the simulated tree they act on.

pub mod files;
pub mod fsop;
