//! Host metrics snapshots: the arithmetic that turns raw operating-system
//! counters into the snapshot a front end displays, with every step proved.

pub mod binary32;
pub mod percent;
pub mod rounding;
pub mod stats;
