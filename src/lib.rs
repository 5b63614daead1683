//! Process watching and blacklist enforcement: the policy engine of a
//! process monitor, with CPU figures held as tenths of a percent.

pub mod text;
pub mod names;
pub mod state;
pub mod procs;
pub mod enforce;
pub mod gpu;
pub mod kills;
pub mod laws;
