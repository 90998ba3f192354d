use vstd::prelude::*;

pub mod command_line;
pub mod consts;
pub mod error;
pub mod hash_stats;
pub mod plagiarism_rate;
pub mod pre_processing;
pub mod rolling_hash;

pub use error::GolemError;
pub use hash_stats::HashStats;
pub use rolling_hash::{compute_hash, RollingHash};

verus! {

} // verus!
