//! Per-station minimum, mean and maximum of a large file of
//! `name;reading` lines: the file is cut into line-aligned chunks, each chunk
//! is scanned into its own table, and the tables are merged into one result
//! in ascending name order and rendered as `{name=min/mean/max, ...}`.
use vstd::prelude::*;

pub mod aggregate;
pub mod chunk;
pub mod fast_hash;
pub mod format;
pub mod line_index;
pub mod merge;
pub mod record;
pub mod small_key;
pub mod stats;

verus! {

} // verus!
