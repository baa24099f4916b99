//! Block-based binary deltas between two versions of a byte stream.
//!
//! An old stream is summarised as one signature per full block; a new stream
//! is then scanned once against those signatures, which yields an edit script
//! of literal runs and references to unchanged blocks of the old stream.

pub mod chunker;
pub mod delta;
pub mod replay;
pub mod signature;
pub mod weak_sum;

use crate::delta::{block_map_of, command_views, delta_of};
use crate::signature::{signature_views, BlockSignature};
use vstd::prelude::*;

pub use crate::delta::{delta, Command};
pub use crate::signature::signature;

verus! {

/// The delta of `data` against the blocks that `signatures` describe: the
/// edit script that turns the old stream into `data`.
pub fn diff(signatures: Vec<BlockSignature>, data: &[u8], block_size: u16) -> (commands: Vec<
    Command,
>)
    requires
        block_size > 0,
    ensures
        command_views(commands@) == delta_of(
            block_map_of(signature_views(signatures@)),
            block_size as nat,
            data@,
        ),
{
    delta(signatures, data, block_size)
}

} // verus!
