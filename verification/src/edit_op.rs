use vstd::prelude::*;

verus! {

/// Identity of one entry of the edit history.
#[derive(Debug, Clone, Copy, PartialEq, Eq, Hash, Structural)]
pub struct EditId(pub u64);

/// One timeline operation, in the frames of the timeline it was applied to.
#[derive(Debug, Clone, Copy, PartialEq, Eq, Structural)]
pub enum EditOp {
    Init,
    Cut { start: u64, len: u64 },
    Copy { start: u64, len: u64 },
    Paste { at: u64, len: u64 },
    Remove { start: u64, len: u64 },
    Delete { start: u64, len: u64 },
    Trim { start: u64, len: u64 },
    Move { from: u64, len: u64, dest: u64 },
    Duplicate { start: u64, len: u64 },
    Roll { at: u64, delta: i64 },
}

} // verus!
