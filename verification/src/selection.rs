use vstd::prelude::*;

use crate::buffer::{ChannelScope, RegionId};

verus! {

/// A caret position on some channels.
#[derive(Debug, Clone, PartialEq, Eq)]
pub struct SamplePosition {
    pub sample: usize,
    pub channels: ChannelScope,
}

/// What is selected on the timeline: nothing, a caret, or an inclusive range.
#[derive(Debug, Clone, PartialEq, Eq)]
pub enum Selection {
    Nothing,
    Position(SamplePosition),
    Region { region_id: Option<RegionId>, start: usize, end: usize, channels: ChannelScope },
}

impl Selection {
    /// The caret sample, when the selection is a caret.
    pub fn position_sample(&self) -> (r: Option<usize>)
        ensures
            r == match self {
                Selection::Position(pos) => Some(pos.sample),
                _ => None::<usize>,
            },
    {
        match self {
            Selection::Position(pos) => Some(pos.sample),
            _ => None,
        }
    }
}

} // verus!
