use vstd::prelude::*;

use crate::buffer::ChannelScope;
use crate::selection::Selection;
use crate::text::string_of;

verus! {

/// The snapshot of a selection that scripts see.
#[derive(Clone, Debug)]
pub struct LuaSelection {
    pub kind: String,
    pub start: Option<i64>,
    pub stop: Option<i64>,
    pub channels: ChannelScope,
}

impl LuaSelection {
    /// `none`, `position` (start and stop both at the caret) or `region`.
    pub fn from_selection(selection: &Selection) -> (r: Self)
        ensures
            match *selection {
                Selection::Nothing => r.kind@ == "none"@ && r.start is None && r.stop is None
                    && r.channels == ChannelScope::AllChannels,
                Selection::Position(pos) => r.kind@ == "position"@ && r.start == Some(
                    pos.sample as i64,
                ) && r.stop == Some(pos.sample as i64) && r.channels.view_channels()
                    == pos.channels.view_channels(),
                Selection::Region { start, end, channels, .. } => r.kind@ == "region"@
                    && r.start == Some(start as i64) && r.stop == Some(end as i64)
                    && r.channels.view_channels() == channels.view_channels(),
            },
    {
        match selection {
            Selection::Nothing => LuaSelection {
                kind: string_of("none"),
                start: None,
                stop: None,
                channels: ChannelScope::all(),
            },
            Selection::Position(pos) => LuaSelection {
                kind: string_of("position"),
                start: Some(pos.sample as i64),
                stop: Some(pos.sample as i64),
                channels: pos.channels.duplicate(),
            },
            Selection::Region { start, end, channels, .. } => LuaSelection {
                kind: string_of("region"),
                start: Some(*start as i64),
                stop: Some(*end as i64),
                channels: channels.duplicate(),
            },
        }
    }
}

} // verus!
