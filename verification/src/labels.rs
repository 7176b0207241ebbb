use vstd::prelude::*;

use crate::edit_op::EditOp;
use crate::text::{decimal, decimal_string, push_decimal, string_of};
use crate::transport::TransportState;

verus! {

pub open spec fn edit_title_spec(op: EditOp) -> Seq<char> {
    match op {
        EditOp::Init => "Initial"@,
        EditOp::Cut { .. } => "Cut"@,
        EditOp::Copy { .. } => "Copy"@,
        EditOp::Paste { .. } => "Paste"@,
        EditOp::Remove { .. } => "Remove"@,
        EditOp::Delete { .. } => "Delete"@,
        EditOp::Trim { .. } => "Trim"@,
        EditOp::Move { .. } => "Move"@,
        EditOp::Duplicate { .. } => "Duplicate"@,
        EditOp::Roll { .. } => "Roll"@,
    }
}

/// The title line of an edit card in the history panel.
pub fn edit_title(op: &EditOp) -> (s: &'static str)
    ensures
        s@ == edit_title_spec(*op),
{
    match op {
        EditOp::Init => "Initial",
        EditOp::Cut { .. } => "Cut",
        EditOp::Copy { .. } => "Copy",
        EditOp::Paste { .. } => "Paste",
        EditOp::Remove { .. } => "Remove",
        EditOp::Delete { .. } => "Delete",
        EditOp::Trim { .. } => "Trim",
        EditOp::Move { .. } => "Move",
        EditOp::Duplicate { .. } => "Duplicate",
        EditOp::Roll { .. } => "Roll",
    }
}

/// A length in samples: `<len> smp`.
pub fn format_len(len: u64) -> (s: String)
    ensures
        s@ == decimal(len as nat) + " smp"@,
{
    let mut s = decimal_string(len);
    s.append(" smp");
    s
}

/// A bit depth such as `16-bit`, or an em dash when the depth is unknown.
pub fn format_bit_depth(bits: Option<u32>) -> (s: String)
    ensures
        s@ == match bits {
            Some(b) => decimal(b as nat) + "-bit"@,
            None => "\u{2014}"@,
        },
{
    match bits {
        Some(b) => {
            let mut s = decimal_string(b as u64);
            s.append("-bit");
            s
        },
        None => string_of("\u{2014}"),
    }
}

pub open spec fn transport_state_label_spec(state: TransportState) -> Seq<char> {
    match state {
        TransportState::Stopped => "Stopped"@,
        TransportState::Playing => "Playing"@,
        TransportState::Paused => "Paused"@,
    }
}

/// The word the header shows for a transport state.
pub fn transport_state_label(state: TransportState) -> (s: &'static str)
    ensures
        s@ == transport_state_label_spec(state),
{
    match state {
        TransportState::Stopped => "Stopped",
        TransportState::Playing => "Playing",
        TransportState::Paused => "Paused",
    }
}

} // verus!
