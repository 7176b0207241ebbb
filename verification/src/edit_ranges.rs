use vstd::prelude::*;

use crate::clip::ClipValue;
use crate::edit_op::EditOp;
use crate::edl::Edit;
use crate::tree::{locate, total, ClipTree};

verus! {

/// Half-open timeline range `[start, end)` in frames.
pub type FrameRange = (u64, u64);

// ---------------------------------------------------------------------------
// Specification
// ---------------------------------------------------------------------------

pub open spec fn min_u64(a: u64, b: u64) -> u64 {
    if a <= b { a } else { b }
}

pub open spec fn max_u64(a: u64, b: u64) -> u64 {
    if a >= b { a } else { b }
}

/// The ranges of `s` that are not empty, in order.
pub open spec fn nonempty_only(s: Seq<FrameRange>) -> Seq<FrameRange>
    decreases s.len(),
{
    if s.len() == 0 {
        seq![]
    } else {
        let rest = nonempty_only(s.drop_last());
        if s.last().0 < s.last().1 {
            rest.push(s.last())
        } else {
            rest
        }
    }
}

/// Where `[start, end)` lands after `len` frames are inserted at `at`.
pub open spec fn insert_shift_spec(start: u64, end: u64, at: u64, len: u64) -> Seq<FrameRange> {
    if start >= end {
        seq![]
    } else if end <= at {
        seq![(start, end)]
    } else if start >= at {
        seq![(start.saturating_add(len), end.saturating_add(len))]
    } else {
        seq![(start, at), (at.saturating_add(len), end.saturating_add(len))]
    }
}

/// Where `[start, end)` lands after `[at, at + len)` is taken out.
pub open spec fn remove_shift_spec(start: u64, end: u64, at: u64, len: u64) -> Seq<FrameRange> {
    if start >= end || len == 0 {
        if start < end {
            seq![(start, end)]
        } else {
            seq![]
        }
    } else {
        let removed_end = at.saturating_add(len);
        if end <= at {
            seq![(start, end)]
        } else if start >= removed_end {
            seq![(start.saturating_sub(len), end.saturating_sub(len))]
        } else {
            let before: Seq<FrameRange> = if start < at {
                seq![(start, at)]
            } else {
                seq![]
            };
            let after: Seq<FrameRange> = if end > removed_end {
                seq![(at, end.saturating_sub(len))]
            } else {
                seq![]
            };
            nonempty_only(before + after)
        }
    }
}

/// Each range of `s` shifted by an insertion of `len` frames at `at`, concatenated.
pub open spec fn insert_shift_all(s: Seq<FrameRange>, at: u64, len: u64) -> Seq<FrameRange>
    decreases s.len(),
{
    if s.len() == 0 {
        seq![]
    } else {
        insert_shift_all(s.drop_last(), at, len) + insert_shift_spec(s.last().0, s.last().1, at, len)
    }
}

/// The frame at which a block of `len` frames taken from `from` is put back
/// for a move to `dest`.
pub open spec fn move_insert_at(from: u64, len: u64, dest: u64) -> u64 {
    if dest > from {
        dest.saturating_sub(len)
    } else {
        dest
    }
}

/// Where `[start, end)` lands after the block `[from, from + len)` moves to `dest`:
/// first the part inside the block, then the outside parts, empty ranges dropped.
pub open spec fn map_through_move_spec(start: u64, end: u64, from: u64, len: u64, dest: u64) -> Seq<
    FrameRange,
> {
    if len == 0 || start >= end {
        if start < end {
            seq![(start, end)]
        } else {
            seq![]
        }
    } else {
        let moved_end = from.saturating_add(len);
        let insert_at = move_insert_at(from, len, dest);
        let inner: Seq<FrameRange> = if start < moved_end && end > from {
            let inner_start = max_u64(start, from);
            let inner_end = min_u64(end, moved_end);
            let mapped_start = insert_at.saturating_add(inner_start.saturating_sub(from));
            let mapped_end = insert_at.saturating_add(inner_end.saturating_sub(from));
            if mapped_start < mapped_end {
                seq![(mapped_start, mapped_end)]
            } else {
                seq![]
            }
        } else {
            seq![]
        };
        nonempty_only(inner + insert_shift_all(remove_shift_spec(start, end, from, len), insert_at, len))
    }
}

/// Where the pre-op range `[start, end)` lands on the post-op timeline.
pub open spec fn map_range_spec(start: u64, end: u64, op: EditOp) -> Seq<FrameRange> {
    if start >= end {
        seq![]
    } else {
        match op {
            EditOp::Init | EditOp::Copy { .. } | EditOp::Roll { .. } | EditOp::Delete { .. } => seq![
                (start, end),
            ],
            EditOp::Paste { at, len } => insert_shift_spec(start, end, at, len),
            EditOp::Duplicate { start: ds, len } => insert_shift_spec(
                start,
                end,
                ds.saturating_add(len),
                len,
            ),
            EditOp::Cut { start: at, len } => remove_shift_spec(start, end, at, len),
            EditOp::Remove { start: at, len } => remove_shift_spec(start, end, at, len),
            EditOp::Trim { start: keep, len } => {
                let clipped_start = max_u64(start, keep);
                let clipped_end = min_u64(end, keep.saturating_add(len));
                if clipped_start < clipped_end {
                    seq![
                        (clipped_start.saturating_sub(keep), clipped_end.saturating_sub(keep)),
                    ]
                } else {
                    seq![]
                }
            },
            EditOp::Move { from, len, dest } => map_through_move_spec(start, end, from, len, dest),
        }
    }
}

/// The op that undoes `op` on the timeline, where there is one.
pub open spec fn invert_op_spec(op: EditOp) -> Option<EditOp> {
    match op {
        EditOp::Paste { at, len } => if len > 0 {
            Some(EditOp::Remove { start: at, len })
        } else {
            None
        },
        EditOp::Duplicate { start, len } => if len > 0 {
            Some(EditOp::Remove { start: start.saturating_add(len), len })
        } else {
            None
        },
        EditOp::Cut { start, len } => if len > 0 {
            Some(EditOp::Paste { at: start, len })
        } else {
            None
        },
        EditOp::Remove { start, len } => if len > 0 {
            Some(EditOp::Paste { at: start, len })
        } else {
            None
        },
        EditOp::Move { from, len, dest } => if len > 0 {
            Some(EditOp::Move { from: move_insert_at(from, len, dest), len, dest: move_back_dest(from, len, dest) })
        } else {
            None
        },
        _ => None,
    }
}

/// The destination that brings a moved block back: the block now starts at
/// `move_insert_at(from, len, dest)`; when that lies before `from`, the block
/// has to be dropped `len` frames past `from`, since it is taken out before
/// it is put back.
pub open spec fn move_back_dest(from: u64, len: u64, dest: u64) -> u64 {
    if move_insert_at(from, len, dest) < from {
        from.saturating_add(len)
    } else {
        from
    }
}

/// The frame that deleted points collapse to, for ops that delete.
pub open spec fn hole_for_op_spec(op: EditOp) -> Option<u64> {
    match op {
        EditOp::Cut { start, .. } => Some(start),
        EditOp::Remove { start, .. } => Some(start),
        EditOp::Trim { .. } => Some(0),
        EditOp::Move { from, len, dest } => Some(move_insert_at(from, len, dest)),
        _ => None,
    }
}

pub open spec fn first_mapped_frame_spec(ranges: Seq<FrameRange>, op: EditOp, fallback: u64) -> u64 {
    if ranges.len() > 0 {
        ranges[0].0
    } else {
        match hole_for_op_spec(op) {
            Some(hole) => hole,
            None => fallback,
        }
    }
}

pub open spec fn min_start(ranges: Seq<FrameRange>) -> u64
    recommends
        ranges.len() > 0,
    decreases ranges.len(),
{
    if ranges.len() <= 1 {
        ranges[0].0
    } else {
        min_u64(min_start(ranges.drop_last()), ranges.last().0)
    }
}

pub open spec fn max_end(ranges: Seq<FrameRange>) -> u64
    recommends
        ranges.len() > 0,
    decreases ranges.len(),
{
    if ranges.len() <= 1 {
        ranges[0].1
    } else {
        max_u64(max_end(ranges.drop_last()), ranges.last().1)
    }
}

/// The inclusive span from the smallest start to the largest end of `ranges`.
pub open spec fn span_mapped_inclusive_spec(ranges: Seq<FrameRange>) -> Option<(u64, u64)> {
    if ranges.len() == 0 {
        None
    } else if max_end(ranges) == 0 {
        None
    } else {
        Some((min_start(ranges), (max_end(ranges) - 1) as u64))
    }
}

pub open spec fn point_ranges(frame: u64, op: EditOp) -> Seq<FrameRange> {
    map_range_spec(frame, frame.saturating_add(1), op)
}

/// Where a timeline point lands after `op`; deleted points snap to the hole.
pub open spec fn map_point_spec(frame: u64, op: EditOp) -> u64 {
    first_mapped_frame_spec(point_ranges(frame, op), op, frame)
}

/// Where a timeline point lands after `op`, or `None` if `op` deleted it.
pub open spec fn map_point_if_kept_spec(frame: u64, op: EditOp) -> Option<u64> {
    let ranges = point_ranges(frame, op);
    if ranges.len() > 0 {
        Some(ranges[0].0)
    } else {
        None
    }
}

pub open spec fn map_point_if_kept_inverse_spec(frame: u64, op: EditOp) -> Option<u64> {
    match op {
        EditOp::Trim { start, .. } => Some(start.saturating_add(frame)),
        _ => match invert_op_spec(op) {
            Some(inv) => map_point_if_kept_spec(frame, inv),
            None => Some(frame),
        },
    }
}

pub open spec fn map_inclusive_spec(start: u64, end: u64, op: EditOp) -> Option<(u64, u64)> {
    span_mapped_inclusive_spec(map_range_spec(start, end.saturating_add(1), op))
}

pub open spec fn map_point_inverse_spec(frame: u64, op: EditOp) -> u64 {
    match op {
        EditOp::Trim { start, .. } => start.saturating_add(frame),
        _ => match invert_op_spec(op) {
            Some(inv) => map_point_spec(frame, inv),
            None => frame,
        },
    }
}

pub open spec fn map_inclusive_inverse_spec(start: u64, end: u64, op: EditOp) -> Option<(u64, u64)> {
    match op {
        EditOp::Trim { start: keep, .. } => Some((keep.saturating_add(start), keep.saturating_add(end))),
        _ => match invert_op_spec(op) {
            Some(inv) => map_inclusive_spec(start, end, inv),
            None => Some((start, end)),
        },
    }
}

// ---------------------------------------------------------------------------
// Implementation
// ---------------------------------------------------------------------------

proof fn lemma_nonempty_only_push(s: Seq<FrameRange>, r: FrameRange)
    ensures
        nonempty_only(s.push(r)) == if r.0 < r.1 {
            nonempty_only(s).push(r)
        } else {
            nonempty_only(s)
        },
{
    assert(s.push(r).drop_last() =~= s);
}

/// Keeps the non-empty ranges of `ranges`, in order.
pub fn retain_nonempty(ranges: Vec<FrameRange>) -> (out: Vec<FrameRange>)
    ensures
        out@ == nonempty_only(ranges@),
{
    let mut out: Vec<FrameRange> = Vec::new();
    let mut i: usize = 0;
    while i < ranges.len()
        invariant
            i <= ranges.len(),
            out@ == nonempty_only(ranges@.take(i as int)),
        decreases ranges.len() - i,
    {
        let r = ranges[i];
        proof {
            assert(ranges@.take(i + 1) =~= ranges@.take(i as int).push(r));
            lemma_nonempty_only_push(ranges@.take(i as int), r);
        }
        if r.0 < r.1 {
            out.push(r);
        }
        i += 1;
    }
    proof {
        assert(ranges@.take(ranges.len() as int) =~= ranges@);
    }
    out
}

/// Where `[start, end)` lands after `len` frames are inserted at `at`.
pub fn insert_shift(start: u64, end: u64, at: u64, len: u64) -> (out: Vec<FrameRange>)
    ensures
        out@ == insert_shift_spec(start, end, at, len),
{
    if start >= end {
        return Vec::new();
    }
    if end <= at {
        vec![(start, end)]
    } else if start >= at {
        vec![(start.saturating_add(len), end.saturating_add(len))]
    } else {
        let mut out = Vec::new();
        out.push((start, at));
        out.push((at.saturating_add(len), end.saturating_add(len)));
        proof {
            assert(out@ =~= insert_shift_spec(start, end, at, len));
        }
        out
    }
}

/// Where `[start, end)` lands after `[at, at + len)` is taken out.
pub fn remove_shift(start: u64, end: u64, at: u64, len: u64) -> (out: Vec<FrameRange>)
    ensures
        out@ == remove_shift_spec(start, end, at, len),
{
    if start >= end || len == 0 {
        return if start < end {
            vec![(start, end)]
        } else {
            Vec::new()
        };
    }
    let removed_end = at.saturating_add(len);
    if end <= at {
        vec![(start, end)]
    } else if start >= removed_end {
        vec![(start.saturating_sub(len), end.saturating_sub(len))]
    } else {
        let mut out: Vec<FrameRange> = Vec::new();
        if start < at {
            out.push((start, at));
        }
        if end > removed_end {
            out.push((at, end.saturating_sub(len)));
        }
        proof {
            let before: Seq<FrameRange> = if start < at {
                seq![(start, at)]
            } else {
                seq![]
            };
            let after: Seq<FrameRange> = if end > removed_end {
                seq![(at, end.saturating_sub(len))]
            } else {
                seq![]
            };
            assert(out@ =~= before + after);
        }
        retain_nonempty(out)
    }
}

/// Where `[start, end)` lands after the block `[from, from + len)` moves to `dest`.
pub fn map_through_move(start: u64, end: u64, from: u64, len: u64, dest: u64) -> (out: Vec<
    FrameRange,
>)
    ensures
        out@ == map_through_move_spec(start, end, from, len, dest),
{
    if len == 0 || start >= end {
        return if start < end {
            vec![(start, end)]
        } else {
            Vec::new()
        };
    }
    let moved_end = from.saturating_add(len);
    let insert_at = if dest > from {
        dest.saturating_sub(len)
    } else {
        dest
    };
    let mut out: Vec<FrameRange> = Vec::new();
    if start < moved_end && end > from {
        let inner_start = if start >= from { start } else { from };
        let inner_end = if end <= moved_end { end } else { moved_end };
        let mapped_start = insert_at.saturating_add(inner_start.saturating_sub(from));
        let mapped_end = insert_at.saturating_add(inner_end.saturating_sub(from));
        if mapped_start < mapped_end {
            out.push((mapped_start, mapped_end));
        }
    }
    let ghost inner = out@;
    let outside = remove_shift(start, end, from, len);
    let mut i: usize = 0;
    while i < outside.len()
        invariant
            i <= outside.len(),
            outside@ == remove_shift_spec(start, end, from, len),
            out@ == inner + insert_shift_all(outside@.take(i as int), insert_at, len),
        decreases outside.len() - i,
    {
        let (os, oe) = outside[i];
        let mut shifted = insert_shift(os, oe, insert_at, len);
        proof {
            assert(outside@.take(i + 1).drop_last() =~= outside@.take(i as int));
            assert(out@ + shifted@ =~= inner + insert_shift_all(outside@.take(i + 1), insert_at, len));
        }
        out.append(&mut shifted);
        i += 1;
    }
    proof {
        assert(outside@.take(outside.len() as int) =~= outside@);
    }
    retain_nonempty(out)
}

/// Maps a range through an op: input is pre-op coordinates, output is post-op.
pub fn map_range_through_op(start: u64, end: u64, op: &EditOp) -> (out: Vec<FrameRange>)
    ensures
        out@ == map_range_spec(start, end, *op),
{
    if start >= end {
        return Vec::new();
    }
    match *op {
        EditOp::Init | EditOp::Copy { .. } | EditOp::Roll { .. } | EditOp::Delete { .. } => {
            vec![(start, end)]
        },
        EditOp::Paste { at, len } => insert_shift(start, end, at, len),
        EditOp::Duplicate { start: ds, len } => insert_shift(
            start,
            end,
            ds.saturating_add(len),
            len,
        ),
        EditOp::Cut { start: at, len } => remove_shift(start, end, at, len),
        EditOp::Remove { start: at, len } => remove_shift(start, end, at, len),
        EditOp::Trim { start: keep, len } => {
            let clipped_start = if start >= keep { start } else { keep };
            let keep_end = keep.saturating_add(len);
            let clipped_end = if end <= keep_end { end } else { keep_end };
            if clipped_start < clipped_end {
                vec![(clipped_start.saturating_sub(keep), clipped_end.saturating_sub(keep))]
            } else {
                Vec::new()
            }
        },
        EditOp::Move { from, len, dest } => map_through_move(start, end, from, len, dest),
    }
}

/// The op that undoes `op` on the timeline, where there is one.
pub fn invert_op(op: &EditOp) -> (out: Option<EditOp>)
    ensures
        out == invert_op_spec(*op),
{
    match *op {
        EditOp::Paste { at, len } if len > 0 => Some(EditOp::Remove { start: at, len }),
        EditOp::Duplicate { start, len } if len > 0 => Some(
            EditOp::Remove { start: start.saturating_add(len), len },
        ),
        EditOp::Cut { start, len } if len > 0 => Some(EditOp::Paste { at: start, len }),
        EditOp::Remove { start, len } if len > 0 => Some(EditOp::Paste { at: start, len }),
        EditOp::Move { from, len, dest } if len > 0 => {
            let insert_at = if dest > from {
                dest.saturating_sub(len)
            } else {
                dest
            };
            let back = if insert_at < from {
                from.saturating_add(len)
            } else {
                from
            };
            Some(EditOp::Move { from: insert_at, len, dest: back })
        },
        _ => None,
    }
}

/// The frame that deleted points collapse to, for ops that delete.
pub fn hole_for_op(op: &EditOp) -> (out: Option<u64>)
    ensures
        out == hole_for_op_spec(*op),
{
    match *op {
        EditOp::Cut { start, .. } => Some(start),
        EditOp::Remove { start, .. } => Some(start),
        EditOp::Trim { .. } => Some(0),
        EditOp::Move { dest, from, len } => {
            let insert_at = if dest > from {
                dest.saturating_sub(len)
            } else {
                dest
            };
            Some(insert_at)
        },
        _ => None,
    }
}

/// The first mapped frame, else the op's hole, else `fallback`.
pub fn first_mapped_frame(ranges: &[FrameRange], op: &EditOp, fallback: u64) -> (out: u64)
    ensures
        out == first_mapped_frame_spec(ranges@, *op, fallback),
{
    if ranges.len() > 0 {
        ranges[0].0
    } else {
        match hole_for_op(op) {
            Some(hole) => hole,
            None => fallback,
        }
    }
}

/// The inclusive span covering every range, or `None` when there is nothing to cover.
pub fn span_mapped_inclusive(ranges: &[FrameRange]) -> (out: Option<(u64, u64)>)
    ensures
        out == span_mapped_inclusive_spec(ranges@),
{
    if ranges.len() == 0 {
        return None;
    }
    let mut start = ranges[0].0;
    let mut end_excl = ranges[0].1;
    let mut i: usize = 1;
    while i < ranges.len()
        invariant
            1 <= i <= ranges.len(),
            start == min_start(ranges@.take(i as int)),
            end_excl == max_end(ranges@.take(i as int)),
        decreases ranges.len() - i,
    {
        proof {
            assert(ranges@.take(i + 1).drop_last() =~= ranges@.take(i as int));
        }
        if ranges[i].0 < start {
            start = ranges[i].0;
        }
        if ranges[i].1 > end_excl {
            end_excl = ranges[i].1;
        }
        i += 1;
    }
    proof {
        assert(ranges@.take(ranges.len() as int) =~= ranges@);
    }
    if end_excl == 0 {
        None
    } else {
        Some((start, end_excl - 1))
    }
}

/// Maps a timeline point through an op. Deleted points snap to the hole.
pub fn map_point_through_op(frame: u64, op: &EditOp) -> (out: u64)
    ensures
        out == map_point_spec(frame, *op),
{
    let ranges = map_range_through_op(frame, frame.saturating_add(1), op);
    first_mapped_frame(ranges.as_slice(), op, frame)
}

/// Maps a timeline point through an op. Returns `None` if the point was deleted.
pub fn map_point_if_kept(frame: u64, op: &EditOp) -> (out: Option<u64>)
    ensures
        out == map_point_if_kept_spec(frame, *op),
{
    let ranges = map_range_through_op(frame, frame.saturating_add(1), op);
    if ranges.len() > 0 {
        Some(ranges[0].0)
    } else {
        None
    }
}

/// Inverse of [`map_point_if_kept`] for undo / jumping backward.
pub fn map_point_if_kept_inverse(frame: u64, op: &EditOp) -> (out: Option<u64>)
    ensures
        out == map_point_if_kept_inverse_spec(frame, *op),
{
    match *op {
        EditOp::Trim { start, .. } => Some(start.saturating_add(frame)),
        _ => match invert_op(op) {
            Some(inv) => map_point_if_kept(frame, &inv),
            None => Some(frame),
        },
    }
}

/// Maps an inclusive `[start, end]` selection through an op.
pub fn map_inclusive_through_op(start: u64, end: u64, op: &EditOp) -> (out: Option<(u64, u64)>)
    ensures
        out == map_inclusive_spec(start, end, *op),
{
    let end_excl = end.saturating_add(1);
    let ranges = map_range_through_op(start, end_excl, op);
    span_mapped_inclusive(ranges.as_slice())
}

/// Inverse of [`map_point_through_op`] for undo / jumping backward.
pub fn map_point_through_inverse(frame: u64, op: &EditOp) -> (out: u64)
    ensures
        out == map_point_inverse_spec(frame, *op),
{
    match *op {
        EditOp::Trim { start, .. } => start.saturating_add(frame),
        _ => match invert_op(op) {
            Some(inv) => map_point_through_op(frame, &inv),
            None => frame,
        },
    }
}

/// Inverse of [`map_inclusive_through_op`] for undo / jumping backward.
pub fn map_inclusive_through_inverse(start: u64, end: u64, op: &EditOp) -> (out: Option<(u64, u64)>)
    ensures
        out == map_inclusive_inverse_spec(start, end, *op),
{
    match *op {
        EditOp::Trim { start: keep, .. } => Some(
            (keep.saturating_add(start), keep.saturating_add(end)),
        ),
        _ => match invert_op(op) {
            Some(inv) => map_inclusive_through_op(start, end, &inv),
            None => Some((start, end)),
        },
    }
}

} // verus!

verus! {

// ---------------------------------------------------------------------------
// Laws
// ---------------------------------------------------------------------------

/// The saturating additions made when `frame` is mapped through `op` and back
/// stay below `u64::MAX`.
pub open spec fn op_fits(op: EditOp, frame: u64) -> bool {
    match op {
        EditOp::Paste { at, len } => frame + len + 1 < u64::MAX && at + len < u64::MAX,
        EditOp::Duplicate { start, len } => frame + len + 1 < u64::MAX && start + 2 * len
            < u64::MAX,
        EditOp::Cut { start, len } => frame + len + 1 < u64::MAX && start + len < u64::MAX,
        EditOp::Remove { start, len } => frame + len + 1 < u64::MAX && start + len < u64::MAX,
        EditOp::Trim { start, len } => frame + 1 < u64::MAX && start + len < u64::MAX,
        EditOp::Move { from, len, dest } => frame + len + 1 < u64::MAX && from + 2 * len < u64::MAX
            && dest + len < u64::MAX,
        _ => frame + 1 < u64::MAX,
    }
}

proof fn lemma_nonempty_only_small(a: FrameRange, b: FrameRange)
    ensures
        nonempty_only(seq![]) == Seq::<FrameRange>::empty(),
        nonempty_only(seq![a]) == if a.0 < a.1 {
            seq![a]
        } else {
            Seq::<FrameRange>::empty()
        },
        nonempty_only(seq![a, b]) == if a.0 < a.1 {
            if b.0 < b.1 {
                seq![a, b]
            } else {
                seq![a]
            }
        } else {
            if b.0 < b.1 {
                seq![b]
            } else {
                Seq::<FrameRange>::empty()
            }
        },
{
    reveal_with_fuel(nonempty_only, 3);
    assert(seq![a].drop_last() =~= Seq::<FrameRange>::empty());
    assert(seq![a, b].drop_last() =~= seq![a]);
    assert(nonempty_only(Seq::<FrameRange>::empty()) == Seq::<FrameRange>::empty());
    assert(seq![a].last() == a);
    assert(seq![a, b].last() == b);
    assert(Seq::<FrameRange>::empty().push(a) =~= seq![a]);
    assert(seq![a].push(b) =~= seq![a, b]);
    assert(Seq::<FrameRange>::empty().push(b) =~= seq![b]);
}

proof fn lemma_insert_shift_all_small(r: FrameRange, at: u64, len: u64)
    ensures
        insert_shift_all(seq![], at, len) == Seq::<FrameRange>::empty(),
        insert_shift_all(seq![r], at, len) == insert_shift_spec(r.0, r.1, at, len),
{
    assert(seq![r].drop_last() =~= Seq::<FrameRange>::empty());
    assert(Seq::<FrameRange>::empty() + insert_shift_spec(r.0, r.1, at, len) =~= insert_shift_spec(
        r.0,
        r.1,
        at,
        len,
    ));
}

proof fn lemma_seq_concat_small(a: FrameRange)
    ensures
        Seq::<FrameRange>::empty() + seq![a] == seq![a],
        seq![a] + Seq::<FrameRange>::empty() == seq![a],
        Seq::<FrameRange>::empty() + Seq::<FrameRange>::empty() == Seq::<FrameRange>::empty(),
{
    assert(Seq::<FrameRange>::empty() + seq![a] =~= seq![a]);
    assert(seq![a] + Seq::<FrameRange>::empty() =~= seq![a]);
    assert(Seq::<FrameRange>::empty() + Seq::<FrameRange>::empty() =~= Seq::<FrameRange>::empty());
}

/// Where a single kept point lands: the one-frame range it maps to.
proof fn lemma_point_move(p: u64, from: u64, len: u64, dest: u64)
    requires
        len > 0,
        p + len + 1 < u64::MAX,
        from + len < u64::MAX,
        dest + len < u64::MAX,
    ensures
        ({
            let ia = move_insert_at(from, len, dest);
            let q = if from <= p && p < from + len {
                ia + (p - from)
            } else if p < from {
                if p < ia {
                    p as int
                } else {
                    p + len
                }
            } else {
                if p - len < ia {
                    p - len
                } else {
                    p as int
                }
            };
            map_through_move_spec(p, (p + 1) as u64, from, len, dest) == seq![(q as u64, (q + 1) as u64)]
        }),
{
    let ia = move_insert_at(from, len, dest);
    let outside = remove_shift_spec(p, (p + 1) as u64, from, len);
    if from <= p && p < from + len {
        lemma_nonempty_only_small((p, (p + 1) as u64), (p, (p + 1) as u64));
        assert(outside == Seq::<FrameRange>::empty());
        lemma_insert_shift_all_small((p, p), ia, len);
        let inner = seq![((ia + (p - from)) as u64, (ia + (p - from) + 1) as u64)];
        lemma_seq_concat_small(((ia + (p - from)) as u64, (ia + (p - from) + 1) as u64));
        lemma_nonempty_only_small(inner[0], inner[0]);
    } else if p < from {
        assert(outside == seq![(p, (p + 1) as u64)]);
        lemma_insert_shift_all_small((p, (p + 1) as u64), ia, len);
        let shifted = insert_shift_spec(p, (p + 1) as u64, ia, len);
        assert(shifted.len() == 1);
        lemma_seq_concat_small(shifted[0]);
        assert(Seq::<FrameRange>::empty() + shifted =~= shifted);
        lemma_nonempty_only_small(shifted[0], shifted[0]);
        assert(shifted =~= seq![shifted[0]]);
    } else {
        lemma_nonempty_only_small(((p - len) as u64, (p + 1 - len) as u64), (p, p));
        assert(outside == seq![((p - len) as u64, (p + 1 - len) as u64)]);
        lemma_insert_shift_all_small(((p - len) as u64, (p + 1 - len) as u64), ia, len);
        let shifted = insert_shift_spec((p - len) as u64, (p + 1 - len) as u64, ia, len);
        assert(shifted.len() == 1);
        assert(Seq::<FrameRange>::empty() + shifted =~= shifted);
        lemma_nonempty_only_small(shifted[0], shifted[0]);
        assert(shifted =~= seq![shifted[0]]);
    }
}

/// A point that an op keeps comes back to where it was when it is mapped
/// through the op and then through the op's inverse.
pub proof fn law_kept_point_round_trip(p: u64, op: EditOp)
    requires
        op_fits(op, p),
        map_point_if_kept_spec(p, op) is Some,
    ensures
        map_point_if_kept_inverse_spec(map_point_if_kept_spec(p, op)->Some_0, op) == Some(p),
        map_point_inverse_spec(map_point_spec(p, op), op) == p,
{
    let q = map_point_if_kept_spec(p, op)->Some_0;
    assert(map_point_spec(p, op) == q);
    lemma_nonempty_only_small((p, (p + 1) as u64), (p, p));
    match op {
        EditOp::Paste { at, len } => {
            if len > 0 {
                lemma_nonempty_only_small((q, (q + 1) as u64), (q, q));
            }
        },
        EditOp::Duplicate { start, len } => {
            if len > 0 {
                lemma_nonempty_only_small((q, (q + 1) as u64), (q, q));
            }
        },
        EditOp::Cut { start, len } => {
            if len > 0 {
                lemma_nonempty_only_small(((p - len) as u64, (p + 1 - len) as u64), (p, p));
                if p < start {
                    lemma_nonempty_only_small((p, (p + 1) as u64), ((start + len) as u64, (p + 1 - len) as u64));
                }
            }
        },
        EditOp::Remove { start, len } => {
            if len > 0 {
                lemma_nonempty_only_small(((p - len) as u64, (p + 1 - len) as u64), (p, p));
                if p < start {
                    lemma_nonempty_only_small((p, (p + 1) as u64), ((start + len) as u64, (p + 1 - len) as u64));
                }
            }
        },
        EditOp::Move { from, len, dest } => {
            if len > 0 {
                lemma_point_move(p, from, len, dest);
                let ia = move_insert_at(from, len, dest);
                lemma_point_move(q, ia, len, move_back_dest(from, len, dest));
            }
        },
        _ => {},
    }
}


/// A move keeps every frame and sends it to one place: a frame of the moved
/// block goes to the same offset from where the block is put back; a frame
/// outside it first closes the block's gap, then makes room for the block.
pub proof fn law_move_maps_each_frame(p: u64, from: u64, len: u64, dest: u64)
    requires
        len > 0,
        p + len + 1 < u64::MAX,
        from + len < u64::MAX,
        dest + len < u64::MAX,
    ensures
        ({
            let ia = move_insert_at(from, len, dest);
            let closed = if p >= from + len {
                p - len
            } else {
                p as int
            };
            let q = if from <= p < from + len {
                ia + (p - from)
            } else if closed < ia {
                closed
            } else {
                closed + len
            };
            &&& map_point_if_kept_spec(p, EditOp::Move { from, len, dest }) == Some(q as u64)
            &&& map_point_spec(p, EditOp::Move { from, len, dest }) == q
        }),
{
    lemma_point_move(p, from, len, dest);
}

/// A delete puts silence in place of its range, so nothing on the timeline
/// moves: every range and every point maps, and maps back, to itself.
pub proof fn law_delete_moves_nothing(s: u64, e: u64, p: u64, start: u64, len: u64)
    requires
        s < e,
        p + 1 < u64::MAX,
    ensures
        map_range_spec(s, e, EditOp::Delete { start, len }) == seq![(s, e)],
        map_point_if_kept_spec(p, EditOp::Delete { start, len }) == Some(p),
        map_point_spec(p, EditOp::Delete { start, len }) == p,
        map_point_if_kept_inverse_spec(p, EditOp::Delete { start, len }) == Some(p),
        map_point_inverse_spec(p, EditOp::Delete { start, len }) == p,
{
}

/// Cut and Remove delete exactly the points of `[start, start + len)`: those
/// points are not kept and snap to `start`; every other point is kept.
pub proof fn law_removed_points_snap_to_hole(p: u64, op: EditOp)
    requires
        op is Cut || op is Remove,
        op_fits(op, p),
    ensures
        ({
            let (start, len) = match op {
                EditOp::Cut { start, len } => (start, len),
                EditOp::Remove { start, len } => (start, len),
                _ => (0u64, 0u64),
            };
            &&& (start <= p < start + len) ==> map_point_if_kept_spec(p, op) is None
                && map_point_spec(p, op) == start
            &&& !(start <= p < start + len) ==> map_point_if_kept_spec(p, op) is Some
        }),
{
    lemma_nonempty_only_small((p, (p + 1) as u64), (p, p));
    match op {
        EditOp::Cut { start, len } => {
            if len > 0 {
                lemma_nonempty_only_small(((p - len) as u64, (p + 1 - len) as u64), (p, p));
                if p < start {
                    lemma_nonempty_only_small((p, (p + 1) as u64), ((start + len) as u64, (p + 1 - len) as u64));
                }
                if start <= p && p < start + len {
                    lemma_nonempty_only_small((p, p), (start, (p + 1 - len) as u64));
                    lemma_nonempty_only_small((start, (p + 1 - len) as u64), (p, p));
                }
            }
        },
        EditOp::Remove { start, len } => {
            if len > 0 {
                lemma_nonempty_only_small(((p - len) as u64, (p + 1 - len) as u64), (p, p));
                if p < start {
                    lemma_nonempty_only_small((p, (p + 1) as u64), ((start + len) as u64, (p + 1 - len) as u64));
                }
                if start <= p && p < start + len {
                    lemma_nonempty_only_small((p, p), (start, (p + 1 - len) as u64));
                    lemma_nonempty_only_small((start, (p + 1 - len) as u64), (p, p));
                }
            }
        },
        _ => {},
    }
}

/// Cut and Remove close the gap they leave: a point before the range stays,
/// one after it moves back by `len`, one inside it is not kept.
pub proof fn law_remove_closes_gap(p: u64, op: EditOp)
    requires
        op is Cut || op is Remove,
        op_fits(op, p),
    ensures
        ({
            let (start, len) = match op {
                EditOp::Cut { start, len } => (start, len),
                EditOp::Remove { start, len } => (start, len),
                _ => (0u64, 0u64),
            };
            &&& p < start ==> map_point_if_kept_spec(p, op) == Some(p)
            &&& p >= start + len ==> map_point_if_kept_spec(p, op) == Some((p - len) as u64)
            &&& start <= p < start + len ==> map_point_if_kept_spec(p, op) is None
        }),
{
    law_removed_points_snap_to_hole(p, op);
    lemma_nonempty_only_small((p, (p + 1) as u64), (p, p));
    let (start, len) = match op {
        EditOp::Cut { start, len } => (start, len),
        EditOp::Remove { start, len } => (start, len),
        _ => (0u64, 0u64),
    };
    if len > 0 {
        lemma_nonempty_only_small(((p - len) as u64, (p + 1 - len) as u64), (p, p));
        if p < start {
            lemma_nonempty_only_small((p, (p + 1) as u64), ((start + len) as u64, (p + 1 - len) as u64));
        }
    }
}

/// Trim keeps exactly the points of `[start, start + len)`, each shifted down
/// by `start`; the others are dropped and snap to frame 0.
pub proof fn law_trim_keeps_window(p: u64, start: u64, len: u64)
    requires
        op_fits(EditOp::Trim { start, len }, p),
    ensures
        (start <= p < start + len) ==> map_point_if_kept_spec(p, EditOp::Trim { start, len })
            == Some((p - start) as u64),
        !(start <= p < start + len) ==> map_point_if_kept_spec(p, EditOp::Trim { start, len })
            is None && map_point_spec(p, EditOp::Trim { start, len }) == 0,
{
}

/// The frame an insertion of `len` frames at `at` moves `x` to.
pub open spec fn shifted_by_insert(x: u64, at: u64, len: u64) -> u64 {
    if x < at {
        x
    } else {
        (x + len) as u64
    }
}

/// Pasting or duplicating keeps an inclusive selection whole: each end moves
/// by the inserted length when it lies at or after the insertion point, so a
/// selection that spans the insertion point grows by that length.
pub proof fn law_insert_expands_inclusive(s: u64, e: u64, op: EditOp)
    requires
        op is Paste || op is Duplicate,
        s <= e,
        op_fits(op, e),
    ensures
        ({
            let (at, len) = match op {
                EditOp::Paste { at, len } => (at, len),
                EditOp::Duplicate { start, len } => ((start + len) as u64, len),
                _ => (0u64, 0u64),
            };
            map_inclusive_spec(s, e, op) == Some(
                (shifted_by_insert(s, at, len), shifted_by_insert(e, at, len)),
            )
        }),
{
    reveal_with_fuel(min_start, 3);
    reveal_with_fuel(max_end, 3);
    let (at, len) = match op {
        EditOp::Paste { at, len } => (at, len),
        EditOp::Duplicate { start, len } => ((start + len) as u64, len),
        _ => (0u64, 0u64),
    };
    let r = map_range_spec(s, (e + 1) as u64, op);
    if s < at && at < e + 1 {
        assert(r == seq![(s, at), ((at + len) as u64, (e + 1 + len) as u64)]);
        assert(r.drop_last() =~= seq![(s, at)]);
    }
}
// ---------------------------------------------------------------------------
// Where edits landed
// ---------------------------------------------------------------------------

/// Where `op` put new material on the timeline it produced; `pre` is the
/// timeline before it.
pub open spec fn landing_spec(op: EditOp, pre: Seq<ClipValue>) -> Seq<FrameRange> {
    match op {
        EditOp::Init | EditOp::Copy { .. } | EditOp::Cut { .. } | EditOp::Remove { .. } => seq![],
        EditOp::Delete { start, len } => if len > 0 {
            seq![(start, start.saturating_add(len))]
        } else {
            seq![]
        },
        EditOp::Paste { at, len } => if len > 0 {
            seq![(at, at.saturating_add(len))]
        } else {
            seq![]
        },
        EditOp::Trim { len, .. } => if len > 0 {
            seq![(0u64, len)]
        } else {
            seq![]
        },
        EditOp::Duplicate { start, len } => if len > 0 {
            let insert_at = start.saturating_add(len);
            seq![(insert_at, insert_at.saturating_add(len))]
        } else {
            seq![]
        },
        EditOp::Move { from, len, dest } => if len > 0 {
            let insert_at = move_insert_at(from, len, dest);
            seq![(insert_at, insert_at.saturating_add(len))]
        } else {
            seq![]
        },
        EditOp::Roll { at, .. } => if at < total(pre) {
            let found = locate(pre, at as int);
            let end = found.1 + pre[found.0].len;
            if found.1 < end {
                seq![(found.1 as u64, end as u64)]
            } else {
                seq![]
            }
        } else {
            seq![]
        },
    }
}

/// Every range of `rs` mapped through `op`, in order.
pub open spec fn map_all(rs: Seq<FrameRange>, op: EditOp) -> Seq<FrameRange>
    decreases rs.len(),
{
    if rs.len() == 0 {
        seq![]
    } else {
        map_all(rs.drop_last(), op) + map_range_spec(rs.last().0, rs.last().1, op)
    }
}

/// `rs` mapped through each op of `ops` in turn.
pub open spec fn map_through_ops(rs: Seq<FrameRange>, ops: Seq<EditOp>) -> Seq<FrameRange>
    decreases ops.len(),
{
    if ops.len() == 0 {
        rs
    } else {
        map_all(map_through_ops(rs, ops.drop_last()), ops.last())
    }
}

pub open spec fn ops_of(edits: Seq<Edit>) -> Seq<EditOp> {
    edits.map_values(|e: Edit| e.op)
}

/// Where edit `index` landed on the timeline at `cursor`: nothing for the
/// initial entry or an edit after the cursor.
pub open spec fn ranges_for_edit_spec(edits: Seq<Edit>, cursor: int, index: int) -> Seq<FrameRange> {
    if index == 0 || index > cursor || index >= edits.len() {
        seq![]
    } else {
        map_through_ops(
            landing_spec(edits[index].op, edits[index - 1].snapshot@),
            ops_of(edits.subrange(index + 1, cursor + 1)),
        )
    }
}

/// `sorted` with `r` put after every range that starts at or before it.
pub open spec fn insert_by_start(sorted: Seq<FrameRange>, r: FrameRange) -> Seq<FrameRange>
    decreases sorted.len(),
{
    if sorted.len() == 0 {
        seq![r]
    } else if sorted.last().0 <= r.0 {
        sorted.push(r)
    } else {
        insert_by_start(sorted.drop_last(), r).push(sorted.last())
    }
}

/// `s` sorted by start, ranges with equal starts kept in their order.
pub open spec fn sort_by_start(s: Seq<FrameRange>) -> Seq<FrameRange>
    decreases s.len(),
{
    if s.len() == 0 {
        seq![]
    } else {
        insert_by_start(sort_by_start(s.drop_last()), s.last())
    }
}

/// The landings of edits `1..=last` on the timeline at `cursor`, in edit order.
pub open spec fn all_landings(edits: Seq<Edit>, cursor: int, last: int) -> Seq<FrameRange>
    decreases last,
{
    if last <= 0 {
        seq![]
    } else {
        all_landings(edits, cursor, last - 1) + ranges_for_edit_spec(edits, cursor, last)
    }
}

pub open spec fn modified_ranges_spec(edits: Seq<Edit>, cursor: int) -> Seq<FrameRange> {
    if edits.len() == 0 {
        seq![]
    } else {
        let c = if cursor < edits.len() - 1 {
            cursor
        } else {
            edits.len() - 1
        };
        sort_by_start(all_landings(edits, c, c))
    }
}

/// Where `op` put new material on the timeline it produced, `pre` being the
/// timeline before it.
pub fn landing_ranges(op: &EditOp, pre: &ClipTree) -> (out: Vec<FrameRange>)
    requires
        pre.wf(),
    ensures
        out@ == landing_spec(*op, pre@),
{
    match *op {
        EditOp::Init | EditOp::Copy { .. } | EditOp::Cut { .. } | EditOp::Remove { .. } => Vec::new(),
        EditOp::Delete { start, len } => if len > 0 {
            vec![(start, start.saturating_add(len))]
        } else {
            Vec::new()
        },
        EditOp::Paste { at, len } => if len > 0 {
            vec![(at, at.saturating_add(len))]
        } else {
            Vec::new()
        },
        EditOp::Trim { len, .. } => if len > 0 {
            vec![(0, len)]
        } else {
            Vec::new()
        },
        EditOp::Duplicate { start, len } => if len > 0 {
            let insert_at = start.saturating_add(len);
            vec![(insert_at, insert_at.saturating_add(len))]
        } else {
            Vec::new()
        },
        EditOp::Move { from, len, dest } => if len > 0 {
            let insert_at = if dest > from {
                dest.saturating_sub(len)
            } else {
                dest
            };
            vec![(insert_at, insert_at.saturating_add(len))]
        } else {
            Vec::new()
        },
        EditOp::Roll { at, .. } => match pre.at(at) {
            Some(span) => {
                proof {
                    pre.lemma_wf();
                    crate::tree::law_locate_holds_frame(pre@, at as int);
                    let k = locate(pre@, at as int).0;
                    crate::tree::lemma_total_take(pre@, k + 1);
                    assert(pre@.take(k + 1).drop_last() =~= pre@.take(k));
                }
                let end = span.end();
                if span.start < end {
                    vec![(span.start, end)]
                } else {
                    Vec::new()
                }
            },
            None => Vec::new(),
        },
    }
}

/// Every range of `ranges` mapped through each op of `edits` in turn.
pub fn map_ranges_through_ops(ranges: Vec<FrameRange>, edits: &[Edit]) -> (out: Vec<FrameRange>)
    ensures
        out@ == map_through_ops(ranges@, ops_of(edits@)),
{
    let mut current = ranges;
    let mut k: usize = 0;
    proof {
        assert(ops_of(edits@).take(0) =~= Seq::<EditOp>::empty());
    }
    while k < edits.len()
        invariant
            k <= edits@.len(),
            current@ == map_through_ops(ranges@, ops_of(edits@).take(k as int)),
        decreases edits@.len() - k,
    {
        let op = edits[k].op;
        let mut next: Vec<FrameRange> = Vec::new();
        let mut i: usize = 0;
        proof {
            assert(current@.take(0) =~= Seq::<FrameRange>::empty());
        }
        while i < current.len()
            invariant
                i <= current@.len(),
                next@ == map_all(current@.take(i as int), op),
            decreases current@.len() - i,
        {
            let (start, end) = current[i];
            let mut mapped = map_range_through_op(start, end, &op);
            proof {
                assert(current@.take(i + 1).drop_last() =~= current@.take(i as int));
                assert(current@.take(i + 1).last() == (start, end));
            }
            next.append(&mut mapped);
            i += 1;
        }
        proof {
            assert(current@.take(current@.len() as int) =~= current@);
            let ops = ops_of(edits@);
            assert(ops.take(k + 1).drop_last() =~= ops.take(k as int));
            assert(ops.take(k + 1).last() == op);
        }
        current = next;
        k += 1;
    }
    proof {
        assert(ops_of(edits@).take(edits@.len() as int) =~= ops_of(edits@));
    }
    current
}

/// Where edit `index` landed on the timeline at `cursor`: empty for the
/// initial entry and for an edit after the cursor.
pub fn ranges_for_edit(edits: &[Edit], cursor: usize, index: usize) -> (out: Vec<FrameRange>)
    requires
        cursor < edits@.len(),
        forall|i: int| 0 <= i < edits@.len() ==> (#[trigger] edits@[i]).snapshot.wf(),
    ensures
        out@ == ranges_for_edit_spec(edits@, cursor as int, index as int),
{
    if index == 0 || index > cursor || index >= edits.len() {
        return Vec::new();
    }
    let ranges = landing_ranges(&edits[index].op, &edits[index - 1].snapshot);
    let later = slice_range(edits, index + 1, cursor + 1);
    map_ranges_through_ops(ranges, later)
}

/// The entries `from..to` of `edits`.
fn slice_range(edits: &[Edit], from: usize, to: usize) -> (out: &[Edit])
    requires
        from <= to <= edits@.len(),
    ensures
        out@ == edits@.subrange(from as int, to as int),
{
    let (head, _) = edits.split_at(to);
    let (_, tail) = head.split_at(from);
    tail
}

/// Inserts `r` into `sorted` after every range that starts at or before it.
fn insert_sorted_by_start(sorted: &mut Vec<FrameRange>, r: FrameRange)
    ensures
        final(sorted)@ == insert_by_start(old(sorted)@, r),
{
    let ghost s = sorted@;
    let mut p: usize = sorted.len();
    while p > 0 && sorted[p - 1].0 > r.0
        invariant
            p <= s.len(),
            sorted@ == s,
            forall|k: int| p <= k < s.len() ==> (#[trigger] s[k]).0 > r.0,
        decreases p,
    {
        p -= 1;
    }
    proof {
        lemma_insert_by_start_at(s, r, p as int);
    }
    sorted.insert(p, r);
}

proof fn lemma_insert_by_start_at(s: Seq<FrameRange>, r: FrameRange, p: int)
    requires
        0 <= p <= s.len(),
        p > 0 ==> s[p - 1].0 <= r.0,
        forall|k: int| p <= k < s.len() ==> (#[trigger] s[k]).0 > r.0,
    ensures
        insert_by_start(s, r) == s.insert(p, r),
    decreases s.len(),
{
    if s.len() == 0 {
        assert(s.insert(p, r) =~= seq![r]);
    } else if p == s.len() {
        assert(s.insert(p, r) =~= s.push(r));
    } else {
        let t = s.drop_last();
        assert forall|k: int| p <= k < t.len() implies (#[trigger] t[k]).0 > r.0 by {
            assert(t[k] == s[k]);
        }
        if p > 0 {
            assert(t[p - 1] == s[p - 1]);
        }
        lemma_insert_by_start_at(t, r, p);
        assert(t.insert(p, r).push(s.last()) =~= s.insert(p, r));
    }
}

/// Regions changed by the applied edits, on the timeline at `cursor`, sorted
/// by start; landings of different edits stay separate.
pub fn modified_ranges(edits: &[Edit], cursor: usize) -> (out: Vec<FrameRange>)
    requires
        forall|i: int| 0 <= i < edits@.len() ==> (#[trigger] edits@[i]).snapshot.wf(),
    ensures
        out@ == modified_ranges_spec(edits@, cursor as int),
{
    if edits.len() == 0 {
        return Vec::new();
    }
    let c = if cursor < edits.len() - 1 {
        cursor
    } else {
        edits.len() - 1
    };
    let n = edits.len();
    let mut all: Vec<FrameRange> = Vec::new();
    let mut index: usize = 1;
    while index <= c
        invariant
            1 <= index <= c + 1,
            c < n,
            n == edits@.len(),
            forall|i: int| 0 <= i < edits@.len() ==> (#[trigger] edits@[i]).snapshot.wf(),
            all@ == all_landings(edits@, c as int, index - 1),
        decreases c + 1 - index,
    {
        let mut more = ranges_for_edit(edits, c, index);
        all.append(&mut more);
        index += 1;
    }
    let mut sorted: Vec<FrameRange> = Vec::new();
    let mut i: usize = 0;
    proof {
        assert(all@.take(0) =~= Seq::<FrameRange>::empty());
    }
    while i < all.len()
        invariant
            i <= all@.len(),
            sorted@ == sort_by_start(all@.take(i as int)),
        decreases all@.len() - i,
    {
        proof {
            assert(all@.take(i + 1).drop_last() =~= all@.take(i as int));
        }
        insert_sorted_by_start(&mut sorted, all[i]);
        i += 1;
    }
    proof {
        assert(all@.take(all@.len() as int) =~= all@);
    }
    sorted
}

} // verus!
