use vstd::prelude::*;

use crate::buffer::{ChannelScope, Region, RegionId};
use crate::composition::{
    copied, cut_done, deleted, duplicated, jumped, pasted, redone, removed, replay_fits, rolled, trimmed,
    undone, Composition, CompositionError,
};
use crate::edit_op::{EditId, EditOp};
use crate::edit_ranges::{
    map_inclusive_inverse_spec, map_inclusive_spec, map_inclusive_through_inverse, map_inclusive_through_op,
    map_point_inverse_spec, map_point_spec, map_point_through_inverse, map_point_through_op, ops_of,
};
use crate::edl::{index_of_id, Edit};
use crate::markers::{
    default_marker_type, has_key, has_marker_id, insert_sorted_spec, marker_type_color, marker_type_color_spec,
    mkey, without_frame, Marker, MarkerId,
};
use crate::selection::{SamplePosition, Selection};
use crate::tree::{kept_frames, total, values_of};

verus! {

/// A drag shorter than this many samples is a click.
pub const DRAG_THRESHOLD_SAMPLES: usize = 0;

/// The channels of a scope: `None` for all of them.
pub type Channels = Option<Seq<usize>>;

/// The abstract value of a selection.
pub enum SelectionView {
    Nothing,
    Position { sample: usize, channels: Channels },
    Region { region_id: Option<RegionId>, start: usize, end: usize, channels: Channels },
}

pub open spec fn sel_view(s: Selection) -> SelectionView {
    match s {
        Selection::Nothing => SelectionView::Nothing,
        Selection::Position(p) => SelectionView::Position { sample: p.sample, channels: p.channels.view_channels() },
        Selection::Region { region_id, start, end, channels } => SelectionView::Region {
            region_id,
            start,
            end,
            channels: channels.view_channels(),
        },
    }
}

/// The abstract value of a caret.
pub open spec fn pos_view(p: Option<SamplePosition>) -> Option<(usize, Channels)> {
    match p {
        Some(p) => Some((p.sample, p.channels.view_channels())),
        None => None,
    }
}

/// The last sample of a timeline of `frames` samples (0 when empty).
pub open spec fn last_sample(frames: usize) -> usize {
    if frames == 0 {
        0
    } else {
        (frames - 1) as usize
    }
}

/// `sample` kept within a timeline of `frames` samples.
pub open spec fn clamp_to(sample: usize, frames: usize) -> usize {
    if sample <= last_sample(frames) {
        sample
    } else {
        last_sample(frames)
    }
}

/// `(a, b)` in order.
pub open spec fn ordered(a: usize, b: usize) -> (usize, usize) {
    if a <= b {
        (a, b)
    } else {
        (b, a)
    }
}

/// The channel a scope snaps on: its first channel, or 0.
pub open spec fn snap_channel_of(channels: Channels) -> usize {
    match channels {
        Some(chs) => if chs.len() > 0 {
            chs[0]
        } else {
            0
        },
        None => 0,
    }
}

/// Whether `r` is where `sample` lands after snapping: itself with snapping
/// off, else a result of `snap` on the scope's channel.
pub open spec fn snaps_to<S: Fn(usize, usize) -> usize>(
    on: bool,
    snap: S,
    channels: Channels,
    sample: usize,
    r: usize,
) -> bool {
    if on {
        snap.ensures((snap_channel_of(channels), sample), r)
    } else {
        r == sample
    }
}

/// Whether `r1`, `r2`, `r3` are the snapped samples of a drag from `anchor`
/// to `sample`: `r1` of `sample`, then `r2` and `r3` of the two ends between
/// the anchor and the kept `r1`, in order.
pub open spec fn drag_snaps<S: Fn(usize, usize) -> usize>(
    on: bool,
    snap: S,
    channels: Channels,
    anchor: usize,
    sample: usize,
    frames: usize,
    r1: usize,
    r2: usize,
    r3: usize,
) -> bool {
    let b = ordered(anchor, clamp_to(r1, frames));
    &&& snaps_to(on, snap, channels, sample, r1)
    &&& snaps_to(on, snap, channels, b.0, r2)
    &&& snaps_to(on, snap, channels, b.1, r3)
}

/// The region a region selection was made from.
pub open spec fn region_id_of(s: SelectionView) -> Option<RegionId> {
    match s {
        SelectionView::Region { region_id, .. } => region_id,
        _ => None,
    }
}

/// The channels of a selection (`None`, all of them, when nothing is
/// selected).
pub open spec fn channels_of(s: SelectionView) -> Channels {
    match s {
        SelectionView::Nothing => None,
        SelectionView::Position { channels, .. } => channels,
        SelectionView::Region { channels, .. } => channels,
    }
}

/// The id of the last region of `regions` that holds `sample` on `lane`.
pub open spec fn last_hit(regions: Seq<Region>, sample: usize, lane: usize) -> Option<RegionId>
    decreases regions.len(),
{
    if regions.len() == 0 {
        None
    } else if regions.last().contains_spec(sample, lane) {
        Some(regions.last().id)
    } else {
        last_hit(regions.drop_last(), sample, lane)
    }
}

/// The index of the first region of `regions` with id `id`, or `regions.len()`.
pub open spec fn first_with_id(regions: Seq<Region>, id: RegionId) -> int
    decreases regions.len(),
{
    if regions.len() == 0 {
        0
    } else if regions[0].id == id {
        0
    } else {
        first_with_id(regions.drop_first(), id) + 1
    }
}

/// The span a selection covers, as a start and a length.
pub open spec fn selection_span_spec(s: SelectionView) -> Option<(u64, u64)> {
    match s {
        SelectionView::Region { start, end, .. } => if end >= start {
            let len = (end as u64 - start as u64) + 1;
            Some((start as u64, if len > u64::MAX { u64::MAX } else { len as u64 }))
        } else {
            None
        },
        _ => None,
    }
}

/// A document: a composition with its regions, selection, caret and drag
/// state.
pub struct BufferDocument {
    pub composition: Composition,
    pub regions: Vec<Region>,
    pub selection: Selection,
    pub current_position: Option<SamplePosition>,
    pub snap_zero_crossings: bool,
    pub region_drag_anchor: Option<usize>,
    pub next_region_id: u64,
}

impl BufferDocument {
    pub open spec fn drag_anchor(&self) -> Option<usize> {
        self.region_drag_anchor
    }

    pub open spec fn next_region_id_spec(&self) -> u64 {
        self.next_region_id
    }

    /// The samples of the timeline.
    pub open spec fn frames_spec(&self) -> usize {
        total(self.composition.timeline()) as usize
    }

    pub open spec fn wf(&self) -> bool {
        self.composition.wf()
    }

    /// A document over `composition`, with nothing selected.
    pub fn new(composition: Composition) -> (d: BufferDocument)
        ensures
            d.composition == composition,
            d.regions@.len() == 0,
            d.selection == Selection::Nothing,
            d.current_position is None,
            !d.snap_zero_crossings,
            d.drag_anchor() is None,
            d.next_region_id_spec() == 1,
    {
        BufferDocument {
            composition,
            regions: Vec::new(),
            selection: Selection::Nothing,
            current_position: None,
            snap_zero_crossings: false,
            region_drag_anchor: None,
            next_region_id: 1,
        }
    }

    pub fn frames(&self) -> (f: usize)
        requires
            self.wf(),
        ensures
            f == self.frames_spec(),
    {
        self.composition.frames() as usize
    }

    pub fn sample_rate(&self) -> (r: u32)
        ensures
            r == self.composition.sample_rate_spec(),
    {
        self.composition.sample_rate()
    }

    pub fn is_loaded(&self) -> (b: bool)
        requires
            self.wf(),
        ensures
            b == (self.frames_spec() > 0),
    {
        self.frames() > 0
    }

    pub fn toggle_zero_crossing_snap(&mut self)
        ensures
            final(self).snap_zero_crossings == !old(self).snap_zero_crossings,
            final(self).composition == old(self).composition,
            final(self).selection == old(self).selection,
            final(self).current_position == old(self).current_position,
            final(self).regions == old(self).regions,
            final(self).drag_anchor() == old(self).drag_anchor(),
            final(self).next_region_id_spec() == old(self).next_region_id_spec(),
    {
        self.snap_zero_crossings = !self.snap_zero_crossings;
    }

    pub fn is_region_drag_active(&self) -> (b: bool)
        ensures
            b == (self.drag_anchor() is Some),
    {
        self.region_drag_anchor.is_some()
    }

    fn snap_sample<S: Fn(usize, usize) -> usize>(&self, scope: &ChannelScope, sample: usize, snap: &S) -> (r: usize)
        requires
            forall|c: usize, x: usize| snap.requires((c, x)),
        ensures
            snaps_to(self.snap_zero_crossings, *snap, scope.view_channels(), sample, r),
    {
        if !self.snap_zero_crossings {
            return sample;
        }
        let channel = match scope {
            ChannelScope::AllChannels => 0,
            ChannelScope::Channels(chs) => if chs.len() > 0 {
                chs[0]
            } else {
                0
            },
        };
        snap(channel, sample)
    }

    fn clamp_sample(&self, sample: usize) -> (r: usize)
        requires
            self.wf(),
        ensures
            r == clamp_to(sample, self.frames_spec()),
    {
        let max = self.frames().saturating_sub(1);
        if sample < max {
            sample
        } else {
            max
        }
    }

    /// The two ends of a region in order.
    pub fn normalized_region_bounds(start: usize, end: usize) -> (r: (usize, usize))
        ensures
            r == ordered(start, end),
    {
        if start <= end {
            (start, end)
        } else {
            (end, start)
        }
    }

    /// The scope a click on `lane` selects: that lane alone with `alt`, else
    /// every channel.
    pub fn channel_scope_for_lane(&self, lane: usize, alt: bool) -> (s: ChannelScope)
        ensures
            s.view_channels() == if alt {
                Some(seq![lane])
            } else {
                None::<Seq<usize>>
            },
    {
        if alt {
            ChannelScope::single(lane)
        } else {
            ChannelScope::all()
        }
    }

    /// The id of the topmost region under `sample` on `lane`.
    pub fn hit_test_region(&self, sample: usize, lane: usize) -> (r: Option<RegionId>)
        ensures
            r == last_hit(self.regions@, sample, lane),
    {
        let mut i: usize = self.regions.len();
        proof {
            assert(self.regions@.take(i as int) =~= self.regions@);
        }
        while i > 0
            invariant
                i <= self.regions@.len(),
                last_hit(self.regions@, sample, lane) == last_hit(self.regions@.take(i as int), sample, lane),
            decreases i,
        {
            let r = &self.regions[i - 1];
            proof {
                assert(self.regions@.take(i as int).last() == self.regions@[i - 1]);
                assert(self.regions@.take(i as int).drop_last() =~= self.regions@.take(i - 1));
            }
            if r.contains(sample, lane) {
                return Some(r.id);
            }
            i -= 1;
        }
        None
    }

    /// A region over the whole timeline on every channel.
    pub fn full_region(&self) -> (r: Region)
        requires
            self.wf(),
        ensures
            r.id == RegionId(0),
            r.start == 0,
            r.end == last_sample(self.frames_spec()),
            r.channels.view_channels() is None,
    {
        let end = self.frames().saturating_sub(1);
        Region { id: RegionId(0), start: 0, end, channels: ChannelScope::all() }
    }

    /// The first region with id `id`.
    pub fn region(&self, id: RegionId) -> (r: Option<&Region>)
        ensures
            first_with_id(self.regions@, id) < self.regions@.len() ==> r == Some(
                &self.regions@[first_with_id(self.regions@, id)],
            ),
            first_with_id(self.regions@, id) >= self.regions@.len() ==> r is None,
    {
        match self.region_index(id) {
            Some(k) => Some(&self.regions[k]),
            None => None,
        }
    }

    /// The index of the first region with id `id`.
    fn region_index(&self, id: RegionId) -> (r: Option<usize>)
        ensures
            first_with_id(self.regions@, id) < self.regions@.len() ==> r == Some(
                first_with_id(self.regions@, id) as usize,
            ),
            first_with_id(self.regions@, id) >= self.regions@.len() ==> r is None,
            r matches Some(k) ==> k < self.regions@.len() && self.regions@[k as int].id == id && k
                == first_with_id(self.regions@, id),
    {
        proof {
            lemma_first_with_id_bound(self.regions@, id);
        }
        let mut i: usize = 0;
        while i < self.regions.len()
            invariant
                i <= self.regions@.len(),
                forall|k: int| 0 <= k < i ==> (#[trigger] self.regions@[k]).id != id,
            decreases self.regions@.len() - i,
        {
            if self.regions[i].id == id {
                proof {
                    lemma_first_with_id(self.regions@, id, i as int);
                }
                return Some(i);
            }
            i += 1;
        }
        proof {
            lemma_first_with_id(self.regions@, id, self.regions@.len() as int);
        }
        None
    }

    /// Puts the caret at `sample` (snapped, then kept within the timeline)
    /// on `scope`, and selects it.
    pub fn set_position<S: Fn(usize, usize) -> usize>(&mut self, sample: usize, scope: ChannelScope, snap: &S)
        requires
            old(self).wf(),
            forall|c: usize, x: usize| snap.requires((c, x)),
        ensures
            final(self).wf(),
            exists|r: usize|
                snaps_to(old(self).snap_zero_crossings, *snap, scope.view_channels(), sample, r) && {
                    let s = clamp_to(r, old(self).frames_spec());
                    &&& sel_view(final(self).selection) == (SelectionView::Position {
                        sample: s,
                        channels: scope.view_channels(),
                    })
                    &&& pos_view(final(self).current_position) == Some((s, scope.view_channels()))
                },
            final(self).drag_anchor() is None,
            final(self).composition == old(self).composition,
            final(self).regions == old(self).regions,
            final(self).snap_zero_crossings == old(self).snap_zero_crossings,
            final(self).next_region_id_spec() == old(self).next_region_id_spec(),
    {
        let snapped = self.snap_sample(&scope, sample, snap);
        let sample = self.clamp_sample(snapped);
        self.region_drag_anchor = None;
        let channels = scope.duplicate();
        self.current_position = Some(SamplePosition { sample, channels });
        self.selection = Selection::Position(SamplePosition { sample, channels: scope });
    }
}

/// `new` differs from `old` at most in its selection, caret and drag anchor.
pub open spec fn same_model(old: BufferDocument, new: BufferDocument) -> bool {
    &&& new.composition == old.composition
    &&& new.regions == old.regions
    &&& new.snap_zero_crossings == old.snap_zero_crossings
    &&& new.next_region_id == old.next_region_id
}

/// A selection of `start..=end` on `channels`, with the caret at its end.
pub open spec fn range_selected(new: BufferDocument, start: usize, end: usize, channels: Channels) -> bool {
    &&& sel_view(new.selection) == (SelectionView::Region { region_id: None, start, end, channels })
    &&& pos_view(new.current_position) == Some((end, channels))
    &&& new.region_drag_anchor is None
}

/// What `select_range(start, stop, channels)` makes of `old`.
pub open spec fn select_range_spec(old: BufferDocument, new: BufferDocument, start: usize, stop: usize, channels: Channels) -> bool {
    let frames = old.frames_spec();
    let b = ordered(clamp_to(start, frames), clamp_to(stop, frames));
    &&& range_selected(new, b.0, b.1, channels)
    &&& same_model(old, new)
}

/// What `clear_selection` makes of `old`.
pub open spec fn cleared(old: BufferDocument, new: BufferDocument) -> bool {
    &&& new.selection == Selection::Nothing
    &&& new.region_drag_anchor is None
    &&& new.current_position == old.current_position
    &&& same_model(old, new)
}

/// What `invert_selection` makes of `old`: the part of the timeline outside
/// the selected region (the longer side when the region is inside it),
/// everything for a caret or nothing, and nothing when all is selected.
pub open spec fn inverted(old: BufferDocument, new: BufferDocument) -> bool {
    let frames = old.frames_spec();
    let last = last_sample(frames);
    if frames == 0 {
        cleared(old, new)
    } else {
        match sel_view(old.selection) {
            SelectionView::Region { start, end, .. } => {
                if start == 0 && end >= last {
                    cleared(old, new)
                } else if start == 0 {
                    select_range_spec(old, new, if end < usize::MAX { (end + 1) as usize } else { end }, last, None)
                } else if end >= last {
                    select_range_spec(old, new, 0, (start - 1) as usize, None)
                } else if start >= last - end {
                    select_range_spec(old, new, 0, (start - 1) as usize, None)
                } else {
                    select_range_spec(old, new, (end + 1) as usize, last, None)
                }
            },
            _ => select_range_spec(old, new, 0, last, None),
        }
    }
}

impl BufferDocument {
    /// Selects the topmost region under `sample` (snapped and kept within
    /// the timeline) on `lane`, with the caret at its end; with no region
    /// there, puts the caret at `sample` as `set_position` does.
    pub fn select_region_at<S: Fn(usize, usize) -> usize>(
        &mut self,
        sample: usize,
        lane: usize,
        scope: ChannelScope,
        snap: &S,
    )
        requires
            old(self).wf(),
            forall|c: usize, x: usize| snap.requires((c, x)),
        ensures
            final(self).wf(),
            same_model(*old(self), *final(self)),
            exists|r: usize|
                snaps_to(old(self).snap_zero_crossings, *snap, scope.view_channels(), sample, r) && {
                    let s = clamp_to(r, old(self).frames_spec());
                    match last_hit(old(self).regions@, s, lane) {
                        Some(id) => {
                            let region = old(self).regions@[first_with_id(old(self).regions@, id)];
                            &&& sel_view(final(self).selection) == (SelectionView::Region {
                                region_id: Some(id),
                                start: region.start,
                                end: region.end,
                                channels: region.channels.view_channels(),
                            })
                            &&& pos_view(final(self).current_position) == Some(
                                (region.end, region.channels.view_channels()),
                            )
                            &&& final(self).region_drag_anchor is None
                        },
                        None => exists|r2: usize|
                            snaps_to(old(self).snap_zero_crossings, *snap, scope.view_channels(), sample, r2)
                                && {
                                let s2 = clamp_to(r2, old(self).frames_spec());
                                &&& sel_view(final(self).selection) == (SelectionView::Position {
                                    sample: s2,
                                    channels: scope.view_channels(),
                                })
                                &&& pos_view(final(self).current_position) == Some((s2, scope.view_channels()))
                                &&& final(self).region_drag_anchor is None
                            },
                    }
                },
    {
        let snapped = self.snap_sample(&scope, sample, snap);
        let s = self.clamp_sample(snapped);
        proof {
            assert(snaps_to(self.snap_zero_crossings, *snap, scope.view_channels(), sample, snapped));
        }
        match self.hit_test_region(s, lane) {
            Some(id) => {
                proof {
                    lemma_last_hit_exists(self.regions@, s, lane);
                }
                match self.region_index(id) {
                    Some(k) => {
                        let start = self.regions[k].start;
                        let end = self.regions[k].end;
                        let channels = self.regions[k].channels.duplicate();
                        let position_channels = self.regions[k].channels.duplicate();
                        self.region_drag_anchor = None;
                        self.current_position = Some(SamplePosition { sample: end, channels: position_channels });
                        self.selection = Selection::Region { region_id: Some(id), start, end, channels };
                        return;
                    },
                    None => {},
                }
            },
            None => {},
        }
        self.set_position(sample, scope, snap);
    }

    /// Starts dragging out a region at `anchor` (snapped and kept within the
    /// timeline) on `scope`.
    pub fn begin_region_drag<S: Fn(usize, usize) -> usize>(&mut self, anchor: usize, scope: ChannelScope, snap: &S)
        requires
            old(self).wf(),
            forall|c: usize, x: usize| snap.requires((c, x)),
        ensures
            final(self).wf(),
            same_model(*old(self), *final(self)),
            final(self).current_position == old(self).current_position,
            exists|r: usize|
                snaps_to(old(self).snap_zero_crossings, *snap, scope.view_channels(), anchor, r) && {
                    let a = clamp_to(r, old(self).frames_spec());
                    &&& final(self).region_drag_anchor == Some(a)
                    &&& sel_view(final(self).selection) == (SelectionView::Region {
                        region_id: None,
                        start: a,
                        end: a,
                        channels: scope.view_channels(),
                    })
                },
    {
        let snapped = self.snap_sample(&scope, anchor, snap);
        let a = self.clamp_sample(snapped);
        self.region_drag_anchor = Some(a);
        self.selection = Selection::Region { region_id: None, start: a, end: a, channels: scope };
    }

    /// Moves the free end of a region drag to `sample`; the region runs
    /// between the anchor and it, each end snapped and kept within the
    /// timeline. Nothing happens outside a drag of a region.
    pub fn update_region_drag<S: Fn(usize, usize) -> usize>(&mut self, sample: usize, snap: &S)
        requires
            old(self).wf(),
            forall|c: usize, x: usize| snap.requires((c, x)),
        ensures
            final(self).wf(),
            same_model(*old(self), *final(self)),
            final(self).current_position == old(self).current_position,
            final(self).region_drag_anchor == old(self).region_drag_anchor,
            !(old(self).region_drag_anchor is Some && old(self).selection is Region) ==> final(self).selection
                == old(self).selection,
            old(self).region_drag_anchor is Some && old(self).selection is Region ==> ({
                let anchor = old(self).region_drag_anchor->Some_0;
                let id = region_id_of(sel_view(old(self).selection));
                let ch = channels_of(sel_view(old(self).selection));
                let frames = old(self).frames_spec();
                let on = old(self).snap_zero_crossings;
                exists|r1: usize, r2: usize, r3: usize|
                    {
                        &&& #[trigger] drag_snaps(on, *snap, ch, anchor, sample, frames, r1, r2, r3)
                        &&& sel_view(final(self).selection) == (SelectionView::Region {
                            region_id: id,
                            start: ordered(clamp_to(r2, frames), clamp_to(r3, frames)).0,
                            end: ordered(clamp_to(r2, frames), clamp_to(r3, frames)).1,
                            channels: ch,
                        })
                    }
            }),
    {
        let anchor = match self.region_drag_anchor {
            Some(a) => a,
            None => return ,
        };
        let channels = match &self.selection {
            Selection::Region { channels, .. } => channels.duplicate(),
            _ => return ,
        };
        let snapped = self.snap_sample(&channels, sample, snap);
        let s = self.clamp_sample(snapped);
        let (a, b) = Self::normalized_region_bounds(anchor, s);
        let sa = self.snap_sample(&channels, a, snap);
        let a2 = self.clamp_sample(sa);
        let sb = self.snap_sample(&channels, b, snap);
        let b2 = self.clamp_sample(sb);
        let (start, end) = Self::normalized_region_bounds(a2, b2);
        proof {
            assert(drag_snaps(
                self.snap_zero_crossings,
                *snap,
                channels.view_channels(),
                anchor,
                sample,
                self.frames_spec(),
                snapped,
                sa,
                sb,
            ));
        }
        let region_id = match &self.selection {
            Selection::Region { region_id, .. } => *region_id,
            _ => None,
        };
        self.selection = Selection::Region { region_id, start, end, channels };
    }

    /// Ends a region drag: a drag no longer than the threshold becomes a
    /// caret at its start; otherwise the region stays selected with the caret
    /// at its end, and a region it was dragged from takes its new bounds.
    pub fn finish_region_drag(&mut self)
        requires
            old(self).wf(),
        ensures
            final(self).wf(),
            final(self).region_drag_anchor is None,
            final(self).composition == old(self).composition,
            final(self).snap_zero_crossings == old(self).snap_zero_crossings,
            final(self).next_region_id == old(self).next_region_id,
            !(old(self).selection is Region) ==> final(self).selection == old(self).selection
                && final(self).current_position == old(self).current_position && final(self).regions
                == old(self).regions,
            old(self).selection is Region ==> ({
                let (id, a, b, ch) = match sel_view(old(self).selection) {
                    SelectionView::Region { region_id, start, end, channels } => (region_id, start, end, channels),
                    _ => (None, 0, 0, None),
                };
                let (start, end) = ordered(a, b);
                if end - start <= DRAG_THRESHOLD_SAMPLES {
                    &&& sel_view(final(self).selection) == (SelectionView::Position { sample: start, channels: ch })
                    &&& pos_view(final(self).current_position) == Some((start, ch))
                    &&& final(self).regions == old(self).regions
                } else {
                    &&& sel_view(final(self).selection) == (SelectionView::Region {
                        region_id: id,
                        start,
                        end,
                        channels: ch,
                    })
                    &&& pos_view(final(self).current_position) == Some((end, ch))
                    &&& final(self).regions@.len() == old(self).regions@.len()
                    &&& match id {
                        Some(rid) if first_with_id(old(self).regions@, rid) < old(self).regions@.len() => {
                            let k = first_with_id(old(self).regions@, rid);
                            &&& forall|j: int|
                                0 <= j < old(self).regions@.len() && j != k ==> #[trigger] final(self).regions@[j]
                                    == old(self).regions@[j]
                            &&& final(self).regions@[k].id == rid
                            &&& final(self).regions@[k].start == start
                            &&& final(self).regions@[k].end == end
                            &&& final(self).regions@[k].channels.view_channels() == ch
                        },
                        _ => final(self).regions == old(self).regions,
                    }
                }
            }),
    {
        self.region_drag_anchor = None;
        let (region_id, start, end, channels) = match &self.selection {
            Selection::Region { region_id, start, end, channels } => (*region_id, *start, *end, channels.duplicate()),
            _ => return ,
        };
        let (start, end) = Self::normalized_region_bounds(start, end);
        if end - start <= DRAG_THRESHOLD_SAMPLES {
            let position_channels = channels.duplicate();
            self.current_position = Some(SamplePosition { sample: start, channels: position_channels });
            self.selection = Selection::Position(SamplePosition { sample: start, channels });
            return;
        }
        let position_channels = channels.duplicate();
        self.current_position = Some(SamplePosition { sample: end, channels: position_channels });
        match region_id {
            Some(id) => {
                match self.region_index(id) {
                    Some(k) => {
                        let region_channels = channels.duplicate();
                        let updated = Region { id, start, end, channels: region_channels };
                        let ghost before = self.regions@;
                        self.regions.set(k, updated);
                        proof {
                            assert forall|j: int|
                                0 <= j < before.len() && j != k implies #[trigger] self.regions@[j] == before[j] by {}
                        }
                    },
                    None => {},
                }
                self.selection = Selection::Region { region_id: Some(id), start, end, channels };
            },
            None => {
                self.selection = Selection::Region { region_id: None, start, end, channels };
            },
        }
    }

    /// Adds a region between `start` and `end` (in either order) on
    /// `channels`, with the next region id.
    pub fn add_region(&mut self, start: usize, end: usize, channels: ChannelScope) -> (id: RegionId)
        requires
            old(self).next_region_id < u64::MAX,
        ensures
            id == RegionId(old(self).next_region_id),
            final(self).next_region_id == old(self).next_region_id + 1,
            final(self).regions@.len() == old(self).regions@.len() + 1,
            final(self).regions@.drop_last() == old(self).regions@,
            final(self).regions@.last().id == id,
            (final(self).regions@.last().start, final(self).regions@.last().end) == ordered(start, end),
            final(self).regions@.last().channels == channels,
            final(self).composition == old(self).composition,
            final(self).selection == old(self).selection,
            final(self).current_position == old(self).current_position,
            final(self).region_drag_anchor == old(self).region_drag_anchor,
            final(self).snap_zero_crossings == old(self).snap_zero_crossings,
    {
        let id = RegionId(self.next_region_id);
        self.next_region_id = self.next_region_id + 1;
        let region = Region::new(id, start, end, channels);
        self.regions.push(region);
        proof {
            assert(self.regions@.drop_last() =~= old(self).regions@);
        }
        id
    }

    /// Selects `start..=stop` (each kept within the timeline, in either
    /// order) on `channels`, with the caret at its end.
    pub fn select_range(&mut self, start: usize, stop: usize, channels: ChannelScope)
        requires
            old(self).wf(),
        ensures
            final(self).wf(),
            select_range_spec(*old(self), *final(self), start, stop, channels.view_channels()),
    {
        let start = self.clamp_sample(start);
        let stop = self.clamp_sample(stop);
        let (start, end) = Self::normalized_region_bounds(start, stop);
        self.region_drag_anchor = None;
        let position_channels = channels.duplicate();
        self.current_position = Some(SamplePosition { sample: end, channels: position_channels });
        self.selection = Selection::Region { region_id: None, start, end, channels };
    }

    /// Clears the selection and any drag.
    pub fn clear_selection(&mut self)
        ensures
            cleared(*old(self), *final(self)),
    {
        self.region_drag_anchor = None;
        self.selection = Selection::Nothing;
    }

    /// Selects the whole timeline; clears the selection when it is empty.
    pub fn select_all(&mut self)
        requires
            old(self).wf(),
        ensures
            final(self).wf(),
            old(self).frames_spec() == 0 ==> cleared(*old(self), *final(self)),
            old(self).frames_spec() > 0 ==> select_range_spec(
                *old(self),
                *final(self),
                0,
                last_sample(old(self).frames_spec()),
                None,
            ),
    {
        let frames = self.frames();
        if frames == 0 {
            self.clear_selection();
            return;
        }
        self.select_range(0, frames - 1, ChannelScope::all());
    }

    /// Selects what lies outside the selected region.
    pub fn invert_selection(&mut self)
        requires
            old(self).wf(),
        ensures
            final(self).wf(),
            inverted(*old(self), *final(self)),
    {
        let frames = self.frames();
        if frames == 0 {
            self.clear_selection();
            return;
        }
        let last = frames - 1;
        let (start, end) = match &self.selection {
            Selection::Region { start, end, .. } => (*start, *end),
            _ => {
                self.select_all();
                return;
            },
        };
        if start == 0 && end >= last {
            self.clear_selection();
            return;
        }
        let touches_start = start == 0;
        let touches_end = end >= last;
        if touches_start && !touches_end {
            self.select_range(end.saturating_add(1), last, ChannelScope::all());
        } else if touches_end && !touches_start {
            self.select_range(0, start - 1, ChannelScope::all());
        } else {
            let prefix_len = start;
            let suffix_len = last - end;
            if prefix_len >= suffix_len && start > 0 {
                self.select_range(0, start - 1, ChannelScope::all());
            } else if end < last {
                self.select_range(end + 1, last, ChannelScope::all());
            } else {
                self.clear_selection();
            }
        }
    }
}

/// A caret as a value: its sample and channels.
pub type CaretView = Option<(usize, Channels)>;

/// The selection and caret of a document, as values.
pub open spec fn view_of(d: BufferDocument) -> (SelectionView, CaretView) {
    (sel_view(d.selection), pos_view(d.current_position))
}

/// Where sample `p` goes through `op`, or back through it with `inverse`.
pub open spec fn map_sample(p: usize, op: EditOp, inverse: bool) -> usize {
    (if inverse {
        map_point_inverse_spec(p as u64, op)
    } else {
        map_point_spec(p as u64, op)
    }) as usize
}

/// Where the inclusive span `start..=end` goes through `op`, or back through
/// it with `inverse`; `None` when nothing of it is left.
pub open spec fn map_span(start: usize, end: usize, op: EditOp, inverse: bool) -> Option<(u64, u64)> {
    if inverse {
        map_inclusive_inverse_spec(start as u64, end as u64, op)
    } else {
        map_inclusive_spec(start as u64, end as u64, op)
    }
}

/// A selection carried through `op`: a region keeps what is left of it (as
/// a new, unnamed region) or becomes a caret where its start went; a caret
/// moves with its sample.
pub open spec fn remap_selection(s: SelectionView, op: EditOp, inverse: bool) -> SelectionView {
    match s {
        SelectionView::Region { start, end, channels, .. } => match map_span(start, end, op, inverse) {
            Some((a, b)) => SelectionView::Region { region_id: None, start: a as usize, end: b as usize, channels },
            None => SelectionView::Position { sample: map_sample(start, op, inverse), channels },
        },
        SelectionView::Position { sample, channels } => SelectionView::Position {
            sample: map_sample(sample, op, inverse),
            channels,
        },
        SelectionView::Nothing => SelectionView::Nothing,
    }
}

/// A caret carried through `op`.
pub open spec fn remap_caret(c: CaretView, op: EditOp, inverse: bool) -> CaretView {
    match c {
        Some((sample, channels)) => Some((map_sample(sample, op, inverse), channels)),
        None => None,
    }
}

/// Selection and caret carried through `op`.
pub open spec fn remap_view(v: (SelectionView, CaretView), op: EditOp, inverse: bool) -> (SelectionView, CaretView) {
    (remap_selection(v.0, op, inverse), remap_caret(v.1, op, inverse))
}

/// Selection and caret carried through `ops`, first to last.
pub open spec fn view_forward(v: (SelectionView, CaretView), ops: Seq<EditOp>) -> (SelectionView, CaretView)
    decreases ops.len(),
{
    if ops.len() == 0 {
        v
    } else {
        remap_view(view_forward(v, ops.drop_last()), ops.last(), false)
    }
}

/// Selection and caret carried back through `ops`, last to first.
pub open spec fn view_backward(v: (SelectionView, CaretView), ops: Seq<EditOp>) -> (SelectionView, CaretView)
    decreases ops.len(),
{
    if ops.len() == 0 {
        v
    } else {
        remap_view(view_backward(v, ops.drop_first()), ops[0], true)
    }
}

/// Selection and caret moved from history entry `from` to entry `to` of `h`.
pub open spec fn view_between(v: (SelectionView, CaretView), h: Seq<Edit>, from: int, to: int) -> (
    SelectionView,
    CaretView,
) {
    if to > from {
        view_forward(v, ops_of(h).subrange(from + 1, to + 1))
    } else if to < from {
        view_backward(v, ops_of(h).subrange(to + 1, from + 1))
    } else {
        v
    }
}

/// Selection and caret kept within a timeline of `frames` samples; both
/// cleared when it is empty.
pub open spec fn clamp_view(v: (SelectionView, CaretView), frames: usize) -> (SelectionView, CaretView) {
    if frames == 0 {
        (SelectionView::Nothing, None)
    } else {
        let sel = match v.0 {
            SelectionView::Region { region_id, start, end, channels } => {
                let b = ordered(clamp_to(start, frames), clamp_to(end, frames));
                SelectionView::Region { region_id, start: b.0, end: b.1, channels }
            },
            SelectionView::Position { sample, channels } => SelectionView::Position {
                sample: clamp_to(sample, frames),
                channels,
            },
            SelectionView::Nothing => SelectionView::Nothing,
        };
        let caret = match v.1 {
            Some((sample, channels)) => Some((clamp_to(sample, frames), channels)),
            None => None,
        };
        (sel, caret)
    }
}

/// `new` holds the same regions, snapping and drag as `old`.
pub open spec fn same_regions(old: BufferDocument, new: BufferDocument) -> bool {
    &&& new.regions == old.regions
    &&& new.snap_zero_crossings == old.snap_zero_crossings
    &&& new.next_region_id == old.next_region_id
    &&& new.region_drag_anchor == old.region_drag_anchor
}

/// `new` is `old` after its composition changed to `new.composition`: the
/// selection and caret follow the edits from the old history position to the
/// new one and are then kept within the new timeline.
pub open spec fn followed(old: BufferDocument, new: BufferDocument) -> bool {
    &&& view_of(new) == clamp_view(
        view_between(
            view_of(old),
            new.composition.history(),
            old.composition.cursor_spec(),
            new.composition.cursor_spec(),
        ),
        new.frames_spec(),
    )
    &&& same_regions(old, new)
}

/// The frame of the caret, 0 without one.
pub open spec fn caret_frame_spec(d: BufferDocument) -> u64 {
    match d.current_position {
        Some(p) => p.sample as u64,
        None => 0,
    }
}

/// Where a paste goes and how much it replaces: the selected span, else the
/// caret with nothing replaced.
pub open spec fn paste_target(d: BufferDocument) -> (u64, u64) {
    match selection_span_spec(sel_view(d.selection)) {
        Some(span) => span,
        None => (caret_frame_spec(d), 0),
    }
}

/// Where a roll applies: the start of the selected span, else the caret.
pub open spec fn roll_target(d: BufferDocument) -> u64 {
    match selection_span_spec(sel_view(d.selection)) {
        Some((start, _)) => start,
        None => caret_frame_spec(d),
    }
}

/// Whether pasting the clipboard at `at` over `len` frames keeps every count
/// within its type.
pub open spec fn paste_fits(c: Composition, at: u64, len: u64) -> bool {
    let cb = c.clipboard_spec().clips@;
    &&& c.next_clip_id_spec() + cb.len() + 2 <= u64::MAX
    &&& c.next_edit_id() < u64::MAX
    &&& c.timeline().len() + cb.len() + 1 <= usize::MAX
    &&& kept_frames(total(c.timeline()) as int, at, len) + total(values_of(cb)) <= u64::MAX
}

/// The marker `add_marker` puts on the composition.
pub open spec fn marker_added(
    old: Composition,
    new: Composition,
    frame: u64,
    marker_type: Seq<char>,
    color: [u32; 4],
    note: Option<String>,
    r: Option<MarkerId>,
) -> bool {
    &&& r is None <==> has_key(old.marker_list().items(), (frame, marker_type))
    &&& r is None ==> new.marker_list() == old.marker_list()
    &&& r matches Some(id) ==> {
        &&& id == MarkerId(old.marker_list().next_id_spec())
        &&& exists|m: Marker|
            {
                &&& m.id == id
                &&& m.frame == frame
                &&& m.marker_type@ == marker_type
                &&& m.color == color
                &&& m.note == note
                &&& #[trigger] insert_sorted_spec(old.marker_list().items(), m) == new.marker_list().items()
            }
    }
    &&& new.timeline() == old.timeline()
    &&& new.history() == old.history()
    &&& new.cursor_spec() == old.cursor_spec()
}

impl BufferDocument {
    /// Adds a marker of `marker_type` at `sample` (kept within the
    /// timeline); `None` when that type already marks that frame.
    pub fn add_marker(&mut self, sample: usize, marker_type: &str, color: [u32; 4], note: Option<String>) -> (r:
        Option<MarkerId>)
        requires
            old(self).wf(),
            old(self).composition.marker_list().next_id_spec() < u64::MAX,
        ensures
            final(self).wf(),
            marker_added(
                old(self).composition,
                final(self).composition,
                clamp_to(sample, old(self).frames_spec()) as u64,
                marker_type@,
                color,
                note,
                r,
            ),
            view_of(*final(self)) == view_of(*old(self)),
            same_regions(*old(self), *final(self)),
    {
        let sample = self.clamp_sample(sample);
        let name = marker_type.to_owned();
        let r = self.composition.add_marker(sample as u64, name, color, note);
        proof {
            match r {
                Some(id) => {
                    let m = Marker { id, frame: sample as u64, marker_type: name, color, note };
                    assert(insert_sorted_spec(old(self).composition.marker_list().items(), m)
                        == self.composition.marker_list().items());
                },
                None => {},
            }
        }
        r
    }

    /// Adds a marker of `marker_type` at `sample` in the type's color (that
    /// of the default type for an unknown one).
    pub fn add_marker_of_type(&mut self, sample: usize, marker_type: &str) -> (r: Option<MarkerId>)
        requires
            old(self).wf(),
            old(self).composition.marker_list().next_id_spec() < u64::MAX,
        ensures
            final(self).wf(),
            marker_added(
                old(self).composition,
                final(self).composition,
                clamp_to(sample, old(self).frames_spec()) as u64,
                marker_type@,
                match marker_type_color_spec(marker_type@) {
                    Some(c) => c,
                    None => marker_type_color_spec("Blue"@)->Some_0,
                },
                None,
                r,
            ),
            view_of(*final(self)) == view_of(*old(self)),
            same_regions(*old(self), *final(self)),
    {
        let color = match marker_type_color(marker_type) {
            Some(c) => c,
            None => {
                match marker_type_color(default_marker_type()) {
                    Some(c) => c,
                    None => return None,
                }
            },
        };
        self.add_marker(sample, marker_type, color, None)
    }

    /// Removes the marker with id `id`.
    pub fn remove_marker(&mut self, id: MarkerId) -> (removed: bool)
        requires
            old(self).wf(),
        ensures
            final(self).wf(),
            removed == has_marker_id(old(self).composition.marker_list().items(), id),
            removed ==> exists|i: int|
                0 <= i < old(self).composition.marker_list().items().len()
                    && old(self).composition.marker_list().items()[i].id == id
                    && final(self).composition.marker_list().items()
                    == old(self).composition.marker_list().items().remove(i),
            !removed ==> final(self).composition.marker_list() == old(self).composition.marker_list(),
            final(self).composition.timeline() == old(self).composition.timeline(),
            view_of(*final(self)) == view_of(*old(self)),
            same_regions(*old(self), *final(self)),
    {
        self.composition.remove_marker(id)
    }

    /// Removes every marker at `sample`.
    pub fn remove_marker_at(&mut self, sample: usize) -> (removed: bool)
        requires
            old(self).wf(),
        ensures
            final(self).wf(),
            removed == (exists|i: int|
                0 <= i < old(self).composition.marker_list().items().len() && (#[trigger] old(
                    self,
                ).composition.marker_list().items()[i]).frame == sample as u64),
            final(self).composition.marker_list().items() == without_frame(
                old(self).composition.marker_list().items(),
                sample as u64,
            ),
            final(self).composition.timeline() == old(self).composition.timeline(),
            view_of(*final(self)) == view_of(*old(self)),
            same_regions(*old(self), *final(self)),
    {
        self.composition.remove_marker_at(sample as u64)
    }

    /// Removes the marker of `marker_type` at `sample`.
    pub fn remove_marker_at_type(&mut self, sample: usize, marker_type: &str) -> (removed: bool)
        requires
            old(self).wf(),
        ensures
            final(self).wf(),
            removed == has_key(old(self).composition.marker_list().items(), (sample as u64, marker_type@)),
            removed ==> exists|i: int|
                0 <= i < old(self).composition.marker_list().items().len() && mkey(
                    old(self).composition.marker_list().items()[i],
                ) == (sample as u64, marker_type@) && final(self).composition.marker_list().items()
                    == old(self).composition.marker_list().items().remove(i),
            !removed ==> final(self).composition.marker_list() == old(self).composition.marker_list(),
            final(self).composition.timeline() == old(self).composition.timeline(),
            view_of(*final(self)) == view_of(*old(self)),
            same_regions(*old(self), *final(self)),
    {
        self.composition.remove_marker_at_type(sample as u64, marker_type)
    }

    /// The caret's sample, if there is a caret.
    pub fn selection_position_sample(&self) -> (r: Option<usize>)
        ensures
            r == match self.current_position {
                Some(p) => Some(p.sample),
                None => None::<usize>,
            },
    {
        match &self.current_position {
            Some(pos) => Some(pos.sample),
            None => None,
        }
    }

    /// Moves the caret to where playback is (kept within the timeline),
    /// unless a region is being dragged or the caret is already there; the
    /// selection stays.
    pub fn set_position_from_playback(&mut self, sample: usize, scope: ChannelScope)
        requires
            old(self).wf(),
        ensures
            final(self).wf(),
            final(self).composition == old(self).composition,
            final(self).selection == old(self).selection,
            same_regions(*old(self), *final(self)),
            ({
                let s = clamp_to(sample, old(self).frames_spec());
                let stays = old(self).region_drag_anchor is Some || (old(self).current_position matches Some(
                    p,
                ) && p.sample == s);
                &&& stays ==> final(self).current_position == old(self).current_position
                &&& !stays ==> pos_view(final(self).current_position) == Some((s, scope.view_channels()))
            }),
    {
        if self.is_region_drag_active() {
            return;
        }
        let sample = self.clamp_sample(sample);
        let here = match &self.current_position {
            Some(pos) => pos.sample == sample,
            None => false,
        };
        if here {
            return;
        }
        self.current_position = Some(SamplePosition { sample, channels: scope });
    }

    /// Forgets the selection, caret and drag, as for a new buffer.
    pub fn reset_for_new_buffer(&mut self)
        ensures
            final(self).selection == Selection::Nothing,
            final(self).current_position is None,
            final(self).region_drag_anchor is None,
            same_model(*old(self), *final(self)),
    {
        self.selection = Selection::Nothing;
        self.current_position = None;
        self.region_drag_anchor = None;
    }

    /// The selected region as a start and a length.
    pub fn selection_span(&self) -> (r: Option<(u64, u64)>)
        ensures
            r == selection_span_spec(sel_view(self.selection)),
    {
        match &self.selection {
            Selection::Region { start, end, .. } => {
                if *end >= *start {
                    let len = (*end as u64 - *start as u64).saturating_add(1);
                    Some((*start as u64, len))
                } else {
                    None
                }
            },
            _ => None,
        }
    }

    /// The frame of the caret, 0 without one.
    pub fn caret_frame(&self) -> (f: u64)
        ensures
            f == caret_frame_spec(*self),
    {
        match &self.current_position {
            Some(pos) => pos.sample as u64,
            None => 0,
        }
    }
}

impl BufferDocument {
    /// Carries the selection and caret through `op`.
    fn remap_through_op(&mut self, op: &EditOp)
        ensures
            view_of(*final(self)) == remap_view(view_of(*old(self)), *op, false),
            final(self).composition == old(self).composition,
            same_regions(*old(self), *final(self)),
    {
        let caret = match &self.current_position {
            Some(pos) => Some(
                SamplePosition {
                    sample: map_point_through_op(pos.sample as u64, op) as usize,
                    channels: pos.channels.duplicate(),
                },
            ),
            None => None,
        };
        self.current_position = caret;
        let mut selection = Selection::Nothing;
        std::mem::swap(&mut selection, &mut self.selection);
        self.selection = match selection {
            Selection::Region { start, end, channels, .. } => match map_inclusive_through_op(
                start as u64,
                end as u64,
                op,
            ) {
                Some((s, e)) => Selection::Region { region_id: None, start: s as usize, end: e as usize, channels },
                None => Selection::Position(
                    SamplePosition { sample: map_point_through_op(start as u64, op) as usize, channels },
                ),
            },
            Selection::Position(pos) => Selection::Position(
                SamplePosition {
                    sample: map_point_through_op(pos.sample as u64, op) as usize,
                    channels: pos.channels,
                },
            ),
            Selection::Nothing => Selection::Nothing,
        };
    }

    /// Carries the selection and caret back through `op`.
    fn remap_through_inverse(&mut self, op: &EditOp)
        ensures
            view_of(*final(self)) == remap_view(view_of(*old(self)), *op, true),
            final(self).composition == old(self).composition,
            same_regions(*old(self), *final(self)),
    {
        let caret = match &self.current_position {
            Some(pos) => Some(
                SamplePosition {
                    sample: map_point_through_inverse(pos.sample as u64, op) as usize,
                    channels: pos.channels.duplicate(),
                },
            ),
            None => None,
        };
        self.current_position = caret;
        let mut selection = Selection::Nothing;
        std::mem::swap(&mut selection, &mut self.selection);
        self.selection = match selection {
            Selection::Region { start, end, channels, .. } => match map_inclusive_through_inverse(
                start as u64,
                end as u64,
                op,
            ) {
                Some((s, e)) => Selection::Region { region_id: None, start: s as usize, end: e as usize, channels },
                None => Selection::Position(
                    SamplePosition { sample: map_point_through_inverse(start as u64, op) as usize, channels },
                ),
            },
            Selection::Position(pos) => Selection::Position(
                SamplePosition {
                    sample: map_point_through_inverse(pos.sample as u64, op) as usize,
                    channels: pos.channels,
                },
            ),
            Selection::Nothing => Selection::Nothing,
        };
    }

    /// Carries the selection and caret from history entry `from` to entry
    /// `to`.
    #[verifier::rlimit(40)]
    fn remap_between_cursors(&mut self, from: usize, to: usize)
        requires
            from < old(self).composition.history().len(),
            to < old(self).composition.history().len(),
        ensures
            view_of(*final(self)) == view_between(
                view_of(*old(self)),
                old(self).composition.history(),
                from as int,
                to as int,
            ),
            final(self).composition == old(self).composition,
            same_regions(*old(self), *final(self)),
    {
        let ghost h = self.composition.history();
        let ghost start = view_of(*self);
        let mut ops: Vec<EditOp> = Vec::new();
        let edits = self.composition.edits();
        let n = edits.len();
        let mut i: usize = 0;
        while i < n
            invariant
                i <= n,
                n == edits@.len(),
                edits@ == h,
                ops@ == ops_of(h).take(i as int),
            decreases n - i,
        {
            ops.push(edits[i].op);
            proof {
                assert(ops_of(h).take(i + 1) =~= ops_of(h).take(i as int).push(h[i as int].op));
            }
            i += 1;
        }
        proof {
            assert(ops_of(h).take(n as int) =~= ops_of(h));
        }
        if to > from {
            let mut k: usize = from + 1;
            proof {
                assert(ops@.subrange(from + 1, k as int) =~= Seq::<EditOp>::empty());
            }
            while k <= to
                invariant
                    from < k <= to + 1,
                    to < n,
                    ops@.len() == n,
                    ops@ == ops_of(h),
                    view_of(*self) == view_forward(start, ops@.subrange(from + 1, k as int)),
                    self.composition == old(self).composition,
                    same_regions(*old(self), *self),
                decreases to + 1 - k,
            {
                let op = ops[k];
                proof {
                    assert(ops@.subrange(from + 1, k + 1).drop_last() =~= ops@.subrange(from + 1, k as int));
                    assert(ops@.subrange(from + 1, k + 1).last() == op);
                }
                self.remap_through_op(&op);
                k += 1;
            }
        } else if to < from {
            let mut k: usize = from;
            proof {
                assert(ops@.subrange(k + 1, from + 1) =~= Seq::<EditOp>::empty());
            }
            while k > to
                invariant
                    to <= k <= from,
                    from < n,
                    ops@.len() == n,
                    ops@ == ops_of(h),
                    view_of(*self) == view_backward(start, ops@.subrange(k + 1, from + 1)),
                    self.composition == old(self).composition,
                    same_regions(*old(self), *self),
                decreases k,
            {
                let op = ops[k];
                proof {
                    assert(ops@.subrange(k as int, from + 1).drop_first() =~= ops@.subrange(k + 1, from + 1));
                    assert(ops@.subrange(k as int, from + 1)[0] == op);
                }
                self.remap_through_inverse(&op);
                k -= 1;
            }
        }
    }

    /// Keeps the caret and selection within the timeline; clears both when
    /// it is empty.
    fn clamp_playhead_and_selection(&mut self)
        requires
            old(self).wf(),
        ensures
            final(self).wf(),
            view_of(*final(self)) == clamp_view(view_of(*old(self)), old(self).frames_spec()),
            final(self).composition == old(self).composition,
            same_regions(*old(self), *final(self)),
    {
        if self.frames() == 0 {
            self.selection = Selection::Nothing;
            self.current_position = None;
            return;
        }
        let caret = match &self.current_position {
            Some(pos) => Some(
                SamplePosition { sample: self.clamp_sample(pos.sample), channels: pos.channels.duplicate() },
            ),
            None => None,
        };
        self.current_position = caret;
        let mut selection = Selection::Nothing;
        std::mem::swap(&mut selection, &mut self.selection);
        self.selection = match selection {
            Selection::Region { region_id, start, end, channels } => {
                let s = self.clamp_sample(start);
                let e = self.clamp_sample(end);
                let (s, e) = Self::normalized_region_bounds(s, e);
                Selection::Region { region_id, start: s, end: e, channels }
            },
            Selection::Position(pos) => Selection::Position(
                SamplePosition { sample: self.clamp_sample(pos.sample), channels: pos.channels },
            ),
            Selection::Nothing => Selection::Nothing,
        };
    }

    /// After the composition moved from history entry `from` to where it is
    /// now: carries the selection and caret along, then keeps them within
    /// the timeline.
    pub fn after_tree_changed(&mut self, from: usize)
        requires
            old(self).wf(),
            from < old(self).composition.history().len(),
        ensures
            final(self).wf(),
            view_of(*final(self)) == clamp_view(
                view_between(
                    view_of(*old(self)),
                    old(self).composition.history(),
                    from as int,
                    old(self).composition.cursor_spec(),
                ),
                old(self).frames_spec(),
            ),
            final(self).composition == old(self).composition,
            same_regions(*old(self), *final(self)),
    {
        proof {
            self.composition.lemma_wf();
        }
        let to = self.composition.edit_cursor();
        self.remap_between_cursors(from, to);
        self.clamp_playhead_and_selection();
    }
}

impl BufferDocument {
    /// Steps the composition back one edit, the selection and caret with it.
    pub fn edit_undo(&mut self) -> (r: bool)
        requires
            old(self).wf(),
        ensures
            final(self).wf(),
            r == (old(self).composition.cursor_spec() > 0),
            !r ==> *final(self) == *old(self),
            r ==> undone(old(self).composition, final(self).composition) && followed(*old(self), *final(self)),
    {
        let from = self.composition.edit_cursor();
        let ok = self.composition.undo();
        if ok {
            proof {
                old(self).composition.lemma_wf();
            }
            self.after_tree_changed(from);
        }
        ok
    }

    /// Steps the composition forward one edit, the selection and caret with
    /// it.
    pub fn edit_redo(&mut self) -> (r: bool)
        requires
            old(self).wf(),
        ensures
            final(self).wf(),
            r == (old(self).composition.cursor_spec() + 1 < old(self).composition.history().len()),
            !r ==> *final(self) == *old(self),
            r ==> redone(old(self).composition, final(self).composition) && followed(*old(self), *final(self)),
    {
        let from = self.composition.edit_cursor();
        let ok = self.composition.redo();
        if ok {
            self.after_tree_changed(from);
        }
        ok
    }

    /// Moves the composition to the edit with id `id`, the selection and
    /// caret with it; `false`, with nothing changed, if no edit has it.
    pub fn jump_to_edit(&mut self, id: EditId) -> (r: bool)
        requires
            old(self).wf(),
        ensures
            final(self).wf(),
            r == (index_of_id(old(self).composition.history(), id) < old(self).composition.history().len()),
            !r ==> *final(self) == *old(self),
            r ==> jumped(
                old(self).composition,
                final(self).composition,
                index_of_id(old(self).composition.history(), id),
            ) && followed(*old(self), *final(self)),
    {
        let from = self.composition.edit_cursor();
        let ok = self.composition.jump_to_edit(id);
        if ok {
            proof {
                old(self).composition.lemma_wf();
            }
            self.after_tree_changed(from);
        }
        ok
    }

    /// Copies the selected span to the clipboard; nothing without one.
    pub fn edit_copy(&mut self)
        requires
            old(self).wf(),
            selection_span_spec(sel_view(old(self).selection)) matches Some((s, l)) ==> replay_fits(
                old(self).composition,
                EditOp::Copy { start: s, len: l },
            ),
        ensures
            final(self).wf(),
            selection_span_spec(sel_view(old(self).selection)) is None ==> *final(self) == *old(self),
            selection_span_spec(sel_view(old(self).selection)) matches Some((s, l)) ==> copied(
                old(self).composition,
                final(self).composition,
                s,
                l,
            ) && view_of(*final(self)) == view_of(*old(self)) && same_regions(*old(self), *final(self)),
    {
        let (start, len) = match self.selection_span() {
            Some(span) => span,
            None => return ,
        };
        self.composition.copy(start, len);
    }

    /// Cuts the selected span to the clipboard; nothing without one.
    pub fn edit_cut(&mut self)
        requires
            old(self).wf(),
            selection_span_spec(sel_view(old(self).selection)) matches Some((s, l)) ==> replay_fits(
                old(self).composition,
                EditOp::Cut { start: s, len: l },
            ),
        ensures
            final(self).wf(),
            selection_span_spec(sel_view(old(self).selection)) is None ==> *final(self) == *old(self),
            selection_span_spec(sel_view(old(self).selection)) matches Some((s, l)) ==> cut_done(
                old(self).composition,
                final(self).composition,
                s,
                l,
            ) && followed(*old(self), *final(self)),
    {
        let (start, len) = match self.selection_span() {
            Some(span) => span,
            None => return ,
        };
        let from = self.composition.edit_cursor();
        self.composition.cut(start, len);
        self.after_tree_changed(from);
    }

    /// Pastes the clipboard over the selected span, or at the caret.
    pub fn edit_paste(&mut self)
        requires
            old(self).wf(),
            paste_fits(old(self).composition, paste_target(*old(self)).0, paste_target(*old(self)).1),
        ensures
            final(self).wf(),
            exists|r: Result<(), CompositionError>|
                #[trigger] pasted(
                    old(self).composition,
                    final(self).composition,
                    paste_target(*old(self)).0,
                    paste_target(*old(self)).1,
                    r,
                ),
            followed(*old(self), *final(self)),
    {
        let (at, replace) = match self.selection_span() {
            Some(span) => span,
            None => (self.caret_frame(), 0),
        };
        let from = self.composition.edit_cursor();
        let _ = self.composition.paste_replacing(at, replace);
        proof {
            old(self).composition.lemma_wf();
        }
        self.after_tree_changed(from);
    }

    /// Replaces the selected span with silence; nothing without one.
    pub fn edit_delete(&mut self)
        requires
            old(self).wf(),
            selection_span_spec(sel_view(old(self).selection)) matches Some((s, l)) ==> replay_fits(
                old(self).composition,
                EditOp::Delete { start: s, len: l },
            ),
        ensures
            final(self).wf(),
            selection_span_spec(sel_view(old(self).selection)) is None ==> *final(self) == *old(self),
            selection_span_spec(sel_view(old(self).selection)) matches Some((s, l)) ==> deleted(
                old(self).composition,
                final(self).composition,
                s,
                l,
            ) && followed(*old(self), *final(self)),
    {
        let (start, len) = match self.selection_span() {
            Some(span) => span,
            None => return ,
        };
        let from = self.composition.edit_cursor();
        self.composition.delete(start, len);
        proof {
            old(self).composition.lemma_wf();
        }
        self.after_tree_changed(from);
    }

    /// Removes the selected span, closing the gap; nothing without one.
    pub fn edit_remove(&mut self)
        requires
            old(self).wf(),
            selection_span_spec(sel_view(old(self).selection)) matches Some((s, l)) ==> replay_fits(
                old(self).composition,
                EditOp::Remove { start: s, len: l },
            ),
        ensures
            final(self).wf(),
            selection_span_spec(sel_view(old(self).selection)) is None ==> *final(self) == *old(self),
            selection_span_spec(sel_view(old(self).selection)) matches Some((s, l)) ==> removed(
                old(self).composition,
                final(self).composition,
                s,
                l,
            ) && followed(*old(self), *final(self)),
    {
        let (start, len) = match self.selection_span() {
            Some(span) => span,
            None => return ,
        };
        let from = self.composition.edit_cursor();
        self.composition.remove(start, len);
        self.after_tree_changed(from);
    }

    /// Inserts a copy of the selected span after it; nothing without one.
    pub fn edit_duplicate(&mut self)
        requires
            old(self).wf(),
            selection_span_spec(sel_view(old(self).selection)) matches Some((s, l)) ==> replay_fits(
                old(self).composition,
                EditOp::Duplicate { start: s, len: l },
            ),
        ensures
            final(self).wf(),
            selection_span_spec(sel_view(old(self).selection)) is None ==> *final(self) == *old(self),
            selection_span_spec(sel_view(old(self).selection)) matches Some((s, l)) ==> duplicated(
                old(self).composition,
                final(self).composition,
                s,
                l,
            ) && followed(*old(self), *final(self)),
    {
        let (start, len) = match self.selection_span() {
            Some(span) => span,
            None => return ,
        };
        let from = self.composition.edit_cursor();
        self.composition.duplicate(start, len);
        self.after_tree_changed(from);
    }

    /// Keeps only the selected span; nothing without one.
    pub fn edit_trim(&mut self)
        requires
            old(self).wf(),
            selection_span_spec(sel_view(old(self).selection)) matches Some((s, l)) ==> replay_fits(
                old(self).composition,
                EditOp::Trim { start: s, len: l },
            ),
        ensures
            final(self).wf(),
            selection_span_spec(sel_view(old(self).selection)) is None ==> *final(self) == *old(self),
            selection_span_spec(sel_view(old(self).selection)) matches Some((s, l)) ==> trimmed(
                old(self).composition,
                final(self).composition,
                s,
                l,
            ) && followed(*old(self), *final(self)),
    {
        let (start, len) = match self.selection_span() {
            Some(span) => span,
            None => return ,
        };
        let from = self.composition.edit_cursor();
        self.composition.trim(start, len);
        self.after_tree_changed(from);
    }

    /// Slides the source of the clip at the selection's start, or at the
    /// caret, by `delta` frames.
    pub fn edit_roll(&mut self, delta: i64)
        requires
            old(self).wf(),
            old(self).composition.next_edit_id() < u64::MAX,
        ensures
            final(self).wf(),
            rolled(old(self).composition, final(self).composition, roll_target(*old(self)), delta),
            followed(*old(self), *final(self)),
    {
        let at = match self.selection_span() {
            Some((start, _)) => start,
            None => self.caret_frame(),
        };
        let from = self.composition.edit_cursor();
        self.composition.roll(at, delta);
        proof {
            old(self).composition.lemma_wf();
        }
        self.after_tree_changed(from);
    }

    /// The id of the edit the history is at.
    pub fn current_edit(&self) -> (id: EditId)
        requires
            self.wf(),
        ensures
            id == self.composition.history()[self.composition.cursor_spec()].id,
    {
        self.composition.current_edit()
    }
}

proof fn lemma_last_hit_exists(regions: Seq<Region>, sample: usize, lane: usize)
    ensures
        last_hit(regions, sample, lane) matches Some(id) ==> first_with_id(regions, id) < regions.len(),
    decreases regions.len(),
{
    if regions.len() > 0 {
        lemma_last_hit_exists(regions.drop_last(), sample, lane);
        match last_hit(regions, sample, lane) {
            Some(id) => {
                lemma_first_with_id_bound(regions, id);
                if !regions.last().contains_spec(sample, lane) {
                    let t = regions.drop_last();
                    lemma_first_with_id_prefix(regions, id);
                }
            },
            None => {},
        }
    }
}

/// An id held somewhere is found: the first index with it is in range.
proof fn lemma_first_with_id_bound(regions: Seq<Region>, id: RegionId)
    ensures
        0 <= first_with_id(regions, id) <= regions.len(),
        (exists|k: int| 0 <= k < regions.len() && regions[k].id == id) ==> first_with_id(regions, id)
            < regions.len(),
    decreases regions.len(),
{
    if regions.len() > 0 {
        lemma_first_with_id_bound(regions.drop_first(), id);
        if regions[0].id != id && exists|k: int| 0 <= k < regions.len() && regions[k].id == id {
            let k = choose|k: int| 0 <= k < regions.len() && regions[k].id == id;
            assert(regions.drop_first()[k - 1] == regions[k]);
        }
    }
}

/// An id found in a prefix is found in the whole sequence.
proof fn lemma_first_with_id_prefix(regions: Seq<Region>, id: RegionId)
    requires
        regions.len() > 0,
        first_with_id(regions.drop_last(), id) < regions.len() - 1,
    ensures
        first_with_id(regions, id) < regions.len(),
{
    let t = regions.drop_last();
    let k = first_with_id(t, id);
    lemma_first_with_id_bound(t, id);
    lemma_first_with_id_at(t, id);
    assert(regions[k] == t[k]);
    lemma_first_with_id_bound(regions, id);
}

/// The first index with an id, when in range, holds that id.
proof fn lemma_first_with_id_at(regions: Seq<Region>, id: RegionId)
    ensures
        first_with_id(regions, id) < regions.len() ==> regions[first_with_id(regions, id)].id == id,
    decreases regions.len(),
{
    if regions.len() > 0 && regions[0].id != id {
        let t = regions.drop_first();
        lemma_first_with_id_at(t, id);
        lemma_first_with_id_bound(t, id);
        if first_with_id(t, id) < t.len() {
            assert(regions[first_with_id(t, id) + 1] == t[first_with_id(t, id)]);
        }
    }
}

proof fn lemma_first_with_id(regions: Seq<Region>, id: RegionId, i: int)
    requires
        0 <= i <= regions.len(),
        forall|k: int| 0 <= k < i ==> (#[trigger] regions[k]).id != id,
        i < regions.len() ==> regions[i].id == id,
    ensures
        first_with_id(regions, id) == i,
    decreases regions.len(),
{
    if regions.len() > 0 && i > 0 {
        let t = regions.drop_first();
        assert forall|k: int| 0 <= k < i - 1 implies (#[trigger] t[k]).id != id by {
            assert(t[k] == regions[k + 1]);
        }
        if i < regions.len() {
            assert(t[i - 1] == regions[i]);
        }
        assert(regions[0].id != id);
        lemma_first_with_id(t, id, i - 1);
    }
}

} // verus!
