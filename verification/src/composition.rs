use vstd::prelude::*;

use crate::clip::{Clip, ClipId, ClipSpan, ClipValue, MediaId};
use crate::edit_op::{EditId, EditOp};
use crate::edit_ranges::{
    map_point_if_kept_spec, move_insert_at, FrameRange, modified_ranges, modified_ranges_spec, ranges_for_edit,
    ranges_for_edit_spec,
};
use crate::edl::{index_of_id, push_history, Edit, Edl, InitialState, ProjectFile};
use crate::markers::{remap_prefix, Marker, MarkerId, MarkerList};
use crate::media::{MediaInfo, MediaPool};
use crate::tree::{
    clips_ok, frame_source, kept_frames, min_int, nonempty, range_clips_spec, replace_range_spec, total, values_of,
    ClipTree,
};

verus! {

/// Clips copied or cut from a composition, with the format they came from.
#[derive(Debug, Clone)]
pub struct Clipboard {
    pub sample_rate: u32,
    pub channel_count: usize,
    pub clips: Vec<Clip>,
}

impl Clipboard {
    pub fn is_empty(&self) -> (b: bool)
        ensures
            b == (self.clips@.len() == 0),
    {
        self.clips.len() == 0
    }

    /// The frames of all the clips.
    pub fn frames(&self) -> (f: u64)
        requires
            total(values_of(self.clips@)) <= u64::MAX,
        ensures
            f == total(values_of(self.clips@)),
    {
        let ghost vs = values_of(self.clips@);
        let mut sum: u64 = 0;
        let mut i: usize = 0;
        while i < self.clips.len()
            invariant
                i <= self.clips@.len(),
                vs == values_of(self.clips@),
                total(vs) <= u64::MAX,
                sum == total(vs.take(i as int)),
            decreases self.clips@.len() - i,
        {
            proof {
                assert(vs.take(i + 1).drop_last() =~= vs.take(i as int));
                crate::tree::lemma_total_take(vs, i + 1);
            }
            sum = sum + self.clips[i].len;
            i += 1;
        }
        proof {
            assert(vs.take(vs.len() as int) =~= vs);
        }
        sum
    }
}

/// Why a composition could not be made or changed.
#[derive(Debug, Clone, Copy, PartialEq, Eq, Structural)]
pub enum CompositionError {
    /// The media has a sample rate of zero.
    NoSampleRate,
    /// The media has no channels.
    NoChannels,
    /// The clipboard holds another format than the composition.
    ClipboardFormat { clipboard_rate: u32, clipboard_channels: usize, rate: u32, channels: usize },
    /// The initial media of a project is not among its media.
    InitialMediaMissing,
    /// A replayed edit would take frame, clip or id counts past their types.
    LimitExceeded,
}

/// The timeline of a composition rebuilt from its initial media, if it has
/// one with frames.
pub open spec fn rebuilt_timeline(initial: InitialState, media: Map<u64, MediaInfo>) -> Option<Seq<ClipValue>> {
    match initial {
        InitialState::FromMedia { media_id } => if media.contains_key(media_id) && media[media_id].frame_count
            > 0 {
            Some(
                seq![
                    ClipValue {
                        id: ClipId(1),
                        len: media[media_id].frame_count,
                        source: Some(
                            crate::clip::ClipSource { media_id: MediaId(media_id), offset: 0 },
                        ),
                        fade_in: 0,
                        fade_out: 0,
                        markers: seq![],
                    },
                ],
            )
        } else {
            None
        },
        InitialState::Empty => None,
    }
}

/// The timeline a composition takes on when its history moves to entry
/// `cursor` holding `snap`: an empty initial timeline is rebuilt from the
/// initial media where there is one.
pub open spec fn adopted_timeline(
    snap: Seq<ClipValue>,
    cursor: int,
    initial: InitialState,
    media: Map<u64, MediaInfo>,
) -> Seq<ClipValue> {
    if snap.len() != 0 || cursor != 0 {
        snap
    } else {
        match rebuilt_timeline(initial, media) {
            Some(t) => t,
            None => snap,
        }
    }
}

/// `ms` remapped through each op of `ops` in turn.
pub open spec fn remap_forward(ms: Seq<Marker>, ops: Seq<EditOp>) -> Seq<Marker>
    decreases ops.len(),
{
    if ops.len() == 0 {
        ms
    } else {
        let prev = remap_forward(ms, ops.drop_last());
        remap_prefix(prev, ops.last(), false, prev.len())
    }
}

/// `ms` remapped back through each op of `ops`, the last op first.
pub open spec fn remap_backward(ms: Seq<Marker>, ops: Seq<EditOp>) -> Seq<Marker>
    decreases ops.len(),
{
    if ops.len() == 0 {
        ms
    } else {
        let after_last = remap_prefix(ms, ops.last(), true, ms.len());
        remap_backward(after_last, ops.drop_last())
    }
}

/// A composition: a timeline of clips over a pool of media, with its edit
/// history, clipboard and markers.
pub struct Composition {
    sample_rate: u32,
    channel_count: usize,
    tree: ClipTree,
    pool: MediaPool,
    edl: Edl,
    next_clip_id: u64,
    clipboard: Clipboard,
    initial: InitialState,
    markers: MarkerList,
}

impl Composition {
    /// The clips of the timeline, in order.
    pub closed spec fn timeline(&self) -> Seq<ClipValue> {
        self.tree@
    }

    pub closed spec fn history(&self) -> Seq<Edit> {
        self.edl.history()
    }

    pub closed spec fn cursor_spec(&self) -> int {
        self.edl.cursor_spec()
    }

    pub closed spec fn next_edit_id(&self) -> u64 {
        self.edl.next_id_spec()
    }

    pub closed spec fn next_clip_id_spec(&self) -> u64 {
        self.next_clip_id
    }

    pub closed spec fn clipboard_spec(&self) -> Clipboard {
        self.clipboard
    }

    pub closed spec fn marker_list(&self) -> MarkerList {
        self.markers
    }

    pub closed spec fn media(&self) -> Map<u64, MediaInfo> {
        self.pool.entries()
    }

    pub closed spec fn initial_spec(&self) -> InitialState {
        self.initial
    }

    pub closed spec fn sample_rate_spec(&self) -> u32 {
        self.sample_rate
    }

    pub closed spec fn channel_count_spec(&self) -> usize {
        self.channel_count
    }

    pub closed spec fn wf(&self) -> bool {
        &&& self.tree.wf()
        &&& self.edl.wf()
        &&& self.markers.wf()
        &&& self.pool.wf()
        &&& self.tree@ == self.edl.current_snapshot()
        &&& forall|i: int|
            0 <= i < self.clipboard.clips@.len() ==> (#[trigger] self.clipboard.clips@[i]).value().fits()
        &&& total(values_of(self.clipboard.clips@)) <= u64::MAX
        &&& self.clipboard.sample_rate == self.sample_rate
        &&& self.clipboard.channel_count == self.channel_count
    }

    /// A well-formed composition's timeline holds clips with frames, and
    /// its history is at the timeline.
    pub proof fn lemma_wf(&self)
        requires
            self.wf(),
        ensures
            clips_ok(self.timeline()),
            total(self.timeline()) <= u64::MAX,
            self.timeline().len() <= usize::MAX,
            self.history().len() >= 1,
            0 <= self.cursor_spec() < self.history().len(),
            self.history()[self.cursor_spec()].snapshot@ == self.timeline(),
            self.marker_list().wf(),
            self.history()[0].id == EditId(0),
            self.history()[0].op == EditOp::Init,
            self.clipboard_spec().sample_rate == self.sample_rate_spec(),
            self.clipboard_spec().channel_count == self.channel_count_spec(),
    {
        self.tree.lemma_wf();
    }

    /// An empty composition of the given format.
    pub fn new(sample_rate: u32, channel_count: usize) -> (c: Composition)
        ensures
            c.wf(),
            c.timeline() == Seq::<ClipValue>::empty(),
            c.history().len() == 1,
            c.cursor_spec() == 0,
            c.next_edit_id() == 1,
            c.next_clip_id_spec() == 1,
            c.sample_rate_spec() == sample_rate,
            c.channel_count_spec() == channel_count,
            c.initial_spec() == InitialState::Empty,
            c.media() == Map::<u64, MediaInfo>::empty(),
            c.marker_list().items() == Seq::<Marker>::empty(),
            c.clipboard_spec().clips@ == Seq::<Clip>::empty(),
    {
        let tree = ClipTree::empty();
        let edl = Edl::new(tree.copy());
        Composition {
            sample_rate,
            channel_count,
            tree,
            pool: MediaPool::new(),
            edl,
            next_clip_id: 1,
            clipboard: Clipboard { sample_rate, channel_count, clips: Vec::new() },
            initial: InitialState::Empty,
            markers: MarkerList::new(),
        }
    }

    /// A composition playing the whole of `media` as its one clip. Media
    /// without a sample rate or without channels is refused.
    pub fn from_media(media: MediaInfo) -> (r: Result<Composition, CompositionError>)
        ensures
            media.sample_rate == 0 ==> r == Err::<Composition, CompositionError>(CompositionError::NoSampleRate),
            media.sample_rate != 0 && media.channel_count == 0 ==> r == Err::<Composition, CompositionError>(
                CompositionError::NoChannels,
            ),
            media.sample_rate != 0 && media.channel_count != 0 ==> r is Ok,
            r matches Ok(c) ==> {
                let id: u64 = if media.id.0 == 0 {
                    1
                } else {
                    media.id.0
                };
                &&& c.wf()
                &&& c.sample_rate_spec() == media.sample_rate
                &&& c.channel_count_spec() == media.channel_count
                &&& c.media() == Map::<u64, MediaInfo>::empty().insert(id, MediaInfo { id: MediaId(id), ..media })
                &&& c.initial_spec() == (InitialState::FromMedia { media_id: id })
                &&& c.timeline() == if media.frame_count == 0 {
                    Seq::<ClipValue>::empty()
                } else {
                    rebuilt_timeline(c.initial_spec(), c.media())->Some_0
                }
                &&& c.history().len() == 1
                &&& c.cursor_spec() == 0
                &&& c.next_edit_id() == 1
                &&& c.next_clip_id_spec() == 2
                &&& c.marker_list().items() == Seq::<Marker>::empty()
                &&& c.clipboard_spec().clips@ == Seq::<Clip>::empty()
            },
    {
        if media.sample_rate == 0 {
            return Err(CompositionError::NoSampleRate);
        }
        if media.channel_count == 0 {
            return Err(CompositionError::NoChannels);
        }
        let mut pool = MediaPool::new();
        let sample_rate = media.sample_rate;
        let channel_count = media.channel_count;
        let frame_count = media.frame_count;
        let media_id = pool.insert(media);
        let clip = Clip::from_media(ClipId(1), media_id, 0, frame_count);
        let tree = ClipTree::from_clip(clip);
        let edl = Edl::new(tree.copy());
        Ok(
            Composition {
                sample_rate,
                channel_count,
                tree,
                pool,
                edl,
                next_clip_id: 2,
                clipboard: Clipboard { sample_rate, channel_count, clips: Vec::new() },
                initial: InitialState::FromMedia { media_id: media_id.0 },
                markers: MarkerList::new(),
            },
        )
    }

    pub fn sample_rate(&self) -> (r: u32)
        ensures
            r == self.sample_rate_spec(),
    {
        self.sample_rate
    }

    pub fn channel_count(&self) -> (r: usize)
        ensures
            r == self.channel_count_spec(),
    {
        self.channel_count
    }

    /// The frames of the timeline.
    pub fn frames(&self) -> (f: u64)
        requires
            self.wf(),
        ensures
            f == total(self.timeline()),
    {
        self.tree.frames()
    }

    pub fn is_empty(&self) -> (b: bool)
        requires
            self.wf(),
        ensures
            b == (total(self.timeline()) == 0),
    {
        self.tree.frames() == 0
    }

    pub fn markers(&self) -> (m: &MarkerList)
        ensures
            *m == self.marker_list(),
    {
        &self.markers
    }

    /// Adds a marker; `None` if that type already marks `frame`.
    pub fn add_marker(&mut self, frame: u64, marker_type: String, color: [u32; 4], note: Option<String>) -> (r:
        Option<MarkerId>)
        requires
            old(self).wf(),
            old(self).marker_list().next_id_spec() < u64::MAX,
        ensures
            final(self).wf(),
            r is None <==> crate::markers::has_key(old(self).marker_list().items(), (frame, marker_type@)),
            r matches Some(id) ==> final(self).marker_list().items() == crate::markers::insert_sorted_spec(
                old(self).marker_list().items(),
                Marker { id, frame, marker_type, color, note },
            ) && id == MarkerId(old(self).marker_list().next_id_spec()),
            r is None ==> final(self).marker_list() == old(self).marker_list(),
            final(self).timeline() == old(self).timeline(),
            final(self).history() == old(self).history(),
            final(self).cursor_spec() == old(self).cursor_spec(),
    {
        self.markers.insert(frame, marker_type, color, note)
    }

    pub fn remove_marker(&mut self, id: MarkerId) -> (removed: bool)
        requires
            old(self).wf(),
        ensures
            final(self).wf(),
            removed == crate::markers::has_marker_id(old(self).marker_list().items(), id),
            removed ==> exists|i: int|
                0 <= i < old(self).marker_list().items().len() && old(self).marker_list().items()[i].id == id
                    && final(self).marker_list().items() == old(self).marker_list().items().remove(i),
            !removed ==> final(self).marker_list() == old(self).marker_list(),
            final(self).timeline() == old(self).timeline(),
    {
        self.markers.remove(id)
    }

    pub fn remove_marker_at(&mut self, frame: u64) -> (removed: bool)
        requires
            old(self).wf(),
        ensures
            final(self).wf(),
            removed == (exists|i: int|
                0 <= i < old(self).marker_list().items().len() && (#[trigger] old(self).marker_list().items()[i]).frame
                    == frame),
            final(self).marker_list().items() == crate::markers::without_frame(
                old(self).marker_list().items(),
                frame,
            ),
            final(self).timeline() == old(self).timeline(),
    {
        self.markers.remove_at(frame)
    }

    pub fn remove_marker_at_type(&mut self, frame: u64, marker_type: &str) -> (removed: bool)
        requires
            old(self).wf(),
        ensures
            final(self).wf(),
            removed == crate::markers::has_key(old(self).marker_list().items(), (frame, marker_type@)),
            removed ==> exists|i: int|
                0 <= i < old(self).marker_list().items().len() && crate::markers::mkey(
                    old(self).marker_list().items()[i],
                ) == (frame, marker_type@) && final(self).marker_list().items()
                    == old(self).marker_list().items().remove(i),
            !removed ==> final(self).marker_list() == old(self).marker_list(),
            final(self).timeline() == old(self).timeline(),
    {
        self.markers.remove_at_type(frame, marker_type)
    }

    pub fn pool(&self) -> (p: &MediaPool)
        ensures
            p.entries() == self.media(),
    {
        &self.pool
    }

    pub fn clipboard(&self) -> (c: &Clipboard)
        ensures
            *c == self.clipboard_spec(),
    {
        &self.clipboard
    }

    /// The id of the edit the history is at.
    pub fn current_edit(&self) -> (id: EditId)
        requires
            self.wf(),
        ensures
            id == self.history()[self.cursor_spec()].id,
    {
        self.edl.current_id()
    }

    pub fn edit_cursor(&self) -> (c: usize)
        ensures
            c == self.cursor_spec(),
    {
        self.edl.cursor()
    }

    pub fn can_undo(&self) -> (b: bool)
        ensures
            b == (self.cursor_spec() > 0),
    {
        self.edl.can_undo()
    }

    pub fn can_redo(&self) -> (b: bool)
        ensures
            b == (self.cursor_spec() + 1 < self.history().len()),
    {
        self.edl.can_redo()
    }

    pub fn edits(&self) -> (e: &[Edit])
        ensures
            e@ == self.history(),
    {
        self.edl.edits()
    }

    /// Every clip of the timeline with the frame it starts at.
    pub fn spans(&self) -> (r: Vec<ClipSpan>)
        requires
            self.wf(),
        ensures
            crate::tree::span_values(r@) == crate::tree::spans_spec(self.timeline(), 0),
    {
        self.tree.spans()
    }

    /// The span of the clip holding `frame`, if the timeline reaches it.
    pub fn clip_at(&self, frame: u64) -> (r: Option<ClipSpan>)
        requires
            self.wf(),
        ensures
            r is Some <==> frame < total(self.timeline()),
            r matches Some(sp) ==> {
                let found = crate::tree::locate(self.timeline(), frame as int);
                &&& sp.clip.value() == self.timeline()[found.0]
                &&& sp.start == found.1
            },
    {
        self.tree.at(frame)
    }
}

/// `new` is `old` after committing `op` with the timeline `timeline`: the
/// timeline is replaced, the entries after the cursor are dropped and the
/// edit follows as the current one, and the markers move with the edit.
pub open spec fn committed(old: Composition, new: Composition, op: EditOp, timeline: Seq<ClipValue>) -> bool {
    &&& new.timeline() == timeline
    &&& new.cursor_spec() == old.cursor_spec() + 1
    &&& new.history().len() == old.cursor_spec() + 2
    &&& forall|i: int| 0 <= i <= old.cursor_spec() ==> #[trigger] new.history()[i] == old.history()[i]
    &&& new.history()[old.cursor_spec() + 1].op == op
    &&& new.history()[old.cursor_spec() + 1].id == EditId(old.next_edit_id())
    &&& new.history()[old.cursor_spec() + 1].snapshot@ == timeline
    &&& new.next_edit_id() == old.next_edit_id() + 1
    &&& new.marker_list().items() == remap_prefix(
        old.marker_list().items(),
        op,
        false,
        old.marker_list().items().len(),
    )
    &&& new.marker_list().next_id_spec() == old.marker_list().next_id_spec()
    &&& new.media() == old.media()
    &&& new.initial_spec() == old.initial_spec()
    &&& new.sample_rate_spec() == old.sample_rate_spec()
    &&& new.channel_count_spec() == old.channel_count_spec()
}

/// The history entries of `new` are those of `old`, but for the snapshot of
/// the initial entry.
pub open spec fn same_history_but_initial(old: Seq<Edit>, new: Seq<Edit>) -> bool {
    &&& new.len() == old.len()
    &&& new[0].id == old[0].id
    &&& new[0].op == old[0].op
    &&& forall|i: int| 1 <= i < old.len() ==> #[trigger] new[i] == old[i]
}

/// `after` is `before` stepped back one edit: the history moves to the
/// entry before, the timeline takes its snapshot and the markers move back
/// through the undone edit.
pub open spec fn undone(before: Composition, after: Composition) -> bool {
    let c = before.cursor_spec();
    &&& after.cursor_spec() == c - 1
    &&& after.timeline() == adopted_timeline(
        before.history()[c - 1].snapshot@,
        c - 1,
        before.initial_spec(),
        before.media(),
    )
    &&& after.marker_list().items() == remap_prefix(
        before.marker_list().items(),
        before.history()[c].op,
        true,
        before.marker_list().items().len(),
    )
    &&& same_history_but_initial(before.history(), after.history())
    &&& after.next_edit_id() == before.next_edit_id()
    &&& after.next_clip_id_spec() == before.next_clip_id_spec()
    &&& after.clipboard_spec() == before.clipboard_spec()
    &&& after.media() == before.media()
    &&& after.initial_spec() == before.initial_spec()
}

/// `after` is `before` stepped forward one edit: the history moves to the
/// entry after, the timeline takes its snapshot and the markers move through
/// the redone edit.
pub open spec fn redone(before: Composition, after: Composition) -> bool {
    let c = before.cursor_spec();
    &&& after.cursor_spec() == c + 1
    &&& after.timeline() == before.history()[c + 1].snapshot@
    &&& after.marker_list().items() == remap_prefix(
        before.marker_list().items(),
        before.history()[c + 1].op,
        false,
        before.marker_list().items().len(),
    )
    &&& after.history() == before.history()
    &&& after.next_edit_id() == before.next_edit_id()
    &&& after.next_clip_id_spec() == before.next_clip_id_spec()
    &&& after.clipboard_spec() == before.clipboard_spec()
    &&& after.media() == before.media()
    &&& after.initial_spec() == before.initial_spec()
}

/// Undoing an edit gives back the timeline it was applied to, and the
/// history entry it was made at.
pub proof fn law_undo_restores_timeline(
    start: Composition,
    edited: Composition,
    back: Composition,
    op: EditOp,
    timeline: Seq<ClipValue>,
)
    requires
        start.wf(),
        committed(start, edited, op, timeline),
        undone(edited, back),
    ensures
        back.cursor_spec() == start.cursor_spec(),
        start.timeline().len() != 0 || start.cursor_spec() != 0 ==> back.timeline() == start.timeline(),
{
    start.lemma_wf();
}

/// Redoing an undone edit gives back the timeline the edit made.
pub proof fn law_redo_after_undo(start: Composition, back: Composition, again: Composition)
    requires
        start.wf(),
        start.cursor_spec() > 0,
        undone(start, back),
        redone(back, again),
    ensures
        again.cursor_spec() == start.cursor_spec(),
        again.timeline() == start.timeline(),
{
    start.lemma_wf();
    assert(back.history()[start.cursor_spec()] == start.history()[start.cursor_spec()]);
}

impl Composition {
    fn commit(&mut self, op: EditOp, tree: ClipTree)
        requires
            old(self).wf(),
            tree.wf(),
            old(self).next_edit_id() < u64::MAX,
        ensures
            final(self).wf(),
            committed(*old(self), *final(self), op, tree@),
            final(self).next_clip_id_spec() == old(self).next_clip_id_spec(),
            final(self).clipboard_spec() == old(self).clipboard_spec(),
    {
        self.markers.remap_through_op(&op);
        self.tree = tree;
        let snap = self.tree.copy();
        self.edl.push(op, snap);
    }

    /// The timeline rebuilt from the initial media, if there is one with frames.
    fn rebuild_from_initial_media(&self) -> (r: Option<ClipTree>)
        requires
            self.pool.wf(),
        ensures
            r is Some <==> rebuilt_timeline(self.initial, self.pool.entries()) is Some,
            r matches Some(t) ==> t.wf() && t@ == rebuilt_timeline(self.initial, self.pool.entries())->Some_0,
    {
        match self.initial {
            InitialState::Empty => None,
            InitialState::FromMedia { media_id } => match self.pool.get(MediaId(media_id)) {
                Some(media) => {
                    if media.frame_count == 0 {
                        None
                    } else {
                        let clip = Clip::from_media(ClipId(1), MediaId(media_id), 0, media.frame_count);
                        let t = ClipTree::from_clip(clip);
                        proof {
                            assert(t@ =~= rebuilt_timeline(self.initial, self.pool.entries())->Some_0);
                        }
                        Some(t)
                    }
                },
                None => None,
            },
        }
    }

    /// Replaces the snapshot of the initial history entry; while the history
    /// is at that entry, only with the timeline itself.
    pub fn replace_init_snapshot(&mut self, tree: ClipTree)
        requires
            old(self).wf(),
            tree.wf(),
            old(self).cursor_spec() != 0 || tree@ == old(self).timeline(),
        ensures
            final(self).wf(),
            final(self).history() == old(self).history().update(
                0,
                Edit { snapshot: tree, ..old(self).history()[0] },
            ),
            final(self).timeline() == old(self).timeline(),
            final(self).cursor_spec() == old(self).cursor_spec(),
            final(self).next_edit_id() == old(self).next_edit_id(),
            final(self).next_clip_id_spec() == old(self).next_clip_id_spec(),
            final(self).marker_list() == old(self).marker_list(),
            final(self).media() == old(self).media(),
            final(self).initial_spec() == old(self).initial_spec(),
            final(self).clipboard_spec() == old(self).clipboard_spec(),
            final(self).sample_rate_spec() == old(self).sample_rate_spec(),
            final(self).channel_count_spec() == old(self).channel_count_spec(),
    {
        proof {
            self.lemma_wf();
        }
        self.edl.replace_init_snapshot(tree);
    }

    /// Takes on `tree`, the snapshot the history is at; an empty initial
    /// timeline is rebuilt from the initial media, in the history too.
    fn adopt_tree(&mut self, tree: ClipTree)
        requires
            old(self).edl.wf(),
            old(self).pool.wf(),
            tree.wf(),
            tree@ == old(self).edl.current_snapshot(),
        ensures
            final(self).edl.wf(),
            final(self).tree.wf(),
            final(self).tree@ == final(self).edl.current_snapshot(),
            final(self).tree@ == adopted_timeline(tree@, old(self).edl.cursor_spec(), old(self).initial, old(self).pool.entries()),
            same_history_but_initial(old(self).edl.history(), final(self).edl.history()),
            tree@.len() != 0 || old(self).edl.cursor_spec() != 0 ==> final(self).edl.history() == old(
                self,
            ).edl.history(),
            final(self).edl.cursor_spec() == old(self).edl.cursor_spec(),
            final(self).edl.next_id_spec() == old(self).edl.next_id_spec(),
            final(self).markers == old(self).markers,
            final(self).pool == old(self).pool,
            final(self).initial == old(self).initial,
            final(self).sample_rate == old(self).sample_rate,
            final(self).channel_count == old(self).channel_count,
            final(self).clipboard == old(self).clipboard,
            final(self).next_clip_id == old(self).next_clip_id,
    {
        if !tree.is_empty() || self.edl.cursor() != 0 {
            self.tree = tree;
            return;
        }
        match self.rebuild_from_initial_media() {
            Some(rebuilt) => {
                let copy = rebuilt.copy();
                self.edl.replace_init_snapshot(copy);
                self.tree = rebuilt;
            },
            None => {
                self.tree = tree;
            },
        }
    }

    /// Steps back one edit: the timeline goes back to the snapshot before it
    /// and the markers move back through it. `false` at the initial entry.
    pub fn undo(&mut self) -> (r: bool)
        requires
            old(self).wf(),
        ensures
            final(self).wf(),
            r == (old(self).cursor_spec() > 0),
            !r ==> *final(self) == *old(self),
            r ==> undone(*old(self), *final(self)),
    {
        if !self.edl.can_undo() {
            return false;
        }
        let op = self.edl.current().op;
        match self.edl.undo() {
            Some(tree) => {
                self.markers.remap_through_inverse(&op);
                self.adopt_tree(tree);
                true
            },
            None => false,
        }
    }

    /// Steps forward one edit: the timeline takes the snapshot after it and
    /// the markers move through it. `false` at the last entry.
    pub fn redo(&mut self) -> (r: bool)
        requires
            old(self).wf(),
        ensures
            final(self).wf(),
            r == (old(self).cursor_spec() + 1 < old(self).history().len()),
            !r ==> *final(self) == *old(self),
            r ==> redone(*old(self), *final(self)),
    {
        if !self.edl.can_redo() {
            return false;
        }
        let cur = self.edl.cursor();
        let es = self.edl.edits();
        let n = es.len();
        assert(cur + 1 < n);
        let op = es[cur + 1].op;
        match self.edl.redo() {
            Some(tree) => {
                self.markers.remap_through_op(&op);
                proof {
                    assert(self.edl.cursor_spec() != 0);
                }
                self.adopt_tree(tree);
                true
            },
            None => false,
        }
    }
}

/// Remapping back through a run of ops applies the last op first and the
/// first op last.
proof fn lemma_remap_backward_front(ms: Seq<Marker>, ops: Seq<EditOp>)
    requires
        ops.len() > 0,
    ensures
        remap_backward(ms, ops) == ({
            let prev = remap_backward(ms, ops.drop_first());
            remap_prefix(prev, ops[0], true, prev.len())
        }),
    decreases ops.len(),
{
    let after_last = remap_prefix(ms, ops.last(), true, ms.len());
    if ops.len() == 1 {
        assert(ops.drop_first() =~= Seq::<EditOp>::empty());
        assert(ops.drop_last() =~= Seq::<EditOp>::empty());
        assert(remap_backward(ms, ops) == remap_backward(after_last, Seq::<EditOp>::empty()));
        assert(remap_backward(after_last, Seq::<EditOp>::empty()) == after_last);
        assert(remap_backward(ms, Seq::<EditOp>::empty()) == ms);
    } else {
        lemma_remap_backward_front(after_last, ops.drop_last());
        let d = ops.drop_first();
        assert(d.len() > 0);
        assert(remap_backward(ms, d) == remap_backward(
            remap_prefix(ms, d.last(), true, ms.len()),
            d.drop_last(),
        ));
        assert(ops.drop_last().drop_first() =~= ops.drop_first().drop_last());
        assert(ops.drop_first().last() == ops.last());
        assert(ops.drop_last()[0] == ops[0]);
    }
}

/// The markers moved from history entry `from` to entry `to`: forward
/// through the edits after `from` up to `to`, or back through those after
/// `to` up to `from`.
pub open spec fn markers_between(ms: Seq<Marker>, h: Seq<Edit>, from: int, to: int) -> Seq<Marker> {
    if to > from {
        remap_forward(ms, crate::edit_ranges::ops_of(h).subrange(from + 1, to + 1))
    } else if to < from {
        remap_backward(ms, crate::edit_ranges::ops_of(h).subrange(to + 1, from + 1))
    } else {
        ms
    }
}

/// `new` is `old` moved to history entry `to`: the timeline takes that
/// entry's snapshot and the markers move through the edits in between.
pub open spec fn jumped(old: Composition, new: Composition, to: int) -> bool {
    &&& new.cursor_spec() == to
    &&& new.timeline() == adopted_timeline(old.history()[to].snapshot@, to, old.initial_spec(), old.media())
    &&& new.marker_list().items() == markers_between(
        old.marker_list().items(),
        old.history(),
        old.cursor_spec(),
        to,
    )
    &&& same_history_but_initial(old.history(), new.history())
    &&& new.next_edit_id() == old.next_edit_id()
    &&& new.next_clip_id_spec() == old.next_clip_id_spec()
    &&& new.clipboard_spec() == old.clipboard_spec()
    &&& new.media() == old.media()
}

impl Composition {
    fn remap_markers_between(&mut self, from: usize, to: usize)
        requires
            old(self).markers.wf(),
            from < old(self).edl.history().len(),
            to < old(self).edl.history().len(),
        ensures
            final(self).markers.wf(),
            final(self).markers.items() == markers_between(
                old(self).markers.items(),
                old(self).edl.history(),
                from as int,
                to as int,
            ),
            final(self).markers.next_id_spec() == old(self).markers.next_id_spec(),
            final(self).tree == old(self).tree,
            final(self).edl == old(self).edl,
            final(self).pool == old(self).pool,
            final(self).initial == old(self).initial,
            final(self).sample_rate == old(self).sample_rate,
            final(self).channel_count == old(self).channel_count,
            final(self).clipboard == old(self).clipboard,
            final(self).next_clip_id == old(self).next_clip_id,
    {
        let ghost ops = crate::edit_ranges::ops_of(self.edl.history());
        let ghost start = self.markers.items();
        let edits = self.edl.edits();
        let n = edits.len();
        if to > from {
            let mut k: usize = from + 1;
            proof {
                assert(ops.subrange(from + 1, k as int) =~= Seq::<EditOp>::empty());
            }
            while k <= to
                invariant
                    from < k <= to + 1,
                    to < n,
                    n == edits@.len(),
                    edits@ == self.edl.history(),
                    ops == crate::edit_ranges::ops_of(edits@),
                    self.markers.wf(),
                    self.markers.items() == remap_forward(start, ops.subrange(from + 1, k as int)),
                    self.markers.next_id_spec() == old(self).markers.next_id_spec(),
                    self.tree == old(self).tree,
                    self.edl == old(self).edl,
                    self.pool == old(self).pool,
                    self.initial == old(self).initial,
                    self.sample_rate == old(self).sample_rate,
                    self.channel_count == old(self).channel_count,
                    self.clipboard == old(self).clipboard,
                    self.next_clip_id == old(self).next_clip_id,
                decreases to + 1 - k,
            {
                let op = edits[k].op;
                proof {
                    assert(ops.subrange(from + 1, k + 1).drop_last() =~= ops.subrange(from + 1, k as int));
                    assert(ops.subrange(from + 1, k + 1).last() == op);
                }
                self.markers.remap_through_op(&op);
                k += 1;
            }
        } else if to < from {
            let mut k: usize = from;
            proof {
                assert(ops.subrange(k + 1, from + 1) =~= Seq::<EditOp>::empty());
            }
            while k > to
                invariant
                    to <= k <= from,
                    from < n,
                    n == edits@.len(),
                    edits@ == self.edl.history(),
                    ops == crate::edit_ranges::ops_of(edits@),
                    self.markers.wf(),
                    self.markers.items() == remap_backward(start, ops.subrange(k + 1, from + 1)),
                    self.markers.next_id_spec() == old(self).markers.next_id_spec(),
                    self.tree == old(self).tree,
                    self.edl == old(self).edl,
                    self.pool == old(self).pool,
                    self.initial == old(self).initial,
                    self.sample_rate == old(self).sample_rate,
                    self.channel_count == old(self).channel_count,
                    self.clipboard == old(self).clipboard,
                    self.next_clip_id == old(self).next_clip_id,
                decreases k,
            {
                let op = edits[k].op;
                proof {
                    let run = ops.subrange(k as int, from + 1);
                    lemma_remap_backward_front(start, run);
                    assert(run.drop_first() =~= ops.subrange(k + 1, from + 1));
                    assert(run[0] == op);
                }
                self.markers.remap_through_inverse(&op);
                k -= 1;
            }
        }
    }

    /// Moves the history to the edit with id `id`: the timeline takes its
    /// snapshot and the markers move through the edits in between. `false`,
    /// with nothing changed, if no edit has the id.
    pub fn jump_to_edit(&mut self, id: EditId) -> (r: bool)
        requires
            old(self).wf(),
        ensures
            final(self).wf(),
            r == (index_of_id(old(self).history(), id) < old(self).history().len()),
            !r ==> *final(self) == *old(self),
            r ==> jumped(*old(self), *final(self), index_of_id(old(self).history(), id)),
    {
        let from = self.edl.cursor();
        match self.edl.jump_to(id) {
            Some(tree) => {
                let to = self.edl.cursor();
                self.remap_markers_between(from, to);
                self.adopt_tree(tree);
                true
            },
            None => false,
        }
    }

    /// Regions changed by the applied edits, on the current timeline.
    pub fn modified_ranges(&self) -> (r: Vec<FrameRange>)
        requires
            self.wf(),
        ensures
            r@ == modified_ranges_spec(self.history(), self.cursor_spec()),
    {
        modified_ranges(self.edl.edits(), self.edl.cursor())
    }

    /// Where edit `id` landed on the current timeline; empty if no applied
    /// edit has the id.
    pub fn ranges_for_edit(&self, id: EditId) -> (r: Vec<FrameRange>)
        requires
            self.wf(),
        ensures
            index_of_id(self.history(), id) < self.history().len() ==> r@ == ranges_for_edit_spec(
                self.history(),
                self.cursor_spec(),
                index_of_id(self.history(), id),
            ),
            index_of_id(self.history(), id) >= self.history().len() ==> r@.len() == 0,
    {
        let edits = self.edl.edits();
        let mut i: usize = 0;
        while i < edits.len()
            invariant
                i <= edits@.len(),
                self.wf(),
                edits@ == self.history(),
                self.cursor_spec() < edits@.len(),
                forall|k: int| 0 <= k < i ==> (#[trigger] edits@[k]).id != id,
            decreases edits@.len() - i,
        {
            if edits[i].id == id {
                proof {
                    crate::edl::lemma_index_of_id(edits@, id, i as int);
                }
                return ranges_for_edit(edits, self.edl.cursor(), i);
            }
            i += 1;
        }
        proof {
            crate::edl::lemma_index_of_id_absent(edits@, id);
        }
        Vec::new()
    }
}

/// The clips of `vs`, renamed `n`, `n + 1`, ... in order.
pub open spec fn renamed(vs: Seq<ClipValue>, n: int) -> Seq<ClipValue> {
    Seq::new(vs.len(), |i: int| ClipValue { id: ClipId((n + i) as u64), ..vs[i] })
}

/// The silence clip a delete of `len` frames puts in, named `id`.
pub open spec fn silence_value(id: u64, len: u64) -> ClipValue {
    ClipValue { id: ClipId(id), len, source: None, fade_in: 0, fade_out: 0, markers: seq![] }
}

/// The frame a moved block is put back at, on the timeline without it.
pub open spec fn move_target(from: u64, len: u64, dest: u64, frames: int) -> u64 {
    let insert_at: u64 = if dest > from {
        if dest >= len {
            (dest - len) as u64
        } else {
            0
        }
    } else {
        dest
    };
    if insert_at <= frames {
        insert_at
    } else {
        frames as u64
    }
}

/// What `copy` makes of `old`: the composition `new`.
pub open spec fn copied(old: Composition, new: Composition, start: u64, len: u64) -> bool {
    &&& new.timeline() == old.timeline()
    &&& new.history() == push_history(
                    old.history(),
                    old.cursor_spec(),
                    new.history()[old.cursor_spec() + 1],
                )
    &&& new.history()[old.cursor_spec() + 1].op == (EditOp::Copy { start, len })
    &&& new.history()[old.cursor_spec() + 1].id == EditId(old.next_edit_id())
    &&& new.history()[old.cursor_spec() + 1].snapshot@ == old.timeline()
    &&& new.cursor_spec() == old.cursor_spec() + 1
    &&& new.marker_list() == old.marker_list()
    &&& values_of(new.clipboard_spec().clips@) == range_clips_spec(
                    old.timeline(),
                    start,
                    len,
                    old.next_clip_id_spec(),
                ).0
    &&& new.clipboard_spec().sample_rate == old.sample_rate_spec()
    &&& new.clipboard_spec().channel_count == old.channel_count_spec()
    &&& new.media() == old.media()
    &&& new.initial_spec() == old.initial_spec()
    &&& new.sample_rate_spec() == old.sample_rate_spec()
    &&& new.channel_count_spec() == old.channel_count_spec()
    &&& new.next_edit_id() == old.next_edit_id() + 1    &&& new.next_clip_id_spec() == old.next_clip_id_spec() + range_clips_spec(
                    old.timeline(),
                    start,
                    len,
                    old.next_clip_id_spec(),
                ).1
}

/// What `remove` makes of `old`: the composition `new`.
pub open spec fn removed(old: Composition, new: Composition, start: u64, len: u64) -> bool {
    &&& committed(
                    old,
                    new,
                    EditOp::Remove { start, len },
                    replace_range_spec(old.timeline(), start, len, seq![], old.next_clip_id_spec()).0,
                )
    &&& new.next_clip_id_spec() == old.next_clip_id_spec() + replace_range_spec(
                    old.timeline(),
                    start,
                    len,
                    seq![],
                    old.next_clip_id_spec(),
                ).1
    &&& total(new.timeline()) == kept_frames(total(old.timeline()) as int, start, len)
    &&& new.clipboard_spec() == old.clipboard_spec()
}

/// What `cut` makes of `old`: the composition `new`.
pub open spec fn cut_done(old: Composition, new: Composition, start: u64, len: u64) -> bool {
    &&& ({
                    let n = old.next_clip_id_spec();
                    let picked = range_clips_spec(old.timeline(), start, len, n);
                    let n1 = (n + picked.1) as u64;
                    let replaced = replace_range_spec(old.timeline(), start, len, seq![], n1);
                    &&& committed(old, new, EditOp::Cut { start, len }, replaced.0)
                    &&& new.next_clip_id_spec() == n1 + replaced.1
                    &&& values_of(new.clipboard_spec().clips@) == picked.0
                })
    &&& total(new.timeline()) == kept_frames(total(old.timeline()) as int, start, len)
    &&& new.clipboard_spec().sample_rate == old.sample_rate_spec()
    &&& new.clipboard_spec().channel_count == old.channel_count_spec()
}

/// What `delete` makes of `old`: the composition `new`.
pub open spec fn deleted(old: Composition, new: Composition, start: u64, len: u64) -> bool {
    &&& len == 0 ==> new == old
    &&& len > 0 ==> ({
                    let n = old.next_clip_id_spec();
                    let replaced = replace_range_spec(
                        old.timeline(),
                        start,
                        len,
                        seq![silence_value(n, len)],
                        (n + 1) as u64,
                    );
                    &&& committed(old, new, EditOp::Delete { start, len }, replaced.0)
                    &&& new.next_clip_id_spec() == n + 1 + replaced.1
                    &&& total(new.timeline()) == kept_frames(total(old.timeline()) as int, start, len)
                        + len
                    &&& new.clipboard_spec() == old.clipboard_spec()
                })
}

/// What `paste_replacing` makes of `old`: the composition `new`.
pub open spec fn pasted(old: Composition, new: Composition, at: u64, replace_len: u64, r: Result<(), CompositionError>) -> bool {
    &&& ({
                    let cb = old.clipboard_spec();
                    let mismatch = cb.sample_rate != old.sample_rate_spec() || cb.channel_count
                        != old.channel_count_spec();
                    &&& cb.clips@.len() == 0 ==> r is Ok && new == old
                    &&& cb.clips@.len() != 0 && mismatch ==> r == Err::<(), CompositionError>(
                        CompositionError::ClipboardFormat {
                            clipboard_rate: cb.sample_rate,
                            clipboard_channels: cb.channel_count,
                            rate: old.sample_rate_spec(),
                            channels: old.channel_count_spec(),
                        },
                    ) && new == old
                    &&& cb.clips@.len() != 0 && !mismatch ==> {
                        let n = old.next_clip_id_spec();
                        let k = cb.clips@.len();
                        let pasted_clips = renamed(values_of(cb.clips@), n as int);
                        let replaced = replace_range_spec(
                            old.timeline(),
                            at,
                            replace_len,
                            nonempty(pasted_clips),
                            (n + k) as u64,
                        );
                        &&& r is Ok
                        &&& committed(
                            old,
                            new,
                            EditOp::Paste { at, len: total(values_of(cb.clips@)) as u64 },
                            replaced.0,
                        )
                        &&& new.next_clip_id_spec() == n + k + replaced.1
                        &&& new.clipboard_spec() == old.clipboard_spec()
                        &&& total(new.timeline()) == kept_frames(
                            total(old.timeline()) as int,
                            at,
                            replace_len,
                        ) + total(values_of(cb.clips@))
                    }
                })
}

/// What `trim` makes of `old`: the composition `new`.
pub open spec fn trimmed(old: Composition, new: Composition, start: u64, len: u64) -> bool {
    &&& ({
                    let n = old.next_clip_id_spec();
                    let picked = range_clips_spec(old.timeline(), start, len, n);
                    let n1 = (n + picked.1) as u64;
                    let replaced = replace_range_spec(
                        old.timeline(),
                        0,
                        total(old.timeline()) as u64,
                        picked.0,
                        n1,
                    );
                    &&& committed(old, new, EditOp::Trim { start, len }, replaced.0)
                    &&& new.next_clip_id_spec() == n1 + replaced.1
                    &&& new.clipboard_spec() == old.clipboard_spec()
                    &&& total(new.timeline()) == total(picked.0)
                })
}

/// What `duplicate` makes of `old`: the composition `new`.
pub open spec fn duplicated(old: Composition, new: Composition, start: u64, len: u64) -> bool {
    &&& ({
                    let n = old.next_clip_id_spec();
                    let picked = range_clips_spec(old.timeline(), start, len, n);
                    let n1 = n + picked.1;
                    let copies = renamed(picked.0, n1 + 1);
                    let n2 = (n1 + picked.0.len()) as u64;
                    let replaced = replace_range_spec(old.timeline(), (start + len) as u64, 0, copies, n2);
                    &&& committed(old, new, EditOp::Duplicate { start, len }, replaced.0)
                    &&& new.next_clip_id_spec() == n2 + replaced.1
                    &&& new.clipboard_spec() == old.clipboard_spec()
                    &&& total(new.timeline()) == total(old.timeline()) + total(picked.0)
                })
}

/// What `move_range` makes of `old`: the composition `new`.
pub open spec fn moved(old: Composition, new: Composition, from: u64, len: u64, dest: u64) -> bool {
    &&& len == 0 || dest == from ==> new == old
    &&& len != 0 && dest != from ==> ({
                    let s = old.timeline();
                    let n = old.next_clip_id_spec();
                    let picked = range_clips_spec(s, from, len, n);
                    let n1 = (n + picked.1) as u64;
                    let extracted = replace_range_spec(s, from, len, seq![], n1);
                    let n2 = (n1 + extracted.1) as u64;
                    let at = move_target(from, len, dest, total(extracted.0) as int);
                    let placed = replace_range_spec(extracted.0, at, 0, picked.0, n2);
                    &&& committed(old, new, EditOp::Move { from, len, dest }, placed.0)
                    &&& new.next_clip_id_spec() == n2 + placed.1
                    &&& new.clipboard_spec() == old.clipboard_spec()
                    &&& total(new.timeline()) == total(s)
                })
}

/// What `roll` makes of `old`: the composition `new`.
pub open spec fn rolled(old: Composition, new: Composition, at: u64, delta: i64) -> bool {
    &&& ({
                    let s = old.timeline();
                    let i = crate::tree::locate(s, at as int).0;
                    let applies = at < total(s) && s[i].source is Some && old.media().contains_key(
                        s[i].source->Some_0.media_id.0,
                    );
                    &&& !applies ==> new == old
                    &&& applies ==> {
                        let src = s[i].source->Some_0;
                        let rolled = ClipValue {
                            source: Some(
                                crate::clip::ClipSource {
                                    media_id: src.media_id,
                                    offset: crate::clip::rolled_offset(
                                        src.offset,
                                        s[i].len,
                                        delta,
                                        old.media()[src.media_id.0].frame_count,
                                    ),
                                },
                            ),
                            ..s[i]
                        };
                        &&& committed(old, new, EditOp::Roll { at, delta }, s.update(i, rolled))
                        &&& new.next_clip_id_spec() == old.next_clip_id_spec()
                        &&& new.clipboard_spec() == old.clipboard_spec()
                    }
                })
}

impl Composition {
    fn alloc_clip_id(&mut self) -> (id: ClipId)
        requires
            old(self).next_clip_id < u64::MAX,
        ensures
            id == ClipId(old(self).next_clip_id),
            final(self).next_clip_id == old(self).next_clip_id + 1,
            final(self).tree == old(self).tree,
            final(self).edl == old(self).edl,
            final(self).markers == old(self).markers,
            final(self).pool == old(self).pool,
            final(self).initial == old(self).initial,
            final(self).sample_rate == old(self).sample_rate,
            final(self).channel_count == old(self).channel_count,
            final(self).clipboard == old(self).clipboard,
    {
        let id = ClipId(self.next_clip_id);
        self.next_clip_id = self.next_clip_id + 1;
        id
    }

    /// Copies of `clips` with fresh ids, in order.
    fn remap_clips(&mut self, clips: &Vec<Clip>) -> (r: Vec<Clip>)
        requires
            old(self).next_clip_id + clips@.len() <= u64::MAX,
        ensures
            values_of(r@) == renamed(values_of(clips@), old(self).next_clip_id as int),
            forall|i: int| 0 <= i < clips@.len() ==> (clips@[i].value().fits() ==> (#[trigger] r@[i]).value().fits()),
            r@.len() == clips@.len(),
            final(self).next_clip_id == old(self).next_clip_id + clips@.len(),
            final(self).tree == old(self).tree,
            final(self).edl == old(self).edl,
            final(self).markers == old(self).markers,
            final(self).pool == old(self).pool,
            final(self).initial == old(self).initial,
            final(self).sample_rate == old(self).sample_rate,
            final(self).channel_count == old(self).channel_count,
            final(self).clipboard == old(self).clipboard,
    {
        let ghost n = self.next_clip_id as int;
        let ghost vs = values_of(clips@);
        let mut out: Vec<Clip> = Vec::new();
        let mut i: usize = 0;
        while i < clips.len()
            invariant
                i <= clips@.len(),
                self.next_clip_id == n + i,
                n + clips@.len() <= u64::MAX,
                vs == values_of(clips@),
                out@.len() == i,
                values_of(out@) == renamed(vs, n).take(i as int),
                forall|k: int| 0 <= k < i ==> (clips@[k].value().fits() ==> (#[trigger] out@[k]).value().fits()),
                self.tree == old(self).tree,
                self.edl == old(self).edl,
                self.markers == old(self).markers,
                self.pool == old(self).pool,
                self.initial == old(self).initial,
                self.sample_rate == old(self).sample_rate,
                self.channel_count == old(self).channel_count,
                self.clipboard == old(self).clipboard,
            decreases clips@.len() - i,
        {
            let mut c = crate::clip::copy_clip(&clips[i]);
            c.id = self.alloc_clip_id();
            let ghost before = out@;
            out.push(c);
            proof {
                assert(values_of(out@) =~= values_of(before).push(c.value()));
                assert(renamed(vs, n).take(i + 1) =~= renamed(vs, n).take(i as int).push(renamed(vs, n)[i as int]));
                assert(out@[i as int] == c);
            }
            i += 1;
        }
        proof {
            assert(renamed(vs, n).take(clips@.len() as int) =~= renamed(vs, n));
        }
        out
    }

    /// Fills the clipboard with the clips of `len` frames at `start`.
    fn fill_clipboard(&mut self, start: u64, len: u64)
        requires
            old(self).wf(),
            old(self).next_clip_id + 2 <= u64::MAX,
        ensures
            final(self).wf(),
            values_of(final(self).clipboard.clips@) == range_clips_spec(
                old(self).tree@,
                start,
                len,
                old(self).next_clip_id,
            ).0,
            final(self).clipboard.sample_rate == old(self).sample_rate,
            final(self).clipboard.channel_count == old(self).channel_count,
            final(self).next_clip_id == old(self).next_clip_id + range_clips_spec(
                old(self).tree@,
                start,
                len,
                old(self).next_clip_id,
            ).1,
            final(self).tree == old(self).tree,
            final(self).edl == old(self).edl,
            final(self).markers == old(self).markers,
            final(self).pool == old(self).pool,
            final(self).initial == old(self).initial,
            final(self).sample_rate == old(self).sample_rate,
            final(self).channel_count == old(self).channel_count,
    {
        let mut n = self.next_clip_id;
        let clips = self.tree.clips_in_range(start, len, &mut n);
        proof {
            self.tree.lemma_wf();
            lemma_range_clips_ok(self.tree@, start, len, self.next_clip_id);
            let vs = values_of(clips@);
            assert forall|i: int| 0 <= i < clips@.len() implies (#[trigger] clips@[i]).value().fits() by {
                assert(vs[i] == clips@[i].value());
            }
        }
        self.next_clip_id = n;
        self.clipboard = Clipboard { sample_rate: self.sample_rate, channel_count: self.channel_count, clips };
    }

    /// Copies `len` frames at `start` to the clipboard and records the copy;
    /// the timeline and markers stay as they are.
    pub fn copy(&mut self, start: u64, len: u64)
        requires
            old(self).wf(),
            old(self).next_clip_id_spec() + 2 <= u64::MAX,
            old(self).next_edit_id() < u64::MAX,
        ensures
            final(self).wf(),
            copied(*old(self), *final(self), start, len),
    {
        self.fill_clipboard(start, len);
        let snap = self.tree.copy();
        self.edl.push(EditOp::Copy { start, len }, snap);
    }

    /// Removes `len` frames at `start` (each clamped to the timeline),
    /// closing the gap.
    pub fn remove(&mut self, start: u64, len: u64)
        requires
            old(self).wf(),
            old(self).next_clip_id_spec() + 2 <= u64::MAX,
            old(self).next_edit_id() < u64::MAX,
            old(self).timeline().len() + 1 <= usize::MAX,
        ensures
            final(self).wf(),
            removed(*old(self), *final(self), start, len),
    {
        proof {
            self.tree.lemma_wf();
        }
        let mut n = self.next_clip_id;
        let empty = ClipTree::empty();
        let tree = self.tree.replace_range(start, len, empty, &mut n);
        proof {
            crate::tree::law_replace_range_frames(self.tree@, start, len, seq![], self.next_clip_id);
            assert(total(Seq::<ClipValue>::empty()) == 0);
        }
        self.next_clip_id = n;
        self.commit(EditOp::Remove { start, len }, tree);
    }

    /// Moves `len` frames at `start` to the clipboard, closing the gap.
    pub fn cut(&mut self, start: u64, len: u64)
        requires
            old(self).wf(),
            old(self).next_clip_id_spec() + 4 <= u64::MAX,
            old(self).next_edit_id() < u64::MAX,
            old(self).timeline().len() + 1 <= usize::MAX,
        ensures
            final(self).wf(),
            cut_done(*old(self), *final(self), start, len),
    {
        self.fill_clipboard(start, len);
        proof {
            self.tree.lemma_wf();
        }
        let mut n = self.next_clip_id;
        let empty = ClipTree::empty();
        let tree = self.tree.replace_range(start, len, empty, &mut n);
        proof {
            crate::tree::law_replace_range_frames(self.tree@, start, len, seq![], self.next_clip_id);
            assert(total(Seq::<ClipValue>::empty()) == 0);
        }
        self.next_clip_id = n;
        self.commit(EditOp::Cut { start, len }, tree);
    }

    /// Replaces `len` frames at `start` with as many frames of silence; a
    /// zero length changes nothing.
    pub fn delete(&mut self, start: u64, len: u64)
        requires
            old(self).wf(),
            old(self).next_clip_id_spec() + 3 <= u64::MAX,
            old(self).next_edit_id() < u64::MAX,
            old(self).timeline().len() + 2 <= usize::MAX,
            kept_frames(total(old(self).timeline()) as int, start, len) + len <= u64::MAX,
        ensures
            final(self).wf(),
            deleted(*old(self), *final(self), start, len),
    {
        if len == 0 {
            return;
        }
        let id = self.alloc_clip_id();
        let silence = Clip::silence(id, len);
        proof {
            self.tree.lemma_wf();
            assert(silence.value() == silence_value(id.0, len));
        }
        let middle = ClipTree::from_clip(silence);
        proof {
            crate::tree::lemma_total_single(silence_value(id.0, len));
        }
        let mut n = self.next_clip_id;
        let tree = self.tree.replace_range(start, len, middle, &mut n);
        proof {
            crate::tree::law_replace_range_frames(self.tree@, start, len, middle@, self.next_clip_id);
        }
        self.next_clip_id = n;
        self.commit(EditOp::Delete { start, len }, tree);
    }
}

impl Composition {
    /// Pastes the clipboard at `at`, in place of `replace_len` frames there.
    /// An empty clipboard changes nothing; one of another format is refused.
    pub fn paste_replacing(&mut self, at: u64, replace_len: u64) -> (r: Result<(), CompositionError>)
        requires
            old(self).wf(),
            old(self).next_clip_id_spec() + old(self).clipboard_spec().clips@.len() + 2 <= u64::MAX,
            old(self).next_edit_id() < u64::MAX,
            old(self).timeline().len() + old(self).clipboard_spec().clips@.len() + 1 <= usize::MAX,
            kept_frames(total(old(self).timeline()) as int, at, replace_len) + total(
                values_of(old(self).clipboard_spec().clips@),
            ) <= u64::MAX,
        ensures
            final(self).wf(),
            pasted(*old(self), *final(self), at, replace_len, r),
    {
        if self.clipboard.is_empty() {
            return Ok(());
        }
        if self.clipboard.sample_rate != self.sample_rate || self.clipboard.channel_count != self.channel_count {
            return Err(
                CompositionError::ClipboardFormat {
                    clipboard_rate: self.clipboard.sample_rate,
                    clipboard_channels: self.clipboard.channel_count,
                    rate: self.sample_rate,
                    channels: self.channel_count,
                },
            );
        }
        let ghost n = self.next_clip_id as int;
        let ghost cbv = values_of(self.clipboard.clips@);
        let pasted_len = self.clipboard.frames();
        let clipboard_clips = crate::clip::copy_clips(&self.clipboard.clips);
        proof {
            assert(values_of(clipboard_clips@) =~= cbv);
        }
        let clips = self.remap_clips(&clipboard_clips);
        proof {
            self.tree.lemma_wf();
            lemma_renamed_frames(cbv, n);
            assert forall|i: int| 0 <= i < clips@.len() implies (#[trigger] clips@[i]).value().fits() by {
                assert(clipboard_clips@[i].value() == cbv[i]);
                assert(self.clipboard.clips@[i].value().fits());
            }
            crate::tree::lemma_nonempty(values_of(clips@));
        }
        let middle = ClipTree::from_clips(clips);
        let mut next = self.next_clip_id;
        let tree = self.tree.replace_range(at, replace_len, middle, &mut next);
        proof {
            crate::tree::law_replace_range_frames(self.tree@, at, replace_len, middle@, self.next_clip_id);
        }
        self.next_clip_id = next;
        self.commit(EditOp::Paste { at, len: pasted_len }, tree);
        Ok(())
    }

    /// Pastes the clipboard at `at`.
    pub fn paste(&mut self, at: u64) -> (r: Result<(), CompositionError>)
        requires
            old(self).wf(),
            old(self).next_clip_id_spec() + old(self).clipboard_spec().clips@.len() + 2 <= u64::MAX,
            old(self).next_edit_id() < u64::MAX,
            old(self).timeline().len() + old(self).clipboard_spec().clips@.len() + 1 <= usize::MAX,
            total(old(self).timeline()) + total(values_of(old(self).clipboard_spec().clips@)) <= u64::MAX,
        ensures
            final(self).wf(),
            pasted(*old(self), *final(self), at, 0, r),
            old(self).clipboard_spec().clips@.len() != 0 && r is Ok ==> total(final(self).timeline()) == total(
                old(self).timeline(),
            ) + total(values_of(old(self).clipboard_spec().clips@)),
    {
        self.paste_replacing(at, 0)
    }

    /// Keeps only the `len` frames at `start` (each clamped to the timeline).
    pub fn trim(&mut self, start: u64, len: u64)
        requires
            old(self).wf(),
            old(self).next_clip_id_spec() + 4 <= u64::MAX,
            old(self).next_edit_id() < u64::MAX,
            2 * old(self).timeline().len() + 1 <= usize::MAX,
        ensures
            final(self).wf(),
            trimmed(*old(self), *final(self), start, len),
    {
        proof {
            self.tree.lemma_wf();
        }
        let ghost n0 = self.next_clip_id;
        let mut n = self.next_clip_id;
        let picked = self.tree.clips_in_range(start, len, &mut n);
        proof {
            lemma_range_clips_ok(self.tree@, start, len, n0);
            let vs = values_of(picked@);
            assert forall|i: int| 0 <= i < picked@.len() implies (#[trigger] picked@[i]).value().fits() by {
                assert(vs[i] == picked@[i].value());
            }
            lemma_nonempty_of_ok(vs);
        }
        let kept = ClipTree::from_clips(picked);
        let frames = self.tree.frames();
        let ghost n1 = n;
        let tree = self.tree.replace_range(0, frames, kept, &mut n);
        proof {
            crate::tree::law_replace_range_frames(self.tree@, 0, frames, kept@, n1);
        }
        self.next_clip_id = n;
        self.commit(EditOp::Trim { start, len }, tree);
    }

    /// Inserts a copy of the `len` frames at `start` right after them.
    pub fn duplicate(&mut self, start: u64, len: u64)
        requires
            old(self).wf(),
            start + len <= u64::MAX,
            old(self).next_clip_id_spec() + old(self).timeline().len() + 6 <= u64::MAX,
            old(self).next_edit_id() < u64::MAX,
            2 * old(self).timeline().len() + 2 <= usize::MAX,
            2 * total(old(self).timeline()) <= u64::MAX,
        ensures
            final(self).wf(),
            duplicated(*old(self), *final(self), start, len),
    {
        proof {
            self.tree.lemma_wf();
        }
        let ghost n0 = self.next_clip_id;
        let mut n = self.next_clip_id;
        let picked = self.tree.clips_in_range(start, len, &mut n);
        proof {
            lemma_range_clips_ok(self.tree@, start, len, n0);
        }
        let ghost n1 = n;
        let ghost pv = values_of(picked@);
        let mut copies: Vec<Clip> = Vec::new();
        let mut i: usize = 0;
        while i < picked.len()
            invariant
                i <= picked@.len(),
                pv == values_of(picked@),
                clips_ok(pv),
                n == n1 + i,
                n1 + picked@.len() + 4 <= u64::MAX,
                values_of(copies@) == renamed(pv, n1 + 1).take(i as int),
                copies@.len() == i,
                forall|k: int| 0 <= k < i ==> (#[trigger] copies@[k]).value().fits(),
            decreases picked@.len() - i,
        {
            let mut c = crate::clip::copy_clip(&picked[i]);
            n = n + 1;
            c.id = ClipId(n);
            let ghost before = copies@;
            proof {
                assert(pv[i as int] == picked@[i as int].value());
            }
            copies.push(c);
            proof {
                assert(values_of(copies@) =~= values_of(before).push(c.value()));
                assert(renamed(pv, n1 + 1).take(i + 1) =~= renamed(pv, n1 + 1).take(i as int).push(
                    renamed(pv, n1 + 1)[i as int],
                ));
                assert(copies@[i as int] == c);
            }
            i += 1;
        }
        proof {
            assert(renamed(pv, n1 + 1).take(picked@.len() as int) =~= renamed(pv, n1 + 1));
            lemma_renamed_frames(pv, n1 + 1);
            lemma_renamed_ok(pv, n1 + 1);
            lemma_nonempty_of_ok(values_of(copies@));
        }
        let middle = ClipTree::from_clips(copies);
        let ghost n2 = n;
        let tree = self.tree.replace_range(start + len, 0, middle, &mut n);
        proof {
            crate::tree::law_replace_range_frames(self.tree@, (start + len) as u64, 0, middle@, n2);
        }
        self.next_clip_id = n;
        self.commit(EditOp::Duplicate { start, len }, tree);
    }
}

impl Composition {
    /// Moves the `len` frames at `from` so they start at `dest` of the
    /// timeline as it was; nothing happens for a zero length or a move onto
    /// itself.
    pub fn move_range(&mut self, from: u64, len: u64, dest: u64)
        requires
            old(self).wf(),
            old(self).next_clip_id_spec() + 6 <= u64::MAX,
            old(self).next_edit_id() < u64::MAX,
            2 * old(self).timeline().len() + 2 <= usize::MAX,
        ensures
            final(self).wf(),
            moved(*old(self), *final(self), from, len, dest),
    {
        if len == 0 || dest == from {
            return;
        }
        proof {
            self.tree.lemma_wf();
        }
        let ghost s0 = self.tree@;
        let ghost n0 = self.next_clip_id;
        let mut n = self.next_clip_id;
        let picked = self.tree.clips_in_range(from, len, &mut n);
        proof {
            lemma_range_clips_ok(s0, from, len, n0);
            let vs = values_of(picked@);
            assert forall|i: int| 0 <= i < picked@.len() implies (#[trigger] picked@[i]).value().fits() by {
                assert(vs[i] == picked@[i].value());
            }
            lemma_nonempty_of_ok(vs);
        }
        let ghost n1 = n;
        let empty = ClipTree::empty();
        let extracted = self.tree.replace_range(from, len, empty, &mut n);
        proof {
            crate::tree::law_replace_range_frames(s0, from, len, seq![], n1);
            assert(total(Seq::<ClipValue>::empty()) == 0);
            lemma_move_frames(s0, from, len, n0);
            lemma_replace_len(s0, from, len, seq![], n1);
            extracted.lemma_wf();
        }
        let insert_at = if dest > from {
            dest.saturating_sub(len)
        } else {
            dest
        };
        let ext_frames = extracted.frames();
        let at = if insert_at < ext_frames {
            insert_at
        } else {
            ext_frames
        };
        let kept = ClipTree::from_clips(picked);
        let ghost n2 = n;
        let tree = extracted.replace_range(at, 0, kept, &mut n);
        proof {
            crate::tree::law_replace_range_frames(extracted@, at, 0, kept@, n2);
        }
        self.next_clip_id = n;
        self.commit(EditOp::Move { from, len, dest }, tree);
    }

    /// Slides the source of the clip holding `at` by `delta` frames, kept
    /// inside its media. Nothing happens past the timeline's end, on silence
    /// or when the clip's media is not in the pool.
    pub fn roll(&mut self, at: u64, delta: i64)
        requires
            old(self).wf(),
            old(self).next_edit_id() < u64::MAX,
        ensures
            final(self).wf(),
            rolled(*old(self), *final(self), at, delta),
    {
        proof {
            self.tree.lemma_wf();
        }
        let span = match self.tree.at(at) {
            Some(span) => span,
            None => return ,
        };
        let source = match span.clip.source {
            Some(source) => source,
            None => return ,
        };
        let media_frames = match self.pool.get(source.media_id) {
            Some(media) => media.frame_count,
            None => return ,
        };
        let rolled = span.clip.with_rolled_offset(delta, media_frames);
        let ghost rv = rolled.value();
        proof {
            crate::tree::law_locate_holds_frame(self.tree@, at as int);
        }
        let replace = move |_c: &Clip| -> (out: Clip)
            ensures
                out.value() == rv,
            { rolled };
        let tree = self.tree.map_clip_at(at, replace);
        proof {
            let i = crate::tree::locate(self.tree@, at as int).0;
            let (c, out) = choose|c: Clip, out: Clip|
                {
                    &&& c.value() == self.tree@[i]
                    &&& call_ensures(replace, (&c,), out)
                    &&& tree@ == self.tree@.update(i, out.value())
                };
            assert(out.value() == rv);
        }
        self.commit(EditOp::Roll { at, delta }, tree);
    }

    /// Replaces `len` frames at `start` (each clamped to the timeline) with
    /// `clips`, recorded as a removal of that range.
    pub fn replace_range(&mut self, start: u64, len: u64, clips: Vec<Clip>)
        requires
            old(self).wf(),
            forall|i: int| 0 <= i < clips@.len() ==> (#[trigger] clips@[i]).value().fits(),
            old(self).next_clip_id_spec() + 2 <= u64::MAX,
            old(self).next_edit_id() < u64::MAX,
            old(self).timeline().len() + clips@.len() + 1 <= usize::MAX,
            kept_frames(total(old(self).timeline()) as int, start, len) + total(values_of(clips@)) <= u64::MAX,
        ensures
            final(self).wf(),
            ({
                let n = old(self).next_clip_id_spec();
                let replaced = replace_range_spec(
                    old(self).timeline(),
                    start,
                    len,
                    nonempty(values_of(clips@)),
                    n,
                );
                &&& committed(*old(self), *final(self), EditOp::Remove { start, len }, replaced.0)
                &&& final(self).next_clip_id_spec() == n + replaced.1
                &&& final(self).clipboard_spec() == old(self).clipboard_spec()
            }),
            clips_ok(final(self).timeline()),
            total(final(self).timeline()) == kept_frames(total(old(self).timeline()) as int, start, len) + total(
                values_of(clips@),
            ),
    {
        proof {
            self.tree.lemma_wf();
            crate::tree::lemma_nonempty(values_of(clips@));
            crate::tree::law_replace_range_frames(
                self.tree@,
                start,
                len,
                nonempty(values_of(clips@)),
                self.next_clip_id,
            );
        }
        let middle = ClipTree::from_clips(clips);
        let mut n = self.next_clip_id;
        let tree = self.tree.replace_range(start, len, middle, &mut n);
        self.next_clip_id = n;
        self.commit(EditOp::Remove { start, len }, tree);
        proof {
            self.lemma_wf();
        }
    }
}

/// Replacing a range holds at most one clip more than the timeline and the
/// replacement together.
pub proof fn lemma_replace_len(s: Seq<ClipValue>, start: u64, len: u64, middle: Seq<ClipValue>, n: u64)
    requires
        clips_ok(s),
    ensures
        replace_range_spec(s, start, len, middle, n).0.len() <= s.len() + middle.len() + 1,
{
    let st = crate::tree::min_int(start as int, total(s) as int);
    let ln = crate::tree::min_int(len as int, total(s) - st);
    let id1 = ClipId((n + 1) as u64);
    let a = crate::tree::split_seq(s, st, id1);
    crate::tree::lemma_split_totals(s, st, id1);
    let n1 = n + if crate::tree::straddles(s, st) {
        1int
    } else {
        0int
    };
    let id2 = ClipId((n1 + 1) as u64);
    crate::tree::lemma_split_totals(a.1, ln, id2);
}

/// Taking a range out and putting its clips back elsewhere keeps the
/// frames: what is left and what was picked add up to the timeline.
pub proof fn lemma_move_frames(s: Seq<ClipValue>, from: u64, len: u64, n: u64)
    requires
        clips_ok(s),
    ensures
        kept_frames(total(s) as int, from, len) + total(range_clips_spec(s, from, len, n).0) == total(s),
{
    let st = crate::tree::min_int(from as int, total(s) as int);
    let ln = crate::tree::min_int(len as int, total(s) - st);
    let id1 = ClipId((n + 1) as u64);
    let a = crate::tree::split_seq(s, st, id1);
    crate::tree::lemma_split_totals(s, st, id1);
    let n1 = n + if crate::tree::straddles(s, st) {
        1int
    } else {
        0int
    };
    let id2 = ClipId((n1 + 1) as u64);
    crate::tree::lemma_split_totals(a.1, ln, id2);
}

/// What replaying the recorded edit `op` makes of `old`: the edit that `op`
/// names, done again with its own arguments; the initial edit changes nothing.
pub open spec fn replayed(old: Composition, new: Composition, op: EditOp) -> bool {
    match op {
        EditOp::Init => new == old,
        EditOp::Copy { start, len } => copied(old, new, start, len),
        EditOp::Cut { start, len } => cut_done(old, new, start, len),
        EditOp::Remove { start, len } => removed(old, new, start, len),
        EditOp::Delete { start, len } => deleted(old, new, start, len),
        EditOp::Paste { at, .. } => pasted(old, new, at, 0, Ok(())),
        EditOp::Trim { start, len } => trimmed(old, new, start, len),
        EditOp::Duplicate { start, len } => duplicated(old, new, start, len),
        EditOp::Move { from, len, dest } => moved(old, new, from, len, dest),
        EditOp::Roll { at, delta } => rolled(old, new, at, delta),
    }
}

/// Whether replaying `op` on `c` keeps every count within its type.
pub open spec fn replay_fits(c: Composition, op: EditOp) -> bool {
    let n = c.next_clip_id_spec() as int;
    let len = c.timeline().len() as int;
    let frames = total(c.timeline()) as int;
    let cb = c.clipboard_spec().clips@;
    match op {
        EditOp::Init => true,
        EditOp::Copy { .. } => c.next_edit_id() < u64::MAX && n + 2 <= u64::MAX,
        EditOp::Cut { .. } => c.next_edit_id() < u64::MAX && n + 4 <= u64::MAX && len + 1 <= usize::MAX,
        EditOp::Remove { .. } => c.next_edit_id() < u64::MAX && n + 2 <= u64::MAX && len + 1 <= usize::MAX,
        EditOp::Delete { start, len: dl } => c.next_edit_id() < u64::MAX && n + 3 <= u64::MAX && len + 2
            <= usize::MAX && kept_frames(frames, start, dl) + dl <= u64::MAX,
        EditOp::Paste { .. } => c.next_edit_id() < u64::MAX && n + cb.len() + 2 <= u64::MAX && len + cb.len()
            + 1 <= usize::MAX && frames + total(values_of(cb)) <= u64::MAX,
        EditOp::Trim { .. } => c.next_edit_id() < u64::MAX && n + 4 <= u64::MAX && 2 * len + 1 <= usize::MAX,
        EditOp::Duplicate { start, len: dl } => c.next_edit_id() < u64::MAX && start + dl <= u64::MAX && n + len
            + 6 <= u64::MAX && 2 * len + 2 <= usize::MAX && 2 * frames <= u64::MAX,
        EditOp::Move { .. } => c.next_edit_id() < u64::MAX && n + 6 <= u64::MAX && 2 * len + 2 <= usize::MAX,
        EditOp::Roll { .. } => c.next_edit_id() < u64::MAX,
    }
}

impl Composition {
    /// Whether replaying `op` keeps every count within its type.
    fn can_replay(&self, op: &EditOp) -> (b: bool)
        requires
            self.wf(),
        ensures
            b == replay_fits(*self, *op),
    {
        proof {
            self.lemma_wf();
        }
        let n = self.next_clip_id;
        let len = self.tree.clip_count();
        let frames = self.tree.frames();
        let edit_ok = self.edl_has_room();
        match *op {
            EditOp::Init => true,
            EditOp::Copy { .. } => edit_ok && n <= u64::MAX - 2,
            EditOp::Cut { .. } => edit_ok && n <= u64::MAX - 4 && len < usize::MAX,
            EditOp::Remove { .. } => edit_ok && n <= u64::MAX - 2 && len < usize::MAX,
            EditOp::Delete { start, len: dl } => {
                let st = if start < frames {
                    start
                } else {
                    frames
                };
                let ln = if dl < frames - st {
                    dl
                } else {
                    frames - st
                };
                let kept = frames - ln;
                edit_ok && n <= u64::MAX - 3 && len <= usize::MAX - 2 && kept <= u64::MAX - dl
            },
            EditOp::Paste { .. } => {
                let cb_len = self.clipboard.clips.len();
                let cb_frames = self.clipboard.frames();
                edit_ok && cb_len as u128 + 2 <= (u64::MAX - n) as u128 && len < usize::MAX && cb_len <= usize::MAX - 1 - len
                    && cb_frames <= u64::MAX - frames
            },
            EditOp::Trim { .. } => edit_ok && n <= u64::MAX - 4 && len <= (usize::MAX - 1) / 2,
            EditOp::Duplicate { start, len: dl } => {
                edit_ok && start <= u64::MAX - dl && len as u128 + 6 <= (u64::MAX - n) as u128 && len <= (
                usize::MAX - 2) / 2 && frames <= u64::MAX / 2
            },
            EditOp::Move { .. } => edit_ok && n <= u64::MAX - 6 && len <= (usize::MAX - 2) / 2,
            EditOp::Roll { .. } => edit_ok,
        }
    }

    fn edl_has_room(&self) -> (b: bool)
        ensures
            b == (self.next_edit_id() < u64::MAX),
    {
        self.edl.has_room()
    }

    /// Applies a recorded edit again.
    fn replay(&mut self, op: &EditOp) -> (r: Result<(), CompositionError>)
        requires
            old(self).wf(),
            replay_fits(*old(self), *op),
        ensures
            final(self).wf(),
            r is Ok,
            final(self).sample_rate_spec() == old(self).sample_rate_spec(),
            final(self).channel_count_spec() == old(self).channel_count_spec(),
            final(self).initial_spec() == old(self).initial_spec(),
            final(self).media() == old(self).media(),
            replayed(*old(self), *final(self), *op),
    {
        match *op {
            EditOp::Init => Ok(()),
            EditOp::Copy { start, len } => {
                self.copy(start, len);
                Ok(())
            },
            EditOp::Cut { start, len } => {
                self.cut(start, len);
                Ok(())
            },
            EditOp::Remove { start, len } => {
                self.remove(start, len);
                Ok(())
            },
            EditOp::Delete { start, len } => {
                self.delete(start, len);
                Ok(())
            },
            EditOp::Paste { at, .. } => self.paste(at),
            EditOp::Trim { start, len } => {
                self.trim(start, len);
                Ok(())
            },
            EditOp::Duplicate { start, len } => {
                self.duplicate(start, len);
                Ok(())
            },
            EditOp::Move { from, len, dest } => {
                self.move_range(from, len, dest);
                Ok(())
            },
            EditOp::Roll { at, delta } => {
                self.roll(at, delta);
                Ok(())
            },
        }
    }

    /// The composition as a project file: its media by id, the edits after
    /// the initial one, the edit it is at and its markers.
    pub fn to_project_file(&self) -> (f: ProjectFile)
        requires
            self.wf(),
        ensures
            f.sample_rate == self.sample_rate_spec(),
            f.channel_count == self.channel_count_spec(),
            crate::media::sorted_by_id(f.media@),
            f.media@.len() == self.media().dom().len(),
            forall|i: int| 0 <= i < f.media@.len() ==> self.media().contains_key((#[trigger] f.media@[i]).id.0)
                && self.media()[f.media@[i].id.0] == f.media@[i],
            f.initial == self.initial_spec(),
            f.edits@.len() == self.history().len() - 1,
            forall|i: int| 0 <= i < f.edits@.len() ==> f.edits@[i] == (#[trigger] self.history()[i + 1]).op,
            f.edit_cursor == self.cursor_spec(),
            f.markers@ == self.marker_list().items(),
    {
        ProjectFile {
            sample_rate: self.sample_rate,
            channel_count: self.channel_count,
            media: self.pool.into_refs(),
            initial: self.initial,
            edits: self.edl.ops_from_first_user(),
            edit_cursor: self.edl.cursor(),
            markers: self.markers.to_vec(),
        }
    }

    /// Rebuilds a composition from a project file: its media, its initial
    /// state, every edit replayed in order, the history moved to the saved
    /// edit and the saved markers.
    /// The saved markers must have distinct ids (see [`MarkerList::from_vec`]);
    /// a caller tests that with [`crate::markers::has_distinct_ids`] before it calls.
    pub fn from_project_file(file: ProjectFile) -> (r: Result<Composition, CompositionError>)
        requires
            crate::markers::ids_distinct(file.markers@),
        ensures
            load_outcome(file, r),
    {
        let ghost ms = file.media@;
        let mut pool = MediaPool::new();
        proof {
            assert(ms.take(0) =~= Seq::<MediaInfo>::empty());
        }
        let mut i: usize = 0;
        while i < file.media.len()
            invariant
                i <= file.media@.len(),
                ms == file.media@,
                pool.wf(),
                pool_after(ms.take(i as int)) matches Some(pm) && pool.entries() == pm.0
                    && pool.next_id_spec() == pm.1,
            decreases file.media@.len() - i,
        {
            let m = file.media[i];
            proof {
                assert(ms.take(i + 1).drop_last() =~= ms.take(i as int));
                assert(ms.take(i + 1).last() == m);
            }
            if !pool.can_insert(&m) {
                proof {
                    lemma_pool_after_prefix(ms, i + 1);
                }
                return Err(CompositionError::LimitExceeded);
            }
            pool.insert(m);
            i += 1;
        }
        proof {
            assert(ms.take(ms.len() as int) =~= ms);
        }
        let mut composition = match file.initial {
            InitialState::Empty => {
                let mut c = Composition::new(file.sample_rate, file.channel_count);
                c.pool = pool;
                c
            },
            InitialState::FromMedia { media_id } => {
                let media = match pool.get(MediaId(media_id)) {
                    Some(m) => *m,
                    None => return Err(CompositionError::InitialMediaMissing),
                };
                let mut composed = match Composition::from_media(media) {
                    Ok(c) => c,
                    Err(e) => return Err(e),
                };
                proof {
                    assert(pool.entries().contains_key(media_id));
                    assert(media.id.0 == media_id);
                    assert(MediaInfo { id: MediaId(media_id), ..media } == media);
                }
                composed.pool = pool;
                composed
            },
        };
        let ghost start = composition;
        let ghost mut cs: Seq<Composition> = seq![composition];
        proof {
            composition.lemma_wf();
            assert(loaded_start(file, cs[0]));
            assert(replay_chain(cs, file.edits@, 0));
        }
        let mut k: usize = 0;
        while k < file.edits.len()
            invariant
                k <= file.edits@.len(),
                composition.wf(),
                replay_chain(cs, file.edits@, k as int),
                cs[k as int] == composition,
                cs[0] == start,
                loaded_start(file, start),
            decreases file.edits@.len() - k,
        {
            let op = file.edits[k];
            if !composition.can_replay(&op) {
                proof {
                    assert(replay_chain(cs, file.edits@, k as int) && (k as int) < file.edits@.len()
                        && loaded_start(file, cs[0]) && !replay_fits(cs[k as int], file.edits@[k as int]));
                }
                return Err(CompositionError::LimitExceeded);
            }
            let ghost before = composition;
            match composition.replay(&op) {
                Ok(()) => {},
                Err(e) => return Err(e),
            }
            proof {
                let next = cs.push(composition);
                assert forall|i: int| 0 <= i <= k + 1 implies (#[trigger] next[i]).wf() by {
                    if i <= k {
                        assert(next[i] == cs[i]);
                    }
                }
                assert forall|i: int| 0 <= i < k + 1 implies replay_fits(#[trigger] next[i], file.edits@[i])
                    && replayed(next[i], next[i + 1], file.edits@[i]) by {
                    if i < k {
                        assert(next[i] == cs[i]);
                        assert(next[i + 1] == cs[i + 1]);
                    } else {
                        assert(next[i] == before);
                        assert(next[i + 1] == composition);
                    }
                }
                cs = next;
                assert(replay_chain(cs, file.edits@, k + 1));
            }
            k += 1;
        }
        let ghost last = composition;
        match composition.edl.jump_to_index(file.edit_cursor) {
            Some(tree) => {
                composition.adopt_tree(tree);
            },
            None => {},
        }
        composition.markers = MarkerList::from_vec(file.markers);
        proof {
            composition.tree.lemma_wf();
            assert(loaded_from(file, last, composition));
            assert(replay_chain(cs, file.edits@, file.edits@.len() as int) && loaded_start(file, cs[0])
                && loaded_from(file, cs[file.edits@.len() as int], composition));
        }
        Ok(composition)
    }
}

/// What loading `file` gives, `r`: the composition every saved edit was
/// replayed into, moved to the saved edit and given the saved markers; a
/// refusal only where the media find no id, the initial media is missing or
/// has no rate or channels, or a replayed edit would not fit.
pub open spec fn load_outcome(file: ProjectFile, r: Result<Composition, CompositionError>) -> bool {
    let n = file.edits@.len() as int;
    let missing = pool_after(file.media@) matches Some(pm) && file.initial matches InitialState::FromMedia {
        media_id,
    } && !pm.0.contains_key(media_id);
    let no_rate = pool_after(file.media@) matches Some(pm) && file.initial matches InitialState::FromMedia {
        media_id,
    } && pm.0.contains_key(media_id) && pm.0[media_id].sample_rate == 0;
    let no_channels = pool_after(file.media@) matches Some(pm) && file.initial matches InitialState::FromMedia {
        media_id,
    } && pm.0.contains_key(media_id) && pm.0[media_id].sample_rate != 0 && pm.0[media_id].channel_count == 0;
    &&& r is Ok || r == Err::<Composition, CompositionError>(CompositionError::LimitExceeded) || r == Err::<
        Composition,
        CompositionError,
    >(CompositionError::InitialMediaMissing) || r == Err::<Composition, CompositionError>(
        CompositionError::NoSampleRate,
    ) || r == Err::<Composition, CompositionError>(CompositionError::NoChannels)
    &&& r matches Ok(c) ==> exists|cs: Seq<Composition>|
        #[trigger] replay_chain(cs, file.edits@, n) && loaded_start(file, cs[0]) && loaded_from(file, cs[n], c)
    &&& r == Err::<Composition, CompositionError>(CompositionError::LimitExceeded) ==> pool_after(file.media@) is None
        || exists|cs: Seq<Composition>, k: int|
        #[trigger] replay_chain(cs, file.edits@, k) && k < n && loaded_start(file, cs[0]) && !replay_fits(
            cs[k],
            file.edits@[k],
        )
    &&& r == Err::<Composition, CompositionError>(CompositionError::InitialMediaMissing) <==> missing
    &&& r == Err::<Composition, CompositionError>(CompositionError::NoSampleRate) <==> no_rate
    &&& r == Err::<Composition, CompositionError>(CompositionError::NoChannels) <==> no_channels
}

/// The parts of a history entry that the library states: its id, its edit
/// and the clips of its snapshot.
pub open spec fn edit_view(e: Edit) -> (EditId, EditOp, Seq<ClipValue>) {
    (e.id, e.op, e.snapshot@)
}

/// `a` and `b` hold the same composition: the same timeline, history (ids,
/// edits and snapshot clips), edit position, ids to come, clipboard, media,
/// initial state, format and markers.
pub open spec fn same_state(a: Composition, b: Composition) -> bool {
    &&& a.timeline() == b.timeline()
    &&& a.history().len() == b.history().len()
    &&& forall|i: int| 0 <= i < a.history().len() ==> edit_view(#[trigger] a.history()[i]) == edit_view(b.history()[i])
    &&& a.cursor_spec() == b.cursor_spec()
    &&& a.next_edit_id() == b.next_edit_id()
    &&& a.next_clip_id_spec() == b.next_clip_id_spec()
    &&& values_of(a.clipboard_spec().clips@) == values_of(b.clipboard_spec().clips@)
    &&& a.clipboard_spec().sample_rate == b.clipboard_spec().sample_rate
    &&& a.clipboard_spec().channel_count == b.clipboard_spec().channel_count
    &&& a.media() == b.media()
    &&& a.initial_spec() == b.initial_spec()
    &&& a.sample_rate_spec() == b.sample_rate_spec()
    &&& a.channel_count_spec() == b.channel_count_spec()
    &&& a.marker_list().items() == b.marker_list().items()
}

/// Whether an edit fits depends only on what [`same_state`] compares.
proof fn lemma_replay_fits_same(a: Composition, b: Composition, op: EditOp)
    requires
        same_state(a, b),
    ensures
        replay_fits(a, op) == replay_fits(b, op),
{
    assert(values_of(a.clipboard_spec().clips@).len() == a.clipboard_spec().clips@.len());
    assert(values_of(b.clipboard_spec().clips@).len() == b.clipboard_spec().clips@.len());
}

/// Committing the same edit and timeline on the same composition gives the
/// same history, position, markers, media and format.
proof fn lemma_committed_same(
    a: Composition,
    b: Composition,
    a2: Composition,
    b2: Composition,
    op: EditOp,
    t: Seq<ClipValue>,
)
    requires
        a.wf(),
        a2.wf(),
        same_state(a, a2),
        committed(a, b, op, t),
        committed(a2, b2, op, t),
    ensures
        b.timeline() == b2.timeline(),
        b.history().len() == b2.history().len(),
        forall|i: int| 0 <= i < b.history().len() ==> edit_view(#[trigger] b.history()[i]) == edit_view(b2.history()[i]),
        b.cursor_spec() == b2.cursor_spec(),
        b.next_edit_id() == b2.next_edit_id(),
        b.media() == b2.media(),
        b.initial_spec() == b2.initial_spec(),
        b.sample_rate_spec() == b2.sample_rate_spec(),
        b.channel_count_spec() == b2.channel_count_spec(),
        b.marker_list().items() == b2.marker_list().items(),
{
    a.lemma_wf();
    a2.lemma_wf();
    let c = a.cursor_spec();
    assert forall|i: int| 0 <= i < b.history().len() implies edit_view(#[trigger] b.history()[i]) == edit_view(
        b2.history()[i],
    ) by {
        if i <= c {
            assert(b.history()[i] == a.history()[i]);
            assert(b2.history()[i] == a2.history()[i]);
            assert(edit_view(a.history()[i]) == edit_view(a2.history()[i]));
        }
    }
}

/// Copying the same range of the same composition gives the same composition.
proof fn lemma_copied_same(a: Composition, b: Composition, a2: Composition, b2: Composition, start: u64, len: u64)
    requires
        a.wf(),
        a2.wf(),
        same_state(a, a2),
        copied(a, b, start, len),
        copied(a2, b2, start, len),
    ensures
        same_state(b, b2),
{
    a.lemma_wf();
    a2.lemma_wf();
    let c = a.cursor_spec();
    assert forall|i: int| 0 <= i < b.history().len() implies edit_view(#[trigger] b.history()[i]) == edit_view(
        b2.history()[i],
    ) by {
        if i <= c {
            assert(b.history()[i] == a.history()[i]);
            assert(b2.history()[i] == a2.history()[i]);
            assert(edit_view(a.history()[i]) == edit_view(a2.history()[i]));
        }
    }
}

/// Replaying one edit on the same composition gives the same composition.
proof fn lemma_replayed_same(a: Composition, b: Composition, a2: Composition, b2: Composition, op: EditOp)
    requires
        a.wf(),
        a2.wf(),
        same_state(a, a2),
        replayed(a, b, op),
        replayed(a2, b2, op),
    ensures
        same_state(b, b2),
{
    match op {
        EditOp::Init => {},
        EditOp::Copy { start, len } => lemma_copied_same(a, b, a2, b2, start, len),
        EditOp::Roll { at, delta } => {
            if b != a {
                lemma_committed_same(a, b, a2, b2, op, b.timeline());
            }
        },
        EditOp::Delete { start, len } => {
            if len > 0 {
                lemma_committed_same(a, b, a2, b2, op, b.timeline());
            }
        },
        EditOp::Paste { at, .. } => {
            assert(values_of(a.clipboard_spec().clips@).len() == a.clipboard_spec().clips@.len());
            assert(values_of(a2.clipboard_spec().clips@).len() == a2.clipboard_spec().clips@.len());
            if a.clipboard_spec().clips@.len() != 0 {
                let cb = a.clipboard_spec();
                lemma_committed_same(
                    a,
                    b,
                    a2,
                    b2,
                    EditOp::Paste { at, len: total(values_of(cb.clips@)) as u64 },
                    b.timeline(),
                );
            }
        },
        EditOp::Remove { .. } => lemma_committed_same(a, b, a2, b2, op, b.timeline()),
        EditOp::Cut { .. } => lemma_committed_same(a, b, a2, b2, op, b.timeline()),
        EditOp::Trim { .. } => lemma_committed_same(a, b, a2, b2, op, b.timeline()),
        EditOp::Duplicate { .. } => lemma_committed_same(a, b, a2, b2, op, b.timeline()),
        EditOp::Move { from, len, dest } => {
            if len != 0 && dest != from {
                lemma_committed_same(a, b, a2, b2, op, b.timeline());
            }
        },
    }
}

/// Two runs of the same edits from the same composition end in the same
/// composition.
proof fn lemma_chain_same(cs: Seq<Composition>, cs2: Seq<Composition>, ops: Seq<EditOp>, k: int)
    requires
        replay_chain(cs, ops, k),
        replay_chain(cs2, ops, k),
        same_state(cs[0], cs2[0]),
    ensures
        same_state(cs[k], cs2[k]),
    decreases k,
{
    if k > 0 {
        let p = k - 1;
        assert(replay_chain(cs.take(k), ops, p)) by {
            assert forall|i: int| 0 <= i <= p implies (#[trigger] cs.take(k)[i]).wf() by {
                assert(cs.take(k)[i] == cs[i]);
            }
            assert forall|i: int| 0 <= i < p implies replay_fits(#[trigger] cs.take(k)[i], ops[i]) && replayed(
                cs.take(k)[i],
                cs.take(k)[i + 1],
                ops[i],
            ) by {
                assert(cs.take(k)[i] == cs[i]);
                assert(cs.take(k)[i + 1] == cs[i + 1]);
            }
        }
        assert(replay_chain(cs2.take(k), ops, p)) by {
            assert forall|i: int| 0 <= i <= p implies (#[trigger] cs2.take(k)[i]).wf() by {
                assert(cs2.take(k)[i] == cs2[i]);
            }
            assert forall|i: int| 0 <= i < p implies replay_fits(#[trigger] cs2.take(k)[i], ops[i]) && replayed(
                cs2.take(k)[i],
                cs2.take(k)[i + 1],
                ops[i],
            ) by {
                assert(cs2.take(k)[i] == cs2[i]);
                assert(cs2.take(k)[i + 1] == cs2[i + 1]);
            }
        }
        lemma_chain_same(cs.take(k), cs2.take(k), ops, p);
        assert(cs[p].wf() && cs2[p].wf());
        assert(replayed(cs[p], cs[k], ops[p]));
        assert(replayed(cs2[p], cs2[k], ops[p]));
        lemma_replayed_same(cs[p], cs[k], cs2[p], cs2[k], ops[p]);
    }
}

/// Two compositions a project file starts from are the same.
proof fn lemma_start_same(file: ProjectFile, a: Composition, b: Composition)
    requires
        loaded_start(file, a),
        loaded_start(file, b),
    ensures
        same_state(a, b),
{
    a.lemma_wf();
    b.lemma_wf();
    assert(values_of(a.clipboard_spec().clips@) =~= Seq::<ClipValue>::empty());
    assert(values_of(b.clipboard_spec().clips@) =~= Seq::<ClipValue>::empty());
    assert forall|i: int| 0 <= i < a.history().len() implies edit_view(#[trigger] a.history()[i]) == edit_view(
        b.history()[i],
    ) by {
        assert(i == 0);
    }
}

/// An empty timeline at the initial entry is not one the initial media
/// would rebuild.
pub open spec fn no_rebuild_at_start(c: Composition) -> bool {
    c.timeline().len() == 0 && c.cursor_spec() == 0 ==> rebuilt_timeline(c.initial_spec(), c.media()) is None
}

/// A replayed edit either changes nothing or records one more entry, and
/// keeps the media and the initial state.
proof fn lemma_replayed_step(a: Composition, b: Composition, op: EditOp)
    requires
        replayed(a, b, op),
    ensures
        b == a || b.cursor_spec() == a.cursor_spec() + 1,
        b.media() == a.media(),
        b.initial_spec() == a.initial_spec(),
{
}

/// Along a run of replayed edits from a start that the initial media would
/// not rebuild, no composition is one it would rebuild.
proof fn lemma_chain_no_rebuild(cs: Seq<Composition>, ops: Seq<EditOp>, k: int)
    requires
        replay_chain(cs, ops, k),
        no_rebuild_at_start(cs[0]),
    ensures
        no_rebuild_at_start(cs[k]),
        cs[k].cursor_spec() >= cs[0].cursor_spec(),
    decreases k,
{
    if k > 0 {
        let p = k - 1;
        assert(replay_chain(cs.take(k), ops, p)) by {
            assert forall|i: int| 0 <= i <= p implies (#[trigger] cs.take(k)[i]).wf() by {
                assert(cs.take(k)[i] == cs[i]);
            }
            assert forall|i: int| 0 <= i < p implies replay_fits(#[trigger] cs.take(k)[i], ops[i]) && replayed(
                cs.take(k)[i],
                cs.take(k)[i + 1],
                ops[i],
            ) by {
                assert(cs.take(k)[i] == cs[i]);
                assert(cs.take(k)[i + 1] == cs[i + 1]);
            }
        }
        lemma_chain_no_rebuild(cs.take(k), ops, p);
        assert(replayed(cs[p], cs[k], ops[p]));
        lemma_replayed_step(cs[p], cs[k], ops[p]);
        cs[p].lemma_wf();
    }
}

/// Loading gives back what was saved: when the edits of a project file,
/// replayed one after another on the composition the file starts from, lead
/// to `saved`, and the file records `saved`'s edit position and markers, then
/// loading the file succeeds and rebuilds `saved`: the same timeline,
/// history, edit position, ids to come, clipboard, media, initial state,
/// format and markers.
pub proof fn law_save_then_load(
    file: ProjectFile,
    cs: Seq<Composition>,
    r: Result<Composition, CompositionError>,
)
    requires
        replay_chain(cs, file.edits@, file.edits@.len() as int),
        loaded_start(file, cs[0]),
        file.edit_cursor == cs[file.edits@.len() as int].cursor_spec(),
        file.markers@ == cs[file.edits@.len() as int].marker_list().items(),
        load_outcome(file, r),
    ensures
        r matches Ok(c) && same_state(c, cs[file.edits@.len() as int]),
{
    let ops = file.edits@;
    let n = ops.len() as int;
    if r == Err::<Composition, CompositionError>(CompositionError::LimitExceeded) {
        let (cs2, k) = choose|cs2: Seq<Composition>, k: int|
            #[trigger] replay_chain(cs2, ops, k) && k < n && loaded_start(file, cs2[0]) && !replay_fits(cs2[k], ops[k]);
        let pre = cs.take(k + 1);
        assert(replay_chain(pre, ops, k)) by {
            assert forall|i: int| 0 <= i <= k implies (#[trigger] pre[i]).wf() by {
                assert(pre[i] == cs[i]);
            }
            assert forall|i: int| 0 <= i < k implies replay_fits(#[trigger] pre[i], ops[i]) && replayed(
                pre[i],
                pre[i + 1],
                ops[i],
            ) by {
                assert(pre[i] == cs[i]);
                assert(pre[i + 1] == cs[i + 1]);
            }
        }
        lemma_start_same(file, pre[0], cs2[0]);
        lemma_chain_same(pre, cs2, ops, k);
        lemma_replay_fits_same(pre[k], cs2[k], ops[k]);
        assert(replay_fits(cs[k], ops[k]));
        assert(false);
    }
    let c = r->Ok_0;
    let cs2 = choose|cs2: Seq<Composition>|
        #[trigger] replay_chain(cs2, ops, n) && loaded_start(file, cs2[0]) && loaded_from(file, cs2[n], c);
    lemma_start_same(file, cs[0], cs2[0]);
    lemma_chain_same(cs, cs2, ops, n);
    let last = cs2[n];
    last.lemma_wf();
    cs[n].lemma_wf();
    c.lemma_wf();
    lemma_chain_no_rebuild(cs2, ops, n);
    let at = file.edit_cursor as int;
    let h = last.history();
    assert(h[at].snapshot@ == last.timeline());
    assert(c.timeline() == last.timeline());
    assert forall|i: int| 0 <= i < c.history().len() implies edit_view(#[trigger] c.history()[i]) == edit_view(
        cs[n].history()[i],
    ) by {
        assert(edit_view(h[i]) == edit_view(cs[n].history()[i]));
        if i == 0 && at == 0 {
            assert(c.history()[0].snapshot@ == c.timeline());
        } else {
            assert(c.history()[i] == h[i]);
        }
    }
    crate::markers::lemma_from_sorted_prefix(file.markers@, file.markers@.len());
    assert(file.markers@.take(file.markers@.len() as int) =~= file.markers@);
}

// ---------------------------------------------------------------------------
// What the edits do to what plays
// ---------------------------------------------------------------------------

/// Trim keeps its window: each frame of `[start, start + len)` that the
/// timeline holds plays, after the trim, `start` frames earlier, where the
/// edit mapping puts it.
pub proof fn law_trim_plays_its_window(old: Composition, new: Composition, start: u64, len: u64, p: u64)
    requires
        old.wf(),
        trimmed(old, new, start, len),
        start <= p < start + len,
        p < total(old.timeline()),
        start + len < u64::MAX,
    ensures
        map_point_if_kept_spec(p, EditOp::Trim { start, len }) == Some((p - start) as u64),
        p - start < total(new.timeline()),
        frame_source(new.timeline(), p - start) == frame_source(old.timeline(), p as int),
{
    old.lemma_wf();
    let s = old.timeline();
    let n = old.next_clip_id_spec();
    let picked = range_clips_spec(s, start, len, n);
    let n1 = (n + picked.1) as u64;
    crate::tree::lemma_frame_source_range(s, start, len, n, p - start);
    crate::tree::lemma_frame_source_replace(s, 0, total(s) as u64, picked.0, n1, p - start);
    crate::edit_ranges::law_trim_keeps_window(p, start, len);
}

/// Duplicate keeps every frame, those after the block `len` frames later, as
/// the edit mapping says; and the `len` frames after the block play the
/// block again.
pub proof fn law_duplicate_plays_block_twice(old: Composition, new: Composition, start: u64, len: u64, p: u64)
    requires
        old.wf(),
        duplicated(old, new, start, len),
        start + len <= total(old.timeline()),
        p < total(old.timeline()),
        start + 2 * len < u64::MAX,
        p + len + 1 < u64::MAX,
    ensures
        map_point_if_kept_spec(p, EditOp::Duplicate { start, len }) matches Some(q) && q < total(new.timeline())
            && frame_source(new.timeline(), q as int) == frame_source(old.timeline(), p as int),
        p < len ==> frame_source(new.timeline(), start + len + p) == frame_source(old.timeline(), start + p),
{
    old.lemma_wf();
    let s = old.timeline();
    let n = old.next_clip_id_spec();
    let picked = range_clips_spec(s, start, len, n);
    let n1 = n + picked.1;
    let copies = renamed(picked.0, n1 + 1);
    let n2 = (n1 + picked.0.len()) as u64;
    crate::tree::lemma_frame_source_range(s, start, len, n, p as int);
    assert forall|i: int| 0 <= i < picked.0.len() implies (#[trigger] picked.0[i]).len == copies[i].len
        && picked.0[i].source == copies[i].source by {}
    if len > 0 {
        crate::tree::lemma_frame_source_same_shape(picked.0, copies, 0);
    }
    let q: u64 = if p < start + len {
        p
    } else {
        (p + len) as u64
    };
    if len > 0 {
        crate::tree::lemma_frame_source_replace(s, (start + len) as u64, 0, copies, n2, q as int);
    } else {
        assert(copies =~= Seq::<ClipValue>::empty());
        assert(clips_ok(copies));
        crate::tree::lemma_frame_source_replace(s, (start + len) as u64, 0, copies, n2, q as int);
    }
    if p < len {
        crate::tree::lemma_frame_source_same_shape(picked.0, copies, p as int);
        crate::tree::lemma_frame_source_replace(s, (start + len) as u64, 0, copies, n2, start + len + p);
    }
}

/// The timeline a move makes of `s`: the block cut out, then put back at
/// `move_target` on what is left (new clips named from `n + 1` on).
pub open spec fn moved_timeline(s: Seq<ClipValue>, n: u64, from: u64, len: u64, dest: u64) -> Seq<ClipValue> {
    let picked = range_clips_spec(s, from, len, n);
    let n1 = (n + picked.1) as u64;
    let extracted = replace_range_spec(s, from, len, seq![], n1);
    let n2 = (n1 + extracted.1) as u64;
    let at = move_target(from, len, dest, total(extracted.0) as int);
    replace_range_spec(extracted.0, at, 0, picked.0, n2).0
}

/// The frames of the moved block play from where it is put back.
proof fn lemma_moved_block(s: Seq<ClipValue>, n: u64, from: u64, len: u64, dest: u64, k: int)
    requires
        clips_ok(s),
        from + len <= total(s),
        dest <= total(s),
        0 <= k < len,
    ensures
        move_insert_at(from, len, dest) + k < total(moved_timeline(s, n, from, len, dest)),
        frame_source(moved_timeline(s, n, from, len, dest), move_insert_at(from, len, dest) + k) == frame_source(
            s,
            from + k,
        ),
{
    let picked = range_clips_spec(s, from, len, n);
    let n1 = (n + picked.1) as u64;
    let extracted = replace_range_spec(s, from, len, seq![], n1);
    let n2 = (n1 + extracted.1) as u64;
    let ia = move_insert_at(from, len, dest);
    assert(clips_ok(Seq::<ClipValue>::empty()));
    assert(total(Seq::<ClipValue>::empty()) == 0);
    crate::tree::lemma_frame_source_range(s, from, len, n, k);
    crate::tree::lemma_frame_source_replace(s, from, len, seq![], n1, 0);
    assert(move_target(from, len, dest, total(extracted.0) as int) == ia);
    crate::tree::lemma_frame_source_replace(extracted.0, ia, 0, picked.0, n2, ia + k);
}

/// The frames around the moved block close its gap, then make room for it.
proof fn lemma_moved_around(s: Seq<ClipValue>, n: u64, from: u64, len: u64, dest: u64, p: int)
    requires
        clips_ok(s),
        from + len <= total(s),
        dest <= total(s),
        0 <= p < total(s),
        !(from <= p < from + len),
    ensures
        ({
            let ia = move_insert_at(from, len, dest);
            let closed = if p >= from + len {
                p - len
            } else {
                p
            };
            let q = if closed < ia {
                closed
            } else {
                closed + len
            };
            &&& q < total(moved_timeline(s, n, from, len, dest))
            &&& frame_source(moved_timeline(s, n, from, len, dest), q) == frame_source(s, p)
        }),
{
    let picked = range_clips_spec(s, from, len, n);
    let n1 = (n + picked.1) as u64;
    let extracted = replace_range_spec(s, from, len, seq![], n1);
    let n2 = (n1 + extracted.1) as u64;
    let ia = move_insert_at(from, len, dest);
    assert(clips_ok(Seq::<ClipValue>::empty()));
    assert(total(Seq::<ClipValue>::empty()) == 0);
    crate::tree::lemma_frame_source_range(s, from, len, n, 0);
    let closed = if p >= from + len {
        p - len
    } else {
        p
    };
    let q = if closed < ia {
        closed
    } else {
        closed + len
    };
    crate::tree::lemma_frame_source_replace(s, from, len, seq![], n1, closed);
    assert(move_target(from, len, dest, total(extracted.0) as int) == ia);
    crate::tree::lemma_frame_source_replace(extracted.0, ia, 0, picked.0, n2, q);
}

/// A move keeps every frame and plays it where the edit mapping puts it: the
/// block at the frame it is put back at (`dest - len` for a move to the
/// right, `dest` for one to the left), the frames around it closing its gap
/// and making room for it.
pub proof fn law_move_plays_each_frame_where_mapped(
    old: Composition,
    new: Composition,
    from: u64,
    len: u64,
    dest: u64,
    p: u64,
)
    requires
        old.wf(),
        moved(old, new, from, len, dest),
        len > 0,
        dest != from,
        from + len <= total(old.timeline()),
        dest <= total(old.timeline()),
        p < total(old.timeline()),
        p + len + 1 < u64::MAX,
        from + len < u64::MAX,
        dest + len < u64::MAX,
    ensures
        map_point_if_kept_spec(p, EditOp::Move { from, len, dest }) matches Some(q) && q < total(new.timeline())
            && frame_source(new.timeline(), q as int) == frame_source(old.timeline(), p as int),
{
    old.lemma_wf();
    let s = old.timeline();
    assert(new.timeline() == moved_timeline(s, old.next_clip_id_spec(), from, len, dest));
    crate::edit_ranges::law_move_maps_each_frame(p, from, len, dest);
    if from <= p < from + len {
        lemma_moved_block(s, old.next_clip_id_spec(), from, len, dest, p - from);
    } else {
        lemma_moved_around(s, old.next_clip_id_spec(), from, len, dest, p as int);
    }
}

/// Remove closes the gap it leaves: every frame outside the range plays
/// where the edit mapping puts it, those after the range `len` frames
/// earlier.
pub proof fn law_remove_closes_gap(old: Composition, new: Composition, start: u64, len: u64, p: u64)
    requires
        old.wf(),
        removed(old, new, start, len),
        start + len <= total(old.timeline()),
        p < total(old.timeline()),
        !(start <= p < start + len),
        p + len + 1 < u64::MAX,
        start + len < u64::MAX,
    ensures
        map_point_if_kept_spec(p, EditOp::Remove { start, len }) matches Some(q) && q < total(new.timeline())
            && frame_source(new.timeline(), q as int) == frame_source(old.timeline(), p as int),
{
    old.lemma_wf();
    let s = old.timeline();
    let n = old.next_clip_id_spec();
    assert(clips_ok(Seq::<ClipValue>::empty()));
    assert(total(Seq::<ClipValue>::empty()) == 0);
    crate::edit_ranges::law_remove_closes_gap(p, EditOp::Remove { start, len });
    let q: int = if p < start {
        p as int
    } else {
        p - len
    };
    crate::tree::lemma_frame_source_replace(s, start, len, seq![], n, q);
}

/// Cut closes the gap it leaves as remove does, and the clipboard then plays
/// the frames that were cut.
pub proof fn law_cut_moves_range_to_clipboard_frames(
    old: Composition,
    new: Composition,
    start: u64,
    len: u64,
    p: u64,
)
    requires
        old.wf(),
        cut_done(old, new, start, len),
        start + len <= total(old.timeline()),
        p < total(old.timeline()),
        p + len + 1 < u64::MAX,
        start + len < u64::MAX,
    ensures
        !(start <= p < start + len) ==> (map_point_if_kept_spec(p, EditOp::Cut { start, len }) matches Some(q)
            && q < total(new.timeline()) && frame_source(new.timeline(), q as int) == frame_source(
            old.timeline(),
            p as int,
        )),
        start <= p < start + len ==> frame_source(values_of(new.clipboard_spec().clips@), p - start)
            == frame_source(old.timeline(), p as int),
{
    old.lemma_wf();
    let s = old.timeline();
    let n = old.next_clip_id_spec();
    let picked = range_clips_spec(s, start, len, n);
    let n1 = (n + picked.1) as u64;
    assert(clips_ok(Seq::<ClipValue>::empty()));
    assert(total(Seq::<ClipValue>::empty()) == 0);
    crate::edit_ranges::law_remove_closes_gap(p, EditOp::Cut { start, len });
    if start <= p < start + len {
        crate::tree::lemma_frame_source_range(s, start, len, n, p - start);
    } else {
        let q: int = if p < start {
            p as int
        } else {
            p - len
        };
        crate::tree::lemma_frame_source_replace(s, start, len, seq![], n1, q);
    }
}

/// Paste makes room for the clipboard: every frame plays where the edit
/// mapping puts it, those from `at` on later by the clipboard's length.
pub proof fn law_paste_makes_room(
    old: Composition,
    new: Composition,
    at: u64,
    r: Result<(), CompositionError>,
    p: u64,
)
    requires
        old.wf(),
        pasted(old, new, at, 0, r),
        r is Ok,
        old.clipboard_spec().clips@.len() > 0,
        at <= total(old.timeline()),
        p < total(old.timeline()),
        op_fits_paste(old, at, p),
    ensures
        map_point_if_kept_spec(p, EditOp::Paste { at, len: total(values_of(old.clipboard_spec().clips@)) as u64 })
            matches Some(q) && q < total(new.timeline()) && frame_source(new.timeline(), q as int) == frame_source(
            old.timeline(),
            p as int,
        ),
{
    old.lemma_wf();
    let s = old.timeline();
    let cb = old.clipboard_spec();
    let vs = values_of(cb.clips@);
    let n = old.next_clip_id_spec();
    let k = cb.clips@.len();
    let named = renamed(vs, n as int);
    assert(old.clipboard_spec().sample_rate == old.sample_rate_spec());
    assert forall|i: int| 0 <= i < named.len() implies (#[trigger] named[i]).fits() by {
        assert(vs[i] == cb.clips@[i].value());
    }
    crate::tree::lemma_nonempty(named);
    assert forall|i: int| 0 <= i < vs.len() implies (#[trigger] vs[i]).len == named[i].len by {}
    crate::tree::lemma_same_lens_total(vs, named);
    let len = total(vs) as u64;
    let q: int = if p < at {
        p as int
    } else {
        p + len
    };
    crate::tree::lemma_frame_source_replace(s, at, 0, nonempty(named), (n + k) as u64, q);
}

/// The frame and lengths of a paste fit in `u64`.
pub open spec fn op_fits_paste(old: Composition, at: u64, p: u64) -> bool {
    crate::edit_ranges::op_fits(EditOp::Paste { at, len: total(values_of(old.clipboard_spec().clips@)) as u64 }, p)
}

/// Copy leaves the timeline as it is and fills the clipboard with what the
/// range plays.
pub proof fn law_copy_fills_clipboard_with_range(old: Composition, new: Composition, start: u64, len: u64, k: int)
    requires
        old.wf(),
        copied(old, new, start, len),
        start + len <= total(old.timeline()),
        0 <= k < len,
    ensures
        new.timeline() == old.timeline(),
        total(values_of(new.clipboard_spec().clips@)) == len,
        frame_source(values_of(new.clipboard_spec().clips@), k) == frame_source(old.timeline(), start + k),
{
    old.lemma_wf();
    crate::tree::lemma_frame_source_range(old.timeline(), start, len, old.next_clip_id_spec(), k);
}

/// Delete puts silence in place of its range and moves nothing: every frame
/// stays where it was, as the edit mapping says, those outside the range
/// playing what they played and those inside it playing silence.
pub proof fn law_delete_silences_in_place(old: Composition, new: Composition, start: u64, len: u64, p: u64)
    requires
        old.wf(),
        deleted(old, new, start, len),
        len > 0,
        start + len <= total(old.timeline()),
        p < total(old.timeline()),
    ensures
        map_point_if_kept_spec(p, EditOp::Delete { start, len }) == Some(p),
        p < total(new.timeline()),
        !(start <= p < start + len) ==> frame_source(new.timeline(), p as int) == frame_source(
            old.timeline(),
            p as int,
        ),
        start <= p < start + len ==> frame_source(new.timeline(), p as int) is None,
{
    old.lemma_wf();
    let s = old.timeline();
    let n = old.next_clip_id_spec();
    let silence = silence_value(n, len);
    assert(clips_ok(seq![silence])) by {
        assert forall|i: int| 0 <= i < seq![silence].len() implies (#[trigger] seq![silence][i]).len > 0
            && seq![silence][i].fits() by {
            assert(seq![silence][i] == silence);
        }
    }
    crate::tree::lemma_total_single(silence);
    crate::tree::lemma_frame_source_replace(s, start, len, seq![silence], (n + 1) as u64, p as int);
    if start <= p < start + len {
        crate::tree::lemma_frame_source_single(silence, p - start);
    }
}

/// The media of a project file filed one by one into a pool: the entries by
/// id and the highest id handed out, or none when an entry without an id
/// finds no id left.
pub open spec fn pool_after(ms: Seq<MediaInfo>) -> Option<(Map<u64, MediaInfo>, u64)>
    decreases ms.len(),
{
    if ms.len() == 0 {
        Some((Map::<u64, MediaInfo>::empty(), 0u64))
    } else {
        match pool_after(ms.drop_last()) {
            None => None,
            Some(pm) => {
                let m = ms.last();
                if m.id.0 == 0 {
                    if pm.1 < u64::MAX {
                        let id = (pm.1 + 1) as u64;
                        Some((pm.0.insert(id, MediaInfo { id: MediaId(id), ..m }), id))
                    } else {
                        None
                    }
                } else {
                    Some((pm.0.insert(m.id.0, m), if pm.1 < m.id.0 { m.id.0 } else { pm.1 }))
                }
            },
        }
    }
}

/// Once a prefix of the media finds no id left, the whole of them does not.
proof fn lemma_pool_after_prefix(ms: Seq<MediaInfo>, i: int)
    requires
        0 <= i <= ms.len(),
        pool_after(ms.take(i)) is None,
    ensures
        pool_after(ms) is None,
    decreases ms.len() - i,
{
    if i == ms.len() {
        assert(ms.take(i) =~= ms);
    } else {
        assert(ms.take(i + 1).drop_last() =~= ms.take(i));
        lemma_pool_after_prefix(ms, i + 1);
    }
}

/// The composition a project file starts from before its edits are
/// replayed: its media in the pool, one history entry, the initial timeline
/// (empty, or the initial media's clip) and no markers or clipboard.
pub open spec fn loaded_start(file: ProjectFile, c: Composition) -> bool {
    match pool_after(file.media@) {
        None => false,
        Some(pm) => {
            &&& c.wf()
            &&& c.initial_spec() == file.initial
            &&& c.media() == pm.0
            &&& c.history().len() == 1
            &&& c.cursor_spec() == 0
            &&& c.next_edit_id() == 1
            &&& c.marker_list().items() == Seq::<Marker>::empty()
            &&& c.clipboard_spec().clips@ == Seq::<Clip>::empty()
            &&& match file.initial {
                InitialState::Empty => {
                    &&& c.timeline() == Seq::<ClipValue>::empty()
                    &&& c.sample_rate_spec() == file.sample_rate
                    &&& c.channel_count_spec() == file.channel_count
                    &&& c.next_clip_id_spec() == 1
                },
                InitialState::FromMedia { media_id } => {
                    &&& pm.0.contains_key(media_id)
                    &&& pm.0[media_id].sample_rate != 0
                    &&& pm.0[media_id].channel_count != 0
                    &&& c.sample_rate_spec() == pm.0[media_id].sample_rate
                    &&& c.channel_count_spec() == pm.0[media_id].channel_count
                    &&& c.next_clip_id_spec() == 2
                    &&& c.timeline() == if pm.0[media_id].frame_count == 0 {
                        Seq::<ClipValue>::empty()
                    } else {
                        rebuilt_timeline(file.initial, pm.0)->Some_0
                    }
                },
            }
        },
    }
}

/// `cs` is a run of compositions in which each of the first `k` edits of
/// `ops` fitted and was replayed on the one before.
pub open spec fn replay_chain(cs: Seq<Composition>, ops: Seq<EditOp>, k: int) -> bool {
    &&& 0 <= k <= ops.len()
    &&& cs.len() == k + 1
    &&& forall|i: int| 0 <= i <= k ==> (#[trigger] cs[i]).wf()
    &&& forall|i: int|
        0 <= i < k ==> replay_fits(#[trigger] cs[i], ops[i]) && replayed(cs[i], cs[i + 1], ops[i])
}

/// `c` is `last`, the composition every saved edit was replayed into, moved
/// to the saved edit and given the saved markers.
pub open spec fn loaded_from(file: ProjectFile, last: Composition, c: Composition) -> bool {
    let h = last.history();
    let at = file.edit_cursor as int;
    &&& c.wf()
    &&& c.initial_spec() == last.initial_spec()
    &&& c.media() == last.media()
    &&& c.sample_rate_spec() == last.sample_rate_spec()
    &&& c.channel_count_spec() == last.channel_count_spec()
    &&& c.next_edit_id() == last.next_edit_id()
    &&& c.next_clip_id_spec() == last.next_clip_id_spec()
    &&& c.clipboard_spec() == last.clipboard_spec()
    &&& same_history_but_initial(h, c.history())
    &&& at < h.len() ==> c.cursor_spec() == at && c.timeline() == adopted_timeline(
        h[at].snapshot@,
        at,
        last.initial_spec(),
        last.media(),
    )
    &&& at >= h.len() ==> c.cursor_spec() == last.cursor_spec() && c.timeline() == last.timeline()
        && c.history() == h
    &&& at < h.len() && (h[at].snapshot@.len() != 0 || at != 0) ==> c.history() == h
    &&& c.marker_list().items() == crate::markers::from_seq_prefix(file.markers@, file.markers@.len())
}

/// Renaming clips keeps their frames.
pub proof fn lemma_renamed_frames(vs: Seq<ClipValue>, n: int)
    ensures
        total(renamed(vs, n)) == total(vs),
        renamed(vs, n).len() == vs.len(),
    decreases vs.len(),
{
    if vs.len() > 0 {
        lemma_renamed_frames(vs.drop_last(), n);
        assert(renamed(vs, n).drop_last() =~= renamed(vs.drop_last(), n));
    }
}

proof fn lemma_renamed_ok(vs: Seq<ClipValue>, n: int)
    requires
        clips_ok(vs),
    ensures
        clips_ok(renamed(vs, n)),
{
    assert forall|i: int| 0 <= i < renamed(vs, n).len() implies (#[trigger] renamed(vs, n)[i]).len > 0
        && renamed(vs, n)[i].fits() by {
        assert(renamed(vs, n)[i].len == vs[i].len);
    }
}

/// Keeping the clips with frames keeps all of clips that all have frames.
pub proof fn lemma_nonempty_of_ok(vs: Seq<ClipValue>)
    requires
        forall|i: int| 0 <= i < vs.len() ==> (#[trigger] vs[i]).len > 0,
    ensures
        nonempty(vs) == vs,
    decreases vs.len(),
{
    if vs.len() > 0 {
        let t = vs.drop_last();
        assert forall|i: int| 0 <= i < t.len() implies (#[trigger] t[i]).len > 0 by {
            assert(t[i] == vs[i]);
        }
        lemma_nonempty_of_ok(t);
        assert(t.push(vs.last()) =~= vs);
    }
}

/// The clips picked out of a range are cut from the timeline's clips: each
/// has frames and an addressable source, and they hold at most the
/// timeline's frames and one clip more than it.
pub proof fn lemma_range_clips_ok(s: Seq<ClipValue>, start: u64, len: u64, n: u64)
    requires
        clips_ok(s),
    ensures
        clips_ok(range_clips_spec(s, start, len, n).0),
        total(range_clips_spec(s, start, len, n).0) <= total(s),
        total(range_clips_spec(s, start, len, n).0) == total(s) - kept_frames(total(s) as int, start, len),
        range_clips_spec(s, start, len, n).0.len() <= s.len(),
        0 <= range_clips_spec(s, start, len, n).1 <= 2,
{
    let st = crate::tree::min_int(start as int, total(s) as int);
    let ln = crate::tree::min_int(len as int, total(s) - st);
    let id1 = ClipId((n + 1) as u64);
    let a = crate::tree::split_seq(s, st, id1);
    crate::tree::lemma_split_totals(s, st, id1);
    let n1 = n + if crate::tree::straddles(s, st) {
        1int
    } else {
        0int
    };
    let id2 = ClipId((n1 + 1) as u64);
    crate::tree::lemma_split_totals(a.1, ln, id2);
}


/// Deleting a range that lies within the timeline keeps its length: the
/// range turns into as much silence.
pub proof fn law_delete_keeps_length(old: Composition, new: Composition, start: u64, len: u64)
    requires
        deleted(old, new, start, len),
        start + len <= total(old.timeline()),
    ensures
        total(new.timeline()) == total(old.timeline()),
{
}

/// Removing a range that lies within the timeline shortens it by the
/// range's length.
pub proof fn law_remove_shrinks_timeline(old: Composition, new: Composition, start: u64, len: u64)
    requires
        removed(old, new, start, len),
        start + len <= total(old.timeline()),
    ensures
        total(new.timeline()) == total(old.timeline()) - len,
{
}

/// Cutting a range that lies within the timeline shortens it by the
/// range's length, and the clipboard then holds that many frames.
pub proof fn law_cut_moves_range_to_clipboard(old: Composition, new: Composition, start: u64, len: u64)
    requires
        old.wf(),
        cut_done(old, new, start, len),
        start + len <= total(old.timeline()),
    ensures
        total(new.timeline()) == total(old.timeline()) - len,
        total(values_of(new.clipboard_spec().clips@)) == len,
{
    old.lemma_wf();
    lemma_range_clips_ok(old.timeline(), start, len, old.next_clip_id_spec());
}

/// Trimming to a range that lies within the timeline leaves exactly the
/// range's length.
pub proof fn law_trim_keeps_range_length(old: Composition, new: Composition, start: u64, len: u64)
    requires
        old.wf(),
        trimmed(old, new, start, len),
        start + len <= total(old.timeline()),
    ensures
        total(new.timeline()) == len,
{
    old.lemma_wf();
    lemma_range_clips_ok(old.timeline(), start, len, old.next_clip_id_spec());
}

/// Duplicating a range that lies within the timeline lengthens it by the
/// range's length.
pub proof fn law_duplicate_grows_timeline(old: Composition, new: Composition, start: u64, len: u64)
    requires
        old.wf(),
        duplicated(old, new, start, len),
        start + len <= total(old.timeline()),
    ensures
        total(new.timeline()) == total(old.timeline()) + len,
{
    old.lemma_wf();
    lemma_range_clips_ok(old.timeline(), start, len, old.next_clip_id_spec());
}

} // verus!
