use vstd::prelude::*;

use crate::clip::ClipValue;
use crate::edit_op::{EditId, EditOp};
use crate::markers::Marker;
use crate::media::MediaInfo;
use crate::text::str_equals;
use crate::tree::ClipTree;

verus! {

/// One entry of the edit history: the operation and the timeline after it.
#[derive(Debug, Clone)]
pub struct Edit {
    pub id: EditId,
    pub op: EditOp,
    pub snapshot: ClipTree,
}

/// The edit history: every edit with its snapshot, and the one the timeline
/// is at. The first entry is the initial timeline.
#[derive(Debug, Clone)]
pub struct Edl {
    edits: Vec<Edit>,
    cursor: usize,
    next_id: u64,
}

/// The history after pushing `e` with the cursor at `cursor`: the entries
/// after the cursor are dropped and `e` follows.
pub open spec fn push_history(h: Seq<Edit>, cursor: int, e: Edit) -> Seq<Edit> {
    h.take(cursor + 1).push(e)
}

/// The index of the first entry of `h` with id `id`, or `h.len()` if none has it.
pub open spec fn index_of_id(h: Seq<Edit>, id: EditId) -> int
    decreases h.len(),
{
    if h.len() == 0 {
        0
    } else if h[0].id == id {
        0
    } else {
        index_of_id(h.drop_first(), id) + 1
    }
}

impl Edl {
    /// The entries, oldest first.
    pub closed spec fn history(&self) -> Seq<Edit> {
        self.edits@
    }

    /// The index of the entry the timeline is at.
    pub closed spec fn cursor_spec(&self) -> int {
        self.cursor as int
    }

    /// The id the next pushed edit gets.
    pub closed spec fn next_id_spec(&self) -> u64 {
        self.next_id
    }

    pub open spec fn wf(&self) -> bool {
        &&& self.history().len() >= 1
        &&& 0 <= self.cursor_spec() < self.history().len()
        &&& self.history()[0].id == EditId(0)
        &&& self.history()[0].op == EditOp::Init
        &&& forall|i: int| 0 <= i < self.history().len() ==> (#[trigger] self.history()[i]).snapshot.wf()
        &&& forall|i: int, j: int|
            0 <= i < j < self.history().len() ==> (#[trigger] self.history()[i]).id.0 < (
            #[trigger] self.history()[j]).id.0
        &&& forall|i: int| 0 <= i < self.history().len() ==> (#[trigger] self.history()[i]).id.0 < self.next_id_spec()
    }

    /// The snapshot the timeline is at.
    pub open spec fn current_snapshot(&self) -> Seq<ClipValue> {
        self.history()[self.cursor_spec()].snapshot@
    }

    /// A history holding `initial` as its first entry.
    pub fn new(initial: ClipTree) -> (e: Edl)
        requires
            initial.wf(),
        ensures
            e.wf(),
            e.history().len() == 1,
            e.history()[0].snapshot@ == initial@,
            e.cursor_spec() == 0,
            e.next_id_spec() == 1,
    {
        let mut edits = Vec::new();
        edits.push(Edit { id: EditId(0), op: EditOp::Init, snapshot: initial });
        Edl { edits, cursor: 0, next_id: 1 }
    }

    pub fn cursor(&self) -> (c: usize)
        ensures
            c == self.cursor_spec(),
    {
        self.cursor
    }

    /// The entry the timeline is at.
    pub fn current(&self) -> (e: &Edit)
        requires
            self.wf(),
        ensures
            *e == self.history()[self.cursor_spec()],
    {
        &self.edits[self.cursor]
    }

    pub fn current_id(&self) -> (id: EditId)
        requires
            self.wf(),
        ensures
            id == self.history()[self.cursor_spec()].id,
    {
        self.edits[self.cursor].id
    }

    /// The timeline the history is at.
    pub fn snapshot(&self) -> (t: ClipTree)
        requires
            self.wf(),
        ensures
            t.wf(),
            t@ == self.current_snapshot(),
    {
        self.edits[self.cursor].snapshot.copy()
    }

    pub fn len(&self) -> (n: usize)
        ensures
            n == self.history().len(),
    {
        self.edits.len()
    }

    pub fn edits(&self) -> (s: &[Edit])
        ensures
            s@ == self.history(),
    {
        self.edits.as_slice()
    }

    /// The operations of every entry after the initial one.
    pub fn ops_from_first_user(&self) -> (ops: Vec<EditOp>)
        requires
            self.wf(),
        ensures
            ops@.len() == self.history().len() - 1,
            forall|i: int| 0 <= i < ops@.len() ==> ops@[i] == (#[trigger] self.history()[i + 1]).op,
    {
        let mut ops: Vec<EditOp> = Vec::new();
        let mut i: usize = 1;
        while i < self.edits.len()
            invariant
                1 <= i <= self.edits.len(),
                ops@.len() == i - 1,
                forall|k: int| 0 <= k < ops@.len() ==> ops@[k] == (#[trigger] self.edits@[k + 1]).op,
            decreases self.edits.len() - i,
        {
            ops.push(self.edits[i].op);
            i += 1;
        }
        ops
    }

    /// Records `op` with the timeline after it: the entries after the
    /// cursor are dropped, the new entry follows and becomes current.
    pub fn push(&mut self, op: EditOp, snapshot: ClipTree) -> (id: EditId)
        requires
            old(self).wf(),
            old(self).next_id_spec() < u64::MAX,
            snapshot.wf(),
        ensures
            final(self).wf(),
            id == EditId(old(self).next_id_spec()),
            final(self).history() == push_history(
                old(self).history(),
                old(self).cursor_spec(),
                Edit { id, op, snapshot },
            ),
            final(self).cursor_spec() == old(self).cursor_spec() + 1,
            final(self).next_id_spec() == old(self).next_id_spec() + 1,
    {
        let ghost h = self.edits@;
        let n = self.edits.len();
        assert(self.cursor < n);
        self.edits.truncate(self.cursor + 1);
        let id = EditId(self.next_id);
        self.next_id = self.next_id + 1;
        self.edits.push(Edit { id, op, snapshot });
        self.cursor = self.edits.len() - 1;
        proof {
            assert(self.edits@ =~= h.take(old(self).cursor + 1).push(self.edits@.last()));
            assert forall|i: int| 0 <= i < self.edits@.len() implies (#[trigger] self.edits@[i]).snapshot.wf() by {
                if i < self.edits@.len() - 1 {
                    assert(self.edits@[i] == h[i]);
                }
            }
            assert forall|i: int, j: int| 0 <= i < j < self.edits@.len() implies (
            #[trigger] self.edits@[i]).id.0 < (#[trigger] self.edits@[j]).id.0 by {
                assert(self.edits@[i] == h[i]);
                if j < self.edits@.len() - 1 {
                    assert(self.edits@[j] == h[j]);
                }
            }
            assert forall|i: int| 0 <= i < self.edits@.len() implies (#[trigger] self.edits@[i]).id.0
                < self.next_id by {
                if i < self.edits@.len() - 1 {
                    assert(self.edits@[i] == h[i]);
                }
            }
        }
        id
    }

    /// Whether another edit can get an id.
    pub fn has_room(&self) -> (b: bool)
        ensures
            b == (self.next_id_spec() < u64::MAX),
    {
        self.next_id < u64::MAX
    }

    pub fn can_undo(&self) -> (b: bool)
        ensures
            b == (self.cursor_spec() > 0),
    {
        self.cursor > 0
    }

    pub fn can_redo(&self) -> (b: bool)
        ensures
            b == (self.cursor_spec() + 1 < self.history().len()),
    {
        self.cursor < self.edits.len() && self.cursor + 1 < self.edits.len()
    }

    /// Steps the cursor back one entry and gives its timeline; `None` at the
    /// initial entry.
    pub fn undo(&mut self) -> (r: Option<ClipTree>)
        requires
            old(self).wf(),
        ensures
            final(self).wf(),
            final(self).history() == old(self).history(),
            final(self).next_id_spec() == old(self).next_id_spec(),
            old(self).cursor_spec() == 0 ==> r is None && final(self).cursor_spec() == 0,
            old(self).cursor_spec() > 0 ==> final(self).cursor_spec() == old(self).cursor_spec() - 1,
            r matches Some(t) ==> t.wf() && t@ == final(self).current_snapshot(),
            old(self).cursor_spec() > 0 ==> r is Some,
    {
        if !self.can_undo() {
            return None;
        }
        self.cursor = self.cursor - 1;
        Some(self.snapshot())
    }

    /// Steps the cursor forward one entry and gives its timeline; `None` at
    /// the last entry.
    pub fn redo(&mut self) -> (r: Option<ClipTree>)
        requires
            old(self).wf(),
        ensures
            final(self).wf(),
            final(self).history() == old(self).history(),
            final(self).next_id_spec() == old(self).next_id_spec(),
            old(self).cursor_spec() + 1 >= old(self).history().len() ==> r is None && final(self).cursor_spec()
                == old(self).cursor_spec(),
            old(self).cursor_spec() + 1 < old(self).history().len() ==> r is Some
                && final(self).cursor_spec() == old(self).cursor_spec() + 1,
            r matches Some(t) ==> t.wf() && t@ == final(self).current_snapshot(),
    {
        if !self.can_redo() {
            return None;
        }
        let n = self.edits.len();
        assert(self.cursor + 1 < n);
        self.cursor = self.cursor + 1;
        Some(self.snapshot())
    }

    /// Moves the cursor to the entry with id `id` and gives its timeline;
    /// `None`, with nothing changed, if no entry has it.
    pub fn jump_to(&mut self, id: EditId) -> (r: Option<ClipTree>)
        requires
            old(self).wf(),
        ensures
            final(self).wf(),
            final(self).history() == old(self).history(),
            final(self).next_id_spec() == old(self).next_id_spec(),
            index_of_id(old(self).history(), id) < old(self).history().len() ==> {
                &&& r is Some
                &&& final(self).cursor_spec() == index_of_id(old(self).history(), id)
                &&& old(self).history()[final(self).cursor_spec()].id == id
            },
            index_of_id(old(self).history(), id) >= old(self).history().len() ==> r is None
                && *final(self) == *old(self),
            r matches Some(t) ==> t.wf() && t@ == final(self).current_snapshot(),
    {
        let mut i: usize = 0;
        while i < self.edits.len()
            invariant
                i <= self.edits.len(),
                self.wf(),
                *self == *old(self),
                forall|k: int| 0 <= k < i ==> (#[trigger] self.edits@[k]).id != id,
            decreases self.edits.len() - i,
        {
            if self.edits[i].id == id {
                proof {
                    lemma_index_of_id(self.edits@, id, i as int);
                }
                self.cursor = i;
                return Some(self.snapshot());
            }
            i += 1;
        }
        proof {
            lemma_index_of_id_absent(self.edits@, id);
        }
        None
    }

    /// Moves the cursor to entry `index` and gives its timeline; `None`,
    /// with nothing changed, past the last entry.
    pub fn jump_to_index(&mut self, index: usize) -> (r: Option<ClipTree>)
        requires
            old(self).wf(),
        ensures
            final(self).wf(),
            final(self).history() == old(self).history(),
            final(self).next_id_spec() == old(self).next_id_spec(),
            index < old(self).history().len() ==> r is Some && final(self).cursor_spec() == index,
            index >= old(self).history().len() ==> r is None && final(self).cursor_spec()
                == old(self).cursor_spec(),
            r matches Some(t) ==> t.wf() && t@ == final(self).current_snapshot(),
    {
        if index >= self.edits.len() {
            return None;
        }
        self.cursor = index;
        Some(self.snapshot())
    }

    /// Replaces the snapshot of the initial entry.
    pub fn replace_init_snapshot(&mut self, snapshot: ClipTree)
        requires
            old(self).wf(),
            snapshot.wf(),
        ensures
            final(self).wf(),
            final(self).history() == old(self).history().update(
                0,
                Edit { snapshot, ..old(self).history()[0] },
            ),
            final(self).cursor_spec() == old(self).cursor_spec(),
            final(self).next_id_spec() == old(self).next_id_spec(),
    {
        let ghost h = self.edits@;
        let first = &self.edits[0];
        let e = Edit { id: first.id, op: first.op, snapshot };
        self.edits.set(0, e);
        proof {
            assert forall|i: int| 0 <= i < self.edits@.len() implies (#[trigger] self.edits@[i]).snapshot.wf() by {
                if i > 0 {
                    assert(self.edits@[i] == h[i]);
                }
            }
            assert forall|i: int, j: int| 0 <= i < j < self.edits@.len() implies (
            #[trigger] self.edits@[i]).id.0 < (#[trigger] self.edits@[j]).id.0 by {
                assert(self.edits@[i].id == h[i].id);
                assert(self.edits@[j].id == h[j].id);
            }
            assert forall|i: int| 0 <= i < self.edits@.len() implies (#[trigger] self.edits@[i]).id.0
                < self.next_id by {
                assert(self.edits@[i].id == h[i].id);
            }
        }
    }
}

pub proof fn lemma_index_of_id(h: Seq<Edit>, id: EditId, i: int)
    requires
        0 <= i < h.len(),
        h[i].id == id,
        forall|k: int| 0 <= k < i ==> (#[trigger] h[k]).id != id,
    ensures
        index_of_id(h, id) == i,
    decreases h.len(),
{
    if i > 0 {
        let t = h.drop_first();
        assert forall|k: int| 0 <= k < i - 1 implies (#[trigger] t[k]).id != id by {
            assert(t[k] == h[k + 1]);
        }
        assert(h[0].id != id);
        lemma_index_of_id(t, id, i - 1);
    }
}

pub proof fn lemma_index_of_id_absent(h: Seq<Edit>, id: EditId)
    requires
        forall|k: int| 0 <= k < h.len() ==> (#[trigger] h[k]).id != id,
    ensures
        index_of_id(h, id) == h.len(),
    decreases h.len(),
{
    if h.len() > 0 {
        let t = h.drop_first();
        assert forall|k: int| 0 <= k < t.len() implies (#[trigger] t[k]).id != id by {
            assert(t[k] == h[k + 1]);
        }
        assert(h[0].id != id);
        lemma_index_of_id_absent(t, id);
    }
}

/// After a push, the entry an undo returns to is the one that was current
/// before it, and nothing can be redone: the new entry is the last.
pub proof fn law_push_then_undo_returns(h: Seq<Edit>, cursor: int, e: Edit)
    requires
        0 <= cursor < h.len(),
    ensures
        push_history(h, cursor, e).len() == cursor + 2,
        push_history(h, cursor, e)[cursor] == h[cursor],
        push_history(h, cursor, e)[cursor + 1] == e,
        forall|i: int| 0 <= i <= cursor ==> (#[trigger] push_history(h, cursor, e)[i]) == h[i],
{
}

/// How a composition started: empty, or from one media file.
#[derive(Debug, Clone, Copy, PartialEq, Eq, Structural)]
pub enum InitialState {
    Empty,
    FromMedia { media_id: u64 },
}

/// A composition as saved: its format, media, how it started, the edits
/// after that, the edit it was at and its markers.
#[derive(Debug, Clone)]
pub struct ProjectFile {
    pub sample_rate: u32,
    pub channel_count: usize,
    pub media: Vec<MediaInfo>,
    pub initial: InitialState,
    pub edits: Vec<EditOp>,
    pub edit_cursor: usize,
    pub markers: Vec<Marker>,
}

/// The kind a composition file declares.
pub const FACOMP_KIND: &'static str = "facomp";

/// The newest composition format this library writes.
pub const FACOMP_FORMAT_VERSION: u32 = 2;

/// A project file with the kind and format version it is saved under.
#[derive(Debug, Clone)]
pub struct ProjectEnvelope {
    pub kind: String,
    pub format_version: u32,
    pub project: ProjectFile,
}

/// Why a composition file was refused.
#[derive(Debug, Clone, Copy, PartialEq, Eq, Structural)]
pub enum EnvelopeError {
    /// The file is of another kind.
    WrongKind,
    /// The format version is missing or zero.
    MissingVersion,
    /// The file needs a newer reader.
    NewerVersion(u32),
}

impl ProjectEnvelope {
    /// `project` under the current kind and format version.
    pub fn wrap(project: ProjectFile) -> (e: ProjectEnvelope)
        ensures
            e.kind@ == FACOMP_KIND@,
            e.format_version == FACOMP_FORMAT_VERSION,
            e.project == project,
    {
        ProjectEnvelope { kind: String::from_str(FACOMP_KIND), format_version: FACOMP_FORMAT_VERSION, project }
    }
}

/// Accepts a composition file of kind `kind` at format `format_version`:
/// versions 1 and 2 are read, 0 counts as missing, later ones need a newer
/// reader.
pub fn check_envelope(kind: &str, format_version: u32) -> (r: Result<(), EnvelopeError>)
    ensures
        kind@ != FACOMP_KIND@ ==> r == Err::<(), EnvelopeError>(EnvelopeError::WrongKind),
        kind@ == FACOMP_KIND@ && format_version == 0 ==> r == Err::<(), EnvelopeError>(
            EnvelopeError::MissingVersion,
        ),
        kind@ == FACOMP_KIND@ && (format_version == 1 || format_version == 2) ==> r is Ok,
        kind@ == FACOMP_KIND@ && format_version > FACOMP_FORMAT_VERSION ==> r == Err::<(), EnvelopeError>(
            EnvelopeError::NewerVersion(format_version),
        ),
{
    if !str_equals(kind, FACOMP_KIND) {
        return Err(EnvelopeError::WrongKind);
    }
    if format_version == 0 {
        Err(EnvelopeError::MissingVersion)
    } else if format_version <= FACOMP_FORMAT_VERSION {
        Ok(())
    } else {
        Err(EnvelopeError::NewerVersion(format_version))
    }
}

} // verus!
