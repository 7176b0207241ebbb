use vstd::prelude::*;

use crate::text::{decimal, decimal_string, parse_u64_from, parse_u64_spec, push_decimal, string_of};

verus! {

/// Stable identity for an open composition in the session.
#[derive(Clone, Copy, Debug, PartialEq, Eq, Hash, Structural)]
pub struct DocumentId(pub u64);

/// The characters `doc:` that start every tree id.
pub open spec fn tree_id_prefix() -> Seq<char> {
    seq!['d', 'o', 'c', ':']
}

pub open spec fn from_tree_id_spec(id: Seq<char>) -> Option<DocumentId> {
    if id.len() >= 4 && id.subrange(0, 4) == tree_id_prefix() {
        match parse_u64_spec(id.subrange(4, id.len() as int)) {
            Some(n) => Some(DocumentId(n)),
            None => None,
        }
    } else {
        None
    }
}

impl DocumentId {
    pub open spec fn tree_id_spec(self) -> Seq<char> {
        tree_id_prefix() + decimal(self.0 as nat)
    }

    /// The id under which the document appears in the explorer tree: `doc:<n>`.
    pub fn to_tree_id(self) -> (s: String)
        ensures
            s@ == self.tree_id_spec(),
    {
        let mut s = string_of("doc:");
        proof {
            reveal_strlit("doc:");
        }
        push_decimal(&mut s, self.0);
        s
    }

    /// Reads back an id written by [`DocumentId::to_tree_id`].
    pub fn from_tree_id(id: &str) -> (r: Option<Self>)
        ensures
            r == from_tree_id_spec(id@),
    {
        let n = id.unicode_len();
        if n < 4 {
            return None;
        }
        let prefix_ok = id.get_char(0) == 'd' && id.get_char(1) == 'o' && id.get_char(2) == 'c'
            && id.get_char(3) == ':';
        if !prefix_ok {
            proof {
                if id@.subrange(0, 4) == tree_id_prefix() {
                    assert(id@.subrange(0, 4)[0] == 'd');
                    assert(id@.subrange(0, 4)[1] == 'o');
                    assert(id@.subrange(0, 4)[2] == 'c');
                    assert(id@.subrange(0, 4)[3] == ':');
                }
            }
            return None;
        }
        proof {
            assert(id@.subrange(0, 4) =~= tree_id_prefix());
        }
        match parse_u64_from(id, 4) {
            Some(v) => Some(DocumentId(v)),
            None => None,
        }
    }
}

/// A tree id reads back as the document id it was made from.
pub proof fn law_tree_id_round_trip(id: DocumentId)
    ensures
        from_tree_id_spec(id.tree_id_spec()) == Some(id),
{
    let s = id.tree_id_spec();
    assert(s.subrange(0, 4) =~= tree_id_prefix());
    assert(s.subrange(4, s.len() as int) =~= decimal(id.0 as nat));
    crate::text::lemma_parse_decimal(id.0);
}

/// Session metadata for one open composition.
#[derive(Clone, Debug)]
pub struct OpenDocument {
    pub id: DocumentId,
    pub source_path: Option<String>,
    pub tab_open: bool,
}

/// Ordered list of open compositions and which one is active.
#[derive(Clone, Debug)]
pub struct DocumentSession {
    next_id: u64,
    documents: Vec<OpenDocument>,
    active: Option<DocumentId>,
}

/// Whether some document of `docs` has id `id`.
pub open spec fn has_id(docs: Seq<OpenDocument>, id: DocumentId) -> bool {
    exists|k: int| 0 <= k < docs.len() && (#[trigger] docs[k]).id == id
}

/// The index of the first document of `docs` with id `id`.
pub open spec fn index_of(docs: Seq<OpenDocument>, id: DocumentId) -> int {
    choose|k: int| 0 <= k < docs.len() && docs[k].id == id && forall|j: int|
        0 <= j < k ==> (#[trigger] docs[j]).id != id
}

/// How many documents of `docs` have an open tab.
pub open spec fn open_tabs(docs: Seq<OpenDocument>) -> nat
    decreases docs.len(),
{
    if docs.len() == 0 {
        0
    } else {
        open_tabs(docs.drop_last()) + if docs.last().tab_open {
            1nat
        } else {
            0nat
        }
    }
}

/// `docs` with the tab flag of the document at `k` set to `open`.
pub open spec fn with_tab(docs: Seq<OpenDocument>, k: int, open: bool) -> Seq<OpenDocument> {
    docs.update(k, OpenDocument { tab_open: open, ..docs[k] })
}

/// Whether `d` has a source path equal to `path`: the same string, or equal
/// as a path.
pub open spec fn source_is(d: OpenDocument, path: Seq<char>) -> bool {
    match d.source_path {
        Some(src) => src@ == path || path_eq(src@, path),
        None => false,
    }
}

/// The ids of `docs` are pairwise distinct and lie in `1..=next_id`.
pub open spec fn ids_valid(docs: Seq<OpenDocument>, next_id: u64) -> bool {
    &&& forall|i: int, j: int|
        0 <= i < j < docs.len() ==> (#[trigger] docs[i]).id != (#[trigger] docs[j]).id
    &&& forall|i: int| 0 <= i < docs.len() ==> 0 < (#[trigger] docs[i]).id.0 <= next_id
}

proof fn lemma_index_of(docs: Seq<OpenDocument>, id: DocumentId, k: int)
    requires
        0 <= k < docs.len(),
        docs[k].id == id,
        forall|i: int, j: int|
            0 <= i < j < docs.len() ==> (#[trigger] docs[i]).id != (#[trigger] docs[j]).id,
    ensures
        index_of(docs, id) == k,
{
    assert(forall|j: int| 0 <= j < k ==> (#[trigger] docs[j]).id != id);
    let c = index_of(docs, id);
    assert(0 <= c < docs.len() && docs[c].id == id);
    if c < k {
        assert(docs[c].id != docs[k].id);
    }
    if c > k {
        assert(docs[k].id != id);
    }
}

/// Setting one document's tab flag changes the number of open tabs by the
/// change of that flag alone: closing an open tab lowers it by one, opening a
/// closed tab raises it by one, anything else leaves it.
pub proof fn law_open_tabs_update(docs: Seq<OpenDocument>, k: int, open: bool)
    requires
        0 <= k < docs.len(),
    ensures
        open_tabs(with_tab(docs, k, open)) + (if docs[k].tab_open {
            1int
        } else {
            0int
        }) == open_tabs(docs) + (if open {
            1int
        } else {
            0int
        }),
    decreases docs.len(),
{
    let u = with_tab(docs, k, open);
    if k == docs.len() - 1 {
        assert(u.drop_last() =~= docs.drop_last());
    } else {
        law_open_tabs_update(docs.drop_last(), k, open);
        assert(u.drop_last() =~= with_tab(docs.drop_last(), k, open));
    }
}

/// Reopening a tab that was closed restores the document list as it was, and
/// a tab flag change never adds, drops or reorders documents.
pub proof fn law_close_then_ensure_tab_restores(docs: Seq<OpenDocument>, k: int)
    requires
        0 <= k < docs.len(),
        docs[k].tab_open,
    ensures
        with_tab(with_tab(docs, k, false), k, true) == docs,
        forall|open: bool, i: int|
            0 <= i < docs.len() ==> (#[trigger] with_tab(docs, k, open)[i]).id == docs[i].id,
        forall|open: bool| (#[trigger] with_tab(docs, k, open)).len() == docs.len(),
{
    assert(with_tab(with_tab(docs, k, false), k, true) =~= docs);
}

/// Opening a document with its tab open adds one to the open tab count.
pub proof fn law_push_opens_a_tab(docs: Seq<OpenDocument>, d: OpenDocument)
    ensures
        open_tabs(docs.push(d)) == open_tabs(docs) + if d.tab_open {
            1nat
        } else {
            0nat
        },
{
    assert(docs.push(d).drop_last() =~= docs);
}

impl DocumentSession {
    /// The documents in the order they were opened.
    pub closed spec fn docs(&self) -> Seq<OpenDocument> {
        self.documents@
    }

    /// The active document, if any.
    pub closed spec fn active_doc(&self) -> Option<DocumentId> {
        self.active
    }

    /// The last id handed out; the next document gets the one after it.
    pub closed spec fn last_id(&self) -> u64 {
        self.next_id
    }

    /// Ids are distinct and issued in order, and a document is active exactly
    /// when the session has one, and then it is one of them.
    pub open spec fn wf(&self) -> bool {
        &&& ids_valid(self.docs(), self.last_id())
        &&& (self.active_doc() matches Some(a) ==> has_id(self.docs(), a))
        &&& (self.active_doc() is None <==> self.docs().len() == 0)
    }

    /// The document with id `id`, if the session holds one.
    pub open spec fn lookup(&self, id: DocumentId) -> Option<OpenDocument> {
        if has_id(self.docs(), id) {
            Some(self.docs()[index_of(self.docs(), id)])
        } else {
            None
        }
    }

    pub fn new() -> (s: Self)
        ensures
            s.wf(),
            s.docs().len() == 0,
            s.active_doc() is None,
            s.last_id() == 0,
    {
        DocumentSession { next_id: 0, documents: Vec::new(), active: None }
    }

    pub fn documents(&self) -> (r: &[OpenDocument])
        ensures
            r@ == self.docs(),
    {
        self.documents.as_slice()
    }

    pub fn len(&self) -> (n: usize)
        ensures
            n == self.docs().len(),
    {
        self.documents.len()
    }

    pub fn is_empty(&self) -> (b: bool)
        ensures
            b == (self.docs().len() == 0),
    {
        self.documents.len() == 0
    }

    /// How many documents have their tab open.
    pub fn tab_open_count(&self) -> (n: usize)
        ensures
            n == open_tabs(self.docs()),
    {
        let mut n: usize = 0;
        let mut i: usize = 0;
        while i < self.documents.len()
            invariant
                i <= self.documents.len(),
                n == open_tabs(self.documents@.take(i as int)),
                n <= i,
            decreases self.documents.len() - i,
        {
            proof {
                assert(self.documents@.take(i + 1).drop_last() =~= self.documents@.take(i as int));
            }
            if self.documents[i].tab_open {
                n += 1;
            }
            i += 1;
        }
        proof {
            assert(self.documents@.take(self.documents.len() as int) =~= self.documents@);
        }
        n
    }

    pub fn active(&self) -> (r: Option<DocumentId>)
        ensures
            r == self.active_doc(),
    {
        self.active
    }

    /// The position of the document with id `id`.
    fn position(&self, id: DocumentId) -> (r: Option<usize>)
        ensures
            r is None <==> !has_id(self.docs(), id),
            r matches Some(k) ==> k < self.docs().len() && self.docs()[k as int].id == id
                && forall|j: int| 0 <= j < k ==> (#[trigger] self.docs()[j]).id != id,
    {
        let mut i: usize = 0;
        while i < self.documents.len()
            invariant
                i <= self.documents.len(),
                forall|j: int| 0 <= j < i ==> (#[trigger] self.documents@[j]).id != id,
            decreases self.documents.len() - i,
        {
            if self.documents[i].id == id {
                return Some(i);
            }
            i += 1;
        }
        None
    }

    /// The document with id `id`.
    pub fn get(&self, id: DocumentId) -> (r: Option<&OpenDocument>)
        requires
            self.wf(),
        ensures
            r is Some == self.lookup(id) is Some,
            r matches Some(d) ==> *d == self.lookup(id)->Some_0,
    {
        match self.position(id) {
            Some(k) => {
                proof {
                    lemma_index_of(self.docs(), id, k as int);
                }
                Some(&self.documents[k])
            },
            None => None,
        }
    }

    /// The document with id `id`, to change in place.
    pub fn get_mut(&mut self, id: DocumentId) -> (r: Option<&mut OpenDocument>)
        requires
            old(self).wf(),
        ensures
            r is Some == old(self).lookup(id) is Some,
            r is None ==> *final(self) == *old(self),
            r matches Some(d) ==> *d == old(self).lookup(id)->Some_0,
            r matches Some(d) ==> final(self).docs() == old(self).docs().update(
                index_of(old(self).docs(), id),
                *final(d),
            ),
            final(self).active_doc() == old(self).active_doc(),
            final(self).last_id() == old(self).last_id(),
    {
        match self.position(id) {
            Some(k) => {
                proof {
                    lemma_index_of(self.docs(), id, k as int);
                }
                Some(&mut self.documents[k])
            },
            None => None,
        }
    }

    /// The id of the first document, from the `i`-th on, whose answer in
    /// `answers` is true (a missing answer counts as false).
    pub open spec fn first_matching_from(docs: Seq<OpenDocument>, answers: Seq<bool>, i: int) -> Option<DocumentId>
        decreases docs.len() - i,
    {
        if i < 0 || i >= docs.len() {
            None
        } else if i < answers.len() && answers[i] {
            Some(docs[i].id)
        } else {
            Self::first_matching_from(docs, answers, i + 1)
        }
    }

    /// The id of the first document whose answer in `answers` (one per
    /// document, in order; a missing one counts as false) is true.
    pub fn first_matching(&self, answers: &Vec<bool>) -> (r: Option<DocumentId>)
        ensures
            r == Self::first_matching_from(self.docs(), answers@, 0),
    {
        let n = self.documents.len();
        let mut r: Option<DocumentId> = None;
        let mut i: usize = n;
        while i > 0
            invariant
                i <= n,
                n == self.docs().len(),
                r == Self::first_matching_from(self.docs(), answers@, i as int),
            decreases i,
        {
            i -= 1;
            if i < answers.len() && answers[i] {
                r = Some(self.documents[i].id);
            }
        }
        r
    }

    /// The id of the first document whose source path names the same file as
    /// `path`. Two paths name the same file when they are equal as paths, or
    /// when both resolve on disk to the same canonical path.
    pub fn find_by_path(&self, path: &str) -> (r: Option<DocumentId>)
        ensures
            exists|answers: Seq<bool>|
                #[trigger] answers_for(self.docs(), path@, answers) && r == Self::first_matching_from(
                    self.docs(),
                    answers,
                    0,
                ),
            r matches Some(id) ==> exists|k: int|
                0 <= k < self.docs().len() && (#[trigger] self.docs()[k]).id == id
                    && self.docs()[k].source_path is Some,
            forall|k: int|
                0 <= k < self.docs().len() && source_is(#[trigger] self.docs()[k], path@)
                    ==> exists|j: int| 0 <= j <= k && r == Some((#[trigger] self.docs()[j]).id),
    {
        let n = self.documents.len();
        let mut answers: Vec<bool> = Vec::new();
        let mut i: usize = 0;
        while i < n
            invariant
                i <= n,
                n == self.docs().len(),
                answers@.len() == i,
                forall|k: int| 0 <= k < i ==> answer_ok(#[trigger] self.docs()[k], path@, answers@[k]),
            decreases n - i,
        {
            let answer = match &self.documents[i].source_path {
                Some(source) => paths_equivalent(source.as_str(), path),
                None => false,
            };
            answers.push(answer);
            proof {
                assert(answer_ok(self.docs()[i as int], path@, answers@[i as int]));
            }
            i += 1;
        }
        let r = self.first_matching(&answers);
        proof {
            assert(answers_for(self.docs(), path@, answers@));
            lemma_first_matching(self.docs(), path@, answers@, 0);
        }
        r
    }

    /// Inserts a document, makes it active, and opens its tab.
    pub fn push(&mut self, source_path: Option<String>) -> (id: DocumentId)
        requires
            old(self).wf(),
            old(self).last_id() < u64::MAX,
        ensures
            final(self).wf(),
            id == DocumentId((old(self).last_id() + 1) as u64),
            final(self).last_id() == id.0,
            final(self).docs() == old(self).docs().push(
                OpenDocument { id, source_path, tab_open: true },
            ),
            final(self).active_doc() == Some(id),
    {
        self.next_id = self.next_id + 1;
        let id = DocumentId(self.next_id);
        self.documents.push(OpenDocument { id, source_path, tab_open: true });
        self.active = Some(id);
        proof {
            let docs = self.documents@;
            assert(docs[docs.len() - 1].id == id);
            assert(has_id(docs, id));
        }
        id
    }

    /// Sets the active document. Returns the previous id when it changed.
    pub fn focus(&mut self, id: DocumentId) -> (previous: Option<DocumentId>)
        requires
            old(self).wf(),
        ensures
            final(self).wf(),
            final(self).docs() == old(self).docs(),
            final(self).last_id() == old(self).last_id(),
            has_id(old(self).docs(), id) ==> final(self).active_doc() == Some(id),
            !has_id(old(self).docs(), id) ==> final(self).active_doc() == old(
                self,
            ).active_doc(),
            previous == if has_id(old(self).docs(), id) && old(self).active_doc() != Some(id) {
                old(self).active_doc()
            } else {
                None
            },
    {
        if self.position(id).is_none() {
            return None;
        }
        let previous = self.active;
        if previous == Some(id) {
            return None;
        }
        self.active = Some(id);
        previous
    }

    /// Opens the tab of document `id`. Returns whether it was closed before.
    pub fn ensure_tab(&mut self, id: DocumentId) -> (changed: bool)
        requires
            old(self).wf(),
        ensures
            final(self).wf(),
            final(self).active_doc() == old(self).active_doc(),
            final(self).last_id() == old(self).last_id(),
            changed == (old(self).lookup(id) matches Some(d) && !d.tab_open),
            final(self).docs() == if has_id(old(self).docs(), id) {
                with_tab(old(self).docs(), index_of(old(self).docs(), id), true)
            } else {
                old(self).docs()
            },
    {
        self.change_tab(id, true)
    }

    /// Closes the tab of document `id`. Returns whether it was open before.
    pub fn close_tab(&mut self, id: DocumentId) -> (changed: bool)
        requires
            old(self).wf(),
        ensures
            final(self).wf(),
            final(self).active_doc() == old(self).active_doc(),
            final(self).last_id() == old(self).last_id(),
            changed == (old(self).lookup(id) matches Some(d) && d.tab_open),
            final(self).docs() == if has_id(old(self).docs(), id) {
                with_tab(old(self).docs(), index_of(old(self).docs(), id), false)
            } else {
                old(self).docs()
            },
    {
        self.change_tab(id, false)
    }

    /// Sets the tab flag of document `id` to `open`; returns whether it changed.
    fn change_tab(&mut self, id: DocumentId, open: bool) -> (changed: bool)
        requires
            old(self).wf(),
        ensures
            final(self).wf(),
            final(self).active_doc() == old(self).active_doc(),
            final(self).last_id() == old(self).last_id(),
            changed == (old(self).lookup(id) matches Some(d) && d.tab_open != open),
            final(self).docs() == if has_id(old(self).docs(), id) {
                with_tab(old(self).docs(), index_of(old(self).docs(), id), open)
            } else {
                old(self).docs()
            },
    {
        match self.position(id) {
            None => false,
            Some(k) => {
                proof {
                    lemma_index_of(self.docs(), id, k as int);
                }
                if self.documents[k].tab_open == open {
                    proof {
                        assert(with_tab(self.docs(), k as int, open) =~= self.docs());
                    }
                    return false;
                }
                self.set_tab_at(k, open);
                true
            },
        }
    }

    fn set_tab_at(&mut self, k: usize, open: bool)
        requires
            old(self).wf(),
            k < old(self).docs().len(),
        ensures
            final(self).wf(),
            final(self).active_doc() == old(self).active_doc(),
            final(self).last_id() == old(self).last_id(),
            final(self).docs() == with_tab(old(self).docs(), k as int, open),
    {
        let ghost before = self.documents@;
        let mut doc = self.documents.remove(k);
        doc.tab_open = open;
        self.documents.insert(k, doc);
        proof {
            assert(self.documents@ =~= with_tab(before, k as int, open));
            let docs = self.documents@;
            assert forall|i: int| 0 <= i < docs.len() implies (#[trigger] docs[i]).id == before[i].id by {}
            if let Some(a) = self.active {
                let w = choose|w: int| 0 <= w < before.len() && (#[trigger] before[w]).id == a;
                assert(docs[w].id == a);
            }
        }
    }

    /// Sets whether document `id` has an open tab.
    pub fn set_tab_open(&mut self, id: DocumentId, open: bool)
        requires
            old(self).wf(),
        ensures
            final(self).wf(),
            final(self).active_doc() == old(self).active_doc(),
            final(self).last_id() == old(self).last_id(),
            final(self).docs() == if has_id(old(self).docs(), id) {
                with_tab(old(self).docs(), index_of(old(self).docs(), id), open)
            } else {
                old(self).docs()
            },
    {
        match self.position(id) {
            Some(k) => {
                proof {
                    lemma_index_of(self.docs(), id, k as int);
                }
                self.set_tab_at(k, open);
            },
            None => {},
        }
    }

    /// Drops document `id` from the session. If it was active, the document
    /// that took its place becomes active, else the last one, if any is left.
    pub fn close_document(&mut self, id: DocumentId) -> (removed: bool)
        requires
            old(self).wf(),
        ensures
            final(self).wf(),
            final(self).last_id() == old(self).last_id(),
            removed == has_id(old(self).docs(), id),
            removed ==> final(self).docs() == old(self).docs().remove(
                index_of(old(self).docs(), id),
            ),
            !removed ==> final(self).docs() == old(self).docs(),
            old(self).active_doc() != Some(id) ==> final(self).active_doc() == old(
                self,
            ).active_doc(),
            removed && old(self).active_doc() == Some(id) ==> final(self).active_doc() == {
                let ix = index_of(old(self).docs(), id);
                let rest = old(self).docs().remove(ix);
                if ix < rest.len() {
                    Some(rest[ix].id)
                } else if rest.len() > 0 {
                    Some(rest.last().id)
                } else {
                    None
                }
            },
    {
        let ix = match self.position(id) {
            Some(ix) => ix,
            None => return false,
        };
        proof {
            lemma_index_of(self.docs(), id, ix as int);
        }
        let ghost before = self.documents@;
        self.documents.remove(ix);
        let ghost docs = self.documents@;
        proof {
            assert forall|i: int| 0 <= i < docs.len() implies (#[trigger] docs[i]).id == if i < ix {
                before[i].id
            } else {
                before[i + 1].id
            } by {}
            assert forall|i: int, j: int| 0 <= i < j < docs.len() implies (#[trigger] docs[i]).id
                != (#[trigger] docs[j]).id by {
                let bi = if i < ix { i } else { i + 1 };
                let bj = if j < ix { j } else { j + 1 };
                assert(before[bi].id != before[bj].id);
            }
        }
        if self.active == Some(id) {
            if ix < self.documents.len() {
                self.active = Some(self.documents[ix].id);
                proof {
                    assert(has_id(docs, docs[ix as int].id));
                }
            } else if self.documents.len() > 0 {
                let last = self.documents.len() - 1;
                self.active = Some(self.documents[last].id);
                proof {
                    assert(has_id(docs, docs[last as int].id));
                }
            } else {
                self.active = None;
            }
        } else {
            proof {
                if let Some(a) = self.active {
                    let w = choose|w: int| 0 <= w < before.len() && (#[trigger] before[w]).id == a;
                    assert(w != ix);
                    let nw = if w < ix { w } else { w - 1 };
                    assert(docs[nw].id == a);
                }
                if docs.len() == 0 {
                    assert(before.len() == 1);
                    assert(before[0].id == id);
                    assert(self.active is None || self.active == Some(id));
                }
            }
        }
        true
    }
}

/// `b` is an answer [`paths_equivalent`] may give for `d`'s source path and
/// `path`: false for a document without one.
pub open spec fn answer_ok(d: OpenDocument, path: Seq<char>, b: bool) -> bool {
    match d.source_path {
        Some(src) => equivalence_outcome(src@, path, b),
        None => !b,
    }
}

/// `answers` holds, for each document of `docs` in order, an answer
/// [`paths_equivalent`] may give for its source path and `path`.
pub open spec fn answers_for(docs: Seq<OpenDocument>, path: Seq<char>, answers: Seq<bool>) -> bool {
    &&& answers.len() == docs.len()
    &&& forall|k: int| 0 <= k < docs.len() ==> answer_ok(#[trigger] docs[k], path, answers[k])
}

/// The first matching document from the `i`-th on has a source path, and it
/// is found no later than any document from there whose path is `path`.
proof fn lemma_first_matching(docs: Seq<OpenDocument>, path: Seq<char>, answers: Seq<bool>, i: int)
    requires
        answers_for(docs, path, answers),
        0 <= i <= docs.len(),
    ensures
        DocumentSession::first_matching_from(docs, answers, i) matches Some(id) ==> exists|k: int|
            i <= k < docs.len() && (#[trigger] docs[k]).id == id && docs[k].source_path is Some,
        forall|k: int|
            i <= k < docs.len() && source_is(#[trigger] docs[k], path) ==> exists|j: int|
                i <= j <= k && DocumentSession::first_matching_from(docs, answers, i) == Some(
                    (#[trigger] docs[j]).id,
                ),
    decreases docs.len() - i,
{
    if i < docs.len() {
        lemma_first_matching(docs, path, answers, i + 1);
        assert(answer_ok(docs[i], path, answers[i]));
        if answers[i] {
            assert(docs[i].source_path is Some);
        }
        assert forall|k: int|
            i <= k < docs.len() && source_is(#[trigger] docs[k], path) implies exists|j: int|
                i <= j <= k && DocumentSession::first_matching_from(docs, answers, i) == Some(
                    (#[trigger] docs[j]).id,
                ) by {
            assert(answer_ok(docs[k], path, answers[k]));
            if answers[i] {
                assert(DocumentSession::first_matching_from(docs, answers, i) == Some(docs[i].id));
            } else if k == i {
                assert(answers[k]);
            }
        }
    }
}

/// What `std::path::Path`'s `==` says of two paths: they have the same
/// components (so `a//b`, `a/./b` and `a/b/` all equal `a/b`).
pub uninterp spec fn path_eq(a: Seq<char>, b: Seq<char>) -> bool;

/// `Path::new(a) == Path::new(b)`: equality by components, a function of the
/// two strings; a string always equals itself, and the comparison does not
/// depend on the order of the two.
#[verifier::external_body]
fn path_equals(a: &str, b: &str) -> (r: bool)
    ensures
        r == path_eq(a@, b@),
        a@ == b@ ==> r,
        r == path_eq(b@, a@),
{
    std::path::Path::new(a) == std::path::Path::new(b)
}

/// `Path::canonicalize`, its result taken as a string: the absolute path of
/// `p` with every link resolved, or `None` when `p` does not resolve (or
/// resolves to a path that is not UTF-8). The answer depends on the file
/// system; what is stated is only that an empty path names no file and so
/// does not resolve.
#[verifier::external_body]
fn canonicalize(p: &str) -> (r: Option<String>)
    ensures
        p@.len() == 0 ==> r is None,
{
    std::path::Path::new(p).canonicalize().ok().and_then(|c| c.into_os_string().into_string().ok())
}

/// Whether `a` and `b` name the same file, given their canonical paths `ca`
/// and `cb` where they resolved: equal as paths, or both resolved to canonical
/// paths equal as paths.
pub open spec fn same_file_spec(a: Seq<char>, b: Seq<char>, ca: Option<Seq<char>>, cb: Option<Seq<char>>) -> bool {
    path_eq(a, b) || (ca matches Some(x) && cb matches Some(y) && path_eq(x, y))
}

/// The characters of an optional string.
pub open spec fn opt_chars(o: Option<String>) -> Option<Seq<char>> {
    match o {
        Some(s) => Some(s@),
        None => None,
    }
}

/// Whether `a` and `b` name the same file, given what canonicalizing each
/// gave (`None` where it did not resolve). The answer does not depend on the
/// order of the two, and a path names the same file as itself.
pub fn same_file_given(a: &str, b: &str, ca: Option<String>, cb: Option<String>) -> (r: bool)
    ensures
        r == same_file_spec(a@, b@, opt_chars(ca), opt_chars(cb)),
        r == same_file_spec(b@, a@, opt_chars(cb), opt_chars(ca)),
        a@ == b@ ==> r,
{
    if path_equals(a, b) {
        return true;
    }
    match (ca, cb) {
        (Some(x), Some(y)) => path_equals(x.as_str(), y.as_str()),
        _ => false,
    }
}

/// What [`paths_equivalent`] may answer on `a` and `b`, whatever the file
/// system holds: true for paths equal as strings or as paths; otherwise the
/// answer of [`same_file_given`] on some canonical results, none of them for
/// an empty path.
pub open spec fn equivalence_outcome(a: Seq<char>, b: Seq<char>, r: bool) -> bool {
    &&& a == b ==> r
    &&& path_eq(a, b) || path_eq(b, a) ==> r
    &&& exists|ca: Option<Seq<char>>, cb: Option<Seq<char>>|
        (a.len() == 0 ==> ca is None) && (b.len() == 0 ==> cb is None) && r == #[trigger] same_file_spec(
            a,
            b,
            ca,
            cb,
        )
}

/// Whether `a` and `b` name the same file: equal as paths, or resolving on disk
/// to the same canonical path.
pub fn paths_equivalent(a: &str, b: &str) -> (r: bool)
    ensures
        equivalence_outcome(a@, b@, r),
{
    if path_equals(a, b) {
        proof {
            assert(same_file_spec(a@, b@, None, None));
        }
        return true;
    }
    let ca = canonicalize(a);
    let cb = canonicalize(b);
    let ghost (xa, xb) = (opt_chars(ca), opt_chars(cb));
    let r = same_file_given(a, b, ca, cb);
    proof {
        assert(r == same_file_spec(a@, b@, xa, xb));
    }
    r
}

} // verus!
