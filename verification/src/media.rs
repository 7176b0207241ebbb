use std::collections::HashMap;

use vstd::prelude::*;

use crate::clip::MediaId;
use vstd::std_specs::iter::IteratorSpec;

verus! {

broadcast use vstd::std_specs::hash::group_hash_axioms;

/// What the timeline logic reads of a media file.
#[derive(Debug, Clone, Copy, PartialEq, Eq, Structural)]
pub struct MediaInfo {
    pub id: MediaId,
    pub sample_rate: u32,
    pub channel_count: usize,
    pub frame_count: u64,
}

/// The media a composition reads from, by id.
#[derive(Debug, Clone)]
pub struct MediaPool {
    next_id: u64,
    media: HashMap<u64, MediaInfo>,
}

impl MediaPool {
    /// The media by id.
    pub closed spec fn entries(&self) -> Map<u64, MediaInfo> {
        self.media@
    }

    /// The highest id handed out or seen.
    pub closed spec fn next_id_spec(&self) -> u64 {
        self.next_id
    }

    /// Each entry is filed under its own id, which is not zero.
    pub open spec fn wf(&self) -> bool {
        forall|k: u64| #[trigger] self.entries().contains_key(k) ==> self.entries()[k].id.0 == k && k != 0
    }

    pub fn new() -> (p: MediaPool)
        ensures
            p.wf(),
            p.entries() == Map::<u64, MediaInfo>::empty(),
            p.next_id_spec() == 0,
    {
        MediaPool { next_id: 0, media: HashMap::new() }
    }

    /// Adds `media`, giving it the next free id if it has id 0; returns its id.
    pub fn insert(&mut self, media: MediaInfo) -> (id: MediaId)
        requires
            old(self).wf(),
            media.id.0 == 0 ==> old(self).next_id_spec() < u64::MAX,
        ensures
            final(self).wf(),
            media.id.0 == 0 ==> id.0 == old(self).next_id_spec() + 1 && final(self).next_id_spec() == id.0,
            media.id.0 != 0 ==> id == media.id && final(self).next_id_spec() == if old(self).next_id_spec()
                < media.id.0 {
                media.id.0
            } else {
                old(self).next_id_spec()
            },
            final(self).entries() == old(self).entries().insert(id.0, MediaInfo { id, ..media }),
    {
        let mut media = media;
        if media.id.0 == 0 {
            self.next_id = self.next_id + 1;
            media.id = MediaId(self.next_id);
        } else if self.next_id < media.id.0 {
            self.next_id = media.id.0;
        }
        let id = media.id;
        let ghost before = self.media@;
        self.media.insert(id.0, media);
        proof {
            assert forall|k: u64| #[trigger] self.media@.contains_key(k) implies self.media@[k].id.0 == k && k != 0 by {
                if k != id.0 {
                    assert(before == old(self).entries());
                    assert(old(self).entries().contains_key(k));
                    assert(self.media@[k] == before[k]);
                } else {
                    assert(self.media@[k] == media);
                }
            }
        }
        id
    }

    /// Whether `media` can be added: one without an id needs a free one.
    pub fn can_insert(&self, media: &MediaInfo) -> (b: bool)
        ensures
            b == (media.id.0 != 0 || self.next_id_spec() < u64::MAX),
    {
        media.id.0 != 0 || self.next_id < u64::MAX
    }

    pub fn get(&self, id: MediaId) -> (r: Option<&MediaInfo>)
        ensures
            r is Some == self.entries().contains_key(id.0),
            r matches Some(m) ==> *m == self.entries()[id.0],
    {
        self.media.get(&id.0)
    }

    pub fn is_empty(&self) -> (b: bool)
        ensures
            b == (self.entries().dom().len() == 0),
    {
        self.media.is_empty()
    }

    /// The media with the lowest id, if any.
    pub fn first(&self) -> (r: Option<MediaInfo>)
        requires
            self.wf(),
        ensures
            r is None <==> self.entries().dom().len() == 0,
            r matches Some(m) ==> self.entries().contains_key(m.id.0) && self.entries()[m.id.0] == m && forall|k: u64|
                #[trigger] self.entries().contains_key(k) ==> m.id.0 <= k,
    {
        let mut best: Option<u64> = None;
        for pair in it: self.media.iter()
            invariant
                best matches Some(b) ==> self.media@.contains_key(b),
                best is None <==> it.index() == 0,
                forall|i: int| 0 <= i < it.index() ==> (best matches Some(b) && b <= *(#[trigger] it.seq()[i]).0),
                it.seq() == vstd::std_specs::hash::spec_hash_map_iter(&self.media).remaining(),
        {
            let (k, _) = pair;
            best = match best {
                Some(b) => if *k < b {
                    Some(*k)
                } else {
                    Some(b)
                },
                None => Some(*k),
            };
        }
        match best {
            Some(b) => {
                proof {
                    let v = vstd::std_specs::hash::spec_hash_map_iter(&self.media).remaining();
                    assert forall|k: u64| #[trigger] self.media@.contains_key(k) implies b <= k by {
                        assert(v.contains((&k, &self.media@[k])));
                        let i = choose|i: int| 0 <= i < v.len() && v[i] == (&k, &self.media@[k]);
                        assert(b <= *v[i].0);
                    }
                }
                match self.media.get(&b) {
                    Some(m) => Some(*m),
                    None => None,
                }
            },
            None => {
                proof {
                    let v = vstd::std_specs::hash::spec_hash_map_iter(&self.media).remaining();
                    assert(v.len() == 0);
                    assert(self.media@.dom().len() == 0);
                }
                None
            },
        }
    }
}

/// `v` ordered by id, strictly.
pub open spec fn sorted_by_id(v: Seq<MediaInfo>) -> bool {
    forall|i: int, j: int| 0 <= i < j < v.len() ==> (#[trigger] v[i]).id.0 < (#[trigger] v[j]).id.0
}

impl MediaPool {
    /// The media, ordered by id.
    pub fn into_refs(&self) -> (v: Vec<MediaInfo>)
        requires
            self.wf(),
        ensures
            sorted_by_id(v@),
            v@.len() == self.entries().dom().len(),
            forall|i: int| 0 <= i < v@.len() ==> self.entries().contains_key((#[trigger] v@[i]).id.0) && self.entries()[v@[i].id.0] == v@[i],
            forall|k: u64| #[trigger] self.entries().contains_key(k) ==> exists|i: int| 0 <= i < v@.len() && v@[i].id.0 == k,
    {
        let ghost m = self.media@;
        let ghost vs = vstd::std_specs::hash::spec_hash_map_iter(&self.media).remaining();
        let mut out: Vec<MediaInfo> = Vec::new();
        for pair in it: self.media.iter()
            invariant
                it.seq() == vs,
                vs == vstd::std_specs::hash::spec_hash_map_iter(&self.media).remaining(),
                m == self.media@,
                self.wf(),
                sorted_by_id(out@),
                out@.len() == it.index(),
                forall|i: int| 0 <= i < out@.len() ==> m.contains_key((#[trigger] out@[i]).id.0) && m[out@[i].id.0] == out@[i],
                forall|j: int| 0 <= j < out@.len() ==> exists|i: int| 0 <= i < out@.len() && out@[i].id.0 == *(#[trigger] vs[j]).0,
                forall|i: int| #![trigger out@[i]] 0 <= i < out@.len() ==> exists|j: int| 0 <= j < out@.len() && out@[i].id.0 == *(#[trigger] vs[j]).0,
                vs.no_duplicates(),
        {
            let (k, v) = pair;
            let ghost idx = it.index() as int;
            proof {
                assert(pair == vs[idx]);
                assert(self.media@.contains_key(*vs[idx].0));
                assert(m.contains_key(*k) && m[*k] == *v);
                assert(self.entries().contains_key(*k));
                assert(v.id.0 == *k);
                assert forall|i: int| 0 <= i < out@.len() implies (#[trigger] out@[i]).id.0 != *k by {
                    let j = choose|j: int| 0 <= j < out@.len() && out@[i].id.0 == *vs[j].0;
                    if *vs[j].0 == *k {
                        assert(self.media@.contains_key(*vs[j].0));
                        assert(m[*vs[j].0] == *vs[j].1);
                        assert(vs[j] == vs[idx]);
                    }
                }
            }
            let mut p: usize = out.len();
            while p > 0 && out[p - 1].id.0 > v.id.0
                invariant
                    p <= out@.len(),
                    forall|q: int| p <= q < out@.len() ==> (#[trigger] out@[q]).id.0 > v.id.0,
                decreases p,
            {
                p -= 1;
            }
            let ghost before = out@;
            out.insert(p, *v);
            proof {
                assert(out@ =~= before.insert(p as int, *v));
                lemma_media_insert_sorted(before, *v, p as int);
                lemma_media_insert_in_map(before, *v, p as int, m);
                lemma_media_insert_covers(before, *v, p as int, vs);
                lemma_media_insert_from(before, *v, p as int, vs);
            }
        }
        proof {
            assert forall|k: u64| #[trigger] m.contains_key(k) implies exists|i: int| 0 <= i < out@.len() && out@[i].id.0 == k by {
                assert(vs.contains((&k, &m[k])));
                let j = choose|j: int| 0 <= j < vs.len() && vs[j] == (&k, &m[k]);
                assert(*vs[j].0 == k);
            }
        }
        out
    }
}

/// Inserting the next media in id order keeps the list sorted.
proof fn lemma_media_insert_sorted(before: Seq<MediaInfo>, v: MediaInfo, p: int)
    requires
        0 <= p <= before.len(),
        sorted_by_id(before),
        forall|q: int| p <= q < before.len() ==> (#[trigger] before[q]).id.0 > v.id.0,
        forall|i: int| 0 <= i < before.len() ==> (#[trigger] before[i]).id.0 != v.id.0,
        p > 0 ==> before[p - 1].id.0 <= v.id.0,
    ensures
        sorted_by_id(before.insert(p, v)),
{
    let after = before.insert(p, v);
    before.insert_ensures(p, v);
    assert forall|i: int, j: int| 0 <= i < j < after.len() implies (#[trigger] after[i]).id.0 < (#[trigger] after[j]).id.0 by {
        if j < p {
            assert(after[i] == before[i] && after[j] == before[j]);
        } else if j == p {
            assert(after[i] == before[i]);
            if i < p - 1 {
                assert(before[i].id.0 < before[p - 1].id.0);
            }
            assert(before[i].id.0 != v.id.0);
        } else if i < p {
            assert(after[i] == before[i] && after[j] == before[j - 1]);
        } else if i == p {
            assert(after[j] == before[j - 1]);
        } else {
            assert(after[i] == before[i - 1] && after[j] == before[j - 1]);
        }
    }
}

proof fn lemma_media_insert_in_map(before: Seq<MediaInfo>, v: MediaInfo, p: int, m: Map<u64, MediaInfo>)
    requires
        0 <= p <= before.len(),
        m.contains_key(v.id.0) && m[v.id.0] == v,
        forall|i: int| 0 <= i < before.len() ==> m.contains_key((#[trigger] before[i]).id.0) && m[before[i].id.0] == before[i],
    ensures
        forall|i: int| 0 <= i < before.insert(p, v).len() ==> m.contains_key((#[trigger] before.insert(p, v)[i]).id.0) && m[before.insert(p, v)[i].id.0] == before.insert(p, v)[i],
{
    let after = before.insert(p, v);
    before.insert_ensures(p, v);
    assert forall|i: int| 0 <= i < after.len() implies m.contains_key((#[trigger] after[i]).id.0) && m[after[i].id.0] == after[i] by {
        if i < p {
            assert(after[i] == before[i]);
        } else if i > p {
            assert(after[i] == before[i - 1]);
        }
    }
}

proof fn lemma_media_insert_covers(before: Seq<MediaInfo>, v: MediaInfo, p: int, vs: Seq<(&u64, &MediaInfo)>)
    requires
        0 <= p <= before.len(),
        before.len() < vs.len(),
        *vs[before.len() as int].0 == v.id.0,
        forall|j: int| 0 <= j < before.len() ==> exists|i: int| 0 <= i < before.len() && before[i].id.0 == *(#[trigger] vs[j]).0,
    ensures
        forall|j: int| 0 <= j < before.insert(p, v).len() ==> exists|i: int| 0 <= i < before.insert(p, v).len() && before.insert(p, v)[i].id.0 == *(#[trigger] vs[j]).0,
{
    let after = before.insert(p, v);
    let n = before.len() as int;
    before.insert_ensures(p, v);
    assert forall|j: int| 0 <= j < after.len() implies exists|i: int| 0 <= i < after.len() && after[i].id.0 == *(#[trigger] vs[j]).0 by {
        if j == n {
            assert(after[p].id.0 == *vs[j].0);
        } else {
            let i = choose|i: int| 0 <= i < before.len() && before[i].id.0 == *vs[j].0;
            if i < p {
                assert(after[i] == before[i]);
            } else {
                assert(after[i + 1] == before[i]);
            }
        }
    }
}

proof fn lemma_media_insert_from(before: Seq<MediaInfo>, v: MediaInfo, p: int, vs: Seq<(&u64, &MediaInfo)>)
    requires
        0 <= p <= before.len(),
        before.len() < vs.len(),
        *vs[before.len() as int].0 == v.id.0,
        forall|i: int| #![trigger before[i]] 0 <= i < before.len() ==> exists|j: int| 0 <= j < before.len() && before[i].id.0 == *(#[trigger] vs[j]).0,
    ensures
        forall|i: int| #![trigger before.insert(p, v)[i]] 0 <= i < before.insert(p, v).len() ==> exists|j: int| 0 <= j < before.insert(p, v).len() && before.insert(p, v)[i].id.0 == *(#[trigger] vs[j]).0,
{
    let after = before.insert(p, v);
    let n = before.len() as int;
    before.insert_ensures(p, v);
    assert forall|i: int| #![trigger after[i]] 0 <= i < after.len() implies exists|j: int| 0 <= j < after.len() && after[i].id.0 == *(#[trigger] vs[j]).0 by {
        if i == p {
            assert(after[i].id.0 == *vs[n].0);
        } else {
            let bi = if i < p { i } else { i - 1 };
            assert(after[i] == before[bi]);
            let j = choose|j: int| 0 <= j < before.len() && before[bi].id.0 == *vs[j].0;
            assert(after[i].id.0 == *vs[j].0);
        }
    }
}

} // verus!
