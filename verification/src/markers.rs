use vstd::prelude::*;

use crate::edit_op::EditOp;
use crate::edit_ranges::{
    map_point_if_kept,
    map_point_if_kept_inverse,
    map_point_if_kept_inverse_spec,
    map_point_if_kept_spec,
};
use crate::text::{
    compare_str,
    lemma_lt_from_irreflexive,
    lemma_lt_from_transitive,
    str_lt,
    string_of,
};

verus! {

pub const MARKER_TYPE_BLUE: &'static str = "Blue";

pub const MARKER_TYPE_YELLOW: &'static str = "Yellow";

pub const MARKER_TYPE_PURPLE: &'static str = "Purple";

/// The RGBA color a built-in marker type is drawn in, as the bit patterns
/// of four `f32` components; `None` for other types.
pub open spec fn marker_type_color_spec(name: Seq<char>) -> Option<[u32; 4]> {
    if name == "Blue"@ {
        Some([0x3e6ceced, 0x3f028283, 0x3f76f6f7, 0x3f800000])
    } else if name == "Yellow"@ {
        Some([0x3f6aeaeb, 0x3f33b3b4, 0x3d008081, 0x3f800000])
    } else if name == "Purple"@ {
        Some([0x3f28a8a9, 0x3eaaaaab, 0x3f77f7f8, 0x3f800000])
    } else {
        None
    }
}

/// The color of a built-in marker type; `None` for other types.
pub fn marker_type_color(name: &str) -> (r: Option<[u32; 4]>)
    ensures
        r == marker_type_color_spec(name@),
{
    if crate::text::str_equals(name, MARKER_TYPE_BLUE) {
        Some([0x3e6ceced, 0x3f028283, 0x3f76f6f7, 0x3f800000])
    } else if crate::text::str_equals(name, MARKER_TYPE_YELLOW) {
        Some([0x3f6aeaeb, 0x3f33b3b4, 0x3d008081, 0x3f800000])
    } else if crate::text::str_equals(name, MARKER_TYPE_PURPLE) {
        Some([0x3f28a8a9, 0x3eaaaaab, 0x3f77f7f8, 0x3f800000])
    } else {
        None
    }
}

/// The marker type used when none is given.
pub fn default_marker_type() -> (s: &'static str)
    ensures
        s@ == "Blue"@,
{
    "Blue"
}

#[derive(Debug, Clone, Copy, PartialEq, Eq, Hash, Structural)]
pub struct MarkerId(pub u64);

/// A user marker on the timeline. `color` holds the bit patterns of the four
/// `f32` RGBA components, which the list only carries.
#[derive(Debug, Clone)]
pub struct Marker {
    pub id: MarkerId,
    pub frame: u64,
    pub marker_type: String,
    pub color: [u32; 4],
    pub note: Option<String>,
}

/// The key a marker is ordered and found by: its frame, then its type.
pub open spec fn mkey(m: Marker) -> (u64, Seq<char>) {
    (m.frame, m.marker_type@)
}

/// Frame first, then type in string order.
pub open spec fn key_lt(a: (u64, Seq<char>), b: (u64, Seq<char>)) -> bool {
    a.0 < b.0 || (a.0 == b.0 && str_lt(a.1, b.1))
}

pub open spec fn sorted_by_key(ms: Seq<Marker>) -> bool {
    forall|i: int, j: int| 0 <= i < j < ms.len() ==> key_lt(mkey(#[trigger] ms[i]), mkey(#[trigger] ms[j]))
}

pub open spec fn ids_distinct(ms: Seq<Marker>) -> bool {
    forall|i: int, j: int| 0 <= i < j < ms.len() ==> (#[trigger] ms[i]).id != (#[trigger] ms[j]).id
}

pub open spec fn has_key(ms: Seq<Marker>, k: (u64, Seq<char>)) -> bool {
    exists|i: int| 0 <= i < ms.len() && mkey(#[trigger] ms[i]) == k
}

pub open spec fn has_marker_id(ms: Seq<Marker>, id: MarkerId) -> bool {
    exists|i: int| 0 <= i < ms.len() && (#[trigger] ms[i]).id == id
}

/// How many markers of `ms` sort before key `k`.
pub open spec fn rank(ms: Seq<Marker>, k: (u64, Seq<char>)) -> nat
    decreases ms.len(),
{
    if ms.len() == 0 {
        0
    } else {
        rank(ms.drop_last(), k) + if key_lt(mkey(ms.last()), k) {
            1nat
        } else {
            0nat
        }
    }
}

/// `ms` with `m` put in its place by key, unless a marker with its key is there.
pub open spec fn insert_sorted_spec(ms: Seq<Marker>, m: Marker) -> Seq<Marker> {
    if has_key(ms, mkey(m)) {
        ms
    } else {
        ms.insert(rank(ms, mkey(m)) as int, m)
    }
}

/// `m` moved to `frame`.
pub open spec fn at_frame(m: Marker, frame: u64) -> Marker {
    Marker { frame, ..m }
}

/// The first `n` markers of `ms` mapped through `op` (or its inverse) and
/// re-inserted in order: dropped points are left out, and a marker whose new
/// key is already taken is left out too.
pub open spec fn remap_prefix(ms: Seq<Marker>, op: EditOp, inverse: bool, n: nat) -> Seq<Marker>
    decreases n,
{
    if n == 0 {
        seq![]
    } else {
        let acc = remap_prefix(ms, op, inverse, (n - 1) as nat);
        let m = ms[n - 1];
        let mapped = if inverse {
            map_point_if_kept_inverse_spec(m.frame, op)
        } else {
            map_point_if_kept_spec(m.frame, op)
        };
        match mapped {
            Some(f) => insert_sorted_spec(acc, at_frame(m, f)),
            None => acc,
        }
    }
}

/// The markers of `ms` given in order, each kept unless its key is taken.
pub open spec fn from_seq_prefix(ms: Seq<Marker>, n: nat) -> Seq<Marker>
    decreases n,
{
    if n == 0 {
        seq![]
    } else {
        insert_sorted_spec(from_seq_prefix(ms, (n - 1) as nat), ms[n - 1])
    }
}

/// Every marker of `s` sorts before `k`: all of them count.
proof fn lemma_rank_all_before(s: Seq<Marker>, k: (u64, Seq<char>))
    requires
        forall|i: int| 0 <= i < s.len() ==> key_lt(mkey(#[trigger] s[i]), k),
    ensures
        rank(s, k) == s.len(),
    decreases s.len(),
{
    if s.len() > 0 {
        assert(key_lt(mkey(s[s.len() - 1]), k));
        lemma_rank_all_before(s.drop_last(), k);
    }
}

/// Filing the markers of a list sorted by key one by one gives the list back.
pub proof fn lemma_from_sorted_prefix(ms: Seq<Marker>, n: nat)
    requires
        sorted_by_key(ms),
        n <= ms.len(),
    ensures
        from_seq_prefix(ms, n) == ms.take(n as int),
    decreases n,
{
    if n == 0 {
        assert(ms.take(0) =~= Seq::<Marker>::empty());
    } else {
        let p = (n - 1) as nat;
        lemma_from_sorted_prefix(ms, p);
        let before = ms.take(p as int);
        let m = ms[p as int];
        assert forall|i: int| 0 <= i < before.len() implies key_lt(mkey(#[trigger] before[i]), mkey(m)) by {
            assert(before[i] == ms[i]);
        }
        if has_key(before, mkey(m)) {
            let i = choose|i: int| 0 <= i < before.len() && mkey(#[trigger] before[i]) == mkey(m);
            assert(key_lt(mkey(before[i]), mkey(m)));
            crate::text::lemma_lt_from_irreflexive(mkey(m).1, 0);
            assert(false);
        }
        lemma_rank_all_before(before, mkey(m));
        assert(before.insert(p as int, m) =~= ms.take(n as int));
    }
}

/// The markers of `ms` not at `frame`, in order.
pub open spec fn without_frame(ms: Seq<Marker>, frame: u64) -> Seq<Marker>
    decreases ms.len(),
{
    if ms.len() == 0 {
        seq![]
    } else {
        let rest = without_frame(ms.drop_last(), frame);
        if ms.last().frame == frame {
            rest
        } else {
            rest.push(ms.last())
        }
    }
}

// ---------------------------------------------------------------------------
// Key order
// ---------------------------------------------------------------------------

proof fn lemma_key_irreflexive(a: (u64, Seq<char>))
    ensures
        !key_lt(a, a),
{
    lemma_lt_from_irreflexive(a.1, 0);
}

proof fn lemma_key_transitive(a: (u64, Seq<char>), b: (u64, Seq<char>), c: (u64, Seq<char>))
    requires
        key_lt(a, b),
        key_lt(b, c),
    ensures
        key_lt(a, c),
{
    if a.0 == b.0 && b.0 == c.0 {
        lemma_lt_from_transitive(a.1, b.1, c.1, 0);
    }
}

proof fn lemma_key_asymmetric(a: (u64, Seq<char>), b: (u64, Seq<char>))
    requires
        key_lt(a, b),
    ensures
        !key_lt(b, a),
        a != b,
{
    lemma_key_irreflexive(a);
    if key_lt(b, a) {
        lemma_key_transitive(a, b, a);
    }
}

/// Compares the keys `(fa, ta)` and `(fb, tb)`: `-1`, `0` or `1`.
fn compare_key(fa: u64, ta: &str, fb: u64, tb: &str) -> (r: i8)
    ensures
        r == -1 <==> key_lt((fa, ta@), (fb, tb@)),
        r == 0 <==> (fa, ta@) == (fb, tb@),
        r == 1 <==> key_lt((fb, tb@), (fa, ta@)),
        r == -1 || r == 0 || r == 1,
{
    if fa < fb {
        -1
    } else if fa > fb {
        1
    } else {
        compare_str(ta, tb)
    }
}

// ---------------------------------------------------------------------------
// Sorted insertion
// ---------------------------------------------------------------------------

proof fn lemma_rank_prefix(ms: Seq<Marker>, k: (u64, Seq<char>), p: int)
    requires
        0 <= p <= ms.len(),
        forall|i: int| 0 <= i < p ==> key_lt(mkey(#[trigger] ms[i]), k),
        forall|i: int| p <= i < ms.len() ==> !key_lt(mkey(#[trigger] ms[i]), k),
    ensures
        rank(ms, k) == p,
    decreases ms.len(),
{
    if ms.len() > 0 {
        let t = ms.drop_last();
        if p == ms.len() {
            assert forall|i: int| 0 <= i < p - 1 implies key_lt(mkey(#[trigger] t[i]), k) by {
                assert(t[i] == ms[i]);
            }
            lemma_rank_prefix(t, k, p - 1);
        } else {
            assert forall|i: int| 0 <= i < p implies key_lt(mkey(#[trigger] t[i]), k) by {
                assert(t[i] == ms[i]);
            }
            assert forall|i: int| p <= i < t.len() implies !key_lt(mkey(#[trigger] t[i]), k) by {
                assert(t[i] == ms[i]);
            }
            lemma_rank_prefix(t, k, p);
        }
    }
}

proof fn lemma_rank_le_len(ms: Seq<Marker>, k: (u64, Seq<char>))
    ensures
        rank(ms, k) <= ms.len(),
    decreases ms.len(),
{
    if ms.len() > 0 {
        lemma_rank_le_len(ms.drop_last(), k);
    }
}

/// A strictly sorted sequence whose markers all come from `src`, whose ids
/// are distinct, has distinct ids.
proof fn lemma_ids_from_source(xs: Seq<Marker>, src: Seq<Marker>, n: int)
    requires
        0 <= n <= src.len(),
        sorted_by_key(xs),
        ids_distinct(src),
        forall|a: int| 0 <= a < xs.len() ==> exists|j: int| 0 <= j < n && (#[trigger] xs[a]) == src[j],
    ensures
        ids_distinct(xs),
{
    assert forall|a: int, b: int| 0 <= a < b < xs.len() implies (#[trigger] xs[a]).id != (#[trigger] xs[b]).id by {
        let ja = choose|j: int| 0 <= j < n && xs[a] == src[j];
        let jb = choose|j: int| 0 <= j < n && xs[b] == src[j];
        if ja == jb {
            lemma_key_asymmetric(mkey(xs[a]), mkey(xs[b]));
        } else if ja < jb {
            assert(src[ja].id != src[jb].id);
        } else {
            assert(src[jb].id != src[ja].id);
        }
    }
}

proof fn lemma_sorted_insert(ms: Seq<Marker>, p: int, m: Marker)
    requires
        0 <= p <= ms.len(),
        sorted_by_key(ms),
        forall|i: int| 0 <= i < p ==> key_lt(mkey(#[trigger] ms[i]), mkey(m)),
        forall|i: int| p <= i < ms.len() ==> key_lt(mkey(m), mkey(#[trigger] ms[i])),
    ensures
        sorted_by_key(ms.insert(p, m)),
{
    let r = ms.insert(p, m);
    assert forall|i: int, j: int| 0 <= i < j < r.len() implies key_lt(
        mkey(#[trigger] r[i]),
        mkey(#[trigger] r[j]),
    ) by {
        if i < p && j < p {
            assert(r[i] == ms[i] && r[j] == ms[j]);
        } else if i < p && j == p {
            assert(r[i] == ms[i]);
        } else if i < p && j > p {
            assert(r[i] == ms[i] && r[j] == ms[j - 1]);
        } else if i == p {
            assert(r[j] == ms[j - 1]);
        } else {
            assert(r[i] == ms[i - 1] && r[j] == ms[j - 1]);
        }
    }
}

/// Puts `m` into `ms` in key order, unless its key is taken; returns whether it went in.
fn insert_sorted(ms: &mut Vec<Marker>, m: Marker) -> (inserted: bool)
    requires
        sorted_by_key(old(ms)@),
    ensures
        inserted == !has_key(old(ms)@, mkey(m)),
        final(ms)@ == insert_sorted_spec(old(ms)@, m),
        sorted_by_key(final(ms)@),
{
    let ghost k = mkey(m);
    let mut p: usize = 0;
    let n = ms.len();
    while p < n
        invariant
            p <= n,
            n == ms@.len(),
            k == mkey(m),
            ms@ == old(ms)@,
            sorted_by_key(ms@),
            forall|i: int| 0 <= i < p ==> key_lt(mkey(#[trigger] ms@[i]), k),
        ensures
            p < n ==> !key_lt(mkey(ms@[p as int]), k),
        decreases n - p,
    {
        let cur = &ms[p];
        let ta = cur.marker_type.as_str();
        let tb = m.marker_type.as_str();
        let c = compare_key(cur.frame, ta, m.frame, tb);
        assert(mkey(ms@[p as int]) == (cur.frame, ta@));
        assert(k == (m.frame, tb@));
        if c != -1 {
            break;
        }
        p += 1;
    }
    let ghost old_ms = ms@;
    proof {
        assert forall|i: int| p <= i < old_ms.len() implies !key_lt(mkey(#[trigger] old_ms[i]), k) by {
            if i > p {
                lemma_key_asymmetric(mkey(old_ms[p as int]), mkey(old_ms[i]));
                if key_lt(mkey(old_ms[i]), k) {
                    lemma_key_transitive(mkey(old_ms[p as int]), mkey(old_ms[i]), k);
                }
            }
        }
        lemma_rank_prefix(old_ms, k, p as int);
    }
    if p < n {
        let c = compare_key(ms[p].frame, ms[p].marker_type.as_str(), m.frame, m.marker_type.as_str());
        if c == 0 {
            proof {
                assert(has_key(old_ms, k));
            }
            return false;
        }
        proof {
            assert(key_lt(k, mkey(old_ms[p as int])));
        }
    }
    proof {
        assert forall|i: int| p <= i < old_ms.len() implies key_lt(k, mkey(#[trigger] old_ms[i])) by {
            if i > p {
                lemma_key_transitive(k, mkey(old_ms[p as int]), mkey(old_ms[i]));
            }
        }
        assert forall|i: int| 0 <= i < old_ms.len() implies mkey(#[trigger] old_ms[i]) != k by {
            if i < p {
                lemma_key_asymmetric(mkey(old_ms[i]), k);
            } else {
                lemma_key_asymmetric(k, mkey(old_ms[i]));
            }
        }
        lemma_sorted_insert(old_ms, p as int, m);
    }
    ms.insert(p, m);
    true
}

// ---------------------------------------------------------------------------
// The list
// ---------------------------------------------------------------------------

/// Time-ordered marker store: at most one marker per frame and type, ordered
/// by frame, then type.
#[derive(Debug, Clone)]
pub struct MarkerList {
    markers: Vec<Marker>,
    next_id: u64,
    generation: u64,
}

/// A copy of `m`.
fn copy_marker(m: &Marker) -> (r: Marker)
    ensures
        r == *m,
{
    Marker {
        id: m.id,
        frame: m.frame,
        marker_type: m.marker_type.clone(),
        color: m.color,
        note: match &m.note {
            Some(n) => Some(n.clone()),
            None => None,
        },
    }
}

impl MarkerList {
    /// The markers in order.
    pub closed spec fn items(&self) -> Seq<Marker> {
        self.markers@
    }

    /// The id the next inserted marker gets.
    pub closed spec fn next_id_spec(&self) -> u64 {
        self.next_id
    }

    /// A counter that changes on every change of the list.
    pub closed spec fn generation_spec(&self) -> u64 {
        self.generation
    }

    pub open spec fn wf(&self) -> bool {
        &&& sorted_by_key(self.items())
        &&& ids_distinct(self.items())
        &&& self.next_id_spec() >= 1
        &&& forall|i: int|
            0 <= i < self.items().len() ==> (#[trigger] self.items()[i]).id.0 < self.next_id_spec()
                || self.next_id_spec() == u64::MAX
    }

    /// The marker with id `id`, if any.
    pub open spec fn lookup(&self, id: MarkerId) -> Option<Marker> {
        if has_marker_id(self.items(), id) {
            Some(self.items()[choose|i: int| 0 <= i < self.items().len() && self.items()[i].id == id])
        } else {
            None
        }
    }

    pub fn new() -> (l: Self)
        ensures
            l.wf(),
            l.items() == Seq::<Marker>::empty(),
            l.next_id_spec() == 1,
            l.generation_spec() == 0,
    {
        MarkerList { markers: Vec::new(), next_id: 1, generation: 0 }
    }

    pub fn len(&self) -> (n: usize)
        ensures
            n == self.items().len(),
    {
        self.markers.len()
    }

    pub fn generation(&self) -> (g: u64)
        ensures
            g == self.generation_spec(),
    {
        self.generation
    }

    fn bump(&mut self)
        ensures
            final(self).markers == old(self).markers,
            final(self).next_id == old(self).next_id,
            final(self).generation == old(self).generation.wrapping_add(1),
    {
        self.generation = self.generation.wrapping_add(1);
    }

    pub fn is_empty(&self) -> (b: bool)
        ensures
            b == (self.items().len() == 0),
    {
        self.markers.len() == 0
    }

    fn index_of_id(&self, id: MarkerId) -> (r: Option<usize>)
        requires
            self.wf(),
        ensures
            r is None <==> !has_marker_id(self.items(), id),
            r matches Some(i) ==> i < self.items().len() && self.items()[i as int].id == id,
    {
        let mut i: usize = 0;
        while i < self.markers.len()
            invariant
                i <= self.markers.len(),
                forall|j: int| 0 <= j < i ==> (#[trigger] self.markers@[j]).id != id,
            decreases self.markers.len() - i,
        {
            if self.markers[i].id == id {
                return Some(i);
            }
            i += 1;
        }
        None
    }

    proof fn lemma_lookup(&self, id: MarkerId, i: int)
        requires
            self.wf(),
            0 <= i < self.items().len(),
            self.items()[i].id == id,
        ensures
            self.lookup(id) == Some(self.items()[i]),
    {
        let c = choose|c: int| 0 <= c < self.items().len() && self.items()[c].id == id;
        assert(0 <= c < self.items().len() && self.items()[c].id == id);
        if c != i {
            if c < i {
                assert(self.items()[c].id != self.items()[i].id);
            } else {
                assert(self.items()[i].id != self.items()[c].id);
            }
        }
    }

    /// The marker with id `id`.
    pub fn get(&self, id: MarkerId) -> (r: Option<&Marker>)
        requires
            self.wf(),
        ensures
            r is Some == self.lookup(id) is Some,
            r matches Some(m) ==> *m == self.lookup(id)->Some_0,
    {
        match self.index_of_id(id) {
            Some(i) => {
                proof {
                    self.lemma_lookup(id, i as int);
                }
                Some(&self.markers[i])
            },
            None => None,
        }
    }

    fn index_of_key(&self, frame: u64, marker_type: &str) -> (r: Option<usize>)
        requires
            self.wf(),
        ensures
            r is None <==> !has_key(self.items(), (frame, marker_type@)),
            r matches Some(i) ==> i < self.items().len() && mkey(self.items()[i as int]) == (
                frame,
                marker_type@,
            ),
    {
        let mut i: usize = 0;
        while i < self.markers.len()
            invariant
                i <= self.markers.len(),
                forall|j: int| 0 <= j < i ==> mkey(#[trigger] self.markers@[j]) != (frame, marker_type@),
            decreases self.markers.len() - i,
        {
            if compare_key(self.markers[i].frame, self.markers[i].marker_type.as_str(), frame, marker_type) == 0 {
                return Some(i);
            }
            i += 1;
        }
        None
    }

    /// The marker of type `marker_type` at `frame`.
    pub fn get_at_type(&self, frame: u64, marker_type: &str) -> (r: Option<&Marker>)
        requires
            self.wf(),
        ensures
            r is Some == has_key(self.items(), (frame, marker_type@)),
            r matches Some(m) ==> mkey(*m) == (frame, marker_type@) && self.items().contains(*m),
    {
        match self.index_of_key(frame, marker_type) {
            Some(i) => Some(&self.markers[i]),
            None => None,
        }
    }

    /// The markers at `frame`, in type order.
    pub fn at_frame(&self, frame: u64) -> (r: Vec<&Marker>)
        requires
            self.wf(),
        ensures
            r@.len() <= self.items().len(),
            forall|i: int| 0 <= i < r@.len() ==> (#[trigger] r@[i]).frame == frame,
            r@.map_values(|m: &Marker| *m) == self.items().filter(|m: Marker| m.frame == frame),
    {
        let mut out: Vec<&Marker> = Vec::new();
        let mut i: usize = 0;
        while i < self.markers.len()
            invariant
                i <= self.markers.len(),
                out@.len() <= i,
                forall|j: int| 0 <= j < out@.len() ==> (#[trigger] out@[j]).frame == frame,
                out@.map_values(|m: &Marker| *m) == self.markers@.take(i as int).filter(
                    |m: Marker| m.frame == frame,
                ),
            decreases self.markers.len() - i,
        {
            proof {
                reveal_with_fuel(Seq::<Marker>::filter, 1);
                assert(self.markers@.take(i + 1).drop_last() =~= self.markers@.take(i as int));
            }
            if self.markers[i].frame == frame {
                out.push(&self.markers[i]);
                proof {
                    assert(out@.map_values(|m: &Marker| *m) =~= self.markers@.take(i as int).filter(
                        |m: Marker| m.frame == frame,
                    ).push(self.markers@[i as int]));
                }
            }
            i += 1;
        }
        proof {
            assert(self.markers@.take(self.markers.len() as int) =~= self.markers@);
        }
        out
    }

    /// The first marker at `frame`.
    pub fn get_at(&self, frame: u64) -> (r: Option<&Marker>)
        requires
            self.wf(),
        ensures
            r is Some == (exists|i: int| 0 <= i < self.items().len() && (#[trigger] self.items()[i]).frame == frame),
            r matches Some(m) ==> exists|i: int|
                0 <= i < self.items().len() && self.items()[i] == *m && m.frame == frame && forall|j: int|
                    0 <= j < i ==> (#[trigger] self.items()[j]).frame != frame,
    {
        let mut i: usize = 0;
        while i < self.markers.len()
            invariant
                i <= self.markers.len(),
                forall|j: int| 0 <= j < i ==> (#[trigger] self.markers@[j]).frame != frame,
            decreases self.markers.len() - i,
        {
            if self.markers[i].frame == frame {
                return Some(&self.markers[i]);
            }
            i += 1;
        }
        None
    }

    /// Inserts a marker at `frame`. Returns `None` if that type already
    /// occupies the frame.
    pub fn insert(&mut self, frame: u64, marker_type: String, color: [u32; 4], note: Option<String>) -> (r: Option<MarkerId>)
        requires
            old(self).wf(),
            old(self).next_id_spec() < u64::MAX,
        ensures
            final(self).wf(),
            r is None <==> has_key(old(self).items(), (frame, marker_type@)),
            r is None ==> *final(self) == *old(self),
            r matches Some(id) ==> {
                &&& id == MarkerId(old(self).next_id_spec())
                &&& final(self).next_id_spec() == old(self).next_id_spec() + 1
                &&& final(self).generation_spec() == old(self).generation_spec().wrapping_add(1)
                &&& final(self).items() == insert_sorted_spec(
                    old(self).items(),
                    Marker { id, frame, marker_type, color, note },
                )
            },
    {
        if self.index_of_key(frame, marker_type.as_str()).is_some() {
            return None;
        }
        let id = MarkerId(self.next_id);
        self.next_id += 1;
        self.bump();
        let ghost before = self.markers@;
        let m = Marker { id, frame, marker_type, color, note };
        let inserted = insert_sorted(&mut self.markers, m);
        proof {
            let after = self.markers@;
            let p = rank(before, mkey(m)) as int;
            assert(!has_key(before, mkey(m)));
            lemma_rank_le_len(before, mkey(m));
            before.insert_ensures(p, m);
            assert(after == before.insert(p, m));
            assert forall|i: int, j: int| 0 <= i < j < after.len() implies (#[trigger] after[i]).id
                != (#[trigger] after[j]).id by {
                if i < p && j < p {
                    assert(after[i] == before[i] && after[j] == before[j]);
                } else if i < p && j == p {
                    assert(after[i] == before[i]);
                } else if i < p {
                    assert(after[i] == before[i] && after[j] == before[j - 1]);
                } else if i == p {
                    assert(after[j] == before[j - 1]);
                } else {
                    assert(after[i] == before[i - 1] && after[j] == before[j - 1]);
                }
            }
            assert forall|i: int| 0 <= i < after.len() implies (#[trigger] after[i]).id.0 < self.next_id
                || self.next_id == u64::MAX by {
                if i < p {
                    assert(after[i] == before[i]);
                } else if i > p {
                    assert(after[i] == before[i - 1]);
                }
            }
        }
        Some(id)
    }

    /// Removes the marker at index `i` and bumps the generation.
    fn remove_index(&mut self, i: usize)
        requires
            old(self).wf(),
            i < old(self).items().len(),
        ensures
            final(self).wf(),
            final(self).items() == old(self).items().remove(i as int),
            final(self).next_id_spec() == old(self).next_id_spec(),
            final(self).generation_spec() == old(self).generation_spec().wrapping_add(1),
    {
        let ghost before = self.markers@;
        self.markers.remove(i);
        self.bump();
        proof {
            let after = self.markers@;
            assert forall|a: int, b: int| 0 <= a < b < after.len() implies key_lt(
                mkey(#[trigger] after[a]),
                mkey(#[trigger] after[b]),
            ) && after[a].id != after[b].id by {
                let ba = if a < i { a } else { a + 1 };
                let bb = if b < i { b } else { b + 1 };
                assert(after[a] == before[ba] && after[b] == before[bb]);
            }
            assert forall|a: int| 0 <= a < after.len() implies (#[trigger] after[a]).id.0 < self.next_id
                || self.next_id == u64::MAX by {
                let ba = if a < i { a } else { a + 1 };
                assert(after[a] == before[ba]);
            }
        }
    }

    /// Removes the marker with id `id`; returns whether there was one.
    pub fn remove(&mut self, id: MarkerId) -> (removed: bool)
        requires
            old(self).wf(),
        ensures
            final(self).wf(),
            removed == has_marker_id(old(self).items(), id),
            !removed ==> *final(self) == *old(self),
            removed ==> exists|i: int|
                0 <= i < old(self).items().len() && old(self).items()[i].id == id
                    && final(self).items() == old(self).items().remove(i),
            removed ==> final(self).generation_spec() == old(self).generation_spec().wrapping_add(1),
            final(self).next_id_spec() == old(self).next_id_spec(),
    {
        match self.index_of_id(id) {
            Some(i) => {
                self.remove_index(i);
                true
            },
            None => false,
        }
    }

    /// Removes the marker of type `marker_type` at `frame`; returns whether there was one.
    pub fn remove_at_type(&mut self, frame: u64, marker_type: &str) -> (removed: bool)
        requires
            old(self).wf(),
        ensures
            final(self).wf(),
            removed == has_key(old(self).items(), (frame, marker_type@)),
            !removed ==> *final(self) == *old(self),
            removed ==> exists|i: int|
                0 <= i < old(self).items().len() && mkey(old(self).items()[i]) == (frame, marker_type@)
                    && final(self).items() == old(self).items().remove(i),
            removed ==> final(self).generation_spec() == old(self).generation_spec().wrapping_add(1),
            final(self).next_id_spec() == old(self).next_id_spec(),
    {
        match self.index_of_key(frame, marker_type) {
            Some(i) => {
                self.remove_index(i);
                true
            },
            None => false,
        }
    }

    /// Removes every marker at `frame`; returns whether there was one.
    pub fn remove_at(&mut self, frame: u64) -> (removed: bool)
        requires
            old(self).wf(),
        ensures
            final(self).wf(),
            removed == (exists|i: int| 0 <= i < old(self).items().len() && (#[trigger] old(self).items()[i]).frame == frame),
            final(self).items() == without_frame(old(self).items(), frame),
            final(self).next_id_spec() == old(self).next_id_spec(),
            final(self).generation_spec() as int == (old(self).generation_spec() + (old(self).items().len()
                - final(self).items().len())) % 0x1_0000_0000_0000_0000,
            !removed ==> *final(self) == *old(self),
    {
        let ghost start = self.markers@;
        let mut removed = false;
        let mut i: usize = self.markers.len();
        while i > 0
            invariant
                self.wf(),
                i <= self.markers@.len(),
                self.next_id == old(self).next_id,
                self.markers@.take(i as int) == start.take(i as int),
                self.markers@.skip(i as int) == without_frame(start.skip(i as int), frame),
                removed == (exists|j: int| i <= j < start.len() && (#[trigger] start[j]).frame == frame),
                !removed ==> *self == *old(self),
                start == old(self).items(),
                self.markers@.len() <= start.len(),
                self.generation as int == (old(self).generation + (start.len() - self.markers@.len()))
                    % 0x1_0000_0000_0000_0000,
            decreases i,
        {
            i -= 1;
            proof {
                assert(self.markers@[i as int] == start[i as int]) by {
                    assert(self.markers@.take(i + 1)[i as int] == start.take(i + 1)[i as int]);
                }
                lemma_without_frame_cons(start.skip(i as int), frame);
                assert(start.skip(i as int).drop_first() =~= start.skip(i + 1));
            }
            if self.markers[i].frame == frame {
                let ghost before = self.markers@;
                let ghost g = self.generation;
                self.remove_index(i);
                removed = true;
                proof {
                    let n = start.len() - before.len();
                    let m = 0x1_0000_0000_0000_0000int;
                    assert(g as int == (old(self).generation + n) % m);
                    assert(self.generation as int == (g as int + 1) % m);
                    vstd::arithmetic::div_mod::lemma_add_mod_noop(old(self).generation + n, 1, m);
                    vstd::arithmetic::div_mod::lemma_small_mod(1, m as nat);
                    vstd::arithmetic::div_mod::lemma_mod_twice(old(self).generation + n + 1, m);
                }
                proof {
                    assert(self.markers@.take(i as int) =~= before.take(i as int));
                    assert(self.markers@.skip(i as int) =~= before.skip(i + 1));
                }
            } else {
                proof {
                    assert(self.markers@.skip(i as int) =~= seq![start[i as int]] + self.markers@.skip(i + 1));
                }
            }
        }
        proof {
            assert(self.markers@.skip(0) =~= self.markers@);
            assert(start.skip(0) =~= start);
        }
        removed
    }

    /// The markers in order.
    pub fn to_vec(&self) -> (v: Vec<Marker>)
        ensures
            v@ == self.items(),
    {
        let mut v: Vec<Marker> = Vec::new();
        let mut i: usize = 0;
        while i < self.markers.len()
            invariant
                i <= self.markers.len(),
                v@ == self.markers@.take(i as int),
            decreases self.markers.len() - i,
        {
            v.push(copy_marker(&self.markers[i]));
            i += 1;
            proof {
                assert(v@ =~= self.markers@.take(i as int));
            }
        }
        proof {
            assert(v@ =~= self.markers@);
        }
        v
    }

    /// A list holding `markers`, keeping the first of any with the same frame
    /// and type; the next id is past every given id.
    /// The ids must be distinct: two markers under one id would leave the
    /// list with one marker filed under two keys, which no list holds.
    pub fn from_vec(markers: Vec<Marker>) -> (l: Self)
        requires
            ids_distinct(markers@),
        ensures
            l.wf(),
            l.items() == from_seq_prefix(markers@, markers@.len()),
    {
        let mut list = MarkerList::new();
        let mut i: usize = 0;
        while i < markers.len()
            invariant
                i <= markers.len(),
                list.wf(),
                list.items() == from_seq_prefix(markers@, i as nat),
                ids_distinct(markers@),
                forall|k: int| 0 <= k < list.items().len() ==> exists|j: int| 0 <= j < i && (#[trigger] list.items()[k]) == markers@[j],
                forall|j: int| 0 <= j < i ==> (#[trigger] markers@[j]).id.0 < list.next_id || list.next_id == u64::MAX,
            decreases markers.len() - i,
        {
            let m = copy_marker(&markers[i]);
            let candidate = m.id.0.saturating_add(1);
            if candidate > list.next_id {
                list.next_id = candidate;
            }
            let ghost before = list.markers@;
            let inserted = insert_sorted(&mut list.markers, m);
            if inserted {
                list.bump();
            }
            proof {
                let after = list.markers@;
                let p = rank(before, mkey(m)) as int;
                if inserted {
                    lemma_rank_le_len(before, mkey(m));
                    before.insert_ensures(p, m);
                    assert(after == before.insert(p, m));
                    assert forall|a: int| 0 <= a < after.len() implies exists|j: int| 0 <= j < i + 1 && (#[trigger] after[a]) == markers@[j] by {
                        if a < p {
                            assert(after[a] == before[a]);
                        } else if a > p {
                            assert(after[a] == before[a - 1]);
                        } else {
                            assert(after[a] == markers@[i as int]);
                        }
                    }
                    lemma_ids_from_source(after, markers@, i + 1);
                } else {
                    assert forall|a: int| 0 <= a < after.len() implies exists|j: int| 0 <= j < i + 1 && (#[trigger] after[a]) == markers@[j] by {
                        let j = choose|j: int| 0 <= j < i && after[a] == markers@[j];
                    }
                }
                assert forall|a: int| 0 <= a < after.len() implies (#[trigger] after[a]).id.0 < list.next_id || list.next_id == u64::MAX by {
                    let j = choose|j: int| 0 <= j < i + 1 && after[a] == markers@[j];
                }
            }
            i += 1;
        }
        list
    }

    fn remap_with(&mut self, op: &EditOp, inverse: bool)
        requires
            old(self).wf(),
        ensures
            final(self).wf(),
            final(self).items() == remap_prefix(old(self).items(), *op, inverse, old(self).items().len()),
            final(self).next_id_spec() == old(self).next_id_spec(),
            final(self).generation_spec() == old(self).generation_spec().wrapping_add(1),
    {
        let mut entries: Vec<Marker> = Vec::new();
        std::mem::swap(&mut entries, &mut self.markers);
        let ghost start = entries@;
        let mut i: usize = 0;
        while i < entries.len()
            invariant
                i <= entries.len(),
                entries@ == start,
                start == old(self).items(),
                self.next_id == old(self).next_id,
                self.generation == old(self).generation,
                self.markers@ == remap_prefix(start, *op, inverse, i as nat),
                sorted_by_key(self.markers@),
                self.next_id >= 1,
                ids_distinct(start),
                forall|j: int| 0 <= j < start.len() ==> (#[trigger] start[j]).id.0 < self.next_id || self.next_id == u64::MAX,
                forall|k: int| 0 <= k < self.markers@.len() ==> exists|j: int| 0 <= j < i && (#[trigger] self.markers@[k]).id == start[j].id,
                ids_distinct(self.markers@),
            decreases entries.len() - i,
        {
            let m = copy_marker(&entries[i]);
            let mapped = if inverse {
                map_point_if_kept_inverse(m.frame, op)
            } else {
                map_point_if_kept(m.frame, op)
            };
            match mapped {
                Some(frame) => {
                    let mut moved = m;
                    moved.frame = frame;
                    let ghost before = self.markers@;
                    let inserted = insert_sorted(&mut self.markers, moved);
                    proof {
                        let after = self.markers@;
                        let p = rank(before, mkey(moved)) as int;
                        if inserted {
                            lemma_rank_le_len(before, mkey(moved));
                            before.insert_ensures(p, moved);
                            assert(after == before.insert(p, moved));
                            assert forall|a: int| 0 <= a < after.len() implies exists|j: int| 0 <= j < i + 1 && (#[trigger] after[a]).id == start[j].id by {
                                if a < p {
                                    assert(after[a] == before[a]);
                                } else if a > p {
                                    assert(after[a] == before[a - 1]);
                                } else {
                                    assert(after[a].id == start[i as int].id);
                                }
                            }
                            assert forall|a: int, b: int| 0 <= a < b < after.len() implies (#[trigger] after[a]).id != (#[trigger] after[b]).id by {
                                if a < p && b < p {
                                    assert(after[a] == before[a] && after[b] == before[b]);
                                } else if a < p && b == p {
                                    assert(after[a] == before[a]);
                                    let j = choose|j: int| 0 <= j < i && after[a].id == start[j].id;
                                    assert(start[j].id != start[i as int].id);
                                } else if a < p {
                                    assert(after[a] == before[a] && after[b] == before[b - 1]);
                                } else if a == p {
                                    assert(after[b] == before[b - 1]);
                                    let j = choose|j: int| 0 <= j < i && after[b].id == start[j].id;
                                    assert(start[j].id != start[i as int].id);
                                } else {
                                    assert(after[a] == before[a - 1] && after[b] == before[b - 1]);
                                }
                            }
                        } else {
                            assert forall|a: int| 0 <= a < after.len() implies exists|j: int| 0 <= j < i + 1 && (#[trigger] after[a]).id == start[j].id by {
                                let j = choose|j: int| 0 <= j < i && after[a].id == start[j].id;
                            }
                        }
                    }
                },
                None => {
                    proof {
                        assert forall|a: int| 0 <= a < self.markers@.len() implies exists|j: int| 0 <= j < i + 1 && (#[trigger] self.markers@[a]).id == start[j].id by {
                            let j = choose|j: int| 0 <= j < i && self.markers@[a].id == start[j].id;
                        }
                    }
                },
            }
            i += 1;
        }
        self.bump();
        proof {
            let after = self.markers@;
            assert forall|a: int| 0 <= a < after.len() implies (#[trigger] after[a]).id.0 < self.next_id || self.next_id == u64::MAX by {
                let j = choose|j: int| 0 <= j < start.len() && after[a].id == start[j].id;
            }
        }
    }

    /// Moves every marker to where `op` sends its frame; markers `op` deletes
    /// are dropped, and of markers landing on the same frame and type the one
    /// that came first is kept.
    pub fn remap_through_op(&mut self, op: &EditOp)
        requires
            old(self).wf(),
        ensures
            final(self).wf(),
            final(self).items() == remap_prefix(old(self).items(), *op, false, old(self).items().len()),
            final(self).next_id_spec() == old(self).next_id_spec(),
            final(self).generation_spec() == old(self).generation_spec().wrapping_add(1),
    {
        self.remap_with(op, false);
    }

    /// Like [`MarkerList::remap_through_op`], for undoing `op`.
    pub fn remap_through_inverse(&mut self, op: &EditOp)
        requires
            old(self).wf(),
        ensures
            final(self).wf(),
            final(self).items() == remap_prefix(old(self).items(), *op, true, old(self).items().len()),
            final(self).next_id_spec() == old(self).next_id_spec(),
            final(self).generation_spec() == old(self).generation_spec().wrapping_add(1),
    {
        self.remap_with(op, true);
    }
}

proof fn lemma_without_frame_cons(s: Seq<Marker>, frame: u64)
    requires
        s.len() > 0,
    ensures
        without_frame(s, frame) == if s[0].frame == frame {
            without_frame(s.drop_first(), frame)
        } else {
            seq![s[0]] + without_frame(s.drop_first(), frame)
        },
    decreases s.len(),
{
    if s.len() == 1 {
        assert(s.drop_last() =~= Seq::<Marker>::empty());
        assert(s.drop_first() =~= Seq::<Marker>::empty());
        assert(seq![s[0]] + Seq::<Marker>::empty() =~= seq![s[0]]);
    } else {
        lemma_without_frame_cons(s.drop_last(), frame);
        assert(s.drop_last().drop_first() =~= s.drop_first().drop_last());
        assert(s.drop_first().last() == s.last());
        assert(s.drop_last()[0] == s[0]);
        if s[0].frame != frame {
            let r = without_frame(s.drop_first().drop_last(), frame);
            assert((seq![s[0]] + r).push(s.last()) =~= seq![s[0]] + r.push(s.last()));
        }
    }
}

// ---------------------------------------------------------------------------
// Laws
// ---------------------------------------------------------------------------

/// After a marker goes in, its frame and type are taken: a second insert of
/// the same type at the same frame is refused.
pub proof fn law_insert_takes_key(ms: Seq<Marker>, m: Marker)
    ensures
        has_key(insert_sorted_spec(ms, m), mkey(m)),
{
    if !has_key(ms, mkey(m)) {
        lemma_rank_le_len(ms, mkey(m));
        let p = rank(ms, mkey(m)) as int;
        ms.insert_ensures(p, m);
        assert(insert_sorted_spec(ms, m)[p] == m);
    }
}

/// Inserting a marker and then removing it by its id gives the list back:
/// the fresh id of an insert into a well-formed list names the new marker
/// alone, and taking it out restores the markers that were there.
pub proof fn law_insert_then_remove_restores(
    l: MarkerList,
    frame: u64,
    marker_type: String,
    color: [u32; 4],
    note: Option<String>,
    i: int,
)
    requires
        l.wf(),
        l.next_id_spec() < u64::MAX,
        !has_key(l.items(), (frame, marker_type@)),
        0 <= i < insert_sorted_spec(
            l.items(),
            Marker { id: MarkerId(l.next_id_spec()), frame, marker_type, color, note },
        ).len(),
        insert_sorted_spec(
            l.items(),
            Marker { id: MarkerId(l.next_id_spec()), frame, marker_type, color, note },
        )[i].id == MarkerId(l.next_id_spec()),
    ensures
        insert_sorted_spec(
            l.items(),
            Marker { id: MarkerId(l.next_id_spec()), frame, marker_type, color, note },
        ).remove(i) == l.items(),
{
    let ms = l.items();
    let m = Marker { id: MarkerId(l.next_id_spec()), frame, marker_type, color, note };
    lemma_rank_le_len(ms, mkey(m));
    let p = rank(ms, mkey(m)) as int;
    ms.insert_ensures(p, m);
    let r = ms.insert(p, m);
    if i < p {
        assert(r[i] == ms[i]);
        assert(ms[i].id.0 < l.next_id_spec());
    } else if i > p {
        assert(r[i] == ms[i - 1]);
        assert(ms[i - 1].id.0 < l.next_id_spec());
    }
    assert(r.remove(p) =~= ms);
}

/// Whether no two of `markers` share an id, as [`MarkerList::from_vec`]
/// requires.
pub fn has_distinct_ids(markers: &Vec<Marker>) -> (b: bool)
    ensures
        b == ids_distinct(markers@),
{
    let n = markers.len();
    let mut j: usize = 0;
    while j < n
        invariant
            j <= n,
            n == markers@.len(),
            forall|a: int, c: int| 0 <= a < c < j ==> (#[trigger] markers@[a]).id != (#[trigger] markers@[c]).id,
        decreases n - j,
    {
        let mut i: usize = 0;
        while i < j
            invariant
                i <= j < n,
                n == markers@.len(),
                forall|a: int| 0 <= a < i ==> (#[trigger] markers@[a]).id != markers@[j as int].id,
            decreases j - i,
        {
            if markers[i].id.0 == markers[j].id.0 {
                proof {
                    assert(markers@[i as int].id == markers@[j as int].id);
                }
                return false;
            }
            i += 1;
        }
        j += 1;
    }
    true
}

} // verus!
