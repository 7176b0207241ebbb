use std::sync::Arc;

use vstd::prelude::*;

use crate::clip::{copy_clip, split_clip, Clip, ClipId, ClipSpan, ClipValue, MediaId};

verus! {

/// A branch is rebuilt when one side holds more than this many times the
/// clips of the other.
pub const BALANCE_RATIO: usize = 4;

// ---------------------------------------------------------------------------
// The sequence model
// ---------------------------------------------------------------------------

/// The number of frames of the clips of `s`.
pub open spec fn total(s: Seq<ClipValue>) -> nat
    decreases s.len(),
{
    if s.len() == 0 {
        0
    } else {
        total(s.drop_last()) + s.last().len as nat
    }
}

/// Every clip of `s` has frames and addressable source frames.
pub open spec fn clips_ok(s: Seq<ClipValue>) -> bool {
    forall|i: int| 0 <= i < s.len() ==> (#[trigger] s[i]).len > 0 && s[i].fits()
}

/// `s` cut `f` frames in. A clip that straddles the cut is split in two, the
/// right half named `id`.
pub open spec fn split_seq(s: Seq<ClipValue>, f: int, id: ClipId) -> (Seq<ClipValue>, Seq<ClipValue>)
    decreases s.len(),
{
    if s.len() == 0 {
        (seq![], seq![])
    } else if f <= 0 {
        (seq![], s)
    } else if f >= s[0].len {
        let r = split_seq(s.drop_first(), f - s[0].len, id);
        (seq![s[0]] + r.0, r.1)
    } else {
        let halves = split_clip(s[0], f as u64, id);
        (seq![halves.0], seq![halves.1] + s.drop_first())
    }
}

/// Whether cutting `s` at `f` splits a clip in two.
pub open spec fn straddles(s: Seq<ClipValue>, f: int) -> bool
    decreases s.len(),
{
    if s.len() == 0 || f <= 0 {
        false
    } else if f >= s[0].len {
        straddles(s.drop_first(), f - s[0].len)
    } else {
        true
    }
}

/// The index of the clip of `s` that holds frame `f`, and the frame it starts at.
pub open spec fn locate(s: Seq<ClipValue>, f: int) -> (int, int)
    decreases s.len(),
{
    if s.len() == 0 || f < s[0].len {
        (0, 0)
    } else {
        let r = locate(s.drop_first(), f - s[0].len);
        (r.0 + 1, r.1 + s[0].len)
    }
}

/// Each clip of `s` with the frame it starts at, the first at `start`.
pub open spec fn spans_spec(s: Seq<ClipValue>, start: int) -> Seq<(int, ClipValue)>
    decreases s.len(),
{
    if s.len() == 0 {
        seq![]
    } else {
        seq![(start, s[0])] + spans_spec(s.drop_first(), start + s[0].len)
    }
}

pub proof fn lemma_total_concat(a: Seq<ClipValue>, b: Seq<ClipValue>)
    ensures
        total(a + b) == total(a) + total(b),
    decreases b.len(),
{
    if b.len() == 0 {
        assert(a + b =~= a);
    } else {
        assert((a + b).drop_last() =~= a + b.drop_last());
        lemma_total_concat(a, b.drop_last());
    }
}

pub proof fn lemma_total_first(s: Seq<ClipValue>)
    requires
        s.len() > 0,
    ensures
        total(s) == s[0].len + total(s.drop_first()),
{
    assert(s =~= seq![s[0]] + s.drop_first());
    lemma_total_concat(seq![s[0]], s.drop_first());
    lemma_total_single(s[0]);
}

pub proof fn lemma_total_single(v: ClipValue)
    ensures
        total(seq![v]) == v.len,
{
    assert(seq![v].drop_last() =~= Seq::<ClipValue>::empty());
    assert(seq![v].last() == v);
    assert(total(Seq::<ClipValue>::empty()) == 0);
}

proof fn lemma_clips_ok_concat(a: Seq<ClipValue>, b: Seq<ClipValue>)
    ensures
        clips_ok(a + b) <==> clips_ok(a) && clips_ok(b),
{
    if clips_ok(a) && clips_ok(b) {
        assert forall|i: int| 0 <= i < (a + b).len() implies (#[trigger] (a + b)[i]).len > 0 && (a
            + b)[i].fits() by {
            if i >= a.len() {
                assert((a + b)[i] == b[i - a.len()]);
            }
        }
    }
    if clips_ok(a + b) {
        assert forall|i: int| 0 <= i < a.len() implies (#[trigger] a[i]).len > 0 && a[i].fits() by {
            assert((a + b)[i] == a[i]);
        }
        assert forall|i: int| 0 <= i < b.len() implies (#[trigger] b[i]).len > 0 && b[i].fits() by {
            assert((a + b)[a.len() + i] == b[i]);
        }
    }
}

/// Cutting a concatenation cuts the side the frame falls in.
pub proof fn lemma_split_concat(a: Seq<ClipValue>, b: Seq<ClipValue>, f: int, id: ClipId)
    requires
        f >= 0,
        clips_ok(a),
    ensures
        f < total(a) ==> split_seq(a + b, f, id) == (
            split_seq(a, f, id).0,
            split_seq(a, f, id).1 + b,
        ),
        f < total(a) ==> straddles(a + b, f) == straddles(a, f),
        f >= total(a) ==> split_seq(a + b, f, id) == (
            a + split_seq(b, f - total(a), id).0,
            split_seq(b, f - total(a), id).1,
        ),
        f >= total(a) ==> straddles(a + b, f) == straddles(b, f - total(a)),
    decreases a.len(),
{
    if a.len() == 0 {
        assert(a + b =~= b);
        assert(a + split_seq(b, f, id).0 =~= split_seq(b, f, id).0);
    } else {
        let ab = a + b;
        lemma_total_first(a);
        assert(ab[0] == a[0]);
        assert(ab.drop_first() =~= a.drop_first() + b);
        assert(a[0].len > 0);
        let t = a.drop_first();
        assert(clips_ok(t)) by {
            assert forall|i: int| 0 <= i < t.len() implies (#[trigger] t[i]).len > 0 && t[i].fits() by {
                assert(t[i] == a[i + 1]);
            }
        }
        if f <= 0 {
        } else if f >= a[0].len {
            lemma_split_concat(t, b, f - a[0].len, id);
            if f >= total(a) {
                assert(seq![a[0]] + (t + split_seq(b, f - total(a), id).0) =~= a + split_seq(
                    b,
                    f - total(a),
                    id,
                ).0);
            }
        } else {
            let halves = split_clip(a[0], f as u64, id);
            assert(seq![halves.1] + (t + b) =~= (seq![halves.1] + t) + b);
        }
    }
}

/// Locating a frame in a concatenation locates it in the side it falls in.
pub proof fn lemma_locate_concat(a: Seq<ClipValue>, b: Seq<ClipValue>, f: int)
    requires
        f >= 0,
        clips_ok(a),
    ensures
        f < total(a) ==> locate(a + b, f) == locate(a, f),
        f >= total(a) ==> locate(a + b, f) == (
            a.len() + locate(b, f - total(a)).0,
            total(a) + locate(b, f - total(a)).1,
        ),
    decreases a.len(),
{
    if a.len() == 0 {
        assert(a + b =~= b);
    } else {
        let ab = a + b;
        lemma_total_first(a);
        assert(ab[0] == a[0]);
        assert(ab.drop_first() =~= a.drop_first() + b);
        let t = a.drop_first();
        assert(clips_ok(t)) by {
            assert forall|i: int| 0 <= i < t.len() implies (#[trigger] t[i]).len > 0 && t[i].fits() by {
                assert(t[i] == a[i + 1]);
            }
        }
        if f >= a[0].len {
            lemma_locate_concat(t, b, f - a[0].len);
        }
    }
}

/// The spans of a concatenation: those of the left side, then those of the
/// right side starting where the left one ends.
pub proof fn lemma_spans_concat(a: Seq<ClipValue>, b: Seq<ClipValue>, start: int)
    ensures
        spans_spec(a + b, start) == spans_spec(a, start) + spans_spec(b, start + total(a)),
    decreases a.len(),
{
    if a.len() == 0 {
        assert(a + b =~= b);
        assert(spans_spec(a, start) + spans_spec(b, start) =~= spans_spec(b, start));
    } else {
        let ab = a + b;
        lemma_total_first(a);
        assert(ab[0] == a[0]);
        assert(ab.drop_first() =~= a.drop_first() + b);
        lemma_spans_concat(a.drop_first(), b, start + a[0].len);
        assert(seq![(start, a[0])] + (spans_spec(a.drop_first(), start + a[0].len) + spans_spec(
            b,
            start + total(a),
        )) =~= (seq![(start, a[0])] + spans_spec(a.drop_first(), start + a[0].len)) + spans_spec(
            b,
            start + total(a),
        ));
    }
}

// ---------------------------------------------------------------------------
// Nodes
// ---------------------------------------------------------------------------

/// A node of the clip tree: one clip, or two subtrees with their frame and
/// clip counts.
#[derive(Debug)]
pub enum Node {
    Leaf(Arc<Clip>),
    Branch { left: Arc<Node>, right: Arc<Node>, frames: u64, clips: usize },
}

impl Node {
    /// The clips under the node, in timeline order.
    pub open spec fn seq(&self) -> Seq<ClipValue>
        decreases self,
    {
        match self {
            Node::Leaf(c) => seq![c.value()],
            Node::Branch { left, right, .. } => left.seq() + right.seq(),
        }
    }

    /// Leaves hold clips with frames; each branch records the frames and
    /// clips under it.
    pub open spec fn wf(&self) -> bool
        decreases self,
    {
        match self {
            Node::Leaf(c) => c.len > 0 && c.value().fits(),
            Node::Branch { left, right, frames, clips } => {
                &&& left.wf()
                &&& right.wf()
                &&& frames == total(left.seq()) + total(right.seq())
                &&& clips == left.seq().len() + right.seq().len()
            },
        }
    }

    pub proof fn lemma_wf(&self)
        requires
            self.wf(),
        ensures
            clips_ok(self.seq()),
            self.seq().len() >= 1,
            self.seq().len() <= usize::MAX,
            total(self.seq()) <= u64::MAX,
        decreases self,
    {
        if self is Leaf {
            lemma_total_single(self->Leaf_0.value());
        } else {
            let l = &*self->left;
            let r = &*self->right;
            l.lemma_wf();
            r.lemma_wf();
            lemma_clips_ok_concat(l.seq(), r.seq());
            lemma_total_concat(l.seq(), r.seq());
        }
    }

    fn frames(&self) -> (f: u64)
        requires
            self.wf(),
        ensures
            f == total(self.seq()),
    {
        proof {
            self.lemma_wf();
        }
        match self {
            Node::Leaf(clip) => {
                proof {
                    lemma_total_single(clip.value());
                }
                clip.len
            },
            Node::Branch { left, right, frames, .. } => {
                proof {
                    lemma_total_concat(left.seq(), right.seq());
                }
                *frames
            },
        }
    }

    fn clips(&self) -> (n: usize)
        requires
            self.wf(),
        ensures
            n == self.seq().len(),
    {
        match self {
            Node::Leaf(_) => 1,
            Node::Branch { clips, .. } => *clips,
        }
    }
}

/// A leaf holding `clip`.
fn leaf(clip: Clip) -> (n: Arc<Node>)
    requires
        clip.len > 0,
        clip.value().fits(),
    ensures
        (*n).wf(),
        (*n).seq() == seq![clip.value()],
{
    Arc::new(Node::Leaf(Arc::new(clip)))
}

/// A branch over `left` and `right`.
fn branch(left: Arc<Node>, right: Arc<Node>) -> (n: Arc<Node>)
    requires
        (*left).wf(),
        (*right).wf(),
        total((*left).seq()) + total((*right).seq()) <= u64::MAX,
        (*left).seq().len() + (*right).seq().len() <= usize::MAX,
    ensures
        (*n).wf(),
        (*n).seq() == (*left).seq() + (*right).seq(),
        *n is Branch,
        (*n)->left == left,
        (*n)->right == right,
{
    let frames = left.frames() + right.frames();
    let clips = left.clips() + right.clips();
    Arc::new(Node::Branch { left, right, frames, clips })
}

/// Whether `a` exceeds `BALANCE_RATIO` times `b`.
fn outweighs(a: usize, b: usize) -> (r: bool)
    ensures
        r == (a > BALANCE_RATIO * b),
{
    if b > usize::MAX / BALANCE_RATIO {
        false
    } else {
        a > b * BALANCE_RATIO
    }
}

/// What one rotation makes of `node`: where the left side holds more than
/// `BALANCE_RATIO` times the clips of the right and is a branch, its right
/// child moves over to the right; the mirror case for the right side;
/// otherwise `node` itself.
spec fn rotated(node: Node, n: Node) -> bool {
    match node {
        Node::Leaf(_) => n == node,
        Node::Branch { left, right, .. } => {
            if (*left).seq().len() > BALANCE_RATIO * (*right).seq().len() && *left is Branch {
                &&& n is Branch
                &&& n->left == (*left)->left
                &&& *(n->right) is Branch
                &&& (*(n->right))->left == (*left)->right
                &&& (*(n->right))->right == right
            } else if (*right).seq().len() > BALANCE_RATIO * (*left).seq().len() && *right is Branch {
                &&& n is Branch
                &&& n->right == (*right)->right
                &&& *(n->left) is Branch
                &&& (*(n->left))->left == left
                &&& (*(n->left))->right == (*right)->left
            } else {
                n == node
            }
        },
    }
}

/// `node` with one rotation towards its lighter side, when one side
/// outweighs the other; the clips stay in order.
fn rotate(node: Arc<Node>) -> (n: Arc<Node>)
    requires
        (*node).wf(),
    ensures
        (*n).wf(),
        (*n).seq() == (*node).seq(),
        rotated(*node, *n),
{
    proof {
        node.lemma_wf();
        reveal_with_fuel(Node::wf, 2);
    }
    match &*node {
        Node::Leaf(_) => node,
        Node::Branch { left, right, .. } => {
            let wl = left.clips();
            let wr = right.clips();
            if outweighs(wl, wr) {
                if let Node::Branch { left: ll, right: lr, .. } = &**left {
                    proof {
                        ll.lemma_wf();
                        lr.lemma_wf();
                        right.lemma_wf();
                        lemma_total_concat((*ll).seq(), (*lr).seq());
                        lemma_total_concat((*lr).seq(), (*right).seq());
                        lemma_total_concat((*left).seq(), (*right).seq());
                        assert((*ll).seq() + ((*lr).seq() + (*right).seq()) =~= ((*ll).seq()
                            + (*lr).seq()) + (*right).seq());
                    }
                    let inner = branch(lr.clone(), right.clone());
                    return branch(ll.clone(), inner);
                }
            }
            if outweighs(wr, wl) {
                if let Node::Branch { left: rl, right: rr, .. } = &**right {
                    proof {
                        rl.lemma_wf();
                        rr.lemma_wf();
                        left.lemma_wf();
                        lemma_total_concat((*rl).seq(), (*rr).seq());
                        lemma_total_concat((*left).seq(), (*rl).seq());
                        lemma_total_concat((*left).seq(), (*right).seq());
                        assert(((*left).seq() + (*rl).seq()) + (*rr).seq() =~= (*left).seq() + ((
                        *rl).seq() + (*rr).seq()));
                    }
                    let inner = branch(left.clone(), rl.clone());
                    return branch(inner, rr.clone());
                }
            }
            node
        },
    }
}

/// A node holding the clips of `left`, then those of `right`, kept roughly
/// balanced.
fn join_nodes(left: Arc<Node>, right: Arc<Node>) -> (n: Arc<Node>)
    requires
        (*left).wf(),
        (*right).wf(),
        total((*left).seq()) + total((*right).seq()) <= u64::MAX,
        (*left).seq().len() + (*right).seq().len() <= usize::MAX,
    ensures
        (*n).wf(),
        (*n).seq() == (*left).seq() + (*right).seq(),
    decreases (*left).seq().len() + (*right).seq().len(),
{
    proof {
        left.lemma_wf();
        right.lemma_wf();
    }
    let wl = left.clips();
    let wr = right.clips();
    if outweighs(wl, wr) && wl > 1 {
        if let Node::Branch { left: ll, right: lr, .. } = &*left {
            proof {
                ll.lemma_wf();
                lr.lemma_wf();
                lemma_total_concat((*ll).seq(), (*lr).seq());
                lemma_total_concat((*lr).seq(), (*right).seq());
                assert((*ll).seq() + ((*lr).seq() + (*right).seq()) =~= ((*ll).seq() + (*lr).seq())
                    + (*right).seq());
            }
            let inner = join_nodes(lr.clone(), right);
            return rotate(branch(ll.clone(), inner));
        }
    }
    if outweighs(wr, wl) && wr > 1 {
        if let Node::Branch { left: rl, right: rr, .. } = &*right {
            proof {
                rl.lemma_wf();
                rr.lemma_wf();
                lemma_total_concat((*rl).seq(), (*rr).seq());
                lemma_total_concat((*left).seq(), (*rl).seq());
                assert(((*left).seq() + (*rl).seq()) + (*rr).seq() =~= (*left).seq() + ((*rl).seq()
                    + (*rr).seq()));
            }
            let inner = join_nodes(left, rl.clone());
            return rotate(branch(inner, rr.clone()));
        }
    }
    branch(left, right)
}

/// The clips of an optional node.
pub open spec fn opt_seq(n: Option<Arc<Node>>) -> Seq<ClipValue> {
    match n {
        Some(n) => (*n).seq(),
        None => seq![],
    }
}

pub open spec fn opt_wf(n: Option<Arc<Node>>) -> bool {
    n matches Some(n) ==> (*n).wf()
}

proof fn lemma_opt_wf(n: Option<Arc<Node>>)
    requires
        opt_wf(n),
    ensures
        clips_ok(opt_seq(n)),
        opt_seq(n).len() <= usize::MAX,
        total(opt_seq(n)) <= u64::MAX,
        n is None <==> opt_seq(n).len() == 0,
{
    match n {
        Some(node) => node.lemma_wf(),
        None => {},
    }
}

/// The clips of `left`, then those of `right`.
fn join(left: Option<Arc<Node>>, right: Option<Arc<Node>>) -> (n: Option<Arc<Node>>)
    requires
        opt_wf(left),
        opt_wf(right),
        total(opt_seq(left)) + total(opt_seq(right)) <= u64::MAX,
        opt_seq(left).len() + opt_seq(right).len() <= usize::MAX,
    ensures
        opt_wf(n),
        opt_seq(n) == opt_seq(left) + opt_seq(right),
{
    match (left, right) {
        (None, r) => {
            proof {
                assert(Seq::<ClipValue>::empty() + opt_seq(r) =~= opt_seq(r));
            }
            r
        },
        (l, None) => {
            proof {
                assert(opt_seq(l) + Seq::<ClipValue>::empty() =~= opt_seq(l));
            }
            l
        },
        (Some(l), Some(r)) => Some(join_nodes(l, r)),
    }
}

/// Cuts the clips under `node` `frame` frames in. A clip that straddles the
/// cut is split, its right half named by the next id of `next_id`.
fn split_node(node: &Node, frame: u64, next_id: &mut u64) -> (r: (Option<Arc<Node>>, Option<Arc<Node>>))
    requires
        node.wf(),
        *old(next_id) < u64::MAX,
    ensures
        opt_wf(r.0),
        opt_wf(r.1),
        (opt_seq(r.0), opt_seq(r.1)) == split_seq(node.seq(), frame as int, ClipId((*old(next_id) + 1) as u64)),
        *final(next_id) == *old(next_id) + if straddles(node.seq(), frame as int) {
            1int
        } else {
            0int
        },
    decreases node,
{
    proof {
        node.lemma_wf();
    }
    let ghost id = ClipId((*old(next_id) + 1) as u64);
    match node {
        Node::Leaf(clip) => {
            let ghost v = clip.value();
            proof {
                assert(node.seq() == seq![v]);
                assert(seq![v].drop_first() =~= Seq::<ClipValue>::empty());
                assert(seq![v][0] == v);
            }
            if frame == 0 {
                proof {
                    assert(split_seq(seq![v], 0, id) == (Seq::<ClipValue>::empty(), seq![v]));
                    assert(!straddles(seq![v], 0));
                }
                (None, Some(Arc::new(Node::Leaf(clip.clone()))))
            } else if frame >= clip.len {
                proof {
                    assert(seq![v] + Seq::<ClipValue>::empty() =~= seq![v]);
                    assert(split_seq(Seq::<ClipValue>::empty(), frame - v.len, id) == (
                        Seq::<ClipValue>::empty(),
                        Seq::<ClipValue>::empty(),
                    ));
                    assert(!straddles(Seq::<ClipValue>::empty(), frame - v.len));
                }
                (Some(Arc::new(Node::Leaf(clip.clone()))), None)
            } else {
                *next_id = *next_id + 1;
                let (left, right) = clip.split(frame, ClipId(*next_id));
                proof {
                    assert(seq![right.value()] + Seq::<ClipValue>::empty() =~= seq![right.value()]);
                    assert(straddles(seq![v], frame as int));
                }
                (Some(leaf(left)), Some(leaf(right)))
            }
        },
        Node::Branch { left, right, .. } => {
            proof {
                left.lemma_wf();
                right.lemma_wf();
                lemma_total_concat(left.seq(), right.seq());
                lemma_split_concat(left.seq(), right.seq(), frame as int, id);
            }
            let left_frames = left.frames();
            if frame < left_frames {
                let (ll, lr) = split_node(left, frame, next_id);
                proof {
                    lemma_split_totals(left.seq(), frame as int, id);
                    lemma_opt_wf(lr);
                }
                (ll, join(lr, Some(right.clone())))
            } else {
                let (rl, rr) = split_node(right, frame - left_frames, next_id);
                proof {
                    lemma_split_totals(right.seq(), (frame - left_frames) as int, id);
                    lemma_opt_wf(rl);
                }
                (join(Some(left.clone()), rl), rr)
            }
        },
    }
}

/// Cutting `s` keeps its frames: the left side holds the first `f` of them
/// (all, if there are fewer), and neither side has more clips than `s` has.
pub proof fn lemma_split_totals(s: Seq<ClipValue>, f: int, id: ClipId)
    requires
        f >= 0,
        clips_ok(s),
    ensures
        total(split_seq(s, f, id).0) == if f < total(s) {
            f
        } else {
            total(s) as int
        },
        total(split_seq(s, f, id).0) + total(split_seq(s, f, id).1) == total(s),
        split_seq(s, f, id).0.len() <= s.len(),
        split_seq(s, f, id).1.len() <= s.len(),
        split_seq(s, f, id).0.len() + split_seq(s, f, id).1.len() <= s.len() + 1,
        clips_ok(split_seq(s, f, id).0),
        clips_ok(split_seq(s, f, id).1),
    decreases s.len(),
{
    if s.len() > 0 {
        lemma_total_first(s);
        let t = s.drop_first();
        assert(clips_ok(t)) by {
            assert forall|i: int| 0 <= i < t.len() implies (#[trigger] t[i]).len > 0 && t[i].fits() by {
                assert(t[i] == s[i + 1]);
            }
        }
        if f <= 0 {
            assert(total(Seq::<ClipValue>::empty()) == 0);
        } else if f >= s[0].len {
            lemma_split_totals(t, f - s[0].len, id);
            let r = split_seq(t, f - s[0].len, id);
            lemma_total_concat(seq![s[0]], r.0);
            lemma_total_single(s[0]);
            lemma_clips_ok_concat(seq![s[0]], r.0);
        } else {
            let halves = split_clip(s[0], f as u64, id);
            lemma_total_single(halves.0);
            lemma_total_single(halves.1);
            lemma_total_concat(seq![halves.1], t);
            lemma_clips_ok_concat(seq![halves.1], t);
        }
    } else {
        assert(total(Seq::<ClipValue>::empty()) == 0);
    }
}

/// A span's start and clip value.
pub open spec fn span_value(sp: ClipSpan) -> (int, ClipValue) {
    (sp.start as int, sp.clip.value())
}

pub open spec fn span_values(v: Seq<ClipSpan>) -> Seq<(int, ClipValue)> {
    v.map_values(|sp: ClipSpan| span_value(sp))
}

/// The span of the clip under `node` that holds `frame`, the node's first
/// clip starting at `start`.
fn at_node(node: &Node, frame: u64, start: u64) -> (sp: ClipSpan)
    requires
        node.wf(),
        frame < total(node.seq()),
        start + total(node.seq()) <= u64::MAX,
    ensures
        sp.clip.value() == node.seq()[locate(node.seq(), frame as int).0],
        sp.start == start + locate(node.seq(), frame as int).1,
        0 <= locate(node.seq(), frame as int).0 < node.seq().len(),
    decreases node,
{
    proof {
        node.lemma_wf();
    }
    match node {
        Node::Leaf(clip) => {
            proof {
                lemma_total_single(clip.value());
            }
            ClipSpan { start, clip: copy_clip(&**clip) }
        },
        Node::Branch { left, right, .. } => {
            proof {
                left.lemma_wf();
                right.lemma_wf();
                lemma_total_concat(left.seq(), right.seq());
                lemma_locate_concat(left.seq(), right.seq(), frame as int);
            }
            let left_frames = left.frames();
            if frame < left_frames {
                at_node(left, frame, start)
            } else {
                at_node(right, frame - left_frames, start + left_frames)
            }
        },
    }
}

/// Appends to `out` the span of every clip under `node`, the first starting at `start`.
fn collect_spans(node: &Node, start: u64, out: &mut Vec<ClipSpan>)
    requires
        node.wf(),
        start + total(node.seq()) <= u64::MAX,
    ensures
        span_values(final(out)@) == span_values(old(out)@) + spans_spec(node.seq(), start as int),
    decreases node,
{
    proof {
        node.lemma_wf();
    }
    match node {
        Node::Leaf(clip) => {
            let ghost before = out@;
            out.push(ClipSpan { start, clip: copy_clip(&**clip) });
            proof {
                let v = clip.value();
                assert(seq![v].drop_first() =~= Seq::<ClipValue>::empty());
                assert(spans_spec(Seq::<ClipValue>::empty(), start + v.len) =~= Seq::<(int, ClipValue)>::empty());
                assert(seq![(start as int, v)] + Seq::<(int, ClipValue)>::empty() =~= seq![(start as int, v)]);
                assert(spans_spec(seq![v], start as int) =~= seq![(start as int, v)]);
                assert(span_values(out@) =~= span_values(before) + seq![(start as int, v)]);
            }
        },
        Node::Branch { left, right, .. } => {
            proof {
                left.lemma_wf();
                right.lemma_wf();
                lemma_total_concat(left.seq(), right.seq());
                lemma_spans_concat(left.seq(), right.seq(), start as int);
            }
            let ghost before = out@;
            collect_spans(left, start, out);
            let left_frames = left.frames();
            collect_spans(right, start + left_frames, out);
            proof {
                assert(span_values(out@) =~= span_values(before) + spans_spec(node.seq(), start as int));
            }
        },
    }
}

/// Cutting at or past the last frame leaves every clip on the left.
pub proof fn lemma_split_past_end(s: Seq<ClipValue>, f: int, id: ClipId)
    requires
        clips_ok(s),
        f >= total(s),
    ensures
        split_seq(s, f, id) == (s, Seq::<ClipValue>::empty()),
        !straddles(s, f),
    decreases s.len(),
{
    if s.len() > 0 {
        lemma_total_first(s);
        let t = s.drop_first();
        assert(clips_ok(t)) by {
            assert forall|i: int| 0 <= i < t.len() implies (#[trigger] t[i]).len > 0 && t[i].fits() by {
                assert(t[i] == s[i + 1]);
            }
        }
        lemma_split_past_end(t, f - s[0].len, id);
        assert(seq![s[0]] + t =~= s);
    }
}

/// The clips of `s` that have frames, in order.
pub open spec fn nonempty(s: Seq<ClipValue>) -> Seq<ClipValue>
    decreases s.len(),
{
    if s.len() == 0 {
        seq![]
    } else {
        let r = nonempty(s.drop_last());
        if s.last().len > 0 {
            r.push(s.last())
        } else {
            r
        }
    }
}

pub open spec fn values_of(s: Seq<Clip>) -> Seq<ClipValue> {
    s.map_values(|c: Clip| c.value())
}

pub proof fn lemma_nonempty(s: Seq<ClipValue>)
    ensures
        total(nonempty(s)) == total(s),
        nonempty(s).len() <= s.len(),
        (forall|i: int| 0 <= i < s.len() ==> (#[trigger] s[i]).fits()) ==> clips_ok(nonempty(s)),
    decreases s.len(),
{
    if s.len() > 0 {
        let t = s.drop_last();
        lemma_nonempty(t);
        if forall|i: int| 0 <= i < s.len() ==> (#[trigger] s[i]).fits() {
            assert forall|i: int| 0 <= i < t.len() implies (#[trigger] t[i]).fits() by {
                assert(t[i] == s[i]);
            }
        }
        if s.last().len > 0 {
            lemma_total_concat(nonempty(t), seq![s.last()]);
            lemma_total_single(s.last());
            assert(nonempty(t).push(s.last()) =~= nonempty(t) + seq![s.last()]);
        }
    }
}

/// The frames of `s` before and after index `k` add up to all of them.
pub proof fn lemma_total_take(s: Seq<ClipValue>, k: int)
    requires
        0 <= k <= s.len(),
    ensures
        total(s.take(k)) <= total(s),
{
    assert(s =~= s.take(k) + s.skip(k));
    lemma_total_concat(s.take(k), s.skip(k));
}

pub open spec fn min_int(a: int, b: int) -> int {
    if a <= b {
        a
    } else {
        b
    }
}

/// Replacing `len` frames at `start` (each clamped to the timeline) of `s`
/// with `middle`, the cuts naming new clips from `n + 1` on: the result and
/// the number of ids used.
pub open spec fn replace_range_spec(
    s: Seq<ClipValue>,
    start: u64,
    len: u64,
    middle: Seq<ClipValue>,
    n: u64,
) -> (Seq<ClipValue>, int) {
    let st = min_int(start as int, total(s) as int);
    let ln = min_int(len as int, total(s) - st);
    let a = split_seq(s, st, ClipId((n + 1) as u64));
    let n1 = n + if straddles(s, st) {
        1int
    } else {
        0int
    };
    let b = split_seq(a.1, ln, ClipId((n1 + 1) as u64));
    let n2 = n1 + if straddles(a.1, ln) {
        1int
    } else {
        0int
    };
    (a.0 + middle + b.1, n2 - n)
}

/// The clips of `len` frames at `start` of `s` (each clamped to the
/// timeline), cut out with new clips named from `n + 1` on, and the number of
/// ids used.
pub open spec fn range_clips_spec(s: Seq<ClipValue>, start: u64, len: u64, n: u64) -> (Seq<ClipValue>, int) {
    let st = min_int(start as int, total(s) as int);
    let ln = min_int(len as int, total(s) - st);
    let a = split_seq(s, st, ClipId((n + 1) as u64));
    let n1 = n + if straddles(s, st) {
        1int
    } else {
        0int
    };
    let b = split_seq(a.1, ln, ClipId((n1 + 1) as u64));
    let n2 = n1 + if straddles(a.1, ln) {
        1int
    } else {
        0int
    };
    (b.0, n2 - n)
}

/// The frames left after removing `len` frames at `start` from `frames` frames.
pub open spec fn kept_frames(frames: int, start: u64, len: u64) -> int {
    let st = min_int(start as int, frames);
    frames - min_int(len as int, frames - st)
}

/// The timeline of a composition: its clips in order, held in a balanced
/// tree whose subtrees are shared between snapshots.
#[derive(Debug, Clone)]
pub struct ClipTree {
    root: Option<Arc<Node>>,
}

impl View for ClipTree {
    type V = Seq<ClipValue>;

    closed spec fn view(&self) -> Seq<ClipValue> {
        opt_seq(self.root)
    }
}

impl ClipTree {
    pub closed spec fn wf(&self) -> bool {
        opt_wf(self.root)
    }

    /// A well-formed tree holds clips with frames and addressable sources,
    /// and its frame and clip counts fit their types.
    pub proof fn lemma_wf(&self)
        requires
            self.wf(),
        ensures
            clips_ok(self@),
            total(self@) <= u64::MAX,
            self@.len() <= usize::MAX,
    {
        lemma_opt_wf(self.root);
    }

    /// A tree sharing this one's nodes.
    pub fn copy(&self) -> (t: ClipTree)
        ensures
            t@ == self@,
            t.wf() == self.wf(),
    {
        ClipTree {
            root: match &self.root {
                Some(n) => Some(n.clone()),
                None => None,
            },
        }
    }

    pub fn empty() -> (t: ClipTree)
        ensures
            t.wf(),
            t@ == Seq::<ClipValue>::empty(),
    {
        ClipTree { root: None }
    }

    /// A tree of the one clip, or an empty one if the clip has no frames.
    pub fn from_clip(clip: Clip) -> (t: ClipTree)
        requires
            clip.value().fits(),
        ensures
            t.wf(),
            t@ == if clip.len == 0 {
                Seq::<ClipValue>::empty()
            } else {
                seq![clip.value()]
            },
    {
        if clip.len == 0 {
            ClipTree::empty()
        } else {
            ClipTree { root: Some(leaf(clip)) }
        }
    }

    /// A tree of the clips with frames, in order.
    pub fn from_clips(clips: Vec<Clip>) -> (t: ClipTree)
        requires
            forall|i: int| 0 <= i < clips@.len() ==> (#[trigger] clips@[i]).value().fits(),
            total(values_of(clips@)) <= u64::MAX,
        ensures
            t.wf(),
            t@ == nonempty(values_of(clips@)),
    {
        let ghost vs = values_of(clips@);
        let mut tree = ClipTree::empty();
        let mut i: usize = 0;
        proof {
            assert(vs.take(0) =~= Seq::<ClipValue>::empty());
        }
        while i < clips.len()
            invariant
                i <= clips.len(),
                vs == values_of(clips@),
                vs.len() == clips@.len(),
                forall|k: int| 0 <= k < clips@.len() ==> (#[trigger] clips@[k]).value().fits(),
                total(vs) <= u64::MAX,
                tree.wf(),
                tree@ == nonempty(vs.take(i as int)),
            decreases clips.len() - i,
        {
            let c = copy_clip(&clips[i]);
            let ghost cv = c.value();
            let ghost pre = vs.take(i as int);
            let ghost post = vs.take(i + 1);
            proof {
                assert(post.drop_last() =~= pre);
                assert(post.last() == c.value());
                lemma_nonempty(post);
                lemma_nonempty(pre);
                lemma_total_take(vs, i + 1);
                tree.lemma_wf();
                assert(clips@[i as int].value().fits());
            }
            let single = ClipTree::from_clip(c);
            proof {
                single.lemma_wf();
                if cv.len > 0 {
                    lemma_total_concat(nonempty(pre), seq![cv]);
                    lemma_total_single(cv);
                    assert(nonempty(pre).push(cv) =~= nonempty(pre) + seq![cv]);
                } else {
                    assert(nonempty(pre) + Seq::<ClipValue>::empty() =~= nonempty(pre));
                    assert(total(Seq::<ClipValue>::empty()) == 0);
                }
            }
            tree = ClipTree::concat(tree, single);
            i += 1;
        }
        proof {
            assert(vs.take(clips@.len() as int) =~= vs);
        }
        tree
    }

    pub fn frames(&self) -> (f: u64)
        requires
            self.wf(),
        ensures
            f == total(self@),
    {
        match &self.root {
            Some(n) => n.frames(),
            None => 0,
        }
    }

    pub fn clip_count(&self) -> (n: usize)
        requires
            self.wf(),
        ensures
            n == self@.len(),
    {
        match &self.root {
            Some(n) => n.clips(),
            None => 0,
        }
    }

    pub fn is_empty(&self) -> (b: bool)
        requires
            self.wf(),
        ensures
            b == (self@.len() == 0),
            b == (total(self@) == 0),
    {
        proof {
            lemma_opt_wf(self.root);
            if self@.len() > 0 {
                lemma_total_first(self@);
            }
        }
        self.root.is_none()
    }

    /// The span of the clip holding `frame`, if the timeline reaches it.
    pub fn at(&self, frame: u64) -> (r: Option<ClipSpan>)
        requires
            self.wf(),
        ensures
            r is Some <==> frame < total(self@),
            r matches Some(sp) ==> {
                &&& sp.clip.value() == self@[locate(self@, frame as int).0]
                &&& sp.start == locate(self@, frame as int).1
                &&& 0 <= locate(self@, frame as int).0 < self@.len()
            },
    {
        match &self.root {
            None => None,
            Some(root) => {
                if frame >= root.frames() {
                    None
                } else {
                    proof {
                        root.lemma_wf();
                    }
                    Some(at_node(root, frame, 0))
                }
            },
        }
    }

    /// Every clip with the frame it starts at, in order.
    pub fn spans(&self) -> (r: Vec<ClipSpan>)
        requires
            self.wf(),
        ensures
            span_values(r@) == spans_spec(self@, 0),
    {
        let mut out: Vec<ClipSpan> = Vec::new();
        proof {
            assert(span_values(out@) =~= Seq::<(int, ClipValue)>::empty());
        }
        match &self.root {
            Some(root) => {
                proof {
                    root.lemma_wf();
                }
                collect_spans(root, 0, &mut out);
                proof {
                    assert(Seq::<(int, ClipValue)>::empty() + spans_spec(self@, 0) =~= spans_spec(self@, 0));
                }
            },
            None => {
                proof {
                    assert(spans_spec(self@, 0) =~= Seq::<(int, ClipValue)>::empty());
                }
            },
        }
        out
    }

    /// The timeline cut at `frame` (at most its length). A clip that
    /// straddles the cut is split, its right half named by the next id of
    /// `next_id`.
    pub fn split(&self, frame: u64, next_id: &mut u64) -> (r: (ClipTree, ClipTree))
        requires
            self.wf(),
            *old(next_id) < u64::MAX,
        ensures
            r.0.wf(),
            r.1.wf(),
            (r.0@, r.1@) == split_seq(self@, frame as int, ClipId((*old(next_id) + 1) as u64)),
            *final(next_id) == *old(next_id) + if straddles(self@, frame as int) {
                1int
            } else {
                0int
            },
    {
        match &self.root {
            None => (ClipTree::empty(), ClipTree::empty()),
            Some(root) => {
                let ghost id = ClipId((*old(next_id) + 1) as u64);
                proof {
                    root.lemma_wf();
                }
                let frames = root.frames();
                let at = if frame < frames {
                    frame
                } else {
                    proof {
                        lemma_split_past_end(self@, frame as int, id);
                        lemma_split_past_end(self@, frames as int, id);
                    }
                    frames
                };
                let (left, right) = split_node(root, at, next_id);
                (ClipTree { root: left }, ClipTree { root: right })
            },
        }
    }

    /// The clips of `left`, then those of `right`.
    pub fn concat(left: ClipTree, right: ClipTree) -> (t: ClipTree)
        requires
            left.wf(),
            right.wf(),
            total(left@) + total(right@) <= u64::MAX,
            left@.len() + right@.len() <= usize::MAX,
        ensures
            t.wf(),
            t@ == left@ + right@,
    {
        ClipTree { root: join(left.root, right.root) }
    }

    /// The timeline with `len` frames at `start` (each clamped to it)
    /// replaced by the clips of `middle`. The cuts name new clips from the
    /// next id of `next_id` on.
    pub fn replace_range(&self, start: u64, len: u64, middle: ClipTree, next_id: &mut u64) -> (t: ClipTree)
        requires
            self.wf(),
            middle.wf(),
            *old(next_id) + 2 <= u64::MAX,
            kept_frames(total(self@) as int, start, len) + total(middle@) <= u64::MAX,
            self@.len() + middle@.len() + 1 <= usize::MAX,
        ensures
            t.wf(),
            t@ == replace_range_spec(self@, start, len, middle@, *old(next_id)).0,
            *final(next_id) == *old(next_id) + replace_range_spec(self@, start, len, middle@, *old(next_id)).1,
    {
        proof {
            self.lemma_wf();
            middle.lemma_wf();
        }
        let frames = self.frames();
        let st = if start < frames {
            start
        } else {
            frames
        };
        let ln = if len < frames - st {
            len
        } else {
            frames - st
        };
        let ghost n = *next_id;
        let (prefix, rest) = self.split(st, next_id);
        proof {
            lemma_split_totals(self@, st as int, ClipId((n + 1) as u64));
            rest.lemma_wf();
        }
        let ghost n1 = *next_id;
        let (_, suffix) = rest.split(ln, next_id);
        proof {
            lemma_split_totals(rest@, ln as int, ClipId((n1 + 1) as u64));
            prefix.lemma_wf();
            suffix.lemma_wf();
        }
        proof {
            lemma_total_concat(prefix@, middle@);
        }
        let joined = ClipTree::concat(prefix, middle);
        ClipTree::concat(joined, suffix)
    }

    /// The clips of the `len` frames at `start` (each clamped to the
    /// timeline), cut out at both ends. The cuts name new clips from the next
    /// id of `next_id` on.
    pub fn clips_in_range(&self, start: u64, len: u64, next_id: &mut u64) -> (r: Vec<Clip>)
        requires
            self.wf(),
            *old(next_id) + 2 <= u64::MAX,
        ensures
            values_of(r@) == range_clips_spec(self@, start, len, *old(next_id)).0,
            *final(next_id) == *old(next_id) + range_clips_spec(self@, start, len, *old(next_id)).1,
    {
        proof {
            self.lemma_wf();
        }
        let frames = self.frames();
        let st = if start < frames {
            start
        } else {
            frames
        };
        let ln = if len < frames - st {
            len
        } else {
            frames - st
        };
        let (_, rest) = self.split(st, next_id);
        let (mid, _) = rest.split(ln, next_id);
        mid.to_clips()
    }

    /// The timeline with the clip holding `frame` replaced by what `map`
    /// makes of it; unchanged if the timeline does not reach `frame`.
    pub fn map_clip_at<F: FnOnce(&Clip) -> Clip>(&self, frame: u64, map: F) -> (t: ClipTree)
        requires
            self.wf(),
            forall|c: &Clip|
                c.value() == self@[locate(self@, frame as int).0] ==> call_requires(map, (c,)),
            forall|c: &Clip, out: Clip|
                c.value() == self@[locate(self@, frame as int).0] && call_ensures(map, (c,), out) ==> out.len
                    == c.len && (c.value().fits() ==> out.value().fits()),
        ensures
            t.wf(),
            frame >= total(self@) ==> t@ == self@,
            frame < total(self@) ==> exists|c: Clip, out: Clip|
                {
                    &&& c.value() == self@[locate(self@, frame as int).0]
                    &&& call_ensures(map, (&c,), out)
                    &&& t@ == self@.update(locate(self@, frame as int).0, out.value())
                },
    {
        match &self.root {
            None => ClipTree::empty(),
            Some(root) => {
                if frame >= root.frames() {
                    self.copy()
                } else {
                    ClipTree { root: Some(map_clip_at_node(&**root, frame, map)) }
                }
            },
        }
    }

    /// The clips in order.
    pub fn to_clips(&self) -> (r: Vec<Clip>)
        requires
            self.wf(),
        ensures
            values_of(r@) == self@,
    {
        let spans = self.spans();
        let ghost sv = span_values(spans@);
        proof {
            lemma_spans_values(self@, 0);
        }
        let mut out: Vec<Clip> = Vec::new();
        let mut i: usize = 0;
        while i < spans.len()
            invariant
                i <= spans.len(),
                sv == span_values(spans@),
                sv == spans_spec(self@, 0),
                sv.len() == self@.len(),
                forall|k: int| 0 <= k < sv.len() ==> (#[trigger] sv[k]).1 == self@[k],
                values_of(out@) == self@.take(i as int),
            decreases spans.len() - i,
        {
            let ghost before = out@;
            let c = copy_clip(&spans[i].clip);
            proof {
                assert(sv[i as int] == span_value(spans@[i as int]));
                assert(sv[i as int].1 == self@[i as int]);
                assert(c.value() == self@[i as int]);
            }
            out.push(c);
            proof {
                assert(values_of(out@) =~= values_of(before).push(self@[i as int]));
                assert(self@.take(i + 1) =~= self@.take(i as int).push(self@[i as int]));
            }
            i += 1;
        }
        proof {
            assert(self@.take(self@.len() as int) =~= self@);
        }
        out
    }
}

/// The node with the clip holding `frame` replaced by what `map` makes of it.
fn map_clip_at_node<F: FnOnce(&Clip) -> Clip>(node: &Node, frame: u64, map: F) -> (r: Arc<Node>)
    requires
        node.wf(),
        frame < total(node.seq()),
        forall|c: &Clip|
            c.value() == node.seq()[locate(node.seq(), frame as int).0] ==> call_requires(map, (c,)),
        forall|c: &Clip, out: Clip|
            c.value() == node.seq()[locate(node.seq(), frame as int).0] && call_ensures(map, (c,), out)
                ==> out.len == c.len && (c.value().fits() ==> out.value().fits()),
    ensures
        (*r).wf(),
        0 <= locate(node.seq(), frame as int).0 < node.seq().len(),
        exists|c: Clip, out: Clip|
            {
                &&& c.value() == node.seq()[locate(node.seq(), frame as int).0]
                &&& call_ensures(map, (&c,), out)
                &&& (*r).seq() == node.seq().update(locate(node.seq(), frame as int).0, out.value())
            },
    decreases node,
{
    proof {
        node.lemma_wf();
    }
    match node {
        Node::Leaf(clip) => {
            proof {
                lemma_total_single(clip.value());
                assert(locate(node.seq(), frame as int).0 == 0);
            }
            let out = map(&**clip);
            proof {
                assert(seq![out.value()] =~= seq![clip.value()].update(0, out.value()));
            }
            leaf(out)
        },
        Node::Branch { left, right, .. } => {
            proof {
                left.lemma_wf();
                right.lemma_wf();
                lemma_total_concat(left.seq(), right.seq());
                lemma_locate_concat(left.seq(), right.seq(), frame as int);
            }
            let left_frames = left.frames();
            if frame < left_frames {
                proof {
                    law_locate_holds_frame(left.seq(), frame as int);
                    let i = locate(left.seq(), frame as int).0;
                    assert(node.seq()[i] == left.seq()[i]);
                }
                let new_left = map_clip_at_node(&**left, frame, map);
                proof {
                    let i = locate(left.seq(), frame as int).0;
                    let (c, out) = choose|c: Clip, out: Clip|
                        {
                            &&& c.value() == left.seq()[i]
                            &&& call_ensures(map, (&c,), out)
                            &&& (*new_left).seq() == left.seq().update(i, out.value())
                        };
                    (*new_left).lemma_wf();
                    assert(clips_ok(left.seq()));
                    lemma_total_concat((*new_left).seq(), right.seq());
                    lemma_same_frames_update(left.seq(), i, out.value());
                    assert((*new_left).seq() + right.seq() =~= node.seq().update(i, out.value()));
                }
                branch(new_left, right.clone())
            } else {
                proof {
                    law_locate_holds_frame(right.seq(), frame - left_frames);
                    let j = locate(right.seq(), frame - left_frames).0;
                    assert(node.seq()[left.seq().len() + j] == right.seq()[j]);
                }
                let new_right = map_clip_at_node(&**right, frame - left_frames, map);
                proof {
                    let j = locate(right.seq(), frame - left_frames).0;
                    let (c, out) = choose|c: Clip, out: Clip|
                        {
                            &&& c.value() == right.seq()[j]
                            &&& call_ensures(map, (&c,), out)
                            &&& (*new_right).seq() == right.seq().update(j, out.value())
                        };
                    (*new_right).lemma_wf();
                    lemma_same_frames_update(right.seq(), j, out.value());
                    assert(left.seq() + (*new_right).seq() =~= node.seq().update(
                        left.seq().len() + j,
                        out.value(),
                    ));
                }
                branch(left.clone(), new_right)
            }
        },
    }
}

/// Replacing a clip by one of the same length keeps the frames.
pub proof fn lemma_same_frames_update(s: Seq<ClipValue>, i: int, v: ClipValue)
    requires
        0 <= i < s.len(),
        v.len == s[i].len,
    ensures
        total(s.update(i, v)) == total(s),
    decreases s.len(),
{
    if i < s.len() - 1 {
        lemma_same_frames_update(s.drop_last(), i, v);
        assert(s.update(i, v).drop_last() =~= s.drop_last().update(i, v));
    } else {
        assert(s.update(i, v).drop_last() =~= s.drop_last());
    }
}

/// The spans of `s` pair each clip of `s` with its start, in order.
pub proof fn lemma_spans_values(s: Seq<ClipValue>, start: int)
    ensures
        spans_spec(s, start).len() == s.len(),
        forall|k: int| 0 <= k < s.len() ==> (#[trigger] spans_spec(s, start)[k]).1 == s[k],
    decreases s.len(),
{
    if s.len() > 0 {
        lemma_spans_values(s.drop_first(), start + s[0].len);
        assert forall|k: int| 0 <= k < s.len() implies (#[trigger] spans_spec(s, start)[k]).1 == s[k] by {
            if k > 0 {
                assert(spans_spec(s, start)[k] == spans_spec(s.drop_first(), start + s[0].len)[k - 1]);
            }
        }
    }
}

// ---------------------------------------------------------------------------
// What plays at each frame
// ---------------------------------------------------------------------------

/// What plays at frame `f` of `s`: the media and the source frame of the
/// clip there, or none where that clip is silence.
pub open spec fn frame_source(s: Seq<ClipValue>, f: int) -> Option<(MediaId, int)> {
    let (i, at) = locate(s, f);
    match s[i].source {
        Some(src) => Some((src.media_id, src.offset + (f - at))),
        None => None,
    }
}

/// What plays in a single clip.
pub proof fn lemma_frame_source_single(v: ClipValue, f: int)
    requires
        0 <= f < v.len,
    ensures
        frame_source(seq![v], f) == match v.source {
            Some(src) => Some((src.media_id, src.offset + f)),
            None => None,
        },
{
}

/// Joining two runs of clips keeps what plays at each frame: the left run's
/// frames first, then the right run's.
pub proof fn lemma_frame_source_concat(a: Seq<ClipValue>, b: Seq<ClipValue>, f: int)
    requires
        clips_ok(a),
        clips_ok(b),
        0 <= f < total(a) + total(b),
    ensures
        clips_ok(a + b),
        total(a + b) == total(a) + total(b),
        f < total(a) ==> frame_source(a + b, f) == frame_source(a, f),
        f >= total(a) ==> frame_source(a + b, f) == frame_source(b, f - total(a)),
{
    lemma_clips_ok_concat(a, b);
    lemma_total_concat(a, b);
    lemma_locate_concat(a, b, f);
    if f < total(a) {
        law_locate_holds_frame(a, f);
        assert((a + b)[locate(a, f).0] == a[locate(a, f).0]);
    } else {
        law_locate_holds_frame(b, f - total(a));
        let i = locate(b, f - total(a)).0;
        assert((a + b)[a.len() + i] == b[i]);
    }
}

/// Cutting a run of clips keeps what plays at each frame: the left side
/// holds the first frames, the right side the rest.
pub proof fn lemma_frame_source_split(s: Seq<ClipValue>, f: int, id: ClipId, x: int)
    requires
        clips_ok(s),
        f >= 0,
        0 <= x < total(s),
    ensures
        x < total(split_seq(s, f, id).0) ==> frame_source(split_seq(s, f, id).0, x) == frame_source(s, x),
        x >= total(split_seq(s, f, id).0) ==> frame_source(
            split_seq(s, f, id).1,
            x - total(split_seq(s, f, id).0),
        ) == frame_source(s, x),
    decreases s.len(),
{
    lemma_split_totals(s, f, id);
    lemma_total_first(s);
    let s0 = s[0];
    let t = s.drop_first();
    assert(clips_ok(t)) by {
        assert forall|i: int| 0 <= i < t.len() implies (#[trigger] t[i]).len > 0 && t[i].fits() by {
            assert(t[i] == s[i + 1]);
        }
    }
    assert(clips_ok(seq![s0])) by {
        assert forall|i: int| 0 <= i < seq![s0].len() implies (#[trigger] seq![s0][i]).len > 0
            && seq![s0][i].fits() by {
            assert(seq![s0][i] == s[0]);
        }
    }
    lemma_total_single(s0);
    assert(s =~= seq![s0] + t);
    lemma_frame_source_concat(seq![s0], t, x);
    if f <= 0 {
        assert(total(Seq::<ClipValue>::empty()) == 0);
    } else if f >= s0.len {
        let r = split_seq(t, f - s0.len, id);
        lemma_split_totals(t, f - s0.len, id);
        if x < s0.len {
            lemma_frame_source_concat(seq![s0], r.0, x);
        } else {
            lemma_frame_source_split(t, f - s0.len, id, x - s0.len);
            if x - s0.len < total(r.0) {
                lemma_frame_source_concat(seq![s0], r.0, x);
            }
        }
    } else {
        let halves = split_clip(s0, f as u64, id);
        let h0 = halves.0;
        let h1 = halves.1;
        assert(clips_ok(seq![h1] + t));
        assert(clips_ok(seq![h1])) by {
            assert forall|i: int| 0 <= i < seq![h1].len() implies (#[trigger] seq![h1][i]).len > 0
                && seq![h1][i].fits() by {
                assert(seq![h1][i] == (seq![h1] + t)[0]);
            }
        }
        lemma_total_single(h0);
        lemma_total_single(h1);
        if x < f {
            lemma_frame_source_single(h0, x);
            lemma_frame_source_single(s0, x);
        } else {
            lemma_frame_source_concat(seq![h1], t, x - f);
            if x - f < h1.len {
                lemma_frame_source_single(h1, x - f);
                lemma_frame_source_single(s0, x);
            }
        }
    }
}

/// Replacing a range keeps what plays before it, plays the replacement in
/// its place, and plays what followed the range after the replacement.
pub proof fn lemma_frame_source_replace(
    s: Seq<ClipValue>,
    start: u64,
    len: u64,
    middle: Seq<ClipValue>,
    n: u64,
    x: int,
)
    requires
        clips_ok(s),
        clips_ok(middle),
        0 <= x,
    ensures
        ({
            let st = min_int(start as int, total(s) as int);
            let ln = min_int(len as int, total(s) - st);
            let tm = total(middle) as int;
            let r = replace_range_spec(s, start, len, middle, n).0;
            &&& clips_ok(r)
            &&& total(r) == total(s) - ln + tm
            &&& x < st ==> frame_source(r, x) == frame_source(s, x)
            &&& st <= x < st + tm ==> frame_source(r, x) == frame_source(middle, x - st)
            &&& st + tm <= x < total(r) ==> frame_source(r, x) == frame_source(s, x - tm + ln)
        }),
{
    let st = min_int(start as int, total(s) as int);
    let ln = min_int(len as int, total(s) - st);
    let id1 = ClipId((n + 1) as u64);
    let n1 = n + if straddles(s, st) {
        1int
    } else {
        0int
    };
    let id2 = ClipId((n1 + 1) as u64);
    let a = split_seq(s, st, id1);
    lemma_split_totals(s, st, id1);
    let b = split_seq(a.1, ln, id2);
    lemma_split_totals(a.1, ln, id2);
    let tm = total(middle) as int;
    let r = replace_range_spec(s, start, len, middle, n).0;
    assert(r == (a.0 + middle) + b.1);
    lemma_clips_ok_concat(a.0, middle);
    lemma_total_concat(a.0, middle);
    lemma_clips_ok_concat(a.0 + middle, b.1);
    lemma_total_concat(a.0 + middle, b.1);
    if x < total(r) {
        lemma_frame_source_concat(a.0 + middle, b.1, x);
        if x < st + tm {
            lemma_frame_source_concat(a.0, middle, x);
            if x < st {
                lemma_frame_source_split(s, st, id1, x);
            }
        } else {
            let y = x - st - tm;
            lemma_frame_source_split(a.1, ln, id2, ln + y);
            lemma_frame_source_split(s, st, id1, st + ln + y);
        }
    }
}

/// The clips of a range play what the range of the timeline plays.
pub proof fn lemma_frame_source_range(s: Seq<ClipValue>, start: u64, len: u64, n: u64, y: int)
    requires
        clips_ok(s),
        0 <= y,
    ensures
        ({
            let st = min_int(start as int, total(s) as int);
            let ln = min_int(len as int, total(s) - st);
            let picked = range_clips_spec(s, start, len, n).0;
            &&& clips_ok(picked)
            &&& total(picked) == ln
            &&& y < ln ==> frame_source(picked, y) == frame_source(s, st + y)
        }),
{
    let st = min_int(start as int, total(s) as int);
    let ln = min_int(len as int, total(s) - st);
    let id1 = ClipId((n + 1) as u64);
    let n1 = n + if straddles(s, st) {
        1int
    } else {
        0int
    };
    let id2 = ClipId((n1 + 1) as u64);
    let a = split_seq(s, st, id1);
    lemma_split_totals(s, st, id1);
    lemma_split_totals(a.1, ln, id2);
    if y < ln {
        lemma_frame_source_split(a.1, ln, id2, y);
        lemma_frame_source_split(s, st, id1, st + y);
    }
}

/// Runs of clips with the same lengths have the same frames and find each
/// frame in the same place.
proof fn lemma_same_lens(a: Seq<ClipValue>, b: Seq<ClipValue>, f: int)
    requires
        a.len() == b.len(),
        forall|i: int| 0 <= i < a.len() ==> (#[trigger] a[i]).len == b[i].len,
    ensures
        total(a) == total(b),
        locate(a, f) == locate(b, f),
    decreases a.len(),
{
    if a.len() > 0 {
        assert(a[0].len == b[0].len);
        lemma_same_lens(a.drop_first(), b.drop_first(), f - a[0].len);
        lemma_same_lens(a.drop_last(), b.drop_last(), f);
        assert(a.last().len == b.last().len);
    }
}

/// Runs of clips with the same lengths have the same frames.
pub proof fn lemma_same_lens_total(a: Seq<ClipValue>, b: Seq<ClipValue>)
    requires
        a.len() == b.len(),
        forall|i: int| 0 <= i < a.len() ==> (#[trigger] a[i]).len == b[i].len,
    ensures
        total(a) == total(b),
{
    lemma_same_lens(a, b, 0);
}

/// Runs of clips with the same lengths and sources, in order, play the same.
pub proof fn lemma_frame_source_same_shape(a: Seq<ClipValue>, b: Seq<ClipValue>, f: int)
    requires
        a.len() == b.len(),
        forall|i: int| 0 <= i < a.len() ==> (#[trigger] a[i]).len == b[i].len && a[i].source == b[i].source,
        clips_ok(a),
        0 <= f < total(a),
    ensures
        total(a) == total(b),
        clips_ok(b),
        frame_source(a, f) == frame_source(b, f),
{
    lemma_same_lens(a, b, f);
    assert forall|i: int| 0 <= i < b.len() implies (#[trigger] b[i]).len > 0 && b[i].fits() by {
        assert(a[i].fits());
    }
    law_locate_holds_frame(a, f);
}

// ---------------------------------------------------------------------------
// Laws
// ---------------------------------------------------------------------------

/// A cut on a clip boundary loses nothing: the two sides joined give the
/// timeline back.
pub proof fn law_split_on_boundary_restores(s: Seq<ClipValue>, f: int, id: ClipId)
    requires
        clips_ok(s),
        f >= 0,
        !straddles(s, f),
    ensures
        split_seq(s, f, id).0 + split_seq(s, f, id).1 == s,
    decreases s.len(),
{
    if s.len() == 0 {
        assert(Seq::<ClipValue>::empty() + Seq::<ClipValue>::empty() =~= s);
    } else if f <= 0 {
        assert(Seq::<ClipValue>::empty() + s =~= s);
    } else if f >= s[0].len {
        let t = s.drop_first();
        assert(clips_ok(t)) by {
            assert forall|i: int| 0 <= i < t.len() implies (#[trigger] t[i]).len > 0 && t[i].fits() by {
                assert(t[i] == s[i + 1]);
            }
        }
        law_split_on_boundary_restores(t, f - s[0].len, id);
        let r = split_seq(t, f - s[0].len, id);
        assert((seq![s[0]] + r.0) + r.1 =~= seq![s[0]] + (r.0 + r.1));
        assert(seq![s[0]] + t =~= s);
    }
}

/// Replacing a range leaves the frames outside it and adds those of the
/// replacement.
pub proof fn law_replace_range_frames(
    s: Seq<ClipValue>,
    start: u64,
    len: u64,
    middle: Seq<ClipValue>,
    n: u64,
)
    requires
        clips_ok(s),
    ensures
        total(replace_range_spec(s, start, len, middle, n).0) == kept_frames(total(s) as int, start, len)
            + total(middle),
{
    let st = min_int(start as int, total(s) as int);
    let ln = min_int(len as int, total(s) - st);
    let id1 = ClipId((n + 1) as u64);
    let n1 = n + if straddles(s, st) {
        1int
    } else {
        0int
    };
    let id2 = ClipId((n1 + 1) as u64);
    let a = split_seq(s, st, id1);
    lemma_split_totals(s, st, id1);
    let b = split_seq(a.1, ln, id2);
    lemma_split_totals(a.1, ln, id2);
    lemma_total_concat(a.0, middle);
    lemma_total_concat(a.0 + middle, b.1);
}

/// The clip that `locate` finds holds the frame: it starts where the clips
/// before it end, at or before the frame, and ends after it.
pub proof fn law_locate_holds_frame(s: Seq<ClipValue>, f: int)
    requires
        clips_ok(s),
        0 <= f < total(s),
    ensures
        0 <= locate(s, f).0 < s.len(),
        locate(s, f).1 == total(s.take(locate(s, f).0)),
        locate(s, f).1 <= f < locate(s, f).1 + s[locate(s, f).0].len,
    decreases s.len(),
{
    lemma_total_first(s);
    assert(s.take(0) =~= Seq::<ClipValue>::empty());
    if f >= s[0].len {
        let t = s.drop_first();
        assert(clips_ok(t)) by {
            assert forall|i: int| 0 <= i < t.len() implies (#[trigger] t[i]).len > 0 && t[i].fits() by {
                assert(t[i] == s[i + 1]);
            }
        }
        law_locate_holds_frame(t, f - s[0].len);
        let k = locate(t, f - s[0].len).0;
        assert(s.take(k + 1) =~= seq![s[0]] + t.take(k));
        lemma_total_concat(seq![s[0]], t.take(k));
        lemma_total_single(s[0]);
        assert(s[k + 1] == t[k]);
    }
}

} // verus!
