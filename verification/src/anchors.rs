use vstd::prelude::*;

use crate::buffer::Region;
use crate::markers::MarkerList;

verus! {

/// `v` strictly increasing.
pub open spec fn strictly_increasing(v: Seq<usize>) -> bool {
    forall|i: int, j: int| 0 <= i < j < v.len() ==> v[i] < v[j]
}

/// The points a cursor can jump to: every marker frame and both ends of
/// every region.
pub open spec fn anchor_points(markers: Seq<crate::markers::Marker>, regions: Seq<Region>) -> Set<usize> {
    Set::new(
        |a: usize|
            (exists|i: int| 0 <= i < markers.len() && markers[i].frame as usize == a) || (exists|i: int|
                0 <= i < regions.len() && (regions[i].start == a || regions[i].end == a)),
    )
}

/// Puts `x` into the strictly increasing `v`, unless it is there.
fn insert_unique(v: &mut Vec<usize>, x: usize)
    requires
        strictly_increasing(old(v)@),
    ensures
        strictly_increasing(final(v)@),
        final(v)@.to_set() == old(v)@.to_set().insert(x),
{
    let ghost s = v@;
    let mut p: usize = 0;
    while p < v.len() && v[p] < x
        invariant
            p <= v@.len(),
            v@ == s,
            forall|q: int| 0 <= q < p ==> v@[q] < x,
        decreases v@.len() - p,
    {
        p += 1;
    }
    if p < v.len() && v[p] == x {
        proof {
            assert(s.to_set() =~= s.to_set().insert(x)) by {
                assert(s.contains(x));
            }
        }
        return;
    }
    v.insert(p, x);
    proof {
        s.insert_ensures(p as int, x);
        assert forall|i: int, j: int| 0 <= i < j < v@.len() implies v@[i] < v@[j] by {
            if j < p {
                assert(v@[i] == s[i] && v@[j] == s[j]);
            } else if j == p {
                assert(v@[i] == s[i]);
            } else if i < p {
                assert(v@[i] == s[i] && v@[j] == s[j - 1]);
            } else if i == p {
                assert(v@[j] == s[j - 1]);
            } else {
                assert(v@[i] == s[i - 1] && v@[j] == s[j - 1]);
            }
        }
        assert forall|a: usize| v@.to_set().contains(a) <==> s.to_set().insert(x).contains(a) by {
            if v@.contains(a) {
                let i = choose|i: int| 0 <= i < v@.len() && v@[i] == a;
                if i < p {
                    assert(s[i] == a);
                } else if i > p {
                    assert(s[i - 1] == a);
                }
            }
            if s.contains(a) {
                let i = choose|i: int| 0 <= i < s.len() && s[i] == a;
                if i < p {
                    assert(v@[i] == a);
                } else {
                    assert(v@[i + 1] == a);
                }
            }
            if a == x {
                assert(v@[p as int] == x);
            }
        }
        assert(v@.to_set() =~= s.to_set().insert(x));
    }
}

/// Every marker frame and region end, sorted, each once.
pub fn collect_anchors(markers: &MarkerList, regions: &Vec<Region>) -> (anchors: Vec<usize>)
    requires
        markers.wf(),
    ensures
        strictly_increasing(anchors@),
        anchors@.to_set() == anchor_points(markers.items(), regions@),
{
    let items = markers.to_vec();
    let mut anchors: Vec<usize> = Vec::new();
    let mut i: usize = 0;
    proof {
        assert(anchors@.to_set() =~= Set::<usize>::empty());
    }
    while i < items.len()
        invariant
            i <= items@.len(),
            items@ == markers.items(),
            strictly_increasing(anchors@),
            anchors@.to_set() == Set::new(
                |a: usize| exists|k: int| 0 <= k < i && items@[k].frame as usize == a,
            ),
        decreases items@.len() - i,
    {
        let f = items[i].frame as usize;
        insert_unique(&mut anchors, f);
        i += 1;
        proof {
            assert(anchors@.to_set() =~= Set::new(
                |a: usize| exists|k: int| 0 <= k < i && items@[k].frame as usize == a,
            )) by {
                assert forall|a: usize| (exists|k: int| 0 <= k < i && items@[k].frame as usize == a) implies anchors@.to_set().contains(a) by {
                    let k = choose|k: int| 0 <= k < i && items@[k].frame as usize == a;
                    if k < i - 1 {
                        assert(exists|k2: int| 0 <= k2 < i - 1 && items@[k2].frame as usize == a);
                    }
                }
            }
        }
    }
    let mut r: usize = 0;
    while r < regions.len()
        invariant
            r <= regions@.len(),
            items@ == markers.items(),
            strictly_increasing(anchors@),
            anchors@.to_set() == Set::new(
                |a: usize|
                    (exists|k: int| 0 <= k < items@.len() && items@[k].frame as usize == a) || (exists|k: int|
                        0 <= k < r && (regions@[k].start == a || regions@[k].end == a)),
            ),
        decreases regions@.len() - r,
    {
        insert_unique(&mut anchors, regions[r].start);
        insert_unique(&mut anchors, regions[r].end);
        r += 1;
        proof {
            assert(anchors@.to_set() =~= Set::new(
                |a: usize|
                    (exists|k: int| 0 <= k < items@.len() && items@[k].frame as usize == a) || (exists|k: int|
                        0 <= k < r && (regions@[k].start == a || regions@[k].end == a)),
            )) by {
                assert forall|a: usize|
                    (exists|k: int| 0 <= k < r && (regions@[k].start == a || regions@[k].end == a)) implies anchors@.to_set().contains(a) by {
                    let k = choose|k: int| 0 <= k < r && (regions@[k].start == a || regions@[k].end == a);
                    if k < r - 1 {
                        assert(exists|k2: int| 0 <= k2 < r - 1 && (regions@[k2].start == a || regions@[k2].end == a));
                    }
                }
            }
        }
    }
    proof {
        assert(anchors@.to_set() =~= anchor_points(markers.items(), regions@));
    }
    anchors
}

/// The nearest anchor before `pos`, if any.
pub fn previous_anchor(anchors: &[usize], pos: usize) -> (r: Option<usize>)
    ensures
        r is Some <==> exists|i: int| 0 <= i < anchors@.len() && anchors@[i] < pos,
        r matches Some(a) ==> anchors@.contains(a) && a < pos && forall|i: int|
            0 <= i < anchors@.len() && anchors@[i] < pos ==> anchors@[i] <= a,
{
    let mut best: Option<usize> = None;
    let mut i: usize = 0;
    while i < anchors.len()
        invariant
            i <= anchors@.len(),
            best is Some <==> exists|k: int| 0 <= k < i && anchors@[k] < pos,
            best matches Some(b) ==> anchors@.contains(b) && b < pos && forall|k: int|
                0 <= k < i && anchors@[k] < pos ==> anchors@[k] <= b,
        decreases anchors@.len() - i,
    {
        let a = anchors[i];
        if a < pos {
            best = match best {
                Some(b) => if a > b {
                    Some(a)
                } else {
                    Some(b)
                },
                None => Some(a),
            };
        }
        i += 1;
    }
    best
}

/// The nearest anchor after `pos`, if any.
pub fn next_anchor(anchors: &[usize], pos: usize) -> (r: Option<usize>)
    ensures
        r is Some <==> exists|i: int| 0 <= i < anchors@.len() && anchors@[i] > pos,
        r matches Some(a) ==> anchors@.contains(a) && a > pos && forall|i: int|
            0 <= i < anchors@.len() && anchors@[i] > pos ==> a <= anchors@[i],
{
    let mut best: Option<usize> = None;
    let mut i: usize = 0;
    while i < anchors.len()
        invariant
            i <= anchors@.len(),
            best is Some <==> exists|k: int| 0 <= k < i && anchors@[k] > pos,
            best matches Some(b) ==> anchors@.contains(b) && b > pos && forall|k: int|
                0 <= k < i && anchors@[k] > pos ==> b <= anchors@[k],
        decreases anchors@.len() - i,
    {
        let a = anchors[i];
        if a > pos {
            best = match best {
                Some(b) => if a < b {
                    Some(a)
                } else {
                    Some(b)
                },
                None => Some(a),
            };
        }
        i += 1;
    }
    best
}

} // verus!
