use vstd::prelude::*;

verus! {

/// How far a snap looks for a zero crossing by default, in samples.
pub const DEFAULT_SEARCH_RADIUS: usize = 4096;

/// The samples a search around `s` looks at, in order, out to `radius`:
/// `s` itself, then for each distance the sample that far before `s` and
/// the one that far after it, each when it lies within `len` samples.
pub open spec fn probes(s: usize, len: usize, radius: nat) -> Seq<usize>
    decreases radius,
{
    if radius == 0 {
        seq![s]
    } else {
        let before = probes(s, len, (radius - 1) as nat);
        let left = if s >= radius {
            seq![(s - radius) as usize]
        } else {
            Seq::<usize>::empty()
        };
        let right = if s + radius < len {
            seq![(s + radius) as usize]
        } else {
            Seq::<usize>::empty()
        };
        before + left + right
    }
}

proof fn lemma_probes_prefix(s: usize, len: usize, a: nat, b: nat)
    requires
        a <= b,
    ensures
        probes(s, len, a).len() <= probes(s, len, b).len(),
        forall|j: int| 0 <= j < probes(s, len, a).len() ==> #[trigger] probes(s, len, b)[j] == probes(s, len, a)[j],
    decreases b,
{
    if a < b {
        lemma_probes_prefix(s, len, a, (b - 1) as nat);
    }
}

/// Whether `r` is where the search for a crossing in `probes` ends: the
/// first probe `is_crossing` answered yes for, after a no for each before
/// it; or `fallback` when it answered no for all of them.
pub open spec fn search_result<F: Fn(usize) -> bool>(probes: Seq<usize>, is_crossing: F, fallback: usize, r: usize) -> bool {
    ||| (exists|k: int|
        0 <= k < probes.len() && (forall|j: int| 0 <= j < k ==> is_crossing.ensures((#[trigger] probes[j],), false))
            && is_crossing.ensures((probes[k],), true) && r == probes[k])
    ||| (forall|j: int| 0 <= j < probes.len() ==> is_crossing.ensures((#[trigger] probes[j],), false)) && r
        == fallback
}

/// The nearest sample to `sample` (kept within `len` samples) where
/// `is_crossing` holds, looking outward up to `search_radius` samples, the
/// earlier side first at each distance; `sample` itself (kept within) when
/// there is none, and 0 for no samples.
pub fn nearest_crossing<F: Fn(usize) -> bool>(len: usize, sample: usize, search_radius: usize, is_crossing: &F) -> (r:
    usize)
    requires
        forall|i: usize| is_crossing.requires((i,)),
    ensures
        len == 0 ==> r == 0,
        len > 0 ==> ({
            let s = if sample < len {
                sample
            } else {
                (len - 1) as usize
            };
            search_result(probes(s, len, search_radius as nat), *is_crossing, s, r)
        }),
{
    if len == 0 {
        return 0;
    }
    let s = if sample < len {
        sample
    } else {
        len - 1
    };
    let ghost all = probes(s, len, search_radius as nat);
    if is_crossing(s) {
        proof {
            lemma_probes_prefix(s, len, 0, search_radius as nat);
            assert(all[0] == s);
            assert(search_result(all, *is_crossing, s, s));
        }
        return s;
    }
    let mut offset: usize = 0;
    while offset < search_radius
        invariant
            offset <= search_radius,
            s < len,
            s == if sample < len {
                sample
            } else {
                (len - 1) as usize
            },
            all == probes(s, len, search_radius as nat),
            forall|i: usize| is_crossing.requires((i,)),
            forall|j: int|
                0 <= j < probes(s, len, offset as nat).len() ==> is_crossing.ensures(
                    (#[trigger] probes(s, len, offset as nat)[j],),
                    false,
                ),
        decreases search_radius - offset,
    {
        let ghost before = probes(s, len, offset as nat);
        offset += 1;
        let ghost now = probes(s, len, offset as nat);
        proof {
            assert(now == before + (if s >= offset {
                seq![(s - offset) as usize]
            } else {
                Seq::<usize>::empty()
            }) + (if s + offset < len {
                seq![(s + offset) as usize]
            } else {
                Seq::<usize>::empty()
            }));
            lemma_probes_prefix(s, len, offset as nat, search_radius as nat);
            assert forall|j: int| 0 <= j < before.len() implies #[trigger] now[j] == before[j] by {}
        }
        if s >= offset {
            let left = s - offset;
            if is_crossing(left) {
                proof {
                    let k = before.len() as int;
                    assert(now[k] == left);
                    assert(all[k] == left);
                    assert forall|j: int| 0 <= j < k implies is_crossing.ensures((#[trigger] all[j],), false) by {
                        assert(all[j] == now[j]);
                        assert(now[j] == before[j]);
                    }
                    assert(search_result(all, *is_crossing, s, left));
                }
                return left;
            }
        }
        if offset < len - s {
            let right = s + offset;
            if is_crossing(right) {
                proof {
                    let k = now.len() - 1;
                    assert(now[k] == right);
                    assert(all[k] == right);
                    assert forall|j: int| 0 <= j < k implies is_crossing.ensures((#[trigger] all[j],), false) by {
                        assert(all[j] == now[j]);
                        if j < before.len() {
                            assert(now[j] == before[j]);
                        }
                    }
                    assert(search_result(all, *is_crossing, s, right));
                }
                return right;
            }
        }
        proof {
            assert forall|j: int| 0 <= j < now.len() implies is_crossing.ensures((#[trigger] now[j],), false) by {
                if j < before.len() {
                    assert(now[j] == before[j]);
                }
            }
        }
    }
    proof {
        assert forall|j: int| 0 <= j < all.len() implies is_crossing.ensures((#[trigger] all[j],), false) by {
            assert(all[j] == probes(s, len, offset as nat)[j]);
        }
        assert(search_result(all, *is_crossing, s, s));
    }
    s
}

} // verus!
