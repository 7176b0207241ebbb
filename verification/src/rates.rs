use vstd::prelude::*;

verus! {

/// `sorted` with `x` put after every value not above it.
pub open spec fn insert_ascending(sorted: Seq<u32>, x: u32) -> Seq<u32>
    decreases sorted.len(),
{
    if sorted.len() == 0 {
        seq![x]
    } else if sorted.last() <= x {
        sorted.push(x)
    } else {
        insert_ascending(sorted.drop_last(), x).push(sorted.last())
    }
}

/// `s` in ascending order.
pub open spec fn sort_ascending(s: Seq<u32>) -> Seq<u32>
    decreases s.len(),
{
    if s.len() == 0 {
        seq![]
    } else {
        insert_ascending(sort_ascending(s.drop_last()), s.last())
    }
}

/// The sample rates a render can pick: the presets, with a nonzero
/// `current` rate added and all sorted when it is not among them.
pub open spec fn rate_choices_spec(presets: Seq<u32>, current: u32) -> Seq<u32> {
    if current > 0 && !presets.contains(current) {
        sort_ascending(presets.push(current))
    } else {
        presets
    }
}

proof fn lemma_insert_ascending_at(s: Seq<u32>, x: u32, p: int)
    requires
        0 <= p <= s.len(),
        p > 0 ==> s[p - 1] <= x,
        forall|k: int| p <= k < s.len() ==> s[k] > x,
    ensures
        insert_ascending(s, x) == s.insert(p, x),
    decreases s.len(),
{
    if s.len() == 0 {
        assert(s.insert(p, x) =~= seq![x]);
    } else if p == s.len() {
        assert(s.insert(p, x) =~= s.push(x));
    } else {
        let t = s.drop_last();
        if p > 0 {
            assert(t[p - 1] == s[p - 1]);
        }
        lemma_insert_ascending_at(t, x, p);
        assert(t.insert(p, x).push(s.last()) =~= s.insert(p, x));
    }
}

fn insert_ascending_exec(v: &mut Vec<u32>, x: u32)
    ensures
        final(v)@ == insert_ascending(old(v)@, x),
{
    let ghost s = v@;
    let mut p: usize = v.len();
    while p > 0 && v[p - 1] > x
        invariant
            p <= s.len(),
            v@ == s,
            forall|k: int| p <= k < s.len() ==> s[k] > x,
        decreases p,
    {
        p -= 1;
    }
    proof {
        lemma_insert_ascending_at(s, x, p as int);
    }
    v.insert(p, x);
}

/// The rates offered for a render: `presets`, plus the composition's own
/// nonzero rate `current` when it is not a preset, all sorted then.
pub fn rate_choices(presets: &[u32], current: u32) -> (rates: Vec<u32>)
    ensures
        rates@ == rate_choices_spec(presets@, current),
{
    let mut contained = false;
    let mut i: usize = 0;
    while i < presets.len()
        invariant
            i <= presets@.len(),
            contained == presets@.take(i as int).contains(current),
        decreases presets@.len() - i,
    {
        proof {
            assert(presets@.take(i + 1) =~= presets@.take(i as int).push(presets@[i as int]));
        }
        if presets[i] == current {
            contained = true;
            proof {
                assert(presets@.take(i + 1)[i as int] == current);
            }
        } else {
            proof {
                let t = presets@.take(i + 1);
                if t.contains(current) {
                    let j = choose|j: int| 0 <= j < t.len() && #[trigger] t[j] == current;
                    assert(j < i);
                    assert(presets@.take(i as int)[j] == current);
                }
            }
        }
        i += 1;
    }
    proof {
        assert(presets@.take(presets@.len() as int) =~= presets@);
    }
    if current > 0 && !contained {
        let ghost all = presets@.push(current);
        let mut sorted: Vec<u32> = Vec::new();
        let mut k: usize = 0;
        proof {
            assert(all.take(0) =~= Seq::<u32>::empty());
        }
        while k < presets.len()
            invariant
                k <= presets@.len(),
                all == presets@.push(current),
                sorted@ == sort_ascending(all.take(k as int)),
            decreases presets@.len() - k,
        {
            let x = presets[k];
            proof {
                assert(all[k as int] == x);
                assert(all.take(k + 1).drop_last() =~= all.take(k as int));
            }
            insert_ascending_exec(&mut sorted, x);
            k += 1;
        }
        proof {
            assert(all.take(k as int) =~= all.drop_last());
            assert(all.last() == current);
        }
        insert_ascending_exec(&mut sorted, current);
        sorted
    } else {
        let mut out: Vec<u32> = Vec::new();
        let mut k: usize = 0;
        while k < presets.len()
            invariant
                k <= presets@.len(),
                out@ == presets@.take(k as int),
            decreases presets@.len() - k,
        {
            out.push(presets[k]);
            k += 1;
            proof {
                assert(out@ =~= presets@.take(k as int));
            }
        }
        proof {
            assert(presets@.take(presets@.len() as int) =~= presets@);
        }
        out
    }
}

} // verus!
