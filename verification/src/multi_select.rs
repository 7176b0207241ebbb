use std::collections::BTreeSet;

use vstd::prelude::*;

verus! {

broadcast use vstd::std_specs::btree::group_btree_axioms;

/// The rows `lo..=hi`.
pub open spec fn row_range(lo: usize, hi: usize) -> Set<usize> {
    Set::new(|i: usize| lo <= i <= hi)
}

/// A selection of rows of a list, with the row a shift-click extends from.
#[derive(Debug)]
pub struct MultiSelect {
    pub selected: BTreeSet<usize>,
    pub anchor: usize,
}

/// What a click on row `index` of `count` rows makes of a selection
/// `(selected, anchor)`: a shift-click selects the rows from the anchor to
/// it (added to the selection with `disjoint`), a `disjoint` click toggles
/// the row, and a plain click selects the row alone, or clears a selection
/// of just that row. Rows past the end are ignored.
pub open spec fn click_spec(
    selected: Set<usize>,
    anchor: usize,
    index: usize,
    shift: bool,
    disjoint: bool,
    count: usize,
) -> (Set<usize>, usize) {
    if index >= count {
        (selected, anchor)
    } else if shift {
        let lo = if anchor <= index {
            anchor
        } else {
            index
        };
        let hi = if anchor <= index {
            index
        } else {
            anchor
        };
        if disjoint {
            (selected.union(row_range(lo, hi)), anchor)
        } else {
            (row_range(lo, hi), anchor)
        }
    } else if disjoint {
        if selected.contains(index) {
            (selected.remove(index), index)
        } else {
            (selected.insert(index), index)
        }
    } else if selected.len() == 1 && selected.contains(index) {
        (Set::empty(), index)
    } else {
        (set![index], index)
    }
}

impl MultiSelect {
    /// Every one of `count` rows selected, anchored at the first.
    pub fn all(count: usize) -> (s: MultiSelect)
        ensures
            s.selected@ == Set::new(|i: usize| i < count),
            s.anchor == 0,
    {
        let mut selected: BTreeSet<usize> = BTreeSet::new();
        let mut i: usize = 0;
        while i < count
            invariant
                i <= count,
                selected@ == Set::new(|k: usize| k < i),
            decreases count - i,
        {
            selected.insert(i);
            i += 1;
            proof {
                assert(selected@ =~= Set::new(|k: usize| k < i));
            }
        }
        MultiSelect { selected, anchor: 0 }
    }

    /// Adds the rows `lo..=hi` to the selection.
    fn add_rows(&mut self, lo: usize, hi: usize)
        requires
            lo <= hi,
        ensures
            final(self).selected@ == old(self).selected@.union(row_range(lo, hi)),
            final(self).anchor == old(self).anchor,
    {
        let mut i: usize = lo;
        loop
            invariant_except_break
                lo <= i <= hi,
                self.selected@ == old(self).selected@.union(Set::new(|k: usize| lo <= k < i)),
            invariant
                self.anchor == old(self).anchor,
            ensures
                self.selected@ == old(self).selected@.union(row_range(lo, hi)),
                self.anchor == old(self).anchor,
            decreases hi - i,
        {
            self.selected.insert(i);
            if i == hi {
                proof {
                    assert(self.selected@ =~= old(self).selected@.union(row_range(lo, hi)));
                }
                break;
            }
            i += 1;
            proof {
                assert(self.selected@ =~= old(self).selected@.union(Set::new(|k: usize| lo <= k < i)));
            }
        }
    }

    /// Applies a click on row `index` of `count` rows.
    pub fn click(&mut self, index: usize, shift: bool, disjoint: bool, count: usize)
        ensures
            (final(self).selected@, final(self).anchor) == click_spec(
                old(self).selected@,
                old(self).anchor,
                index,
                shift,
                disjoint,
                count,
            ),
    {
        if index >= count {
            return;
        }
        if shift {
            let start = if self.anchor <= index {
                self.anchor
            } else {
                index
            };
            let end = if self.anchor <= index {
                index
            } else {
                self.anchor
            };
            if disjoint {
                self.add_rows(start, end);
            } else {
                self.selected.clear();
                self.add_rows(start, end);
                proof {
                    assert(self.selected@ =~= row_range(start, end));
                }
            }
        } else if disjoint {
            if !self.selected.remove(&index) {
                self.selected.insert(index);
            }
            self.anchor = index;
        } else if self.selected.len() == 1 && self.selected.contains(&index) {
            self.selected.clear();
            self.anchor = index;
        } else {
            self.selected.clear();
            self.selected.insert(index);
            proof {
                assert(self.selected@ =~= set![index]);
            }
            self.anchor = index;
        }
    }
}

} // verus!
