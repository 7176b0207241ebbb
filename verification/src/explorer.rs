use vstd::prelude::*;

use crate::session::DocumentId;

verus! {

/// What a click in the document list asks for.
#[derive(Debug, Clone, Copy, PartialEq, Eq, Structural)]
pub enum ExplorerEvent {
    Activate(DocumentId),
    OpenTab(DocumentId),
    Close(DocumentId),
}

/// What the user chose when quitting with unsaved documents.
#[derive(Debug, Clone, Copy, PartialEq, Eq, Structural)]
pub enum QuitUnsavedAction {
    SaveAll,
    SaveSelected,
    Discard,
}

/// The index of the first of `items` that is `id`, or `items.len()`.
pub open spec fn position_of(items: Seq<DocumentId>, id: DocumentId) -> int
    decreases items.len(),
{
    if items.len() == 0 {
        0
    } else if items[0] == id {
        0
    } else {
        position_of(items.drop_first(), id) + 1
    }
}

proof fn lemma_position_of(items: Seq<DocumentId>, id: DocumentId, i: int)
    requires
        0 <= i <= items.len(),
        forall|k: int| 0 <= k < i ==> items[k] != id,
        i < items.len() ==> items[i] == id,
    ensures
        position_of(items, id) == i,
    decreases items.len(),
{
    if items.len() > 0 && i > 0 {
        let t = items.drop_first();
        assert forall|k: int| 0 <= k < i - 1 implies t[k] != id by {
            assert(t[k] == items[k + 1]);
        }
        if i < items.len() {
            assert(t[i - 1] == items[i]);
        }
        assert(items[0] != id);
        lemma_position_of(t, id, i - 1);
    }
}

/// Where moving the list selection `delta` rows lands: from the selected
/// document (else the active one, else the first row), wrapping around at
/// either end. Nothing changes in an empty list.
pub open spec fn select_delta_spec(
    items: Seq<DocumentId>,
    selected: Option<DocumentId>,
    active: Option<DocumentId>,
    delta: int,
) -> Option<DocumentId> {
    if items.len() == 0 {
        selected
    } else {
        let current = match selected {
            Some(id) => Some(id),
            None => active,
        };
        let ix = match current {
            Some(id) => if position_of(items, id) < items.len() {
                position_of(items, id)
            } else {
                0
            },
            None => 0,
        };
        Some(items[(ix + delta) % (items.len() as int)])
    }
}

/// A negative position wraps around from the end: `n` steps back from 0 is
/// `len - 1 - (-(n + 1)) % len`.
proof fn lemma_wrap_back(n: int, len: int)
    requires
        n < 0,
        len > 0,
    ensures
        n % len == len - 1 - (-(n + 1)) % len,
{
    let m = -(n + 1);
    let q = m / len;
    let r = m % len;
    assert(m == q * len + r && 0 <= r < len) by (nonlinear_arith)
        requires
            len > 0,
            q == m / len,
            r == m % len,
    ;
    assert(n == (-q - 1) * len + (len - 1 - r)) by (nonlinear_arith)
        requires
            m == q * len + r,
            n == -(m + 1),
    ;
    vstd::arithmetic::div_mod::lemma_fundamental_div_mod_converse(n, len, -q - 1, len - 1 - r);
}

/// Moves the list selection `delta` rows.
pub fn select_delta(
    items: &[DocumentId],
    selected: Option<DocumentId>,
    active: Option<DocumentId>,
    delta: isize,
) -> (r: Option<DocumentId>)
    requires
        items@.len() <= isize::MAX,
        delta + items@.len() <= isize::MAX,
    ensures
        r == select_delta_spec(items@, selected, active, delta as int),
{
    if items.len() == 0 {
        return selected;
    }
    let current = match selected {
        Some(id) => Some(id),
        None => active,
    };
    let mut ix: usize = 0;
    if let Some(id) = current {
        let mut i: usize = 0;
        while i < items.len() && items[i] != id
            invariant
                i <= items@.len(),
                forall|k: int| 0 <= k < i ==> items@[k] != id,
            decreases items@.len() - i,
        {
            i += 1;
        }
        proof {
            lemma_position_of(items@, id, i as int);
        }
        if i < items.len() {
            ix = i;
        }
    }
    let len = items.len();
    let sum = ix as isize + delta;
    let next: usize = if sum >= 0 {
        (sum as usize) % len
    } else {
        let back = ((-(sum + 1)) as usize) % len;
        proof {
            lemma_wrap_back(sum as int, len as int);
        }
        len - 1 - back
    };
    proof {
        assert(next == (ix + delta) % (items@.len() as int));
    }
    Some(items[next as usize])
}

} // verus!
