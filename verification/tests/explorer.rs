use snd_review::explorer::select_delta;
use snd_review::session::DocumentId;

#[test]
fn list_selection_moves_and_wraps() {
    let items = [DocumentId(1), DocumentId(2), DocumentId(3)];
    assert_eq!(select_delta(&items, None, Some(DocumentId(2)), 1), Some(DocumentId(3)));
    assert_eq!(select_delta(&items, Some(DocumentId(3)), Some(DocumentId(1)), 1), Some(DocumentId(1)));
    assert_eq!(select_delta(&items, Some(DocumentId(1)), None, -1), Some(DocumentId(3)));
    assert_eq!(select_delta(&items, None, None, 1), Some(DocumentId(2)));
    assert_eq!(select_delta(&items, Some(DocumentId(9)), None, -4), Some(DocumentId(3)));
    assert_eq!(select_delta(&[], Some(DocumentId(4)), None, 1), Some(DocumentId(4)));
}
