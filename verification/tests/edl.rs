use snd_review::clip::{Clip, ClipId, MediaId};
use snd_review::edit_op::{EditId, EditOp};
use snd_review::edl::{check_envelope, EnvelopeError, Edl};
use snd_review::tree::ClipTree;

#[test]
fn undo_redo_and_jump() {
    let mut edl = Edl::new(ClipTree::empty());
    let a = ClipTree::from_clip(Clip::silence(ClipId(1), 10));
    let b = ClipTree::from_clip(Clip::from_media(ClipId(2), MediaId(1), 0, 4));
    let id_a = edl.push(EditOp::Delete { start: 0, len: 1 }, a);
    let id_b = edl.push(EditOp::Paste { at: 0, len: 4 }, b.clone());
    assert!(edl.can_undo());
    edl.undo();
    assert_eq!(edl.current_id(), id_a);
    edl.redo();
    assert_eq!(edl.current_id(), id_b);
    edl.jump_to(id_a);
    assert_eq!(edl.snapshot().frames(), 10);
}

#[test]
fn push_after_undo_drops_the_redo_tail() {
    let mut edl = Edl::new(ClipTree::empty());
    edl.push(EditOp::Copy { start: 0, len: 1 }, ClipTree::empty());
    edl.push(EditOp::Copy { start: 1, len: 1 }, ClipTree::empty());
    assert!(edl.undo().is_some());
    let id = edl.push(EditOp::Copy { start: 2, len: 1 }, ClipTree::empty());
    assert_eq!(id, EditId(3));
    assert_eq!(edl.len(), 3);
    assert!(!edl.can_redo());
    assert!(edl.redo().is_none());
    assert_eq!(edl.ops_from_first_user().len(), 2);
}

#[test]
fn jumps_to_missing_edits_change_nothing() {
    let mut edl = Edl::new(ClipTree::empty());
    edl.push(EditOp::Copy { start: 0, len: 1 }, ClipTree::empty());
    assert!(edl.jump_to(EditId(9)).is_none());
    assert_eq!(edl.cursor(), 1);
    assert!(edl.jump_to_index(5).is_none());
    assert!(edl.jump_to_index(0).is_some());
    assert_eq!(edl.cursor(), 0);
    assert!(edl.undo().is_none());
}

#[test]
fn envelope_kind_and_version_are_checked() {
    assert_eq!(check_envelope("facomp", 1), Ok(()));
    assert_eq!(check_envelope("facomp", 2), Ok(()));
    assert_eq!(check_envelope("other", 2), Err(EnvelopeError::WrongKind));
    assert_eq!(check_envelope("facomp", 0), Err(EnvelopeError::MissingVersion));
    assert_eq!(
        check_envelope("facomp", 3),
        Err(EnvelopeError::NewerVersion(3))
    );
}
