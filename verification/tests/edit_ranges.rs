use snd_review::clip::{Clip, ClipId, MediaId};
use snd_review::edit_op::{EditId, EditOp};
use snd_review::edit_ranges::{
    invert_op, landing_ranges, map_inclusive_through_inverse, map_inclusive_through_op,
    map_point_if_kept, map_point_if_kept_inverse, map_point_through_inverse, map_point_through_op,
    map_range_through_op, modified_ranges, ranges_for_edit,
};
use snd_review::edl::Edit;
use snd_review::tree::ClipTree;

fn media_tree(len: u64) -> ClipTree {
    ClipTree::from_clip(Clip::from_media(ClipId(1), MediaId(0), 0, len))
}

fn edit(id: u64, op: EditOp, snapshot: ClipTree) -> Edit {
    Edit {
        id: EditId(id),
        op,
        snapshot,
    }
}

#[test]
fn delete_lands_in_place() {
    let pre = media_tree(20);
    let ranges = landing_ranges(&EditOp::Delete { start: 5, len: 5 }, &pre);
    assert_eq!(ranges, vec![(5, 10)]);
}

#[test]
fn paste_and_duplicate_land_on_inserted_block() {
    let pre = media_tree(10);
    assert_eq!(
        landing_ranges(&EditOp::Paste { at: 2, len: 4 }, &pre),
        vec![(2, 6)]
    );
    assert_eq!(
        landing_ranges(&EditOp::Duplicate { start: 0, len: 3 }, &pre),
        vec![(3, 6)]
    );
}

#[test]
fn later_insert_shifts_earlier_delete() {
    let edits = vec![
        edit(0, EditOp::Init, media_tree(20)),
        edit(1, EditOp::Delete { start: 5, len: 5 }, media_tree(20)),
        edit(2, EditOp::Paste { at: 0, len: 4 }, media_tree(24)),
    ];
    assert_eq!(ranges_for_edit(&edits, 2, 1), vec![(9, 14)]);
    assert_eq!(modified_ranges(&edits, 2), vec![(0, 4), (9, 14)]);
}

#[test]
fn remove_drops_covered_range_and_shifts_the_rest() {
    assert_eq!(
        map_range_through_op(0, 10, &EditOp::Remove { start: 2, len: 3 }),
        vec![(0, 2), (2, 7)]
    );
    assert_eq!(
        map_range_through_op(8, 12, &EditOp::Remove { start: 2, len: 3 }),
        vec![(5, 9)]
    );
}

#[test]
fn move_relocates_the_moved_block() {
    assert_eq!(
        map_range_through_op(
            10,
            20,
            &EditOp::Move {
                from: 10,
                len: 10,
                dest: 50
            }
        ),
        vec![(40, 50)]
    );
}

#[test]
fn paste_shifts_a_later_point() {
    assert_eq!(
        map_point_through_op(50, &EditOp::Paste { at: 0, len: 10 }),
        60
    );
    assert_eq!(
        map_point_through_inverse(60, &EditOp::Paste { at: 0, len: 10 }),
        50
    );
}

#[test]
fn remove_collapses_a_point_inside_the_hole() {
    assert_eq!(
        map_point_through_op(12, &EditOp::Remove { start: 10, len: 5 }),
        10
    );
}

#[test]
fn insert_expands_an_inclusive_selection() {
    assert_eq!(
        map_inclusive_through_op(40, 59, &EditOp::Paste { at: 50, len: 10 }),
        Some((40, 69))
    );
}

#[test]
fn kept_point_round_trips_through_an_op_and_its_inverse() {
    let op = EditOp::Cut { start: 10, len: 5 };
    let forward = map_point_if_kept(20, &op).unwrap();
    assert_eq!(forward, 15);
    assert_eq!(map_point_if_kept_inverse(forward, &op), Some(20));
    assert_eq!(map_point_if_kept(12, &op), None);
}

#[test]
fn inverse_of_paste_is_a_remove() {
    assert_eq!(
        invert_op(&EditOp::Paste { at: 3, len: 4 }),
        Some(EditOp::Remove { start: 3, len: 4 })
    );
    assert_eq!(invert_op(&EditOp::Copy { start: 3, len: 4 }), None);
}

#[test]
fn inclusive_range_maps_back_through_the_inverse() {
    let op = EditOp::Paste { at: 50, len: 10 };
    assert_eq!(map_inclusive_through_inverse(40, 69, &op), Some((40, 59)));
}

#[test]
fn trim_keeps_the_window() {
    assert_eq!(
        map_range_through_op(5, 30, &EditOp::Trim { start: 10, len: 10 }),
        vec![(0, 10)]
    );
    assert_eq!(
        map_range_through_op(0, 5, &EditOp::Trim { start: 10, len: 10 }),
        Vec::<(u64, u64)>::new()
    );
}

#[test]
fn roll_lands_on_the_rolled_clip() {
    let pre = ClipTree::from_clips(vec![
        Clip::from_media(ClipId(1), MediaId(1), 0, 10),
        Clip::from_media(ClipId(2), MediaId(1), 20, 5),
    ]);
    assert_eq!(
        landing_ranges(&EditOp::Roll { at: 12, delta: 3 }, &pre),
        vec![(10, 15)]
    );
    assert_eq!(
        landing_ranges(&EditOp::Roll { at: 15, delta: 3 }, &pre),
        Vec::<(u64, u64)>::new()
    );
}

#[test]
fn moves_in_either_direction_invert_exactly() {
    let left = EditOp::Move { from: 50, len: 10, dest: 10 };
    assert_eq!(map_point_through_op(55, &left), 15);
    assert_eq!(map_point_through_inverse(15, &left), 55);
    assert_eq!(map_point_if_kept(55, &left), Some(15));
    assert_eq!(map_point_if_kept_inverse(15, &left), Some(55));
    assert_eq!(
        invert_op(&left),
        Some(EditOp::Move { from: 10, len: 10, dest: 60 })
    );
    for p in 0..100u64 {
        let q = map_point_through_op(p, &left);
        assert_eq!(map_point_through_inverse(q, &left), p);
    }
    let right = EditOp::Move { from: 10, len: 10, dest: 50 };
    assert_eq!(map_point_through_op(15, &right), 45);
    assert_eq!(map_point_through_inverse(45, &right), 15);
    for p in 0..100u64 {
        let q = map_point_through_op(p, &right);
        assert_eq!(map_point_through_inverse(q, &right), p);
    }
    assert_eq!(map_point_through_inverse(60, &EditOp::Paste { at: 0, len: 10 }), 50);
    assert_eq!(map_point_if_kept_inverse(15, &EditOp::Cut { start: 10, len: 10 }), Some(25));
}
