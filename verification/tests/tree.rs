use snd_review::clip::{Clip, ClipId, MediaId};
use snd_review::tree::ClipTree;

fn leaf(id: u64, len: u64) -> Clip {
    Clip::from_media(ClipId(id), MediaId(1), id * 10, len)
}

#[test]
fn at_and_spans_cover_timeline() {
    let tree = ClipTree::from_clips(vec![leaf(1, 10), leaf(2, 5), leaf(3, 20)]);
    assert_eq!(tree.frames(), 35);
    assert_eq!(tree.clip_count(), 3);
    assert_eq!(tree.at(0).unwrap().clip.id, ClipId(1));
    assert_eq!(tree.at(10).unwrap().clip.id, ClipId(2));
    assert_eq!(tree.at(15).unwrap().clip.id, ClipId(3));
    assert!(tree.at(35).is_none());
    let spans = tree.spans();
    assert_eq!(
        spans.iter().map(|s| s.start).collect::<Vec<_>>(),
        vec![0, 10, 15]
    );
}

#[test]
fn split_and_concat_round_trip() {
    let tree = ClipTree::from_clips(vec![leaf(1, 10), leaf(2, 10), leaf(3, 10)]);
    let mut next_id = 100u64;
    let (left, right) = tree.split(15, &mut next_id);
    assert_eq!(left.frames(), 15);
    assert_eq!(right.frames(), 15);
    assert_eq!(next_id, 101);
    assert_eq!(right.at(0).unwrap().clip.id, ClipId(101));
    let joined = ClipTree::concat(left, right);
    assert_eq!(joined.frames(), 30);
    assert_eq!(joined.clip_count(), 4);
}

#[test]
fn replace_range_inserts_and_removes() {
    let tree = ClipTree::from_clips(vec![leaf(1, 10), leaf(2, 10)]);
    let mut next_id = 100u64;
    let removed = tree.replace_range(5, 10, ClipTree::empty(), &mut next_id);
    assert_eq!(removed.frames(), 10);
    let inserted = tree.replace_range(10, 0, ClipTree::from_clip(leaf(9, 3)), &mut next_id);
    assert_eq!(inserted.frames(), 23);
    assert_eq!(inserted.at(10).unwrap().clip.id, ClipId(9));
}

#[test]
fn concat_many_clips_stays_balanced_enough_to_query() {
    let clips: Vec<_> = (0..64).map(|i| leaf(i, 3)).collect();
    let tree = ClipTree::from_clips(clips);
    assert_eq!(tree.frames(), 192);
    assert_eq!(tree.clip_count(), 64);
    assert_eq!(tree.at(0).unwrap().clip.id, ClipId(0));
    assert_eq!(tree.at(191).unwrap().clip.id, ClipId(63));
}

#[test]
fn zero_length_clips_are_left_out() {
    let tree = ClipTree::from_clips(vec![leaf(1, 0), leaf(2, 4), leaf(3, 0)]);
    assert_eq!(tree.clip_count(), 1);
    assert!(ClipTree::from_clip(leaf(4, 0)).is_empty());
}

#[test]
fn split_on_a_boundary_uses_no_id() {
    let tree = ClipTree::from_clips(vec![leaf(1, 10), leaf(2, 10)]);
    let mut next_id = 7u64;
    let (left, right) = tree.split(10, &mut next_id);
    assert_eq!(next_id, 7);
    assert_eq!(left.clip_count(), 1);
    assert_eq!(right.clip_count(), 1);
    let (all, none) = tree.split(500, &mut next_id);
    assert_eq!(all.frames(), 20);
    assert!(none.is_empty());
}

#[test]
fn clips_in_range_cuts_both_ends() {
    let tree = ClipTree::from_clips(vec![leaf(1, 10), leaf(2, 10)]);
    let mut next_id = 50u64;
    let clips = tree.clips_in_range(5, 10, &mut next_id);
    assert_eq!(clips.iter().map(|c| c.len).collect::<Vec<_>>(), vec![5, 5]);
    assert_eq!(clips[0].source.unwrap().offset, 15);
    assert_eq!(clips[1].id, ClipId(2));
    assert_eq!(next_id, 52);
}

#[test]
fn map_clip_at_replaces_the_clip_under_a_frame() {
    let tree = ClipTree::from_clips(vec![leaf(1, 10), leaf(2, 10)]);
    let mapped = tree.map_clip_at(12, |c: &Clip| {
        let mut c = c.clone();
        c.fade_in = 3;
        c
    });
    let spans = mapped.spans();
    assert_eq!(spans[1].clip.fade_in, 3);
    assert_eq!(spans[0].clip.fade_in, 0);
}
