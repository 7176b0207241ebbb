use snd_review::clip::{Clip, ClipId, ClipMarker, ClipMarkerId, ClipSource, ClipSpan, MediaId};

fn marker(id: u64, offset: u64) -> ClipMarker {
    ClipMarker {
        id: ClipMarkerId(id),
        offset,
        color: None,
        label_type: None,
        message: None,
    }
}

#[test]
fn split_divides_len_source_and_markers() {
    let clip = Clip {
        id: ClipId(1),
        len: 10,
        source: Some(ClipSource {
            media_id: MediaId(7),
            offset: 100,
        }),
        fade_in: 3,
        fade_out: 2,
        markers: vec![marker(1, 2), marker(2, 7)],
    };
    let (left, right) = clip.split(4, ClipId(2));
    assert_eq!(left.len, 4);
    assert_eq!(right.len, 6);
    assert_eq!(left.source.as_ref().unwrap().offset, 100);
    assert_eq!(right.source.as_ref().unwrap().offset, 104);
    assert_eq!(left.markers.len(), 1);
    assert_eq!(right.markers[0].offset, 3);
    assert_eq!(left.fade_in, 3);
    assert_eq!(right.fade_in, 0);
    assert_eq!(left.fade_out, 0);
    assert_eq!(right.fade_out, 2);
    assert_eq!(right.id, ClipId(2));
}

#[test]
fn split_past_the_end_keeps_everything_left() {
    let clip = Clip::silence(ClipId(3), 5);
    let (left, right) = clip.split(50, ClipId(4));
    assert_eq!(left.len, 5);
    assert_eq!(right.len, 0);
    assert!(right.source.is_none());
}

#[test]
fn roll_clamps_to_media() {
    let clip = Clip::from_media(ClipId(1), MediaId(1), 8, 4);
    let rolled = clip.with_rolled_offset(10, 12);
    assert_eq!(rolled.source.unwrap().offset, 8);
    let rolled = clip.with_rolled_offset(-20, 12);
    assert_eq!(rolled.source.unwrap().offset, 0);
    let rolled = clip.with_rolled_offset(-3, 12);
    assert_eq!(rolled.source.unwrap().offset, 5);
    let silent = Clip::silence(ClipId(2), 4).with_rolled_offset(5, 12);
    assert!(silent.source.is_none());
}

#[test]
fn spans_know_their_frames() {
    let span = ClipSpan {
        start: 10,
        clip: Clip::silence(ClipId(1), 5),
    };
    assert_eq!(span.end(), 15);
    assert!(span.contains(10));
    assert!(span.contains(14));
    assert!(!span.contains(15));
    assert!(!span.contains(9));
}
