use snd_review::edit_op::EditOp;
use snd_review::markers::{
    default_marker_type, Marker, MarkerId, MarkerList, MARKER_TYPE_BLUE, MARKER_TYPE_PURPLE,
    MARKER_TYPE_YELLOW,
};

fn bits(color: [f32; 4]) -> [u32; 4] {
    [
        color[0].to_bits(),
        color[1].to_bits(),
        color[2].to_bits(),
        color[3].to_bits(),
    ]
}

fn blue() -> [u32; 4] {
    bits([0x3b as f32 / 255.0, 0x82 as f32 / 255.0, 0xf6 as f32 / 255.0, 1.0])
}

fn purple() -> [u32; 4] {
    bits([0xa8 as f32 / 255.0, 0x55 as f32 / 255.0, 0xf7 as f32 / 255.0, 1.0])
}

fn marker(id: u64, frame: u64, marker_type: &str, color: [u32; 4]) -> Marker {
    Marker {
        id: MarkerId(id),
        frame,
        marker_type: marker_type.to_string(),
        color,
        note: None,
    }
}

#[test]
fn insert_delete_and_lookup_are_ordered() {
    let mut list = MarkerList::new();
    let a = list
        .insert(100, MARKER_TYPE_BLUE.to_string(), blue(), None)
        .unwrap();
    let b = list
        .insert(
            20,
            MARKER_TYPE_YELLOW.to_string(),
            bits([1.0, 1.0, 0.0, 1.0]),
            Some("note".into()),
        )
        .unwrap();
    assert!(list
        .insert(100, MARKER_TYPE_BLUE.to_string(), blue(), None)
        .is_none());
    let c = list
        .insert(100, MARKER_TYPE_PURPLE.to_string(), purple(), None)
        .unwrap();
    let frames: Vec<u64> = list.to_vec().iter().map(|m| m.frame).collect();
    assert_eq!(frames, vec![20, 100, 100]);
    assert_eq!(list.get_at(20).map(|m| m.id), Some(b));
    assert_eq!(list.get(a).map(|m| m.frame), Some(100));
    assert_eq!(
        list.get_at_type(100, MARKER_TYPE_PURPLE).map(|m| m.id),
        Some(c)
    );
    assert!(list.remove(a));
    assert_eq!(list.at_frame(100).len(), 1);
    assert!(list.remove_at(20));
    assert!(list.remove_at_type(100, MARKER_TYPE_PURPLE));
    assert!(list.is_empty());
}

#[test]
fn from_vec_skips_duplicate_type_at_frame() {
    let list = MarkerList::from_vec(vec![
        marker(4, 10, MARKER_TYPE_BLUE, blue()),
        marker(5, 10, MARKER_TYPE_BLUE, blue()),
        marker(6, 10, MARKER_TYPE_PURPLE, purple()),
    ]);
    assert_eq!(list.len(), 2);
    assert_eq!(
        list.get_at_type(10, MARKER_TYPE_BLUE).unwrap().id,
        MarkerId(4)
    );
    assert_eq!(
        list.get_at_type(10, MARKER_TYPE_PURPLE).unwrap().id,
        MarkerId(6)
    );
    let id = {
        let mut list = list;
        list.insert(11, MARKER_TYPE_BLUE.to_string(), blue(), None)
            .unwrap()
    };
    assert_eq!(id, MarkerId(7));
}

#[test]
fn remap_cut_shifts_and_drops() {
    let mut list = MarkerList::new();
    list.insert(5, MARKER_TYPE_BLUE.to_string(), blue(), None)
        .unwrap();
    list.insert(15, MARKER_TYPE_BLUE.to_string(), blue(), None)
        .unwrap();
    list.insert(25, MARKER_TYPE_BLUE.to_string(), blue(), None)
        .unwrap();
    list.remap_through_op(&EditOp::Cut { start: 10, len: 10 });
    let frames: Vec<u64> = list.to_vec().iter().map(|m| m.frame).collect();
    assert_eq!(frames, vec![5, 15]);
    list.remap_through_inverse(&EditOp::Cut { start: 10, len: 10 });
    let frames: Vec<u64> = list.to_vec().iter().map(|m| m.frame).collect();
    assert_eq!(frames, vec![5, 25]);
}

#[test]
fn inserting_then_removing_restores_the_list() {
    let mut list = MarkerList::new();
    list.insert(5, MARKER_TYPE_BLUE.to_string(), blue(), None)
        .unwrap();
    let before: Vec<(u64, u64)> = list.to_vec().iter().map(|m| (m.id.0, m.frame)).collect();
    let id = list
        .insert(3, MARKER_TYPE_PURPLE.to_string(), purple(), None)
        .unwrap();
    assert!(list.remove(id));
    let after: Vec<(u64, u64)> = list.to_vec().iter().map(|m| (m.id.0, m.frame)).collect();
    assert_eq!(before, after);
    assert!(!list.remove(id));
}

#[test]
fn types_order_markers_at_one_frame() {
    let mut list = MarkerList::new();
    list.insert(7, MARKER_TYPE_YELLOW.to_string(), blue(), None);
    list.insert(7, MARKER_TYPE_BLUE.to_string(), blue(), None);
    let types: Vec<String> = list.to_vec().iter().map(|m| m.marker_type.clone()).collect();
    assert_eq!(types, vec!["Blue".to_string(), "Yellow".to_string()]);
    assert_eq!(default_marker_type(), "Blue");
    let generation = list.generation();
    list.remove_at(7);
    assert!(list.generation() > generation);
}
