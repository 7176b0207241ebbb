use snd_review::buffer::{ChannelScope, RegionId};
use snd_review::clip::MediaId;
use snd_review::composition::Composition;
use snd_review::document::BufferDocument;
use snd_review::media::MediaInfo;
use snd_review::selection::Selection;

fn test_document(frames: usize) -> BufferDocument {
    let media = MediaInfo {
        id: MediaId(0),
        sample_rate: 44100,
        channel_count: 2,
        frame_count: frames as u64,
    };
    BufferDocument::new(Composition::from_media(media).unwrap())
}

fn no_snap(_channel: usize, sample: usize) -> usize {
    sample
}

fn caret(doc: &BufferDocument) -> Option<usize> {
    doc.current_position.as_ref().map(|p| p.sample)
}

fn region_bounds(doc: &BufferDocument) -> Option<(usize, usize)> {
    match &doc.selection {
        Selection::Region { start, end, .. } => Some((*start, *end)),
        _ => None,
    }
}

fn drag(doc: &mut BufferDocument, from: usize, to: usize) {
    doc.begin_region_drag(from, ChannelScope::all(), &no_snap);
    doc.update_region_drag(to, &no_snap);
    doc.finish_region_drag();
}

#[test]
fn full_region_spans_buffer() {
    let doc = test_document(1000);
    assert_eq!(doc.frames(), 1000);
    let region = doc.full_region();
    assert_eq!(region.start, 0);
    assert!(region.channels.applies_to(0));
    assert!(region.channels.applies_to(1));
    assert_eq!(region.end, 999);
}

#[test]
fn commit_updates_existing_region_only() {
    let mut doc = test_document(1000);
    let id = doc.add_region(10, 20, ChannelScope::all());
    doc.begin_region_drag(10, ChannelScope::all(), &no_snap);
    if let Selection::Region {
        region_id: ref mut rid,
        ..
    } = doc.selection
    {
        *rid = Some(id);
    }
    doc.update_region_drag(50, &no_snap);
    doc.finish_region_drag();
    let region = doc.region(id).unwrap();
    assert_eq!(region.start, 10);
    assert_eq!(region.end, 50);
    assert_eq!(caret(&doc), Some(50));
}

#[test]
fn transient_region_not_persisted() {
    let mut doc = test_document(1000);
    drag(&mut doc, 10, 50);
    assert!(doc.regions.is_empty());
    assert!(matches!(
        doc.selection,
        Selection::Region {
            region_id: None,
            ..
        }
    ));
    assert_eq!(caret(&doc), Some(50));
}

#[test]
fn reverse_drag_normalizes_bounds_and_sets_position_to_end() {
    let mut doc = test_document(1000);
    drag(&mut doc, 80, 10);
    assert!(matches!(
        doc.selection,
        Selection::Region {
            start: 10,
            end: 80,
            ..
        }
    ));
    assert_eq!(caret(&doc), Some(80));
}

#[test]
fn cut_and_delete_use_selection_span() {
    let mut doc = test_document(100);
    drag(&mut doc, 10, 19);
    doc.edit_cut();
    assert_eq!(doc.frames(), 90);
    drag(&mut doc, 0, 4);
    doc.edit_delete();
    assert_eq!(doc.frames(), 90);
}

#[test]
fn edit_ops_without_selection_are_noops() {
    let mut doc = test_document(50);
    doc.edit_cut();
    doc.edit_copy();
    doc.edit_delete();
    doc.edit_remove();
    doc.edit_duplicate();
    doc.edit_trim();
    assert_eq!(doc.frames(), 50);
}

#[test]
fn paste_before_playhead_shifts_position() {
    let mut doc = test_document(100);
    doc.set_position(50, ChannelScope::all(), &no_snap);
    doc.composition.copy(0, 10);
    let from = doc.composition.edit_cursor();
    doc.composition.paste(0).unwrap();
    doc.after_tree_changed(from);
    assert_eq!(doc.frames(), 110);
    assert_eq!(caret(&doc), Some(60));
    assert!(doc.edit_undo());
    assert_eq!(doc.frames(), 100);
    assert_eq!(caret(&doc), Some(50));
}

#[test]
fn paste_at_caret_follows_the_shifted_sample() {
    let mut doc = test_document(100);
    drag(&mut doc, 0, 9);
    doc.edit_copy();
    doc.set_position(50, ChannelScope::all(), &no_snap);
    doc.edit_paste();
    assert_eq!(doc.frames(), 110);
    assert_eq!(caret(&doc), Some(60));
}

#[test]
fn invert_selection_covers_edges_and_interior() {
    let mut doc = test_document(100);
    doc.invert_selection();
    assert!(matches!(
        doc.selection,
        Selection::Region {
            start: 0,
            end: 99,
            ..
        }
    ));
    doc.invert_selection();
    assert!(matches!(doc.selection, Selection::Nothing));

    doc.select_range(0, 40, ChannelScope::all());
    doc.invert_selection();
    assert!(matches!(
        doc.selection,
        Selection::Region {
            start: 41,
            end: 99,
            ..
        }
    ));

    doc.select_range(50, 99, ChannelScope::all());
    doc.invert_selection();
    assert!(matches!(
        doc.selection,
        Selection::Region {
            start: 0,
            end: 49,
            ..
        }
    ));

    doc.select_range(10, 20, ChannelScope::all());
    doc.invert_selection();
    assert!(matches!(
        doc.selection,
        Selection::Region {
            start: 21,
            end: 99,
            ..
        }
    ));

    doc.select_range(80, 90, ChannelScope::all());
    doc.invert_selection();
    assert!(matches!(
        doc.selection,
        Selection::Region {
            start: 0,
            end: 79,
            ..
        }
    ));
}

#[test]
fn add_and_remove_marker_at_caret() {
    let mut doc = test_document(100);
    let id = doc.add_marker_of_type(40, "Blue").unwrap();
    assert_eq!(doc.composition.markers().get(id).unwrap().frame, 40);
    assert!(doc.remove_marker_at(40));
    assert!(doc.composition.markers().is_empty());
}

#[test]
fn add_marker_is_unique_per_type_at_position() {
    let mut doc = test_document(100);
    assert!(doc.add_marker_of_type(40, "Blue").is_some());
    assert!(doc.add_marker_of_type(40, "Blue").is_none());
    assert!(doc.add_marker_of_type(40, "Yellow").is_some());
    assert_eq!(doc.composition.markers().len(), 2);
    assert!(doc.remove_marker_at_type(40, "Blue"));
    assert_eq!(doc.composition.markers().len(), 1);
}

#[test]
fn marker_beyond_the_end_lands_on_the_last_sample() {
    let mut doc = test_document(100);
    let id = doc.add_marker_of_type(500, "Unknown").unwrap();
    let marker = doc.composition.markers().get(id).unwrap();
    assert_eq!(marker.frame, 99);
    assert_eq!(marker.color, [0x3e6ceced, 0x3f028283, 0x3f76f6f7, 0x3f800000]);
}

#[test]
fn snapping_moves_the_caret_through_the_snap_function() {
    let mut doc = test_document(100);
    let to_ten = |_channel: usize, sample: usize| sample - sample % 10;
    doc.set_position(47, ChannelScope::all(), &to_ten);
    assert_eq!(caret(&doc), Some(47));
    doc.toggle_zero_crossing_snap();
    doc.set_position(47, ChannelScope::all(), &to_ten);
    assert_eq!(caret(&doc), Some(40));
    doc.set_position(5000, ChannelScope::all(), &no_snap);
    assert_eq!(caret(&doc), Some(99));
}

#[test]
fn select_region_at_picks_the_topmost_region() {
    let mut doc = test_document(100);
    let low = doc.add_region(10, 60, ChannelScope::all());
    let high = doc.add_region(30, 40, ChannelScope::single(1));
    assert_eq!(doc.hit_test_region(35, 1), Some(high));
    assert_eq!(doc.hit_test_region(35, 0), Some(low));
    assert_eq!(doc.hit_test_region(70, 0), None);
    doc.select_region_at(35, 1, ChannelScope::all(), &no_snap);
    assert!(matches!(
        doc.selection,
        Selection::Region {
            region_id: Some(RegionId(2)),
            start: 30,
            end: 40,
            ..
        }
    ));
    assert_eq!(caret(&doc), Some(40));
    doc.select_region_at(80, 0, ChannelScope::all(), &no_snap);
    assert!(matches!(doc.selection, Selection::Position(_)));
    assert_eq!(caret(&doc), Some(80));
}

#[test]
fn short_drag_becomes_a_caret() {
    let mut doc = test_document(100);
    drag(&mut doc, 30, 30);
    assert!(matches!(doc.selection, Selection::Position(_)));
    assert_eq!(caret(&doc), Some(30));
    assert!(!doc.is_region_drag_active());
}

#[test]
fn undo_and_redo_carry_the_selection() {
    let mut doc = test_document(100);
    drag(&mut doc, 10, 19);
    doc.edit_remove();
    assert_eq!(doc.frames(), 90);
    doc.select_range(50, 59, ChannelScope::all());
    assert!(doc.edit_undo());
    assert_eq!(region_bounds(&doc), Some((60, 69)));
    assert!(doc.edit_redo());
    assert_eq!(region_bounds(&doc), Some((50, 59)));
    assert!(!doc.edit_redo());
}

#[test]
fn jump_to_edit_moves_back_to_the_start() {
    let mut doc = test_document(100);
    let first = doc.current_edit();
    drag(&mut doc, 0, 49);
    doc.edit_trim();
    assert_eq!(doc.frames(), 50);
    assert!(doc.jump_to_edit(first));
    assert_eq!(doc.frames(), 100);
    assert!(!doc.jump_to_edit(snd_review::edit_op::EditId(999)));
}

#[test]
fn duplicate_doubles_the_selected_span() {
    let mut doc = test_document(100);
    drag(&mut doc, 0, 9);
    doc.edit_duplicate();
    assert_eq!(doc.frames(), 110);
}

#[test]
fn selection_span_and_caret_frame() {
    let mut doc = test_document(100);
    assert_eq!(doc.selection_span(), None);
    assert_eq!(doc.caret_frame(), 0);
    doc.select_range(20, 10, ChannelScope::all());
    assert_eq!(doc.selection_span(), Some((10, 11)));
    assert_eq!(doc.caret_frame(), 20);
    assert_eq!(doc.selection_position_sample(), Some(20));
    doc.clear_selection();
    assert_eq!(doc.selection_span(), None);
    doc.select_all();
    assert_eq!(doc.selection_span(), Some((0, 100)));
    doc.reset_for_new_buffer();
    assert!(matches!(doc.selection, Selection::Nothing));
    assert_eq!(doc.caret_frame(), 0);
}

#[test]
fn playback_moves_the_caret_but_not_during_a_drag() {
    let mut doc = test_document(100);
    doc.set_position_from_playback(30, ChannelScope::all());
    assert_eq!(caret(&doc), Some(30));
    doc.begin_region_drag(10, ChannelScope::all(), &no_snap);
    doc.set_position_from_playback(60, ChannelScope::all());
    assert_eq!(caret(&doc), Some(30));
}

#[test]
fn normalized_bounds_and_lane_scope() {
    assert_eq!(BufferDocument::normalized_region_bounds(9, 3), (3, 9));
    assert_eq!(BufferDocument::normalized_region_bounds(3, 9), (3, 9));
    let doc = test_document(10);
    assert!(doc.channel_scope_for_lane(1, true).applies_to(1));
    assert!(!doc.channel_scope_for_lane(1, true).applies_to(0));
    assert!(doc.channel_scope_for_lane(1, false).applies_to(0));
}

#[test]
fn cut_puts_the_span_on_the_clipboard() {
    let mut doc = test_document(100);
    drag(&mut doc, 20, 29);
    doc.edit_cut();
    assert_eq!(doc.frames(), 90);
    assert_eq!(doc.composition.clipboard().frames(), 10);
    doc.select_range(0, 9, ChannelScope::all());
    doc.edit_remove();
    assert_eq!(doc.frames(), 80);
}
