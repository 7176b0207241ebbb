use snd_review::clip::{Clip, ClipId, MediaId};
use snd_review::composition::{Composition, CompositionError};
use snd_review::edit_op::EditOp;
use snd_review::edl::{check_envelope, EnvelopeError, InitialState, ProjectFile};
use snd_review::tree::ClipTree;
use snd_review::markers::{Marker, MarkerId, MARKER_TYPE_BLUE};
use snd_review::media::MediaInfo;

fn media(frames: u64, channels: usize, rate: u32) -> MediaInfo {
    MediaInfo {
        id: MediaId(0),
        sample_rate: rate,
        channel_count: channels,
        frame_count: frames,
    }
}

fn frames_of(comp: &Composition) -> Vec<(u64, u64)> {
    comp.spans().iter().map(|s| (s.start, s.clip.len)).collect()
}

fn assert_contiguous(comp: &Composition) {
    let mut t = 0u64;
    for span in comp.spans() {
        assert!(span.clip.len > 0, "zero-length clip");
        assert_eq!(span.start, t, "gap or overlap at {t}");
        t += span.clip.len;
    }
    assert_eq!(t, comp.frames());
}

#[test]
fn from_media_starts_with_the_whole_file() {
    let comp = Composition::from_media(media(64, 2, 44100)).unwrap();
    assert_contiguous(&comp);
    assert_eq!(comp.frames(), 64);
    assert_eq!(comp.clip_at(0).unwrap().clip.source.unwrap().media_id, MediaId(1));
    assert_eq!(comp.sample_rate(), 44100);
    assert_eq!(comp.channel_count(), 2);
}

#[test]
fn from_media_refuses_empty_formats() {
    assert_eq!(
        Composition::from_media(media(10, 1, 0)).err(),
        Some(CompositionError::NoSampleRate)
    );
    assert_eq!(
        Composition::from_media(media(10, 0, 44100)).err(),
        Some(CompositionError::NoChannels)
    );
}

#[test]
fn remove_shrinks_delete_preserves_length() {
    let mut comp = Composition::from_media(media(20, 1, 48000)).unwrap();
    comp.remove(5, 5);
    assert_contiguous(&comp);
    assert_eq!(comp.frames(), 15);
    comp.undo();
    comp.delete(5, 5);
    assert_contiguous(&comp);
    assert_eq!(comp.frames(), 20);
    let silent = comp.clip_at(5).unwrap();
    assert!(silent.clip.source.is_none());
    assert_eq!((silent.start, silent.clip.len), (5, 5));
    assert!(comp.clip_at(4).unwrap().clip.source.is_some());
    assert_eq!(comp.modified_ranges(), vec![(5, 10)]);
    assert_eq!(comp.ranges_for_edit(comp.current_edit()), vec![(5, 10)]);
}

#[test]
fn cut_copy_paste_and_undo() {
    let mut comp = Composition::from_media(media(16, 1, 44100)).unwrap();
    comp.cut(4, 4);
    assert_eq!(comp.frames(), 12);
    comp.paste(0).unwrap();
    assert_eq!(comp.frames(), 16);
    let first = comp.clip_at(0).unwrap();
    assert_eq!(first.clip.source.unwrap().offset, 4);
    assert_eq!(first.clip.len, 4);
    assert!(comp.undo());
    assert_eq!(comp.frames(), 12);
    assert!(comp.redo());
    assert_eq!(comp.frames(), 16);
}

#[test]
fn duplicate_trim_move_roll() {
    let mut comp = Composition::from_media(media(10, 1, 44100)).unwrap();
    comp.duplicate(0, 3);
    assert_eq!(comp.frames(), 13);
    comp.trim(0, 6);
    assert_eq!(comp.frames(), 6);
    comp.move_range(0, 2, 6);
    assert_eq!(comp.frames(), 6);
    assert_contiguous(&comp);

    let mut rolled = Composition::from_media(media(10, 1, 44100)).unwrap();
    rolled.trim(0, 8);
    rolled.roll(0, 1);
    assert_contiguous(&rolled);
    let clip = rolled.clip_at(0).unwrap();
    assert_eq!(clip.clip.source.as_ref().unwrap().offset, 1);
    rolled.roll(0, 100);
    assert_eq!(
        rolled.clip_at(0).unwrap().clip.source.as_ref().unwrap().offset,
        2
    );
}

#[test]
fn jump_to_edit_restores_snapshot() {
    let mut comp = Composition::from_media(media(8, 1, 44100)).unwrap();
    let init = comp.current_edit();
    comp.remove(0, 2);
    let after = comp.current_edit();
    comp.delete(0, 2);
    assert!(comp.jump_to_edit(init));
    assert_eq!(comp.frames(), 8);
    assert!(comp.jump_to_edit(after));
    assert_eq!(comp.frames(), 6);
}

#[test]
fn undo_to_init_keeps_original_media() {
    let mut comp = Composition::from_media(media(12, 1, 44100)).unwrap();
    let frames = comp.frames();
    let init = comp.current_edit();
    comp.remove(2, 4);
    assert_eq!(comp.frames(), 8);
    assert!(comp.jump_to_edit(init));
    assert_eq!(comp.frames(), frames);
    assert_eq!(frames_of(&comp), vec![(0, 12)]);
}

#[test]
fn copy_does_not_change_timeline() {
    let mut comp = Composition::from_media(media(8, 1, 44100)).unwrap();
    let before = frames_of(&comp);
    comp.copy(2, 3);
    assert_eq!(comp.frames(), 8);
    assert_eq!(frames_of(&comp), before);
    assert_eq!(comp.clipboard().frames(), 3);
}

#[test]
fn new_edit_drops_redo_tail() {
    let mut comp = Composition::from_media(media(10, 1, 44100)).unwrap();
    comp.remove(0, 1);
    comp.remove(0, 1);
    assert!(comp.undo());
    assert!(comp.can_redo());
    comp.delete(0, 1);
    assert!(!comp.can_redo());
    assert_eq!(comp.frames(), 9);
}

#[test]
fn zero_length_clips_are_dropped() {
    let mut comp = Composition::from_media(media(6, 1, 44100)).unwrap();
    comp.replace_range(2, 2, vec![Clip::silence(ClipId(99), 0)]);
    assert_contiguous(&comp);
    assert_eq!(comp.frames(), 4);
    assert!(comp.spans().iter().all(|s| s.clip.len > 0));
}

#[test]
fn markers_remap_through_cut_and_undo() {
    let blue = [
        (0x3b as f32 / 255.0).to_bits(),
        (0x82 as f32 / 255.0).to_bits(),
        (0xf6 as f32 / 255.0).to_bits(),
        1.0f32.to_bits(),
    ];
    let mut comp = Composition::from_media(media(40, 1, 44100)).unwrap();
    comp.add_marker(5, MARKER_TYPE_BLUE.to_string(), blue, None).unwrap();
    comp.add_marker(15, MARKER_TYPE_BLUE.to_string(), blue, None).unwrap();
    comp.add_marker(30, MARKER_TYPE_BLUE.to_string(), blue, None).unwrap();
    comp.cut(10, 10);
    let frames: Vec<u64> = comp.markers().to_vec().iter().map(|m| m.frame).collect();
    assert_eq!(frames, vec![5, 20]);
    assert!(comp.undo());
    let frames: Vec<u64> = comp.markers().to_vec().iter().map(|m| m.frame).collect();
    assert_eq!(frames, vec![5, 30]);
}

#[test]
fn json_replay_matches_live_snapshots() {
    let mut live = Composition::from_media(media(20, 1, 44100)).unwrap();
    live.remove(2, 2);
    live.delete(0, 3);
    live.duplicate(0, 4);
    let restored = Composition::from_project_file(live.to_project_file()).unwrap();
    assert_contiguous(&restored);
    assert_eq!(restored.frames(), live.frames());
    assert_eq!(restored.current_edit().0, live.current_edit().0);
    let spans = |c: &Composition| -> Vec<_> {
        c.spans()
            .into_iter()
            .map(|s| (s.start, s.clip.len, s.clip.source))
            .collect()
    };
    assert_eq!(spans(&restored), spans(&live));
}

#[test]
fn paste_with_an_empty_clipboard_changes_nothing() {
    let mut comp = Composition::from_media(media(10, 1, 44100)).unwrap();
    assert_eq!(comp.paste(3), Ok(()));
    assert_eq!(comp.edits().len(), 1);
    assert_eq!(comp.frames(), 10);
}

#[test]
fn move_onto_itself_and_zero_delete_are_no_ops() {
    let mut comp = Composition::from_media(media(10, 1, 44100)).unwrap();
    comp.move_range(2, 3, 2);
    comp.delete(4, 0);
    comp.move_range(2, 0, 8);
    assert_eq!(comp.edits().len(), 1);
}

#[test]
fn project_file_replays_to_the_same_timeline() {
    let mut comp = Composition::from_media(media(30, 2, 48000)).unwrap();
    comp.cut(5, 5);
    comp.paste(10).unwrap();
    comp.roll(0, 2);
    comp.add_marker(12, MARKER_TYPE_BLUE.to_string(), [1, 2, 3, 4], Some("cue".into()));
    comp.undo();
    let file = comp.to_project_file();
    assert_eq!(file.edits.len(), 3);
    assert_eq!(file.edit_cursor, 2);
    let loaded = Composition::from_project_file(file).unwrap();
    assert_eq!(frames_of(&loaded), frames_of(&comp));
    assert_eq!(loaded.edit_cursor(), 2);
    assert_eq!(loaded.markers().len(), 1);
    assert!(loaded.can_redo());
}

#[test]
fn project_file_without_its_initial_media_is_refused() {
    let file = ProjectFile {
        sample_rate: 44100,
        channel_count: 1,
        media: vec![],
        initial: InitialState::FromMedia { media_id: 3 },
        edits: vec![EditOp::Remove { start: 0, len: 1 }],
        edit_cursor: 1,
        markers: vec![Marker {
            id: MarkerId(1),
            frame: 0,
            marker_type: MARKER_TYPE_BLUE.to_string(),
            color: [0; 4],
            note: None,
        }],
    };
    assert_eq!(
        Composition::from_project_file(file).err(),
        Some(CompositionError::InitialMediaMissing)
    );
}

#[test]
fn empty_project_replays_edits() {
    let file = ProjectFile {
        sample_rate: 44100,
        channel_count: 1,
        media: vec![],
        initial: InitialState::Empty,
        edits: vec![EditOp::Delete { start: 0, len: 4 }],
        edit_cursor: 1,
        markers: vec![],
    };
    let comp = Composition::from_project_file(file).unwrap();
    assert_eq!(comp.frames(), 4);
    assert_eq!(comp.edit_cursor(), 1);
}

#[test]
fn empty_init_snapshot_rebuilds_from_media() {
    let mut comp = Composition::from_media(media(16, 1, 44100)).unwrap();
    let frames = comp.frames();
    let init = comp.current_edit();
    comp.remove(0, 4);
    comp.replace_init_snapshot(ClipTree::empty());
    assert!(comp.jump_to_edit(init));
    assert_eq!(comp.frames(), frames);
    assert!(!comp.is_empty());
    assert!(comp.clip_at(0).is_some());
}

fn envelope_of(json: &str) -> (String, u32, serde_json::Value) {
    let value: serde_json::Value = serde_json::from_str(json).unwrap();
    let kind = value["kind"].as_str().unwrap_or("").to_string();
    let version = value["format_version"].as_u64().unwrap_or(0) as u32;
    (kind, version, value)
}

#[test]
fn project_json_rejects_wrong_kind_and_future_version() {
    let (kind, version, _) = envelope_of(
        r#"{"kind":"other","format_version":1,"sample_rate":1,"channel_count":1,"media":[],"initial":{"type":"empty"},"edits":[],"edit_cursor":0}"#,
    );
    assert_eq!(check_envelope(&kind, version), Err(EnvelopeError::WrongKind));
    let (kind, version, _) = envelope_of(r#"{"kind":"facomp"}"#);
    assert_eq!(check_envelope(&kind, version), Err(EnvelopeError::MissingVersion));
    let (kind, version, _) = envelope_of(
        r#"{"kind":"facomp","format_version":99,"sample_rate":1,"channel_count":1,"media":[],"initial":{"type":"empty"},"edits":[],"edit_cursor":0}"#,
    );
    assert_eq!(check_envelope(&kind, version), Err(EnvelopeError::NewerVersion(99)));
}

#[test]
fn project_json_v1_loads_without_markers() {
    let json = r#"{
        "kind":"facomp",
        "format_version":1,
        "sample_rate":44100,
        "channel_count":1,
        "media":[],
        "initial":{"type":"empty"},
        "edits":[],
        "edit_cursor":0
    }"#;
    let (kind, version, value) = envelope_of(json);
    assert_eq!(check_envelope(&kind, version), Ok(()));
    assert!(value.get("markers").is_none());
    let file = ProjectFile {
        sample_rate: value["sample_rate"].as_u64().unwrap() as u32,
        channel_count: value["channel_count"].as_u64().unwrap() as usize,
        media: Vec::new(),
        initial: InitialState::Empty,
        edits: Vec::new(),
        edit_cursor: value["edit_cursor"].as_u64().unwrap() as usize,
        markers: Vec::new(),
    };
    let restored = Composition::from_project_file(file).unwrap();
    assert!(restored.markers().is_empty());
    assert_eq!(restored.sample_rate(), 44100);
}
