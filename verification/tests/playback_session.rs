use snd_review::buffer::ChannelScope;
use snd_review::clip::MediaId;
use snd_review::composition::Composition;
use snd_review::document::BufferDocument;
use snd_review::media::MediaInfo;
use snd_review::playback::PlaybackSession;
use snd_review::transport::TransportState;

fn test_document(frames: u64) -> BufferDocument {
    let media = MediaInfo {
        id: MediaId(0),
        sample_rate: 48000,
        channel_count: 1,
        frame_count: frames,
    };
    BufferDocument::new(Composition::from_media(media).unwrap())
}

fn no_snap(_channel: usize, sample: usize) -> usize {
    sample
}

#[test]
fn play_pause_and_stop_follow_the_engine() {
    let mut session = PlaybackSession::new();
    assert_eq!(session.transport_state(), TransportState::Stopped);
    let cmd = session.play(0, 1000).unwrap();
    assert!(cmd.bump_epoch);
    assert_eq!(cmd.transport, TransportState::Playing);
    assert!(session.play(10, 1000).is_none());
    assert_eq!(session.position(250), 250);
    let cmd = session.pause(250, 1000);
    assert_eq!(cmd.position, 250);
    assert_eq!(cmd.transport, TransportState::Paused);
    assert_eq!(session.position(900), 250);
    let cmd = session.toggle_play_pause(250, 1000).unwrap();
    assert_eq!(cmd.position, 250);
    assert_eq!(cmd.transport, TransportState::Playing);
    let cmd = session.stop(400, 1000);
    assert_eq!(cmd.position, 400);
    assert_eq!(cmd.transport, TransportState::Stopped);
}

#[test]
fn play_at_the_end_restarts_from_the_start() {
    let mut session = PlaybackSession::new();
    let cmd = session.play(999, 1000).unwrap();
    assert_eq!(cmd.position, 0);
    let cmd = session.end(1000);
    assert_eq!(cmd.position, 999);
    assert_eq!(cmd.transport, TransportState::Stopped);
    let cmd = session.home(1000);
    assert_eq!(cmd.position, 0);
}

#[test]
fn selected_region_holds_playback() {
    let mut doc = test_document(1000);
    doc.select_range(100, 200, ChannelScope::all());
    let mut session = PlaybackSession::new();
    let cmd = session.sync_from_document(&doc);
    assert_eq!(cmd.in_point, Some(100));
    assert_eq!(cmd.out_point, Some(200));
    assert_eq!(cmd.position, 200);
    assert_eq!(session.active_region, Some((100, 200)));
    let cmd = session.play(200, 1000).unwrap();
    assert_eq!(cmd.position, 100);
    doc.clear_selection();
    let cmd = session.sync_from_document(&doc);
    assert_eq!(cmd.in_point, None);
    assert_eq!(session.active_region, None);
}

#[test]
fn previous_and_next_jump_between_anchors() {
    let mut doc = test_document(1000);
    doc.add_region(100, 300, ChannelScope::all());
    doc.add_marker_of_type(500, "Blue");
    let mut session = PlaybackSession::new();
    session.sync_from_document(&doc);
    assert_eq!(session.anchors, vec![100, 300, 500]);
    assert_eq!(session.next(1000).position, 100);
    assert_eq!(session.next(1000).position, 300);
    assert_eq!(session.next(1000).position, 500);
    assert_eq!(session.next(1000).position, 500);
    assert_eq!(session.previous(1000).position, 300);
    session.play(300, 1000);
    let cmd = session.previous(1000);
    assert_eq!(cmd.position, 100);
    assert_eq!(cmd.transport, TransportState::Stopped);
}

#[test]
fn poll_moves_the_caret_and_notices_the_engine_stopping() {
    let mut doc = test_document(1000);
    let mut session = PlaybackSession::new();
    assert!(session.poll(&mut doc, TransportState::Playing, 10).is_none());
    session.play(0, 1000);
    let cmd = session.poll(&mut doc, TransportState::Playing, 480).unwrap();
    assert_eq!(cmd.position, 480);
    assert_eq!(doc.caret_frame(), 480);
    assert!(session.poll(&mut doc, TransportState::Stopped, 999).is_none());
    assert_eq!(session.transport_state(), TransportState::Stopped);
    assert_eq!(doc.caret_frame(), 999);
}

#[test]
fn loop_toggles_and_reload_starts_over() {
    let mut doc = test_document(1000);
    doc.begin_region_drag(10, ChannelScope::all(), &no_snap);
    let mut session = PlaybackSession::new();
    assert!(session.toggle_loop().looping);
    assert!(session.looping());
    session.play(500, 1000);
    let (stopped, fresh) = session.reload(doc.composition.markers(), &doc.regions, 600, 1000);
    assert_eq!(stopped.position, 600);
    assert_eq!(stopped.transport, TransportState::Stopped);
    assert_eq!(fresh.position, 0);
    assert_eq!(fresh.in_point, None);
    assert!(session.anchors.is_empty());
}
