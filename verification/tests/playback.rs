use snd_review::playhead::{Playhead, PlayheadEvent};
use snd_review::transport::{should_restart_from_start, Transport, TransportState};

#[test]
fn play_from_stopped_at_end_restarts_from_start() {
    assert!(should_restart_from_start(
        TransportState::Stopped,
        true,
        false
    ));
}

#[test]
fn play_from_stopped_mid_buffer_keeps_position() {
    assert!(!should_restart_from_start(
        TransportState::Stopped,
        false,
        false
    ));
}

#[test]
fn play_from_stopped_with_region_restarts_from_in_point() {
    assert!(should_restart_from_start(
        TransportState::Stopped,
        false,
        true
    ));
}

#[test]
fn play_from_paused_at_end_restarts_from_start() {
    assert!(should_restart_from_start(
        TransportState::Paused,
        true,
        false
    ));
}

#[test]
fn play_from_paused_mid_buffer_keeps_position() {
    assert!(!should_restart_from_start(
        TransportState::Paused,
        false,
        false
    ));
}

#[test]
fn playing_never_restarts() {
    assert!(!should_restart_from_start(TransportState::Playing, true, true));
}

#[test]
fn transport_state_round_trips_through_its_byte() {
    for state in [
        TransportState::Stopped,
        TransportState::Playing,
        TransportState::Paused,
    ] {
        assert_eq!(TransportState::from_u8(state.to_u8()), state);
    }
    let mut transport = Transport::new();
    assert_eq!(transport.state(), TransportState::Stopped);
    transport.set_state(TransportState::Playing);
    assert!(transport.is_playing());
}

#[test]
fn playhead_advances_and_stops_at_the_end() {
    let mut playhead = Playhead::new();
    assert_eq!(playhead.advance(10, 100), PlayheadEvent::Advanced);
    assert_eq!(playhead.position(), 10);
    assert_eq!(playhead.advance(200, 100), PlayheadEvent::ReachedEnd);
    assert_eq!(playhead.position(), 99);
}

#[test]
fn looping_playhead_wraps_to_the_in_point() {
    let mut playhead = Playhead::new();
    playhead.set_in_out(20, 40, 100);
    playhead.set_looping(true);
    playhead.set_position(35, 100);
    assert_eq!(playhead.advance(10, 100), PlayheadEvent::Looped);
    assert_eq!(playhead.position(), 20);
}

#[test]
fn loops_inside_in_out() {
    let mut ph = Playhead::new();
    ph.set_in_out(100, 200, 1000);
    ph.set_looping(true);
    ph.set_position(195, 1000);
    assert_eq!(ph.advance(10, 1000), PlayheadEvent::Looped);
    assert_eq!(ph.position(), 100);
}

#[test]
fn stops_at_buffer_end_without_loop_even_with_in_out() {
    let mut ph = Playhead::new();
    ph.set_in_out(100, 200, 1000);
    ph.set_position(995, 1000);
    assert_eq!(ph.advance(10, 1000), PlayheadEvent::ReachedEnd);
    assert_eq!(ph.position(), 999);
}
