use vstd::prelude::*;

verus! {

#[derive(Debug, Clone, Copy, PartialEq, Eq, Structural)]
pub enum TransportState {
    Stopped,
    Playing,
    Paused,
}

impl TransportState {
    pub open spec fn from_u8_spec(value: u8) -> TransportState {
        if value == 1 {
            TransportState::Playing
        } else if value == 2 {
            TransportState::Paused
        } else {
            TransportState::Stopped
        }
    }

    pub open spec fn to_u8_spec(self) -> u8 {
        match self {
            TransportState::Stopped => 0,
            TransportState::Playing => 1,
            TransportState::Paused => 2,
        }
    }

    /// Decodes a state stored as a byte; unknown bytes read as `Stopped`.
    pub fn from_u8(value: u8) -> (s: Self)
        ensures
            s == Self::from_u8_spec(value),
    {
        match value {
            1 => TransportState::Playing,
            2 => TransportState::Paused,
            _ => TransportState::Stopped,
        }
    }

    /// Encodes the state as a byte.
    pub fn to_u8(self) -> (b: u8)
        ensures
            b == self.to_u8_spec(),
    {
        match self {
            TransportState::Stopped => 0,
            TransportState::Playing => 1,
            TransportState::Paused => 2,
        }
    }
}

/// A state stored as its byte reads back as the same state.
pub proof fn law_transport_byte_round_trip(state: TransportState)
    ensures
        TransportState::from_u8_spec(state.to_u8_spec()) == state,
{
}

/// Transport state of a playback session.
pub struct Transport {
    state: TransportState,
}

impl Transport {
    pub closed spec fn state_spec(&self) -> TransportState {
        self.state
    }

    pub fn new() -> (t: Self)
        ensures
            t.state_spec() == TransportState::Stopped,
    {
        Transport { state: TransportState::Stopped }
    }

    pub fn state(&self) -> (s: TransportState)
        ensures
            s == self.state_spec(),
    {
        self.state
    }

    pub fn set_state(&mut self, state: TransportState)
        ensures
            final(self).state_spec() == state,
    {
        self.state = state;
    }

    pub fn is_playing(&self) -> (b: bool)
        ensures
            b == (self.state_spec() == TransportState::Playing),
    {
        self.state == TransportState::Playing
    }
}

impl Default for Transport {
    fn default() -> (t: Self)
        ensures
            t.state_spec() == TransportState::Stopped,
    {
        Self::new()
    }
}

/// Whether Play should jump to the playback start instead of resuming where
/// the playhead is: from Stopped when a region is set or the playhead is at
/// the end, from Paused only at the end, never while playing.
pub open spec fn should_restart_spec(state: TransportState, at_end: bool, has_region: bool) -> bool {
    match state {
        TransportState::Stopped => has_region || at_end,
        TransportState::Paused => at_end,
        TransportState::Playing => false,
    }
}

pub fn should_restart_from_start(state: TransportState, at_end: bool, has_region: bool) -> (b: bool)
    ensures
        b == should_restart_spec(state, at_end, has_region),
{
    match state {
        TransportState::Stopped => has_region || at_end,
        TransportState::Paused => at_end,
        TransportState::Playing => false,
    }
}

} // verus!
