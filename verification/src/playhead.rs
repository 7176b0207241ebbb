use vstd::prelude::*;

verus! {

/// What a step of playback did to the playhead.
#[derive(Debug, Clone, Copy, PartialEq, Eq, Structural)]
pub enum PlayheadEvent {
    Advanced,
    Looped,
    ReachedEnd,
}

/// The last sample index of a timeline of `frames` frames (0 when empty).
pub open spec fn max_sample(frames: usize) -> usize {
    if frames == 0 {
        0
    } else {
        (frames - 1) as usize
    }
}

pub open spec fn clamp_spec(sample: usize, frames: usize) -> usize {
    if sample <= max_sample(frames) {
        sample
    } else {
        max_sample(frames)
    }
}

/// Playback position with optional in/out points and looping. The timeline
/// length is read from the playback source at each call and handed in as
/// `frames`.
#[derive(Debug, Clone, Copy, PartialEq, Eq)]
pub struct Playhead {
    pub position: usize,
    pub in_point: Option<usize>,
    pub out_point: Option<usize>,
    pub looping: bool,
}

impl Playhead {
    pub open spec fn playback_start_spec(&self) -> usize {
        match self.in_point {
            Some(p) => p,
            None => 0,
        }
    }

    pub open spec fn transport_end_spec(&self, frames: usize) -> usize {
        match self.out_point {
            Some(p) => p,
            None => max_sample(frames),
        }
    }

    pub open spec fn playback_end_spec(&self, frames: usize) -> usize {
        if self.looping {
            self.transport_end_spec(frames)
        } else {
            max_sample(frames)
        }
    }

    pub fn new() -> (p: Self)
        ensures
            p == (Playhead { position: 0, in_point: None, out_point: None, looping: false }),
    {
        Playhead { position: 0, in_point: None, out_point: None, looping: false }
    }

    pub fn position(&self) -> (r: usize)
        ensures
            r == self.position,
    {
        self.position
    }

    pub fn in_point(&self) -> (r: Option<usize>)
        ensures
            r == self.in_point,
    {
        self.in_point
    }

    pub fn out_point(&self) -> (r: Option<usize>)
        ensures
            r == self.out_point,
    {
        self.out_point
    }

    pub fn looping(&self) -> (r: bool)
        ensures
            r == self.looping,
    {
        self.looping
    }

    /// `sample`, clamped to the last sample of the timeline.
    pub fn clamp_sample(&self, sample: usize, frames: usize) -> (r: usize)
        ensures
            r == clamp_spec(sample, frames),
    {
        let max = frames.saturating_sub(1);
        if sample <= max {
            sample
        } else {
            max
        }
    }

    pub fn set_position(&mut self, sample: usize, frames: usize)
        ensures
            *final(self) == (Playhead { position: clamp_spec(sample, frames), ..*old(self) }),
    {
        self.position = self.clamp_sample(sample, frames);
    }

    pub fn set_in(&mut self, sample: usize, frames: usize)
        ensures
            *final(self) == (Playhead { in_point: Some(clamp_spec(sample, frames)), ..*old(self) }),
    {
        self.in_point = Some(self.clamp_sample(sample, frames));
    }

    pub fn set_out(&mut self, sample: usize, frames: usize)
        ensures
            *final(self) == (Playhead { out_point: Some(clamp_spec(sample, frames)), ..*old(self) }),
    {
        self.out_point = Some(self.clamp_sample(sample, frames));
    }

    pub fn clear_in_out(&mut self)
        ensures
            *final(self) == (Playhead { in_point: None, out_point: None, ..*old(self) }),
    {
        self.in_point = None;
        self.out_point = None;
    }

    /// Sets in and out points from two ends given in either order.
    pub fn set_in_out(&mut self, start: usize, end: usize, frames: usize)
        ensures
            *final(self) == (Playhead {
                in_point: Some(clamp_spec(if start <= end { start } else { end }, frames)),
                out_point: Some(clamp_spec(if start <= end { end } else { start }, frames)),
                ..*old(self)
            }),
    {
        let (start, end) = if start <= end {
            (start, end)
        } else {
            (end, start)
        };
        self.in_point = Some(self.clamp_sample(start, frames));
        self.out_point = Some(self.clamp_sample(end, frames));
    }

    pub fn set_looping(&mut self, looping: bool)
        ensures
            *final(self) == (Playhead { looping, ..*old(self) }),
    {
        self.looping = looping;
    }

    pub fn toggle_looping(&mut self)
        ensures
            *final(self) == (Playhead { looping: !old(self).looping, ..*old(self) }),
    {
        self.looping = !self.looping;
    }

    /// Where playback starts: the in point, else the first sample.
    pub fn playback_start(&self) -> (r: usize)
        ensures
            r == self.playback_start_spec(),
    {
        match self.in_point {
            Some(p) => p,
            None => 0,
        }
    }

    /// End sample for the transport End command (region out or timeline end).
    pub fn transport_end(&self, frames: usize) -> (r: usize)
        ensures
            r == self.transport_end_spec(frames),
    {
        match self.out_point {
            Some(p) => p,
            None => frames.saturating_sub(1),
        }
    }

    /// End sample for stopping or looping (region out only when looping).
    pub fn playback_end(&self, frames: usize) -> (r: usize)
        ensures
            r == self.playback_end_spec(frames),
    {
        if self.looping {
            self.transport_end(frames)
        } else {
            frames.saturating_sub(1)
        }
    }

    /// Whether the playhead stands at (or past) where playback stops.
    pub fn is_at_end(&self, frames: usize) -> (b: bool)
        ensures
            b == (self.position >= self.playback_end_spec(frames)),
    {
        self.position >= self.playback_end(frames)
    }

    /// Moves the playhead forward by `frames_played`. Reaching the playback
    /// end loops back to the start when looping over a non-empty span, and
    /// otherwise parks the playhead on the end.
    pub fn advance(&mut self, frames_played: usize, frames: usize) -> (event: PlayheadEvent)
        ensures
            ({
                let end = old(self).playback_end_spec(frames);
                let start = old(self).playback_start_spec();
                let next = old(self).position + frames_played;
                if frames_played == 0 {
                    event == PlayheadEvent::Advanced && *final(self) == *old(self)
                } else if next >= end {
                    if old(self).looping && end > start {
                        event == PlayheadEvent::Looped && *final(self) == (Playhead {
                            position: start,
                            ..*old(self)
                        })
                    } else {
                        event == PlayheadEvent::ReachedEnd && *final(self) == (Playhead {
                            position: end,
                            ..*old(self)
                        })
                    }
                } else {
                    event == PlayheadEvent::Advanced && *final(self) == (Playhead {
                        position: next as usize,
                        ..*old(self)
                    })
                }
            }),
    {
        if frames_played == 0 {
            return PlayheadEvent::Advanced;
        }
        let end = self.playback_end(frames);
        let start = self.playback_start();
        let next = self.position.saturating_add(frames_played);
        if next >= end {
            if self.looping && end > start {
                self.position = start;
                return PlayheadEvent::Looped;
            }
            self.position = end;
            return PlayheadEvent::ReachedEnd;
        }
        self.position = next;
        PlayheadEvent::Advanced
    }
}

/// Playback never runs past its end: after any step the playhead is at or
/// before the playback end, or back at the start after a loop.
pub proof fn law_advance_stays_within_end(p: Playhead, frames_played: usize, frames: usize)
    requires
        p.position <= p.playback_end_spec(frames),
    ensures
        ({
            let end = p.playback_end_spec(frames);
            let start = p.playback_start_spec();
            let next = p.position + frames_played;
            let q = if frames_played == 0 {
                p.position as int
            } else if next >= end {
                if p.looping && end > start { start as int } else { end as int }
            } else {
                next
            };
            q <= end || q == start
        }),
{
}

} // verus!
