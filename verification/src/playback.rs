use vstd::prelude::*;

use crate::anchors::{anchor_points, collect_anchors, next_anchor, previous_anchor, strictly_increasing};
use crate::buffer::{ChannelScope, Region};
use crate::document::{clamp_to, pos_view, same_model, BufferDocument};
use crate::markers::MarkerList;
use crate::playhead::{clamp_spec, Playhead};
use crate::selection::Selection;
use crate::transport::{should_restart_from_start, should_restart_spec, Transport, TransportState};

verus! {

/// What the audio engine is told to take on after a step of the session:
/// the playhead, its in and out points, looping and the transport state;
/// with `bump_epoch`, it also drops what it had queued.
#[derive(Debug, Clone, Copy, PartialEq, Eq, Structural)]
pub struct EngineCommand {
    pub position: usize,
    pub looping: bool,
    pub in_point: Option<usize>,
    pub out_point: Option<usize>,
    pub transport: TransportState,
    pub bump_epoch: bool,
}

/// The playback side of an open document: playhead, transport, the points
/// Previous and Next jump to, and the region playback is held to. The audio
/// engine itself is driven by the caller, through the commands the session
/// returns and the engine position and state it hands in.
pub struct PlaybackSession {
    pub playhead: Playhead,
    pub transport: Transport,
    pub anchors: Vec<usize>,
    pub active_region: Option<(usize, usize)>,
}

/// `p` moved to `sample`, kept within `frames`.
pub open spec fn moved_to(p: Playhead, sample: usize, frames: usize) -> Playhead {
    Playhead { position: clamp_spec(sample, frames), ..p }
}

/// `p` held to the region between `start` and `end`, kept within `frames`.
pub open spec fn held_to(p: Playhead, start: usize, end: usize, frames: usize) -> Playhead {
    Playhead {
        in_point: Some(clamp_spec(if start <= end { start } else { end }, frames)),
        out_point: Some(clamp_spec(if start <= end { end } else { start }, frames)),
        ..p
    }
}

/// `p` with no in and out points.
pub open spec fn released(p: Playhead) -> Playhead {
    Playhead { in_point: None, out_point: None, ..p }
}

/// The region playback is held to for a document's selection: a selected
/// region longer than one sample.
pub open spec fn region_bounds_spec(selection: Selection) -> Option<(usize, usize)> {
    match selection {
        Selection::Region { start, end, .. } => if end > start {
            Some((start, end))
        } else {
            None
        },
        _ => None,
    }
}

/// What `play(engine_position, frames)` makes of `old`, answering `c`.
pub open spec fn played(
    old: PlaybackSession,
    new: PlaybackSession,
    engine_position: usize,
    frames: usize,
    c: Option<EngineCommand>,
) -> bool {
    &&& old.state() == TransportState::Playing ==> c is None && new == old
    &&& old.state() != TransportState::Playing ==> {
        let here = moved_to(old.playhead, engine_position, frames);
        let restart = should_restart_spec(
            old.state(),
            here.position >= here.playback_end_spec(frames),
            here.in_point is Some,
        );
        &&& new.playhead == if restart {
            moved_to(here, here.playback_start_spec(), frames)
        } else {
            here
        }
        &&& new.state() == TransportState::Playing
        &&& new.anchors == old.anchors
        &&& new.active_region == old.active_region
        &&& c == Some(new.command_spec(true))
    }
}

/// Play after a pause resumes where the engine stopped, in/out points or
/// not; only from the end of playback does it go back to the playback start.
pub proof fn law_play_resumes_after_pause(
    old: PlaybackSession,
    new: PlaybackSession,
    engine_position: usize,
    frames: usize,
    c: Option<EngineCommand>,
)
    requires
        old.state() == TransportState::Paused,
        played(old, new, engine_position, frames, c),
    ensures
        ({
            let here = moved_to(old.playhead, engine_position, frames);
            &&& here.position < here.playback_end_spec(frames) ==> new.playhead == here
            &&& here.position >= here.playback_end_spec(frames) ==> new.playhead == moved_to(
                here,
                here.playback_start_spec(),
                frames,
            )
        }),
        new.state() == TransportState::Playing,
{
}

/// Play when stopped starts from the playback start when in/out points are
/// set or the engine stopped at the end of playback, and where it stopped
/// otherwise.
pub proof fn law_play_from_stop(
    old: PlaybackSession,
    new: PlaybackSession,
    engine_position: usize,
    frames: usize,
    c: Option<EngineCommand>,
)
    requires
        old.state() == TransportState::Stopped,
        played(old, new, engine_position, frames, c),
    ensures
        ({
            let here = moved_to(old.playhead, engine_position, frames);
            let restart = here.in_point is Some || here.position >= here.playback_end_spec(frames);
            &&& restart ==> new.playhead == moved_to(here, here.playback_start_spec(), frames)
            &&& !restart ==> new.playhead == here
        }),
        new.state() == TransportState::Playing,
{
}

impl PlaybackSession {
    pub open spec fn state(&self) -> TransportState {
        self.transport.state_spec()
    }

    /// The command that tells the engine the state of `self`.
    pub open spec fn command_spec(&self, bump_epoch: bool) -> EngineCommand {
        EngineCommand {
            position: self.playhead.position,
            looping: self.playhead.looping,
            in_point: self.playhead.in_point,
            out_point: self.playhead.out_point,
            transport: self.state(),
            bump_epoch,
        }
    }

    /// The playhead after taking the engine's position, which it does only
    /// while playing.
    pub open spec fn synced_playhead(&self, engine_position: usize, frames: usize) -> Playhead {
        if self.state() == TransportState::Playing {
            moved_to(self.playhead, engine_position, frames)
        } else {
            self.playhead
        }
    }

    /// A stopped session at the start, with no anchors or region.
    pub fn new() -> (s: Self)
        ensures
            s.playhead == (Playhead { position: 0, in_point: None, out_point: None, looping: false }),
            s.state() == TransportState::Stopped,
            s.anchors@.len() == 0,
            s.active_region is None,
    {
        PlaybackSession {
            playhead: Playhead::new(),
            transport: Transport::new(),
            anchors: Vec::new(),
            active_region: None,
        }
    }

    pub fn transport_state(&self) -> (s: TransportState)
        ensures
            s == self.state(),
    {
        self.transport.state()
    }

    pub fn looping(&self) -> (b: bool)
        ensures
            b == self.playhead.looping,
    {
        self.playhead.looping()
    }

    /// Where playback is: the engine's position while playing, else the
    /// playhead's.
    pub fn position(&self, engine_position: usize) -> (p: usize)
        ensures
            p == if self.state() == TransportState::Playing {
                engine_position
            } else {
                self.playhead.position
            },
    {
        if self.transport.is_playing() {
            engine_position
        } else {
            self.playhead.position()
        }
    }

    /// Takes the marker frames and region ends as the points to jump to.
    pub fn refresh_anchors(&mut self, markers: &MarkerList, regions: &Vec<Region>)
        requires
            markers.wf(),
        ensures
            strictly_increasing(final(self).anchors@),
            final(self).anchors@.to_set() == anchor_points(markers.items(), regions@),
            final(self).playhead == old(self).playhead,
            final(self).transport == old(self).transport,
            final(self).active_region == old(self).active_region,
    {
        self.anchors = collect_anchors(markers, regions);
    }

    /// The command for the engine.
    fn command(&self, bump_epoch: bool) -> (c: EngineCommand)
        ensures
            c == self.command_spec(bump_epoch),
    {
        EngineCommand {
            position: self.playhead.position(),
            looping: self.playhead.looping(),
            in_point: self.playhead.in_point(),
            out_point: self.playhead.out_point(),
            transport: self.transport.state(),
            bump_epoch,
        }
    }

    fn sync_playhead_from_engine(&mut self, engine_position: usize, frames: usize)
        ensures
            final(self).playhead == old(self).synced_playhead(engine_position, frames),
            final(self).transport == old(self).transport,
            final(self).anchors == old(self).anchors,
            final(self).active_region == old(self).active_region,
    {
        if self.transport.is_playing() {
            self.playhead.set_position(engine_position, frames);
        }
    }

    /// The region playback is held to for the selection of `doc`.
    pub fn region_bounds_from_doc(doc: &BufferDocument) -> (r: Option<(usize, usize)>)
        ensures
            r == region_bounds_spec(doc.selection),
    {
        match &doc.selection {
            Selection::Region { start, end, .. } => {
                if *end > *start {
                    Some((*start, *end))
                } else {
                    None
                }
            },
            _ => None,
        }
    }
}

/// What `sync_from_document(doc)` makes of `old`'s playhead and region.
pub open spec fn synced_from_document(old: PlaybackSession, new: PlaybackSession, doc: BufferDocument) -> bool {
    let frames = doc.frames_spec();
    let playing = old.state() == TransportState::Playing;
    let caret = doc.current_position;
    if doc.region_drag_anchor is Some {
        &&& new.active_region == old.active_region
        &&& playing ==> new.playhead == old.playhead
        &&& !playing ==> {
            let held = match old.active_region {
                Some((s, e)) => held_to(old.playhead, s, e, frames),
                None => old.playhead,
            };
            new.playhead == match caret {
                Some(p) => moved_to(held, p.sample, frames),
                None => held,
            }
        }
    } else {
        let region = region_bounds_spec(doc.selection);
        &&& new.active_region == region
        &&& match region {
            Some((s, e)) => {
                let held = held_to(old.playhead, s, e, frames);
                new.playhead == if playing {
                    if region != old.active_region {
                        moved_to(held, s, frames)
                    } else {
                        held
                    }
                } else {
                    match caret {
                        Some(p) => moved_to(held, p.sample, frames),
                        None => held,
                    }
                }
            },
            None => new.playhead == match caret {
                Some(p) => moved_to(released(old.playhead), p.sample, frames),
                None => released(old.playhead),
            },
        }
    }
}

impl PlaybackSession {
    /// Follows the document: its anchors, the region its selection holds
    /// playback to, and its caret (while a region is dragged, only when not
    /// playing; while playing, a new region restarts from its start).
    pub fn sync_from_document(&mut self, doc: &BufferDocument) -> (c: EngineCommand)
        requires
            doc.wf(),
        ensures
            strictly_increasing(final(self).anchors@),
            final(self).anchors@.to_set() == anchor_points(doc.composition.marker_list().items(), doc.regions@),
            final(self).transport == old(self).transport,
            synced_from_document(*old(self), *final(self), *doc),
            c == final(self).command_spec(false),
    {
        proof {
            doc.composition.lemma_wf();
        }
        self.refresh_anchors(doc.composition.markers(), &doc.regions);
        let frames = doc.frames();
        if doc.is_region_drag_active() {
            if !self.transport.is_playing() {
                if let Some((start, end)) = self.active_region {
                    self.playhead.set_in_out(start, end, frames);
                }
                if let Some(pos) = &doc.current_position {
                    self.playhead.set_position(pos.sample, frames);
                }
            }
            return self.command(false);
        }
        let new_region = Self::region_bounds_from_doc(doc);
        let region_changed = new_region != self.active_region;
        self.active_region = new_region;
        match new_region {
            Some((start, end)) => {
                self.playhead.set_in_out(start, end, frames);
                if self.transport.is_playing() {
                    if region_changed {
                        self.playhead.set_position(start, frames);
                    }
                } else if let Some(pos) = &doc.current_position {
                    self.playhead.set_position(pos.sample, frames);
                }
            },
            None => {
                self.playhead.clear_in_out();
                if let Some(pos) = &doc.current_position {
                    self.playhead.set_position(pos.sample, frames);
                }
            },
        }
        self.command(false)
    }

    /// Takes the engine's position while playing and moves the document's
    /// caret there.
    pub fn sync_document_from_playback(&mut self, doc: &mut BufferDocument, engine_position: usize) -> (c:
        EngineCommand)
        requires
            old(doc).wf(),
        ensures
            final(doc).wf(),
            final(self).playhead == old(self).synced_playhead(engine_position, old(doc).frames_spec()),
            final(self).transport == old(self).transport,
            final(self).anchors == old(self).anchors,
            final(self).active_region == old(self).active_region,
            followed_playback(*old(doc), *final(doc), final(self).playhead.position),
            c == final(self).command_spec(false),
    {
        let frames = doc.frames();
        self.sync_playhead_from_engine(engine_position, frames);
        let sample = self.playhead.position();
        doc.set_position_from_playback(sample, ChannelScope::all());
        self.command(false)
    }

    /// Plays from the playback start.
    pub fn start(&mut self, frames: usize) -> (c: EngineCommand)
        ensures
            final(self).playhead == moved_to(old(self).playhead, old(self).playhead.playback_start_spec(), frames),
            final(self).state() == TransportState::Playing,
            final(self).anchors == old(self).anchors,
            final(self).active_region == old(self).active_region,
            c == final(self).command_spec(true),
    {
        let start = self.playhead.playback_start();
        self.playhead.set_position(start, frames);
        self.transport.set_state(TransportState::Playing);
        self.command(true)
    }

    /// Plays from where the engine is, or from the playback start when
    /// stopped with a region or at the end, or paused at the end. Nothing
    /// happens while playing.
    pub fn play(&mut self, engine_position: usize, frames: usize) -> (c: Option<EngineCommand>)
        ensures
            played(*old(self), *final(self), engine_position, frames, c),
    {
        if self.transport.is_playing() {
            return None;
        }
        self.playhead.set_position(engine_position, frames);
        let at_end = self.playhead.is_at_end(frames);
        let has_region = self.playhead.in_point().is_some();
        if should_restart_from_start(self.transport.state(), at_end, has_region) {
            let start = self.playhead.playback_start();
            self.playhead.set_position(start, frames);
        }
        self.transport.set_state(TransportState::Playing);
        Some(self.command(true))
    }

    /// Pauses where the engine is.
    pub fn pause(&mut self, engine_position: usize, frames: usize) -> (c: EngineCommand)
        ensures
            final(self).playhead == old(self).synced_playhead(engine_position, frames),
            final(self).state() == TransportState::Paused,
            final(self).anchors == old(self).anchors,
            final(self).active_region == old(self).active_region,
            c == final(self).command_spec(false),
    {
        self.sync_playhead_from_engine(engine_position, frames);
        self.transport.set_state(TransportState::Paused);
        self.command(false)
    }

    /// Stops where the engine is.
    pub fn stop(&mut self, engine_position: usize, frames: usize) -> (c: EngineCommand)
        ensures
            final(self).playhead == old(self).synced_playhead(engine_position, frames),
            final(self).state() == TransportState::Stopped,
            final(self).anchors == old(self).anchors,
            final(self).active_region == old(self).active_region,
            c == final(self).command_spec(false),
    {
        self.sync_playhead_from_engine(engine_position, frames);
        self.transport.set_state(TransportState::Stopped);
        self.command(false)
    }

    /// Stops at the playback start.
    pub fn home(&mut self, frames: usize) -> (c: EngineCommand)
        ensures
            final(self).playhead == moved_to(old(self).playhead, old(self).playhead.playback_start_spec(), frames),
            final(self).state() == TransportState::Stopped,
            final(self).anchors == old(self).anchors,
            final(self).active_region == old(self).active_region,
            c == final(self).command_spec(false),
    {
        let start = self.playhead.playback_start();
        self.playhead.set_position(start, frames);
        self.transport.set_state(TransportState::Stopped);
        self.command(false)
    }

    /// Stops at the out point, or at the last sample.
    pub fn end(&mut self, frames: usize) -> (c: EngineCommand)
        ensures
            final(self).playhead == moved_to(
                old(self).playhead,
                old(self).playhead.transport_end_spec(frames),
                frames,
            ),
            final(self).state() == TransportState::Stopped,
            final(self).anchors == old(self).anchors,
            final(self).active_region == old(self).active_region,
            c == final(self).command_spec(false),
    {
        let end = self.playhead.transport_end(frames);
        self.playhead.set_position(end, frames);
        self.transport.set_state(TransportState::Stopped);
        self.command(false)
    }

    /// Jumps to the nearest anchor before the playhead, if any, stopping
    /// playback.
    pub fn previous(&mut self, frames: usize) -> (c: EngineCommand)
        ensures
            (exists|i: int| 0 <= i < old(self).anchors@.len() && old(self).anchors@[i] < old(self).playhead.position)
                ==> exists|a: usize|
                {
                    &&& old(self).anchors@.contains(a)
                    &&& a < old(self).playhead.position
                    &&& (forall|i: int|
                        0 <= i < old(self).anchors@.len() && old(self).anchors@[i] < old(self).playhead.position
                            ==> old(self).anchors@[i] <= a)
                    &&& final(self).playhead == moved_to(old(self).playhead, a, frames)
                },
            !(exists|i: int|
                0 <= i < old(self).anchors@.len() && old(self).anchors@[i] < old(self).playhead.position)
                ==> final(self).playhead == old(self).playhead,
            final(self).state() == if old(self).state() == TransportState::Playing {
                TransportState::Stopped
            } else {
                old(self).state()
            },
            final(self).anchors == old(self).anchors,
            final(self).active_region == old(self).active_region,
            c == final(self).command_spec(false),
    {
        let pos = self.playhead.position();
        if let Some(anchor) = previous_anchor(self.anchors.as_slice(), pos) {
            self.playhead.set_position(anchor, frames);
        }
        if self.transport.is_playing() {
            self.transport.set_state(TransportState::Stopped);
        }
        self.command(false)
    }

    /// Jumps to the nearest anchor after the playhead, if any, stopping
    /// playback.
    pub fn next(&mut self, frames: usize) -> (c: EngineCommand)
        ensures
            (exists|i: int| 0 <= i < old(self).anchors@.len() && old(self).anchors@[i] > old(self).playhead.position)
                ==> exists|a: usize|
                {
                    &&& old(self).anchors@.contains(a)
                    &&& a > old(self).playhead.position
                    &&& (forall|i: int|
                        0 <= i < old(self).anchors@.len() && old(self).anchors@[i] > old(self).playhead.position
                            ==> a <= old(self).anchors@[i])
                    &&& final(self).playhead == moved_to(old(self).playhead, a, frames)
                },
            !(exists|i: int|
                0 <= i < old(self).anchors@.len() && old(self).anchors@[i] > old(self).playhead.position)
                ==> final(self).playhead == old(self).playhead,
            final(self).state() == if old(self).state() == TransportState::Playing {
                TransportState::Stopped
            } else {
                old(self).state()
            },
            final(self).anchors == old(self).anchors,
            final(self).active_region == old(self).active_region,
            c == final(self).command_spec(false),
    {
        let pos = self.playhead.position();
        if let Some(anchor) = next_anchor(self.anchors.as_slice(), pos) {
            self.playhead.set_position(anchor, frames);
        }
        if self.transport.is_playing() {
            self.transport.set_state(TransportState::Stopped);
        }
        self.command(false)
    }

    /// Turns looping on or off.
    pub fn toggle_loop(&mut self) -> (c: EngineCommand)
        ensures
            final(self).playhead == (Playhead { looping: !old(self).playhead.looping, ..old(self).playhead }),
            final(self).transport == old(self).transport,
            final(self).anchors == old(self).anchors,
            final(self).active_region == old(self).active_region,
            c == final(self).command_spec(false),
    {
        self.playhead.toggle_looping();
        self.command(false)
    }

    /// Pauses while playing, plays otherwise.
    pub fn toggle_play_pause(&mut self, engine_position: usize, frames: usize) -> (c: Option<EngineCommand>)
        ensures
            old(self).state() == TransportState::Playing ==> {
                &&& final(self).playhead == old(self).synced_playhead(engine_position, frames)
                &&& final(self).state() == TransportState::Paused
                &&& c == Some(final(self).command_spec(false))
            },
            old(self).state() != TransportState::Playing ==> {
                let here = moved_to(old(self).playhead, engine_position, frames);
                let restart = should_restart_spec(
                    old(self).state(),
                    here.position >= here.playback_end_spec(frames),
                    here.in_point is Some,
                );
                &&& final(self).playhead == if restart {
                    moved_to(here, here.playback_start_spec(), frames)
                } else {
                    here
                }
                &&& final(self).state() == TransportState::Playing
                &&& c == Some(final(self).command_spec(true))
            },
            final(self).anchors == old(self).anchors,
            final(self).active_region == old(self).active_region,
    {
        if self.transport.is_playing() {
            Some(self.pause(engine_position, frames))
        } else {
            self.play(engine_position, frames)
        }
    }

    /// Stops (the first command, for the engine being closed) and starts
    /// over at the first sample with no region and the given anchors (the
    /// second command, for the engine opened in its place).
    pub fn reload(
        &mut self,
        markers: &MarkerList,
        regions: &Vec<Region>,
        engine_position: usize,
        frames: usize,
    ) -> (r: (EngineCommand, EngineCommand))
        requires
            markers.wf(),
        ensures
            r.0 == (EngineCommand {
                position: old(self).synced_playhead(engine_position, frames).position,
                transport: TransportState::Stopped,
                ..old(self).command_spec(false)
            }),
            final(self).playhead == released(moved_to(old(self).synced_playhead(engine_position, frames), 0, frames)),
            final(self).state() == TransportState::Stopped,
            final(self).active_region is None,
            strictly_increasing(final(self).anchors@),
            final(self).anchors@.to_set() == anchor_points(markers.items(), regions@),
            r.1 == final(self).command_spec(false),
    {
        let stopped = self.stop(engine_position, frames);
        self.playhead.set_position(0, frames);
        self.playhead.clear_in_out();
        self.active_region = None;
        self.anchors = collect_anchors(markers, regions);
        (stopped, self.command(false))
    }

    /// One step of the session's loop: when the engine has stopped by
    /// itself, stops too and puts the document's caret where it stopped;
    /// while playing, follows the engine. A command comes back only in the
    /// second case.
    pub fn poll(&mut self, doc: &mut BufferDocument, engine_state: TransportState, engine_position: usize) -> (c:
        Option<EngineCommand>)
        requires
            old(doc).wf(),
        ensures
            final(doc).wf(),
            final(self).anchors == old(self).anchors,
            final(self).active_region == old(self).active_region,
            old(self).state() != TransportState::Playing ==> c is None && *final(self) == *old(self) && *final(doc)
                == *old(doc),
            old(self).state() == TransportState::Playing && engine_state == TransportState::Stopped ==> {
                &&& c is None
                &&& final(self).state() == TransportState::Stopped
                &&& final(self).playhead == moved_to(old(self).playhead, engine_position, old(doc).frames_spec())
                &&& followed_playback(*old(doc), *final(doc), final(self).playhead.position)
            },
            old(self).state() == TransportState::Playing && engine_state != TransportState::Stopped ==> {
                &&& final(self).state() == TransportState::Playing
                &&& final(self).playhead == moved_to(old(self).playhead, engine_position, old(doc).frames_spec())
                &&& followed_playback(*old(doc), *final(doc), final(self).playhead.position)
                &&& c == Some(final(self).command_spec(false))
            },
    {
        if engine_state == TransportState::Stopped && self.transport.is_playing() {
            let frames = doc.frames();
            self.transport.set_state(TransportState::Stopped);
            self.playhead.set_position(engine_position, frames);
            let sample = self.playhead.position();
            doc.set_position_from_playback(sample, ChannelScope::all());
            return None;
        }
        if self.transport.is_playing() {
            return Some(self.sync_document_from_playback(doc, engine_position));
        }
        None
    }
}

/// `new` is `old` with its caret moved to `sample` as playback reports it:
/// kept within the timeline, on every channel, unless a region is being
/// dragged or the caret is already there.
pub open spec fn followed_playback(old: BufferDocument, new: BufferDocument, sample: usize) -> bool {
    let s = clamp_to(sample, old.frames_spec());
    let stays = old.region_drag_anchor is Some || (old.current_position matches Some(p) && p.sample == s);
    &&& new.composition == old.composition
    &&& new.selection == old.selection
    &&& same_model(old, new)
    &&& new.region_drag_anchor == old.region_drag_anchor
    &&& stays ==> new.current_position == old.current_position
    &&& !stays ==> pos_view(new.current_position) == Some((s, None::<Seq<usize>>))
}

} // verus!
