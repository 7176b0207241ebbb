use vstd::prelude::*;

verus! {

#[derive(Debug, Clone, Copy, PartialEq, Eq, Hash, Structural)]
pub struct MediaId(pub u64);

#[derive(Debug, Clone, Copy, PartialEq, Eq, Hash, Structural)]
pub struct ClipId(pub u64);

#[derive(Debug, Clone, Copy, PartialEq, Eq, Hash, Structural)]
pub struct ClipMarkerId(pub u64);

/// Where a clip reads its frames: a media file and the first frame in it.
#[derive(Debug, Clone, Copy, PartialEq, Eq, Structural)]
pub struct ClipSource {
    pub media_id: MediaId,
    pub offset: u64,
}

/// A marker carried by a clip, at `offset` frames from the clip's start.
/// `color` holds the bit patterns of four `f32` RGBA components.
#[derive(Debug, Clone)]
pub struct ClipMarker {
    pub id: ClipMarkerId,
    pub offset: u64,
    pub color: Option<[u32; 4]>,
    pub label_type: Option<String>,
    pub message: Option<String>,
}

/// A run of frames on the timeline: silence, or frames of one media file.
#[derive(Debug, Clone)]
pub struct Clip {
    pub id: ClipId,
    pub len: u64,
    pub source: Option<ClipSource>,
    pub fade_in: u64,
    pub fade_out: u64,
    pub markers: Vec<ClipMarker>,
}

/// A clip together with the timeline frame it starts at.
#[derive(Debug, Clone)]
pub struct ClipSpan {
    pub start: u64,
    pub clip: Clip,
}

/// The abstract value of a clip: its fields, with the markers as a sequence.
pub struct ClipValue {
    pub id: ClipId,
    pub len: u64,
    pub source: Option<ClipSource>,
    pub fade_in: u64,
    pub fade_out: u64,
    pub markers: Seq<ClipMarker>,
}

impl ClipValue {
    /// Whether the clip's source frames, if any, are addressable: its last
    /// source frame fits in `u64`.
    pub open spec fn fits(self) -> bool {
        self.source matches Some(s) ==> s.offset + self.len <= u64::MAX
    }
}

pub open spec fn clip_fits(c: Clip) -> bool {
    c.value().fits()
}

/// The markers of `ms` before `at`.
pub open spec fn markers_before(ms: Seq<ClipMarker>, at: u64) -> Seq<ClipMarker>
    decreases ms.len(),
{
    if ms.len() == 0 {
        seq![]
    } else {
        let rest = markers_before(ms.drop_last(), at);
        if ms.last().offset < at {
            rest.push(ms.last())
        } else {
            rest
        }
    }
}

/// The markers of `ms` at or after `at`, moved back by `at`.
pub open spec fn markers_from(ms: Seq<ClipMarker>, at: u64) -> Seq<ClipMarker>
    decreases ms.len(),
{
    if ms.len() == 0 {
        seq![]
    } else {
        let rest = markers_from(ms.drop_last(), at);
        if ms.last().offset < at {
            rest
        } else {
            rest.push(ClipMarker { offset: (ms.last().offset - at) as u64, ..ms.last() })
        }
    }
}

pub open spec fn min_u64(a: u64, b: u64) -> u64 {
    if a <= b {
        a
    } else {
        b
    }
}

pub open spec fn sat_sub(a: u64, b: u64) -> u64 {
    if a >= b {
        (a - b) as u64
    } else {
        0
    }
}

/// The two halves of `c` cut `at` frames in, the right one named `right_id`.
pub open spec fn split_clip(c: ClipValue, at: u64, right_id: ClipId) -> (ClipValue, ClipValue) {
    let at = min_u64(at, c.len);
    let left_len = at;
    let right_len = (c.len - at) as u64;
    (
        ClipValue {
            id: c.id,
            len: left_len,
            source: c.source,
            fade_in: min_u64(c.fade_in, left_len),
            fade_out: min_u64(sat_sub(c.fade_out, right_len), left_len),
            markers: markers_before(c.markers, at),
        },
        ClipValue {
            id: right_id,
            len: right_len,
            source: match c.source {
                Some(s) => Some(ClipSource { media_id: s.media_id, offset: (s.offset + at) as u64 }),
                None => None,
            },
            fade_in: min_u64(sat_sub(c.fade_in, left_len), right_len),
            fade_out: min_u64(c.fade_out, right_len),
            markers: markers_from(c.markers, at),
        },
    )
}

/// The source offset of `c` moved by `delta` frames, kept within `0..=media_frames - len`.
pub open spec fn rolled_offset(offset: u64, len: u64, delta: i64, media_frames: u64) -> u64 {
    let max_offset = sat_sub(media_frames, len);
    let moved = offset + delta;
    let rolled: int = if moved < 0 {
        0
    } else if moved > u64::MAX {
        u64::MAX as int
    } else {
        moved
    };
    if rolled <= max_offset {
        rolled as u64
    } else {
        max_offset
    }
}

impl Clip {
    pub open spec fn value(&self) -> ClipValue {
        ClipValue {
            id: self.id,
            len: self.len,
            source: self.source,
            fade_in: self.fade_in,
            fade_out: self.fade_out,
            markers: self.markers@,
        }
    }

    /// A clip of `len` frames of silence.
    pub fn silence(id: ClipId, len: u64) -> (c: Clip)
        ensures
            c.value() == (ClipValue {
                id,
                len,
                source: None,
                fade_in: 0,
                fade_out: 0,
                markers: seq![],
            }),
    {
        Clip { id, len, source: None, fade_in: 0, fade_out: 0, markers: Vec::new() }
    }

    /// A clip of `len` frames of media `media_id`, from frame `offset` on.
    pub fn from_media(id: ClipId, media_id: MediaId, offset: u64, len: u64) -> (c: Clip)
        ensures
            c.value() == (ClipValue {
                id,
                len,
                source: Some(ClipSource { media_id, offset }),
                fade_in: 0,
                fade_out: 0,
                markers: seq![],
            }),
    {
        Clip {
            id,
            len,
            source: Some(ClipSource { media_id, offset }),
            fade_in: 0,
            fade_out: 0,
            markers: Vec::new(),
        }
    }

    /// Cuts the clip `at` frames in (at most its length): the left half keeps
    /// the id, the right half gets `right_id`; fades and markers go with the
    /// frames they belong to.
    pub fn split(&self, at: u64, right_id: ClipId) -> (r: (Clip, Clip))
        requires
            clip_fits(*self),
        ensures
            (r.0.value(), r.1.value()) == split_clip(self.value(), at, right_id),
            clip_fits(r.0),
            clip_fits(r.1),
    {
        let at = if at < self.len {
            at
        } else {
            self.len
        };
        let left_len = at;
        let right_len = self.len - at;
        let (left_markers, right_markers) = split_markers(&self.markers, at);
        let left_fade_in = if self.fade_in < left_len {
            self.fade_in
        } else {
            left_len
        };
        let rest_in = self.fade_in.saturating_sub(left_len);
        let right_fade_in = if rest_in < right_len {
            rest_in
        } else {
            right_len
        };
        let rest_out = self.fade_out.saturating_sub(right_len);
        let left_fade_out = if rest_out < left_len {
            rest_out
        } else {
            left_len
        };
        let right_fade_out = if self.fade_out < right_len {
            self.fade_out
        } else {
            right_len
        };
        let left = Clip {
            id: self.id,
            len: left_len,
            source: self.source,
            fade_in: left_fade_in,
            fade_out: left_fade_out,
            markers: left_markers,
        };
        let right_source = match self.source {
            Some(source) => Some(ClipSource { media_id: source.media_id, offset: source.offset + at }),
            None => None,
        };
        let right = Clip {
            id: right_id,
            len: right_len,
            source: right_source,
            fade_in: right_fade_in,
            fade_out: right_fade_out,
            markers: right_markers,
        };
        (left, right)
    }

    /// The clip with its source offset moved by `delta` frames, clamped so the
    /// clip stays inside media of `media_frames` frames. Silence is returned
    /// unchanged.
    pub fn with_rolled_offset(&self, delta: i64, media_frames: u64) -> (c: Clip)
        ensures
            c.id == self.id,
            c.len == self.len,
            c.fade_in == self.fade_in,
            c.fade_out == self.fade_out,
            c.markers@ == self.markers@,
            c.source == match self.source {
                Some(s) => Some(
                    ClipSource {
                        media_id: s.media_id,
                        offset: rolled_offset(s.offset, self.len, delta, media_frames),
                    },
                ),
                None => None,
            },
            clip_fits(*self) ==> clip_fits(c),
    {
        let mut clip = copy_clip(self);
        if let Some(source) = self.source {
            let max_offset = media_frames.saturating_sub(self.len);
            let rolled = if delta >= 0 {
                source.offset.saturating_add(delta as u64)
            } else {
                let back: u64 = (-(delta as i128)) as u64;
                source.offset.saturating_sub(back)
            };
            let offset = if rolled < max_offset {
                rolled
            } else {
                max_offset
            };
            clip.source = Some(ClipSource { media_id: source.media_id, offset });
        }
        clip
    }
}

impl ClipSpan {
    pub open spec fn end_spec(&self) -> int {
        self.start + self.clip.len
    }

    /// The frame just past the span.
    pub fn end(&self) -> (e: u64)
        requires
            self.end_spec() <= u64::MAX,
        ensures
            e == self.end_spec(),
    {
        self.start + self.clip.len
    }

    /// Whether `frame` lies in the span.
    pub fn contains(&self, frame: u64) -> (b: bool)
        ensures
            b == (self.start <= frame && frame < self.end_spec()),
    {
        frame >= self.start && frame - self.start < self.clip.len
    }
}

/// A copy of `m`.
pub fn copy_clip_marker(m: &ClipMarker) -> (r: ClipMarker)
    ensures
        r == *m,
{
    ClipMarker {
        id: m.id,
        offset: m.offset,
        color: m.color,
        label_type: match &m.label_type {
            Some(s) => Some(s.clone()),
            None => None,
        },
        message: match &m.message {
            Some(s) => Some(s.clone()),
            None => None,
        },
    }
}

/// A copy of `c`.
pub fn copy_clip(c: &Clip) -> (r: Clip)
    ensures
        r.value() == c.value(),
        clip_fits(*c) ==> clip_fits(r),
{
    let mut markers: Vec<ClipMarker> = Vec::new();
    let mut i: usize = 0;
    while i < c.markers.len()
        invariant
            i <= c.markers.len(),
            markers@ == c.markers@.take(i as int),
        decreases c.markers.len() - i,
    {
        markers.push(copy_clip_marker(&c.markers[i]));
        i += 1;
        proof {
            assert(markers@ =~= c.markers@.take(i as int));
        }
    }
    proof {
        assert(markers@ =~= c.markers@);
    }
    Clip { id: c.id, len: c.len, source: c.source, fade_in: c.fade_in, fade_out: c.fade_out, markers }
}

/// Copies of `clips`, in order.
pub fn copy_clips(clips: &Vec<Clip>) -> (r: Vec<Clip>)
    ensures
        r@.len() == clips@.len(),
        forall|i: int| 0 <= i < clips@.len() ==> (#[trigger] r@[i]).value() == clips@[i].value(),
{
    let mut out: Vec<Clip> = Vec::new();
    let mut i: usize = 0;
    while i < clips.len()
        invariant
            i <= clips@.len(),
            out@.len() == i,
            forall|k: int| 0 <= k < i ==> (#[trigger] out@[k]).value() == clips@[k].value(),
        decreases clips@.len() - i,
    {
        out.push(copy_clip(&clips[i]));
        i += 1;
    }
    out
}

/// The markers before `at`, and those at or after it moved back by `at`.
fn split_markers(markers: &Vec<ClipMarker>, at: u64) -> (r: (Vec<ClipMarker>, Vec<ClipMarker>))
    ensures
        r.0@ == markers_before(markers@, at),
        r.1@ == markers_from(markers@, at),
{
    let mut left: Vec<ClipMarker> = Vec::new();
    let mut right: Vec<ClipMarker> = Vec::new();
    let mut i: usize = 0;
    while i < markers.len()
        invariant
            i <= markers.len(),
            left@ == markers_before(markers@.take(i as int), at),
            right@ == markers_from(markers@.take(i as int), at),
        decreases markers.len() - i,
    {
        let m = copy_clip_marker(&markers[i]);
        proof {
            assert(markers@.take(i + 1).drop_last() =~= markers@.take(i as int));
        }
        if m.offset < at {
            left.push(m);
        } else {
            let mut moved = m;
            moved.offset = moved.offset - at;
            right.push(moved);
        }
        i += 1;
    }
    proof {
        assert(markers@.take(markers@.len() as int) =~= markers@);
    }
    (left, right)
}

/// Splitting a clip keeps its frames: the halves' lengths add up to the
/// clip's, and the right half reads its source from where the left one stops.
pub proof fn law_split_clip_halves(c: ClipValue, at: u64, right_id: ClipId)
    ensures
        split_clip(c, at, right_id).0.len + split_clip(c, at, right_id).1.len == c.len,
        split_clip(c, at, right_id).0.len == min_u64(at, c.len),
        c.source matches Some(s) ==> (c.fits() ==> split_clip(c, at, right_id).1.source == Some(
            ClipSource { media_id: s.media_id, offset: (s.offset + split_clip(c, at, right_id).0.len) as u64 },
        )),
{
}

} // verus!
