use vstd::prelude::*;

verus! {

#[derive(Debug, Clone, Copy, PartialEq, Eq, Hash, Structural)]
pub struct RegionId(pub u64);

#[derive(Debug, Clone, Copy, PartialEq, Eq, Hash, Structural)]
pub struct MarkerId(pub u64);

/// The channels an edit, region or position applies to.
#[derive(Debug, Clone, PartialEq, Eq)]
pub enum ChannelScope {
    AllChannels,
    Channels(Vec<usize>),
}

impl ChannelScope {
    pub open spec fn applies_to_spec(&self, channel: usize) -> bool {
        match self {
            ChannelScope::AllChannels => true,
            ChannelScope::Channels(channels) => channels@.contains(channel),
        }
    }

    pub fn all() -> (s: Self)
        ensures
            s == ChannelScope::AllChannels,
    {
        ChannelScope::AllChannels
    }

    pub fn single(channel: usize) -> (s: Self)
        ensures
            s matches ChannelScope::Channels(chs) && chs@ == seq![channel],
    {
        let mut chs = Vec::new();
        chs.push(channel);
        proof {
            assert(chs@ =~= seq![channel]);
        }
        ChannelScope::Channels(chs)
    }

    pub fn applies_to(&self, channel: usize) -> (b: bool)
        ensures
            b == self.applies_to_spec(channel),
    {
        match self {
            ChannelScope::AllChannels => true,
            ChannelScope::Channels(channels) => {
                let mut i: usize = 0;
                while i < channels.len()
                    invariant
                        i <= channels.len(),
                        forall|j: int| 0 <= j < i ==> channels@[j] != channel,
                        self.applies_to_spec(channel) == channels@.contains(channel),
                    decreases channels.len() - i,
                {
                    if channels[i] == channel {
                        proof {
                            assert(channels@[i as int] == channel);
                            assert(channels@.contains(channel));
                        }
                        return true;
                    }
                    i += 1;
                }
                false
            },
        }
    }

    /// The scope as a plain value: `None` for all channels, else the list.
    pub open spec fn view_channels(&self) -> Option<Seq<usize>> {
        match self {
            ChannelScope::AllChannels => None,
            ChannelScope::Channels(channels) => Some(channels@),
        }
    }

    /// A copy of this scope.
    pub fn duplicate(&self) -> (s: Self)
        ensures
            s.view_channels() == self.view_channels(),
    {
        match self {
            ChannelScope::AllChannels => ChannelScope::AllChannels,
            ChannelScope::Channels(channels) => {
                let mut out: Vec<usize> = Vec::new();
                let mut i: usize = 0;
                while i < channels.len()
                    invariant
                        i <= channels.len(),
                        out@ == channels@.take(i as int),
                    decreases channels.len() - i,
                {
                    out.push(channels[i]);
                    i += 1;
                    proof {
                        assert(out@ =~= channels@.take(i as int));
                    }
                }
                proof {
                    assert(out@ =~= channels@);
                }
                ChannelScope::Channels(out)
            },
        }
    }
}

/// An inclusive sample range `[start, end]` on some channels.
#[derive(Debug, Clone)]
pub struct Region {
    pub id: RegionId,
    pub start: usize,
    pub end: usize,
    pub channels: ChannelScope,
}

impl Region {
    /// A region between two ends given in either order.
    pub fn new(id: RegionId, start: usize, end: usize, channels: ChannelScope) -> (r: Self)
        ensures
            r.id == id,
            r.start == if start <= end { start } else { end },
            r.end == if start <= end { end } else { start },
            r.channels == channels,
    {
        let (start, end) = if start <= end {
            (start, end)
        } else {
            (end, start)
        };
        Region { id, start, end, channels }
    }

    pub open spec fn contains_spec(&self, sample: usize, channel: usize) -> bool {
        self.channels.applies_to_spec(channel) && self.start <= sample <= self.end
    }

    /// Whether the region covers `sample` on `channel`.
    pub fn contains(&self, sample: usize, channel: usize) -> (b: bool)
        ensures
            b == self.contains_spec(sample, channel),
    {
        self.channels.applies_to(channel) && sample >= self.start && sample <= self.end
    }
}

} // verus!
