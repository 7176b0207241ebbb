use vstd::prelude::*;

verus! {

/// What the STREAMINFO block of a FLAC file says of its audio.
#[derive(Debug, Clone, Copy, PartialEq, Eq, Structural)]
pub struct FlacStreaminfo {
    pub sample_rate: u32,
    pub channel_count: usize,
    pub bits_per_sample: Option<u32>,
    pub frame_count: u64,
}

/// The bytes a FLAC file starts with: `fLaC`.
pub open spec fn flac_magic() -> Seq<u8> {
    seq![0x66u8, 0x4cu8, 0x61u8, 0x43u8]
}

/// The number the bytes of `s` stand for, most significant first.
pub open spec fn be_value(s: Seq<u8>) -> nat
    decreases s.len(),
{
    if s.len() == 0 {
        0
    } else {
        be_value(s.drop_last()) * 256 + s.last() as nat
    }
}

/// `256` to the power `n`.
pub open spec fn pow256(n: nat) -> nat
    decreases n,
{
    if n == 0 {
        1
    } else {
        256 * pow256((n - 1) as nat)
    }
}

/// The length of the STREAMINFO block, read from the first eight bytes of a
/// file: `None` unless they hold the magic and a first metadata block of
/// type STREAMINFO at least 18 bytes long.
pub open spec fn streaminfo_len_spec(head: Seq<u8>) -> Option<usize> {
    if head.len() < 8 || head.subrange(0, 4) != flac_magic() || head[4] % 128 != 0 {
        None
    } else {
        let len = head[5] * 65536 + head[6] * 256 + head[7];
        if len < 18 {
            None
        } else {
            Some(len as usize)
        }
    }
}

/// The 64 bits at offset 10 of a STREAMINFO block: sample rate (20 bits),
/// channels less one (3), bits per sample less one (5), frames (36).
pub open spec fn packed_fields(payload: Seq<u8>) -> nat {
    be_value(payload.subrange(10, 18))
}

/// What a STREAMINFO block says, or `None` when it is too short or gives no
/// sample rate or no frames.
pub open spec fn streaminfo_spec(payload: Seq<u8>) -> Option<FlacStreaminfo> {
    if payload.len() < 18 {
        None
    } else {
        let p = packed_fields(payload);
        let rate = p / 0x1000_0000_0000;
        let channels = (p / 0x200_0000_0000) % 8 + 1;
        let bits = (p / 0x10_0000_0000) % 32 + 1;
        let frames = p % 0x10_0000_0000;
        if rate == 0 || frames == 0 {
            None
        } else {
            Some(
                FlacStreaminfo {
                    sample_rate: rate as u32,
                    channel_count: channels as usize,
                    bits_per_sample: Some(bits as u32),
                    frame_count: frames as u64,
                },
            )
        }
    }
}

/// The length of the STREAMINFO block whose header ends the first eight
/// bytes `head` of a file.
pub fn flac_streaminfo_len(head: &[u8]) -> (r: Option<usize>)
    ensures
        r == streaminfo_len_spec(head@),
{
    if head.len() < 8 {
        return None;
    }
    if head[0] != 0x66 || head[1] != 0x4c || head[2] != 0x61 || head[3] != 0x43 {
        proof {
            assert(head@.subrange(0, 4)[0] == head@[0]);
            assert(head@.subrange(0, 4)[1] == head@[1]);
            assert(head@.subrange(0, 4)[2] == head@[2]);
            assert(head@.subrange(0, 4)[3] == head@[3]);
        }
        return None;
    }
    proof {
        assert(head@.subrange(0, 4) =~= flac_magic());
    }
    if head[4] % 128 != 0 {
        return None;
    }
    let len: usize = head[5] as usize * 65536 + head[6] as usize * 256 + head[7] as usize;
    if len < 18 {
        return None;
    }
    Some(len)
}

/// What the STREAMINFO block `payload` says of the audio.
pub fn parse_flac_streaminfo(payload: &[u8]) -> (r: Option<FlacStreaminfo>)
    ensures
        r == streaminfo_spec(payload@),
{
    if payload.len() < 18 {
        return None;
    }
    let mut packed: u64 = 0;
    let mut i: usize = 10;
    proof {
        assert(payload@.subrange(10, 10) =~= Seq::<u8>::empty());
    }
    while i < 18
        invariant
            10 <= i <= 18,
            18 <= payload@.len(),
            packed == be_value(payload@.subrange(10, i as int)),
            packed < pow256((i - 10) as nat),
        decreases 18 - i,
    {
        let ghost k = (i - 10) as nat;
        proof {
            reveal_with_fuel(pow256, 8);
            assert(pow256(k) <= pow256(7));
            assert(packed * 256 + 255 < pow256(k) * 256) by (nonlinear_arith)
                requires
                    packed < pow256(k),
            ;
            assert(payload@.subrange(10, i + 1).drop_last() =~= payload@.subrange(10, i as int));
        }
        packed = packed * 256 + payload[i] as u64;
        i += 1;
    }
    let rate = packed / 0x1000_0000_0000;
    let channels: usize = ((packed / 0x200_0000_0000) % 8) as usize + 1;
    let bits: u32 = ((packed / 0x10_0000_0000) % 32) as u32 + 1;
    let frames = packed % 0x10_0000_0000;
    if rate == 0 || channels == 0 || frames == 0 {
        return None;
    }
    Some(
        FlacStreaminfo {
            sample_rate: rate as u32,
            channel_count: channels,
            bits_per_sample: Some(bits),
            frame_count: frames,
        },
    )
}

/// The sample formats a decoder reports.
#[derive(Debug, Clone, Copy, PartialEq, Eq, Structural)]
pub enum SampleFormat {
    U8,
    S8,
    U16,
    S16,
    U24,
    S24,
    U32,
    S32,
    F32,
    F64,
}

/// The bits of one sample in format `format`.
pub open spec fn format_bits(format: SampleFormat) -> u32 {
    match format {
        SampleFormat::U8 | SampleFormat::S8 => 8,
        SampleFormat::U16 | SampleFormat::S16 => 16,
        SampleFormat::U24 | SampleFormat::S24 => 24,
        SampleFormat::U32 | SampleFormat::S32 | SampleFormat::F32 => 32,
        SampleFormat::F64 => 64,
    }
}

/// The bit depth a decoder's parameters give: the bits per sample, else the
/// bits per coded sample, else those of the sample format.
pub fn codec_bits_per_sample(
    bits_per_sample: Option<u32>,
    bits_per_coded_sample: Option<u32>,
    sample_format: Option<SampleFormat>,
) -> (r: Option<u32>)
    ensures
        r == match (bits_per_sample, bits_per_coded_sample, sample_format) {
            (Some(b), _, _) => Some(b),
            (None, Some(b), _) => Some(b),
            (None, None, Some(f)) => Some(format_bits(f)),
            (None, None, None) => None,
        },
{
    match bits_per_sample {
        Some(b) => Some(b),
        None => match bits_per_coded_sample {
            Some(b) => Some(b),
            None => match sample_format {
                Some(format) => Some(
                    match format {
                        SampleFormat::U8 | SampleFormat::S8 => 8,
                        SampleFormat::U16 | SampleFormat::S16 => 16,
                        SampleFormat::U24 | SampleFormat::S24 => 24,
                        SampleFormat::U32 | SampleFormat::S32 | SampleFormat::F32 => 32,
                        SampleFormat::F64 => 64,
                    },
                ),
                None => None,
            },
        },
    }
}

} // verus!
