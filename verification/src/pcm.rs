use vstd::prelude::*;

verus! {

/// Sample formats a render can be written in.
#[derive(Debug, Clone, Copy, PartialEq, Eq, Structural)]
pub enum PcmFormat {
    U8,
    S8,
    S16,
    S24,
    S32,
    F32,
    F64,
}

/// The bit width of a signed integer sample format; `None` for the others.
pub fn bits_for_integer(format: PcmFormat) -> (r: Option<u32>)
    ensures
        r == match format {
            PcmFormat::S8 => Some(8u32),
            PcmFormat::S16 => Some(16u32),
            PcmFormat::S24 => Some(24u32),
            PcmFormat::S32 => Some(32u32),
            _ => None,
        },
{
    match format {
        PcmFormat::S8 => Some(8),
        PcmFormat::S16 => Some(16),
        PcmFormat::S24 => Some(24),
        PcmFormat::S32 => Some(32),
        _ => None,
    }
}

} // verus!
