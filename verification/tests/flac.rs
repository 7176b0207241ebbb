use snd_review::flac::{
    codec_bits_per_sample, flac_streaminfo_len, parse_flac_streaminfo, FlacStreaminfo, SampleFormat,
};
use snd_review::paths::is_flac_path;

fn streaminfo(rate: u64, channels: u64, bits: u64, frames: u64) -> Vec<u8> {
    let packed = (rate << 44) | ((channels - 1) << 41) | ((bits - 1) << 36) | frames;
    let mut payload = vec![0u8; 34];
    payload[10..18].copy_from_slice(&packed.to_be_bytes());
    payload
}

#[test]
fn reads_the_streaminfo_header() {
    let head = [b'f', b'L', b'a', b'C', 0x80, 0x00, 0x00, 0x22];
    assert_eq!(flac_streaminfo_len(&head), Some(34));
    let payload = streaminfo(44100, 2, 16, 123_456);
    assert_eq!(
        parse_flac_streaminfo(&payload),
        Some(FlacStreaminfo {
            sample_rate: 44100,
            channel_count: 2,
            bits_per_sample: Some(16),
            frame_count: 123_456,
        })
    );
    let payload = streaminfo(96000, 8, 24, (1u64 << 36) - 1);
    let info = parse_flac_streaminfo(&payload).unwrap();
    assert_eq!(info.sample_rate, 96000);
    assert_eq!(info.channel_count, 8);
    assert_eq!(info.bits_per_sample, Some(24));
    assert_eq!(info.frame_count, (1u64 << 36) - 1);
}

#[test]
fn refuses_what_is_not_a_streaminfo_block() {
    assert_eq!(flac_streaminfo_len(b"fLaC\x00\x00"), None);
    assert_eq!(flac_streaminfo_len(b"RIFF\x00\x00\x00\x22"), None);
    assert_eq!(flac_streaminfo_len(b"fLaC\x01\x00\x00\x22"), None);
    assert_eq!(flac_streaminfo_len(b"fLaC\x00\x00\x00\x11"), None);
    assert_eq!(parse_flac_streaminfo(&[0u8; 17]), None);
    assert_eq!(parse_flac_streaminfo(&streaminfo(0, 2, 16, 10)), None);
    assert_eq!(parse_flac_streaminfo(&streaminfo(44100, 2, 16, 0)), None);
}

#[test]
fn bit_depth_falls_back_to_the_sample_format() {
    assert_eq!(codec_bits_per_sample(Some(20), Some(24), Some(SampleFormat::F32)), Some(20));
    assert_eq!(codec_bits_per_sample(None, Some(24), Some(SampleFormat::F32)), Some(24));
    assert_eq!(codec_bits_per_sample(None, None, Some(SampleFormat::F64)), Some(64));
    assert_eq!(codec_bits_per_sample(None, None, Some(SampleFormat::S24)), Some(24));
    assert_eq!(codec_bits_per_sample(None, None, None), None);
}

#[test]
fn flac_paths_by_extension() {
    assert!(is_flac_path("/music/take.flac"));
    assert!(is_flac_path("TAKE.FLAC"));
    assert!(!is_flac_path("take.wav"));
    assert!(!is_flac_path(".flac"));
}
