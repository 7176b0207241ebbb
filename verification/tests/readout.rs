use snd_review::edit_op::EditOp;
use snd_review::labels::edit_title;
use snd_review::buffer::ChannelScope;
use snd_review::clip::MediaId;
use snd_review::composition::Composition;
use snd_review::document::BufferDocument;
use snd_review::media::MediaInfo;
use snd_review::readout::{edit_detail, format_bytes, format_header_meta, format_hover_meta, format_stamp, secs_text};
use snd_review::selection::Selection;
use snd_review::transport::TransportState;

#[test]
fn formats_two_line_edit_cards() {
    assert_eq!(edit_title(&EditOp::Init), "Initial");
    assert_eq!(edit_detail(&EditOp::Init, 44100), "start of composition");
    assert_eq!(
        edit_detail(
            &EditOp::Cut {
                start: 44100,
                len: 22050
            },
            44100
        ),
        "1.00s · 22050 smp"
    );
    assert_eq!(
        edit_detail(
            &EditOp::Move {
                from: 0,
                len: 100,
                dest: 44100
            },
            44100
        ),
        "0.00s → 1.00s · 100 smp"
    );
    assert_eq!(
        edit_detail(
            &EditOp::Roll {
                at: 4410,
                delta: -12
            },
            44100
        ),
        "at 0.10s · -12 smp"
    );
}

#[test]
fn formats_byte_sizes() {
    assert_eq!(format_bytes(0), "0 B");
    assert_eq!(format_bytes(512), "512 B");
    assert_eq!(format_bytes(1024), "1.0 KB");
    assert_eq!(format_bytes(1536), "1.5 KB");
    assert_eq!(format_bytes(1_048_576), "1.0 MB");
    assert_eq!(format_bytes(1_572_864), "1.5 MB");
}

fn float_stamp(frame: u64, sample_rate: u32) -> String {
    let secs = frame as f64 / f64::from(sample_rate.max(1));
    format!("{secs:.2}s")
}

fn float_bytes(bytes: u64) -> String {
    const UNITS: [&str; 5] = ["B", "KB", "MB", "GB", "TB"];
    let mut value = bytes as f64;
    let mut unit = 0;
    while value >= 1024.0 && unit < UNITS.len() - 1 {
        value /= 1024.0;
        unit += 1;
    }
    if unit == 0 {
        format!("{bytes} B")
    } else {
        format!("{value:.1} {}", UNITS[unit])
    }
}

fn samples() -> Vec<u64> {
    let mut values = vec![0, 1, 2, 3, 5, 7, 9, 10, 99, 100, 101, 441, 4410, 22050, 44099, 44100, 44101];
    let mut x: u64 = 0x9e37_79b9_7f4a_7c15;
    for _ in 0..4000 {
        x ^= x << 13;
        x ^= x >> 7;
        x ^= x << 17;
        values.push(x >> (x % 64));
    }
    for shift in 0..64u32 {
        let p = 1u64 << shift;
        values.push(p);
        values.push(p - 1);
        values.push(p.saturating_add(1));
        values.push(p.saturating_add(p / 2));
    }
    values.push(u64::MAX);
    values.push(u64::MAX - 1024);
    values
}

#[test]
fn stamps_print_as_the_float_seconds_do() {
    let rates = [0u32, 1, 3, 7, 8, 200, 400, 8000, 22050, 44100, 48000, 96000, 192000, 1 << 20, u32::MAX];
    for frame in samples() {
        for rate in rates {
            assert_eq!(format_stamp(frame, rate), float_stamp(frame, rate), "{frame} at {rate}");
        }
    }
    for frame in 0..2000u64 {
        for rate in [8u32, 200, 400, 1000, 44100] {
            assert_eq!(format_stamp(frame, rate), float_stamp(frame, rate), "{frame} at {rate}");
        }
    }
}

#[test]
fn byte_sizes_print_as_the_float_quotient_does() {
    for bytes in samples() {
        assert_eq!(format_bytes(bytes), float_bytes(bytes), "{bytes}");
    }
    for bytes in 1000..70000u64 {
        assert_eq!(format_bytes(bytes), float_bytes(bytes), "{bytes}");
    }
}

#[test]
fn roll_details_carry_the_sign() {
    assert_eq!(
        edit_detail(&EditOp::Roll { at: 0, delta: 5 }, 48000),
        "at 0.00s · +5 smp"
    );
    assert_eq!(
        edit_detail(&EditOp::Roll { at: 0, delta: 0 }, 48000),
        "at 0.00s · +0 smp"
    );
    assert_eq!(
        edit_detail(&EditOp::Roll { at: 0, delta: i64::MIN }, 48000),
        "at 0.00s · -9223372036854775808 smp"
    );
    assert_eq!(
        edit_detail(&EditOp::Paste { at: 96000, len: 3 }, 48000),
        "at 2.00s · 3 smp"
    );
}

fn float_secs(sample: usize, rate: u32) -> String {
    let secs = if rate == 0 { 0.0 } else { sample as f64 / f64::from(rate) };
    format!("{secs:.6}s")
}

fn float_header(doc: &BufferDocument, label: &str) -> String {
    if doc.frames() == 0 {
        return format!("No file open  ·  {label}");
    }
    let rate = doc.sample_rate();
    let mut parts = vec![label.to_string()];
    if let Some(pos) = &doc.current_position {
        parts.push(format!("pos {}", float_secs(pos.sample, rate)));
    }
    if let Selection::Region { start, end, .. } = &doc.selection {
        if end > start {
            let len_samples = end - start + 1;
            let len_secs = len_samples as f64 / f64::from(rate.max(1));
            parts.push(format!("region {}–{}", float_secs(*start, rate), float_secs(*end, rate)));
            parts.push(format!("len {len_secs:.6}s"));
            parts.push(format!("{len_samples} smp"));
        }
    }
    parts.join("  ·  ")
}

fn document(frames: u64, rate: u32) -> BufferDocument {
    let media = MediaInfo {
        id: MediaId(0),
        sample_rate: rate,
        channel_count: 1,
        frame_count: frames,
    };
    BufferDocument::new(Composition::from_media(media).unwrap())
}

#[test]
fn header_lines_match_the_float_seconds() {
    let mut doc = document(1_000_000, 44100);
    assert_eq!(format_header_meta(&doc, TransportState::Stopped), float_header(&doc, "Stopped"));
    doc.select_range(4410, 88200, ChannelScope::all());
    assert_eq!(format_header_meta(&doc, TransportState::Playing), float_header(&doc, "Playing"));
    assert_eq!(
        format_header_meta(&doc, TransportState::Paused),
        "Paused  ·  pos 2.000000s  ·  region 0.100000s–2.000000s  ·  len 1.900023s  ·  83791 smp"
    );
    for (a, b) in [(0usize, 1usize), (7, 999_999), (12345, 67890), (3, 3)] {
        doc.select_range(a, b, ChannelScope::all());
        assert_eq!(format_header_meta(&doc, TransportState::Stopped), float_header(&doc, "Stopped"));
    }
    for sample in [0usize, 1, 22050, 44100, 999_999, 123_457] {
        assert_eq!(
            format_hover_meta(&doc, sample),
            format!("hover {}  ·  {sample} smp", float_secs(sample, 44100))
        );
    }
}

#[test]
fn seconds_with_six_decimals_match_the_float_text() {
    for rate in [0u32, 1, 3, 7, 8000, 44100, 48000, 96000, u32::MAX] {
        for sample in samples() {
            assert_eq!(secs_text(sample, rate), float_secs(sample as usize, rate), "{sample} at {rate}");
        }
    }
}
