use snd_review::open_url::{path_from_open_url, percent_decode};
use snd_review::paths::{display_name, file_name, is_facomp_path, suggested_facomp_name};
use snd_review::pcm::{bits_for_integer, PcmFormat};
use snd_review::rates::rate_choices;

#[test]
fn open_urls_name_absolute_paths() {
    assert_eq!(
        path_from_open_url("file:///Users/me/a%20b.wav"),
        Some("/Users/me/a b.wav".to_string())
    );
    assert_eq!(
        path_from_open_url("file://localhost/tmp/x.wav"),
        Some("/tmp/x.wav".to_string())
    );
    assert_eq!(path_from_open_url("/tmp/y.wav"), Some("/tmp/y.wav".to_string()));
    assert_eq!(path_from_open_url("relative.wav"), None);
    assert_eq!(path_from_open_url("file://host"), None);
}

#[test]
fn percent_escapes_decode_or_fail() {
    assert_eq!(percent_decode("a%2Fb"), Some("a/b".to_string()));
    assert_eq!(percent_decode("%e2%82%ac"), Some("€".to_string()));
    assert_eq!(percent_decode("%zz"), None);
    assert_eq!(percent_decode("%4"), None);
    assert_eq!(percent_decode("%ff"), None);
    assert_eq!(percent_decode("%+A"), Some("\n".to_string()));
    assert_eq!(percent_decode("plain"), Some("plain".to_string()));
}

#[test]
fn composition_files_are_recognized_by_extension() {
    assert!(is_facomp_path("/tmp/song.facomp"));
    assert!(is_facomp_path("song.FaComp"));
    assert!(!is_facomp_path("song.wav"));
    assert!(!is_facomp_path("/tmp/.facomp"));
    assert!(!is_facomp_path("facomp"));
    assert!(is_facomp_path("dir/song.facomp/"));
    assert!(!is_facomp_path("dir.facomp/song"));
}

#[test]
fn integer_formats_have_bit_widths() {
    assert_eq!(bits_for_integer(PcmFormat::S16), Some(16));
    assert_eq!(bits_for_integer(PcmFormat::S24), Some(24));
    assert_eq!(bits_for_integer(PcmFormat::F32), None);
    assert_eq!(bits_for_integer(PcmFormat::U8), None);
}

#[test]
fn rate_choices_add_the_current_rate_in_order() {
    let presets = [44100, 48000, 96000];
    assert_eq!(rate_choices(&presets, 48000), vec![44100, 48000, 96000]);
    assert_eq!(rate_choices(&presets, 22050), vec![22050, 44100, 48000, 96000]);
    assert_eq!(rate_choices(&presets, 0), vec![44100, 48000, 96000]);
    assert_eq!(rate_choices(&[96000, 44100], 48000), vec![44100, 48000, 96000]);
}

#[test]
fn suggested_facomp_name_appends_extension() {
    assert_eq!(suggested_facomp_name(Some("take.wav")), "take.wav.facomp");
    assert_eq!(display_name(Some("take.wav")), "take.wav");
}

#[test]
fn display_name_falls_back_without_a_file_name() {
    assert_eq!(display_name(Some("/audio/takes/take 2.flac")), "take 2.flac");
    assert_eq!(display_name(Some("/audio/takes/")), "takes");
    assert_eq!(display_name(Some("")), "snd-review");
    assert_eq!(display_name(Some("..")), "snd-review");
    assert_eq!(display_name(None), "snd-review");
    assert_eq!(suggested_facomp_name(None), "snd-review.facomp");
    assert_eq!(file_name("a/b/c.wav"), Some("c.wav".to_string()));
    assert_eq!(file_name("/"), None);
}
