use snd_review::snap::{nearest_crossing, DEFAULT_SEARCH_RADIUS};

fn is_zero_crossing(samples: &[f32], index: usize) -> bool {
    if index >= samples.len() {
        return false;
    }
    if samples[index] == 0.0 {
        return true;
    }
    if index + 1 < samples.len() {
        return samples[index].signum() != samples[index + 1].signum();
    }
    false
}

fn nearest_zero_crossing(samples: &[f32], sample: usize, search_radius: usize) -> usize {
    nearest_crossing(samples.len(), sample, search_radius, &|i: usize| is_zero_crossing(samples, i))
}

#[test]
fn snaps_to_nearest_crossing() {
    let samples = vec![-1.0, -0.5, -0.1, 0.1, 0.5, 1.0];
    assert_eq!(nearest_zero_crossing(&samples, 1, 4), 2);
    assert_eq!(nearest_zero_crossing(&samples, 4, 4), 2);
}

#[test]
fn exact_zero_is_crossing() {
    let samples = vec![1.0, 0.0, -1.0];
    assert_eq!(nearest_zero_crossing(&samples, 1, 4), 1);
}

#[test]
fn clamps_when_no_crossing_found() {
    let samples = vec![0.5, 0.6, 0.7];
    assert_eq!(nearest_zero_crossing(&samples, 1, 2), 1);
}

#[test]
fn search_looks_before_after_at_each_distance() {
    let hits = [3usize, 7];
    let probe = |i: usize| hits.contains(&i);
    assert_eq!(nearest_crossing(10, 5, 4, &probe), 3);
    assert_eq!(nearest_crossing(10, 6, 4, &probe), 7);
    assert_eq!(nearest_crossing(10, 5, 1, &probe), 5);
    assert_eq!(nearest_crossing(10, 500, 4, &probe), 7);
    assert_eq!(nearest_crossing(0, 5, 4, &probe), 0);
    assert_eq!(nearest_crossing(10, 0, DEFAULT_SEARCH_RADIUS, &|i: usize| i == 9), 9);
}
