use snd_review::clip::MediaId;
use snd_review::media::{MediaInfo, MediaPool};

fn info(id: u64, frames: u64) -> MediaInfo {
    MediaInfo {
        id: MediaId(id),
        sample_rate: 44100,
        channel_count: 2,
        frame_count: frames,
    }
}

#[test]
fn pool_assigns_ids_and_orders_by_them() {
    let mut pool = MediaPool::new();
    assert!(pool.is_empty());
    assert_eq!(pool.insert(info(0, 10)), MediaId(1));
    assert_eq!(pool.insert(info(7, 20)), MediaId(7));
    assert_eq!(pool.insert(info(0, 30)), MediaId(8));
    assert_eq!(pool.insert(info(3, 40)), MediaId(3));
    assert_eq!(pool.get(MediaId(7)).unwrap().frame_count, 20);
    assert!(pool.get(MediaId(2)).is_none());
    assert_eq!(pool.first().unwrap().id, MediaId(1));
    let ids: Vec<u64> = pool.into_refs().iter().map(|m| m.id.0).collect();
    assert_eq!(ids, vec![1, 3, 7, 8]);
}
