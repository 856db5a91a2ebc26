use std::time::Duration;

use mock_instant::global::MockClock;
use tlru::unique_tlru::UniqueTLRUCache;

fn values(session: &UniqueTLRUCache<u64, i32>) -> Vec<i32> {
    let mut it = session.iter();
    let mut out: Vec<i32> = Vec::new();
    while let Some(rec) = it.next() {
        out.push(rec.value);
    }
    out
}

#[test]
fn unique_tlru_test_insert() {
    let mut session = UniqueTLRUCache::new(0);
    let k1 = session.insert_new(|| 1u64, 1).unwrap();
    let k2 = session.insert_new(|| 2u64, 2).unwrap();
    let k3 = session.insert_new(|| 3u64, 1).unwrap();

    assert_eq!(k1, k3);
    assert_ne!(k1, k2);

    assert_eq!(values(&session), vec![2, 1]);
}

#[test]
fn test_unique_first_writer_wins() {
    let mut session: UniqueTLRUCache<u64, (i32, i32)> = UniqueTLRUCache::new(10_000);
    let k1 = session.insert_new(|| 1u64, (7, 100)).unwrap();
    let k2 = session.insert_new(|| 2u64, (7, 200)).unwrap();
    assert_eq!(k1, k2);
    assert_eq!(session.fetch(&k1), Some((7, 100)));
}

#[test]
fn test_unique_cleanup() {
    MockClock::set_time(Duration::ZERO);
    let mut session: UniqueTLRUCache<u64, i32> = UniqueTLRUCache::new(1000);
    let k1 = session.insert_new(|| 1u64, 5).unwrap();
    assert_eq!(session.remove(&k1), Some(5));
    let k2 = session.insert_new(|| 2u64, 5).unwrap();
    assert_ne!(k1, k2);

    MockClock::advance(Duration::from_millis(1500));
    session.vacuum();
    assert_eq!(values(&session), Vec::new());
    let k3 = session.insert_new(|| 3u64, 5).unwrap();
    assert_ne!(k2, k3);

    assert_eq!(session.remove_value(&5), Some(5));
    assert_eq!(session.fetch(&k3), None);
    assert_eq!(session.remove_value(&5), None);
}
