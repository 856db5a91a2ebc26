use std::time::Duration;

use mock_instant::global::MockClock;
use tlru::tlru::{Record, TLRUCache};

fn values(session: &TLRUCache<u64, i32>) -> Vec<i32> {
    let mut it = session.iter();
    let mut out: Vec<i32> = Vec::new();
    while let Some(rec) = it.next() {
        out.push(rec.value);
    }
    out
}

fn records(session: &TLRUCache<u64, i32>) -> Vec<Record<u64, i32>> {
    let mut it = session.iter();
    let mut out: Vec<Record<u64, i32>> = Vec::new();
    while let Some(rec) = it.next() {
        out.push(rec);
    }
    out
}

#[test]
fn tlru_test_insert() {
    let mut session = TLRUCache::new(0);
    session.insert_new(|| 1u64, 1);
    session.insert_new(|| 2u64, 2);
    session.insert_new(|| 3u64, 3);

    assert_eq!(values(&session), vec![1, 2, 3]);
}

#[test]
fn test_fetch() {
    let mut session = TLRUCache::new(0);
    let k1 = session.insert_new(|| 1u64, 1).unwrap();
    let k2 = session.insert_new(|| 2u64, 2).unwrap();
    let k3 = session.insert_new(|| 3u64, 3).unwrap();
    assert_eq!(session.remove(&k2), Some(2));
    assert_eq!(session.remove(&k2), None);
    assert_eq!(values(&session), vec![1, 3]);

    assert_eq!(session.fetch(&k1), Some(1));
    assert_eq!(values(&session), vec![3, 1]);

    assert_eq!(session.fetch(&k3), Some(3));
    assert_eq!(values(&session), vec![1, 3]);
}

#[test]
fn test_vacuum() {
    MockClock::set_time(Duration::ZERO);
    let mut session = TLRUCache::new(2000);
    session.insert_new(|| 1u64, 1);
    MockClock::advance(Duration::from_millis(500));
    let k2 = session.insert_new(|| 2u64, 2).unwrap();
    MockClock::advance(Duration::from_millis(500));
    session.insert_new(|| 3u64, 3);
    MockClock::advance(Duration::from_millis(500));
    // 1: 0.0, 2: 0.5, 3: 1.0
    session.vacuum();
    session.fetch(&k2);
    assert_eq!(values(&session), vec![1, 3, 2]);

    MockClock::advance(Duration::from_millis(700));
    session.vacuum();
    session.insert_new(|| 4u64, 4);
    // 3: 1.0, 2: 1.5, 4: 2.2
    assert_eq!(values(&session), vec![3, 2, 4]);

    MockClock::advance(Duration::from_millis(1700));
    session.vacuum();
    assert_eq!(values(&session), vec![4]);

    MockClock::advance(Duration::from_millis(500));
    session.vacuum();
    assert_eq!(values(&session), Vec::new());

    MockClock::advance(Duration::from_millis(500));
    session.vacuum();
    assert_eq!(values(&session), Vec::new());
}

#[test]
fn test_remove_absent_idempotent() {
    let mut session = TLRUCache::new(1000);
    assert_eq!(session.remove(&42u64), None);
    let k = session.insert_new(|| 7u64, 5).unwrap();
    assert_eq!(session.remove(&42u64), None);
    assert_eq!(session.remove(&k), Some(5));
    assert_eq!(session.remove(&k), None);
    assert_eq!(session.remove(&k), None);
}

#[test]
fn test_insert_overwrites_and_refreshes() {
    MockClock::set_time(Duration::ZERO);
    let mut session = TLRUCache::new(10_000);
    session.insert(&1u64, 10);
    MockClock::advance(Duration::from_millis(100));
    session.insert(&2u64, 20);
    MockClock::advance(Duration::from_millis(100));
    session.insert(&1u64, 11);

    assert_eq!(values(&session), vec![20, 11]);
    assert_eq!(session.fetch(&1u64), Some(11));
}

#[test]
fn test_recency_stamps_non_decreasing() {
    MockClock::set_time(Duration::ZERO);
    let mut session = TLRUCache::new(10_000);
    session.insert(&1u64, 1);
    MockClock::advance(Duration::from_millis(50));
    session.insert(&2u64, 2);
    MockClock::advance(Duration::from_millis(50));
    session.insert(&3u64, 3);
    MockClock::advance(Duration::from_millis(50));
    session.fetch(&1u64);

    let recs = records(&session);
    assert_eq!(recs.len(), 3);
    for w in recs.windows(2) {
        assert!(w[0].access <= w[1].access);
    }
    let mut keys: Vec<u64> = recs.iter().map(|r| r.key).collect();
    keys.sort();
    keys.dedup();
    assert_eq!(keys.len(), 3);
    assert_eq!(recs[2].key, 1);
    assert_eq!(recs[2].access, 150);
}

#[test]
fn test_zero_expiry_vacuum_evicts_all() {
    MockClock::set_time(Duration::ZERO);
    let mut session = TLRUCache::new(0);
    session.insert(&1u64, 1);
    session.insert(&2u64, 2);
    session.vacuum();
    assert_eq!(values(&session), Vec::new());
}
