use redis_lite::store::{RandomMap, RedisValue};

fn val(s: &[u8], expiry: Option<u64>) -> RedisValue {
    RedisValue { content: s.to_vec(), expiry }
}

#[test]
fn set_then_get_returns_value() {
    let mut m = RandomMap::new();
    assert!(m.set(b"k".to_vec(), val(b"v", None), 100).is_none());
    let got = m.get(b"k", 100).unwrap();
    assert_eq!(got.content, b"v".to_vec());
    assert_eq!(got.expiry, None);
    assert_eq!(m.len(), 1);
}

#[test]
fn set_replaces_and_returns_previous() {
    let mut m = RandomMap::new();
    m.set(b"k".to_vec(), val(b"one", None), 0);
    let prev = m.set(b"k".to_vec(), val(b"two", None), 0).unwrap();
    assert_eq!(prev.content, b"one".to_vec());
    assert_eq!(m.get(b"k", 0).unwrap().content, b"two".to_vec());
    assert_eq!(m.len(), 1);
}

#[test]
fn set_over_expired_entry_returns_nothing() {
    let mut m = RandomMap::new();
    m.set(b"k".to_vec(), val(b"old", Some(10)), 0);
    assert!(m.set(b"k".to_vec(), val(b"new", None), 10).is_none());
    assert_eq!(m.get(b"k", 10).unwrap().content, b"new".to_vec());
    assert_eq!(m.len(), 1);
}

#[test]
fn set_delete_get_returns_nothing() {
    let mut m = RandomMap::new();
    m.set(b"k".to_vec(), val(b"v", None), 0);
    let removed = m.del(b"k", 0).unwrap();
    assert_eq!(removed.content, b"v".to_vec());
    assert!(m.get(b"k", 0).is_none());
    assert_eq!(m.len(), 0);
    assert!(m.del(b"k", 0).is_none());
}

#[test]
fn expired_set_then_get_returns_nothing_and_shrinks() {
    let mut m = RandomMap::new();
    m.set(b"a".to_vec(), val(b"1", None), 1000);
    m.set(b"k".to_vec(), val(b"v", Some(500)), 1000);
    assert_eq!(m.len(), 2);
    assert!(m.get(b"k", 1000).is_none());
    assert_eq!(m.len(), 1);
}

#[test]
fn expiry_at_now_counts_as_expired() {
    let mut m = RandomMap::new();
    m.set(b"k".to_vec(), val(b"v", Some(50)), 0);
    assert!(m.get(b"k", 49).is_some());
    assert!(m.peek(b"k", 49).is_some());
    assert!(m.peek(b"k", 50).is_none());
    assert!(m.get(b"k", 50).is_none());
}

#[test]
fn delete_of_expired_entry_removes_it_but_returns_nothing() {
    let mut m = RandomMap::new();
    m.set(b"k".to_vec(), val(b"v", Some(5)), 0);
    assert!(m.del(b"k", 10).is_none());
    assert_eq!(m.len(), 0);
}

#[test]
fn evict_only_removes_expired_entries() {
    let mut m = RandomMap::new();
    m.set(b"live".to_vec(), val(b"1", Some(100)), 0);
    m.set(b"dead".to_vec(), val(b"2", Some(10)), 0);
    assert!(m.evict(b"live", 50).is_none());
    assert_eq!(m.evict(b"dead", 50).unwrap().content, b"2".to_vec());
    assert_eq!(m.len(), 1);
}

#[test]
fn removal_keeps_other_keys_reachable() {
    let mut m = RandomMap::new();
    for i in 0..20u8 {
        m.set(vec![i], val(&[i, i], None), 0);
    }
    for i in (0..20u8).step_by(3) {
        assert!(m.del(&[i], 0).is_some());
    }
    for i in 0..20u8 {
        let got = m.get(&[i], 0);
        if i % 3 == 0 {
            assert!(got.is_none());
        } else {
            assert_eq!(got.unwrap().content, vec![i, i]);
        }
    }
}

#[test]
fn random_evict_never_removes_live_entries() {
    let mut m = RandomMap::new();
    for i in 0..10u8 {
        m.set(vec![i], val(b"x", None), 0);
    }
    for _ in 0..100 {
        assert!(m.random_evict(1000).is_none());
    }
    assert_eq!(m.len(), 10);
    assert!(RandomMap::new().random_evict(0).is_none());
}

#[test]
fn random_evict_drains_an_all_expired_store() {
    let mut m = RandomMap::new();
    let n = 25usize;
    for i in 0..n {
        m.set(vec![i as u8], val(b"x", Some(5)), 0);
    }
    for k in 0..n {
        let (key, v) = m.random_evict(5).expect("every probe hits an expired entry");
        assert_eq!(key.len(), 1);
        assert_eq!(v.content, b"x".to_vec());
        assert_eq!(m.len(), n - k - 1);
    }
    assert_eq!(m.len(), 0);
}

#[test]
fn evict_at_probes_one_index() {
    let mut m = RandomMap::new();
    m.set(b"a".to_vec(), val(b"1", Some(1)), 0);
    let (k, v) = m.evict_at(0, 1).unwrap();
    assert_eq!(k, b"a".to_vec());
    assert_eq!(v.content, b"1".to_vec());
    assert_eq!(m.len(), 0);
}

#[test]
fn many_keys_survive_growth_and_removals() {
    let mut m = RandomMap::new();
    let n = 2000u32;
    for i in 0..n {
        let key = format!("key:{}", i).into_bytes();
        assert!(m.set(key, val(&i.to_be_bytes(), None), 0).is_none());
    }
    assert_eq!(m.len(), n as usize);
    for i in (0..n).filter(|i| i % 7 == 0) {
        let key = format!("key:{}", i).into_bytes();
        assert_eq!(m.del(&key, 0).unwrap().content, i.to_be_bytes().to_vec());
    }
    for i in 0..n {
        let key = format!("key:{}", i).into_bytes();
        match m.get(&key, 0) {
            Some(v) => {
                assert!(i % 7 != 0);
                assert_eq!(v.content, i.to_be_bytes().to_vec());
            }
            None => assert_eq!(i % 7, 0),
        }
    }
    assert_eq!(m.len(), (n - (n + 6) / 7) as usize);
}
