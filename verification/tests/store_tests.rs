use std::sync::Arc;

use miniredis::store::Item;
use miniredis::store::SharedStore;
use miniredis::store::Store;

#[test]
fn set_then_get_returns_the_value() {
    let mut s = Store::new();
    s.set(b"k".to_vec(), b"v".to_vec(), None, 1000);
    assert_eq!(s.get(&b"k".to_vec(), 1000), Some(b"v".to_vec()));
    assert_eq!(s.get(&b"missing".to_vec(), 1000), None);
}

#[test]
fn set_overwrites_unconditionally() {
    let mut s = Store::new();
    s.set(b"k".to_vec(), b"one".to_vec(), None, 0);
    s.set(b"k".to_vec(), b"two".to_vec(), None, 0);
    assert_eq!(s.get(&b"k".to_vec(), 0), Some(b"two".to_vec()));
}

#[test]
fn px_zero_is_immediately_absent() {
    let mut s = Store::new();
    s.set(b"k".to_vec(), b"v".to_vec(), Some(0), 500);
    assert_eq!(s.get(&b"k".to_vec(), 500), None);
}

#[test]
fn expiry_boundary_is_inclusive() {
    let mut s = Store::new();
    s.set(b"k".to_vec(), b"v".to_vec(), Some(100_000), 1_000);
    // Present immediately after the set, and just before the boundary.
    assert_eq!(s.get(&b"k".to_vec(), 1_000), Some(b"v".to_vec()));
    assert_eq!(s.get(&b"k".to_vec(), 100_999), Some(b"v".to_vec()));
    // Absent exactly at the boundary and after it.
    assert_eq!(s.get(&b"k".to_vec(), 101_000), None);
    assert_eq!(s.get(&b"k".to_vec(), 200_000), None);
}

#[test]
fn expired_key_can_still_be_overwritten() {
    let mut s = Store::new();
    s.set(b"k".to_vec(), b"old".to_vec(), Some(0), 0);
    assert_eq!(s.get(&b"k".to_vec(), 10), None);
    // The failed read removed nothing; a later set still lands.
    s.set(b"k".to_vec(), b"new".to_vec(), None, 20);
    assert_eq!(s.get(&b"k".to_vec(), 20), Some(b"new".to_vec()));
}

#[test]
fn item_expiry_judgement() {
    let it = Item { value: b"v".to_vec(), expire: Some((100, 50)) };
    assert!(!it.expired(100));
    assert!(!it.expired(149));
    assert!(it.expired(150));
    assert!(it.expired(151));
    // A clock reading before the anchor counts as zero elapsed.
    assert!(!it.expired(0));
    let forever = Item { value: b"v".to_vec(), expire: None };
    assert!(!forever.expired(u64::MAX));
}

#[test]
fn concurrent_sets_and_gets_on_distinct_keys() {
    let shared = Arc::new(SharedStore::new());
    let rt = tokio::runtime::Runtime::new().unwrap();
    rt.block_on(async {
        let n: u32 = 32;
        let mut handles = Vec::new();
        for i in 0..n {
            let s = Arc::clone(&shared);
            handles.push(tokio::spawn(async move {
                let key = format!("key-{}", i).into_bytes();
                let value = format!("value-{}", i).into_bytes();
                s.set(key, value, None, 0);
            }));
        }
        for h in handles {
            h.await.unwrap();
        }
        let mut handles = Vec::new();
        for i in 0..n {
            let s = Arc::clone(&shared);
            handles.push(tokio::spawn(async move {
                let key = format!("key-{}", i).into_bytes();
                let got = s.get(&key, 0);
                assert_eq!(got, Some(format!("value-{}", i).into_bytes()));
            }));
        }
        for h in handles {
            h.await.unwrap();
        }
    });
}

#[test]
fn concurrent_writes_to_one_key_never_tear() {
    let shared = Arc::new(SharedStore::new());
    let rt = tokio::runtime::Runtime::new().unwrap();
    rt.block_on(async {
        let mut handles = Vec::new();
        for i in 0..16u32 {
            let s = Arc::clone(&shared);
            handles.push(tokio::spawn(async move {
                let value = format!("value-{}", i).into_bytes();
                s.set(b"shared-key".to_vec(), value, None, 0);
            }));
        }
        for i in 0..16u32 {
            let s = Arc::clone(&shared);
            handles.push(tokio::spawn(async move {
                if let Some(v) = s.get(&b"shared-key".to_vec(), 0) {
                    // Whatever interleaving happened, the value read is
                    // one that some writer wrote, never a mixture.
                    let text = String::from_utf8(v).unwrap();
                    assert!(text.starts_with("value-"));
                    let suffix: u32 = text["value-".len()..].parse().unwrap();
                    assert!(suffix < 16, "read a value nobody wrote: {}", text);
                    let _ = i;
                }
            }));
        }
        for h in handles {
            h.await.unwrap();
        }
    });
}
