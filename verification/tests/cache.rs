use bytes::Bytes;
use memcached_rust::cache::{ConcurrentHashMap, LruCache};
use std::sync::{Arc, Mutex};

fn show<V: std::fmt::Debug + Clone>(cache: &LruCache<i32, V>) {
    for v in cache.values() {
        println!("{:?} ", v);
    }
}

#[test]
fn test() {
    let mut cache = LruCache::new(5);
    cache.insert(1, 1);
    cache.insert(2, 2);
    cache.insert(3, 3);
    assert_eq!(cache.head(), 1);
    assert_eq!(cache.tail(), 3);
    assert_eq!(cache.len(), 3);
    show(&cache);
    cache.remove(&3);
    show(&cache);
    assert_eq!(cache.tail(), 2);
    cache.insert(3, 3);
    show(&cache);
    cache.remove(&2);
    show(&cache);
    assert_eq!(cache.len(), 2);
    cache.remove(&1);
    assert_eq!(cache.len(), 1);
    show(&cache);
}

#[test]
fn cache_test() {
    let mut cache = LruCache::new(5);
    cache.insert(1, 1);
    cache.insert(2, 2);
    cache.insert(3, 3);
    assert_eq!(cache.head(), 1);
    assert_eq!(cache.tail(), 3);
    assert_eq!(cache.len(), 3);
    assert_eq!(cache.values(), vec![1, 2, 3]);
    cache.remove(&3);
    assert_eq!(cache.values(), vec![1, 2]);
    assert_eq!(cache.tail(), 2);
    cache.insert(3, 3);
    assert_eq!(cache.values(), vec![1, 2, 3]);
    cache.remove(&2);
    assert_eq!(cache.values(), vec![1, 3]);
    assert_eq!(cache.len(), 2);
    cache.remove(&1);
    assert_eq!(cache.len(), 1);
    assert_eq!(cache.values(), vec![3]);
}

#[test]
fn test_threshold() {
    let mut cache = LruCache::new(5);
    cache.insert(1, 1);
    cache.insert(2, 2);
    cache.insert(3, 3);
    cache.insert(4, 4);
    cache.insert(5, 5);
    assert_eq!(cache.len(), 5);
    cache.insert(6, 6);
    assert_eq!(cache.len(), 5);
    assert_eq!(cache.head(), 2);
    assert_eq!(cache.tail(), 6);
}

#[test]
fn cache_test_threshold() {
    let mut cache = LruCache::new(5);
    cache.insert(1, 1);
    cache.insert(2, 2);
    cache.insert(3, 3);
    cache.insert(4, 4);
    cache.insert(5, 5);
    assert_eq!(cache.len(), 5);
    cache.insert(6, 6);
    assert_eq!(cache.len(), 5);
    assert_eq!(cache.head(), 2);
    assert_eq!(cache.tail(), 6);
    assert_eq!(cache.get(&1), None);
    assert_eq!(cache.values(), vec![2, 3, 4, 5, 6]);
}

#[test]
fn test_accesses() {
    let mut cache = LruCache::new(5);
    cache.insert(1, 1);
    cache.insert(2, 2);
    cache.insert(3, 3);
    cache.insert(4, 4);
    cache.insert(5, 5);
    assert_eq!(cache.get(&3), Some(3));
    assert_eq!(cache.tail(), 3);
    assert_eq!(cache.get(&1), Some(1));
    assert_eq!(cache.tail(), 1);
    assert_eq!(cache.head(), 2);
}

#[test]
fn cache_test_accesses() {
    let mut cache = LruCache::new(5);
    cache.insert(1, 1);
    cache.insert(2, 2);
    cache.insert(3, 3);
    cache.insert(4, 4);
    cache.insert(5, 5);
    assert_eq!(cache.get(&3), Some(3));
    assert_eq!(cache.tail(), 3);
    assert_eq!(cache.get(&1), Some(1));
    assert_eq!(cache.tail(), 1);
    assert_eq!(cache.head(), 2);
    assert_eq!(cache.values(), vec![2, 4, 5, 3, 1]);
    assert_eq!(cache.len(), 5);
}

#[test]
fn test_generic() {
    let mut cache = LruCache::new(5);
    cache.insert(1, Bytes::from("abhi"));
    cache.insert(2, Bytes::from("ash"));
    cache.insert(3, Bytes::from("lilb"));
    cache.insert(4, Bytes::from("pads"));
    cache.insert(5, Bytes::from("zigg"));
    assert_eq!(cache.get(&3), Some(Bytes::from("lilb")));
    assert_eq!(cache.tail(), Bytes::from("lilb"));
    assert_eq!(cache.get(&1), Some(Bytes::from("abhi")));
    assert_eq!(cache.tail(), Bytes::from("abhi"));
    assert_eq!(cache.head(), Bytes::from("ash"));
}

#[test]
fn cache_test_generic() {
    let mut cache = LruCache::new(5);
    cache.insert(1, Bytes::from("abhi"));
    cache.insert(2, Bytes::from("ash"));
    cache.insert(3, Bytes::from("lilb"));
    cache.insert(4, Bytes::from("pads"));
    cache.insert(5, Bytes::from("zigg"));
    assert_eq!(cache.get(&3), Some(Bytes::from("lilb")));
    assert_eq!(cache.tail(), Bytes::from("lilb"));
    assert_eq!(cache.get(&1), Some(Bytes::from("abhi")));
    assert_eq!(cache.tail(), Bytes::from("abhi"));
    assert_eq!(cache.head(), Bytes::from("ash"));
    show(&cache);
}

#[test]
fn test_hm() {
    let mut map = ConcurrentHashMap::new();
    map.insert(1, 1);
    map.insert(2, 2);
    map.insert(3, 3);
    map.insert(4, 4);
    map.insert(5, 5);
    map.insert(6, 6);
    map.insert(7, 7);
    assert_eq!(map.get(&1), Some(1));
    assert_eq!(map.get(&7), Some(7));
}

#[test]
fn cache_test_hm() {
    let mut map = ConcurrentHashMap::new();
    map.insert(1, 1);
    map.insert(2, 2);
    map.insert(3, 3);
    map.insert(4, 4);
    map.insert(5, 5);
    map.insert(6, 6);
    map.insert(7, 7);
    assert_eq!(map.get(&1), Some(1));
    assert_eq!(map.get(&7), Some(7));
}

#[test]
fn test_concurrent_ops() {
    let cache = Arc::new(Mutex::new(LruCache::new(5)));
    crossbeam_utils::thread::scope(|s| {
        for i in 1..=6 {
            let cache = cache.clone();
            s.spawn(move |_| {
                cache.lock().unwrap().insert(i, i);
            })
            .join()
            .unwrap();
        }
    })
    .unwrap();

    let mut cache = cache.lock().unwrap();
    assert_eq!(cache.len(), 5);
    assert_eq!(cache.get(&1), None);
    assert_eq!(cache.get(&4), Some(4));
}

#[test]
fn concurrent_inserts_leave_a_sound_cache() {
    let cache = Arc::new(Mutex::new(LruCache::new(8)));
    crossbeam_utils::thread::scope(|s| {
        for i in 0..40 {
            let cache = cache.clone();
            s.spawn(move |_| {
                cache.lock().unwrap().insert(i, i * 10);
            });
        }
    })
    .unwrap();

    let mut cache = cache.lock().unwrap();
    assert_eq!(cache.len(), 8);
    let values = cache.values();
    assert_eq!(values.len(), 8);
    for (a, v) in values.iter().enumerate() {
        for w in values.iter().skip(a + 1) {
            assert_ne!(v, w);
        }
    }
    let mut found = 0;
    for i in 0..40 {
        if let Some(v) = cache.get(&i) {
            assert_eq!(v, i * 10);
            found += 1;
        }
    }
    assert_eq!(found, 8);
}

#[test]
fn map_overwrites_removes_and_finds() {
    let mut map = ConcurrentHashMap::new();
    assert!(!map.contains_key(&1u64));
    map.insert(1u64, 10);
    map.insert(17u64, 170);
    map.insert(33u64, 330);
    assert_eq!(ConcurrentHashMap::<u64, i32>::get_bucket(&1), 1);
    assert_eq!(ConcurrentHashMap::<u64, i32>::get_bucket(&17), 1);
    assert_eq!(ConcurrentHashMap::<u64, i32>::get_bucket(&33), 1);
    assert_eq!(ConcurrentHashMap::<u64, i32>::get_bucket(&32), 0);
    assert!(map.contains_key(&17));
    map.insert(17, 171);
    assert_eq!(map.get(&17), Some(171));
    assert_eq!(map.remove(&17), Some(171));
    assert_eq!(map.remove(&17), None);
    assert_eq!(map.get(&17), None);
    assert_eq!(map.get(&1), Some(10));
    assert_eq!(map.get(&33), Some(330));
}

#[test]
fn map_with_string_keys() {
    let mut map = ConcurrentHashMap::new();
    map.insert("abhi".to_string(), 1);
    map.insert("lilb".to_string(), 2);
    let b = ConcurrentHashMap::<String, i32>::get_bucket(&"abhi".to_string());
    assert!(b < 16);
    assert_eq!(b, ConcurrentHashMap::<String, i32>::get_bucket(&"abhi".to_string()));
    assert_eq!(map.get(&"abhi".to_string()), Some(1));
    assert_eq!(map.get(&"lilb".to_string()), Some(2));
    assert_eq!(map.get(&"pads".to_string()), None);
}

#[test]
fn negative_keys_have_a_bucket() {
    assert_eq!(ConcurrentHashMap::<i32, i32>::get_bucket(&0), 0);
    assert_eq!(ConcurrentHashMap::<i32, i32>::get_bucket(&-1), 15);
    assert_eq!(ConcurrentHashMap::<i32, i32>::get_bucket(&i32::MIN), 0);
    assert_eq!(ConcurrentHashMap::<i64, i32>::get_bucket(&i64::MIN), 0);
    assert_eq!(ConcurrentHashMap::<i64, i32>::get_bucket(&-1), 15);
    let mut cache = LruCache::new(2);
    cache.insert(-1, 1);
    cache.insert(i32::MIN, 2);
    assert_eq!(cache.get(&-1), Some(1));
    assert_eq!(cache.get(&i32::MIN), Some(2));
}

#[test]
fn lru_order_and_promotion() {
    let mut cache = LruCache::new(5);
    for i in 1..=5 {
        cache.insert(i, i);
    }
    cache.insert(6, 6);
    assert_eq!(cache.get(&1), None);
    assert_eq!(cache.head(), 2);
    assert_eq!(cache.tail(), 6);
    assert_eq!(cache.get(&4), Some(4));
    assert_eq!(cache.head(), 2);
    assert_eq!(cache.tail(), 4);
    assert_eq!(cache.values(), vec![2, 3, 5, 6, 4]);
}

#[test]
fn insert_of_a_present_key_replaces_and_promotes() {
    let mut cache = LruCache::new(3);
    cache.insert(1, 10);
    cache.insert(2, 20);
    cache.insert(3, 30);
    cache.insert(1, 11);
    assert_eq!(cache.len(), 3);
    assert_eq!(cache.values(), vec![20, 30, 11]);
    cache.insert(4, 40);
    assert_eq!(cache.values(), vec![30, 11, 40]);
    assert_eq!(cache.get(&2), None);
    assert_eq!(cache.get(&1), Some(11));
}

#[test]
fn count_follows_every_operation() {
    let mut cache = LruCache::new(3);
    assert_eq!(cache.len(), 0);
    assert_eq!(cache.remove(&1), None);
    assert_eq!(cache.get(&1), None);
    for round in 0..4 {
        for i in 0..10 {
            cache.insert(i, i + round);
            assert!(cache.len() <= 3);
            assert_eq!(cache.len(), cache.values().len());
        }
        assert_eq!(cache.remove(&9), Some(9 + round));
        assert_eq!(cache.len(), 2);
        assert_eq!(cache.remove(&9), None);
        assert_eq!(cache.len(), 2);
        assert_eq!(cache.get(&8), Some(8 + round));
        assert_eq!(cache.len(), 2);
    }
    assert_eq!(cache.remove(&7), Some(10));
    assert_eq!(cache.remove(&8), Some(11));
    assert_eq!(cache.len(), 0);
    assert_eq!(cache.values(), Vec::<i32>::new());
    cache.insert(5, 50);
    assert_eq!(cache.head(), 50);
    assert_eq!(cache.tail(), 50);
}

#[test]
fn capacity_zero_stores_nothing() {
    let mut cache = LruCache::new(0);
    cache.insert(1, 1);
    cache.insert(2, 2);
    assert_eq!(cache.len(), 0);
    assert_eq!(cache.get(&1), None);
    assert_eq!(cache.remove(&2), None);
}

#[test]
fn capacity_one_keeps_the_last() {
    let mut cache = LruCache::new(1);
    cache.insert(1, 1);
    cache.insert(2, 2);
    assert_eq!(cache.len(), 1);
    assert_eq!(cache.get(&1), None);
    assert_eq!(cache.get(&2), Some(2));
    assert_eq!(cache.head(), 2);
}

#[test]
fn removal_of_head_tail_and_middle() {
    let mut cache = LruCache::new(5);
    for i in 1..=5 {
        cache.insert(i, i);
    }
    assert_eq!(cache.remove(&3), Some(3));
    assert_eq!(cache.values(), vec![1, 2, 4, 5]);
    assert_eq!(cache.remove(&1), Some(1));
    assert_eq!(cache.values(), vec![2, 4, 5]);
    assert_eq!(cache.remove(&5), Some(5));
    assert_eq!(cache.values(), vec![2, 4]);
    cache.insert(6, 6);
    cache.insert(7, 7);
    cache.insert(8, 8);
    cache.insert(9, 9);
    assert_eq!(cache.values(), vec![4, 6, 7, 8, 9]);
}

struct Plain {
    entries: Vec<(i32, i32)>,
    capacity: usize,
}

impl Plain {
    fn insert(&mut self, k: i32, v: i32) {
        if let Some(i) = self.entries.iter().position(|e| e.0 == k) {
            self.entries.remove(i);
            self.entries.push((k, v));
        } else if self.capacity > 0 {
            if self.entries.len() >= self.capacity {
                self.entries.remove(0);
            }
            self.entries.push((k, v));
        }
    }

    fn get(&mut self, k: i32) -> Option<i32> {
        let i = self.entries.iter().position(|e| e.0 == k)?;
        let e = self.entries.remove(i);
        self.entries.push(e);
        Some(e.1)
    }

    fn remove(&mut self, k: i32) -> Option<i32> {
        let i = self.entries.iter().position(|e| e.0 == k)?;
        Some(self.entries.remove(i).1)
    }
}

#[test]
fn a_long_run_agrees_with_a_plain_list() {
    for capacity in [0usize, 1, 2, 5, 16] {
        let mut cache = LruCache::new(capacity);
        let mut plain = Plain { entries: Vec::new(), capacity };
        let mut state: u64 = 0x2545_f491_4f6c_dd1d ^ capacity as u64;
        for step in 0..4000 {
            state = state
                .wrapping_mul(6364136223846793005)
                .wrapping_add(1442695040888963407);
            let k = ((state >> 33) % 24) as i32 - 4;
            match (state >> 20) % 4 {
                0 | 1 => {
                    cache.insert(k, step);
                    plain.insert(k, step);
                }
                2 => assert_eq!(cache.get(&k), plain.get(k)),
                _ => assert_eq!(cache.remove(&k), plain.remove(k)),
            }
            assert_eq!(cache.len(), plain.entries.len());
            assert!(cache.len() <= capacity);
            let values: Vec<i32> = plain.entries.iter().map(|e| e.1).collect();
            assert_eq!(cache.values(), values);
            if let Some(first) = values.first() {
                assert_eq!(cache.head(), *first);
                assert_eq!(cache.tail(), *values.last().unwrap());
            }
        }
    }
}

#[test]
fn a_long_run_of_the_map_agrees_with_std() {
    let mut map = ConcurrentHashMap::new();
    let mut plain = std::collections::HashMap::new();
    let mut state: u64 = 99;
    for step in 0..4000 {
        state = state
            .wrapping_mul(6364136223846793005)
            .wrapping_add(1442695040888963407);
        let k = format!("key{}", (state >> 33) % 200);
        match (state >> 20) % 4 {
            0 | 1 => {
                map.insert(k.clone(), step);
                plain.insert(k, step);
            }
            2 => {
                assert_eq!(map.contains_key(&k), plain.contains_key(&k));
                assert_eq!(map.get(&k), plain.get(&k).copied());
            }
            _ => assert_eq!(map.remove(&k), plain.remove(&k)),
        }
    }
    for (k, v) in plain.iter() {
        assert_eq!(map.get(k), Some(*v));
    }
}
