use type_pool::{PoolKey, TypePool};

#[test]
fn test_type_pool() {
    let mut pool = TypePool::new();
    let key1 = pool.insert(4).unwrap();
    let key2 = pool.insert(2).unwrap();
    let key3 = pool.insert(3).unwrap();

    let values = pool.get_set(&vec![key1, key2, key3]);
    assert_eq!(values.len(), 3, "`TypePool::get_set` returned wrong length");

    assert_eq!(4, *pool.get(key1), "`TypePool::index` failed");

    *pool.get_mut(key1) = 1;
    assert_eq!(1, *pool.get(key1), "`TypePool::index_mut` failed");

    let value = *pool
        .get_set(&vec![key1])
        .iter()
        .next()
        .expect("`TypePool::get_set` returned empty list")
        .1;
    assert_eq!(value, 1, "`TypePool::get_set` returned wrong value");

    let value = pool.remove(key1).expect("`TypePool::remove` returned no value");
    assert_eq!(value, 1, "`TypePool::remove` returned wrong value");
}

#[test]
fn scenario_insert_batch_write_remove() {
    let mut pool = TypePool::new();
    let k1 = pool.insert(4).unwrap();
    let k2 = pool.insert(2).unwrap();
    let k3 = pool.insert(3).unwrap();
    assert_eq!(*pool.get(k1), 4);
    {
        let refs = pool.get_set(&vec![k1, k2, k3]);
        assert_eq!(refs.len(), 3);
        for (k, r) in refs {
            if k == k1 {
                *r = 1;
            }
        }
    }
    assert_eq!(*pool.get(k1), 1);
    assert_eq!(pool.remove(k1), Some(1));
    assert!(!pool.contains_key(&k1));
}

#[test]
fn inserted_keys_are_distinct_and_name_their_values() {
    let mut pool = TypePool::new();
    let mut keys: Vec<PoolKey<u32>> = Vec::new();
    for v in 0..50u32 {
        keys.push(pool.insert(v * 7).unwrap());
    }
    for i in 0..keys.len() {
        for j in 0..keys.len() {
            if i != j {
                assert!(keys[i] != keys[j]);
                assert_ne!(keys[i].slot(), keys[j].slot());
            }
        }
        assert_eq!(*pool.get(keys[i]), i as u32 * 7);
    }
    assert_eq!(pool.len(), 50);
}

#[test]
fn keys_of_one_pool_are_not_owned_by_another() {
    let mut a = TypePool::new();
    let mut b = TypePool::new();
    let ka = a.insert(1).unwrap();
    let kb = b.insert(1).unwrap();
    assert_eq!(ka.slot(), kb.slot());
    assert!(a.owns_key(&ka));
    assert!(!b.owns_key(&ka));
    assert!(!a.owns_key(&kb));
    assert!(!b.contains_key(&ka));
    assert!(ka != kb);
}

#[test]
fn insert_takes_the_slot_after_the_hint() {
    let mut pool = TypePool::new();
    let k = pool.insert('a').unwrap();
    assert_eq!(k.slot(), 0);
    assert_eq!(pool.remove(k), Some('a'));
    assert!(pool.is_empty());
    let k2 = pool.insert('b').unwrap();
    assert_eq!(k2.slot(), 1);
    assert_eq!(*pool.get(k2), 'b');
}

#[test]
fn round_trip_returns_the_inserted_value() {
    let mut pool = TypePool::new();
    let k = pool.insert(String::from("value")).unwrap();
    assert!(pool.contains_key(&k));
    assert_eq!(pool.get(k), "value");
}

#[test]
fn batched_references_are_disjoint() {
    let mut pool = TypePool::new();
    let k1 = pool.insert(10).unwrap();
    let k2 = pool.insert(20).unwrap();
    let k3 = pool.insert(30).unwrap();
    let k4 = pool.insert(40).unwrap();
    {
        let refs = pool.get_set(&vec![k3, k1, k2]);
        assert_eq!(refs.len(), 3);
        let mut seen: Vec<PoolKey<i32>> = Vec::new();
        for (k, r) in refs {
            assert!(!seen.contains(&k));
            seen.push(k);
            *r += 1000;
        }
    }
    assert_eq!(*pool.get(k1), 1010);
    assert_eq!(*pool.get(k2), 1020);
    assert_eq!(*pool.get(k3), 1030);
    assert_eq!(*pool.get(k4), 40);
}

#[test]
fn batched_references_hold_their_own_values() {
    let mut pool = TypePool::new();
    let k1 = pool.insert(5u8).unwrap();
    let k2 = pool.insert(6u8).unwrap();
    let refs = pool.get_set(&vec![k1, k2]);
    for (k, r) in refs {
        if k == k1 {
            assert_eq!(*r, 5);
        } else {
            assert_eq!(k, k2);
            assert_eq!(*r, 6);
        }
    }
}

#[test]
fn batched_access_on_no_keys_is_empty() {
    let mut pool: TypePool<u8> = TypePool::new();
    pool.insert(1).unwrap();
    assert!(pool.get_set(&Vec::new()).is_empty());
}

#[test]
fn removal_is_final() {
    let mut pool = TypePool::new();
    let k = pool.insert(9).unwrap();
    let other = pool.insert(8).unwrap();
    assert_eq!(pool.remove(k), Some(9));
    assert!(!pool.contains_key(&k));
    assert!(pool.owns_key(&k));
    assert_eq!(pool.remove(k), None);
    assert_eq!(pool.len(), 1);
    assert_eq!(*pool.get(other), 8);
}

#[test]
fn from_iter_keeps_order_of_values() {
    let (pool, keys) = TypePool::from_iter(vec![3, 1, 4, 1, 5]);
    assert_eq!(keys.len(), 5);
    assert_eq!(pool.len(), 5);
    let expect = [3, 1, 4, 1, 5];
    for i in 0..5 {
        assert_eq!(keys[i].slot(), i);
        assert!(pool.owns_key(&keys[i]));
        assert_eq!(*pool.get(keys[i]), expect[i]);
    }
}

#[test]
fn from_iter_of_nothing_is_empty() {
    let (pool, keys) = TypePool::<u64>::from_iter(Vec::new());
    assert!(keys.is_empty());
    assert!(pool.is_empty());
    assert_eq!(pool.len(), 0);
}

#[test]
fn default_pool_is_empty() {
    let mut pool: TypePool<u16> = TypePool::default();
    assert!(pool.is_empty());
    let k = pool.insert(3).unwrap();
    assert_eq!(k.slot(), 0);
    assert_ne!(k.pool(), 0);
    assert!(!pool.is_empty());
}

#[test]
fn keys_copy_and_compare_by_slot_and_pool() {
    let mut pool = TypePool::new();
    let k = pool.insert(1).unwrap();
    let c = k.clone();
    let d = k;
    assert!(c == k && d == k);
    assert_eq!(c.slot(), k.slot());
    assert_eq!(c.pool(), k.pool());
}

#[test]
fn removing_middle_keeps_the_rest() {
    let mut pool = TypePool::new();
    let keys: Vec<PoolKey<i64>> = (0..6).map(|v| pool.insert(v).unwrap()).collect();
    assert_eq!(pool.remove(keys[2]), Some(2));
    assert_eq!(pool.remove(keys[0]), Some(0));
    for (i, k) in keys.iter().enumerate() {
        assert_eq!(pool.contains_key(k), i != 2 && i != 0);
        if i != 2 && i != 0 {
            assert_eq!(*pool.get(*k), i as i64);
        }
    }
    let k = pool.insert(100).unwrap();
    assert_eq!(k.slot(), 6);
    assert_eq!(pool.len(), 5);
}
