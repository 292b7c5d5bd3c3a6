use ijson::object::hash_capacity;
use ijson::object::Entry;
use ijson::object::ObjectIndex;
use ijson::object::ObjectOp;
use ijson::unsafe_string::StringCache;
use ijson::IObject;
use ijson::IString;
use ijson::IValue;
use rand::rngs::StdRng;
use rand::seq::SliceRandom;
use rand::SeedableRng;

fn key(cache: &mut StringCache, s: &str) -> IString {
    IString::intern(cache, s)
}

fn collect(cache: &mut StringCache, entries: Vec<(&str, IValue)>) -> IObject {
    let mut res = IObject::new();
    res.reserve(entries.len());
    for (k, v) in entries {
        let k = key(cache, k);
        res.insert(k, v, cache);
    }
    res
}

fn at<'a>(cache: &mut StringCache, object: &'a IObject, s: &str) -> &'a IValue {
    let k = key(cache, s);
    object.get(&k).unwrap()
}

#[test]
fn object_can_create() {
    let x = IObject::new();
    let y = IObject::with_capacity(10);

    assert_eq!(x, y);
}

#[test]
fn object_can_collect() {
    let mut cache = StringCache::new();
    let x = vec![("a", IValue::null()), ("b", IValue::from(true)), ("c", IValue::from(false))];
    let y: IObject = collect(&mut cache, x);

    assert_eq!(y, y.clone_impl(&mut cache));
    assert_eq!(y.len(), 3);
    assert_eq!(*at(&mut cache, &y, "a"), IValue::null());
    assert_eq!(*at(&mut cache, &y, "b"), IValue::from(true));
    assert_eq!(*at(&mut cache, &y, "c"), IValue::from(false));
}

#[test]
fn can_insert() {
    let mut cache = StringCache::new();
    let mut x = IObject::new();
    x.insert(key(&mut cache, "a"), IValue::null(), &mut cache);
    x.insert(key(&mut cache, "b"), IValue::from(true), &mut cache);
    x.insert(key(&mut cache, "c"), IValue::from(false), &mut cache);

    assert_eq!(x.len(), 3);
    assert_eq!(*at(&mut cache, &x, "a"), IValue::null());
    assert_eq!(*at(&mut cache, &x, "b"), IValue::from(true));
    assert_eq!(*at(&mut cache, &x, "c"), IValue::from(false));
}

#[test]
fn object_can_nest() {
    let mut cache = StringCache::new();
    let mut x = IObject::new();
    x.insert(key(&mut cache, "a"), IValue::null(), &mut cache);
    let copy = x.clone_impl(&mut cache);
    x.insert(key(&mut cache, "b"), copy.into(), &mut cache);
    x.insert(key(&mut cache, "c"), IValue::from(false), &mut cache);
    let copy = x.clone_impl(&mut cache);
    x.insert(key(&mut cache, "d"), copy.into(), &mut cache);

    assert_eq!(x.len(), 4);
    assert_eq!(*at(&mut cache, &x, "a"), IValue::null());
    assert_eq!(at(&mut cache, &x, "b").len(), Some(1));
    assert_eq!(*at(&mut cache, &x, "c"), IValue::from(false));
    assert_eq!(at(&mut cache, &x, "d").len(), Some(3));
}

#[test]
fn can_remove_and_shrink() {
    let mut cache = StringCache::new();
    let x = vec![("a", IValue::null()), ("b", IValue::from(true)), ("c", IValue::from(false))];
    let mut y: IObject = collect(&mut cache, x);
    assert_eq!(y.len(), 3);
    assert_eq!(y.capacity(), 4);

    assert_eq!(y.remove(&key(&mut cache, "b"), &mut cache), Some(IValue::from(true)));
    assert_eq!(y.remove(&key(&mut cache, "b"), &mut cache), None);
    assert_eq!(y.remove(&key(&mut cache, "d"), &mut cache), None);

    assert_eq!(y.len(), 2);
    assert_eq!(y.capacity(), 4);
    assert_eq!(*at(&mut cache, &y, "a"), IValue::null());
    assert_eq!(*at(&mut cache, &y, "c"), IValue::from(false));

    y.shrink_to_fit();
    assert_eq!(y.len(), 2);
    assert_eq!(y.capacity(), 2);
    assert_eq!(*at(&mut cache, &y, "a"), IValue::null());
    assert_eq!(*at(&mut cache, &y, "c"), IValue::from(false));
}

#[test]
fn object_stress_test() {
    for i in 0..10 {
        // We want our test to be random but for errors to be reproducible
        let mut rng = StdRng::seed_from_u64(i);
        let range = 0..10000;
        let mut ops: Vec<i32> = range.clone().chain(range).collect();
        ops.shuffle(&mut rng);

        let mut cache = StringCache::new();
        let mut x = IObject::new();
        for op in ops {
            let k = IString::intern(&mut cache, &op.to_string());
            if x.contains_key(&k) {
                x.remove(&k, &mut cache);
                k.drop_impl(&mut cache);
            } else {
                x.insert(k, IValue::from(op), &mut cache);
            }
        }
        assert_eq!(x, IObject::new());
    }
}

#[test]
fn object_scenario_of_three_entries() {
    let mut cache = StringCache::new();
    let mut x = collect(
        &mut cache,
        vec![("a", IValue::null()), ("b", IValue::from(true)), ("c", IValue::from(false))],
    );
    assert_eq!(x.len(), 3);
    let b = key(&mut cache, "b");
    assert_eq!(x.remove(&b, &mut cache), Some(IValue::from(true)));
    assert_eq!(x.get(&b), None);
    assert!(!x.contains_key(&b));
    assert_eq!(*at(&mut cache, &x, "a"), IValue::null());
    assert_eq!(*at(&mut cache, &x, "c"), IValue::from(false));
}

#[test]
fn object_insert_replaces_and_returns_the_old_value() {
    let mut cache = StringCache::new();
    let mut x = IObject::new();
    assert_eq!(x.insert(key(&mut cache, "k"), IValue::from(1u8), &mut cache), None);
    assert_eq!(
        x.insert(key(&mut cache, "k"), IValue::from(2u8), &mut cache),
        Some(IValue::from(1u8))
    );
    assert_eq!(x.len(), 1);
    assert_eq!(*at(&mut cache, &x, "k"), IValue::from(2u8));
}

#[test]
fn object_removal_moves_the_last_entry_into_the_gap() {
    let mut cache = StringCache::new();
    let mut x = collect(
        &mut cache,
        vec![
            ("a", IValue::from(1u8)),
            ("b", IValue::from(2u8)),
            ("c", IValue::from(3u8)),
            ("d", IValue::from(4u8)),
        ],
    );
    let a = key(&mut cache, "a");
    let removed = x.remove_entry(&a);
    assert_eq!(removed.map(|(k, v)| (k.as_str().to_owned(), v)), Some(("a".to_owned(), IValue::from(1u8))));
    let keys: Vec<String> = x.keys().iter().map(|k| k.as_str().to_owned()).collect();
    assert_eq!(keys, vec!["d".to_owned(), "b".to_owned(), "c".to_owned()]);
    let values: Vec<IValue> = x.values().iter().map(|v| IValue::from(v.to_i64().unwrap())).collect();
    assert_eq!(values, vec![IValue::from(4u8), IValue::from(2u8), IValue::from(3u8)]);
}

#[test]
fn object_keeps_the_order_of_insertion() {
    let mut cache = StringCache::new();
    let mut x = IObject::new();
    for i in 0..50 {
        x.insert(key(&mut cache, &format!("key{}", i)), IValue::from(i as i64), &mut cache);
    }
    let mut pairs: Vec<(String, i64)> = Vec::new();
    let mut iter = x.iter();
    assert_eq!(iter.len(), 50);
    while let Some((k, v)) = iter.next() {
        pairs.push((k.as_str().to_owned(), v.to_i64().unwrap()));
    }
    assert_eq!(iter.len(), 0);
    let mut owned = x.clone_impl(&mut cache).into_iter();
    assert_eq!(owned.len(), 50);
    assert_eq!(owned.next().map(|(k, v)| (k.as_str().to_owned(), v)), Some(("key0".to_owned(), IValue::from(0u8))));
    assert_eq!(owned.next().map(|(k, v)| (k.as_str().to_owned(), v)), Some(("key1".to_owned(), IValue::from(1u8))));
    assert_eq!(owned.len(), 48);
    for (i, (k, v)) in pairs.iter().enumerate() {
        assert_eq!(*k, format!("key{}", i));
        assert_eq!(*v, i as i64);
    }
    assert_eq!(pairs.len(), 50);
}

#[test]
fn object_reserve_grows_to_twice_and_at_least_four() {
    let mut cache = StringCache::new();
    let mut x = IObject::new();
    assert_eq!(x.capacity(), 0);
    assert!(x.is_static());
    x.insert(key(&mut cache, "0"), IValue::null(), &mut cache);
    assert_eq!(x.capacity(), 4);
    for i in 1..5 {
        x.insert(key(&mut cache, &i.to_string()), IValue::null(), &mut cache);
    }
    assert_eq!(x.capacity(), 8);
    x.reserve(20);
    assert_eq!(x.capacity(), 25);
    assert_eq!(x.len(), 5);
    assert_eq!(hash_capacity(4), 5);
    assert_eq!(hash_capacity(8), 10);
    assert_eq!(hash_capacity(3), 3);
}

#[test]
fn object_other_keys_survive_unrelated_changes() {
    let mut cache = StringCache::new();
    let mut x = IObject::new();
    let kept = key(&mut cache, "kept");
    x.insert(kept.clone_impl(&mut cache), IValue::from(99u8), &mut cache);
    for round in 0..20 {
        for i in 0..40 {
            x.insert(key(&mut cache, &format!("{}-{}", round, i)), IValue::from(i as i64), &mut cache);
        }
        for i in 0..40 {
            if i % 3 != 0 {
                let k = key(&mut cache, &format!("{}-{}", round, i));
                assert_eq!(x.remove(&k, &mut cache), Some(IValue::from(i as i64)));
            }
        }
        assert_eq!(x.get(&kept), Some(&IValue::from(99u8)));
    }
    x.shrink_to_fit();
    assert_eq!(x.capacity(), x.len());
    assert_eq!(x.get(&kept), Some(&IValue::from(99u8)));
}

#[test]
fn object_get_mut_changes_the_value_in_place() {
    let mut cache = StringCache::new();
    let mut x = collect(&mut cache, vec![("a", IValue::from(1u8)), ("b", IValue::from(2u8))]);
    let a = key(&mut cache, "a");
    *x.get_mut(&a).unwrap() = IValue::from(true);
    assert_eq!(x.get(&a), Some(&IValue::from(true)));
    let missing = key(&mut cache, "missing");
    assert!(x.get_mut(&missing).is_none());
    let (k, v) = x.get_key_value(&a).unwrap();
    assert_eq!(k.as_str(), "a");
    assert_eq!(*v, IValue::from(true));
    let (k, v) = x.get_key_value_mut(&a).unwrap();
    assert_eq!(k.as_str(), "a");
    *v = IValue::null();
    assert_eq!(x.get(&a), Some(&IValue::null()));
}

#[test]
fn object_equality_ignores_the_order() {
    let mut cache = StringCache::new();
    let x = collect(&mut cache, vec![("a", IValue::from(1u8)), ("b", IValue::from(2u8))]);
    let y = collect(&mut cache, vec![("b", IValue::from(2u8)), ("a", IValue::from(1u8))]);
    let z = collect(&mut cache, vec![("b", IValue::from(2u8)), ("a", IValue::from(3u8))]);
    assert_eq!(x, y);
    assert_ne!(x, z);
    assert_eq!(x.partial_cmp(&y), Some(std::cmp::Ordering::Equal));
    assert_eq!(x.partial_cmp(&z), None);
}

#[test]
fn object_clear_keeps_the_capacity() {
    let mut cache = StringCache::new();
    let mut x = collect(&mut cache, vec![("a", IValue::from(1u8)), ("b", IValue::from(2u8))]);
    x.clear(&mut cache);
    assert!(x.is_empty());
    assert_eq!(x.capacity(), 4);
    assert_eq!(x.get(&key(&mut cache, "a")), None);
    x.insert(key(&mut cache, "a"), IValue::null(), &mut cache);
    assert_eq!(x.len(), 1);
    assert_eq!(IObject::default().len(), 0);
}

#[test]
fn object_changes_follow_the_map() {
    let mut cache = StringCache::new();
    let a = key(&mut cache, "a");
    let b = key(&mut cache, "b");
    let ops = vec![
        ObjectOp::Insert(a.addr(), IValue::from(1u8)),
        ObjectOp::Insert(b.addr(), IValue::from(2u8)),
        ObjectOp::Remove(a.addr()),
        ObjectOp::Insert(b.addr(), IValue::from(3u8)),
    ];
    let mut x = IObject::new();
    for op in ops {
        match op {
            ObjectOp::Insert(addr, v) => {
                let k = if addr == a.addr() { a.clone_impl(&mut cache) } else { b.clone_impl(&mut cache) };
                x.insert(k, v, &mut cache);
            }
            ObjectOp::Remove(addr) => {
                let k = if addr == a.addr() { &a } else { &b };
                x.remove(k, &mut cache);
            }
        }
    }
    assert_eq!(x.get(&a), None);
    assert_eq!(x.get(&b), Some(&IValue::from(3u8)));
    assert_eq!(x.len(), 1);
}

#[test]
fn object_entry_views_occupied_and_vacant() {
    let mut cache = StringCache::new();
    let mut x = IObject::new();
    match x.entry(key(&mut cache, "a"), &mut cache) {
        Entry::Vacant(vac) => {
            assert_eq!(vac.key().as_str(), "a");
            *vac.insert(IValue::from(1u8)) = IValue::from(2u8);
        }
        Entry::Occupied(_) => panic!("the object is empty"),
    }
    assert_eq!(*at(&mut cache, &x, "a"), IValue::from(2u8));
    match x.entry(key(&mut cache, "a"), &mut cache) {
        Entry::Occupied(mut occ) => {
            assert_eq!(occ.key().as_str(), "a");
            assert_eq!(*occ.get(), IValue::from(2u8));
            assert_eq!(occ.insert(IValue::from(3u8)), IValue::from(2u8));
            *occ.get_mut() = IValue::from(4u8);
            *occ.into_mut() = IValue::from(5u8);
        }
        Entry::Vacant(_) => panic!("the key is there"),
    }
    assert_eq!(*at(&mut cache, &x, "a"), IValue::from(5u8));
    let a = x.entry(key(&mut cache, "a"), &mut cache);
    *a.or_insert(IValue::null(), &mut cache) = IValue::from(6u8);
    assert_eq!(*at(&mut cache, &x, "a"), IValue::from(6u8));
    let b = x.entry(key(&mut cache, "b"), &mut cache);
    assert_eq!(*b.or_insert(IValue::from(true), &mut cache), IValue::from(true));
    assert_eq!(
        *x.entry(key(&mut cache, "c"), &mut cache).or_insert_with(|| IValue::from(9u8)),
        IValue::from(9u8)
    );
    assert_eq!(
        *x.entry(key(&mut cache, "c"), &mut cache).or_insert_with(|| IValue::from(10u8)),
        IValue::from(9u8)
    );
    let c = key(&mut cache, "c");
    let entry = x.entry_or_clone(&c, &mut cache).and_modify(|v| *v = IValue::from(11u8));
    assert_eq!(entry.key().as_str(), "c");
    assert_eq!(*at(&mut cache, &x, "c"), IValue::from(11u8));
    let d = key(&mut cache, "d");
    let entry = x.entry_or_clone(&d, &mut cache).and_modify(|v| *v = IValue::from(12u8));
    match entry {
        Entry::Vacant(vac) => assert_eq!(vac.into_key().as_str(), "d"),
        Entry::Occupied(_) => panic!("the key is new"),
    }
    assert_eq!(x.len(), 3);
    match x.entry(key(&mut cache, "b"), &mut cache) {
        Entry::Occupied(occ) => assert_eq!(occ.remove(&mut cache), IValue::from(true)),
        Entry::Vacant(_) => panic!("the key is there"),
    }
    match x.entry(key(&mut cache, "a"), &mut cache) {
        Entry::Occupied(occ) => {
            let (k, v) = occ.remove_entry();
            assert_eq!(k.as_str(), "a");
            assert_eq!(v, IValue::from(6u8));
        }
        Entry::Vacant(_) => panic!("the key is there"),
    }
    assert_eq!(x.len(), 1);
    assert_eq!(*at(&mut cache, &x, "c"), IValue::from(11u8));
}

#[test]
fn object_index_trait_reaches_the_entries() {
    let mut cache = StringCache::new();
    let mut x = collect(&mut cache, vec![("a", IValue::from(1u8))]);
    let a = key(&mut cache, "a");
    let b = key(&mut cache, "b");
    assert_eq!(a.index_into(&x).map(|(_, v)| v), Some(&IValue::from(1u8)));
    assert!(b.index_into(&x).is_none());
    *a.index_into_mut(&mut x).unwrap().1 = IValue::from(2u8);
    assert_eq!(*a.index_or_insert(&mut x, &mut cache), IValue::from(2u8));
    assert_eq!(*b.index_or_insert(&mut x, &mut cache), IValue::null());
    assert_eq!(x.len(), 2);
    assert_eq!(ObjectIndex::remove(&a, &mut x).map(|(_, v)| v), Some(IValue::from(2u8)));
    assert_eq!(ObjectIndex::remove(&a, &mut x), None);
}

#[test]
fn object_retain_keeps_what_the_function_says() {
    let mut cache = StringCache::new();
    let mut x = IObject::new();
    for i in 0..100 {
        x.insert(key(&mut cache, &i.to_string()), IValue::from(i as i64), &mut cache);
    }
    let gone = key(&mut cache, "33").addr();
    x.retain(
        |_, v| {
            let n = v.to_i64().unwrap();
            *v = IValue::from(n * 2);
            n % 3 == 0
        },
        &mut cache,
    );
    assert_eq!(x.len(), 34);
    for i in 0..100 {
        let k = key(&mut cache, &i.to_string());
        if i % 3 == 0 {
            assert_eq!(x.get(&k), Some(&IValue::from(2 * i as i64)));
        } else {
            assert_eq!(x.get(&k), None);
        }
    }
    assert_eq!(key(&mut cache, "33").addr(), gone);
    let mut empty = IObject::new();
    empty.retain(|_, _| false, &mut cache);
    assert!(empty.is_empty());
    x.retain(|_, _| false, &mut cache);
    assert!(x.is_empty());
}
