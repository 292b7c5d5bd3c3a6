use ijson::reinit_shared_string_cache;
use ijson::string::EMPTY_ADDR;
use ijson::string::init_cache;
use ijson::string::CacheTable;
use ijson::string::ShardedTable;
use ijson::string::ShardedCache;
use ijson::unsafe_string::StringCache;
use ijson::unsafe_string::Table;
use ijson::IString;

#[test]
fn string_can_intern() {
    let mut cache = init_cache();
    let x = IString::intern(&mut cache, "foo");
    let y = IString::intern(&mut cache, "bar");
    let z = IString::intern(&mut cache, "foo");

    assert_eq!(x.addr(), z.addr());
    assert_ne!(x.addr(), y.addr());
    assert_eq!(x.as_str(), "foo");
    assert_eq!(y.as_str(), "bar");
}

#[test]
fn string_default_interns_string() {
    let mut cache = init_cache();
    let x = IString::intern(&mut cache, "");
    let y = IString::new();
    let z = IString::intern(&mut cache, "foo");

    assert_eq!(x.addr(), y.addr());
    assert_ne!(x.addr(), z.addr());
}

#[test]
fn unsafe_string_can_intern() {
    let mut cache = StringCache::new();
    let x = IString::try_intern(&mut cache, "foo").unwrap();
    let y = IString::try_intern(&mut cache, "bar").unwrap();
    let z = IString::try_intern(&mut cache, "foo").unwrap();

    assert_eq!(x.addr(), z.addr());
    assert_ne!(x.addr(), y.addr());
    assert_eq!(x.as_str(), "foo");
    assert_eq!(y.as_str(), "bar");
    assert!(x == z);
    assert!(x != y);
}

#[test]
fn unsafe_string_default_interns_string() {
    let mut cache = StringCache::new();
    let x = IString::try_intern(&mut cache, "").unwrap();
    let y = IString::default();
    let z = IString::try_intern(&mut cache, "foo").unwrap();

    assert_eq!(x.addr(), y.addr());
    assert_ne!(x.addr(), z.addr());
    assert_eq!(x.addr(), EMPTY_ADDR);
    assert!(x.is_empty());
    assert_eq!(x.len(), 0);
    assert!(!z.is_empty());
}

#[test]
fn string_last_drop_frees_the_text() {
    let mut cache = StringCache::new();
    let first = IString::intern(&mut cache, "gone");
    let second = first.clone_impl(&mut cache);
    let addr = first.addr();
    first.drop_impl(&mut cache);
    // one handle is left: the text stays where it is
    let third = IString::intern(&mut cache, "gone");
    assert_eq!(third.addr(), addr);
    third.drop_impl(&mut cache);
    second.drop_impl(&mut cache);
    // none is left: the text is new to the cache
    let again = IString::intern(&mut cache, "gone");
    assert_ne!(again.addr(), addr);
}

#[test]
fn string_handles_report_their_text() {
    let mut cache = StringCache::new();
    let s = IString::intern(&mut cache, "h\u{e9}llo");
    assert_eq!(s.len(), 6);
    assert_eq!(s.as_bytes(), "h\u{e9}llo".as_bytes());
    assert_eq!(s.as_str(), "h\u{e9}llo");
    assert_eq!(s.ptr_usize(), s.addr() + 1);
    assert_eq!(s.addr() % 4, 0);
    assert_eq!(s.shard_index(), 0);
}

#[test]
fn string_order_is_by_bytes() {
    let mut cache = StringCache::new();
    let a = IString::intern(&mut cache, "abc");
    let b = IString::intern(&mut cache, "abd");
    let c = IString::intern(&mut cache, "ab");
    let a2 = IString::intern(&mut cache, "abc");
    assert!(a < b);
    assert!(c < a);
    assert!(b > c);
    assert!(a <= a2);
    assert!(a >= a2);
    assert!(IString::new() < c);
}

#[test]
fn string_reinit_starts_a_new_generation() {
    let mut cache = StringCache::new();
    let old = IString::intern(&mut cache, "kept");
    reinit_shared_string_cache(&mut cache);
    let new = IString::intern(&mut cache, "kept");
    assert_eq!(old.as_str(), "kept");
    assert_ne!(old.addr(), new.addr());
    // a handle of the old generation is not counted by the new one
    old.drop_impl(&mut cache);
    let again = IString::intern(&mut cache, "kept");
    assert_eq!(again.addr(), new.addr());
}

#[test]
fn string_cache_says_when_it_has_room() {
    let mut cache = StringCache::new();
    assert!(cache.has_room(""));
    assert!(cache.has_room("abc"));
    assert!(IString::try_intern(&mut cache, "abc").is_some());
    assert!(cache.has_room("abc"));
}

#[test]
fn string_sharded_cache_records_the_shard() {
    let mut cache: ShardedCache = init_cache();
    let a = IString::intern(&mut cache, "a text");
    let b = IString::intern(&mut cache, "a text");
    let c = IString::intern(&mut cache, "another text");
    assert_eq!(a.shard_index(), b.shard_index());
    assert!(a.shard_index() < 1 << 16);
    assert!(c.shard_index() < 1 << 16);
    assert_eq!(a.addr(), b.addr());
    assert_ne!(a.addr(), c.addr());
    assert_eq!(IString::new().shard_index(), 0);
}

#[test]
fn string_sharded_cache_frees_with_the_last_handle() {
    let mut cache = init_cache();
    let first = IString::intern(&mut cache, "gone");
    let second = first.clone_impl(&mut cache);
    let addr = first.addr();
    first.drop_impl(&mut cache);
    let third = IString::intern(&mut cache, "gone");
    assert_eq!(third.addr(), addr);
    third.drop_impl(&mut cache);
    second.drop_impl(&mut cache);
    let again = IString::intern(&mut cache, "gone");
    assert_ne!(again.addr(), addr);
    assert!(cache.has_room("gone"));
    assert!(cache.has_room("not yet there"));
    reinit_shared_string_cache(&mut cache);
    assert_ne!(IString::try_intern(&mut cache, "gone").unwrap().addr(), again.addr());
}

fn table_has_room_for_its_entries<T: CacheTable>() {
    let mut table = T::empty();
    assert!(CacheTable::capacity(&table) >= CacheTable::len(&table));
    for i in 0..100usize {
        CacheTable::insert(&mut table, &i.to_string(), (16 + 8 * i, 1));
        assert_eq!(CacheTable::len(&table), i + 1);
        assert!(CacheTable::capacity(&table) >= i + 1);
    }
    for i in 0..90usize {
        CacheTable::remove(&mut table, &i.to_string());
    }
    CacheTable::shrink_to_fit(&mut table);
    assert_eq!(CacheTable::len(&table), 10);
    assert!(CacheTable::capacity(&table) >= 10);
    assert_eq!(CacheTable::get(&table, "95"), Some((16 + 8 * 95, 1)));
    assert_eq!(CacheTable::get(&table, "5"), None);
    assert!(!CacheTable::is_empty(&table));
}

#[test]
fn unsafe_string_table_has_room_for_its_entries() {
    table_has_room_for_its_entries::<Table>();
}

#[test]
fn string_table_has_room_for_its_entries() {
    table_has_room_for_its_entries::<ShardedTable>();
}
