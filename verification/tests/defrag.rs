use ijson::layout::Layout;
use ijson::reinit_shared_string_cache;
use ijson::unsafe_string::StringCache;
use ijson::Defrag;
use ijson::DefragAllocator;
use ijson::IArray;
use ijson::INumber;
use ijson::IObject;
use ijson::IString;
use ijson::IValue;

struct DummyDefragAllocator {
    moved: usize,
}

impl DefragAllocator for DummyDefragAllocator {
    fn realloc_ptr(&mut self, layout: Layout) {
        self.allocate(layout);
        self.free(layout);
    }

    fn allocate(&mut self, layout: Layout) {
        self.moved += layout.size();
    }

    fn free(&mut self, _layout: Layout) {}
}

fn make_int(v: i64) -> IValue {
    IValue::from(INumber::from(v))
}

fn make_float(v: f64) -> IValue {
    IValue::from(INumber::try_from_f64_bits(v.to_bits()).unwrap())
}

fn make_string(cache: &mut StringCache, s: &str) -> IValue {
    IValue::from(IString::intern(cache, s))
}

fn make_array(items: Vec<IValue>) -> IValue {
    let mut built = IArray::new();
    for item in items {
        built.push(item);
    }
    IValue::from(built)
}

fn make_object(cache: &mut StringCache, entries: Vec<(&str, IValue)>) -> IValue {
    let mut built = IObject::new();
    for (key, value) in entries {
        let key = IString::intern(cache, key);
        let _ = built.insert(key, value, cache);
    }
    IValue::from(built)
}

fn test_defrag_generic(cache: &mut StringCache, val: IValue) {
    let defrag_val = val.clone_impl(cache);
    reinit_shared_string_cache(cache);
    let defrag_val = defrag_val.defrag(&mut DummyDefragAllocator { moved: 0 });
    assert_eq!(val, defrag_val);
}

#[test]
fn test_defrag_null() {
    let mut cache = StringCache::new();
    test_defrag_generic(&mut cache, IValue::null());
}

#[test]
fn test_defrag_bool() {
    let mut cache = StringCache::new();
    test_defrag_generic(&mut cache, IValue::from(true));
    test_defrag_generic(&mut cache, IValue::from(false));
}

#[test]
fn test_defrag_number() {
    let mut cache = StringCache::new();
    test_defrag_generic(&mut cache, make_int(1));
    test_defrag_generic(&mut cache, make_int(1000000000));
    test_defrag_generic(&mut cache, make_int(-1000000000));
    test_defrag_generic(&mut cache, make_float(1.11111111));
    test_defrag_generic(&mut cache, make_float(-1.11111111));
}

#[test]
fn test_defrag_string() {
    let mut cache = StringCache::new();
    let val = make_string(&mut cache, "test");
    test_defrag_generic(&mut cache, val);
    let val = make_string(&mut cache, "");
    test_defrag_generic(&mut cache, val);
}

#[test]
fn test_defrag_array() {
    let mut cache = StringCache::new();
    let val = make_array(vec![make_int(1), make_int(2), make_string(&mut cache, "bar")]);
    test_defrag_generic(&mut cache, val);
}

#[test]
fn test_defrag_array_of_numbers() {
    let mut cache = StringCache::new();
    test_defrag_generic(&mut cache, make_array(vec![make_int(1), make_int(2), make_int(3)]));
}

#[test]
fn test_defrag_empty_array_of_numbers() {
    let mut cache = StringCache::new();
    test_defrag_generic(&mut cache, make_array(vec![]));
}

#[test]
fn test_defrag_object() {
    let mut cache = StringCache::new();
    let bar = make_string(&mut cache, "bar");
    let val = make_object(&mut cache, vec![("foo", bar)]);
    test_defrag_generic(&mut cache, val);
}

#[test]
fn test_defrag_empty_object() {
    let mut cache = StringCache::new();
    let val = make_object(&mut cache, vec![]);
    test_defrag_generic(&mut cache, val);
}

#[test]
fn test_defrag_complex() {
    let mut cache = StringCache::new();
    let bar = make_string(&mut cache, "bar");
    let first = make_object(&mut cache, vec![("foo", bar)]);
    let bar = make_string(&mut cache, "bar");
    let innermost_array = make_array(vec![make_int(1), bar]);
    let innermost = make_object(&mut cache, vec![("foo", innermost_array)]);
    let test = make_array(
        vec![
            make_int(1),
            make_int(2),
            IValue::null(),
            IValue::from(true),
            IValue::from(false),
            make_int(3),
            innermost,
        ],
    );
    let last = make_object(&mut cache, vec![("test", test)]);
    let val = make_array(
        vec![
            first,
            make_int(1),
            make_int(2),
            make_int(3),
            IValue::null(),
            IValue::from(true),
            IValue::from(false),
            last,
        ],
    );
    test_defrag_generic(&mut cache, val);
}

#[test]
fn defrag_moves_each_block_once() {
    let mut cache = StringCache::new();
    let val = make_array(vec![make_int(1), make_int(1000000000), make_array(vec![])]);
    let mut arena = DummyDefragAllocator { moved: 0 };
    let moved = val.clone_impl(&mut cache).defrag(&mut arena);
    assert_eq!(val, moved);
    let word = std::mem::size_of::<usize>();
    // the copy of the outer array has room for its three items; the wide number takes
    // sixteen bytes; the small number and the empty array have no block
    assert_eq!(arena.moved, 2 * word + 3 * word + 16);
}
