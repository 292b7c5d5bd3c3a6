use ijson::unsafe_string::StringCache;
use ijson::value::kind_of_word;
use ijson::value::inline_word;
use ijson::value::tagged_word;
use ijson::value::untagged_addr;
use ijson::value::TypeTag;
use ijson::Destructured;
use ijson::DestructuredMut;
use ijson::DestructuredRef;
use ijson::IArray;
use ijson::INumber;
use ijson::IObject;
use ijson::IString;
use ijson::IValue;
use ijson::ValueType;

fn make_array(items: Vec<IValue>) -> IArray {
    let mut res = IArray::new();
    for item in items {
        res.push(item);
    }
    res
}

fn make_object(cache: &mut StringCache, entries: Vec<(&str, IValue)>) -> IObject {
    let mut res = IObject::new();
    for (k, v) in entries {
        let k = IString::intern(cache, k);
        res.insert(k, v, cache);
    }
    res
}

fn make_float(v: f64) -> IValue {
    IValue::from(INumber::try_from_f64_bits(v.to_bits()).unwrap())
}

fn make_string(cache: &mut StringCache, s: &str) -> IValue {
    IValue::from(IString::intern(cache, s))
}

fn from_json(cache: &mut StringCache, v: &serde_json::Value) -> IValue {
    match v {
        serde_json::Value::Null => IValue::null(),
        serde_json::Value::Bool(b) => IValue::from(*b),
        serde_json::Value::Number(n) => {
            if let Some(i) = n.as_i64() {
                IValue::from(i)
            } else if let Some(u) = n.as_u64() {
                IValue::from(u)
            } else {
                make_float(n.as_f64().unwrap())
            }
        }
        serde_json::Value::String(s) => make_string(cache, s),
        serde_json::Value::Array(a) => {
            let items = a.iter().map(|x| from_json(cache, x)).collect();
            IValue::from(make_array(items))
        }
        serde_json::Value::Object(o) => {
            let mut res = IObject::new();
            for (k, x) in o {
                let x = from_json(cache, x);
                let k = IString::intern(cache, k);
                res.insert(k, x, cache);
            }
            IValue::from(res)
        }
    }
}

#[test]
fn can_use_literal() {
    let mut cache = StringCache::new();
    let bar = make_string(&mut cache, "bar");
    let hi = make_string(&mut cache, "hi");
    let there = make_string(&mut cache, "there");
    let inner = make_object(&mut cache, vec![("a", IValue::null())]);
    let x: IValue = IValue::from(make_object(
        &mut cache,
        vec![
            ("foo", bar),
            ("x", IValue::from(IArray::new())),
            (
                "y",
                IValue::from(make_array(vec![
                    hi,
                    there,
                    IValue::from(1),
                    IValue::from(2),
                    IValue::null(),
                    IValue::from(false),
                    IValue::from(true),
                    make_float(63.5),
                ])),
            ),
            (
                "z",
                IValue::from(make_array(vec![
                    IValue::from(false),
                    IValue::from(inner),
                    IValue::from(IObject::new()),
                ])),
            ),
        ],
    ));
    let parsed: serde_json::Value = serde_json::from_str(
        r#"{
                "foo": "bar",
                "x": [],
                "y": ["hi", "there", 1, 2, null, false, true, 63.5],
                "z": [false, {
                    "a": null
                }, {}]
            }"#,
    )
    .unwrap();
    let y = from_json(&mut cache, &parsed);
    assert_eq!(x, y);
}

#[test]
fn test_null() {
    let mut cache = StringCache::new();
    let x: IValue = IValue::null();
    assert!(x.is_null());
    assert_eq!(x.type_(), ValueType::Null);
    assert!(matches!(x.clone_impl(&mut cache).destructure(), Destructured::Null));
    assert!(matches!(x.clone_impl(&mut cache).destructure_ref(), DestructuredRef::Null));
    assert!(matches!(x.clone_impl(&mut cache).destructure_mut(), DestructuredMut::Null));
}

#[test]
fn test_bool() {
    let mut cache = StringCache::new();
    for v in [true, false].iter().copied() {
        let mut x = IValue::from(v);
        assert!(x.is_bool());
        assert_eq!(x.type_(), ValueType::Bool);
        assert_eq!(x.to_bool(), Some(v));
        assert!(matches!(x.clone_impl(&mut cache).destructure(), Destructured::Bool(u) if u == v));
        assert!(
            matches!(x.clone_impl(&mut cache).destructure_ref(), DestructuredRef::Bool(u) if u == v)
        );
        assert!(
            matches!(x.clone_impl(&mut cache).destructure_mut(), DestructuredMut::Bool(u) if u.get() == v)
        );

        if let DestructuredMut::Bool(mut b) = x.destructure_mut() {
            b.set(!v);
        }

        assert_eq!(x.to_bool(), Some(!v));
    }
}

#[test]
fn test_number() {
    let mut cache = StringCache::new();
    for v in 300..400 {
        let mut x = IValue::from(v);
        assert!(x.is_number());
        assert_eq!(x.type_(), ValueType::Number);
        assert_eq!(x.to_i32(), Some(v));
        assert_eq!(x.to_u32(), Some(v as u32));
        assert_eq!(x.to_i64(), Some(i64::from(v)));
        assert_eq!(x.to_u64(), Some(v as u64));
        assert_eq!(x.to_isize(), Some(v as isize));
        assert_eq!(x.to_usize(), Some(v as usize));
        assert_eq!(x.as_number(), Some(&v.into()));
        assert_eq!(x.as_number_mut(), Some(&mut v.into()));
        assert!(
            matches!(x.clone_impl(&mut cache).destructure(), Destructured::Number(u) if u == v.into())
        );
        assert!(
            matches!(x.clone_impl(&mut cache).destructure_ref(), DestructuredRef::Number(u) if *u == v.into())
        );
        assert!(
            matches!(x.clone_impl(&mut cache).destructure_mut(), DestructuredMut::Number(u) if *u == v.into())
        );
    }
}

#[test]
fn test_string() {
    let mut cache = StringCache::new();
    for v in 0..10 {
        let s = v.to_string();
        let mut x = IValue::from(IString::intern(&mut cache, &s));
        assert!(x.is_string());
        assert_eq!(x.type_(), ValueType::String);
        assert_eq!(x.as_string(), Some(&IString::intern(&mut cache, &s)));
        assert_eq!(x.as_string_mut(), Some(&mut IString::intern(&mut cache, &s)));
        assert!(
            matches!(x.clone_impl(&mut cache).destructure(), Destructured::String(u) if u.as_str() == s)
        );
        assert!(
            matches!(x.clone_impl(&mut cache).destructure_ref(), DestructuredRef::String(u) if u.as_str() == s)
        );
        assert!(
            matches!(x.clone_impl(&mut cache).destructure_mut(), DestructuredMut::String(u) if u.as_str() == s)
        );
    }
}

#[test]
fn test_array() {
    let mut cache = StringCache::new();
    for v in 0..10 {
        let mut a: IArray = make_array((0..v).map(IValue::from).collect());
        let mut x = IValue::from(a.clone_impl(&mut cache));
        assert!(x.is_array());
        assert_eq!(x.type_(), ValueType::Array);
        assert_eq!(x.as_array(), Some(&a));
        assert_eq!(x.as_array_mut(), Some(&mut a));
        assert!(matches!(x.clone_impl(&mut cache).destructure(), Destructured::Array(u) if u == a));
        assert!(
            matches!(x.clone_impl(&mut cache).destructure_ref(), DestructuredRef::Array(u) if *u == a)
        );
        assert!(
            matches!(x.clone_impl(&mut cache).destructure_mut(), DestructuredMut::Array(u) if *u == a)
        );
    }
}

#[test]
fn test_object() {
    let mut cache = StringCache::new();
    for v in 0..10 {
        let mut o = IObject::new();
        for i in 0..v {
            let k = IString::intern(&mut cache, &i.to_string());
            o.insert(k, IValue::from(i), &mut cache);
        }
        let mut x = IValue::from(o.clone_impl(&mut cache));
        assert!(x.is_object());
        assert_eq!(x.type_(), ValueType::Object);
        assert_eq!(x.as_object(), Some(&o));
        assert_eq!(x.as_object_mut(), Some(&mut o));
        assert!(matches!(x.clone_impl(&mut cache).destructure(), Destructured::Object(u) if u == o));
        assert!(
            matches!(x.clone_impl(&mut cache).destructure_ref(), DestructuredRef::Object(u) if *u == o)
        );
        assert!(
            matches!(x.clone_impl(&mut cache).destructure_mut(), DestructuredMut::Object(u) if *u == o)
        );
    }
}

#[test]
fn test_into_object_for_object() {
    let mut cache = StringCache::new();
    let mut o = IObject::new();
    for i in 0..10 {
        let k = IString::intern(&mut cache, &i.to_string());
        o.insert(k, IValue::from(i), &mut cache);
    }
    let x = IValue::from(o.clone_impl(&mut cache));

    assert_eq!(x.into_object(), Ok(o));
}

#[test]
fn value_tag_words_stand_for_one_kind_each() {
    assert_eq!(kind_of_word(0), None);
    assert_eq!(kind_of_word(inline_word(TypeTag::StringOrNull)), Some(ValueType::Null));
    assert_eq!(kind_of_word(inline_word(TypeTag::ArrayOrFalse)), Some(ValueType::Bool));
    assert_eq!(kind_of_word(inline_word(TypeTag::ObjectOrTrue)), Some(ValueType::Bool));
    assert_eq!(inline_word(TypeTag::StringOrNull), 1);
    assert_eq!(inline_word(TypeTag::ArrayOrFalse), 2);
    assert_eq!(inline_word(TypeTag::ObjectOrTrue), 3);
    assert_eq!(kind_of_word(tagged_word(64, TypeTag::Number)), Some(ValueType::Number));
    assert_eq!(kind_of_word(tagged_word(64, TypeTag::StringOrNull)), Some(ValueType::String));
    assert_eq!(kind_of_word(tagged_word(64, TypeTag::ArrayOrFalse)), Some(ValueType::Array));
    assert_eq!(kind_of_word(tagged_word(4, TypeTag::ObjectOrTrue)), Some(ValueType::Object));
    assert_eq!(tagged_word(64, TypeTag::ObjectOrTrue), 67);
    assert_eq!(untagged_addr(67), 64);
    assert_eq!(TypeTag::of(67), TypeTag::ObjectOrTrue);
    assert_eq!(TypeTag::of(64), TypeTag::Number);
    assert_eq!(TypeTag::ObjectOrTrue.bits(), 3);
}

#[test]
fn value_kinds_and_tags_agree() {
    let mut cache = StringCache::new();
    let values = vec![
        (IValue::null(), ValueType::Null, TypeTag::StringOrNull, false),
        (IValue::from(false), ValueType::Bool, TypeTag::ArrayOrFalse, false),
        (IValue::from(true), ValueType::Bool, TypeTag::ObjectOrTrue, false),
        (IValue::from(5u8), ValueType::Number, TypeTag::Number, true),
        (make_string(&mut cache, "s"), ValueType::String, TypeTag::StringOrNull, true),
        (IValue::from(IArray::new()), ValueType::Array, TypeTag::ArrayOrFalse, true),
        (IValue::from(IObject::new()), ValueType::Object, TypeTag::ObjectOrTrue, true),
    ];
    for (v, kind, tag, ptr) in values {
        assert_eq!(v.type_(), kind);
        assert_eq!(v.type_tag(), tag);
        assert_eq!(v.is_ptr(), ptr);
        assert_eq!(v.is_null(), kind == ValueType::Null);
        assert_eq!(v.is_bool(), kind == ValueType::Bool);
        assert_eq!(v.is_number(), kind == ValueType::Number);
        assert_eq!(v.is_string(), kind == ValueType::String);
        assert_eq!(v.is_array(), kind == ValueType::Array);
        assert_eq!(v.is_object(), kind == ValueType::Object);
    }
    assert!(IValue::from(true).is_true());
    assert!(IValue::from(false).is_false());
    assert!(!IValue::from(false).is_true());
    assert!(IValue::default().is_null());
}

#[test]
fn value_conversions_hand_a_mismatch_back() {
    let mut cache = StringCache::new();
    assert_eq!(IValue::null().into_number(), Err(IValue::null()));
    assert_eq!(IValue::from(true).into_string(), Err(IValue::from(true)));
    assert_eq!(IValue::from(3u8).into_array(), Err(IValue::from(3u8)));
    assert_eq!(IValue::from(3u8).into_object(), Err(IValue::from(3u8)));
    assert_eq!(IValue::from(3u8).into_number(), Ok(INumber::from(3u8)));
    let s = IString::intern(&mut cache, "s");
    assert_eq!(make_string(&mut cache, "s").into_string(), Ok(s));
    assert_eq!(IValue::from(IArray::new()).into_array(), Ok(IArray::new()));
    assert_eq!(IValue::null().as_number(), None);
    assert_eq!(IValue::null().as_string(), None);
    assert_eq!(IValue::null().as_array(), None);
    assert_eq!(IValue::null().as_object(), None);
    assert_eq!(IValue::null().to_bool(), None);
    assert_eq!(IValue::null().to_i64(), None);
    assert_eq!(IValue::null().len(), None);
    assert_eq!(IValue::null().is_empty(), None);
    assert_eq!(IValue::from(IArray::new()).is_empty(), Some(true));
    assert_eq!(IValue::from(IObject::new()).len(), Some(0));
}

#[test]
fn value_take_leaves_null() {
    let mut x = IValue::from(7u8);
    let taken = x.take();
    assert_eq!(taken, IValue::from(7u8));
    assert!(x.is_null());
}

#[test]
fn value_indexes_arrays_and_objects() {
    let mut cache = StringCache::new();
    let mut a = IValue::from(make_array(vec![IValue::from(1u8), IValue::from(2u8)]));
    assert_eq!(a.get(1usize), Some(&IValue::from(2u8)));
    assert_eq!(a.get(2usize), None);
    *a.get_mut(0usize).unwrap() = IValue::null();
    assert_eq!(a.get(0usize), Some(&IValue::null()));
    assert_eq!(a.remove(0usize, &mut cache), Some(IValue::null()));
    assert_eq!(a.remove(5usize, &mut cache), None);
    assert_eq!(a.len(), Some(1));

    let mut o = IValue::from(make_object(&mut cache, vec![("k", IValue::from(1u8))]));
    let k = IString::intern(&mut cache, "k");
    let missing = IString::intern(&mut cache, "missing");
    assert_eq!(o.get(&k), Some(&IValue::from(1u8)));
    assert_eq!(o.get(&missing), None);
    *o.get_mut(&k).unwrap() = IValue::from(true);
    assert_eq!(o.get(&k), Some(&IValue::from(true)));
    assert_eq!(o.remove(&k, &mut cache), Some(IValue::from(true)));
    assert_eq!(o.remove(&k, &mut cache), None);
    assert_eq!(o.len(), Some(0));
}

#[test]
fn value_order_is_by_kind_then_by_content() {
    let mut cache = StringCache::new();
    let null = IValue::null();
    let f = IValue::from(false);
    let t = IValue::from(true);
    let n = IValue::from(5u8);
    let s = make_string(&mut cache, "s");
    let a = IValue::from(IArray::new());
    let o = IValue::from(IObject::new());
    assert!(null < f);
    assert!(f < t);
    assert!(t < n);
    assert!(n < s);
    assert!(s < a);
    assert!(a < o);
    assert!(IValue::from(1u8) < make_float(1.5));
    assert!(make_string(&mut cache, "a") < make_string(&mut cache, "b"));
    assert_eq!(null.partial_cmp(&IValue::null()), Some(std::cmp::Ordering::Equal));
    let o1 = IValue::from(make_object(&mut cache, vec![("k", IValue::from(1u8))]));
    let o2 = IValue::from(make_object(&mut cache, vec![("k", IValue::from(2u8))]));
    assert_eq!(o1.partial_cmp(&o2), None);
    assert_eq!(o.partial_cmp(&IValue::from(IObject::new())), Some(std::cmp::Ordering::Equal));
    assert!(IValue::from(1u8) == make_float(1.0));
}

#[test]
fn value_clone_is_deep_and_counts_strings() {
    let mut cache = StringCache::new();
    let s = IString::intern(&mut cache, "shared");
    let addr = s.addr();
    let x = IValue::from(make_array(vec![IValue::from(s), IValue::from(1u64 << 40)]));
    let y = x.clone_impl(&mut cache);
    assert_eq!(x, y);
    x.drop_impl(&mut cache);
    // the copy still holds the string
    let probe = IString::intern(&mut cache, "shared");
    assert_eq!(probe.addr(), addr);
    probe.drop_impl(&mut cache);
    y.drop_impl(&mut cache);
    assert_ne!(IString::intern(&mut cache, "shared").addr(), addr);
}

#[test]
fn value_copy_that_is_dropped_leaves_the_counts() {
    let mut cache = StringCache::new();
    let s = IString::intern(&mut cache, "thrice");
    let addr = s.addr();
    let s2 = s.clone_impl(&mut cache);
    let key = IString::intern(&mut cache, "thrice");
    let mut o = IObject::new();
    o.insert(key, IValue::from(s2), &mut cache);
    let x = IValue::from(make_array(vec![IValue::from(s), IValue::from(o)]));
    // three handles, three more with the copy, three again once the copy is dropped
    let y = x.clone_impl(&mut cache);
    assert_eq!(x, y);
    y.drop_impl(&mut cache);
    let probe = IString::intern(&mut cache, "thrice");
    assert_eq!(probe.addr(), addr);
    probe.drop_impl(&mut cache);
    match x.into_array() {
        Ok(mut a) => {
            // the object's two handles leave, the array's own stays
            a.truncate(1, &mut cache);
            let probe = IString::intern(&mut cache, "thrice");
            assert_eq!(probe.addr(), addr);
            probe.drop_impl(&mut cache);
            a.drop_impl(&mut cache);
        },
        Err(_) => panic!("an array"),
    }
    assert_ne!(IString::intern(&mut cache, "thrice").addr(), addr);
}

#[test]
fn value_works_with_the_sharded_cache() {
    let mut cache = ijson::string::init_cache();
    let mut o = IObject::new();
    for i in 0..100 {
        let k = IString::intern(&mut cache, &i.to_string());
        let v = IValue::from(IString::intern(&mut cache, "shared"));
        o.insert(k, v, &mut cache);
    }
    let x = IValue::from(o);
    let y = x.clone_impl(&mut cache);
    assert_eq!(x, y);
    let addr = IString::intern(&mut cache, "shared").addr();
    x.drop_impl(&mut cache);
    let seven = IString::intern(&mut cache, "7");
    assert_eq!(y.get(&seven).and_then(|v| v.as_string()).map(|s| s.addr()), Some(addr));
}
