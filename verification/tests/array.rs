use ijson::array::ArrayOp;
use ijson::unsafe_string::StringCache;
use ijson::IArray;
use ijson::INumber;
use ijson::IString;
use ijson::IValue;
use rand::rngs::StdRng;
use rand::Rng;
use rand::SeedableRng;

fn collect(items: Vec<IValue>) -> IArray {
    let mut res = IArray::new();
    res.reserve(items.len());
    for item in items {
        res.push(item);
    }
    res
}

fn from_vec(items: Vec<IValue>) -> IArray {
    let mut res = IArray::with_capacity(items.len());
    for item in items {
        res.push(item);
    }
    res
}

#[test]
fn array_can_create() {
    let x = IArray::new();
    let y = IArray::with_capacity(10);

    assert_eq!(x, y);
}

#[test]
fn array_can_collect() {
    let x = vec![IValue::null(), IValue::from(true), IValue::from(false)];
    let y: IArray = collect(vec![IValue::null(), IValue::from(true), IValue::from(false)]);

    assert_eq!(x.as_slice(), y.as_slice());
}

#[test]
fn can_push_insert() {
    let mut x = IArray::new();
    x.insert(0, IValue::null());
    x.push(IValue::from(true));
    x.insert(1, IValue::from(false));

    assert_eq!(x.as_slice(), &[IValue::null(), IValue::from(false), IValue::from(true)]);
}

#[test]
fn array_can_nest() {
    let mut cache = StringCache::new();
    let x: IArray = from_vec(vec![IValue::null(), IValue::from(true), IValue::from(false)]);
    let y: IArray = from_vec(
        vec![
            IValue::null(),
            x.clone_impl(&mut cache).into(),
            IValue::from(false),
            x.clone_impl(&mut cache).into(),
        ],
    );

    assert_eq!(y.get(1).unwrap().as_array().unwrap(), &x);
}

#[test]
fn can_pop_remove() {
    let mut x: IArray = from_vec(vec![IValue::null(), IValue::from(true), IValue::from(false)]);
    assert_eq!(x.remove(1), Some(IValue::from(true)));
    assert_eq!(x.pop(), Some(IValue::from(false)));

    assert_eq!(x.as_slice(), &[IValue::null()]);
}

#[test]
fn can_swap_remove() {
    let mut x: IArray = from_vec(vec![IValue::null(), IValue::from(true), IValue::from(false)]);
    assert_eq!(x.swap_remove(0), Some(IValue::null()));

    assert_eq!(x.as_slice(), &[IValue::from(false), IValue::from(true)]);
}

#[test]
fn can_index() {
    let mut x: IArray = from_vec(vec![IValue::null(), IValue::from(true), IValue::from(false)]);
    assert_eq!(*x.get(1).unwrap(), IValue::from(true));
    *x.get_mut(1).unwrap() = IValue::from(false);
    assert_eq!(*x.get(1).unwrap(), IValue::from(false));
}

#[test]
fn can_truncate_and_shrink() {
    let mut cache = StringCache::new();
    let mut x: IArray = from_vec(
        vec![IValue::null(), IValue::from(true), IArray::with_capacity(10).into()],
    );
    x.truncate(2, &mut cache);
    assert_eq!(x.len(), 2);
    assert_eq!(x.capacity(), 3);
    x.shrink_to_fit();
    assert_eq!(x.len(), 2);
    assert_eq!(x.capacity(), 2);
}

#[test]
fn array_stress_test() {
    for i in 0..10 {
        // We want our test to be random but for errors to be reproducible
        let mut rng = StdRng::seed_from_u64(i);
        let mut arr = IArray::new();
        let mut model: Vec<i64> = Vec::new();

        for j in 0..1000 {
            let index = rng.gen_range(0..arr.len() + 1);
            if rng.gen() {
                arr.insert(index, IValue::from(j as i64));
                model.insert(index, j);
            } else {
                arr.remove(index);
                if index < model.len() {
                    model.remove(index);
                }
            }
        }
        let held: Vec<i64> = arr.as_slice().iter().map(|v| v.to_i64().unwrap()).collect();
        assert_eq!(held, model);
    }
}

#[test]
fn array_reserve_grows_to_twice_and_at_least_four() {
    let mut x = IArray::new();
    assert_eq!(x.capacity(), 0);
    assert!(x.is_static());
    x.push(IValue::null());
    assert_eq!(x.capacity(), 4);
    for _ in 0..4 {
        x.push(IValue::null());
    }
    assert_eq!(x.capacity(), 8);
    x.reserve(20);
    assert_eq!(x.capacity(), 25);
    x.reserve(1);
    assert_eq!(x.capacity(), 25);
    assert_eq!(x.len(), 5);
}

#[test]
fn array_out_of_range_removals_are_absent() {
    let mut x: IArray = from_vec(vec![IValue::null()]);
    assert_eq!(x.remove(1), None);
    assert_eq!(x.swap_remove(5), None);
    assert_eq!(x.len(), 1);
    assert_eq!(x.pop(), Some(IValue::null()));
    assert_eq!(x.pop(), None);
    assert_eq!(x.get(0), None);
    let mut empty = IArray::new();
    assert_eq!(empty.pop(), None);
}

#[test]
fn array_insert_then_remove_restores() {
    let before = vec![IValue::from(1u8), IValue::from(2u8), IValue::from(3u8)];
    for index in 0..=3 {
        let mut x = from_vec(vec![IValue::from(1u8), IValue::from(2u8), IValue::from(3u8)]);
        x.insert(index, IValue::from(true));
        assert_eq!(x.len(), 4);
        assert_eq!(x.remove(index), Some(IValue::from(true)));
        assert_eq!(x.as_slice(), before.as_slice());
    }
}

#[test]
fn array_length_is_net_of_changes() {
    let mut x = IArray::new();
    let ops = vec![
        ArrayOp::Push(IValue::null()),
        ArrayOp::Pop,
        ArrayOp::Pop,
        ArrayOp::Insert(0, IValue::from(true)),
        ArrayOp::Push(IValue::from(false)),
        ArrayOp::Remove(7),
        ArrayOp::Remove(0),
    ];
    let mut net: i64 = 0;
    for op in ops {
        match op {
            ArrayOp::Push(v) => {
                x.push(v);
                net += 1;
            }
            ArrayOp::Insert(i, v) => {
                x.insert(i, v);
                net += 1;
            }
            ArrayOp::Remove(i) => {
                if x.remove(i).is_some() {
                    net -= 1;
                }
            }
            ArrayOp::Pop => {
                if x.pop().is_some() {
                    net -= 1;
                }
            }
        }
    }
    assert_eq!(net, 1);
    assert_eq!(x.len(), 1);
    assert_eq!(x.as_slice(), &[IValue::from(false)]);
}

#[test]
fn array_into_iter_keeps_the_order() {
    let x = from_vec(vec![IValue::from(1u8), IValue::from(2u8), IValue::from(3u8)]);
    let mut iter = x.into_iter();
    assert_eq!(iter.len(), 3);
    assert_eq!(iter.next(), Some(IValue::from(1u8)));
    assert_eq!(iter.next(), Some(IValue::from(2u8)));
    assert_eq!(iter.len(), 1);
    assert_eq!(iter.next(), Some(IValue::from(3u8)));
    assert_eq!(iter.next(), None);
}

#[test]
fn array_clear_drops_its_strings() {
    let mut cache = StringCache::new();
    let mut x = IArray::new();
    let only = IString::intern(&mut cache, "only here");
    let before = only.addr();
    x.push(IValue::from(only));
    x.push(IValue::from(INumber::from(7u8)));
    IString::intern(&mut cache, "only here").drop_impl(&mut cache);
    x.clear(&mut cache);
    assert!(x.is_empty());
    assert_eq!(x.capacity(), 4);
    let after = IString::intern(&mut cache, "only here").addr();
    assert_ne!(before, after);
}

#[test]
fn array_order_is_by_first_differing_item() {
    let a = from_vec(vec![IValue::from(1u8), IValue::from(2u8)]);
    let b = from_vec(vec![IValue::from(1u8), IValue::from(3u8)]);
    let c = from_vec(vec![IValue::from(1u8)]);
    assert!(a < b);
    assert!(c < a);
    assert!(b > c);
    assert!(a <= from_vec(vec![IValue::from(1u8), IValue::from(2u8)]));
}
