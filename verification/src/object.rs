//! The JSON object type.

use crate::array::reversed;
use crate::layout::word_size;
use crate::layout::Layout;
use crate::layout::LayoutError;
use crate::string::IString;
use crate::string::clone_each;
use crate::string::drop_back;
use crate::string::lemma_clone_each_concat;
use crate::string::lemma_drop_back_concat;
use crate::string::lemma_one_handle;
use crate::string::Cache;
use crate::string::CacheTable;
use crate::value::IValue;
use crate::Defrag;
use crate::DefragAllocator;
use std::cmp::Ordering;
use vstd::prelude::*;

verus! {

/// What a free bucket of the probe table holds.
pub const EMPTY: usize = usize::MAX;

/// The `IObject` type is similar to a `HashMap<IString, IValue>`, with a capacity of its
/// own. `IObject`s preserve the insertion order of their elements, in case that is
/// important in the JSON text.
///
/// Removing from an `IObject` will disrupt the insertion order.
///
/// Its model is [`IObject::entries`], the sequence of its entries, in which no two keys
/// have the same address, and, derived from it, `self@`: the map from the address of
/// each key to its value.
#[derive(Debug)]
pub struct IObject {
    pub(crate) cap: usize,
    pub(crate) keys: Vec<IString>,
    pub(crate) values: Vec<IValue>,
    pub(crate) table: Vec<usize>,
}

/// Whether some entry has a key at the given address.
pub open spec fn has_key(entries: Seq<(IString, IValue)>, addr: usize) -> bool {
    exists|i: int| 0 <= i < entries.len() && (#[trigger] entries[i]).0.spec_addr() == addr
}

/// The place of the entry with a key at the given address, where there is one.
pub open spec fn key_index(entries: Seq<(IString, IValue)>, addr: usize) -> int {
    choose|i: int| 0 <= i < entries.len() && (#[trigger] entries[i]).0.spec_addr() == addr
}

/// Whether no two entries have keys at the same address.
pub open spec fn distinct_keys(entries: Seq<(IString, IValue)>) -> bool {
    forall|i: int, j: int|
        0 <= i < entries.len() && 0 <= j < entries.len() && i != j ==> (#[trigger] entries[i]).0.spec_addr()
            != (#[trigger] entries[j]).0.spec_addr()
}

/// The map from the address of each key to its value.
pub open spec fn to_map(entries: Seq<(IString, IValue)>) -> Map<usize, IValue> {
    Map::new(|addr: usize| has_key(entries, addr), |addr: usize| entries[key_index(entries, addr)].1)
}

/// The entries as pairs of key and value.
pub closed spec fn entries_of(keys: Seq<IString>, values: Seq<IValue>) -> Seq<(IString, IValue)> {
    Seq::new(values.len(), |i: int| (keys[i], values[i]))
}

/// An entry that is added changes the map as an insertion does, where no entry had the
/// key before.
pub proof fn lemma_to_map_push(entries: Seq<(IString, IValue)>, key: IString, value: IValue)
    requires
        distinct_keys(entries),
        !has_key(entries, key.spec_addr()),
    ensures
        distinct_keys(entries.push((key, value))),
        to_map(entries.push((key, value))) == to_map(entries).insert(key.spec_addr(), value),
{
    let after = entries.push((key, value));
    let addr = key.spec_addr();
    assert forall|i: int, j: int| 0 <= i < after.len() && 0 <= j < after.len() && i != j implies (
    #[trigger] after[i]).0.spec_addr() != (#[trigger] after[j]).0.spec_addr() by {
        if i < entries.len() {
            assert(entries[i].0.spec_addr() != addr);
        }
        if j < entries.len() {
            assert(entries[j].0.spec_addr() != addr);
        }
    }
    assert forall|a: usize| has_key(after, a) == (a == addr || has_key(entries, a)) by {
        if has_key(after, a) {
            let i = key_index(after, a);
            if i < entries.len() {
                assert(entries[i].0.spec_addr() == a);
            }
        }
        if a == addr {
            assert(after[entries.len() as int].0.spec_addr() == a);
        }
        if has_key(entries, a) {
            let i = key_index(entries, a);
            assert(after[i].0.spec_addr() == a);
        }
    }
    assert forall|a: usize| has_key(after, a) implies #[trigger] to_map(after)[a] == to_map(
        entries,
    ).insert(addr, value)[a] by {
        let i = key_index(after, a);
        if a != addr {
            let j = key_index(entries, a);
            assert(after[j].0.spec_addr() == a);
            assert(i == j);
        } else {
            assert(after[entries.len() as int].0.spec_addr() == a);
            assert(i == entries.len());
        }
    }
    assert(to_map(after) =~= to_map(entries).insert(addr, value));
}

/// A new value for an entry changes the map as an insertion at the entry's key does.
pub proof fn lemma_to_map_update(entries: Seq<(IString, IValue)>, i: int, value: IValue)
    requires
        distinct_keys(entries),
        0 <= i < entries.len(),
    ensures
        distinct_keys(entries.update(i, (entries[i].0, value))),
        to_map(entries.update(i, (entries[i].0, value))) == to_map(entries).insert(
            entries[i].0.spec_addr(),
            value,
        ),
{
    let after = entries.update(i, (entries[i].0, value));
    let addr = entries[i].0.spec_addr();
    assert forall|x: int, y: int| 0 <= x < after.len() && 0 <= y < after.len() && x != y implies (
    #[trigger] after[x]).0.spec_addr() != (#[trigger] after[y]).0.spec_addr() by {
        assert(entries[x].0.spec_addr() != entries[y].0.spec_addr());
    }
    assert forall|a: usize| has_key(after, a) == has_key(entries, a) by {
        if has_key(after, a) {
            let x = key_index(after, a);
            assert(entries[x].0.spec_addr() == a);
        }
        if has_key(entries, a) {
            let x = key_index(entries, a);
            assert(after[x].0.spec_addr() == a);
        }
    }
    assert(entries[i].0.spec_addr() == addr);
    assert forall|a: usize| has_key(after, a) implies #[trigger] to_map(after)[a] == to_map(
        entries,
    ).insert(addr, value)[a] by {
        let x = key_index(after, a);
        let y = key_index(entries, a);
        assert(entries[x].0.spec_addr() == a);
        assert(x == y);
    }
    assert(to_map(after) =~= to_map(entries).insert(addr, value));
}

/// An entry that leaves, with the last entry in its place, changes the map as a removal
/// of its key does.
pub proof fn lemma_to_map_swap_remove(entries: Seq<(IString, IValue)>, i: int)
    requires
        distinct_keys(entries),
        0 <= i < entries.len(),
    ensures
        distinct_keys(entries.update(i, entries.last()).drop_last()),
        to_map(entries.update(i, entries.last()).drop_last()) == to_map(entries).remove(
            entries[i].0.spec_addr(),
        ),
{
    let after = entries.update(i, entries.last()).drop_last();
    let addr = entries[i].0.spec_addr();
    let last = entries.len() - 1;
    assert forall|x: int, y: int| 0 <= x < after.len() && 0 <= y < after.len() && x != y implies (
    #[trigger] after[x]).0.spec_addr() != (#[trigger] after[y]).0.spec_addr() by {
        let x0 = if x == i {
            last
        } else {
            x
        };
        let y0 = if y == i {
            last
        } else {
            y
        };
        assert(entries[x0].0.spec_addr() != entries[y0].0.spec_addr());
    }
    assert forall|a: usize| has_key(after, a) == (a != addr && has_key(entries, a)) by {
        if has_key(after, a) {
            let x = key_index(after, a);
            let x0 = if x == i {
                last
            } else {
                x
            };
            assert(entries[x0].0.spec_addr() == a);
            if x0 != i {
                assert(entries[x0].0.spec_addr() != entries[i].0.spec_addr());
            }
        }
        if a != addr && has_key(entries, a) {
            let x = key_index(entries, a);
            if x == last {
                assert(after[i].0.spec_addr() == a);
            } else {
                assert(after[x].0.spec_addr() == a);
            }
        }
    }
    assert forall|a: usize| has_key(after, a) implies #[trigger] to_map(after)[a] == to_map(
        entries,
    ).remove(addr)[a] by {
        let x = key_index(after, a);
        let y = key_index(entries, a);
        let x0 = if x == i {
            last
        } else {
            x
        };
        assert(entries[x0].0.spec_addr() == a);
        assert(x0 == y);
    }
    assert(to_map(after) =~= to_map(entries).remove(addr));
}

/// The map after the entries went in, one after another: a later entry with the key of
/// an earlier one takes its place.
pub open spec fn insert_all(map: Map<usize, IValue>, entries: Seq<(IString, IValue)>) -> Map<
    usize,
    IValue,
>
    decreases entries.len(),
{
    if entries.len() == 0 {
        map
    } else {
        insert_all(map, entries.drop_last()).insert(
            entries.last().0.spec_addr(),
            entries.last().1,
        )
    }
}

/// The size of the probe table of an object with room for `cap` entries: a quarter more
/// than the entries.
pub open spec fn spec_hash_capacity(cap: int) -> int {
    cap + cap / 4
}

/// The hash of a key, from the word that stands for the key in a value.
pub open spec fn spec_hash_fn(word: usize) -> usize {
    let p = word >> 2usize;
    let p = p.wrapping_mul(202_529);
    let p = p ^ (p >> 13usize);
    p.wrapping_mul(202_529)
}

/// The bucket at which the probing for a key starts: its hash, reduced to the table.
pub open spec fn spec_hash_bucket(addr: usize, hash_cap: int) -> int {
    spec_hash_fn((addr + 1) as usize) as int % hash_cap
}

/// The size of the probe table of an object with room for `cap` entries.
pub fn hash_capacity(cap: usize) -> (r: usize)
    requires
        spec_hash_capacity(cap as int) <= usize::MAX,
    ensures
        r == spec_hash_capacity(cap as int),
{
    cap + cap / 4
}

/// The hash of a key. It is taken from the key's address, which stands for its text.
pub fn hash_fn(s: &IString) -> (r: usize)
    ensures
        r == spec_hash_fn((s.spec_addr() + 1) as usize),
{
    // We know the bottom two bits are always the same
    let mut p = s.ptr_usize() >> 2;
    p = p.wrapping_mul(202_529);
    p = p ^ (p >> 13);
    p.wrapping_mul(202_529)
}

/// The bucket at which the probing for a key starts.
pub fn hash_bucket(s: &IString, hash_cap: usize) -> (r: usize)
    requires
        hash_cap > 0,
    ensures
        r == spec_hash_bucket(s.spec_addr(), hash_cap as int),
        r < hash_cap,
{
    hash_fn(s) % hash_cap
}

/// The bucket `i` steps after `bucket`, around the end of the table.
pub open spec fn advance(bucket: int, i: int, h: int) -> int {
    if bucket + i >= h {
        bucket + i - h
    } else {
        bucket + i
    }
}

/// The number of steps from `home` to `bucket`, around the end of the table.
pub open spec fn probe_dist(bucket: int, home: int, h: int) -> int {
    if bucket >= home {
        bucket - home
    } else {
        bucket + h - home
    }
}

/// Wrapping around the end of the table by `%` is [`advance`].
proof fn lemma_wrap(bucket: int, i: int, h: int)
    requires
        0 <= bucket < h,
        0 <= i <= h,
    ensures
        (bucket + i) % h == advance(bucket, i, h),
        0 <= advance(bucket, i, h) < h,
{
    if bucket + i >= h {
        vstd::arithmetic::div_mod::lemma_fundamental_div_mod_converse(
            bucket + i,
            h,
            1,
            bucket + i - h,
        );
    } else {
        vstd::arithmetic::div_mod::lemma_fundamental_div_mod_converse(bucket + i, h, 0, bucket + i);
    }
}

/// The addresses of the keys of the entries, in order.
pub closed spec fn keys_of(keys: Seq<IString>) -> Seq<usize> {
    Seq::new(keys.len(), |i: int| keys[i].spec_addr())
}

/// The bucket at which the probing for the occupant of a bucket starts.
pub closed spec fn home_of(keys: Seq<usize>, table: Seq<usize>, b: int) -> int {
    spec_hash_bucket(keys[table[b] as int], table.len() as int)
}

/// How far the occupant of a bucket is from where the probing for it starts.
pub closed spec fn dist_of(keys: Seq<usize>, table: Seq<usize>, b: int) -> int {
    probe_dist(b, home_of(keys, table, b), table.len() as int)
}

/// What holds of each bucket: it is free or holds the index of an entry, and an occupant
/// that is away from its home has an occupant before it that is at most one step less
/// far from its own.
pub closed spec fn bucket_ok(keys: Seq<usize>, table: Seq<usize>, b: int) -> bool {
    let h = table.len() as int;
    let p = advance(b, h - 1, h);
    table[b] != EMPTY ==> {
        &&& table[b] < keys.len()
        &&& dist_of(keys, table, b) > 0 ==> table[p] != EMPTY && dist_of(keys, table, p) + 1
            >= dist_of(keys, table, b)
    }
}

/// Whether some bucket holds the index `i`.
pub closed spec fn placed(table: Seq<usize>, i: int) -> bool {
    exists|b: int| 0 <= b < table.len() && #[trigger] table[b] == i
}

/// The bucket that holds the index `i`.
pub closed spec fn bucket_of(table: Seq<usize>, i: int) -> int {
    choose|b: int| 0 <= b < table.len() && #[trigger] table[b] == i
}

/// Whether two buckets, if they are two and the first is taken, hold different indices.
pub closed spec fn differ(table: Seq<usize>, a: int, b: int) -> bool {
    a != b && table[a] != EMPTY ==> table[a] != table[b]
}

/// Whether a bucket is free or holds an occupant that is at its home.
pub closed spec fn anchor(keys: Seq<usize>, table: Seq<usize>, a: int) -> bool {
    0 <= a < table.len() && (table[a] == EMPTY || dist_of(keys, table, a) == 0)
}

/// Whether a table, if it has buckets, has one that is free or holds an occupant that is
/// at its home.
pub closed spec fn anchored(keys: Seq<usize>, table: Seq<usize>) -> bool {
    table.len() > 0 ==> exists|a: int| #[trigger] anchor(keys, table, a)
}

/// The invariant of the probe table: every bucket is as [`bucket_ok`] says, some bucket
/// is free or holds an occupant at its home, every entry has its index in a bucket, no
/// index is in two buckets, and no two entries have keys at the same address.
pub closed spec fn table_ok(keys: Seq<usize>, table: Seq<usize>) -> bool {
    &&& keys.len() < EMPTY
    &&& anchored(keys, table)
    &&& forall|b: int| 0 <= b < table.len() ==> #[trigger] bucket_ok(keys, table, b)
    &&& forall|i: int| 0 <= i < keys.len() ==> #[trigger] placed(table, i)
    &&& forall|a: int, b: int|
        0 <= a < table.len() && 0 <= b < table.len() ==> #[trigger] differ(table, a, b)
    &&& forall|i: int, j: int|
        0 <= i < keys.len() && 0 <= j < keys.len() && i != j ==> #[trigger] keys[i]
            != #[trigger] keys[j]
}

/// From where the probing for an occupant starts up to the occupant, every bucket is
/// taken, by an occupant at least as far from its home as the bucket is from there.
proof fn lemma_chain(keys: Seq<usize>, table: Seq<usize>, b: int, j: int)
    requires
        table_ok(keys, table),
        0 <= b < table.len(),
        table[b] != EMPTY,
        0 <= j <= dist_of(keys, table, b),
    ensures
        ({
            let h = table.len() as int;
            let c = advance(home_of(keys, table, b), j, h);
            &&& 0 <= c < h
            &&& table[c] != EMPTY
            &&& table[c] < keys.len()
            &&& dist_of(keys, table, c) >= j
        }),
    decreases dist_of(keys, table, b) - j,
{
    let h = table.len() as int;
    let home = home_of(keys, table, b);
    let d = dist_of(keys, table, b);
    assert(bucket_ok(keys, table, b));
    vstd::arithmetic::div_mod::lemma_mod_pos_bound(
        spec_hash_fn((keys[table[b] as int] + 1) as usize) as int,
        h,
    );
    if j == d {
        assert(advance(home, j, h) == b);
    } else {
        lemma_chain(keys, table, b, j + 1);
        let c1 = advance(home, j + 1, h);
        let c = advance(home, j, h);
        assert(0 <= home < h);
        assert(d < h);
        assert(advance(c1, h - 1, h) == c);
        assert(bucket_ok(keys, table, c1));
        assert(table[c] != EMPTY);
        assert(bucket_ok(keys, table, c));
    }
}

/// A table in which every bucket is taken has as many entries as buckets, at least.
proof fn lemma_pigeonhole(table: Seq<usize>, n: int)
    requires
        n >= 0,
        forall|b: int| 0 <= b < table.len() ==> 0 <= #[trigger] table[b] < n,
        forall|a: int, b: int|
            0 <= a < table.len() && 0 <= b < table.len() && a != b ==> #[trigger] table[a]
                != #[trigger] table[b],
    ensures
        table.len() <= n,
    decreases n,
{
    if table.len() == 0 {
    } else if n == 0 {
        assert(table[0] < n);
    } else if exists|b: int| 0 <= b < table.len() && #[trigger] table[b] == n - 1 {
        let b = choose|b: int| 0 <= b < table.len() && #[trigger] table[b] == n - 1;
        let rest = table.remove(b);
        assert forall|c: int| 0 <= c < rest.len() implies 0 <= #[trigger] rest[c] < n - 1 by {
            if c < b {
                assert(rest[c] == table[c]);
            } else {
                assert(rest[c] == table[c + 1]);
            }
        }
        assert forall|a: int, c: int|
            0 <= a < rest.len() && 0 <= c < rest.len() && a != c implies #[trigger] rest[a]
            != #[trigger] rest[c] by {
            let a0 = if a < b {
                a
            } else {
                a + 1
            };
            let c0 = if c < b {
                c
            } else {
                c + 1
            };
            assert(rest[a] == table[a0]);
            assert(rest[c] == table[c0]);
        }
        lemma_pigeonhole(rest, n - 1);
    } else {
        lemma_pigeonhole(table, n - 1);
    }
}

/// A table with more buckets than entries has a free bucket.
proof fn lemma_free_bucket(keys: Seq<usize>, table: Seq<usize>)
    requires
        table_ok(keys, table),
        keys.len() < table.len(),
    ensures
        exists|b: int| 0 <= b < table.len() && #[trigger] table[b] == EMPTY,
{
    if !exists|b: int| 0 <= b < table.len() && #[trigger] table[b] == EMPTY {
        assert forall|b: int| 0 <= b < table.len() implies 0 <= #[trigger] table[b]
            < keys.len() by {
            assert(bucket_ok(keys, table, b));
        }
        assert forall|a: int, b: int|
            0 <= a < table.len() && 0 <= b < table.len() && a != b implies #[trigger] table[a]
            != #[trigger] table[b] by {
            assert(differ(table, a, b));
        }
        lemma_pigeonhole(table, keys.len() as int);
    }
}

/// A number below twice the modulus is reduced by at most one subtraction.
proof fn lemma_mod_small(x: int, h: int)
    requires
        0 <= x < 2 * h,
    ensures
        x % h == if x >= h {
            x - h
        } else {
            x
        },
{
    if x >= h {
        vstd::arithmetic::div_mod::lemma_fundamental_div_mod_converse(x, h, 1, x - h);
    } else {
        vstd::arithmetic::div_mod::lemma_fundamental_div_mod_converse(x, h, 0, x);
    }
}

/// The bucket at which the probing for a key starts is one of the table.
proof fn lemma_home_in_table(addr: usize, h: int)
    requires
        h > 0,
    ensures
        0 <= spec_hash_bucket(addr, h) < h,
{
    vstd::arithmetic::div_mod::lemma_mod_pos_bound(
        spec_hash_fn((addr + 1) as usize) as int,
        h,
    );
}

/// Whether no entry has a key at the given address.
pub closed spec fn absent(keys: Seq<usize>, addr: usize) -> bool {
    forall|i: int| 0 <= i < keys.len() ==> #[trigger] keys[i] != addr
}

/// Whether the probing for a key has passed a bucket: the bucket is taken, by another
/// key that is at least as far from its home as the bucket is from the key's.
pub closed spec fn passed(keys: Seq<usize>, table: Seq<usize>, addr: usize, j: int) -> bool {
    let h = table.len() as int;
    let c = advance(spec_hash_bucket(addr, h), j, h);
    &&& table[c] != EMPTY
    &&& keys[table[c] as int] != addr
    &&& dist_of(keys, table, c) >= j
}

/// Whether a bucket is where a key that the table lacks goes: the probing for the key
/// has passed every bucket before it, and the bucket is free or holds an occupant that
/// is nearer to its home than the bucket is to the key's.
pub closed spec fn insertion_point(
    keys: Seq<usize>,
    table: Seq<usize>,
    addr: usize,
    b: int,
) -> bool {
    let h = table.len() as int;
    let i = probe_dist(b, spec_hash_bucket(addr, h), h);
    &&& 0 <= b < h
    &&& table[b] == EMPTY || dist_of(keys, table, b) < i
    &&& forall|j: int| 0 <= j < i ==> #[trigger] passed(keys, table, addr, j)
}

/// A key that the probing has not met before a bucket, and that the bucket shows not to
/// be further on, is not in the table.
proof fn lemma_probe_miss(keys: Seq<usize>, table: Seq<usize>, addr: usize, i: int, idx: int)
    requires
        table_ok(keys, table),
        table.len() > 0,
        0 <= i <= table.len(),
        forall|j: int| 0 <= j < i ==> #[trigger] passed(keys, table, addr, j),
        i < table.len() ==> ({
            let c = advance(spec_hash_bucket(addr, table.len() as int), i, table.len() as int);
            ||| table[c] == EMPTY
            ||| keys[table[c] as int] != addr && dist_of(keys, table, c) < i
        }),
        0 <= idx < keys.len(),
    ensures
        keys[idx] != addr,
{
    let h = table.len() as int;
    let home = spec_hash_bucket(addr, h);
    lemma_home_in_table(addr, h);
    if keys[idx] == addr {
        assert(placed(table, idx));
        let bk = bucket_of(table, idx);
        assert(bucket_ok(keys, table, bk));
        let dk = dist_of(keys, table, bk);
        assert(home_of(keys, table, bk) == home);
        assert(advance(home, dk, h) == bk);
        if dk < i {
            assert(passed(keys, table, addr, dk));
        } else {
            lemma_chain(keys, table, bk, i);
        }
    }
}

/// The entries and the probe table of an object, to read.
pub struct SplitHeader<'a> {
    cap: usize,
    keys: &'a Vec<IString>,
    table: &'a Vec<usize>,
}

/// What makes entries and a probe table those of an object with room for `cap` entries.
pub closed spec fn parts_ok(cap: usize, keys: Seq<IString>, table: Seq<usize>) -> bool {
    &&& IObject::fits(cap as int)
    &&& keys.len() <= cap
    &&& table.len() == spec_hash_capacity(cap as int)
    &&& table_ok(keys_of(keys), table)
}

impl<'a> SplitHeader<'a> {
    /// The addresses of the keys of the entries.
    pub closed spec fn addrs(&self) -> Seq<usize> {
        keys_of(self.keys@)
    }

    /// The parts are those of an object.
    pub closed spec fn wf(&self) -> bool {
        parts_ok(self.cap, self.keys@, self.table@)
    }

    /// Looks for a key in the probe table. Gives the bucket that holds the key's entry,
    /// or, where no entry has the key, the bucket at which it would go in; a table
    /// without a free bucket may have no such place.
    fn find_bucket(&self, key: &IString) -> (r: Result<usize, usize>)
        requires
            self.wf(),
            self.cap > 0,
        ensures
            match r {
                Ok(bucket) => {
                    &&& bucket < self.table@.len()
                    &&& self.table@[bucket as int] < self.keys@.len()
                    &&& self.addrs()[self.table@[bucket as int] as int] == key.spec_addr()
                },
                Err(bucket) => {
                    &&& absent(self.addrs(), key.spec_addr())
                    &&& bucket == EMPTY || insertion_point(
                        self.addrs(),
                        self.table@,
                        key.spec_addr(),
                        bucket as int,
                    )
                    &&& self.keys@.len() < self.table@.len() ==> bucket != EMPTY
                },
            },
    {
        proof {
            IObject::lemma_fits_bounds(self.cap as int);
        }
        let hash_cap = hash_capacity(self.cap);
        let initial_bucket = hash_bucket(key, hash_cap);
        let ghost keys = self.addrs();
        let ghost table = self.table@;
        let ghost addr = key.spec_addr();
        let ghost h = hash_cap as int;
        let mut i: usize = 0;
        while i < hash_cap
            invariant
                self.wf(),
                keys == self.addrs(),
                table == self.table@,
                addr == key.spec_addr(),
                h == hash_cap,
                h == table.len(),
                h > 0,
                2 * h <= usize::MAX,
                initial_bucket == spec_hash_bucket(addr, h),
                0 <= initial_bucket < h,
                i <= hash_cap,
                forall|j: int| 0 <= j < i ==> #[trigger] passed(keys, table, addr, j),
            decreases hash_cap - i,
        {
            let bucket = (initial_bucket + i) % hash_cap;
            proof {
                lemma_wrap(initial_bucket as int, i as int, h);
            }
            let index = self.table[bucket];

            // If we hit an empty bucket, we know the key is not present
            if index == EMPTY {
                proof {
                    assert forall|idx: int| 0 <= idx < keys.len() implies #[trigger] keys[idx]
                        != addr by {
                        lemma_probe_miss(keys, table, addr, i as int, idx);
                    }
                }
                return Err(bucket);
            }
            proof {
                assert(bucket_ok(keys, table, bucket as int));
            }

            // If the bucket contains our key, we found the bucket
            let k = &self.keys[index];
            if k == key {
                return Ok(bucket);
            }
            // If the bucket contains a different key, and its probe length is less than
            // ours, then we know our key is not present or we would have evicted this one.

            let home = hash_bucket(k, hash_cap);
            let key_dist = (bucket + hash_cap - home) % hash_cap;
            proof {
                lemma_mod_small(bucket + hash_cap - home, h);
                assert(key_dist == dist_of(keys, table, bucket as int));
            }
            if key_dist < i {
                proof {
                    assert forall|idx: int| 0 <= idx < keys.len() implies #[trigger] keys[idx]
                        != addr by {
                        lemma_probe_miss(keys, table, addr, i as int, idx);
                    }
                }
                return Err(bucket);
            }
            proof {
                assert(passed(keys, table, addr, i as int));
            }
            i += 1;
        }
        proof {
            assert forall|idx: int| 0 <= idx < keys.len() implies #[trigger] keys[idx] != addr by {
                lemma_probe_miss(keys, table, addr, h, idx);
            }
            if keys.len() < h {
                lemma_free_bucket(keys, table);
                let e = choose|e: int| 0 <= e < table.len() && #[trigger] table[e] == EMPTY;
                assert(passed(keys, table, addr, probe_dist(e, initial_bucket as int, h)));
            }
        }
        Err(EMPTY)
    }

    /// The bucket that holds the index of an entry.
    fn find_bucket_from_index(&self, index: usize) -> (r: usize)
        requires
            IObject::fits(self.cap as int),
            self.cap > 0,
            self.table@.len() == spec_hash_capacity(self.cap as int),
            index < self.keys@.len(),
            placed(self.table@, index as int),
        ensures
            r < self.table@.len(),
            self.table@[r as int] == index,
    {
        let ghost keys = self.addrs();
        let ghost table = self.table@;
        proof {
            IObject::lemma_fits_bounds(self.cap as int);
        }
        let hash_cap = hash_capacity(self.cap);
        let key = &self.keys[index];
        let mut bucket = hash_bucket(key, hash_cap);
        let ghost h = hash_cap as int;
        let ghost home = bucket as int;
        let ghost j: int = 0;
        let ghost bk = bucket_of(table, index as int);
        proof {
            assert(home_of(keys, table, bk) == home);
        }
        // We don't bother with any early exit conditions, because
        // we know the item is present.
        while self.table[bucket] != index
            invariant
                keys == self.addrs(),
                table == self.table@,
                h == hash_cap,
                h == table.len(),
                h > 0,
                2 * h <= usize::MAX,
                0 <= home < h,
                0 <= bk < h,
                table[bk] == index,
                home_of(keys, table, bk) == home,
                0 <= j <= dist_of(keys, table, bk),
                bucket == advance(home, j, h),
                bucket < hash_cap,
            decreases dist_of(keys, table, bk) - j,
        {
            proof {
                lemma_wrap(bucket as int, 1, h);
                assert(advance(home, dist_of(keys, table, bk), h) == bk);
            }
            bucket = (bucket + 1) % hash_cap;
            proof {
                j = j + 1;
            }
        }
        bucket
    }
}

/// The probe table after an index went in at the bucket `b0` and the occupants of the
/// first `n` buckets from there moved one bucket on.
pub closed spec fn partial_shift(table0: Seq<usize>, b0: int, index: usize, n: int) -> Seq<
    usize,
> {
    let h = table0.len() as int;
    Seq::new(
        table0.len(),
        |c: int|
            {
                let j = probe_dist(c, b0, h);
                if j >= n {
                    table0[c]
                } else if j == 0 {
                    index
                } else {
                    table0[advance(c, h - 1, h)]
                }
            },
    )
}

/// An occupant is less than a whole table away from its home while a bucket is free.
proof fn lemma_dist_below(keys: Seq<usize>, table: Seq<usize>, b: int, e: int)
    requires
        table_ok(keys, table),
        0 <= b < table.len(),
        table[b] != EMPTY,
        0 <= e < table.len(),
        table[e] == EMPTY,
    ensures
        0 <= home_of(keys, table, b) < table.len(),
        0 <= dist_of(keys, table, b) < probe_dist(e, home_of(keys, table, b), table.len() as int),
{
    let h = table.len() as int;
    assert(bucket_ok(keys, table, b));
    lemma_home_in_table(keys[table[b] as int], h);
    let home = home_of(keys, table, b);
    let de = probe_dist(e, home, h);
    if dist_of(keys, table, b) >= de {
        lemma_chain(keys, table, b, de);
        assert(advance(home, de, h) == e);
    }
}

/// What holds before a new entry's index goes into the table: the table is in order for
/// the entries before it, none of which has its key; `b0` is where the key goes; and the
/// first free bucket from there is `n - 1` buckets on.
pub closed spec fn shift_pre(
    keys0: Seq<usize>,
    table0: Seq<usize>,
    addr: usize,
    b0: int,
    n: int,
) -> bool {
    &&& table_ok(keys0, table0)
    &&& absent(keys0, addr)
    &&& insertion_point(keys0, table0, addr, b0)
    &&& keys0.len() + 1 < EMPTY
    &&& 1 <= n <= table0.len()
    &&& forall|j: int|
        0 <= j < n - 1 ==> table0[#[trigger] advance(b0, j, table0.len() as int)] != EMPTY
    &&& table0[advance(b0, n - 1, table0.len() as int)] == EMPTY
}

/// After the move every bucket is as [`bucket_ok`] says.
proof fn lemma_shift_buckets(keys0: Seq<usize>, table0: Seq<usize>, addr: usize, b0: int, n: int)
    requires
        shift_pre(keys0, table0, addr, b0, n),
    ensures
        forall|c: int|
            0 <= c < table0.len() ==> #[trigger] bucket_ok(
                keys0.push(addr),
                partial_shift(table0, b0, keys0.len() as usize, n),
                c,
            ),
{
    let h = table0.len() as int;
    let keys = keys0.push(addr);
    let ni = keys0.len() as usize;
    let t = partial_shift(table0, b0, ni, n);
    let e = advance(b0, n - 1, h);
    let home = spec_hash_bucket(addr, h);
    lemma_home_in_table(addr, h);
    let i0 = probe_dist(b0, home, h);
    assert forall|c: int| 0 <= c < h implies #[trigger] bucket_ok(keys, t, c) by {
        let j = probe_dist(c, b0, h);
        let p = advance(c, h - 1, h);
        let jp = probe_dist(p, b0, h);
        if j >= n {
            assert(bucket_ok(keys0, table0, c));
            if table0[c] != EMPTY {
                assert(keys[t[c] as int] == keys0[table0[c] as int]);
                assert(dist_of(keys, t, c) == dist_of(keys0, table0, c));
                if dist_of(keys0, table0, c) > 0 {
                    assert(table0[p] != EMPTY);
                    assert(jp >= n);
                    assert(bucket_ok(keys0, table0, p));
                    assert(dist_of(keys, t, p) == dist_of(keys0, table0, p));
                }
            }
        } else if j == 0 {
            assert(t[c] == ni);
            assert(dist_of(keys, t, c) == i0);
            if i0 > 0 {
                assert(passed(keys0, table0, addr, i0 - 1));
                assert(advance(home, i0 - 1, h) == p);
                assert(jp >= n);
                assert(bucket_ok(keys0, table0, p));
                assert(dist_of(keys, t, p) == dist_of(keys0, table0, p));
            }
        } else {
            // the occupant came from the bucket before
            assert(advance(b0, j - 1, h) == p);
            assert(table0[p] != EMPTY);
            assert(bucket_ok(keys0, table0, p));
            lemma_dist_below(keys0, table0, p, e);
            let d = dist_of(keys0, table0, p);
            assert(keys[t[c] as int] == keys0[table0[p] as int]);
            assert(dist_of(keys, t, c) == d + 1);
            if j == 1 {
                assert(p == b0);
                assert(t[p] == ni);
                assert(dist_of(keys, t, p) == i0);
            } else {
                let pp = advance(p, h - 1, h);
                assert(advance(b0, j - 2, h) == pp);
                assert(table0[pp] != EMPTY);
                assert(bucket_ok(keys0, table0, pp));
                lemma_dist_below(keys0, table0, pp, e);
                assert(keys[t[p] as int] == keys0[table0[pp] as int]);
                assert(dist_of(keys, t, p) == dist_of(keys0, table0, pp) + 1);
            }
        }
    }
}

/// After the move some bucket is free or holds an occupant at its home.
proof fn lemma_shift_anchor(keys0: Seq<usize>, table0: Seq<usize>, addr: usize, b0: int, n: int)
    requires
        shift_pre(keys0, table0, addr, b0, n),
    ensures
        anchored(keys0.push(addr), partial_shift(table0, b0, keys0.len() as usize, n)),
{
    let h = table0.len() as int;
    let keys = keys0.push(addr);
    let ni = keys0.len() as usize;
    let t = partial_shift(table0, b0, ni, n);
    let e = advance(b0, n - 1, h);
    let home = spec_hash_bucket(addr, h);
    lemma_home_in_table(addr, h);
    let i0 = probe_dist(b0, home, h);
    assert(anchored(keys, t)) by {
        let a0 = choose|a: int| #[trigger] anchor(keys0, table0, a);
        assert(anchor(keys0, table0, a0));
        let ja = probe_dist(a0, b0, h);
        if ja >= n {
            // untouched by the move
            assert(t[a0] == table0[a0]);
            if table0[a0] != EMPTY {
                assert(bucket_ok(keys0, table0, a0));
                assert(keys[t[a0] as int] == keys0[table0[a0] as int]);
            }
            assert(anchor(keys, t, a0));
        } else if n == h {
            // the free bucket was the one before the insertion point
            if i0 > 0 {
                assert(passed(keys0, table0, addr, i0 - 1));
                assert(advance(home, i0 - 1, h) == e);
            }
            assert(dist_of(keys, t, b0) == i0);
            assert(anchor(keys, t, b0));
        } else {
            // the bucket after the free one
            let f = advance(b0, n, h);
            assert(probe_dist(f, b0, h) == n);
            assert(t[f] == table0[f]);
            assert(advance(f, h - 1, h) == e);
            if table0[f] != EMPTY {
                assert(bucket_ok(keys0, table0, f));
                assert(keys[t[f] as int] == keys0[table0[f] as int]);
                assert(dist_of(keys0, table0, f) == 0);
            }
            assert(anchor(keys, t, f));
        }
    }
}

/// After the move every entry has its index in a bucket.
proof fn lemma_shift_placed(keys0: Seq<usize>, table0: Seq<usize>, addr: usize, b0: int, n: int)
    requires
        shift_pre(keys0, table0, addr, b0, n),
    ensures
        forall|i: int|
            0 <= i <= keys0.len() ==> #[trigger] placed(
                partial_shift(table0, b0, keys0.len() as usize, n),
                i,
            ),
{
    let h = table0.len() as int;
    let keys = keys0.push(addr);
    let ni = keys0.len() as usize;
    let t = partial_shift(table0, b0, ni, n);
    let e = advance(b0, n - 1, h);
    let home = spec_hash_bucket(addr, h);
    lemma_home_in_table(addr, h);
    let i0 = probe_dist(b0, home, h);
    assert forall|i: int| 0 <= i <= keys0.len() implies #[trigger] placed(t, i) by {
        if i == ni {
            assert(t[b0] == i);
        } else {
            assert(placed(table0, i));
            let bo = bucket_of(table0, i);
            let jo = probe_dist(bo, b0, h);
            if jo >= n {
                assert(t[bo] == i);
            } else {
                let c = advance(bo, 1, h);
                assert(probe_dist(c, b0, h) == jo + 1);
                assert(advance(c, h - 1, h) == bo);
                assert(t[c] == i);
            }
        }
    }
}

/// After the move no index is in two buckets.
proof fn lemma_shift_differ(keys0: Seq<usize>, table0: Seq<usize>, addr: usize, b0: int, n: int)
    requires
        shift_pre(keys0, table0, addr, b0, n),
    ensures
        forall|a: int, b: int|
            0 <= a < table0.len() && 0 <= b < table0.len() ==> #[trigger] differ(
                partial_shift(table0, b0, keys0.len() as usize, n),
                a,
                b,
            ),
{
    let h = table0.len() as int;
    let keys = keys0.push(addr);
    let ni = keys0.len() as usize;
    let t = partial_shift(table0, b0, ni, n);
    let e = advance(b0, n - 1, h);
    let home = spec_hash_bucket(addr, h);
    lemma_home_in_table(addr, h);
    let i0 = probe_dist(b0, home, h);
    assert forall|a: int, b: int| 0 <= a < h && 0 <= b < h implies #[trigger] differ(t, a, b) by {
        let ja = probe_dist(a, b0, h);
        let jb = probe_dist(b, b0, h);
        let sa = if ja >= n || ja == 0 {
            a
        } else {
            advance(a, h - 1, h)
        };
        let sb = if jb >= n || jb == 0 {
            b
        } else {
            advance(b, h - 1, h)
        };
        assert(bucket_ok(keys0, table0, sa));
        assert(bucket_ok(keys0, table0, sb));
        if a != b && t[a] != EMPTY {
            if ja == 0 {
            } else if jb == 0 {
            } else {
                assert(differ(table0, sa, sb));
            }
        }
    }
}

/// Putting a new entry's index in at its insertion point, and moving the occupants from
/// there up to the first free bucket one bucket on, keeps the table's invariant.
proof fn lemma_shift_ok(keys0: Seq<usize>, table0: Seq<usize>, addr: usize, b0: int, n: int)
    requires
        shift_pre(keys0, table0, addr, b0, n),
    ensures
        table_ok(keys0.push(addr), partial_shift(table0, b0, keys0.len() as usize, n)),
{
    let keys = keys0.push(addr);
    lemma_shift_buckets(keys0, table0, addr, b0, n);
    lemma_shift_anchor(keys0, table0, addr, b0, n);
    lemma_shift_placed(keys0, table0, addr, b0, n);
    lemma_shift_differ(keys0, table0, addr, b0, n);
    assert forall|i: int, j: int|
        0 <= i < keys.len() && 0 <= j < keys.len() && i != j implies #[trigger] keys[i]
        != #[trigger] keys[j] by {
        if i < keys0.len() && j < keys0.len() {
            assert(keys0[i] != keys0[j]);
        }
    }
}

/// The probe table after the occupant of the bucket `b` left and the occupants of the
/// next `n` buckets moved one bucket back.
pub closed spec fn partial_unshift(table0: Seq<usize>, b: int, n: int) -> Seq<usize> {
    let h = table0.len() as int;
    Seq::new(
        table0.len(),
        |c: int|
            {
                let j = probe_dist(c, b, h);
                if j < n {
                    table0[advance(c, 1, h)]
                } else if j == n {
                    EMPTY
                } else {
                    table0[c]
                }
            },
    )
}

/// Whether the occupant of the bucket `j` steps after `b` is away from its home.
pub closed spec fn displaced(keys: Seq<usize>, table: Seq<usize>, b: int, j: int) -> bool {
    let c = advance(b, j, table.len() as int);
    table[c] != EMPTY && dist_of(keys, table, c) > 0
}

/// What holds when the occupant of a bucket leaves a table in order: the occupants of
/// the next `n` buckets are away from their homes, and the bucket after them, if it is
/// not the one that is left, is free or holds an occupant at its home.
pub closed spec fn unshift_pre(keys: Seq<usize>, table0: Seq<usize>, b: int, n: int) -> bool {
    let h = table0.len() as int;
    &&& table_ok(keys, table0)
    &&& 0 <= b < h
    &&& table0[b] != EMPTY
    &&& 0 <= n < h
    &&& forall|j: int| 1 <= j <= n ==> #[trigger] displaced(keys, table0, b, j)
    &&& n + 1 < h ==> !displaced(keys, table0, b, n + 1)
}

/// Whether a bucket does not hold the index `r`.
pub closed spec fn free_of(table: Seq<usize>, b: int, r: int) -> bool {
    table[b] != r
}

/// The invariant of the probe table while the entry `r` has left the table and is still
/// among the entries.
pub closed spec fn table_ok_without(keys: Seq<usize>, table: Seq<usize>, r: int) -> bool {
    &&& keys.len() < EMPTY
    &&& 0 <= r < keys.len()
    &&& anchored(keys, table)
    &&& forall|b: int| 0 <= b < table.len() ==> #[trigger] bucket_ok(keys, table, b)
    &&& forall|b: int| 0 <= b < table.len() ==> #[trigger] free_of(table, b, r)
    &&& forall|i: int| 0 <= i < keys.len() && i != r ==> #[trigger] placed(table, i)
    &&& forall|a: int, b: int|
        0 <= a < table.len() && 0 <= b < table.len() ==> #[trigger] differ(table, a, b)
    &&& forall|i: int, j: int|
        0 <= i < keys.len() && 0 <= j < keys.len() && i != j ==> #[trigger] keys[i]
            != #[trigger] keys[j]
}

/// After the move back every bucket is as [`bucket_ok`] says.
proof fn lemma_unshift_buckets(keys: Seq<usize>, table0: Seq<usize>, b: int, n: int)
    requires
        unshift_pre(keys, table0, b, n),
    ensures
        forall|c: int|
            0 <= c < table0.len() ==> #[trigger] bucket_ok(keys, partial_unshift(table0, b, n), c),
{
    let h = table0.len() as int;
    let t = partial_unshift(table0, b, n);
    assert forall|c: int| 0 <= c < h implies #[trigger] bucket_ok(keys, t, c) by {
        let j = probe_dist(c, b, h);
        let p = advance(c, h - 1, h);
        let jp = probe_dist(p, b, h);
        if j < n {
            // the occupant came from the bucket after
            let s = advance(c, 1, h);
            assert(advance(b, j + 1, h) == s);
            assert(displaced(keys, table0, b, j + 1));
            assert(bucket_ok(keys, table0, s));
            assert(advance(s, h - 1, h) == c);
            lemma_home_in_table(keys[table0[s] as int], h);
            let d = dist_of(keys, table0, s);
            assert(dist_of(keys, t, c) == d - 1);
            if d - 1 > 0 {
                if j >= 1 {
                    assert(advance(b, j, h) == c);
                    assert(displaced(keys, table0, b, j));
                    assert(t[p] == table0[c]);
                    lemma_home_in_table(keys[table0[c] as int], h);
                    assert(dist_of(keys, t, p) == dist_of(keys, table0, c) - 1);
                } else {
                    assert(c == b);
                    assert(bucket_ok(keys, table0, b));
                    lemma_home_in_table(keys[table0[b] as int], h);
                    let dr = dist_of(keys, table0, b);
                    if dr > 0 {
                        if n == h - 1 {
                            // every other occupant is away from its home, so the one that
                            // left was the anchor
                            let a0 = choose|a: int| #[trigger] anchor(keys, table0, a);
                            assert(anchor(keys, table0, a0));
                            let ja = probe_dist(a0, b, h);
                            if ja >= 1 {
                                assert(advance(b, ja, h) == a0);
                                assert(displaced(keys, table0, b, ja));
                            }
                        } else {
                            assert(jp > n);
                            assert(t[p] == table0[p]);
                            assert(bucket_ok(keys, table0, p));
                        }
                    }
                }
            }
        } else if j == n {
        } else {
            assert(bucket_ok(keys, table0, c));
            if table0[c] != EMPTY && dist_of(keys, table0, c) > 0 {
                assert(advance(b, j, h) == c);
                if j == n + 1 {
                    assert(displaced(keys, table0, b, n + 1));
                } else {
                    assert(jp > n);
                    assert(t[p] == table0[p]);
                }
            }
        }
    }
}

/// After the move back no bucket holds the index that left, every other entry has its
/// index in a bucket, and no index is in two buckets.
proof fn lemma_unshift_indices(keys: Seq<usize>, table0: Seq<usize>, b: int, n: int)
    requires
        unshift_pre(keys, table0, b, n),
    ensures
        forall|c: int|
            0 <= c < table0.len() ==> #[trigger] free_of(
                partial_unshift(table0, b, n),
                c,
                table0[b] as int,
            ),
        forall|i: int|
            0 <= i < keys.len() && i != table0[b] ==> #[trigger] placed(
                partial_unshift(table0, b, n),
                i,
            ),
        forall|x: int, y: int|
            0 <= x < table0.len() && 0 <= y < table0.len() ==> #[trigger] differ(
                partial_unshift(table0, b, n),
                x,
                y,
            ),
{
    let h = table0.len() as int;
    let t = partial_unshift(table0, b, n);
    let r = table0[b] as int;
    assert forall|c: int| 0 <= c < h implies #[trigger] free_of(t, c, r) by {
        let j = probe_dist(c, b, h);
        let s = if j < n {
            advance(c, 1, h)
        } else {
            c
        };
        assert(differ(table0, b, s));
    }
    assert forall|i: int| 0 <= i < keys.len() && i != r implies #[trigger] placed(t, i) by {
        assert(placed(table0, i));
        let bo = bucket_of(table0, i);
        let jo = probe_dist(bo, b, h);
        if jo > n {
            assert(t[bo] == i);
        } else {
            let c = advance(bo, h - 1, h);
            assert(probe_dist(c, b, h) == jo - 1);
            assert(advance(c, 1, h) == bo);
            assert(t[c] == i);
        }
    }
    assert forall|x: int, y: int| 0 <= x < h && 0 <= y < h implies #[trigger] differ(t, x, y) by {
        let jx = probe_dist(x, b, h);
        let jy = probe_dist(y, b, h);
        let sx = if jx < n {
            advance(x, 1, h)
        } else {
            x
        };
        let sy = if jy < n {
            advance(y, 1, h)
        } else {
            y
        };
        if x != y && t[x] != EMPTY {
            if jy == n {
                assert(bucket_ok(keys, table0, sx));
            } else {
                assert(differ(table0, sx, sy));
            }
        }
    }
}

/// Letting the occupant of a bucket leave, and moving the occupants after it that are
/// away from their homes one bucket back, keeps the table's invariant for the entries
/// that stay.
proof fn lemma_unshift_ok(keys: Seq<usize>, table0: Seq<usize>, b: int, n: int)
    requires
        unshift_pre(keys, table0, b, n),
    ensures
        table_ok_without(keys, partial_unshift(table0, b, n), table0[b] as int),
{
    let h = table0.len() as int;
    let t = partial_unshift(table0, b, n);
    lemma_unshift_buckets(keys, table0, b, n);
    lemma_unshift_indices(keys, table0, b, n);
    assert(bucket_ok(keys, table0, b));
    let e = advance(b, n, h);
    assert(probe_dist(e, b, h) == n);
    assert(anchor(keys, t, e));
}

/// Giving the index of the entry that left to the last entry, which takes its place,
/// puts the table in order for the entries that stay.
proof fn lemma_fill_gap(keys: Seq<usize>, table: Seq<usize>, r: int, bl: int)
    requires
        table_ok_without(keys, table, r),
        r != keys.len() - 1,
        0 <= bl < table.len(),
        table[bl] == keys.len() - 1,
    ensures
        table_ok(keys.update(r, keys.last()).drop_last(), table.update(bl, r as usize)),
{
    let h = table.len() as int;
    let last = keys.len() - 1;
    let keys2 = keys.update(r, keys.last()).drop_last();
    let t = table.update(bl, r as usize);
    assert forall|c: int| 0 <= c < h implies #[trigger] bucket_ok(keys2, t, c) by {
        let p = advance(c, h - 1, h);
        assert(bucket_ok(keys, table, c));
        assert(bucket_ok(keys, table, p));
        assert(free_of(table, c, r));
        assert(free_of(table, p, r));
        assert(differ(table, bl, c));
        assert(differ(table, bl, p));
        if table[c] != EMPTY {
            assert(keys2[t[c] as int] == keys[table[c] as int]);
            if table[p] != EMPTY {
                assert(keys2[t[p] as int] == keys[table[p] as int]);
            }
        }
    }
    assert(anchored(keys2, t)) by {
        let a0 = choose|a: int| #[trigger] anchor(keys, table, a);
        assert(anchor(keys, table, a0));
        assert(bucket_ok(keys, table, a0));
        assert(free_of(table, a0, r));
        assert(differ(table, bl, a0));
        if table[a0] != EMPTY {
            assert(keys2[t[a0] as int] == keys[table[a0] as int]);
        }
        assert(anchor(keys2, t, a0));
    }
    assert forall|i: int| 0 <= i < keys2.len() implies #[trigger] placed(t, i) by {
        if i == r {
            assert(t[bl] == i);
        } else {
            assert(placed(table, i));
            let bo = bucket_of(table, i);
            assert(t[bo] == i);
        }
    }
    assert forall|x: int, y: int| 0 <= x < h && 0 <= y < h implies #[trigger] differ(t, x, y) by {
        assert(differ(table, x, y));
        assert(free_of(table, x, r));
        assert(free_of(table, y, r));
    }
    assert forall|i: int, j: int|
        0 <= i < keys2.len() && 0 <= j < keys2.len() && i != j implies #[trigger] keys2[i]
        != #[trigger] keys2[j] by {
        let i0 = if i == r {
            last
        } else {
            i
        };
        let j0 = if j == r {
            last
        } else {
            j
        };
        assert(keys[i0] != keys[j0]);
    }
}

/// Where the entry that left was the last one, the table is in order for the entries
/// that stay.
proof fn lemma_drop_last(keys: Seq<usize>, table: Seq<usize>)
    requires
        table_ok_without(keys, table, keys.len() - 1),
    ensures
        table_ok(keys.drop_last(), table),
{
    let h = table.len() as int;
    let r = keys.len() - 1;
    let keys2 = keys.drop_last();
    assert forall|c: int| 0 <= c < h implies #[trigger] bucket_ok(keys2, table, c) by {
        let p = advance(c, h - 1, h);
        assert(bucket_ok(keys, table, c));
        assert(bucket_ok(keys, table, p));
        assert(free_of(table, c, r));
        assert(free_of(table, p, r));
        if table[c] != EMPTY {
            assert(keys2[table[c] as int] == keys[table[c] as int]);
            assert(dist_of(keys2, table, c) == dist_of(keys, table, c));
            if table[p] != EMPTY {
                assert(keys2[table[p] as int] == keys[table[p] as int]);
                assert(dist_of(keys2, table, p) == dist_of(keys, table, p));
            }
        }
    }
    if h > 0 {
        let a0 = choose|a: int| #[trigger] anchor(keys, table, a);
        assert(anchor(keys, table, a0));
        assert(bucket_ok(keys, table, a0));
        assert(free_of(table, a0, r));
        if table[a0] != EMPTY {
            assert(keys2[table[a0] as int] == keys[table[a0] as int]);
            assert(dist_of(keys2, table, a0) == dist_of(keys, table, a0));
        }
        assert(anchor(keys2, table, a0));
    }
    assert forall|i: int| 0 <= i < keys2.len() implies #[trigger] placed(table, i) by {
        assert(i != r);
    }
    assert forall|x: int, y: int| 0 <= x < h && 0 <= y < h implies #[trigger] differ(
        table,
        x,
        y,
    ) by {}
    assert forall|i: int, j: int|
        0 <= i < keys2.len() && 0 <= j < keys2.len() && i != j implies #[trigger] keys2[i]
        != #[trigger] keys2[j] by {
        assert(keys2[i] == keys[i]);
        assert(keys2[j] == keys[j]);
        assert(keys[i] != keys[j]);
    }
}

/// The entries and the probe table of an object, to change. They need not be in step
/// while a change is under way.
pub struct SplitHeaderMut {
    cap: usize,
    keys: Vec<IString>,
    values: Vec<IValue>,
    table: Vec<usize>,
}

impl SplitHeaderMut {
    /// The addresses of the keys of the entries.
    pub closed spec fn addrs(&self) -> Seq<usize> {
        keys_of(self.keys@)
    }

    /// The parts are those of an object.
    pub closed spec fn wf(&self) -> bool {
        parts_ok(self.cap, self.keys@, self.table@) && self.values@.len() == self.keys@.len()
    }

    /// The parts, to read.
    fn as_ref(&self) -> (r: SplitHeader<'_>)
        ensures
            r.cap == self.cap,
            r.keys@ == self.keys@,
            r.table@ == self.table@,
            self.wf() ==> r.wf(),
    {
        SplitHeader { cap: self.cap, keys: &self.keys, table: &self.table }
    }

    /// Inserts an index into the table, shifting existing elements down until
    /// there's an empty slot. The index is that of the entry that was pushed last, and
    /// the bucket is where its key goes.
    fn shift(&mut self, initial_bucket: usize, index: usize)
        requires
            old(self).keys@.len() > 0,
            old(self).values@.len() == old(self).keys@.len(),
            index == old(self).keys@.len() - 1,
            parts_ok(old(self).cap, old(self).keys@.drop_last(), old(self).table@),
            old(self).keys@.len() <= old(self).cap,
            absent(old(self).addrs().drop_last(), old(self).addrs().last()),
            insertion_point(
                old(self).addrs().drop_last(),
                old(self).table@,
                old(self).addrs().last(),
                initial_bucket as int,
            ),
        ensures
            final(self).wf(),
            final(self).cap == old(self).cap,
            final(self).keys == old(self).keys,
            final(self).values == old(self).values,
    {
        proof {
            IObject::lemma_fits_bounds(self.cap as int);
        }
        let hash_cap = hash_capacity(self.cap);
        let ghost table0 = self.table@;
        let ghost keys0 = self.addrs().drop_last();
        let ghost addr = self.addrs().last();
        let ghost h = hash_cap as int;
        let ghost b0 = initial_bucket as int;
        proof {
            assert(keys_of(self.keys@.drop_last()) =~= keys0);
            assert(keys0.push(addr) =~= self.addrs());
            assert(self.table@ =~= partial_shift(table0, b0, index, 0));
        }
        let mut index = index;
        let mut i: usize = 0;
        while i < hash_cap && index != EMPTY
            invariant
                self.cap == old(self).cap,
                self.keys == old(self).keys,
                self.values == old(self).values,
                table_ok(keys0, table0),
                h == hash_cap,
                h == table0.len(),
                2 * h <= usize::MAX,
                0 <= b0 < h,
                b0 == initial_bucket,
                keys0.len() < h,
                i <= hash_cap,
                self.table@ == partial_shift(table0, b0, keys0.len() as usize, i as int),
                index == if i == 0 {
                    keys0.len() as usize
                } else {
                    table0[advance(b0, i - 1, h)]
                },
                forall|j: int| 0 <= j < i - 1 ==> table0[#[trigger] advance(b0, j, h)] != EMPTY,
            decreases hash_cap - i,
        {
            let bucket = (initial_bucket + i) % hash_cap;
            proof {
                lemma_wrap(b0, i as int, h);
            }
            let displaced = self.table[bucket];
            self.table[bucket] = index;
            index = displaced;
            proof {
                assert(self.table@ =~= partial_shift(table0, b0, keys0.len() as usize, i + 1));
            }
            i += 1;
        }
        proof {
            if index != EMPTY {
                lemma_free_bucket(keys0, table0);
                let e = choose|e: int| 0 <= e < table0.len() && #[trigger] table0[e] == EMPTY;
                let j = probe_dist(e, b0, h);
                assert(advance(b0, j, h) == e);
            }
            lemma_shift_ok(keys0, table0, addr, b0, i as int);
        }
    }

    /// Shifts elements up to fill the empty space if they are not at their ideal
    /// location. The bucket has just been freed of the index `removed`.
    fn unshift(&mut self, initial_bucket: usize, Ghost(removed): Ghost<usize>)
        requires
            initial_bucket < old(self).table@.len(),
            old(self).table@[initial_bucket as int] == EMPTY,
            removed != EMPTY,
            parts_ok(
                old(self).cap,
                old(self).keys@,
                old(self).table@.update(initial_bucket as int, removed),
            ),
        ensures
            final(self).cap == old(self).cap,
            final(self).keys == old(self).keys,
            final(self).values == old(self).values,
            final(self).table@.len() == old(self).table@.len(),
            table_ok_without(final(self).addrs(), final(self).table@, removed as int),
    {
        proof {
            IObject::lemma_fits_bounds(self.cap as int);
        }
        let hash_cap = hash_capacity(self.cap);
        let ghost keys = self.addrs();
        let ghost table0 = self.table@.update(initial_bucket as int, removed);
        let ghost h = hash_cap as int;
        let ghost b = initial_bucket as int;
        proof {
            assert(self.table@ =~= partial_unshift(table0, b, 0));
        }
        let mut prev_bucket = initial_bucket;
        let mut i: usize = 1;
        while i < hash_cap
            invariant
                self.cap == old(self).cap,
                self.keys == old(self).keys,
                self.values == old(self).values,
                keys == self.addrs(),
                table_ok(keys, table0),
                table0[b] == removed,
                removed != EMPTY,
                h == old(self).table@.len(),
                h == hash_cap,
                h == table0.len(),
                h > 0,
                2 * h <= usize::MAX,
                0 <= b < h,
                b == initial_bucket,
                1 <= i <= hash_cap,
                prev_bucket == advance(b, i - 1, h),
                self.table@.len() == h,
                self.table@ == partial_unshift(table0, b, i - 1),
                forall|j: int| 1 <= j <= i - 1 ==> #[trigger] displaced(keys, table0, b, j),
            decreases hash_cap - i,
        {
            let bucket = (initial_bucket + i) % hash_cap;
            proof {
                lemma_wrap(b, i as int, h);
                assert(probe_dist(bucket as int, b, h) == i);
                assert(bucket_ok(keys, table0, bucket as int));
            }
            let index = self.table[bucket];

            // If we hit an empty bucket, we're done
            proof {
                assert(index == table0[bucket as int]);
                assert(advance(b, i as int, h) == bucket);
            }
            if index == EMPTY {
                proof {
                    assert(!displaced(keys, table0, b, i as int));
                    lemma_unshift_ok(keys, table0, b, i - 1);
                }
                return ;
            }
            // If the probe length is zero, we're done

            let k = &self.keys[index];
            if hash_bucket(k, hash_cap) == bucket {
                proof {
                    assert(dist_of(keys, table0, bucket as int) == 0);
                    assert(!displaced(keys, table0, b, i as int));
                    lemma_unshift_ok(keys, table0, b, i - 1);
                }
                return ;
            }
            proof {
                lemma_home_in_table(keys[index as int], h);
                assert(dist_of(keys, table0, bucket as int) > 0);
            }
            // Shift this element back one

            self.table[prev_bucket] = index;
            self.table[bucket] = EMPTY;
            prev_bucket = bucket;
            proof {
                assert(displaced(keys, table0, b, i as int));
                assert(self.table@ =~= partial_unshift(table0, b, i as int));
            }
            i += 1;
        }
        proof {
            lemma_unshift_ok(keys, table0, b, h - 1);
        }
    }

    /// Takes the entry that a bucket holds out of the table and out of the entries, where
    /// the last entry takes its place.
    fn remove_bucket(&mut self, bucket: usize) -> (r: (IString, IValue))
        requires
            old(self).wf(),
            bucket < old(self).table@.len(),
            old(self).table@[bucket as int] != EMPTY,
        ensures
            final(self).wf(),
            final(self).cap == old(self).cap,
            ({
                let index = old(self).table@[bucket as int] as int;
                &&& 0 <= index < old(self).keys@.len()
                &&& r.0 == old(self).keys@[index]
                &&& r.1 == old(self).values@[index]
                &&& final(self).keys@ == old(self).keys@.update(
                    index,
                    old(self).keys@.last(),
                ).drop_last()
                &&& final(self).values@ == old(self).values@.update(
                    index,
                    old(self).values@.last(),
                ).drop_last()
            }),
    {
        proof {
            assert(bucket_ok(self.addrs(), self.table@, bucket as int));
        }
        // Remove the entry from the table
        let index = self.table[bucket];
        let ghost table0 = self.table@;
        self.table[bucket] = EMPTY;
        proof {
            assert(self.table@.update(bucket as int, index) =~= table0);
        }
        // Unshift any displaced buckets, so the table is valid again
        self.unshift(bucket, Ghost(index));
        let ghost keys = self.addrs();
        let ghost table = self.table@;

        // If the item being removed is not at the end of the array,
        // we need to do some book-keeping
        let last_index = self.keys.len() - 1;
        if last_index != index {
            // Find the bucket containing the last item
            let bucket_to_update = self.as_ref().find_bucket_from_index(last_index);

            // Update it to point to the location where that item will be
            // after we swap it.
            self.table[bucket_to_update] = index;
            proof {
                lemma_fill_gap(keys, table, index as int, bucket_to_update as int);
            }
        } else {
            proof {
                lemma_drop_last(keys, table);
            }
        }
        // Swap the element to be removed to the back, and take it out
        let key = self.keys.swap_remove(index);
        let value = self.values.swap_remove(index);
        proof {
            assert(keys_of(self.keys@) =~= keys.update(index as int, keys.last()).drop_last());
            if last_index == index {
                assert(keys.update(index as int, keys.last()).drop_last() =~= keys.drop_last());
            }
        }
        (key, value)
    }

    /// Adds an entry after the others, and gives its index. The table does not know of it
    /// yet.
    fn push(&mut self, key: IString, value: IValue) -> (r: usize)
        requires
            old(self).values@.len() == old(self).keys@.len(),
        ensures
            final(self).cap == old(self).cap,
            final(self).table == old(self).table,
            final(self).keys@ == old(self).keys@.push(key),
            final(self).values@ == old(self).values@.push(value),
            r == old(self).keys@.len(),
    {
        self.keys.push(key);
        self.values.push(value);
        self.keys.len() - 1
    }
}

/// Every entry of a table in order has its index in a bucket.
proof fn lemma_placed(keys: Seq<IString>, table: Seq<usize>, index: int)
    requires
        table_ok(keys_of(keys), table),
        0 <= index < keys.len(),
    ensures
        placed(table, index),
{
}

/// Whether the entry that was at the place `j` at first has a place now.
pub closed spec fn is_origin(origin: Seq<int>, j: int) -> bool {
    exists|p: int| 0 <= p < origin.len() && #[trigger] origin[p] == j
}

/// Two entries of a table in order have keys at different addresses.
proof fn lemma_keys_differ(keys: Seq<IString>, table: Seq<usize>, p: int, q: int)
    requires
        table_ok(keys_of(keys), table),
        0 <= p < keys.len(),
        0 <= q < keys.len(),
        p != q,
    ensures
        keys[p].spec_addr() != keys[q].spec_addr(),
{
    assert(keys_of(keys)[p] != keys_of(keys)[q]);
}

/// The entries of a table in order have keys at different addresses.
proof fn lemma_distinct(keys: Seq<IString>, values: Seq<IValue>, table: Seq<usize>)
    requires
        table_ok(keys_of(keys), table),
        values.len() == keys.len(),
    ensures
        distinct_keys(entries_of(keys, values)),
{
    let addrs = keys_of(keys);
    let entries = entries_of(keys, values);
    assert forall|i: int, j: int|
        0 <= i < entries.len() && 0 <= j < entries.len() && i != j implies (
    #[trigger] entries[i]).0.spec_addr() != (#[trigger] entries[j]).0.spec_addr() by {
        assert(addrs[i] != addrs[j]);
    }
}

/// No key of the entries is at an address exactly where no entry has a key there.
proof fn lemma_absent_has_key(keys: Seq<IString>, values: Seq<IValue>, addr: usize)
    requires
        values.len() == keys.len(),
    ensures
        absent(keys_of(keys), addr) == !has_key(entries_of(keys, values), addr),
{
    let addrs = keys_of(keys);
    let entries = entries_of(keys, values);
    if has_key(entries, addr) {
        let i = key_index(entries, addr);
        assert(addrs[i] == addr);
    }
    if !absent(addrs, addr) {
        let i = choose|i: int| 0 <= i < addrs.len() && #[trigger] addrs[i] == addr;
        assert(entries[i].0.spec_addr() == addr);
    }
}

impl View for IObject {
    type V = Map<usize, IValue>;

    open spec fn view(&self) -> Map<usize, IValue> {
        to_map(self.entries())
    }
}

impl IObject {
    /// The entries of the object, in order.
    pub closed spec fn entries(&self) -> Seq<(IString, IValue)> {
        entries_of(self.keys@, self.values@)
    }

    #[verifier::type_invariant]
    pub(crate) closed spec fn inv(self) -> bool {
        parts_ok(self.cap, self.keys@, self.table@) && self.values@.len() == self.keys@.len()
    }

    /// The number of entries that the object has room for.
    pub closed spec fn spec_capacity(&self) -> usize {
        self.cap
    }

    /// The layout of the block of an object with room for `cap` entries: a header of
    /// two words, then two words for each entry, then one word for each bucket of the
    /// probe table.
    pub open spec fn spec_layout(cap: int) -> Result<Layout, LayoutError> {
        let word = crate::layout::spec_word_size();
        match Layout::of(2 * word, word).spec_append(2 * word, cap) {
            Ok(entries) => entries.spec_append(word, spec_hash_capacity(cap)),
            Err(e) => Err(e),
        }
    }

    /// Whether an object with room for `cap` entries can exist.
    pub open spec fn fits(cap: int) -> bool {
        cap >= 0 && Self::spec_layout(cap) is Ok
    }

    /// An object that can exist has a probe table that is a quarter larger than its
    /// room, and far from the end of the address space.
    pub proof fn lemma_fits_bounds(cap: int)
        requires
            Self::fits(cap),
        ensures
            cap <= spec_hash_capacity(cap),
            cap > 0 ==> spec_hash_capacity(cap) > 0,
            2 * spec_hash_capacity(cap) <= isize::MAX,
            4 * cap <= isize::MAX,
    {
        let word = crate::layout::spec_word_size();
        let h = spec_hash_capacity(cap);
        Layout::lemma_of(2 * word, word);
        assert(2 * word * cap >= 8 * cap) by (nonlinear_arith)
            requires
                word >= 4,
                cap >= 0,
        ;
        Layout::lemma_of(2 * word + 2 * word * cap, word);
        assert(word * h >= 4 * h) by (nonlinear_arith)
            requires
                word >= 4,
                h >= 0,
        ;
    }

    /// An object with room for fewer entries can exist where one with room for more can.
    pub proof fn lemma_fits_smaller(cap: int, smaller: int)
        requires
            Self::fits(cap),
            0 <= smaller <= cap,
        ensures
            Self::fits(smaller),
    {
        let word = crate::layout::spec_word_size();
        Layout::lemma_of(2 * word, word);
        assert(2 * word * smaller <= 2 * word * cap) by (nonlinear_arith)
            requires
                word > 0,
                0 <= smaller <= cap,
        ;
        assert(2 * word * smaller >= 0) by (nonlinear_arith)
            requires
                word > 0,
                0 <= smaller,
        ;
        Layout::lemma_of(2 * word + 2 * word * cap, word);
        Layout::lemma_of(2 * word + 2 * word * smaller, word);
        assert(word * spec_hash_capacity(smaller) <= word * spec_hash_capacity(cap))
            by (nonlinear_arith)
            requires
                word > 0,
                0 <= spec_hash_capacity(smaller) <= spec_hash_capacity(cap),
        ;
    }

    /// The layout of the block of an object with room for `cap` entries.
    pub fn layout(cap: usize) -> (r: Result<Layout, LayoutError>)
        ensures
            r == Self::spec_layout(cap as int),
    {
        let word = word_size();
        proof {
            Layout::lemma_of(2 * word, word as int);
            crate::layout::lemma_round_up_multiple(2 * word, word as int, 0, word as int);
        }
        let header = match Layout::from_size_align(2 * word, word) {
            Ok(header) => header,
            Err(e) => {
                return Err(e);
            },
        };
        let entries = match header.append(2 * word, cap) {
            Ok(entries) => entries,
            Err(e) => {
                return Err(e);
            },
        };
        proof {
            Layout::lemma_of(2 * word + 2 * word * cap, word as int);
            assert(2 * word * cap >= 4 * cap) by (nonlinear_arith)
                requires
                    word >= 2,
                    cap >= 0,
            ;
        }
        entries.append(word, hash_capacity(cap))
    }

    /// An object is above the values of its entries.
    pub proof fn lemma_decreases(self, i: int)
        requires
            0 <= i < self.entries().len(),
        ensures
            decreases_to!(self => self.entries()[i].1),
    {
        broadcast use vstd::std_specs::vec::axiom_vec_index_decreases;

        assert(decreases_to!(self => self.values));
        assert(decreases_to!(self.values => self.values[i]));
    }

    /// The string handles of one entry: its key, then those that its value holds.
    pub open spec fn entry_strings(&self, i: int) -> Seq<IString>
        decreases self, 0int,
    {
        if 0 <= i < self.entries().len() {
            proof {
                self.lemma_decreases(i);
            }
            seq![self.entries()[i].0] + self.entries()[i].1.strings()
        } else {
            Seq::empty()
        }
    }

    /// The string handles that the entries from `lo` up to `hi` hold, from the first of
    /// these entries to the last.
    pub open spec fn strings_between(&self, lo: int, hi: int) -> Seq<IString>
        decreases self, hi - lo + 1,
    {
        if 0 <= lo < hi <= self.entries().len() {
            self.strings_between(lo, hi - 1) + self.entry_strings(hi - 1)
        } else {
            Seq::empty()
        }
    }

    /// The string handles that the entries of the object hold, from the first entry to
    /// the last.
    pub open spec fn strings(&self) -> Seq<IString> {
        self.strings_between(0, self.entries().len() as int)
    }

    /// The strings of a run of entries are those of its first entry, then those of the
    /// rest.
    pub proof fn lemma_strings_from(&self, lo: int, hi: int)
        requires
            0 <= lo < hi <= self.entries().len(),
        ensures
            self.strings_between(lo, hi) == self.entry_strings(lo) + self.strings_between(
                lo + 1,
                hi,
            ),
        decreases hi - lo,
    {
        if hi == lo + 1 {
            assert(self.strings_between(lo, lo) == Seq::<IString>::empty());
            assert(self.strings_between(lo + 1, hi) == Seq::<IString>::empty());
            assert(Seq::<IString>::empty() + self.entry_strings(lo) =~= self.entry_strings(lo)
                + Seq::<IString>::empty());
        } else {
            self.lemma_strings_from(lo, hi - 1);
            assert((self.entry_strings(lo) + self.strings_between(lo + 1, hi - 1))
                + self.entry_strings(hi - 1) =~= self.entry_strings(lo) + (self.strings_between(
                lo + 1,
                hi - 1,
            ) + self.entry_strings(hi - 1)));
        }
    }

    /// Two objects whose entries hold the same strings, entry by entry, hold the same
    /// strings.
    pub proof fn lemma_strings_same(&self, other: &IObject, hi: int)
        requires
            0 <= hi <= self.entries().len(),
            hi <= other.entries().len(),
            forall|j: int|
                0 <= j < hi ==> (#[trigger] self.entries()[j]).0 == other.entries()[j].0
                    && self.entries()[j].1.strings() == other.entries()[j].1.strings(),
        ensures
            self.strings_between(0, hi) == other.strings_between(0, hi),
        decreases hi,
    {
        if hi > 0 {
            self.lemma_strings_same(other, hi - 1);
            assert(self.entries()[hi - 1].0 == other.entries()[hi - 1].0);
            assert(self.entry_strings(hi - 1) == other.entry_strings(hi - 1));
        }
    }

    /// Returns the number of entries currently stored in the object.
    pub fn len(&self) -> (r: usize)
        ensures
            r == self.entries().len(),
    {
        self.values.len()
    }

    /// Returns `true` if the object is empty.
    pub fn is_empty(&self) -> (r: bool)
        ensures
            r == (self.entries().len() == 0),
    {
        self.len() == 0
    }

    /// Whether two objects hold the same keys with equal values.
    pub open spec fn spec_eq(&self, other: &IObject) -> bool {
        &&& self.entries().len() == other.entries().len()
        &&& forall|i: int|
            0 <= i < self.entries().len() ==> {
                let addr = (#[trigger] self.entries()[i]).0.spec_addr();
                &&& has_key(other.entries(), addr)
                &&& self.entries()[i].1.spec_eq(&other.entries()[key_index(other.entries(), addr)].1)
            }
    }

    /// The parts of the object, to change.
    fn into_split(self) -> (r: SplitHeaderMut)
        ensures
            r.wf(),
            r.cap == self.cap,
            r.keys == self.keys,
            r.values == self.values,
            r.table == self.table,
    {
        proof {
            use_type_invariant(&self);
        }
        SplitHeaderMut { cap: self.cap, keys: self.keys, values: self.values, table: self.table }
    }

    /// The object made of parts.
    fn from_split(split: SplitHeaderMut) -> (r: Self)
        requires
            split.wf(),
        ensures
            r.cap == split.cap,
            r.keys == split.keys,
            r.values == split.values,
            r.table == split.table,
    {
        IObject { cap: split.cap, keys: split.keys, values: split.values, table: split.table }
    }

    /// The keys and the probe table of the object, to read.
    fn header(&self) -> (r: SplitHeader<'_>)
        ensures
            r.wf(),
            r.cap == self.cap,
            r.keys@ == self.keys@,
            r.table@ == self.table@,
    {
        proof {
            use_type_invariant(self);
        }
        SplitHeader { cap: self.cap, keys: &self.keys, table: &self.table }
    }

    /// A probe table of free buckets for an object with room for `cap` entries.
    fn allocate(cap: usize) -> (r: Vec<usize>)
        requires
            Self::fits(cap as int),
        ensures
            r@.len() == spec_hash_capacity(cap as int),
            forall|b: int| 0 <= b < r@.len() ==> r@[b] == EMPTY,
    {
        proof {
            Self::lemma_fits_bounds(cap as int);
        }
        let hash_cap = hash_capacity(cap);
        let mut table: Vec<usize> = Vec::with_capacity(hash_cap);
        let mut i: usize = 0;
        while i < hash_cap
            invariant
                i <= hash_cap,
                table@.len() == i,
                forall|b: int| 0 <= b < i ==> table@[b] == EMPTY,
            decreases hash_cap - i,
        {
            table.push(EMPTY);
            i += 1;
        }
        table
    }

    /// Constructs a new empty `IObject`, which holds no block.
    pub fn new() -> (r: Self)
        ensures
            r.entries() == Seq::<(IString, IValue)>::empty(),
            r.spec_capacity() == 0,
    {
        proof {
            let word = crate::layout::spec_word_size();
            Layout::lemma_of(2 * word, word);
            Layout::lemma_of(2 * word + 2 * word * 0, word);
        }
        let r = IObject { cap: 0, keys: Vec::new(), values: Vec::new(), table: Vec::new() };
        assert(r.entries() =~= Seq::<(IString, IValue)>::empty());
        r
    }

    /// Constructs a new `IObject` with the specified capacity. At least that many entries
    /// can be added to the object without reallocating.
    pub fn with_capacity(cap: usize) -> (r: Self)
        requires
            Self::fits(cap as int),
        ensures
            r.entries() == Seq::<(IString, IValue)>::empty(),
            r.spec_capacity() == cap,
    {
        if cap == 0 {
            Self::new()
        } else {
            let table = Self::allocate(cap);
            proof {
                Self::lemma_fits_bounds(cap as int);
                let keys = keys_of(Seq::<IString>::empty());
                assert(anchor(keys, table@, 0));
                assert forall|b: int| 0 <= b < table@.len() implies #[trigger] bucket_ok(
                    keys,
                    table@,
                    b,
                ) by {}
                assert forall|a: int, b: int|
                    0 <= a < table@.len() && 0 <= b < table@.len() implies #[trigger] differ(
                    table@,
                    a,
                    b,
                ) by {}
            }
            let r = IObject {
                cap,
                keys: Vec::with_capacity(cap),
                values: Vec::with_capacity(cap),
                table,
            };
            assert(r.entries() =~= Seq::<(IString, IValue)>::empty());
            r
        }
    }

    /// Whether the object holds no block.
    pub fn is_static(&self) -> (r: bool)
        ensures
            r == (self.spec_capacity() == 0),
    {
        self.capacity() == 0
    }

    /// Returns the capacity of the object. This is the maximum number of entries the
    /// object can hold without reallocating.
    pub fn capacity(&self) -> (r: usize)
        ensures
            r == self.spec_capacity(),
            self.entries().len() <= r,
            Self::fits(r as int),
            distinct_keys(self.entries()),
    {
        proof {
            use_type_invariant(self);
            lemma_distinct(self.keys@, self.values@, self.table@);
        }
        self.cap
    }

    /// The capacity to which an object of capacity `cap` grows to hold `needed` entries:
    /// twice what it had, and at least four.
    pub open spec fn grown(cap: int, needed: int) -> int {
        vstd::math::max(2 * cap, vstd::math::max(needed, 4))
    }

    /// Whether the object can make room for `additional` entries more: it has the room,
    /// or an object of the capacity to which it grows can exist.
    pub open spec fn can_reserve(&self, additional: int) -> bool {
        ||| self.entries().len() + additional <= self.spec_capacity()
        ||| Self::fits(Self::grown(self.spec_capacity() as int, self.entries().len() + additional))
    }

    /// Moves the entries into a block with room for `cap` of them, in their order.
    fn resize_internal(&mut self, cap: usize)
        requires
            Self::fits(cap as int),
            old(self).entries().len() <= cap,
        ensures
            final(self).entries() == old(self).entries(),
            final(self).spec_capacity() == cap,
    {
        let mut old_obj = Self::new();
        std::mem::swap(self, &mut old_obj);
        if cap == 0 {
            assert(self.entries() =~= old(self).entries());
            return ;
        }
        let old_split = old_obj.into_split();
        let ghost source_keys = old_split.keys@;
        let ghost source_values = old_split.values@;
        let ghost n_all = source_keys.len();
        let mut pending_keys = reversed(old_split.keys);
        let mut pending_values = reversed(old_split.values);
        let fresh = Self::with_capacity(cap);
        proof {
            assert(fresh.entries().len() == 0);
        }
        let mut hd = fresh.into_split();
        proof {
            lemma_distinct(source_keys, source_values, old_split.table@);
            assert(hd.keys@ =~= source_keys.take(0));
            assert(hd.values@ =~= source_values.take(0));
        }
        while pending_keys.len() > 0
            invariant
                hd.wf(),
                hd.cap == cap,
                cap > 0,
                n_all <= cap,
                source_keys.len() == n_all,
                source_values.len() == n_all,
                distinct_keys(entries_of(source_keys, source_values)),
                pending_keys@.len() == pending_values@.len(),
                hd.keys@.len() + pending_keys@.len() == n_all,
                hd.keys@ == source_keys.take(hd.keys@.len() as int),
                hd.values@ == source_values.take(hd.keys@.len() as int),
                forall|j: int|
                    0 <= j < pending_keys@.len() ==> pending_keys@[j] == source_keys[n_all - 1
                        - j] && pending_values@[j] == source_values[n_all - 1 - j],
            decreases pending_keys@.len(),
        {
            let ghost n = hd.keys@.len() as int;
            match (pending_keys.pop(), pending_values.pop()) {
                (Some(k), Some(v)) => {
                    proof {
                        assert(k == source_keys[n]);
                        assert(v == source_values[n]);
                        Self::lemma_fits_bounds(cap as int);
                        assert forall|i: int| 0 <= i < n implies #[trigger] keys_of(hd.keys@)[i]
                            != k.spec_addr() by {
                            assert(entries_of(source_keys, source_values)[i].0.spec_addr()
                                != entries_of(source_keys, source_values)[n].0.spec_addr());
                        }
                    }
                    match hd.as_ref().find_bucket(&k) {
                        Err(bucket) => {
                            let ghost before = hd.keys@;
                            let ghost addrs0 = hd.addrs();
                            let index = hd.push(k, v);
                            proof {
                                assert(hd.keys@.drop_last() =~= before);
                                assert(hd.addrs().drop_last() =~= addrs0);
                                assert(hd.keys@ =~= source_keys.take(n + 1));
                                assert(hd.values@ =~= source_values.take(n + 1));
                            }
                            hd.shift(bucket, index);
                        },
                        Ok(bucket) => {
                            proof {
                                assert(keys_of(hd.keys@)[hd.table@[bucket as int] as int]
                                    != k.spec_addr());
                            }
                        },
                    }
                },
                _ => {},
            }
        }
        proof {
            assert(source_keys.take(n_all as int) =~= source_keys);
            assert(source_values.take(n_all as int) =~= source_values);
        }
        *self = Self::from_split(hd);
    }

    /// Whether an object with room for `cap` entries can exist.
    pub fn can_hold(cap: usize) -> (r: bool)
        ensures
            r == Self::fits(cap as int),
    {
        Self::layout(cap).is_ok()
    }

    /// Whether the object can make room for `additional` entries more.
    pub fn has_room(&self, additional: usize) -> (r: bool)
        ensures
            r == self.can_reserve(additional as int),
    {
        let cap = self.capacity();
        let len = self.len();
        if additional <= cap - len {
            return true;
        }
        proof {
            Self::lemma_fits_bounds(cap as int);
            let grown = Self::grown(cap as int, len + additional);
            if Self::fits(grown) {
                Self::lemma_fits_bounds(grown);
            }
        }
        let desired = match len.checked_add(additional) {
            Some(desired) => desired,
            None => {
                return false;
            },
        };
        let at_least = if desired >= 4 {
            desired
        } else {
            4
        };
        Self::can_hold(
            if cap * 2 >= at_least {
                cap * 2
            } else {
                at_least
            },
        )
    }

    /// Reserves space for at least this many additional entries.
    pub fn reserve(&mut self, additional: usize)
        requires
            old(self).can_reserve(additional as int),
        ensures
            final(self).entries() == old(self).entries(),
            final(self).spec_capacity() == if old(self).entries().len() + additional <= old(
                self,
            ).spec_capacity() {
                old(self).spec_capacity() as int
            } else {
                Self::grown(
                    old(self).spec_capacity() as int,
                    old(self).entries().len() as int + additional,
                )
            },
            final(self).entries().len() + additional <= final(self).spec_capacity(),
    {
        let current_capacity = self.capacity();
        let len = self.len();
        if additional <= current_capacity - len {
            return ;
        }
        proof {
            Self::lemma_fits_bounds(Self::grown(current_capacity as int, len + additional));
        }
        let desired_capacity = len + additional;
        let doubled = current_capacity * 2;
        let at_least = if desired_capacity >= 4 {
            desired_capacity
        } else {
            4
        };
        self.resize_internal(
            if doubled >= at_least {
                doubled
            } else {
                at_least
            },
        );
    }

    /// Looks up the specified key in this object and returns a (&key, &value) pair
    /// if found.
    pub fn get_key_value(&self, k: &IString) -> (r: Option<(&IString, &IValue)>)
        ensures
            match r {
                Some((key, value)) => {
                    let i = key_index(self.entries(), k.spec_addr());
                    &&& has_key(self.entries(), k.spec_addr())
                    &&& *key == self.entries()[i].0
                    &&& *value == self.entries()[i].1
                },
                None => !has_key(self.entries(), k.spec_addr()),
            },
    {
        if self.is_empty() {
            return None;
        }
        let hd = self.header();
        proof {
            use_type_invariant(self);
            lemma_distinct(self.keys@, self.values@, self.table@);
            lemma_absent_has_key(self.keys@, self.values@, k.spec_addr());
        }
        match hd.find_bucket(k) {
            Ok(bucket) => {
                let index = self.table[bucket];
                proof {
                    assert(self.entries()[index as int].0.spec_addr() == k.spec_addr());
                }
                Some((&self.keys[index], &self.values[index]))
            },
            Err(_) => None,
        }
    }

    /// Looks up the specified key in this object and returns a (&key, &mut value) pair
    /// if found.
    pub fn get_key_value_mut(&mut self, k: &IString) -> (r: Option<(&IString, &mut IValue)>)
        ensures
            final(self).spec_capacity() == old(self).spec_capacity(),
            match r {
                Some((key, value)) => {
                    let i = key_index(old(self).entries(), k.spec_addr());
                    &&& has_key(old(self).entries(), k.spec_addr())
                    &&& *key == old(self).entries()[i].0
                    &&& *value == old(self).entries()[i].1
                    &&& final(self).entries() == old(self).entries().update(
                        i,
                        (old(self).entries()[i].0, *final(value)),
                    )
                },
                None => {
                    &&& !has_key(old(self).entries(), k.spec_addr())
                    &&& *final(self) == *old(self)
                },
            },
    {
        if self.is_empty() {
            return None;
        }
        proof {
            use_type_invariant(&*self);
            lemma_distinct(self.keys@, self.values@, self.table@);
            lemma_absent_has_key(self.keys@, self.values@, k.spec_addr());
        }
        let found = self.header().find_bucket(k);
        match found {
            Ok(bucket) => {
                let index = self.table[bucket];
                proof {
                    assert(self.entries()[index as int].0.spec_addr() == k.spec_addr());
                    assert forall|v: IValue|
                        entries_of(self.keys@, #[trigger] self.values@.update(index as int, v))
                            == self.entries().update(index as int, (self.keys@[index as int], v)) by {
                        assert(entries_of(self.keys@, self.values@.update(index as int, v))
                            =~= self.entries().update(index as int, (self.keys@[index as int], v)));
                    }
                }
                Some((&self.keys[index], &mut self.values[index]))
            },
            Err(_) => None,
        }
    }

    /// Looks up the specified key in this object and returns a reference to the
    /// corresponding value if found.
    pub fn get(&self, k: &IString) -> (r: Option<&IValue>)
        ensures
            r == if self@.dom().contains(k.spec_addr()) {
                Some(&self@[k.spec_addr()])
            } else {
                None
            },
            match r {
                Some(value) => ObjectOp::get(self@, k.spec_addr()) == Some(*value),
                None => ObjectOp::get(self@, k.spec_addr()) is None,
            },
    {
        match self.get_key_value(k) {
            Some((_, value)) => Some(value),
            None => None,
        }
    }

    /// Looks up the specified key in this object and returns a mutable reference to
    /// the corresponding value if found.
    pub fn get_mut(&mut self, k: &IString) -> (r: Option<&mut IValue>)
        ensures
            final(self).spec_capacity() == old(self).spec_capacity(),
            match r {
                Some(value) => {
                    &&& old(self)@.dom().contains(k.spec_addr())
                    &&& *value == old(self)@[k.spec_addr()]
                    &&& final(self)@ == old(self)@.insert(k.spec_addr(), *final(value))
                },
                None => {
                    &&& !old(self)@.dom().contains(k.spec_addr())
                    &&& *final(self) == *old(self)
                },
            },
    {
        proof {
            use_type_invariant(&*self);
            lemma_distinct(self.keys@, self.values@, self.table@);
            let entries = self.entries();
            let i = key_index(entries, k.spec_addr());
            if has_key(entries, k.spec_addr()) {
                assert forall|v: IValue|
                    to_map(#[trigger] entries.update(i, (entries[i].0, v))) == to_map(
                        entries,
                    ).insert(k.spec_addr(), v) by {
                    lemma_to_map_update(entries, i, v);
                }
            }
        }
        match self.get_key_value_mut(k) {
            Some((_, value)) => Some(value),
            None => None,
        }
    }

    /// Returns `true` if the specified key exists in the object.
    pub fn contains_key(&self, k: &IString) -> (r: bool)
        ensures
            r == self@.dom().contains(k.spec_addr()),
    {
        self.get(k).is_some()
    }

    /// Inserts a new value into this object with the specified key. If a value already
    /// existed at this key, that value is replaced and returned, and the key that was
    /// handed in is dropped.
    pub fn insert<T: CacheTable>(&mut self, k: IString, v: IValue, cache: &mut Cache<T>) -> (r: Option<IValue>)
        requires
            old(self).can_reserve(1),
            old(cache).wf(),
        ensures
            final(cache).wf(),
            final(self)@ == old(self)@.insert(k.spec_addr(), v),
            final(self)@ == ObjectOp::Insert(k.spec_addr(), v).apply(old(self)@),
            distinct_keys(final(self).entries()),
            final(self).spec_capacity() == if old(self).entries().len() < old(
                self,
            ).spec_capacity() {
                old(self).spec_capacity() as int
            } else {
                Self::grown(old(self).spec_capacity() as int, old(self).entries().len() as int + 1)
            },
            match r {
                Some(previous) => {
                    let i = key_index(old(self).entries(), k.spec_addr());
                    &&& has_key(old(self).entries(), k.spec_addr())
                    &&& previous == old(self).entries()[i].1
                    &&& final(self).entries() == old(self).entries().update(
                        i,
                        (old(self).entries()[i].0, v),
                    )
                    &&& Cache::dropped(*old(cache), k, *final(cache))
                },
                None => {
                    &&& !has_key(old(self).entries(), k.spec_addr())
                    &&& final(self).entries() == old(self).entries().push((k, v))
                    &&& *final(cache) == *old(cache)
                },
            },
    {
        self.reserve(1);
        let mut taken = Self::new();
        std::mem::swap(self, &mut taken);
        let mut hd = taken.into_split();
        let ghost keys0 = hd.keys@;
        let ghost values0 = hd.values@;
        let ghost entries0 = entries_of(keys0, values0);
        proof {
            Self::lemma_fits_bounds(hd.cap as int);
            lemma_distinct(keys0, values0, hd.table@);
            lemma_absent_has_key(keys0, values0, k.spec_addr());
        }
        match hd.as_ref().find_bucket(&k) {
            Ok(bucket) => {
                let index = hd.table[bucket];
                let mut value = v;
                std::mem::swap(&mut hd.values[index], &mut value);
                proof {
                    let i = key_index(entries0, k.spec_addr());
                    assert(entries0[index as int].0.spec_addr() == k.spec_addr());
                    assert(i == index);
                    assert(entries_of(hd.keys@, hd.values@) =~= entries0.update(
                        i,
                        (entries0[i].0, v),
                    ));
                    lemma_to_map_update(entries0, i, v);
                }
                *self = Self::from_split(hd);
                k.drop_impl(cache);
                Some(value)
            },
            Err(bucket) => {
                let ghost addrs0 = hd.addrs();
                let index = hd.push(k, v);
                proof {
                    assert(hd.keys@.drop_last() =~= keys0);
                    assert(hd.addrs().drop_last() =~= addrs0);
                    assert(entries_of(hd.keys@, hd.values@) =~= entries0.push((k, v)));
                    lemma_to_map_push(entries0, k, v);
                }
                hd.shift(bucket, index);
                *self = Self::from_split(hd);
                None
            },
        }
    }

    /// Removes the entry at the specified key, returning both the key and value if
    /// found. The last entry takes the place of the one that leaves.
    pub fn remove_entry(&mut self, k: &IString) -> (r: Option<(IString, IValue)>)
        ensures
            final(self).spec_capacity() == old(self).spec_capacity(),
            final(self)@ == old(self)@.remove(k.spec_addr()),
            distinct_keys(final(self).entries()),
            match r {
                Some(entry) => {
                    let i = key_index(old(self).entries(), k.spec_addr());
                    &&& has_key(old(self).entries(), k.spec_addr())
                    &&& entry == old(self).entries()[i]
                    &&& final(self).entries() == old(self).entries().update(
                        i,
                        old(self).entries().last(),
                    ).drop_last()
                },
                None => {
                    &&& !has_key(old(self).entries(), k.spec_addr())
                    &&& final(self).entries() == old(self).entries()
                },
            },
    {
        proof {
            use_type_invariant(&*self);
            lemma_distinct(self.keys@, self.values@, self.table@);
            lemma_absent_has_key(self.keys@, self.values@, k.spec_addr());
        }
        if self.is_empty() {
            assert(self@ =~= self@.remove(k.spec_addr()));
            return None;
        }
        let mut taken = Self::new();
        std::mem::swap(self, &mut taken);
        let mut hd = taken.into_split();
        let ghost entries0 = entries_of(hd.keys@, hd.values@);
        match hd.as_ref().find_bucket(k) {
            Ok(bucket) => {
                let ghost index = hd.table@[bucket as int] as int;
                let entry = hd.remove_bucket(bucket);
                proof {
                    let i = key_index(entries0, k.spec_addr());
                    assert(entries0[index].0.spec_addr() == k.spec_addr());
                    assert(i == index);
                    assert(entries_of(hd.keys@, hd.values@) =~= entries0.update(
                        i,
                        entries0.last(),
                    ).drop_last());
                    lemma_to_map_swap_remove(entries0, i);
                }
                *self = Self::from_split(hd);
                Some(entry)
            },
            Err(_) => {
                *self = Self::from_split(hd);
                assert(self@ =~= self@.remove(k.spec_addr()));
                None
            },
        }
    }

    /// Removes the entry at the specified key, returning the value if found. The key of
    /// the entry is dropped.
    pub fn remove<T: CacheTable>(&mut self, k: &IString, cache: &mut Cache<T>) -> (r: Option<IValue>)
        requires
            old(cache).wf(),
        ensures
            final(cache).wf(),
            final(self).spec_capacity() == old(self).spec_capacity(),
            final(self)@ == old(self)@.remove(k.spec_addr()),
            final(self)@ == ObjectOp::Remove(k.spec_addr()).apply(old(self)@),
            r == if old(self)@.dom().contains(k.spec_addr()) {
                Some(old(self)@[k.spec_addr()])
            } else {
                None
            },
            match r {
                Some(_) => Cache::dropped(
                    *old(cache),
                    old(self).entries()[key_index(old(self).entries(), k.spec_addr())].0,
                    *final(cache),
                ),
                None => *final(cache) == *old(cache),
            },
    {
        match self.remove_entry(k) {
            Some((key, value)) => {
                key.drop_impl(cache);
                Some(value)
            },
            None => None,
        }
    }

    /// Inserts the entries, one after another. The key of an entry that takes the place of
    /// another is dropped.
    pub fn extend<T: CacheTable>(&mut self, entries: Vec<(IString, IValue)>, cache: &mut Cache<T>)
        requires
            old(self).can_reserve(entries@.len() as int),
            old(cache).wf(),
        ensures
            final(cache).wf(),
            Cache::shrunk(*old(cache), *final(cache)),
            final(self)@ == insert_all(old(self)@, entries@),
            final(self).spec_capacity() == if old(self).entries().len() + entries@.len() <= old(
                self,
            ).spec_capacity() {
                old(self).spec_capacity() as int
            } else {
                Self::grown(
                    old(self).spec_capacity() as int,
                    (old(self).entries().len() + entries@.len()) as int,
                )
            },
    {
        self.reserve(entries.len());
        let ghost source = entries@;
        let ghost n = source.len();
        let ghost len0 = self.entries().len();
        let ghost cap = self.spec_capacity();
        let mut pending = reversed(entries);
        proof {
            Cache::lemma_shrunk_refl(*cache);
            assert(source.take(0) =~= Seq::<(IString, IValue)>::empty());
        }
        while pending.len() > 0
            invariant
                cache.wf(),
                Cache::shrunk(*old(cache), *cache),
                source.len() == n,
                pending@.len() <= n,
                forall|j: int| 0 <= j < pending@.len() ==> pending@[j] == source[n - 1 - j],
                self.spec_capacity() == cap,
                self.entries().len() + pending@.len() <= len0 + n,
                len0 + n <= cap,
                self@ == insert_all(old(self)@, source.take(n - pending@.len())),
            decreases pending@.len(),
        {
            let ghost k = n - pending@.len();
            let ghost before = *cache;
            match pending.pop() {
                Some((key, value)) => {
                    proof {
                        assert(source.take(k + 1).drop_last() =~= source.take(k));
                        assert(source.take(k + 1).last() == (key, value));
                    }
                    let previous = self.insert(key, value, cache);
                    proof {
                        match previous {
                            Some(_) => {
                                Cache::lemma_dropped_shrunk(before, key, *cache);
                            },
                            None => {
                                Cache::lemma_shrunk_refl(before);
                            },
                        }
                        Cache::lemma_shrunk_trans(*old(cache), before, *cache);
                    }
                },
                None => {},
            }
        }
        proof {
            assert(source.take(n as int) =~= source);
        }
    }

    /// Shrinks the memory allocation used by the object such that its
    /// capacity becomes equal to its length.
    pub fn shrink_to_fit(&mut self)
        ensures
            final(self).entries() == old(self).entries(),
            final(self)@ == old(self)@,
            final(self).spec_capacity() == old(self).entries().len(),
    {
        proof {
            use_type_invariant(&*self);
            Self::lemma_fits_smaller(self.cap as int, self.keys@.len() as int);
        }
        self.resize_internal(self.len());
    }

    /// Removes all entries from the object, and drops them. The capacity is unchanged.
    pub fn clear<T: CacheTable>(&mut self, cache: &mut Cache<T>)
        requires
            old(cache).wf(),
        ensures
            final(cache).wf(),
            Cache::shrunk(*old(cache), *final(cache)),
            final(cache).entries() == drop_back(old(cache).entries(), old(self).strings()),
            final(self).spec_capacity() == old(self).spec_capacity(),
            final(self).entries() == Seq::<(IString, IValue)>::empty(),
        decreases *old(self), 1nat,
    {
        proof {
            use_type_invariant(&*self);
            Cache::lemma_shrunk_refl(*cache);
        }
        if self.is_empty() {
            assert(self.entries() =~= Seq::<(IString, IValue)>::empty());
            return ;
        }
        let mut taken = Self::new();
        std::mem::swap(self, &mut taken);
        let cap = taken.cap;
        let mut keys = taken.keys;
        let mut values = taken.values;
        let ghost start = values@;
        let ghost start_keys = keys@;
        // Drop the items
        while values.len() > 0 && keys.len() > 0
            invariant
                cache.wf(),
                Cache::shrunk(*old(cache), *cache),
                cache.entries() == drop_back(
                    old(cache).entries(),
                    old(self).strings_between(values@.len() as int, start.len() as int),
                ),
                values@.len() == keys@.len(),
                values@.len() <= start.len(),
                values@ == start.take(values@.len() as int),
                keys@ == start_keys.take(keys@.len() as int),
                start == old(self).values@,
                start_keys == old(self).keys@,
                start.len() == start_keys.len(),
            decreases values@.len(),
        {
            let ghost before = *cache;
            let ghost n = values@.len();
            match (keys.pop(), values.pop()) {
                (Some(key), Some(value)) => {
                    assert(value == old(self).values@[n - 1]);
                    assert(key == old(self).keys@[n - 1]);
                    value.drop_impl(cache);
                    let ghost middle = *cache;
                    key.drop_impl(cache);
                    proof {
                        Cache::lemma_dropped_shrunk(middle, key, *cache);
                        Cache::lemma_shrunk_trans(before, middle, *cache);
                        lemma_one_handle(middle.entries(), key);
                        lemma_drop_back_concat(before.entries(), seq![key], value.strings());
                        assert(old(self).entry_strings(n - 1) == seq![key] + value.strings());
                    }
                },
                _ => {},
            }
            proof {
                Cache::lemma_shrunk_trans(*old(cache), before, *cache);
                assert(values@ =~= start.take(values@.len() as int));
                assert(keys@ =~= start_keys.take(keys@.len() as int));
                old(self).lemma_strings_from(n - 1, start.len() as int);
                lemma_drop_back_concat(
                    old(cache).entries(),
                    old(self).entry_strings(n - 1),
                    old(self).strings_between(n as int, start.len() as int),
                );
            }
        }
        // Clear the table
        let mut fresh = Self::with_capacity(cap);
        std::mem::swap(self, &mut fresh);
    }

    /// A deep copy of the object, with room for just its entries. The cache counts the
    /// strings of the copy.
    pub fn clone_impl<T: CacheTable>(&self, cache: &mut Cache<T>) -> (r: Self)
        requires
            old(cache).wf(),
        ensures
            final(cache).wf(),
            Cache::grown(*old(cache), *final(cache)),
            final(cache).entries() == clone_each(old(cache).entries(), self.strings()),
            r.strings() == self.strings(),
            r.spec_capacity() == self.entries().len(),
            r.spec_eq(self),
        decreases self, 0nat,
    {
        proof {
            use_type_invariant(self);
            Self::lemma_fits_smaller(self.cap as int, self.keys@.len() as int);
            Cache::lemma_grown_refl(*cache);
            lemma_distinct(self.keys@, self.values@, self.table@);
        }
        let len = self.keys.len();
        let mut res = Self::with_capacity(len);
        let mut i: usize = 0;
        while i < len
            invariant
                cache.wf(),
                Cache::grown(*old(cache), *cache),
                cache.entries() == clone_each(
                    old(cache).entries(),
                    self.strings_between(0, i as int),
                ),
                len == self.keys@.len(),
                len == self.values@.len(),
                i <= len,
                distinct_keys(self.entries()),
                res.spec_capacity() == len,
                res.entries().len() == i,
                forall|j: int|
                    0 <= j < i ==> (#[trigger] res.entries()[j]).0.spec_addr()
                        == self.entries()[j].0.spec_addr() && res.entries()[j].1.spec_eq(
                        &self.entries()[j].1,
                    ),
                forall|j: int|
                    0 <= j < i ==> (#[trigger] res.entries()[j]).0 == self.entries()[j].0
                        && res.entries()[j].1.strings() == self.entries()[j].1.strings(),
            decreases len - i,
        {
            let ghost before = *cache;
            let ghost previous = res.entries();
            let k = self.keys[i].clone_impl(cache);
            let ghost middle = *cache;
            let v = self.values[i].clone_impl(cache);
            proof {
                Cache::lemma_cloned_grown(before, self.keys@[i as int], middle);
                Cache::lemma_grown_trans(before, middle, *cache);
                Cache::lemma_grown_trans(*old(cache), before, *cache);
                lemma_one_handle(before.entries(), self.keys@[i as int]);
                lemma_clone_each_concat(
                    before.entries(),
                    seq![self.keys@[i as int]],
                    self.values@[i as int].strings(),
                );
                assert(self.entry_strings(i as int) == seq![self.keys@[i as int]]
                    + self.values@[i as int].strings());
                lemma_clone_each_concat(
                    old(cache).entries(),
                    self.strings_between(0, i as int),
                    self.entry_strings(i as int),
                );
                if has_key(previous, k.spec_addr()) {
                    let j = key_index(previous, k.spec_addr());
                    assert(self.entries()[j].0.spec_addr() != self.entries()[i as int].0.spec_addr());
                }
            }
            res.insert(k, v, cache);
            i += 1;
        }
        proof {
            assert forall|j: int| 0 <= j < res.entries().len() implies {
                let addr = (#[trigger] res.entries()[j]).0.spec_addr();
                &&& has_key(self.entries(), addr)
                &&& res.entries()[j].1.spec_eq(&self.entries()[key_index(self.entries(), addr)].1)
            } by {
                let addr = res.entries()[j].0.spec_addr();
                assert(self.entries()[j].0.spec_addr() == addr);
                let c = key_index(self.entries(), addr);
                assert(c == j);
            }
            res.lemma_strings_same(self, len as int);
        }
        res
    }

    /// Returns a view of an entry within this object. Where the object has an entry with
    /// the key, the key that was handed in is dropped.
    pub fn entry<T: CacheTable>(&mut self, key: IString, cache: &mut Cache<T>) -> (r: Entry<'_>)
        requires
            old(self).can_reserve(1),
            old(cache).wf(),
        ensures
            final(cache).wf(),
            r.wf(),
            r.target().entries() == old(self).entries(),
            r.target().spec_capacity() == if old(self).entries().len() < old(
                self,
            ).spec_capacity() {
                old(self).spec_capacity() as int
            } else {
                Self::grown(old(self).spec_capacity() as int, old(self).entries().len() as int + 1)
            },
            match r {
                Entry::Occupied(occ) => {
                    &&& has_key(old(self).entries(), key.spec_addr())
                    &&& occ.index() == key_index(old(self).entries(), key.spec_addr())
                    &&& Cache::dropped(*old(cache), key, *final(cache))
                    &&& *final(self) == *final(occ.object)
                },
                Entry::Vacant(vac) => {
                    &&& !has_key(old(self).entries(), key.spec_addr())
                    &&& vac.key == key
                    &&& *final(cache) == *old(cache)
                    &&& *final(self) == *final(vac.object)
                },
            },
    {
        self.reserve(1);
        proof {
            use_type_invariant(&*self);
            Self::lemma_fits_bounds(self.cap as int);
            lemma_distinct(self.keys@, self.values@, self.table@);
            lemma_absent_has_key(self.keys@, self.values@, key.spec_addr());
        }
        let found = self.header().find_bucket(&key);
        match found {
            Ok(bucket) => {
                proof {
                    let index = self.table@[bucket as int] as int;
                    assert(self.entries()[index].0.spec_addr() == key.spec_addr());
                }
                key.drop_impl(cache);
                Entry::Occupied(OccupiedEntry { object: self, bucket })
            },
            Err(bucket) => Entry::Vacant(VacantEntry { object: self, bucket, key }),
        }
    }

    /// Returns a view of an entry within this object, whilst avoiding
    /// cloning the key if the entry is already occupied.
    pub fn entry_or_clone<T: CacheTable>(&mut self, key: &IString, cache: &mut Cache<T>) -> (r: Entry<'_>)
        requires
            old(self).can_reserve(1),
            old(cache).wf(),
        ensures
            final(cache).wf(),
            r.wf(),
            r.target().entries() == old(self).entries(),
            match r {
                Entry::Occupied(occ) => {
                    &&& has_key(old(self).entries(), key.spec_addr())
                    &&& occ.index() == key_index(old(self).entries(), key.spec_addr())
                    &&& *final(cache) == *old(cache)
                    &&& *final(self) == *final(occ.object)
                },
                Entry::Vacant(vac) => {
                    &&& !has_key(old(self).entries(), key.spec_addr())
                    &&& vac.key == *key
                    &&& Cache::cloned(*old(cache), *key, *final(cache))
                    &&& *final(self) == *final(vac.object)
                },
            },
    {
        self.reserve(1);
        proof {
            use_type_invariant(&*self);
            Self::lemma_fits_bounds(self.cap as int);
            lemma_distinct(self.keys@, self.values@, self.table@);
            lemma_absent_has_key(self.keys@, self.values@, key.spec_addr());
        }
        let found = self.header().find_bucket(key);
        match found {
            Ok(bucket) => {
                proof {
                    let index = self.table@[bucket as int] as int;
                    assert(self.entries()[index].0.spec_addr() == key.spec_addr());
                }
                Entry::Occupied(OccupiedEntry { object: self, bucket })
            },
            Err(bucket) => Entry::Vacant(
                VacantEntry { object: self, bucket, key: key.clone_impl(cache) },
            ),
        }
    }

    /// Calls the specified function for each entry in the object. Each entry
    /// where the function returns `false` is removed from the object, and dropped.
    ///
    /// The function also has the ability to modify the values in-place.
    ///
    /// The function is called once for each entry. The object is left with the entries
    /// for which it returned `true`, each with the value that the function left.
    pub fn retain<F: Fn(&IString, &mut IValue) -> bool, T: CacheTable>(
        &mut self,
        f: F,
        cache: &mut Cache<T>,
    )
        requires
            forall|k: &IString, v: &mut IValue| f.requires((k, v)),
            old(cache).wf(),
        ensures
            final(cache).wf(),
            Cache::shrunk(*old(cache), *final(cache)),
            final(self).spec_capacity() == old(self).spec_capacity(),
            distinct_keys(final(self).entries()),
            forall|addr: usize| #[trigger]
                final(self)@.dom().contains(addr) ==> old(self)@.dom().contains(addr),
            exists|made: Seq<(IValue, bool)>|
                {
                    &&& #[trigger] made.len() == old(self).entries().len()
                    &&& forall|i: int|
                        0 <= i < made.len() ==> {
                            &&& ObjectOp::get(
                                final(self)@,
                                old(self).entries()[i].0.spec_addr(),
                            ) == if (#[trigger] made[i]).1 {
                                Some(made[i].0)
                            } else {
                                None
                            }
                            &&& exists|v: &mut IValue|
                                {
                                    &&& *v == old(self).entries()[i].1
                                    &&& *final(v) == made[i].0
                                    &&& f.ensures((&old(self).entries()[i].0, v), made[i].1)
                                }
                        }
                },
    {
        proof {
            use_type_invariant(&*self);
            lemma_distinct(self.keys@, self.values@, self.table@);
            Cache::lemma_shrunk_refl(*cache);
        }
        let ghost entries0 = self.entries();
        let ghost n = entries0.len() as int;
        if self.is_empty() {
            assert(Seq::<(IValue, bool)>::empty().len() == old(self).entries().len());
            return ;
        }
        let mut taken = Self::new();
        std::mem::swap(self, &mut taken);
        let mut hd = taken.into_split();
        // where each entry that is there was at first, and what the function made of
        // each entry that it has seen
        let ghost origin: Seq<int> = Seq::new(n as nat, |j: int| j);
        let ghost seen: Seq<bool> = Seq::new(n as nat, |j: int| false);
        let ghost made: Seq<(IValue, bool)> = Seq::new(n as nat, |j: int| (entries0[j].1, true));
        proof {
            assert forall|j: int| 0 <= j < n implies #[trigger] is_origin(origin, j) by {
                assert(origin[j] == j);
            }
        }
        let mut index: usize = 0;
        while index < hd.keys.len()
            invariant
                hd.wf(),
                hd.cap == old(self).cap,
                cache.wf(),
                Cache::shrunk(*old(cache), *cache),
                forall|k: &IString, v: &mut IValue| f.requires((k, v)),
                entries0 == old(self).entries(),
                n == entries0.len(),
                index <= hd.keys@.len(),
                origin.len() == hd.keys@.len(),
                seen.len() == n,
                made.len() == n,
                forall|p: int|
                    0 <= p < origin.len() ==> 0 <= #[trigger] origin[p] < n && hd.keys@[p]
                        == entries0[origin[p]].0 && seen[origin[p]] == (p < index),
                forall|p: int|
                    index <= p < origin.len() ==> hd.values@[p] == entries0[#[trigger] origin[p]].1,
                forall|p: int|
                    0 <= p < index ==> made[#[trigger] origin[p]] == (hd.values@[p], true),
                forall|j: int|
                    0 <= j < n ==> #[trigger] is_origin(origin, j) || (seen[j] && !made[j].1),
                forall|j: int|
                    0 <= j < n && #[trigger] seen[j] && !made[j].1 ==> absent(
                        keys_of(hd.keys@),
                        entries0[j].0.spec_addr(),
                    ),
                forall|j: int|
                    0 <= j < n && #[trigger] seen[j] ==> exists|v: &mut IValue|
                        {
                            &&& *v == entries0[j].1
                            &&& *final(v) == made[j].0
                            &&& f.ensures((&entries0[j].0, v), made[j].1)
                        },
            decreases hd.keys@.len() - index,
        {
            proof {
                lemma_placed(hd.keys@, hd.table@, index as int);
                IObject::lemma_fits_bounds(hd.cap as int);
            }
            let ghost keys0 = hd.keys@;
            let ghost values0 = hd.values@;
            let ghost table0 = hd.table@;
            let ghost j0 = origin[index as int];
            let keep = f(&hd.keys[index], &mut hd.values[index]);
            proof {
                seen = seen.update(j0, true);
                made = made.update(j0, (hd.values@[index as int], keep));
                assert forall|p: int| 0 <= p < origin.len() && p != index implies #[trigger] origin[p]
                    != j0 by {
                    lemma_keys_differ(keys0, table0, p, index as int);
                }
            }
            if keep {
                index += 1;
            } else {
                let bucket = hd.as_ref().find_bucket_from_index(index);
                let (k, v) = hd.remove_bucket(bucket);
                let ghost c0 = *cache;
                k.drop_impl(cache);
                let ghost c1 = *cache;
                v.drop_impl(cache);
                proof {
                    Cache::lemma_dropped_shrunk(c0, k, c1);
                    Cache::lemma_shrunk_trans(c0, c1, *cache);
                    Cache::lemma_shrunk_trans(*old(cache), c0, *cache);
                    let last = origin.len() - 1;
                    let origin0 = origin;
                    origin = origin.update(index as int, origin.last()).drop_last();
                    assert forall|j: int|
                        0 <= j < n && #[trigger] seen[j] && !made[j].1 implies absent(
                        keys_of(hd.keys@),
                        entries0[j].0.spec_addr(),
                    ) by {
                        let addr = entries0[j].0.spec_addr();
                        assert forall|q: int| 0 <= q < hd.keys@.len() implies #[trigger] keys_of(
                            hd.keys@,
                        )[q] != addr by {
                            let q0 = if q == index {
                                last
                            } else {
                                q
                            };
                            assert(hd.keys@[q] == keys0[q0]);
                            if j == j0 {
                                lemma_keys_differ(keys0, table0, q0, index as int);
                            } else {
                                assert(keys_of(keys0)[q0] != addr);
                            }
                        }
                    }
                    assert forall|j: int| 0 <= j < n implies #[trigger] is_origin(origin, j) || (
                    seen[j] && !made[j].1) by {
                        if j != j0 && is_origin(origin0, j) {
                            let before_at = choose|p: int| 0 <= p < origin0.len() && #[trigger] origin0[p] == j;
                            let after_at = if before_at == last {
                                index as int
                            } else {
                                before_at
                            };
                            assert(origin[after_at] == j);
                        }
                    }
                }
            }
        }
        proof {
            lemma_distinct(hd.keys@, hd.values@, hd.table@);
        }
        let ghost final_keys = hd.keys@;
        let ghost final_values = hd.values@;
        *self = Self::from_split(hd);
        proof {
            let entries = self.entries();
            assert forall|addr: usize| #[trigger] self@.dom().contains(addr) implies old(
                self,
            )@.dom().contains(addr) by {
                let p = key_index(entries, addr);
                assert(entries[p].0.spec_addr() == addr);
                assert(entries0[origin[p]].0 == final_keys[p]);
            }
            assert forall|i: int| 0 <= i < made.len() implies {
                &&& ObjectOp::get(final(self)@, old(self).entries()[i].0.spec_addr()) == if (
                #[trigger] made[i]).1 {
                    Some(made[i].0)
                } else {
                    None
                }
                &&& exists|v: &mut IValue|
                    {
                        &&& *v == old(self).entries()[i].1
                        &&& *final(v) == made[i].0
                        &&& f.ensures((&old(self).entries()[i].0, v), made[i].1)
                    }
            } by {
                let key = entries0[i].0;
                let addr = key.spec_addr();
                if is_origin(origin, i) {
                    let p = choose|p: int| 0 <= p < origin.len() && #[trigger] origin[p] == i;
                    assert(entries[p].0.spec_addr() == addr);
                    let c = key_index(entries, addr);
                    assert(c == p);
                    assert(seen[i]);
                    assert(made[i] == (final_values[p], true));
                } else {
                    assert(seen[i] && !made[i].1);
                    lemma_absent_has_key(final_keys, final_values, addr);
                }
                assert(seen[i]);
                assert(final(self)@ == self@);
            }
            assert(made.len() == old(self).entries().len());
        }
    }

    /// The keys of the entries, in order.
    pub fn keys(&self) -> (r: Vec<&IString>)
        ensures
            r@.len() == self.entries().len(),
            forall|i: int| 0 <= i < r@.len() ==> *r@[i] == self.entries()[i].0,
    {
        proof {
            use_type_invariant(self);
        }
        let mut res: Vec<&IString> = Vec::with_capacity(self.keys.len());
        let mut i: usize = 0;
        while i < self.keys.len()
            invariant
                i <= self.keys@.len(),
                self.keys@.len() == self.values@.len(),
                res@.len() == i,
                forall|j: int| 0 <= j < i ==> *res@[j] == self.entries()[j].0,
            decreases self.keys@.len() - i,
        {
            res.push(&self.keys[i]);
            i += 1;
        }
        res
    }

    /// The values of the entries, in order.
    pub fn values(&self) -> (r: Vec<&IValue>)
        ensures
            r@.len() == self.entries().len(),
            forall|i: int| 0 <= i < r@.len() ==> *r@[i] == self.entries()[i].1,
    {
        let mut res: Vec<&IValue> = Vec::with_capacity(self.values.len());
        let mut i: usize = 0;
        while i < self.values.len()
            invariant
                i <= self.values@.len(),
                res@.len() == i,
                forall|j: int| 0 <= j < i ==> *res@[j] == self.entries()[j].1,
            decreases self.values@.len() - i,
        {
            res.push(&self.values[i]);
            i += 1;
        }
        res
    }

    /// Returns an iterator over (&key, &value) pairs in this object.
    pub fn iter(&self) -> (r: Iter<'_>)
        ensures
            r@ == self.entries(),
    {
        proof {
            use_type_invariant(self);
        }
        let r = Iter { keys: &self.keys, values: &self.values, position: 0 };
        assert(r@ =~= self.entries());
        r
    }

    /// Turns the object into an iterator over its entries, first to last.
    pub fn into_iter(self) -> (r: IntoIter)
        ensures
            r@ == self.entries(),
    {
        proof {
            use_type_invariant(&self);
        }
        let reversed_keys = reversed(self.keys);
        let reversed_values = reversed(self.values);
        let r = IntoIter { reversed_keys, reversed_values };
        assert(r@ =~= self.entries());
        r
    }

    /// Moves the object and the values of its entries into an arena.
    pub fn defrag_impl<A: DefragAllocator>(self, defrag_allocator: &mut A) -> (r: Self)
        ensures
            r.spec_capacity() == self.spec_capacity(),
            r.spec_eq(&self),
        decreases self,
    {
        proof {
            use_type_invariant(&self);
            lemma_distinct(self.keys@, self.values@, self.table@);
        }
        if self.is_static() {
            proof {
                self.lemma_spec_eq_refl_empty();
            }
            return self;
        }
        let cap = self.cap;
        let keys = self.keys;
        let table = self.table;
        let mut values = self.values;
        let ghost start = values@;
        let mut i: usize = 0;
        while i < values.len()
            invariant
                i <= values@.len(),
                values@.len() == start.len(),
                start == self.values@,
                forall|j: int| 0 <= j < i ==> (#[trigger] values@[j]).spec_eq(&start[j]),
                forall|j: int| i <= j < values@.len() ==> values@[j] == start[j],
            decreases values@.len() - i,
        {
            let mut val = IValue::null();
            std::mem::swap(&mut values[i], &mut val);
            assert(val == self.values@[i as int]);
            let mut val = val.defrag_impl(defrag_allocator);
            std::mem::swap(&mut values[i], &mut val);
            i += 1;
        }
        match Self::layout(cap) {
            Ok(layout) => defrag_allocator.realloc_ptr(layout),
            Err(_) => {},
        }
        let r = IObject { cap, keys, values, table };
        proof {
            assert forall|j: int| 0 <= j < r.entries().len() implies {
                let addr = (#[trigger] r.entries()[j]).0.spec_addr();
                &&& has_key(self.entries(), addr)
                &&& r.entries()[j].1.spec_eq(&self.entries()[key_index(self.entries(), addr)].1)
            } by {
                let addr = r.entries()[j].0.spec_addr();
                assert(self.entries()[j].0.spec_addr() == addr);
                let c = key_index(self.entries(), addr);
                assert(c == j);
            }
        }
        r
    }

    /// An object without entries is equal to itself.
    proof fn lemma_spec_eq_refl_empty(self)
        requires
            self.entries().len() == 0,
        ensures
            self.spec_eq(&self),
    {
    }

    /// Drops the object and its entries.
    pub fn drop_impl<T: CacheTable>(self, cache: &mut Cache<T>)
        requires
            old(cache).wf(),
        ensures
            final(cache).wf(),
            Cache::shrunk(*old(cache), *final(cache)),
            final(cache).entries() == drop_back(old(cache).entries(), self.strings()),
        decreases self, 2nat,
    {
        let mut object = self;
        object.clear(cache);
    }

    /// Whether two objects hold the same keys with equal values.
    pub fn eq_impl(&self, other: &Self) -> (r: bool)
        ensures
            r == self.spec_eq(other),
        decreases self, 0nat,
    {
        proof {
            use_type_invariant(self);
        }
        if self.len() != other.len() {
            return false;
        }
        let mut i: usize = 0;
        while i < self.keys.len()
            invariant
                i <= self.keys@.len(),
                self.keys@.len() == self.values@.len(),
                self.entries().len() == other.entries().len(),
                forall|j: int|
                    0 <= j < i ==> {
                        let addr = (#[trigger] self.entries()[j]).0.spec_addr();
                        &&& has_key(other.entries(), addr)
                        &&& self.entries()[j].1.spec_eq(
                            &other.entries()[key_index(other.entries(), addr)].1,
                        )
                    },
            decreases self.keys@.len() - i,
        {
            proof {
                assert(self.entries()[i as int] == (self.keys@[i as int], self.values@[i as int]));
            }
            match other.get_key_value(&self.keys[i]) {
                Some((_, value)) => {
                    if !self.values[i].eq_impl(value) {
                        return false;
                    }
                },
                None => {
                    return false;
                },
            }
            i += 1;
        }
        true
    }
}

/// A view into an occupied entry in an [`IObject`]. It is part of the [`Entry`] enum.
#[derive(Debug)]
pub struct OccupiedEntry<'a> {
    /// The object that the entry is in.
    pub object: &'a mut IObject,
    /// The bucket of the probe table that holds the entry's index.
    pub bucket: usize,
}

impl<'a> OccupiedEntry<'a> {
    /// The object that the entry is in, as it is now.
    pub open spec fn target(&self) -> IObject {
        *self.object
    }

    /// Whether the bucket holds the index of an entry of the object.
    pub closed spec fn wf(&self) -> bool {
        &&& self.bucket < self.object.table@.len()
        &&& self.object.table@[self.bucket as int] != EMPTY
        &&& self.object.table@[self.bucket as int] < self.object.values@.len()
    }

    /// The place of the entry among the entries of the object.
    pub closed spec fn index(&self) -> int {
        self.object.table@[self.bucket as int] as int
    }

    /// A view into the entry at a place is one into an entry of the object.
    pub proof fn lemma_index(&self)
        requires
            self.wf(),
        ensures
            0 <= self.index() < self.target().entries().len(),
    {
    }

    /// Returns a reference to the key at this entry
    pub fn key(&self) -> (r: &IString)
        requires
            self.wf(),
        ensures
            *r == self.target().entries()[self.index()].0,
    {
        proof {
            use_type_invariant(&*self.object);
        }
        let index = self.object.table[self.bucket];
        &self.object.keys[index]
    }

    /// Returns a reference to the value in this entry
    pub fn get(&self) -> (r: &IValue)
        requires
            self.wf(),
        ensures
            *r == self.target().entries()[self.index()].1,
    {
        proof {
            use_type_invariant(&*self.object);
        }
        let index = self.object.table[self.bucket];
        &self.object.values[index]
    }

    /// Returns a mutable reference to the value in this entry
    pub fn get_mut(&mut self) -> (r: &mut IValue)
        requires
            old(self).wf(),
        ensures
            final(self).wf(),
            final(self).bucket == old(self).bucket,
            final(self).index() == old(self).index(),
            *r == old(self).target().entries()[old(self).index()].1,
            final(self).target().entries() == old(self).target().entries().update(
                old(self).index(),
                (old(self).target().entries()[old(self).index()].0, *final(r)),
            ),
            final(self).target().spec_capacity() == old(self).target().spec_capacity(),
            *final(final(self).object) == *final(old(self).object),
    {
        proof {
            use_type_invariant(&*self.object);
        }
        let index = self.object.table[self.bucket];
        proof {
            assert forall|v: IValue|
                entries_of(self.object.keys@, #[trigger] self.object.values@.update(index as int, v))
                    == self.object.entries().update(
                    index as int,
                    (self.object.keys@[index as int], v),
                ) by {
                assert(entries_of(self.object.keys@, self.object.values@.update(index as int, v))
                    =~= self.object.entries().update(
                    index as int,
                    (self.object.keys@[index as int], v),
                ));
            }
        }
        &mut self.object.values[index]
    }

    /// Converts this into a mutable reference to the value in the entry
    /// with a lifetime bound to the [`IObject`] itself.
    pub fn into_mut(self) -> (r: &'a mut IValue)
        requires
            self.wf(),
        ensures
            *r == self.target().entries()[self.index()].1,
            final(self.object).entries() == self.target().entries().update(
                self.index(),
                (self.target().entries()[self.index()].0, *final(r)),
            ),
            final(self.object).spec_capacity() == self.target().spec_capacity(),
    {
        proof {
            use_type_invariant(&*self.object);
        }
        let object = self.object;
        let index = object.table[self.bucket];
        proof {
            assert forall|v: IValue|
                entries_of(object.keys@, #[trigger] object.values@.update(index as int, v))
                    == object.entries().update(index as int, (object.keys@[index as int], v)) by {
                assert(entries_of(object.keys@, object.values@.update(index as int, v))
                    =~= object.entries().update(index as int, (object.keys@[index as int], v)));
            }
        }
        &mut object.values[index]
    }

    /// Sets the value in this entry, and returns the previous value.
    pub fn insert(&mut self, value: IValue) -> (r: IValue)
        requires
            old(self).wf(),
        ensures
            final(self).wf(),
            final(self).bucket == old(self).bucket,
            final(self).index() == old(self).index(),
            r == old(self).target().entries()[old(self).index()].1,
            final(self).target().entries() == old(self).target().entries().update(
                old(self).index(),
                (old(self).target().entries()[old(self).index()].0, value),
            ),
            final(self).target().spec_capacity() == old(self).target().spec_capacity(),
            *final(final(self).object) == *final(old(self).object),
    {
        let mut value = value;
        std::mem::swap(self.get_mut(), &mut value);
        value
    }

    /// Removes and returns the entry as a (key, value) pair. The last entry takes its
    /// place.
    pub fn remove_entry(self) -> (r: (IString, IValue))
        requires
            self.wf(),
        ensures
            r == self.target().entries()[self.index()],
            final(self.object).entries() == self.target().entries().update(
                self.index(),
                self.target().entries().last(),
            ).drop_last(),
            final(self.object)@ == self.target()@.remove(r.0.spec_addr()),
            final(self.object).spec_capacity() == self.target().spec_capacity(),
    {
        proof {
            use_type_invariant(&*self.object);
            lemma_distinct(self.object.keys@, self.object.values@, self.object.table@);
        }
        let object = self.object;
        let ghost entries0 = object.entries();
        let ghost index = self.index();
        let mut taken = IObject::new();
        std::mem::swap(object, &mut taken);
        let mut hd = taken.into_split();
        let entry = hd.remove_bucket(self.bucket);
        proof {
            assert(entries_of(hd.keys@, hd.values@) =~= entries0.update(
                index,
                entries0.last(),
            ).drop_last());
            lemma_to_map_swap_remove(entries0, index);
        }
        *object = IObject::from_split(hd);
        entry
    }

    /// Removes this entry and returns its value. The key is dropped.
    pub fn remove<T: CacheTable>(self, cache: &mut Cache<T>) -> (r: IValue)
        requires
            self.wf(),
            old(cache).wf(),
        ensures
            final(cache).wf(),
            r == self.target().entries()[self.index()].1,
            final(self.object).entries() == self.target().entries().update(
                self.index(),
                self.target().entries().last(),
            ).drop_last(),
            final(self.object)@ == self.target()@.remove(
                self.target().entries()[self.index()].0.spec_addr(),
            ),
            final(self.object).spec_capacity() == self.target().spec_capacity(),
            Cache::dropped(
                *old(cache),
                self.target().entries()[self.index()].0,
                *final(cache),
            ),
    {
        let (key, value) = self.remove_entry();
        key.drop_impl(cache);
        value
    }
}

/// A view into a vacant entry in an [`IObject`]. It is part of the [`Entry`] enum.
#[derive(Debug)]
pub struct VacantEntry<'a> {
    /// The object that the entry would be in.
    pub object: &'a mut IObject,
    /// The bucket of the probe table at which the entry's index would go in.
    pub bucket: usize,
    /// The key of the entry.
    pub key: IString,
}

impl<'a> VacantEntry<'a> {
    /// The object that the entry would be in, as it is now.
    pub open spec fn target(&self) -> IObject {
        *self.object
    }

    /// Whether the object has room for the entry, no entry with its key, and the bucket is
    /// where the key goes.
    pub closed spec fn wf(&self) -> bool {
        &&& self.object.values@.len() < self.object.cap
        &&& absent(keys_of(self.object.keys@), self.key.spec_addr())
        &&& insertion_point(
            keys_of(self.object.keys@),
            self.object.table@,
            self.key.spec_addr(),
            self.bucket as int,
        )
    }

    /// Returns a reference to the key at this entry.
    pub fn key(&self) -> (r: &IString)
        ensures
            *r == self.key,
    {
        &self.key
    }

    /// Takes ownership of the key.
    pub fn into_key(self) -> (r: IString)
        ensures
            r == self.key,
            *final(self.object) == self.target(),
    {
        self.key
    }

    /// Inserts a value into this entry and returns a mutable reference
    /// to it.
    pub fn insert(self, value: IValue) -> (r: &'a mut IValue)
        requires
            self.wf(),
        ensures
            *r == value,
            final(self.object).entries() == self.target().entries().push((self.key, *final(r))),
            final(self.object)@ == self.target()@.insert(self.key.spec_addr(), *final(r)),
            final(self.object).spec_capacity() == self.target().spec_capacity(),
    {
        proof {
            use_type_invariant(&*self.object);
            lemma_distinct(self.object.keys@, self.object.values@, self.object.table@);
            lemma_absent_has_key(self.object.keys@, self.object.values@, self.key.spec_addr());
        }
        let object = self.object;
        let ghost entries0 = object.entries();
        let ghost key = self.key;
        let mut taken = IObject::new();
        std::mem::swap(object, &mut taken);
        let mut hd = taken.into_split();
        let ghost keys0 = hd.keys@;
        let ghost addrs0 = hd.addrs();
        let index = hd.push(self.key, value);
        proof {
            assert(hd.keys@.drop_last() =~= keys0);
            assert(hd.addrs().drop_last() =~= addrs0);
            assert(entries_of(hd.keys@, hd.values@) =~= entries0.push((key, value)));
        }
        hd.shift(self.bucket, index);
        *object = IObject::from_split(hd);
        proof {
            assert forall|v: IValue|
                entries_of(object.keys@, #[trigger] object.values@.update(index as int, v))
                    == entries0.push((key, v)) && to_map(entries0.push((key, v))) == to_map(
                    entries0,
                ).insert(key.spec_addr(), v) by {
                assert(entries_of(object.keys@, object.values@.update(index as int, v))
                    =~= entries0.push((key, v)));
                lemma_to_map_push(entries0, key, v);
            }
        }
        &mut object.values[index]
    }
}

/// A view into a single entry in an [`IObject`], which may be either vacant
/// or occupied.
///
/// Obtained using [`IObject::entry`].
#[derive(Debug)]
pub enum Entry<'a> {
    /// An occupied entry.
    Occupied(OccupiedEntry<'a>),
    /// A vacant entry.
    Vacant(VacantEntry<'a>),
}

impl<'a> Entry<'a> {
    /// Whether the view is one into its object.
    pub open spec fn wf(&self) -> bool {
        match self {
            Entry::Occupied(occ) => occ.wf(),
            Entry::Vacant(vac) => vac.wf(),
        }
    }

    /// The object that the entry is in, as it is now.
    pub open spec fn target(&self) -> IObject {
        match self {
            Entry::Occupied(occ) => occ.target(),
            Entry::Vacant(vac) => vac.target(),
        }
    }

    /// Fills this entry if it's currently vacant, and then
    /// returns a mutable reference to the value at this entry. Where the entry is
    /// occupied, the default is dropped.
    pub fn or_insert<T: CacheTable>(self, default: IValue, cache: &mut Cache<T>) -> (r:
        &'a mut IValue)
        requires
            self.wf(),
            old(cache).wf(),
        ensures
            final(cache).wf(),
            match self {
                Entry::Occupied(occ) => {
                    &&& *r == occ.target().entries()[occ.index()].1
                    &&& final(occ.object).entries() == occ.target().entries().update(
                        occ.index(),
                        (occ.target().entries()[occ.index()].0, *final(r)),
                    )
                    &&& final(occ.object).spec_capacity() == occ.target().spec_capacity()
                    &&& final(cache).frontier() == old(cache).frontier()
                    &&& final(cache).entries() == drop_back(
                        old(cache).entries(),
                        default.strings(),
                    )
                },
                Entry::Vacant(vac) => {
                    &&& *r == default
                    &&& final(vac.object).entries() == vac.target().entries().push(
                        (vac.key, *final(r)),
                    )
                    &&& final(vac.object).spec_capacity() == vac.target().spec_capacity()
                    &&& *final(cache) == *old(cache)
                },
            },
    {
        match self {
            Entry::Occupied(occ) => {
                default.drop_impl(cache);
                occ.into_mut()
            },
            Entry::Vacant(vac) => vac.insert(default),
        }
    }

    /// Fills this entry by calling the specified function if it's
    /// currently vacant, and then returns a mutable reference to
    /// the value at this entry.
    pub fn or_insert_with<F: FnOnce() -> IValue>(self, default: F) -> (r: &'a mut IValue)
        requires
            self.wf(),
            default.requires(()),
        ensures
            match self {
                Entry::Occupied(occ) => {
                    &&& *r == occ.target().entries()[occ.index()].1
                    &&& final(occ.object).entries() == occ.target().entries().update(
                        occ.index(),
                        (occ.target().entries()[occ.index()].0, *final(r)),
                    )
                    &&& final(occ.object).spec_capacity() == occ.target().spec_capacity()
                },
                Entry::Vacant(vac) => {
                    &&& default.ensures((), *r)
                    &&& final(vac.object).entries() == vac.target().entries().push(
                        (vac.key, *final(r)),
                    )
                    &&& final(vac.object).spec_capacity() == vac.target().spec_capacity()
                },
            },
    {
        match self {
            Entry::Occupied(occ) => occ.into_mut(),
            Entry::Vacant(vac) => vac.insert(default()),
        }
    }

    /// Updates the value in this entry by calling the specified mutation
    /// function if the entry is occupied. The function is called once, on the value of
    /// the entry, and the entry then holds what the function made of it; every other
    /// entry, and a vacant entry, stay as they are.
    pub fn and_modify<F: FnOnce(&mut IValue)>(self, f: F) -> (r: Self)
        requires
            self.wf(),
            forall|v: &mut IValue| f.requires((v,)),
        ensures
            r.wf(),
            r.target().spec_capacity() == self.target().spec_capacity(),
            match self {
                Entry::Occupied(occ) => {
                    &&& r is Occupied
                    &&& r->Occupied_0.bucket == occ.bucket
                    &&& r->Occupied_0.index() == occ.index()
                    &&& exists|v: &mut IValue|
                        {
                            &&& *v == occ.target().entries()[occ.index()].1
                            &&& f.ensures((v,), ())
                            &&& #[trigger] r.target().entries() == occ.target().entries().update(
                                occ.index(),
                                (occ.target().entries()[occ.index()].0, *final(v)),
                            )
                        }
                    &&& *final(r->Occupied_0.object) == *final(occ.object)
                },
                Entry::Vacant(vac) => r == self,
            },
    {
        let mut entry = self;
        if let Entry::Occupied(occ) = &mut entry {
            f(occ.get_mut());
        }
        entry
    }

    /// Returns a reference to the key at this entry.
    pub fn key(&self) -> (r: &IString)
        requires
            self.wf(),
        ensures
            *r == match self {
                Entry::Occupied(occ) => occ.target().entries()[occ.index()].0,
                Entry::Vacant(vac) => vac.key,
            },
    {
        match self {
            Entry::Occupied(occ) => occ.key(),
            Entry::Vacant(vac) => vac.key(),
        }
    }
}

/// Iterator over (&[`IString`], &[`IValue`]) pairs returned from
/// [`IObject::iter`]
#[derive(Debug)]
pub struct Iter<'a> {
    keys: &'a Vec<IString>,
    values: &'a Vec<IValue>,
    position: usize,
}

impl<'a> View for Iter<'a> {
    type V = Seq<(IString, IValue)>;

    /// The entries that are left.
    closed spec fn view(&self) -> Seq<(IString, IValue)> {
        Seq::new(
            (self.values@.len() - self.position) as nat,
            |i: int| (self.keys@[self.position + i], self.values@[self.position + i]),
        )
    }
}

impl<'a> Iter<'a> {
    #[verifier::type_invariant]
    spec fn inv(self) -> bool {
        self.position <= self.values@.len() && self.keys@.len() == self.values@.len()
    }

    /// The next entry, if one is left.
    pub fn next(&mut self) -> (r: Option<(&'a IString, &'a IValue)>)
        ensures
            match r {
                Some((key, value)) => {
                    &&& old(self)@.len() > 0
                    &&& *key == old(self)@[0].0
                    &&& *value == old(self)@[0].1
                    &&& final(self)@ == old(self)@.drop_first()
                },
                None => old(self)@.len() == 0 && final(self)@ == old(self)@,
            },
    {
        proof {
            use_type_invariant(&*self);
        }
        if self.position < self.values.len() {
            let keys = self.keys;
            let values = self.values;
            let i = self.position;
            self.position = i + 1;
            proof {
                assert(final(self)@ =~= old(self)@.drop_first());
            }
            Some((&keys[i], &values[i]))
        } else {
            None
        }
    }

    /// The number of entries that are left.
    pub fn len(&self) -> (r: usize)
        ensures
            r == self@.len(),
    {
        proof {
            use_type_invariant(self);
        }
        self.values.len() - self.position
    }
}

/// Iterator over ([`IString`], [`IValue`]) pairs returned from
/// [`IObject::into_iter`]: it holds the entries that are left, the next one last.
#[derive(Debug)]
pub struct IntoIter {
    reversed_keys: Vec<IString>,
    reversed_values: Vec<IValue>,
}

impl View for IntoIter {
    type V = Seq<(IString, IValue)>;

    /// The entries that are left.
    closed spec fn view(&self) -> Seq<(IString, IValue)> {
        Seq::new(
            self.reversed_values@.len(),
            |i: int|
                (
                    self.reversed_keys@[self.reversed_values@.len() - 1 - i],
                    self.reversed_values@[self.reversed_values@.len() - 1 - i],
                ),
        )
    }
}

impl IntoIter {
    #[verifier::type_invariant]
    spec fn inv(self) -> bool {
        self.reversed_keys@.len() == self.reversed_values@.len()
    }

    /// The next entry, if one is left.
    pub fn next(&mut self) -> (r: Option<(IString, IValue)>)
        ensures
            old(self)@.len() > 0 ==> r == Some(old(self)@[0]) && final(self)@ == old(
                self,
            )@.drop_first(),
            old(self)@.len() == 0 ==> r is None && final(self)@ == old(self)@,
    {
        proof {
            use_type_invariant(&*self);
        }
        let mut taken = IntoIter { reversed_keys: Vec::new(), reversed_values: Vec::new() };
        std::mem::swap(self, &mut taken);
        let mut keys = taken.reversed_keys;
        let mut values = taken.reversed_values;
        let r = match (keys.pop(), values.pop()) {
            (Some(key), Some(value)) => Some((key, value)),
            _ => None,
        };
        *self = IntoIter { reversed_keys: keys, reversed_values: values };
        proof {
            if old(self)@.len() > 0 {
                assert(final(self)@ =~= old(self)@.drop_first());
            } else {
                assert(final(self)@ =~= old(self)@);
            }
        }
        r
    }

    /// The number of entries that are left.
    pub fn len(&self) -> (r: usize)
        ensures
            r == self@.len(),
    {
        self.reversed_values.len()
    }
}

/// Marks the types that can index into an [`IObject`].
pub trait Sealed {

}

impl Sealed for &IString {

}

/// Trait which abstracts over the various string types which can be used
/// to index into an [`IObject`].
pub trait ObjectIndex: Sealed + Copy {
    /// The address of the key that the index stands for.
    spec fn key_addr(self) -> usize;

    /// The entry with the key.
    fn index_into<'a>(self, v: &'a IObject) -> (r: Option<(&'a IString, &'a IValue)>)
        ensures
            match r {
                Some((key, value)) => {
                    let i = key_index(v.entries(), self.key_addr());
                    &&& has_key(v.entries(), self.key_addr())
                    &&& *key == v.entries()[i].0
                    &&& *value == v.entries()[i].1
                },
                None => !has_key(v.entries(), self.key_addr()),
            },
    ;

    /// The entry with the key, its value to be changed in place.
    fn index_into_mut<'a>(self, v: &'a mut IObject) -> (r: Option<(&'a IString, &'a mut IValue)>)
        ensures
            final(v).spec_capacity() == old(v).spec_capacity(),
            match r {
                Some((key, value)) => {
                    let i = key_index(old(v).entries(), self.key_addr());
                    &&& has_key(old(v).entries(), self.key_addr())
                    &&& *key == old(v).entries()[i].0
                    &&& *value == old(v).entries()[i].1
                    &&& final(v).entries() == old(v).entries().update(
                        i,
                        (old(v).entries()[i].0, *final(value)),
                    )
                },
                None => {
                    &&& !has_key(old(v).entries(), self.key_addr())
                    &&& *final(v) == *old(v)
                },
            },
    ;

    /// The value of the entry with the key, which is made with the value `null` where
    /// the object has none.
    fn index_or_insert<'a, T: CacheTable>(self, v: &'a mut IObject, cache: &mut Cache<T>) -> (r:
        &'a mut IValue)
        requires
            old(v).can_reserve(1),
            old(cache).wf(),
        ensures
            final(cache).wf(),
            if has_key(old(v).entries(), self.key_addr()) {
                let i = key_index(old(v).entries(), self.key_addr());
                &&& *r == old(v).entries()[i].1
                &&& final(v).entries() == old(v).entries().update(
                    i,
                    (old(v).entries()[i].0, *final(r)),
                )
            } else {
                &&& (*r)@ is Null
                &&& final(v).entries().len() == old(v).entries().len() + 1
                &&& final(v).entries().drop_last() == old(v).entries()
                &&& final(v).entries().last().0.spec_addr() == self.key_addr()
                &&& final(v).entries().last().1 == *final(r)
            },
    ;

    /// Takes out the entry with the key.
    fn remove(self, v: &mut IObject) -> (r: Option<(IString, IValue)>)
        ensures
            final(v).spec_capacity() == old(v).spec_capacity(),
            final(v)@ == old(v)@.remove(self.key_addr()),
            match r {
                Some(entry) => {
                    let i = key_index(old(v).entries(), self.key_addr());
                    &&& has_key(old(v).entries(), self.key_addr())
                    &&& entry == old(v).entries()[i]
                    &&& final(v).entries() == old(v).entries().update(
                        i,
                        old(v).entries().last(),
                    ).drop_last()
                },
                None => {
                    &&& !has_key(old(v).entries(), self.key_addr())
                    &&& final(v).entries() == old(v).entries()
                },
            },
    ;
}

impl ObjectIndex for &IString {
    open spec fn key_addr(self) -> usize {
        self.spec_addr()
    }

    fn index_into<'a>(self, v: &'a IObject) -> (r: Option<(&'a IString, &'a IValue)>) {
        v.get_key_value(self)
    }

    fn index_into_mut<'a>(self, v: &'a mut IObject) -> (r: Option<(&'a IString, &'a mut IValue)>) {
        v.get_key_value_mut(self)
    }

    fn index_or_insert<'a, T: CacheTable>(self, v: &'a mut IObject, cache: &mut Cache<T>) -> (r:
        &'a mut IValue) {
        let ghost entries0 = v.entries();
        let entry = v.entry_or_clone(self, cache);
        proof {
            assert forall|x: IValue| #[trigger]
                entries0.push((*self, x)).drop_last() == entries0 by {
                assert(entries0.push((*self, x)).drop_last() =~= entries0);
            }
        }
        entry.or_insert(IValue::null(), cache)
    }

    fn remove(self, v: &mut IObject) -> (r: Option<(IString, IValue)>) {
        v.remove_entry(self)
    }
}

/// A change to an object, as [`IObject::insert`] and [`IObject::remove`] make it to the
/// map from the addresses of the keys to the values.
pub enum ObjectOp {
    /// A value goes in at a key.
    Insert(usize, IValue),
    /// A key leaves with its value.
    Remove(usize),
}

impl ObjectOp {
    /// The address of the key that the change is about.
    pub open spec fn key(self) -> usize {
        match self {
            ObjectOp::Insert(addr, _) => addr,
            ObjectOp::Remove(addr) => addr,
        }
    }

    /// What the change makes of the map.
    pub open spec fn apply(self, map: Map<usize, IValue>) -> Map<usize, IValue> {
        match self {
            ObjectOp::Insert(addr, value) => map.insert(addr, value),
            ObjectOp::Remove(addr) => map.remove(addr),
        }
    }

    /// What the changes make of the map, one after another.
    pub open spec fn run(ops: Seq<ObjectOp>, map: Map<usize, IValue>) -> Map<usize, IValue>
        decreases ops.len(),
    {
        if ops.len() == 0 {
            map
        } else {
            Self::run(ops.drop_first(), ops[0].apply(map))
        }
    }

    /// What a lookup of a key in a map gives.
    pub open spec fn get(map: Map<usize, IValue>, addr: usize) -> Option<IValue> {
        if map.dom().contains(addr) {
            Some(map[addr])
        } else {
            None
        }
    }

    /// A key that was inserted is found with the value that was inserted, and a key that
    /// was removed is not found.
    pub proof fn lemma_get_after(self, map: Map<usize, IValue>)
        ensures
            Self::get(self.apply(map), self.key()) == match self {
                ObjectOp::Insert(_, value) => Some(value),
                ObjectOp::Remove(_) => None,
            },
    {
    }

    /// A key keeps its value, or stays absent, through any changes that are about other
    /// keys.
    pub proof fn lemma_untouched_key_kept(ops: Seq<ObjectOp>, map: Map<usize, IValue>, addr: usize)
        requires
            forall|i: int| 0 <= i < ops.len() ==> (#[trigger] ops[i]).key() != addr,
        ensures
            Self::get(Self::run(ops, map), addr) == Self::get(map, addr),
        decreases ops.len(),
    {
        if ops.len() > 0 {
            let rest = ops.drop_first();
            assert forall|i: int| 0 <= i < rest.len() implies (#[trigger] rest[i]).key() != addr by {
                assert(rest[i] == ops[i + 1]);
            }
            assert(ops[0].key() != addr);
            Self::lemma_untouched_key_kept(rest, ops[0].apply(map), addr);
        }
    }

    /// After any changes a key is found with the value of the last change that was about
    /// it, or not found where that change was a removal.
    pub proof fn lemma_last_change_wins(ops: Seq<ObjectOp>, map: Map<usize, IValue>, last: int)
        requires
            0 <= last < ops.len(),
            forall|i: int| last < i < ops.len() ==> (#[trigger] ops[i]).key() != ops[last].key(),
        ensures
            Self::get(Self::run(ops, map), ops[last].key()) == match ops[last] {
                ObjectOp::Insert(_, value) => Some(value),
                ObjectOp::Remove(_) => None,
            },
        decreases ops.len(),
    {
        let rest = ops.drop_first();
        if last == 0 {
            assert forall|i: int| 0 <= i < rest.len() implies (#[trigger] rest[i]).key()
                != ops[0].key() by {
                assert(rest[i] == ops[i + 1]);
            }
            Self::lemma_untouched_key_kept(rest, ops[0].apply(map), ops[0].key());
            ops[0].lemma_get_after(map);
        } else {
            assert(rest[last - 1] == ops[last]);
            assert forall|i: int| last - 1 < i < rest.len() implies (#[trigger] rest[i]).key()
                != rest[last - 1].key() by {
                assert(rest[i] == ops[i + 1]);
            }
            Self::lemma_last_change_wins(rest, ops[0].apply(map), last - 1);
        }
    }
}

impl<A: DefragAllocator> Defrag<A> for IObject {
    open spec fn same_content(&self, other: &Self) -> bool {
        self.spec_eq(other)
    }

    fn defrag(self, defrag_allocator: &mut A) -> (r: Self) {
        self.defrag_impl(defrag_allocator)
    }
}

impl PartialEq for IObject {
    fn eq(&self, other: &Self) -> (r: bool) {
        self.eq_impl(other)
    }
}

impl vstd::std_specs::cmp::PartialEqSpecImpl for IObject {
    open spec fn obeys_eq_spec() -> bool {
        true
    }

    open spec fn eq_spec(&self, other: &Self) -> bool {
        self.spec_eq(other)
    }
}

impl Eq for IObject {

}

impl PartialOrd for IObject {
    /// Objects have no order: two that are equal are equal, and two others have none.
    fn partial_cmp(&self, other: &Self) -> (r: Option<Ordering>) {
        if self.eq_impl(other) {
            Some(Ordering::Equal)
        } else {
            None
        }
    }
}

impl vstd::std_specs::cmp::PartialOrdSpecImpl for IObject {
    open spec fn obeys_partial_cmp_spec() -> bool {
        true
    }

    open spec fn partial_cmp_spec(&self, other: &Self) -> Option<Ordering> {
        if self.spec_eq(other) {
            Some(Ordering::Equal)
        } else {
            None
        }
    }
}

impl Default for IObject {
    fn default() -> (r: Self)
        ensures
            r.entries() == Seq::<(IString, IValue)>::empty(),
            r.spec_capacity() == 0,
    {
        Self::new()
    }
}

} // verus!
