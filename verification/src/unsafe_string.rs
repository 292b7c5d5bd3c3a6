//! The string cache of a single thread, whose table is one plain map.

use crate::string::Cache;
use crate::string::CacheTable;
use crate::string::Entries;
use crate::string::FIRST_ADDR;
use vstd::prelude::*;

verus! {

/// A `hashbrown` map from texts to addresses and reference counts.
#[verifier::external_body]
pub struct Table {
    inner: hashbrown::HashMap<String, (usize, usize)>,
}

/// The entries of a table.
pub uninterp spec fn table_entries(t: Table) -> Entries;

/// `hashbrown::HashMap::new`: a table without entries.
#[verifier::external_body]
fn table_new() -> (r: Table)
    ensures
        table_entries(r) == Entries::empty(),
{
    Table { inner: hashbrown::HashMap::new() }
}

/// `hashbrown::HashMap::get`: the entry of a text, where the table has one.
#[verifier::external_body]
fn table_get(t: &Table, s: &str) -> (r: Option<(usize, usize)>)
    ensures
        r == if table_entries(*t).dom().contains(s@) {
            Some(table_entries(*t)[s@])
        } else {
            None
        },
{
    t.inner.get(s).copied()
}

/// `hashbrown::HashMap::insert`: sets the entry of a text, and leaves the others as
/// they are.
#[verifier::external_body]
fn table_insert(t: &mut Table, s: &str, entry: (usize, usize))
    ensures
        table_entries(*final(t)) == table_entries(*old(t)).insert(s@, entry),
{
    t.inner.insert(s.to_owned(), entry);
}

/// `hashbrown::HashMap::remove`: takes out the entry of a text, and leaves the others
/// as they are.
#[verifier::external_body]
fn table_remove(t: &mut Table, s: &str)
    ensures
        table_entries(*final(t)) == table_entries(*old(t)).remove(s@),
{
    t.inner.remove(s);
}

/// `hashbrown::HashMap::is_empty`: whether the table has no entry.
#[verifier::external_body]
fn table_is_empty(t: &Table) -> (r: bool)
    ensures
        r == (table_entries(*t).dom() == Set::<Seq<char>>::empty()),
{
    t.inner.is_empty()
}

/// `hashbrown::HashMap::len`: the number of entries.
#[verifier::external_body]
fn table_len(t: &Table) -> (r: usize)
    ensures
        r == table_entries(*t).dom().len(),
{
    t.inner.len()
}

/// `hashbrown::HashMap::capacity`: the number of entries for which the table has memory.
/// It is the number of entries and the room that is left, so it is at least the number
/// of entries; how much more is not known.
#[verifier::external_body]
fn table_capacity(t: &Table) -> (r: usize)
    ensures
        r >= table_entries(*t).dom().len(),
{
    t.inner.capacity()
}

/// `hashbrown::HashMap::shrink_to_fit`: gives back unused memory, and keeps every entry.
#[verifier::external_body]
fn table_shrink_to_fit(t: &mut Table)
    ensures
        table_entries(*final(t)) == table_entries(*old(t)),
{
    t.inner.shrink_to_fit();
}

impl CacheTable for Table {
    open spec fn entries(&self) -> Entries {
        table_entries(*self)
    }

    /// A plain table is one shard.
    open spec fn shard(&self, s: Seq<char>) -> usize {
        0
    }

    fn empty() -> (r: Self) {
        table_new()
    }

    fn determine_map(&self, s: &str) -> (r: usize) {
        0
    }

    fn get(&self, s: &str) -> (r: Option<(usize, usize)>) {
        table_get(self, s)
    }

    fn insert(&mut self, s: &str, entry: (usize, usize)) {
        table_insert(self, s, entry)
    }

    fn remove(&mut self, s: &str) {
        table_remove(self, s)
    }

    fn is_empty(&self) -> (r: bool) {
        table_is_empty(self)
    }

    fn len(&self) -> (r: usize) {
        table_len(self)
    }

    fn capacity(&self) -> (r: usize) {
        table_capacity(self)
    }

    fn shrink_to_fit(&mut self) {
        table_shrink_to_fit(self)
    }
}

/// The string cache of a single thread.
pub type StringCache = Cache<Table>;

/// Makes the string cache.
pub fn init_cache() -> (r: StringCache)
    ensures
        r.wf(),
        r.entries() == Entries::empty(),
        r.frontier() == FIRST_ADDR,
{
    Cache::new()
}

/// Starts a new generation of the string cache.
pub fn reinit_cache<T: CacheTable>(cache: &mut Cache<T>)
    requires
        old(cache).wf(),
    ensures
        final(cache).wf(),
        final(cache).entries() == Entries::empty(),
        final(cache).frontier() == old(cache).frontier(),
{
    cache.reinit();
}

} // verus!
