//! A JSON value that is built from compact parts: numbers in the cheapest of five
//! encodings, strings that are interned in a cache, arrays and objects that keep a
//! small header in front of their contents.
//!
//! The primary type of this crate is [`IValue`]. Strings live in a string cache, which
//! is handed to the functions that make, clone or drop them.

use crate::layout::Layout;
use crate::string::Cache;
use crate::string::CacheTable;
use vstd::prelude::*;

pub mod array;
pub mod layout;
pub mod number;
pub mod object;
pub mod string;
pub mod unsafe_string;
pub mod value;

pub use array::IArray;
pub use number::INumber;
pub use object::IObject;
pub use string::IString;
pub use unsafe_string::StringCache;
pub use value::BoolMut;
pub use value::Destructured;
pub use value::DestructuredMut;
pub use value::DestructuredRef;
pub use value::IValue;
pub use value::ValueIndex;
pub use value::ValueType;

verus! {

/// An arena into which the blocks of a value are moved to defragment it.
pub trait DefragAllocator {
    /// Moves a block of the given layout into the arena.
    fn realloc_ptr(&mut self, layout: Layout);

    /// Makes a block of the given layout in the arena.
    fn allocate(&mut self, layout: Layout);

    /// Gives a block of the given layout back to the arena.
    fn free(&mut self, layout: Layout);
}

/// Values that can be moved into an arena.
pub trait Defrag<A: DefragAllocator>: Sized {
    /// Whether two values hold the same content.
    spec fn same_content(&self, other: &Self) -> bool;

    /// Moves the value, and every block that it owns, into the arena. The content stays
    /// what it was.
    fn defrag(self, defrag_allocator: &mut A) -> (r: Self)
        ensures
            r.same_content(&self),
    ;
}

/// Empties the shared string cache. A value that still holds a string of it goes on
/// holding it, but a text that is interned afterwards gets a new address instead of the
/// old one.
pub fn reinit_shared_string_cache<T: CacheTable>(cache: &mut Cache<T>)
    requires
        old(cache).wf(),
    ensures
        final(cache).wf(),
        final(cache).entries() == string::Entries::empty(),
        final(cache).frontier() == old(cache).frontier(),
{
    unsafe_string::reinit_cache(cache);
}

} // verus!
