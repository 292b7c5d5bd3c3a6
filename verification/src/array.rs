//! The JSON array type.

use crate::layout::word_size;
use crate::layout::Layout;
use crate::layout::LayoutError;
use crate::string::clone_each;
use crate::string::drop_back;
use crate::string::lemma_clone_each_concat;
use crate::string::lemma_drop_back_concat;
use crate::string::IString;
use crate::string::Cache;
use crate::string::CacheTable;
use crate::number::order_of;
use crate::value::IValue;
use crate::Defrag;
use crate::DefragAllocator;
use std::cmp::Ordering;
use vstd::prelude::*;

verus! {

/// The `IArray` type is similar to a `Vec<IValue>`, with a capacity of its own: the
/// number of items that its block has room for. The empty array with capacity zero
/// holds no block at all.
///
/// Its model, `self@`, is the sequence of its items.
#[derive(Debug)]
pub struct IArray {
    pub(crate) cap: usize,
    pub(crate) items: Vec<IValue>,
}

impl View for IArray {
    type V = Seq<IValue>;

    closed spec fn view(&self) -> Seq<IValue> {
        self.items@
    }
}

/// Iterator over [`IValue`]s returned from [`IArray::into_iter`]: it holds the items
/// that are left, the next one last.
#[derive(Debug)]
pub struct IntoIter {
    reversed_array: IArray,
}

impl IArray {
    #[verifier::type_invariant]
    pub(crate) closed spec fn inv(self) -> bool {
        &&& self.items.len() <= self.cap
        &&& Self::fits(self.cap as int)
    }

    /// The number of items that the array has room for.
    pub closed spec fn spec_capacity(&self) -> usize {
        self.cap
    }

    /// The layout of the block of an array with room for `cap` items: a header of two
    /// words, then one word for each item.
    pub open spec fn spec_layout(cap: int) -> Result<Layout, LayoutError> {
        let word = crate::layout::spec_word_size();
        Layout::of(2 * word, word).spec_append(word, cap)
    }

    /// Whether an array with room for `cap` items can exist.
    pub open spec fn fits(cap: int) -> bool {
        cap >= 0 && Self::spec_layout(cap) is Ok
    }

    /// The capacity to which an array of capacity `cap` grows to hold `needed` items:
    /// twice what it had, and at least four.
    pub open spec fn grown(cap: int, needed: int) -> int {
        vstd::math::max(2 * cap, vstd::math::max(needed, 4))
    }

    /// Whether the array can make room for `additional` items more: it has the room, or
    /// an array of the capacity to which it grows can exist.
    pub open spec fn can_reserve(&self, additional: int) -> bool {
        ||| self@.len() + additional <= self.spec_capacity()
        ||| Self::fits(Self::grown(self.spec_capacity() as int, self@.len() + additional))
    }

    /// An array with room for fewer items can exist where one with room for more can.
    pub proof fn lemma_fits_smaller(cap: int, smaller: int)
        requires
            Self::fits(cap),
            0 <= smaller <= cap,
        ensures
            Self::fits(smaller),
    {
        let word = crate::layout::spec_word_size();
        Layout::lemma_of(2 * word, word);
        assert(word * smaller <= word * cap) by (nonlinear_arith)
            requires
                word > 0,
                0 <= smaller <= cap,
        ;
    }

    /// An array is above its items.
    pub proof fn lemma_decreases(self, i: int)
        requires
            0 <= i < self@.len(),
        ensures
            decreases_to!(self => self@[i]),
    {
        broadcast use vstd::std_specs::vec::axiom_vec_index_decreases;

        assert(decreases_to!(self => self.items));
        assert(decreases_to!(self.items => self.items[i]));
    }

    /// The string handles that the items from `lo` up to `hi` hold, from the first of
    /// these items to the last.
    pub open spec fn strings_between(&self, lo: int, hi: int) -> Seq<IString>
        decreases self, hi - lo,
    {
        if 0 <= lo < hi <= self@.len() {
            proof {
                self.lemma_decreases(hi - 1);
            }
            self.strings_between(lo, hi - 1) + self@[hi - 1].strings()
        } else {
            Seq::empty()
        }
    }

    /// The string handles that the items of the array hold, from the first item to the
    /// last.
    pub open spec fn strings(&self) -> Seq<IString> {
        self.strings_between(0, self@.len() as int)
    }

    /// The strings of a run of items are those of its first item, then those of the
    /// rest.
    pub proof fn lemma_strings_from(&self, lo: int, hi: int)
        requires
            0 <= lo < hi <= self@.len(),
        ensures
            self.strings_between(lo, hi) == self@[lo].strings() + self.strings_between(
                lo + 1,
                hi,
            ),
        decreases hi - lo,
    {
        if hi == lo + 1 {
            assert(self.strings_between(lo, lo) == Seq::<IString>::empty());
            assert(self.strings_between(lo + 1, hi) == Seq::<IString>::empty());
            assert(Seq::<IString>::empty() + self@[lo].strings() =~= self@[lo].strings()
                + Seq::<IString>::empty());
        } else {
            self.lemma_strings_from(lo, hi - 1);
            assert((self@[lo].strings() + self.strings_between(lo + 1, hi - 1)) + self@[hi
                - 1].strings() =~= self@[lo].strings() + (self.strings_between(lo + 1, hi - 1)
                + self@[hi - 1].strings()));
        }
    }

    /// Two arrays whose items hold the same strings, item by item, hold the same strings.
    pub proof fn lemma_strings_same(&self, other: &IArray, hi: int)
        requires
            0 <= hi <= self@.len(),
            hi <= other@.len(),
            forall|j: int| 0 <= j < hi ==> (#[trigger] self@[j]).strings() == other@[j].strings(),
        ensures
            self.strings_between(0, hi) == other.strings_between(0, hi),
        decreases hi,
    {
        if hi > 0 {
            self.lemma_strings_same(other, hi - 1);
            assert(self@[hi - 1].strings() == other@[hi - 1].strings());
        }
    }

    /// Whether two arrays hold equal items in the same order.
    pub open spec fn spec_eq(&self, other: &IArray) -> bool {
        &&& self@.len() == other@.len()
        &&& forall|i: int| 0 <= i < self@.len() ==> (#[trigger] self@[i]).spec_eq(&other@[i])
    }

    /// Whether two arrays hold equal items in the same order.
    pub fn eq_impl(&self, other: &Self) -> (r: bool)
        ensures
            r == self.spec_eq(other),
        decreases self, 0nat,
    {
        if self.items.len() != other.items.len() {
            return false;
        }
        let mut i: usize = 0;
        while i < self.items.len()
            invariant
                i <= self.items@.len(),
                self.items@.len() == other.items@.len(),
                forall|j: int| 0 <= j < i ==> (#[trigger] self.items@[j]).spec_eq(&other.items@[j]),
            decreases self.items@.len() - i,
        {
            if !self.items[i].eq_impl(&other.items[i]) {
                return false;
            }
            i += 1;
        }
        true
    }

    /// The order of two arrays from their items at `i` on: that of the first two items
    /// that are not equal, and where there are none, that of the lengths.
    pub open spec fn order_from(&self, other: &IArray, i: int) -> Option<Ordering>
        decreases self, self@.len() - i,
    {
        if 0 <= i < self@.len() && i < other@.len() {
            proof {
                self.lemma_decreases(i);
            }
            match self@[i].order(&other@[i]) {
                Some(Ordering::Equal) => self.order_from(other, i + 1),
                decided => decided,
            }
        } else {
            Some(order_of(self@.len() - 0, other@.len() - 0))
        }
    }

    /// The order of two arrays: that of their first items that are not equal, and where
    /// there are none, that of their lengths. Two arrays have no order where the first
    /// items that are not equal have none.
    pub fn partial_cmp_impl(&self, other: &Self) -> (r: Option<Ordering>)
        ensures
            r == self.order_from(other, 0),
        decreases self, self@.len() + 1,
    {
        let mut i: usize = 0;
        while i < self.items.len() && i < other.items.len()
            invariant
                i <= self.items@.len(),
                i <= other.items@.len(),
                self.order_from(other, 0) == self.order_from(other, crate::string::index_int(i)),
            decreases self.items@.len() - i,
        {
            match self.items[i].partial_cmp_impl(&other.items[i]) {
                Some(Ordering::Equal) => {},
                decided => {
                    return decided;
                },
            }
            i += 1;
        }
        crate::value::order_lengths(self.items.len(), other.items.len())
    }

    /// The layout of the block of an array with room for `cap` items.
    pub fn layout(cap: usize) -> (r: Result<Layout, LayoutError>)
        ensures
            r == Self::spec_layout(cap as int),
    {
        let word = word_size();
        proof {
            Layout::lemma_of(2 * word, word as int);
            crate::layout::lemma_round_up_multiple(2 * word, word as int, 0, word as int);
        }
        match Layout::from_size_align(2 * word, word) {
            Ok(header) => header.append(word, cap),
            Err(e) => Err(e),
        }
    }

    /// The items of a new block with room for `cap` items.
    fn allocate(cap: usize) -> (r: Vec<IValue>)
        requires
            Self::fits(cap as int),
        ensures
            r@.len() == 0,
    {
        Vec::with_capacity(cap)
    }

    /// Constructs a new empty `IArray`, which holds no block.
    pub fn new() -> (r: Self)
        ensures
            r@ == Seq::<IValue>::empty(),
            r.spec_capacity() == 0,
    {
        proof {
            let word = crate::layout::spec_word_size();
            Layout::lemma_of(2 * word, word);
        }
        IArray { cap: 0, items: Vec::new() }
    }

    /// Constructs a new `IArray` with the specified capacity. At least that many items
    /// can be added to the array without reallocating.
    pub fn with_capacity(cap: usize) -> (r: Self)
        requires
            Self::fits(cap as int),
        ensures
            r@ == Seq::<IValue>::empty(),
            r.spec_capacity() == cap,
    {
        if cap == 0 {
            Self::new()
        } else {
            IArray { cap, items: Self::allocate(cap) }
        }
    }

    /// An array that holds the given items, with room for just them.
    pub fn from_vec(items: Vec<IValue>) -> (r: Self)
        requires
            Self::fits(items@.len() as int),
        ensures
            r@ == items@,
            r.spec_capacity() == items@.len(),
    {
        IArray { cap: items.len(), items }
    }

    /// Whether the array holds no block.
    pub fn is_static(&self) -> (r: bool)
        ensures
            r == (self.spec_capacity() == 0),
    {
        self.capacity() == 0
    }

    /// Returns the capacity of the array. This is the maximum number of items the array
    /// can hold without reallocating.
    pub fn capacity(&self) -> (r: usize)
        ensures
            r == self.spec_capacity(),
            self@.len() <= r,
            Self::fits(r as int),
    {
        proof {
            use_type_invariant(self);
        }
        self.cap
    }

    /// Returns the number of items currently stored in the array.
    pub fn len(&self) -> (r: usize)
        ensures
            r == self@.len(),
    {
        self.items.len()
    }

    /// Returns `true` if the array is empty.
    pub fn is_empty(&self) -> (r: bool)
        ensures
            r == (self@.len() == 0),
    {
        self.len() == 0
    }

    /// Borrows a slice of [`IValue`]s from the array
    pub fn as_slice(&self) -> (r: &[IValue])
        ensures
            r@ == self@,
    {
        self.items.as_slice()
    }

    /// The item at an index, if the array has one there.
    pub fn get(&self, index: usize) -> (r: Option<&IValue>)
        ensures
            match r {
                Some(v) => index < self@.len() && *v == self@[index as int],
                None => index >= self@.len(),
            },
    {
        if index < self.items.len() {
            Some(&self.items[index])
        } else {
            None
        }
    }

    /// The item at an index, to be changed in place, if the array has one there.
    pub fn get_mut(&mut self, index: usize) -> (r: Option<&mut IValue>)
        ensures
            final(self).spec_capacity() == old(self).spec_capacity(),
            match r {
                Some(v) => {
                    &&& index < old(self)@.len()
                    &&& *v == old(self)@[index as int]
                    &&& final(self)@ == old(self)@.update(index as int, *final(v))
                },
                None => index >= old(self)@.len() && *final(self) == *old(self),
            },
    {
        proof {
            use_type_invariant(&*self);
        }
        if index < self.items.len() {
            Some(&mut self.items[index])
        } else {
            None
        }
    }

    /// Moves the items into a block with room for `cap` of them.
    fn resize_internal(&mut self, cap: usize)
        requires
            Self::fits(cap as int),
            old(self)@.len() <= cap,
        ensures
            final(self)@ == old(self)@,
            final(self).spec_capacity() == cap,
    {
        proof {
            use_type_invariant(&*self);
        }
        if cap == 0 {
            *self = Self::with_capacity(cap);
            assert(final(self)@ =~= old(self)@);
        } else {
            let mut items = Vec::new();
            std::mem::swap(&mut items, &mut self.items);
            items.reserve(cap - items.len());
            *self = IArray { cap, items };
        }
    }

    /// Whether an array with room for `cap` items can exist.
    pub fn can_hold(cap: usize) -> (r: bool)
        ensures
            r == Self::fits(cap as int),
    {
        Self::layout(cap).is_ok()
    }

    /// Whether the array can make room for `additional` items more.
    pub fn has_room(&self, additional: usize) -> (r: bool)
        ensures
            r == self.can_reserve(additional as int),
    {
        let cap = self.capacity();
        let len = self.len();
        if additional <= cap - len {
            return true;
        }
        proof {
            let word = crate::layout::spec_word_size();
            Layout::lemma_of(2 * word, word);
            let grown = Self::grown(cap as int, len + additional);
            assert(word * grown >= grown) by (nonlinear_arith)
                requires
                    word >= 1,
                    grown >= 0,
            ;
            assert(word * cap >= 4 * cap) by (nonlinear_arith)
                requires
                    word >= 4,
                    cap >= 0,
            ;
        }
        let desired = match len.checked_add(additional) {
            Some(desired) => desired,
            None => {
                return false;
            },
        };
        let at_least = if desired >= 4 {
            desired
        } else {
            4
        };
        Self::can_hold(
            if cap * 2 >= at_least {
                cap * 2
            } else {
                at_least
            },
        )
    }

    /// Reserves space for at least this many additional items.
    pub fn reserve(&mut self, additional: usize)
        requires
            old(self).can_reserve(additional as int),
        ensures
            final(self)@ == old(self)@,
            final(self).spec_capacity() == if old(self)@.len() + additional <= old(
                self,
            ).spec_capacity() {
                old(self).spec_capacity() as int
            } else {
                Self::grown(old(self).spec_capacity() as int, old(self)@.len() + additional)
            },
            final(self)@.len() + additional <= final(self).spec_capacity(),
    {
        let current_capacity = self.capacity();
        let len = self.len();
        if additional <= current_capacity - len {
            return ;
        }
        proof {
            let word = crate::layout::spec_word_size();
            let grown = Self::grown(current_capacity as int, len + additional);
            Layout::lemma_of(2 * word, word);
            assert(word * grown >= grown) by (nonlinear_arith)
                requires
                    word >= 1,
                    grown >= 0,
            ;
        }
        let desired_capacity = len + additional;
        let doubled = current_capacity * 2;
        let at_least = if desired_capacity >= 4 {
            desired_capacity
        } else {
            4
        };
        self.resize_internal(
            if doubled >= at_least {
                doubled
            } else {
                at_least
            },
        );
    }

    /// Truncates the array by removing items until it is no longer than the specified
    /// length. The capacity is unchanged. The items that leave are dropped.
    pub fn truncate<T: CacheTable>(&mut self, len: usize, cache: &mut Cache<T>)
        requires
            old(cache).wf(),
        ensures
            final(cache).wf(),
            Cache::shrunk(*old(cache), *final(cache)),
            final(cache).entries() == drop_back(
                old(cache).entries(),
                old(self).strings_between(len as int, old(self)@.len() as int),
            ),
            final(self).spec_capacity() == old(self).spec_capacity(),
            final(self)@ == if len <= old(self)@.len() {
                old(self)@.take(len as int)
            } else {
                old(self)@
            },
        decreases *old(self), 0nat,
    {
        proof {
            use_type_invariant(&*self);
            Cache::lemma_shrunk_refl(*cache);
        }
        if self.is_static() {
            assert(self@.take(0) =~= self@);
            return ;
        }
        let cap = self.cap;
        let mut items = Vec::new();
        std::mem::swap(&mut items, &mut self.items);
        let ghost start = items@;
        while items.len() > len
            invariant
                cache.wf(),
                Cache::shrunk(*old(cache), *cache),
                cache.entries() == drop_back(
                    old(cache).entries(),
                    old(self).strings_between(items@.len() as int, start.len() as int),
                ),
                items@.len() <= start.len(),
                items@ == start.take(items@.len() as int),
                items@.len() >= len || items@.len() == start.len(),
                start == old(self).items@,
            decreases items@.len(),
        {
            let ghost before = *cache;
            let ghost n = items@.len();
            match items.pop() {
                Some(v) => {
                    assert(v == old(self).items@[n - 1]);
                    v.drop_impl(cache);
                },
                None => {},
            }
            proof {
                Cache::lemma_shrunk_trans(*old(cache), before, *cache);
                assert(items@ =~= start.take(items@.len() as int));
                old(self).lemma_strings_from(n - 1, start.len() as int);
                lemma_drop_back_concat(
                    old(cache).entries(),
                    old(self)@[n - 1].strings(),
                    old(self).strings_between(n as int, start.len() as int),
                );
            }
        }
        proof {
            assert(start.take(start.len() as int) =~= start);
        }
        *self = IArray { cap, items };
    }

    /// Removes all items from the array. The capacity is unchanged.
    pub fn clear<T: CacheTable>(&mut self, cache: &mut Cache<T>)
        requires
            old(cache).wf(),
        ensures
            final(cache).wf(),
            Cache::shrunk(*old(cache), *final(cache)),
            final(cache).entries() == drop_back(old(cache).entries(), old(self).strings()),
            final(self).spec_capacity() == old(self).spec_capacity(),
            final(self)@ == Seq::<IValue>::empty(),
        decreases *old(self), 1nat,
    {
        self.truncate(0, cache);
        assert(old(self)@.take(0) =~= Seq::<IValue>::empty());
    }

    /// Inserts a new item into the array at the specified index. Any existing items
    /// on or after this index will be shifted down to accomodate this. For large
    /// arrays, insertions near the front will be slow as it will require shifting
    /// a large number of items.
    pub fn insert(&mut self, index: usize, item: IValue)
        requires
            index <= old(self)@.len(),
            old(self).can_reserve(1),
        ensures
            final(self)@ == old(self)@.insert(index as int, item),
            final(self)@ == ArrayOp::Insert(index, item).apply(old(self)@),
            final(self).spec_capacity() == if old(self)@.len() < old(self).spec_capacity() {
                old(self).spec_capacity() as int
            } else {
                Self::grown(old(self).spec_capacity() as int, old(self)@.len() as int + 1)
            },
    {
        self.reserve(1);
        proof {
            use_type_invariant(&*self);
        }
        let cap = self.cap;
        let mut items = Vec::new();
        std::mem::swap(&mut items, &mut self.items);
        items.insert(index, item);
        *self = IArray { cap, items };
    }

    /// Removes and returns the item at the specified index from the array. Any
    /// items after this index will be shifted back up to close the gap. For large
    /// arrays, removals from near the front will be slow as it will require shifting
    /// a large number of items.
    ///
    /// If the order of the array is unimporant, consider using [`IArray::swap_remove`].
    ///
    /// If the index is outside the array bounds, `None` is returned.
    pub fn remove(&mut self, index: usize) -> (r: Option<IValue>)
        ensures
            final(self).spec_capacity() == old(self).spec_capacity(),
            index < old(self)@.len() ==> r == Some(old(self)@[index as int]) && final(self)@
                == old(self)@.remove(index as int),
            index >= old(self)@.len() ==> r is None && final(self)@ == old(self)@,
            final(self)@ == ArrayOp::Remove(index).apply(old(self)@),
    {
        proof {
            use_type_invariant(&*self);
        }
        if index < self.len() {
            let cap = self.cap;
            let mut items = Vec::new();
            std::mem::swap(&mut items, &mut self.items);
            let item = items.remove(index);
            *self = IArray { cap, items };
            Some(item)
        } else {
            None
        }
    }

    /// Removes and returns the item at the specified index from the array by
    /// first swapping it with the item currently at the end of the array, and
    /// then popping that last item.
    ///
    /// This can be more efficient than [`IArray::remove`] for large arrays,
    /// but will change the ordering of items within the array.
    ///
    /// If the index is outside the array bounds, `None` is returned.
    pub fn swap_remove(&mut self, index: usize) -> (r: Option<IValue>)
        ensures
            final(self).spec_capacity() == old(self).spec_capacity(),
            index < old(self)@.len() ==> r == Some(old(self)@[index as int]) && final(self)@
                == old(self)@.update(index as int, old(self)@.last()).drop_last(),
            index >= old(self)@.len() ==> r is None && final(self)@ == old(self)@,
    {
        proof {
            use_type_invariant(&*self);
        }
        if index < self.len() {
            let cap = self.cap;
            let mut items = Vec::new();
            std::mem::swap(&mut items, &mut self.items);
            let item = items.swap_remove(index);
            *self = IArray { cap, items };
            Some(item)
        } else {
            None
        }
    }

    /// Pushes a new item onto the back of the array.
    pub fn push(&mut self, item: IValue)
        requires
            old(self).can_reserve(1),
        ensures
            final(self)@ == old(self)@.push(item),
            final(self)@ == ArrayOp::Push(item).apply(old(self)@),
            final(self).spec_capacity() == if old(self)@.len() < old(self).spec_capacity() {
                old(self).spec_capacity() as int
            } else {
                Self::grown(old(self).spec_capacity() as int, old(self)@.len() as int + 1)
            },
    {
        self.reserve(1);
        proof {
            use_type_invariant(&*self);
        }
        let cap = self.cap;
        let mut items = Vec::new();
        std::mem::swap(&mut items, &mut self.items);
        items.push(item);
        *self = IArray { cap, items };
    }

    /// Pops the last item from the array and returns it. If the array is
    /// empty, `None` is returned.
    pub fn pop(&mut self) -> (r: Option<IValue>)
        ensures
            final(self).spec_capacity() == old(self).spec_capacity(),
            old(self)@.len() > 0 ==> r == Some(old(self)@.last()) && final(self)@ == old(
                self,
            )@.drop_last(),
            old(self)@.len() == 0 ==> r is None && final(self)@ == old(self)@,
            final(self)@ == ArrayOp::Pop.apply(old(self)@),
    {
        proof {
            use_type_invariant(&*self);
        }
        if self.is_static() {
            None
        } else {
            let cap = self.cap;
            let mut items = Vec::new();
            std::mem::swap(&mut items, &mut self.items);
            let item = items.pop();
            *self = IArray { cap, items };
            item
        }
    }

    /// Shrinks the memory allocation used by the array such that its
    /// capacity becomes equal to its length.
    pub fn shrink_to_fit(&mut self)
        ensures
            final(self)@ == old(self)@,
            final(self).spec_capacity() == old(self)@.len(),
    {
        proof {
            use_type_invariant(&*self);
            Self::lemma_fits_smaller(self.cap as int, self.items@.len() as int);
        }
        self.resize_internal(self.len());
    }

    /// Reverses the order of the items.
    pub fn reverse(&mut self)
        ensures
            final(self)@ == old(self)@.reverse(),
            final(self).spec_capacity() == old(self).spec_capacity(),
    {
        proof {
            use_type_invariant(&*self);
        }
        let cap = self.cap;
        let mut items = Vec::new();
        std::mem::swap(&mut items, &mut self.items);
        *self = IArray { cap, items: reversed(items) };
    }

    /// Adds the items to the end of the array, in their order.
    pub fn extend(&mut self, items: Vec<IValue>)
        requires
            old(self).can_reserve(items@.len() as int),
        ensures
            final(self)@ == old(self)@ + items@,
            final(self).spec_capacity() == if old(self)@.len() + items@.len() <= old(
                self,
            ).spec_capacity() {
                old(self).spec_capacity() as int
            } else {
                Self::grown(
                    old(self).spec_capacity() as int,
                    (old(self)@.len() + items@.len()) as int,
                )
            },
    {
        self.reserve(items.len());
        proof {
            use_type_invariant(&*self);
        }
        let cap = self.cap;
        let mut held = Vec::new();
        std::mem::swap(&mut held, &mut self.items);
        let mut items = items;
        held.append(&mut items);
        *self = IArray { cap, items: held };
    }

    /// Turns the array into an iterator over its items, first to last.
    pub fn into_iter(self) -> (r: IntoIter)
        ensures
            r@ == self@,
    {
        let mut reversed_array = self;
        reversed_array.reverse();
        proof {
            assert(self@.reverse().reverse() =~= self@);
        }
        IntoIter { reversed_array }
    }

    /// A deep copy of the array, with room for just its items. The cache counts the
    /// strings of the copy.
    pub fn clone_impl<T: CacheTable>(&self, cache: &mut Cache<T>) -> (r: Self)
        requires
            old(cache).wf(),
        ensures
            final(cache).wf(),
            Cache::grown(*old(cache), *final(cache)),
            final(cache).entries() == clone_each(old(cache).entries(), self.strings()),
            r.strings() == self.strings(),
            r.spec_capacity() == self@.len(),
            r@.len() == self@.len(),
            forall|i: int| 0 <= i < self@.len() ==> (#[trigger] r@[i]).spec_eq(&self@[i]),
        decreases self, 0nat,
    {
        proof {
            use_type_invariant(self);
            Self::lemma_fits_smaller(self.cap as int, self.items@.len() as int);
            Cache::lemma_grown_refl(*cache);
        }
        let l = self.items.len();
        let mut items = Self::allocate(l);
        let mut i: usize = 0;
        while i < l
            invariant
                cache.wf(),
                Cache::grown(*old(cache), *cache),
                cache.entries() == clone_each(
                    old(cache).entries(),
                    self.strings_between(0, i as int),
                ),
                l == self.items@.len(),
                i <= l,
                items@.len() == i,
                forall|j: int| 0 <= j < i ==> (#[trigger] items@[j]).spec_eq(&self.items@[j]),
                forall|j: int|
                    0 <= j < i ==> (#[trigger] items@[j]).strings() == self.items@[j].strings(),
            decreases l - i,
        {
            let ghost before = *cache;
            let v = self.items[i].clone_impl(cache);
            items.push(v);
            proof {
                Cache::lemma_grown_trans(*old(cache), before, *cache);
                lemma_clone_each_concat(
                    old(cache).entries(),
                    self.strings_between(0, i as int),
                    self@[i as int].strings(),
                );
            }
            i += 1;
        }
        let copy = IArray { cap: l, items };
        proof {
            copy.lemma_strings_same(self, l as int);
        }
        copy
    }

    /// Moves the array and its items into an arena.
    pub fn defrag_impl<A: DefragAllocator>(self, defrag_allocator: &mut A) -> (r: Self)
        ensures
            r.spec_capacity() == self.spec_capacity(),
            r.spec_eq(&self),
        decreases self,
    {
        proof {
            use_type_invariant(&self);
        }
        if self.is_static() {
            return self;
        }
        let cap = self.cap;
        let mut items = self.items;
        let ghost start = items@;
        let mut i: usize = 0;
        while i < items.len()
            invariant
                i <= items@.len(),
                items@.len() == start.len(),
                start == self.items@,
                forall|j: int| 0 <= j < i ==> (#[trigger] items@[j]).spec_eq(&start[j]),
                forall|j: int| i <= j < items@.len() ==> items@[j] == start[j],
            decreases items@.len() - i,
        {
            let mut val = IValue::null();
            std::mem::swap(&mut items[i], &mut val);
            assert(val == self.items@[i as int]);
            let mut val = val.defrag_impl(defrag_allocator);
            std::mem::swap(&mut items[i], &mut val);
            i += 1;
        }
        match Self::layout(cap) {
            Ok(layout) => defrag_allocator.realloc_ptr(layout),
            Err(_) => {},
        }
        IArray { cap, items }
    }

    /// Drops the array and its items.
    pub fn drop_impl<T: CacheTable>(self, cache: &mut Cache<T>)
        requires
            old(cache).wf(),
        ensures
            final(cache).wf(),
            Cache::shrunk(*old(cache), *final(cache)),
            final(cache).entries() == drop_back(old(cache).entries(), self.strings()),
        decreases self, 2nat,
    {
        let mut array = self;
        array.clear(cache);
    }
}

impl View for IntoIter {
    type V = Seq<IValue>;

    closed spec fn view(&self) -> Seq<IValue> {
        self.reversed_array@.reverse()
    }
}

impl IntoIter {
    /// The next item, if one is left.
    pub fn next(&mut self) -> (r: Option<IValue>)
        ensures
            old(self)@.len() > 0 ==> r == Some(old(self)@[0]) && final(self)@ == old(
                self,
            )@.drop_first(),
            old(self)@.len() == 0 ==> r is None && final(self)@ == old(self)@,
    {
        let r = self.reversed_array.pop();
        proof {
            if old(self)@.len() > 0 {
                assert(final(self)@ =~= old(self)@.drop_first());
            }
        }
        r
    }

    /// The number of items that are left.
    pub fn len(&self) -> (r: usize)
        ensures
            r == self@.len(),
    {
        self.reversed_array.len()
    }
}

/// The items in the opposite order.
pub(crate) fn reversed<T>(items: Vec<T>) -> (r: Vec<T>)
    ensures
        r@ == items@.reverse(),
{
    let ghost start = items@;
    let mut items = items;
    let mut reversed: Vec<T> = Vec::with_capacity(items.len());
    while items.len() > 0
        invariant
            items@.len() + reversed@.len() == start.len(),
            items@ == start.take(items@.len() as int),
            forall|j: int| 0 <= j < reversed@.len() ==> reversed@[j] == start[start.len() - 1 - j],
        decreases items@.len(),
    {
        match items.pop() {
            Some(item) => {
                reversed.push(item);
            },
            None => {},
        }
        proof {
            assert(items@ =~= start.take(items@.len() as int));
        }
    }
    assert(reversed@ =~= start.reverse());
    reversed
}

/// A change to an array, as [`IArray::push`], [`IArray::insert`], [`IArray::remove`] and
/// [`IArray::pop`] make it.
pub enum ArrayOp {
    /// An item goes to the end.
    Push(IValue),
    /// An item goes in at an index.
    Insert(usize, IValue),
    /// The item at an index leaves.
    Remove(usize),
    /// The last item leaves.
    Pop,
}

impl ArrayOp {
    /// Whether the change can be made to the items: an item goes in at an index up to
    /// their number.
    pub open spec fn applies(self, items: Seq<IValue>) -> bool {
        match self {
            ArrayOp::Insert(index, _) => index <= items.len(),
            _ => true,
        }
    }

    /// What the change makes of the items.
    pub open spec fn apply(self, items: Seq<IValue>) -> Seq<IValue> {
        match self {
            ArrayOp::Push(item) => items.push(item),
            ArrayOp::Insert(index, item) => items.insert(index as int, item),
            ArrayOp::Remove(index) => if index < items.len() {
                items.remove(index as int)
            } else {
                items
            },
            ArrayOp::Pop => if items.len() > 0 {
                items.drop_last()
            } else {
                items
            },
        }
    }

    /// The number of items that the change adds: one for an item that goes in, minus one
    /// for an item that leaves, and nothing where no item is there to leave.
    pub open spec fn gain(self, items: Seq<IValue>) -> int {
        match self {
            ArrayOp::Push(_) => 1,
            ArrayOp::Insert(_, _) => 1,
            ArrayOp::Remove(index) => if index < items.len() {
                -1
            } else {
                0
            },
            ArrayOp::Pop => if items.len() > 0 {
                -1
            } else {
                0
            },
        }
    }

    /// Whether the changes can be made to the items, one after another.
    pub open spec fn all_apply(ops: Seq<ArrayOp>, items: Seq<IValue>) -> bool
        decreases ops.len(),
    {
        ops.len() > 0 ==> ops[0].applies(items) && Self::all_apply(
            ops.drop_first(),
            ops[0].apply(items),
        )
    }

    /// What the changes make of the items, one after another.
    pub open spec fn run(ops: Seq<ArrayOp>, items: Seq<IValue>) -> Seq<IValue>
        decreases ops.len(),
    {
        if ops.len() == 0 {
            items
        } else {
            Self::run(ops.drop_first(), ops[0].apply(items))
        }
    }

    /// The number of items that the changes add, one after another.
    pub open spec fn net_gain(ops: Seq<ArrayOp>, items: Seq<IValue>) -> int
        decreases ops.len(),
    {
        if ops.len() == 0 {
            0
        } else {
            ops[0].gain(items) + Self::net_gain(ops.drop_first(), ops[0].apply(items))
        }
    }

    /// After any changes the array has as many items as it had, and as went in, less
    /// those that left.
    pub proof fn lemma_length_is_net(ops: Seq<ArrayOp>, items: Seq<IValue>)
        requires
            Self::all_apply(ops, items),
        ensures
            Self::run(ops, items).len() == items.len() + Self::net_gain(ops, items),
        decreases ops.len(),
    {
        if ops.len() > 0 {
            Self::lemma_length_is_net(ops.drop_first(), ops[0].apply(items));
        }
    }

    /// An item that goes in at an index and leaves from there again leaves the items as
    /// they were.
    pub proof fn lemma_insert_then_remove(items: Seq<IValue>, index: usize, item: IValue)
        requires
            index <= items.len(),
        ensures
            ArrayOp::Remove(index).apply(ArrayOp::Insert(index, item).apply(items)) == items,
            ArrayOp::Insert(index, item).apply(items)[index as int] == item,
    {
        assert(items.insert(index as int, item).remove(index as int) =~= items);
    }
}

impl<A: DefragAllocator> Defrag<A> for IArray {
    open spec fn same_content(&self, other: &Self) -> bool {
        self.spec_eq(other)
    }

    fn defrag(self, defrag_allocator: &mut A) -> (r: Self) {
        self.defrag_impl(defrag_allocator)
    }
}

impl PartialEq for IArray {
    fn eq(&self, other: &Self) -> (r: bool) {
        self.eq_impl(other)
    }
}

impl vstd::std_specs::cmp::PartialEqSpecImpl for IArray {
    open spec fn obeys_eq_spec() -> bool {
        true
    }

    open spec fn eq_spec(&self, other: &Self) -> bool {
        self.spec_eq(other)
    }
}

impl Eq for IArray {

}

impl PartialOrd for IArray {
    fn partial_cmp(&self, other: &Self) -> (r: Option<Ordering>) {
        self.partial_cmp_impl(other)
    }
}

impl vstd::std_specs::cmp::PartialOrdSpecImpl for IArray {
    open spec fn obeys_partial_cmp_spec() -> bool {
        true
    }

    open spec fn partial_cmp_spec(&self, other: &Self) -> Option<Ordering> {
        self.order_from(other, 0)
    }
}

impl Default for IArray {
    fn default() -> (r: Self)
        ensures
            r@ == Seq::<IValue>::empty(),
            r.spec_capacity() == 0,
    {
        Self::new()
    }
}

} // verus!
