//! The value handle and its six kinds.

use crate::array::IArray;
use crate::number::order_of;
use crate::number::INumber;
use crate::object::has_key;
use crate::object::key_index;
use crate::object::IObject;
use crate::string::IString;
use crate::string::clone_each;
use crate::string::drop_back;
use crate::string::lemma_one_handle;
use crate::string::Cache;
use crate::string::entries_dropped;
use crate::string::CacheTable;
use crate::string::Entries;
use crate::Defrag;
use crate::DefragAllocator;
use std::cmp::Ordering;
use vstd::prelude::*;

verus! {

/// Alignment of every block that a handle points to. A word below it is no address.
pub const ALIGNMENT: usize = 4;

/// The two low bits of a handle's word.
#[derive(Copy, Clone, Debug, PartialEq, Eq, Structural)]
pub enum TypeTag {
    /// A number.
    Number,
    /// A string where the word is an address, `null` where it is not.
    StringOrNull,
    /// An array where the word is an address, `false` where it is not.
    ArrayOrFalse,
    /// An object where the word is an address, `true` where it is not.
    ObjectOrTrue,
}

/// Enum which distinguishes the six JSON types.
#[derive(Debug, Copy, Clone, PartialEq, Eq, Structural, Hash)]
pub enum ValueType {
    /// Null.
    Null,
    /// Boolean.
    Bool,
    /// Number.
    Number,
    /// String.
    String,
    /// Array.
    Array,
    /// Object.
    Object,
}

impl TypeTag {
    /// The tag as a number from 0 to 3.
    pub open spec fn spec_bits(self) -> int {
        match self {
            TypeTag::Number => 0,
            TypeTag::StringOrNull => 1,
            TypeTag::ArrayOrFalse => 2,
            TypeTag::ObjectOrTrue => 3,
        }
    }

    /// The tag that a word carries.
    pub open spec fn spec_of(word: usize) -> TypeTag {
        if word % ALIGNMENT == 0 {
            TypeTag::Number
        } else if word % ALIGNMENT == 1 {
            TypeTag::StringOrNull
        } else if word % ALIGNMENT == 2 {
            TypeTag::ArrayOrFalse
        } else {
            TypeTag::ObjectOrTrue
        }
    }

    /// The tag as a number from 0 to 3.
    pub fn bits(self) -> (r: usize)
        ensures
            r == self.spec_bits(),
    {
        match self {
            TypeTag::Number => 0,
            TypeTag::StringOrNull => 1,
            TypeTag::ArrayOrFalse => 2,
            TypeTag::ObjectOrTrue => 3,
        }
    }

    /// The tag that a word carries.
    pub fn of(word: usize) -> (r: TypeTag)
        ensures
            r == Self::spec_of(word),
            r.spec_bits() == word % ALIGNMENT,
    {
        let low = word % ALIGNMENT;
        if low == 0 {
            TypeTag::Number
        } else if low == 1 {
            TypeTag::StringOrNull
        } else if low == 2 {
            TypeTag::ArrayOrFalse
        } else {
            TypeTag::ObjectOrTrue
        }
    }
}

/// Whether a word is an address rather than one of the small words that stand for
/// `null`, `false` and `true`.
pub open spec fn spec_is_ptr(word: usize) -> bool {
    word >= ALIGNMENT
}

/// The kind of value that a word stands for. No value has a word with the number tag
/// that is not an address; in particular none has the word zero.
pub open spec fn spec_kind(word: usize) -> Option<ValueType> {
    match (TypeTag::spec_of(word), spec_is_ptr(word)) {
        (TypeTag::Number, true) => Some(ValueType::Number),
        (TypeTag::StringOrNull, true) => Some(ValueType::String),
        (TypeTag::ArrayOrFalse, true) => Some(ValueType::Array),
        (TypeTag::ObjectOrTrue, true) => Some(ValueType::Object),
        (TypeTag::StringOrNull, false) => Some(ValueType::Null),
        (TypeTag::ArrayOrFalse, false) => Some(ValueType::Bool),
        (TypeTag::ObjectOrTrue, false) => Some(ValueType::Bool),
        (TypeTag::Number, false) => None,
    }
}

/// The word of a handle that may be absent: zero where it is, and else the handle's own
/// word.
pub open spec fn optional_word(word: Option<usize>) -> usize {
    match word {
        Some(w) => w,
        None => 0,
    }
}

/// A handle that may be absent needs no more than the handle's word: no value has the
/// word zero, so two such handles with one word are both absent or both the same value.
pub proof fn lemma_absent_word_is_free(a: Option<usize>, b: Option<usize>)
    requires
        a is Some ==> spec_kind(a.unwrap()) is Some,
        b is Some ==> spec_kind(b.unwrap()) is Some,
        optional_word(a) == optional_word(b),
    ensures
        a == b,
{
}

/// The word of an inline value: the tag alone.
pub fn inline_word(tag: TypeTag) -> (r: usize)
    requires
        tag != TypeTag::Number,
    ensures
        r == tag.spec_bits(),
        r != 0,
        !spec_is_ptr(r),
        TypeTag::spec_of(r) == tag,
{
    tag.bits()
}

/// The word of a value behind an address: the address with the tag in its two low bits.
pub fn tagged_word(addr: usize, tag: TypeTag) -> (r: usize)
    requires
        addr % ALIGNMENT == 0,
        addr >= ALIGNMENT,
    ensures
        r == addr + tag.spec_bits(),
        r != 0,
        spec_is_ptr(r),
        TypeTag::spec_of(r) == tag,
{
    addr + tag.bits()
}

/// The address in a word that is one: the word without its tag.
pub fn untagged_addr(word: usize) -> (r: usize)
    ensures
        r == word - word % ALIGNMENT,
        r % ALIGNMENT == 0,
        spec_is_ptr(word) ==> r >= ALIGNMENT,
{
    word - word % ALIGNMENT
}

/// Whether a word is an address.
pub fn is_ptr_word(word: usize) -> (r: bool)
    ensures
        r == spec_is_ptr(word),
{
    word >= ALIGNMENT
}

/// The kind of value that a word stands for.
pub fn kind_of_word(word: usize) -> (r: Option<ValueType>)
    ensures
        r == spec_kind(word),
        word == 0 ==> r is None,
{
    match (TypeTag::of(word), is_ptr_word(word)) {
        (TypeTag::Number, true) => Some(ValueType::Number),
        (TypeTag::StringOrNull, true) => Some(ValueType::String),
        (TypeTag::ArrayOrFalse, true) => Some(ValueType::Array),
        (TypeTag::ObjectOrTrue, true) => Some(ValueType::Object),
        (TypeTag::StringOrNull, false) => Some(ValueType::Null),
        (TypeTag::ArrayOrFalse, false) | (TypeTag::ObjectOrTrue, false) => Some(ValueType::Bool),
        (TypeTag::Number, false) => None,
    }
}

/// The order of two lengths.
pub fn order_lengths(a: usize, b: usize) -> (r: Option<Ordering>)
    ensures
        r == Some(order_of(a - 0, b - 0)),
{
    if a < b {
        Some(Ordering::Less)
    } else if a == b {
        Some(Ordering::Equal)
    } else {
        Some(Ordering::Greater)
    }
}

/// The order of two booleans: `false` before `true`.
pub open spec fn order_of_bools(a: bool, b: bool) -> Ordering {
    if a == b {
        Ordering::Equal
    } else if b {
        Ordering::Less
    } else {
        Ordering::Greater
    }
}

/// Stores an arbitrary JSON value.
///
/// Its model, `self@`, is the value destructured: one of the six kinds, with the number,
/// string, array or object that it holds.
#[derive(Debug)]
pub struct IValue {
    pub(crate) inner: Destructured,
}

/// Enum returned by [`IValue::destructure`] to allow matching on the type of
/// an owned [`IValue`].
#[derive(Debug)]
pub enum Destructured {
    /// Null.
    Null,
    /// Boolean.
    Bool(bool),
    /// Number.
    Number(INumber),
    /// String.
    String(IString),
    /// Array.
    Array(IArray),
    /// Object.
    Object(IObject),
}

/// Enum returned by [`IValue::destructure_ref`] to allow matching on the type of
/// a reference to an [`IValue`].
#[derive(Debug, Copy, Clone)]
pub enum DestructuredRef<'a> {
    /// Null.
    Null,
    /// Boolean.
    /// [`IValue`]s do not directly contain booleans, so the value is returned
    /// directly instead of as a reference.
    Bool(bool),
    /// Number.
    Number(&'a INumber),
    /// String.
    String(&'a IString),
    /// Array.
    Array(&'a IArray),
    /// Object.
    Object(&'a IObject),
}

/// Enum returned by [`IValue::destructure_mut`] to allow matching on the type of
/// a mutable reference to an [`IValue`].
#[derive(Debug)]
pub enum DestructuredMut<'a> {
    /// Null.
    Null,
    /// Boolean.
    /// [`IValue`]s do not directly contain booleans, so this variant contains
    /// a proxy type which allows getting and setting the [`IValue`] itself
    /// as a `bool`.
    Bool(BoolMut<'a>),
    /// Number.
    Number(&'a mut INumber),
    /// String.
    String(&'a mut IString),
    /// Array.
    Array(&'a mut IArray),
    /// Object.
    Object(&'a mut IObject),
}

/// A proxy type which imitates a `&mut bool`.
#[derive(Debug)]
pub struct BoolMut<'a>(pub &'a mut IValue);

impl<'a> BoolMut<'a> {
    /// Set the [`IValue`] referenced by this proxy type to either
    /// `true` or `false`.
    /// The value behind the proxy.
    pub open spec fn target(&self) -> IValue {
        *self.0
    }

    pub fn set(&mut self, value: bool)
        ensures
            final(self).target()@ == Destructured::Bool(value),
            *final(final(self).0) == *final(old(self).0),
    {
        *self.0 = IValue { inner: Destructured::Bool(value) };
    }

    /// Get the boolean value stored in the [`IValue`] from which
    /// this proxy was obtained.
    pub fn get(&self) -> (r: bool)
        ensures
            r == (self.target()@ == Destructured::Bool(true)),
    {
        self.0.is_true()
    }
}

impl View for IValue {
    type V = Destructured;

    closed spec fn view(&self) -> Destructured {
        self.inner
    }
}

impl Destructured {
    /// The kind of the value.
    pub open spec fn spec_type(self) -> ValueType {
        match self {
            Destructured::Null => ValueType::Null,
            Destructured::Bool(_) => ValueType::Bool,
            Destructured::Number(_) => ValueType::Number,
            Destructured::String(_) => ValueType::String,
            Destructured::Array(_) => ValueType::Array,
            Destructured::Object(_) => ValueType::Object,
        }
    }

    /// The borrowed form of a destructured value.
    pub open spec fn spec_as_ref(&self) -> DestructuredRef<'_> {
        match self {
            Destructured::Null => DestructuredRef::Null,
            Destructured::Bool(b) => DestructuredRef::Bool(*b),
            Destructured::Number(v) => DestructuredRef::Number(v),
            Destructured::String(v) => DestructuredRef::String(v),
            Destructured::Array(v) => DestructuredRef::Array(v),
            Destructured::Object(v) => DestructuredRef::Object(v),
        }
    }

    /// Convert to the borrowed form of thie enum.
    pub fn as_ref(&self) -> (r: DestructuredRef<'_>)
        ensures
            r == self.spec_as_ref(),
    {
        match self {
            Destructured::Null => DestructuredRef::Null,
            Destructured::Bool(b) => DestructuredRef::Bool(*b),
            Destructured::Number(v) => DestructuredRef::Number(v),
            Destructured::String(v) => DestructuredRef::String(v),
            Destructured::Array(v) => DestructuredRef::Array(v),
            Destructured::Object(v) => DestructuredRef::Object(v),
        }
    }
}

impl ValueType {
    /// The place of a kind in the order of kinds: null, boolean, number, string, array,
    /// object.
    pub open spec fn spec_ordinal(self) -> int {
        match self {
            ValueType::Null => 0,
            ValueType::Bool => 1,
            ValueType::Number => 2,
            ValueType::String => 3,
            ValueType::Array => 4,
            ValueType::Object => 5,
        }
    }

    /// The place of a kind in the order of kinds.
    pub fn ordinal(self) -> (r: u8)
        ensures
            r == self.spec_ordinal(),
    {
        match self {
            ValueType::Null => 0,
            ValueType::Bool => 1,
            ValueType::Number => 2,
            ValueType::String => 3,
            ValueType::Array => 4,
            ValueType::Object => 5,
        }
    }
}

impl IValue {
    /// Whether two values are equal: of one kind, and equal as what they are. Numbers
    /// are equal by value, strings by address, arrays item by item, and objects where
    /// they hold the same keys with equal values, in whatever order.
    pub open spec fn spec_eq(&self, other: &IValue) -> bool
        decreases self,
    {
        match (self@, other@) {
            (Destructured::Null, Destructured::Null) => true,
            (Destructured::Bool(a), Destructured::Bool(b)) => a == b,
            (Destructured::Number(a), Destructured::Number(b)) => a.scaled() == b.scaled(),
            (Destructured::String(a), Destructured::String(b)) => a.spec_addr() == b.spec_addr(),
            (Destructured::Array(a), Destructured::Array(b)) => {
                &&& a@.len() == b@.len()
                &&& forall|i: int|
                    0 <= i < a@.len() ==> {
                        proof {
                            self.lemma_view_decreases();
                            a.lemma_decreases(i);
                        }
                        (#[trigger] a@[i]).spec_eq(&b@[i])
                    }
            },
            (Destructured::Object(a), Destructured::Object(b)) => {
                &&& a.entries().len() == b.entries().len()
                &&& forall|i: int|
                    0 <= i < a.entries().len() ==> {
                        proof {
                            self.lemma_view_decreases();
                            a.lemma_decreases(i);
                        }
                        let addr = (#[trigger] a.entries()[i]).0.spec_addr();
                        &&& has_key(b.entries(), addr)
                        &&& a.entries()[i].1.spec_eq(&b.entries()[key_index(b.entries(), addr)].1)
                    }
            },
            _ => false,
        }
    }

    /// The string handles that the value holds, each as often as the value holds it: the
    /// handle of a string itself, those of an array's items from the first item to the
    /// last, and of an object's entries, each key before what its value holds. A copy
    /// of the value clones them in this order, and dropping the value drops them from the
    /// last to the first.
    pub open spec fn strings(&self) -> Seq<IString>
        decreases self, 0int,
    {
        match self@ {
            Destructured::String(s) => seq![s],
            Destructured::Array(a) => {
                proof {
                    self.lemma_view_decreases();
                }
                a.strings_between(0, a@.len() as int)
            },
            Destructured::Object(o) => {
                proof {
                    self.lemma_view_decreases();
                }
                o.strings_between(0, o.entries().len() as int)
            },
            _ => Seq::empty(),
        }
    }

    /// The order of two values. Values of different kinds are in the order of their
    /// kinds: null, boolean, number, string, array, object. Of two values of one kind,
    /// booleans have `false` before `true`, numbers are ordered by value, strings by their
    /// bytes, arrays by their first items that are not equal, and objects not at all: two
    /// objects that are not equal have no order.
    pub open spec fn order(&self, other: &IValue) -> Option<Ordering>
        decreases self, 0int,
    {
        match (self@, other@) {
            (Destructured::Null, Destructured::Null) => Some(Ordering::Equal),
            (Destructured::Bool(a), Destructured::Bool(b)) => Some(order_of_bools(a, b)),
            (Destructured::Number(a), Destructured::Number(b)) => Some(
                order_of(a.scaled(), b.scaled()),
            ),
            (Destructured::String(a), Destructured::String(b)) => Some(IString::order(a, b)),
            (Destructured::Array(a), Destructured::Array(b)) => {
                proof {
                    self.lemma_view_decreases();
                }
                a.order_from(&b, 0)
            },
            (Destructured::Object(a), Destructured::Object(b)) => if self.spec_eq(other) {
                Some(Ordering::Equal)
            } else {
                None
            },
            _ => Some(order_of(self@.spec_type().spec_ordinal(), other@.spec_type().spec_ordinal())),
        }
    }

    /// The order of two values.
    pub fn partial_cmp_impl(&self, other: &Self) -> (r: Option<Ordering>)
        ensures
            r == self.order(other),
        decreases self, 0int,
    {
        match (&self.inner, &other.inner) {
            (Destructured::Null, Destructured::Null) => Some(Ordering::Equal),
            (Destructured::Bool(a), Destructured::Bool(b)) => {
                if *a == *b {
                    Some(Ordering::Equal)
                } else if *b {
                    Some(Ordering::Less)
                } else {
                    Some(Ordering::Greater)
                }
            },
            (Destructured::Number(a), Destructured::Number(b)) => Some(a.cmp(b)),
            (Destructured::String(a), Destructured::String(b)) => Some(a.cmp(b)),
            (Destructured::Array(a), Destructured::Array(b)) => a.partial_cmp_impl(b),
            (Destructured::Object(a), Destructured::Object(b)) => {
                if a.eq_impl(b) {
                    Some(Ordering::Equal)
                } else {
                    None
                }
            },
            _ => {
                let t1 = self.type_().ordinal();
                let t2 = other.type_().ordinal();
                if t1 < t2 {
                    Some(Ordering::Less)
                } else if t1 == t2 {
                    Some(Ordering::Equal)
                } else {
                    Some(Ordering::Greater)
                }
            },
        }
    }

    /// The value that is the given thing.
    pub closed spec fn of(inner: Destructured) -> IValue {
        IValue { inner }
    }

    /// The value that is a thing is seen as that thing, and every value is the value of
    /// what it is seen as.
    pub proof fn lemma_of(inner: Destructured)
        ensures
            Self::of(inner)@ == inner,
    {
    }

    /// A value is above what it holds.
    pub proof fn lemma_view_decreases(self)
        ensures
            decreases_to!(self => self@),
    {
    }

    /// JSON `null`.
    pub fn null() -> (r: Self)
        ensures
            r@ is Null,
    {
        Self::new_inline(TypeTag::StringOrNull)
    }

    /// The inline value with the given tag: `null`, `false` or `true`.
    fn new_inline(tag: TypeTag) -> (r: Self)
        requires
            tag != TypeTag::Number,
        ensures
            r@ == match tag {
                TypeTag::StringOrNull => Destructured::Null,
                TypeTag::ArrayOrFalse => Destructured::Bool(false),
                _ => Destructured::Bool(true),
            },
    {
        match tag {
            TypeTag::StringOrNull => IValue { inner: Destructured::Null },
            TypeTag::ArrayOrFalse => IValue { inner: Destructured::Bool(false) },
            _ => IValue { inner: Destructured::Bool(true) },
        }
    }

    /// Whether the value is held behind an address rather than inline.
    pub open spec fn spec_is_ptr(&self) -> bool {
        self@ is Number || self@ is String || self@ is Array || self@ is Object
    }

    /// The tag of the value's word.
    pub open spec fn spec_type_tag(&self) -> TypeTag {
        match self@ {
            Destructured::Number(_) => TypeTag::Number,
            Destructured::String(_) | Destructured::Null => TypeTag::StringOrNull,
            Destructured::Array(_) | Destructured::Bool(false) => TypeTag::ArrayOrFalse,
            Destructured::Object(_) | Destructured::Bool(true) => TypeTag::ObjectOrTrue,
        }
    }

    /// Whether the value is held behind an address rather than inline.
    pub fn is_ptr(&self) -> (r: bool)
        ensures
            r == self.spec_is_ptr(),
    {
        match &self.inner {
            Destructured::Null | Destructured::Bool(_) => false,
            _ => true,
        }
    }

    /// The tag of the value's word.
    pub fn type_tag(&self) -> (r: TypeTag)
        ensures
            r == self.spec_type_tag(),
    {
        match &self.inner {
            Destructured::Number(_) => TypeTag::Number,
            Destructured::String(_) | Destructured::Null => TypeTag::StringOrNull,
            Destructured::Array(_) | Destructured::Bool(false) => TypeTag::ArrayOrFalse,
            Destructured::Object(_) | Destructured::Bool(true) => TypeTag::ObjectOrTrue,
        }
    }

    /// Returns the type of this value.
    pub fn type_(&self) -> (r: ValueType)
        ensures
            r == self@.spec_type(),
    {
        match (self.type_tag(), self.is_ptr()) {
            (TypeTag::Number, _) => ValueType::Number,
            (TypeTag::StringOrNull, true) => ValueType::String,
            (TypeTag::ArrayOrFalse, true) => ValueType::Array,
            (TypeTag::ObjectOrTrue, true) => ValueType::Object,
            (TypeTag::StringOrNull, false) => ValueType::Null,
            (TypeTag::ArrayOrFalse, false) | (TypeTag::ObjectOrTrue, false) => ValueType::Bool,
        }
    }

    /// Destructures this value into an enum which can be `match`ed on.
    pub fn destructure(self) -> (r: Destructured)
        ensures
            r == self@,
    {
        self.inner
    }

    /// Destructures a reference to this value into an enum which can be `match`ed on.
    pub fn destructure_ref(&self) -> (r: DestructuredRef<'_>)
        ensures
            r == self@.spec_as_ref(),
    {
        self.inner.as_ref()
    }

    /// Destructures a mutable reference to this value into an enum which can be `match`ed on.
    pub fn destructure_mut(&mut self) -> (r: DestructuredMut<'_>)
        ensures
            match r {
                DestructuredMut::Null => old(self)@ is Null && *final(self) == *old(self),
                DestructuredMut::Bool(b) => old(self)@ is Bool && *b.0 == *old(self) && *final(self)
                    == *final(b.0),
                DestructuredMut::Number(n) => old(self)@ == Destructured::Number(*n) && final(self)@
                    == Destructured::Number(*final(n)),
                DestructuredMut::String(s) => old(self)@ == Destructured::String(*s) && final(self)@
                    == Destructured::String(*final(s)),
                DestructuredMut::Array(a) => old(self)@ == Destructured::Array(*a) && final(self)@
                    == Destructured::Array(*final(a)),
                DestructuredMut::Object(o) => old(self)@ == Destructured::Object(*o) && final(self)@
                    == Destructured::Object(*final(o)),
            },
    {
        if self.is_bool() {
            return DestructuredMut::Bool(BoolMut(self));
        }
        match &mut self.inner {
            Destructured::Number(n) => DestructuredMut::Number(n),
            Destructured::String(s) => DestructuredMut::String(s),
            Destructured::Array(a) => DestructuredMut::Array(a),
            Destructured::Object(o) => DestructuredMut::Object(o),
            _ => DestructuredMut::Null,
        }
    }

    /// Indexes into this value with a number or string. A number suits an array and a
    /// string an object. Returns `None` if there is no value at this index.
    pub fn get<I: ValueIndex>(&self, index: I) -> (r: Option<&IValue>)
        requires
            index.applies(self),
        ensures
            match r {
                Some(x) => index.lookup(self) == Some(*x),
                None => index.lookup(self) is None,
            },
    {
        index.index_into(self)
    }

    /// Mutably indexes into this value with a number or string. A number suits an array
    /// and a string an object. Returns `None` if there is no value at this index.
    pub fn get_mut<I: ValueIndex>(&mut self, index: I) -> (r: Option<&mut IValue>)
        requires
            index.applies(old(self)),
        ensures
            match r {
                Some(x) => index.lookup(old(self)) == Some(*x) && index.replaced(
                    old(self),
                    final(self),
                    *final(x),
                ),
                None => index.lookup(old(self)) is None && *final(self) == *old(self),
            },
    {
        index.index_into_mut(self)
    }

    /// Removes a value at the specified numberic or string index. A number suits an array
    /// and a string an object. Returns `None` if there is no value at this index.
    pub fn remove<I: ValueIndex, T: CacheTable>(&mut self, index: I, cache: &mut Cache<T>) -> (r: Option<
        IValue,
    >)
        requires
            index.applies(old(self)),
            old(cache).wf(),
        ensures
            final(cache).wf(),
            r == index.lookup(old(self)),
            index.removed(old(self), final(self)),
            final(cache).frontier() == old(cache).frontier(),
            index.released(old(self), old(cache).entries(), final(cache).entries()),
    {
        index.remove(self, cache)
    }

    /// Takes this value, replacing it with `null`.
    pub fn take(&mut self) -> (r: IValue)
        ensures
            r == *old(self),
            final(self)@ is Null,
    {
        let mut r = IValue::null();
        std::mem::swap(self, &mut r);
        r
    }

    /// Returns the length of this value if it is an array or object.
    /// Returns `None` for other types.
    pub fn len(&self) -> (r: Option<usize>)
        ensures
            r == match self@ {
                Destructured::Array(a) => Some(a@.len() as usize),
                Destructured::Object(o) => Some(o.entries().len() as usize),
                _ => None,
            },
    {
        match &self.inner {
            Destructured::Array(a) => Some(a.len()),
            Destructured::Object(o) => Some(o.len()),
            _ => None,
        }
    }

    /// Returns whether this value is empty if it is an array or object.
    /// Returns `None` for other types.
    pub fn is_empty(&self) -> (r: Option<bool>)
        ensures
            r == match self@ {
                Destructured::Array(a) => Some(a@.len() == 0),
                Destructured::Object(o) => Some(o.entries().len() == 0),
                _ => None,
            },
    {
        match &self.inner {
            Destructured::Array(a) => Some(a.is_empty()),
            Destructured::Object(o) => Some(o.is_empty()),
            _ => None,
        }
    }

    /// Returns `true` if this is the `null` value.
    pub fn is_null(&self) -> (r: bool)
        ensures
            r == (self@ is Null),
    {
        matches!(self.inner, Destructured::Null)
    }

    /// Returns `true` if this is a boolean.
    pub fn is_bool(&self) -> (r: bool)
        ensures
            r == (self@ is Bool),
    {
        self.is_true() || self.is_false()
    }

    /// Returns `true` if this is the `true` value.
    pub fn is_true(&self) -> (r: bool)
        ensures
            r == (self@ == Destructured::Bool(true)),
    {
        matches!(self.inner, Destructured::Bool(true))
    }

    /// Returns `true` if this is the `false` value.
    pub fn is_false(&self) -> (r: bool)
        ensures
            r == (self@ == Destructured::Bool(false)),
    {
        matches!(self.inner, Destructured::Bool(false))
    }

    /// Converts this value to a `bool`.
    /// Returns `None` if it's not a boolean.
    pub fn to_bool(&self) -> (r: Option<bool>)
        ensures
            r == match self@ {
                Destructured::Bool(b) => Some(b),
                _ => None,
            },
    {
        if self.is_bool() {
            Some(self.is_true())
        } else {
            None
        }
    }

    /// Returns `true` if this is a number.
    pub fn is_number(&self) -> (r: bool)
        ensures
            r == (self@ is Number),
    {
        self.type_tag() == TypeTag::Number
    }

    /// Gets a reference to this value as an [`INumber`].
    /// Returns `None` if it's not a number.
    pub fn as_number(&self) -> (r: Option<&INumber>)
        ensures
            r == match self@ {
                Destructured::Number(n) => Some(&n),
                _ => None,
            },
    {
        match &self.inner {
            Destructured::Number(n) => Some(n),
            _ => None,
        }
    }

    /// Gets a mutable reference to this value as an [`INumber`].
    /// Returns `None` if it's not a number.
    pub fn as_number_mut(&mut self) -> (r: Option<&mut INumber>)
        ensures
            match r {
                Some(n) => old(self)@ == Destructured::Number(*n) && final(self)@
                    == Destructured::Number(*final(n)),
                None => !(old(self)@ is Number) && *final(self) == *old(self),
            },
    {
        match &mut self.inner {
            Destructured::Number(n) => Some(n),
            _ => None,
        }
    }

    /// Converts this value to an [`INumber`].
    ///
    /// # Errors
    ///
    /// Returns `Err(self)` if it's not a number.
    pub fn into_number(self) -> (r: Result<INumber, IValue>)
        ensures
            match r {
                Ok(n) => self@ == Destructured::Number(n),
                Err(v) => !(self@ is Number) && v == self,
            },
    {
        match self.inner {
            Destructured::Number(n) => Ok(n),
            inner => Err(IValue { inner }),
        }
    }

    /// Converts this value to an i64 if it is a number that can be represented exactly.
    pub fn to_i64(&self) -> (r: Option<i64>)
        ensures
            match r {
                Some(v) => self@ is Number && self@->Number_0.scaled() == crate::number::int_scaled(
                    v as int,
                ),
                None => self@ is Number ==> forall|v: int|
                    i64::MIN <= v <= i64::MAX ==> self@->Number_0.scaled()
                        != #[trigger] crate::number::int_scaled(v),
            },
    {
        match self.as_number() {
            Some(n) => n.to_i64(),
            None => None,
        }
    }

    /// Converts this value to a u64 if it is a number that can be represented exactly.
    pub fn to_u64(&self) -> (r: Option<u64>)
        ensures
            match r {
                Some(v) => self@ is Number && self@->Number_0.scaled() == crate::number::int_scaled(
                    v as int,
                ),
                None => self@ is Number ==> forall|v: int|
                    0 <= v <= u64::MAX ==> self@->Number_0.scaled()
                        != #[trigger] crate::number::int_scaled(v),
            },
    {
        match self.as_number() {
            Some(n) => n.to_u64(),
            None => None,
        }
    }

    /// Converts this value to an f64, given by its bits, if it is a number that can be
    /// represented exactly.
    pub fn to_f64(&self) -> (r: Option<u64>)
        ensures
            match r {
                Some(bits) => self@ is Number && crate::number::float_finite(bits)
                    && crate::number::float_scaled(bits) == self@->Number_0.scaled(),
                None => self@ is Number ==> forall|bits: u64|
                    crate::number::float_finite(bits) ==> #[trigger] crate::number::float_scaled(
                        bits,
                    ) != self@->Number_0.scaled(),
            },
    {
        match self.as_number() {
            Some(n) => n.to_f64(),
            None => None,
        }
    }

    /// Converts this value to an f32, given by its bits, if it is a number that can be
    /// represented exactly.
    pub fn to_f32(&self) -> (r: Option<u32>)
        ensures
            match r {
                Some(bits) => self@ is Number && crate::number::single_finite(bits)
                    && crate::number::single_scaled(bits) == self@->Number_0.scaled(),
                None => self@ is Number ==> forall|bits: u32|
                    crate::number::single_finite(bits) ==> #[trigger] crate::number::single_scaled(
                        bits,
                    ) != self@->Number_0.scaled(),
            },
    {
        match self.as_number() {
            Some(n) => n.to_f32(),
            None => None,
        }
    }

    /// Converts this value to an i32 if it is a number that can be represented exactly.
    pub fn to_i32(&self) -> (r: Option<i32>)
        ensures
            match r {
                Some(v) => self@ is Number && self@->Number_0.scaled() == crate::number::int_scaled(
                    v as int,
                ),
                None => self@ is Number ==> forall|v: int|
                    i32::MIN <= v <= i32::MAX ==> self@->Number_0.scaled()
                        != #[trigger] crate::number::int_scaled(v),
            },
    {
        match self.as_number() {
            Some(n) => n.to_i32(),
            None => None,
        }
    }

    /// Converts this value to a u32 if it is a number that can be represented exactly.
    pub fn to_u32(&self) -> (r: Option<u32>)
        ensures
            match r {
                Some(v) => self@ is Number && self@->Number_0.scaled() == crate::number::int_scaled(
                    v as int,
                ),
                None => self@ is Number ==> forall|v: int|
                    0 <= v <= u32::MAX ==> self@->Number_0.scaled()
                        != #[trigger] crate::number::int_scaled(v),
            },
    {
        match self.as_number() {
            Some(n) => n.to_u32(),
            None => None,
        }
    }

    /// Converts this value to an isize if it is a number that can be represented exactly.
    pub fn to_isize(&self) -> (r: Option<isize>)
        ensures
            match r {
                Some(v) => self@ is Number && self@->Number_0.scaled() == crate::number::int_scaled(
                    v as int,
                ),
                None => self@ is Number ==> forall|v: int|
                    isize::MIN <= v <= isize::MAX ==> self@->Number_0.scaled()
                        != #[trigger] crate::number::int_scaled(v),
            },
    {
        match self.as_number() {
            Some(n) => n.to_isize(),
            None => None,
        }
    }

    /// Converts this value to a usize if it is a number that can be represented exactly.
    pub fn to_usize(&self) -> (r: Option<usize>)
        ensures
            match r {
                Some(v) => self@ is Number && self@->Number_0.scaled() == crate::number::int_scaled(
                    v as int,
                ),
                None => self@ is Number ==> forall|v: int|
                    0 <= v <= usize::MAX ==> self@->Number_0.scaled()
                        != #[trigger] crate::number::int_scaled(v),
            },
    {
        match self.as_number() {
            Some(n) => n.to_usize(),
            None => None,
        }
    }

    /// Returns `true` if this is a string.
    pub fn is_string(&self) -> (r: bool)
        ensures
            r == (self@ is String),
    {
        self.type_tag() == TypeTag::StringOrNull && self.is_ptr()
    }

    /// Gets a reference to this value as an [`IString`].
    /// Returns `None` if it's not a string.
    pub fn as_string(&self) -> (r: Option<&IString>)
        ensures
            r == match self@ {
                Destructured::String(s) => Some(&s),
                _ => None,
            },
    {
        match &self.inner {
            Destructured::String(s) => Some(s),
            _ => None,
        }
    }

    /// Gets a mutable reference to this value as an [`IString`].
    /// Returns `None` if it's not a string.
    pub fn as_string_mut(&mut self) -> (r: Option<&mut IString>)
        ensures
            match r {
                Some(s) => old(self)@ == Destructured::String(*s) && final(self)@
                    == Destructured::String(*final(s)),
                None => !(old(self)@ is String) && *final(self) == *old(self),
            },
    {
        match &mut self.inner {
            Destructured::String(s) => Some(s),
            _ => None,
        }
    }

    /// Converts this value to an [`IString`].
    ///
    /// # Errors
    ///
    /// Returns `Err(self)` if it's not a string.
    pub fn into_string(self) -> (r: Result<IString, IValue>)
        ensures
            match r {
                Ok(s) => self@ == Destructured::String(s),
                Err(v) => !(self@ is String) && v == self,
            },
    {
        match self.inner {
            Destructured::String(s) => Ok(s),
            inner => Err(IValue { inner }),
        }
    }

    /// Returns `true` if this is an array.
    pub fn is_array(&self) -> (r: bool)
        ensures
            r == (self@ is Array),
    {
        self.type_tag() == TypeTag::ArrayOrFalse && self.is_ptr()
    }

    /// Gets a reference to this value as an [`IArray`].
    /// Returns `None` if it's not an array.
    pub fn as_array(&self) -> (r: Option<&IArray>)
        ensures
            r == match self@ {
                Destructured::Array(a) => Some(&a),
                _ => None,
            },
    {
        match &self.inner {
            Destructured::Array(a) => Some(a),
            _ => None,
        }
    }

    /// Gets a mutable reference to this value as an [`IArray`].
    /// Returns `None` if it's not an array.
    pub fn as_array_mut(&mut self) -> (r: Option<&mut IArray>)
        ensures
            match r {
                Some(a) => old(self)@ == Destructured::Array(*a) && final(self)@
                    == Destructured::Array(*final(a)),
                None => !(old(self)@ is Array) && *final(self) == *old(self),
            },
    {
        match &mut self.inner {
            Destructured::Array(a) => Some(a),
            _ => None,
        }
    }

    /// Converts this value to an [`IArray`].
    ///
    /// # Errors
    ///
    /// Returns `Err(self)` if it's not an array.
    pub fn into_array(self) -> (r: Result<IArray, IValue>)
        ensures
            match r {
                Ok(a) => self@ == Destructured::Array(a),
                Err(v) => !(self@ is Array) && v == self,
            },
    {
        match self.inner {
            Destructured::Array(a) => Ok(a),
            inner => Err(IValue { inner }),
        }
    }

    /// Returns `true` if this is an object.
    pub fn is_object(&self) -> (r: bool)
        ensures
            r == (self@ is Object),
    {
        self.type_tag() == TypeTag::ObjectOrTrue && self.is_ptr()
    }

    /// Gets a reference to this value as an [`IObject`].
    /// Returns `None` if it's not an object.
    pub fn as_object(&self) -> (r: Option<&IObject>)
        ensures
            r == match self@ {
                Destructured::Object(o) => Some(&o),
                _ => None,
            },
    {
        match &self.inner {
            Destructured::Object(o) => Some(o),
            _ => None,
        }
    }

    /// Gets a mutable reference to this value as an [`IObject`].
    /// Returns `None` if it's not an object.
    pub fn as_object_mut(&mut self) -> (r: Option<&mut IObject>)
        ensures
            match r {
                Some(o) => old(self)@ == Destructured::Object(*o) && final(self)@
                    == Destructured::Object(*final(o)),
                None => !(old(self)@ is Object) && *final(self) == *old(self),
            },
    {
        match &mut self.inner {
            Destructured::Object(o) => Some(o),
            _ => None,
        }
    }

    /// Converts this value to an [`IObject`].
    ///
    /// # Errors
    ///
    /// Returns `Err(self)` if it's not an object.
    pub fn into_object(self) -> (r: Result<IObject, IValue>)
        ensures
            match r {
                Ok(o) => self@ == Destructured::Object(o),
                Err(v) => !(self@ is Object) && v == self,
            },
    {
        match self.inner {
            Destructured::Object(o) => Ok(o),
            inner => Err(IValue { inner }),
        }
    }

    /// A deep copy of the value. The cache counts the strings of the copy.
    pub fn clone_impl<T: CacheTable>(&self, cache: &mut Cache<T>) -> (r: Self)
        requires
            old(cache).wf(),
        ensures
            final(cache).wf(),
            Cache::grown(*old(cache), *final(cache)),
            final(cache).entries() == clone_each(old(cache).entries(), self.strings()),
            r.spec_eq(self),
            r.strings() == self.strings(),
        decreases self, 0nat,
    {
        proof {
            Cache::lemma_grown_refl(*cache);
        }
        match &self.inner {
            Destructured::Null => IValue { inner: Destructured::Null },
            Destructured::Bool(b) => IValue { inner: Destructured::Bool(*b) },
            Destructured::Number(n) => IValue { inner: Destructured::Number(n.clone_impl()) },
            Destructured::String(s) => {
                let copy = s.clone_impl(cache);
                proof {
                    Cache::lemma_cloned_grown(*old(cache), *s, *cache);
                    lemma_one_handle(old(cache).entries(), *s);
                }
                IValue { inner: Destructured::String(copy) }
            },
            Destructured::Array(a) => IValue { inner: Destructured::Array(a.clone_impl(cache)) },
            Destructured::Object(o) => IValue { inner: Destructured::Object(o.clone_impl(cache)) },
        }
    }

    /// Drops the value and all that it holds. The cache counts its strings no longer.
    pub fn drop_impl<T: CacheTable>(self, cache: &mut Cache<T>)
        requires
            old(cache).wf(),
        ensures
            final(cache).wf(),
            Cache::shrunk(*old(cache), *final(cache)),
            final(cache).entries() == drop_back(old(cache).entries(), self.strings()),
        decreases self, 0nat,
    {
        proof {
            Cache::lemma_shrunk_refl(*cache);
        }
        match self.inner {
            Destructured::Null | Destructured::Bool(_) | Destructured::Number(_) => {},
            Destructured::String(s) => {
                s.drop_impl(cache);
                proof {
                    Cache::lemma_dropped_shrunk(*old(cache), s, *cache);
                    lemma_one_handle(old(cache).entries(), s);
                }
            },
            Destructured::Array(a) => a.drop_impl(cache),
            Destructured::Object(o) => o.drop_impl(cache),
        }
    }

    /// Moves the value, and every block that it owns, into an arena.
    pub fn defrag_impl<A: DefragAllocator>(self, defrag_allocator: &mut A) -> (r: Self)
        ensures
            r.spec_eq(&self),
        decreases self,
    {
        match self.inner {
            Destructured::Null => Self::null(),
            Destructured::Bool(val) => {
                if val {
                    IValue { inner: Destructured::Bool(true) }
                } else {
                    IValue { inner: Destructured::Bool(false) }
                }
            },
            Destructured::Array(array) => IValue {
                inner: Destructured::Array(array.defrag_impl(defrag_allocator)),
            },
            Destructured::Object(obj) => IValue {
                inner: Destructured::Object(obj.defrag_impl(defrag_allocator)),
            },
            Destructured::String(s) => IValue { inner: Destructured::String(s.defrag(defrag_allocator)) },
            Destructured::Number(n) => IValue { inner: Destructured::Number(n.defrag(defrag_allocator)) },
        }
    }

    /// Whether two values are equal.
    pub fn eq_impl(&self, other: &Self) -> (r: bool)
        ensures
            r == self.spec_eq(other),
        decreases self, 0nat,
    {
        match (&self.inner, &other.inner) {
            (Destructured::Null, Destructured::Null) => true,
            (Destructured::Bool(a), Destructured::Bool(b)) => *a == *b,
            (Destructured::Number(a), Destructured::Number(b)) => a == b,
            (Destructured::String(a), Destructured::String(b)) => a == b,
            (Destructured::Array(a), Destructured::Array(b)) => a.eq_impl(b),
            (Destructured::Object(a), Destructured::Object(b)) => a.eq_impl(b),
            _ => false,
        }
    }
}

/// Marks the types that can index into an [`IValue`].
pub trait Sealed {

}

impl Sealed for usize {

}

impl Sealed for &IString {

}

/// Trait which abstracts over the various number and string types
/// which can be used to index into an [`IValue`].
pub trait ValueIndex: Sealed + Copy {
    /// Whether the index suits the value: a number suits an array, a string an object.
    spec fn applies(self, v: &IValue) -> bool;

    /// What the value holds at the index, if anything.
    spec fn lookup(self, v: &IValue) -> Option<IValue>;

    /// Whether `after` is `before` with `x` in the place of what was at the index.
    spec fn replaced(self, before: &IValue, after: &IValue, x: IValue) -> bool;

    /// Whether `after` is `before` without what was at the index.
    spec fn removed(self, before: &IValue, after: &IValue) -> bool;

    /// What removing at the index makes of the entries of the string cache.
    spec fn released(self, v: &IValue, before: Entries, after: Entries) -> bool;

    /// The item at the index.
    fn index_into(self, v: &IValue) -> (r: Option<&IValue>)
        requires
            self.applies(v),
        ensures
            match r {
                Some(x) => self.lookup(v) == Some(*x),
                None => self.lookup(v) is None,
            },
    ;

    /// The item at the index, to be changed in place.
    fn index_into_mut(self, v: &mut IValue) -> (r: Option<&mut IValue>)
        requires
            self.applies(old(v)),
        ensures
            match r {
                Some(x) => self.lookup(old(v)) == Some(*x) && self.replaced(
                    old(v),
                    final(v),
                    *final(x),
                ),
                None => self.lookup(old(v)) is None && *final(v) == *old(v),
            },
    ;

    /// Takes out the item at the index.
    fn remove<T: CacheTable>(self, v: &mut IValue, cache: &mut Cache<T>) -> (r: Option<IValue>)
        requires
            self.applies(old(v)),
            old(cache).wf(),
        ensures
            final(cache).wf(),
            r == self.lookup(old(v)),
            self.removed(old(v), final(v)),
            final(cache).frontier() == old(cache).frontier(),
            self.released(old(v), old(cache).entries(), final(cache).entries()),
    ;
}

impl ValueIndex for usize {
    open spec fn applies(self, v: &IValue) -> bool {
        v@ is Array
    }

    open spec fn lookup(self, v: &IValue) -> Option<IValue> {
        let a = v@->Array_0;
        if self < a@.len() {
            Some(a@[self as int])
        } else {
            None
        }
    }

    open spec fn replaced(self, before: &IValue, after: &IValue, x: IValue) -> bool {
        &&& after@ is Array
        &&& after@->Array_0.spec_capacity() == before@->Array_0.spec_capacity()
        &&& after@->Array_0@ == before@->Array_0@.update(self as int, x)
    }

    open spec fn removed(self, before: &IValue, after: &IValue) -> bool {
        &&& after@ is Array
        &&& after@->Array_0.spec_capacity() == before@->Array_0.spec_capacity()
        &&& after@->Array_0@ == if self < before@->Array_0@.len() {
            before@->Array_0@.remove(self as int)
        } else {
            before@->Array_0@
        }
    }

    open spec fn released(self, v: &IValue, before: Entries, after: Entries) -> bool {
        after == before
    }

    fn index_into(self, v: &IValue) -> (r: Option<&IValue>) {
        match v.as_array() {
            Some(a) => a.get(self),
            None => None,
        }
    }

    fn index_into_mut(self, v: &mut IValue) -> (r: Option<&mut IValue>) {
        match v.as_array_mut() {
            Some(a) => a.get_mut(self),
            None => None,
        }
    }

    fn remove<T: CacheTable>(self, v: &mut IValue, cache: &mut Cache<T>) -> (r: Option<IValue>) {
        match v.as_array_mut() {
            Some(a) => a.remove(self),
            None => None,
        }
    }
}

impl ValueIndex for &IString {
    open spec fn applies(self, v: &IValue) -> bool {
        v@ is Object
    }

    open spec fn lookup(self, v: &IValue) -> Option<IValue> {
        let o = v@->Object_0;
        if o@.dom().contains(self.spec_addr()) {
            Some(o@[self.spec_addr()])
        } else {
            None
        }
    }

    open spec fn replaced(self, before: &IValue, after: &IValue, x: IValue) -> bool {
        &&& after@ is Object
        &&& after@->Object_0.spec_capacity() == before@->Object_0.spec_capacity()
        &&& after@->Object_0@ == before@->Object_0@.insert(self.spec_addr(), x)
    }

    open spec fn removed(self, before: &IValue, after: &IValue) -> bool {
        &&& after@ is Object
        &&& after@->Object_0.spec_capacity() == before@->Object_0.spec_capacity()
        &&& after@->Object_0@ == before@->Object_0@.remove(self.spec_addr())
    }

    open spec fn released(self, v: &IValue, before: Entries, after: Entries) -> bool {
        let entries = v@->Object_0.entries();
        if has_key(entries, self.spec_addr()) {
            entries_dropped(before, entries[key_index(entries, self.spec_addr())].0, after)
        } else {
            after == before
        }
    }

    fn index_into(self, v: &IValue) -> (r: Option<&IValue>) {
        match v.as_object() {
            Some(o) => o.get(self),
            None => None,
        }
    }

    fn index_into_mut(self, v: &mut IValue) -> (r: Option<&mut IValue>) {
        match v.as_object_mut() {
            Some(o) => o.get_mut(self),
            None => None,
        }
    }

    fn remove<T: CacheTable>(self, v: &mut IValue, cache: &mut Cache<T>) -> (r: Option<IValue>) {
        match v.as_object_mut() {
            Some(o) => o.remove(self, cache),
            None => None,
        }
    }
}

impl<A: DefragAllocator> Defrag<A> for IValue {
    open spec fn same_content(&self, other: &Self) -> bool {
        self.spec_eq(other)
    }

    fn defrag(self, defrag_allocator: &mut A) -> (r: Self) {
        self.defrag_impl(defrag_allocator)
    }
}

impl PartialEq for IValue {
    fn eq(&self, other: &Self) -> (r: bool) {
        self.eq_impl(other)
    }
}

impl vstd::std_specs::cmp::PartialEqSpecImpl for IValue {
    open spec fn obeys_eq_spec() -> bool {
        true
    }

    open spec fn eq_spec(&self, other: &Self) -> bool {
        self.spec_eq(other)
    }
}

impl Eq for IValue {

}

impl PartialOrd for IValue {
    fn partial_cmp(&self, other: &Self) -> (r: Option<Ordering>) {
        self.partial_cmp_impl(other)
    }
}

impl vstd::std_specs::cmp::PartialOrdSpecImpl for IValue {
    open spec fn obeys_partial_cmp_spec() -> bool {
        true
    }

    open spec fn partial_cmp_spec(&self, other: &Self) -> Option<Ordering> {
        self.order(other)
    }
}

impl Default for IValue {
    fn default() -> (r: Self)
        ensures
            r@ is Null,
    {
        Self::null()
    }
}

impl From<bool> for IValue {
    fn from(other: bool) -> (r: Self) {
        if other {
            Self::new_inline(TypeTag::ObjectOrTrue)
        } else {
            Self::new_inline(TypeTag::ArrayOrFalse)
        }
    }
}

impl vstd::std_specs::convert::FromSpecImpl<bool> for IValue {
    open spec fn obeys_from_spec() -> bool {
        true
    }

    open spec fn from_spec(other: bool) -> Self {
        IValue::of(Destructured::Bool(other))
    }
}

impl From<INumber> for IValue {
    fn from(other: INumber) -> (r: Self) {
        IValue { inner: Destructured::Number(other) }
    }
}

impl vstd::std_specs::convert::FromSpecImpl<INumber> for IValue {
    open spec fn obeys_from_spec() -> bool {
        true
    }

    open spec fn from_spec(other: INumber) -> Self {
        IValue::of(Destructured::Number(other))
    }
}

impl From<IString> for IValue {
    fn from(other: IString) -> (r: Self) {
        IValue { inner: Destructured::String(other) }
    }
}

impl vstd::std_specs::convert::FromSpecImpl<IString> for IValue {
    open spec fn obeys_from_spec() -> bool {
        true
    }

    open spec fn from_spec(other: IString) -> Self {
        IValue::of(Destructured::String(other))
    }
}

impl From<IArray> for IValue {
    fn from(other: IArray) -> (r: Self) {
        IValue { inner: Destructured::Array(other) }
    }
}

impl vstd::std_specs::convert::FromSpecImpl<IArray> for IValue {
    open spec fn obeys_from_spec() -> bool {
        true
    }

    open spec fn from_spec(other: IArray) -> Self {
        IValue::of(Destructured::Array(other))
    }
}

impl From<IObject> for IValue {
    fn from(other: IObject) -> (r: Self) {
        IValue { inner: Destructured::Object(other) }
    }
}

impl vstd::std_specs::convert::FromSpecImpl<IObject> for IValue {
    open spec fn obeys_from_spec() -> bool {
        true
    }

    open spec fn from_spec(other: IObject) -> Self {
        IValue::of(Destructured::Object(other))
    }
}

impl From<i8> for IValue {
    fn from(other: i8) -> (r: Self) {
        IValue { inner: Destructured::Number(INumber::from(other)) }
    }
}

impl vstd::std_specs::convert::FromSpecImpl<i8> for IValue {
    open spec fn obeys_from_spec() -> bool {
        true
    }

    open spec fn from_spec(other: i8) -> Self {
        IValue::of(Destructured::Number(INumber::of_int(other as int)))
    }
}

impl From<u8> for IValue {
    fn from(other: u8) -> (r: Self) {
        IValue { inner: Destructured::Number(INumber::from(other)) }
    }
}

impl vstd::std_specs::convert::FromSpecImpl<u8> for IValue {
    open spec fn obeys_from_spec() -> bool {
        true
    }

    open spec fn from_spec(other: u8) -> Self {
        IValue::of(Destructured::Number(INumber::of_int(other as int)))
    }
}

impl From<i16> for IValue {
    fn from(other: i16) -> (r: Self) {
        IValue { inner: Destructured::Number(INumber::from(other)) }
    }
}

impl vstd::std_specs::convert::FromSpecImpl<i16> for IValue {
    open spec fn obeys_from_spec() -> bool {
        true
    }

    open spec fn from_spec(other: i16) -> Self {
        IValue::of(Destructured::Number(INumber::of_int(other as int)))
    }
}

impl From<u16> for IValue {
    fn from(other: u16) -> (r: Self) {
        IValue { inner: Destructured::Number(INumber::from(other)) }
    }
}

impl vstd::std_specs::convert::FromSpecImpl<u16> for IValue {
    open spec fn obeys_from_spec() -> bool {
        true
    }

    open spec fn from_spec(other: u16) -> Self {
        IValue::of(Destructured::Number(INumber::of_int(other as int)))
    }
}

impl From<i32> for IValue {
    fn from(other: i32) -> (r: Self) {
        IValue { inner: Destructured::Number(INumber::from(other)) }
    }
}

impl vstd::std_specs::convert::FromSpecImpl<i32> for IValue {
    open spec fn obeys_from_spec() -> bool {
        true
    }

    open spec fn from_spec(other: i32) -> Self {
        IValue::of(Destructured::Number(INumber::of_int(other as int)))
    }
}

impl From<u32> for IValue {
    fn from(other: u32) -> (r: Self) {
        IValue { inner: Destructured::Number(INumber::from(other)) }
    }
}

impl vstd::std_specs::convert::FromSpecImpl<u32> for IValue {
    open spec fn obeys_from_spec() -> bool {
        true
    }

    open spec fn from_spec(other: u32) -> Self {
        IValue::of(Destructured::Number(INumber::of_int(other as int)))
    }
}

impl From<i64> for IValue {
    fn from(other: i64) -> (r: Self) {
        IValue { inner: Destructured::Number(INumber::from(other)) }
    }
}

impl vstd::std_specs::convert::FromSpecImpl<i64> for IValue {
    open spec fn obeys_from_spec() -> bool {
        true
    }

    open spec fn from_spec(other: i64) -> Self {
        IValue::of(Destructured::Number(INumber::of_int(other as int)))
    }
}

impl From<u64> for IValue {
    fn from(other: u64) -> (r: Self) {
        IValue { inner: Destructured::Number(INumber::from(other)) }
    }
}

impl vstd::std_specs::convert::FromSpecImpl<u64> for IValue {
    open spec fn obeys_from_spec() -> bool {
        true
    }

    open spec fn from_spec(other: u64) -> Self {
        IValue::of(Destructured::Number(INumber::of_int(other as int)))
    }
}

impl From<isize> for IValue {
    fn from(other: isize) -> (r: Self) {
        IValue { inner: Destructured::Number(INumber::from(other)) }
    }
}

impl vstd::std_specs::convert::FromSpecImpl<isize> for IValue {
    open spec fn obeys_from_spec() -> bool {
        true
    }

    open spec fn from_spec(other: isize) -> Self {
        IValue::of(Destructured::Number(INumber::of_int(other as int)))
    }
}

impl From<usize> for IValue {
    fn from(other: usize) -> (r: Self) {
        IValue { inner: Destructured::Number(INumber::from(other)) }
    }
}

impl vstd::std_specs::convert::FromSpecImpl<usize> for IValue {
    open spec fn obeys_from_spec() -> bool {
        true
    }

    open spec fn from_spec(other: usize) -> Self {
        IValue::of(Destructured::Number(INumber::of_int(other as int)))
    }
}

} // verus!
