//! The interned string and the cache that interns it.
//!
//! An [`IString`] is an immutable string with the address that a string cache gave to
//! its content. Two handles are the same string where their addresses are equal; the
//! cache sees to it that equal contents get equal addresses.
//!
//! A [`Cache`] maps each text that is interned to the address it was given and to the
//! number of handles that refer to it. Interning a text that the cache holds hands out
//! its address again; a text's last handle, when it is dropped, takes the text out of the
//! cache, and its address is never given to another text. The cache keeps its texts in a
//! table: one of `dashmap`, which is in shards, or the plain one of `hashbrown`.

use crate::layout::word_size;
use crate::layout::Layout;
use crate::layout::LayoutError;
use crate::value::tagged_word;
use crate::value::TypeTag;
use crate::value::ALIGNMENT;
use crate::Defrag;
use crate::DefragAllocator;
use std::cmp::Ordering;
use vstd::prelude::*;
use vstd::string::StringSliceAdditionalSpecFns;

verus! {

/// Address of the empty string, which no cache hands out for any other content.
pub const EMPTY_ADDR: usize = 8;

/// One past the greatest length, in bytes, that a string's header can record.
pub const LEN_LIMIT: u64 = 0x1_0000_0000_0000;

/// One past the greatest shard index that a string's header can record.
pub const SHARD_LIMIT: usize = 0x1_0000;

/// What is stored in front of a string's bytes: the length, in 48 bits split over two
/// fields, and the index of the cache shard that owns the string.
#[derive(Copy, Clone, Debug)]
pub struct Header {
    len_lower: u32,
    len_upper: u16,
    shard_index: u16,
}

impl Header {
    /// The recorded length.
    pub closed spec fn spec_len(self) -> int {
        self.len_lower + self.len_upper * 0x1_0000_0000
    }

    /// The recorded shard.
    pub closed spec fn spec_shard_index(self) -> int {
        self.shard_index as int
    }

    /// A header that records the given length and shard.
    pub fn new(len: usize, shard_index: usize) -> (r: Header)
        requires
            len < LEN_LIMIT,
            shard_index < SHARD_LIMIT,
        ensures
            r.spec_len() == len,
            r.spec_shard_index() == shard_index,
    {
        let wide = len as u64;
        assert(wide < 0x1_0000_0000_0000 ==> (wide as u32) + ((wide >> 32) as u16) * 0x1_0000_0000
            == wide) by (bit_vector);
        Header {
            len_lower: #[verifier::truncate] (wide as u32),
            len_upper: #[verifier::truncate] ((wide >> 32) as u16),
            shard_index: shard_index as u16,
        }
    }

    /// The recorded length.
    pub fn len(&self) -> (r: usize)
        requires
            self.spec_len() <= usize::MAX,
        ensures
            r == self.spec_len(),
    {
        let lo = self.len_lower;
        let hi = self.len_upper;
        assert(((lo as u64) | ((hi as u64) << 32)) == lo + hi * 0x1_0000_0000) by (bit_vector);
        ((lo as u64) | ((hi as u64) << 32)) as usize
    }

    /// The recorded shard.
    pub fn shard_index(&self) -> (r: usize)
        ensures
            r == self.spec_shard_index(),
    {
        self.shard_index as usize
    }
}

/// The order of two byte strings: by the first byte in which they differ, a proper
/// prefix before what it is a prefix of.
pub open spec fn lex_order(a: Seq<u8>, b: Seq<u8>) -> Ordering
    decreases a.len(),
{
    if a.len() == 0 {
        if b.len() == 0 {
            Ordering::Equal
        } else {
            Ordering::Less
        }
    } else if b.len() == 0 {
        Ordering::Greater
    } else if a[0] < b[0] {
        Ordering::Less
    } else if a[0] > b[0] {
        Ordering::Greater
    } else {
        lex_order(a.drop_first(), b.drop_first())
    }
}

/// An index as an integer.
pub open spec fn index_int(i: usize) -> int {
    i as int
}

/// The order of two strings that agree on their first `n` bytes is that of the rest.
proof fn lemma_lex_order_skip(a: Seq<u8>, b: Seq<u8>, n: int)
    requires
        0 <= n <= a.len(),
        n <= b.len(),
        forall|j: int| 0 <= j < n ==> a[j] == b[j],
    ensures
        lex_order(a, b) == lex_order(a.skip(n), b.skip(n)),
    decreases n,
{
    if n == 0 {
        assert(a.skip(0) =~= a);
        assert(b.skip(0) =~= b);
    } else {
        lemma_lex_order_skip(a.drop_first(), b.drop_first(), n - 1);
        assert(a.drop_first().skip(n - 1) =~= a.skip(n));
        assert(b.drop_first().skip(n - 1) =~= b.skip(n));
    }
}

/// Orders two byte strings lexicographically.
pub fn order_bytes(a: &[u8], b: &[u8]) -> (r: Ordering)
    ensures
        r == lex_order(a@, b@),
{
    let mut i: usize = 0;
    while i < a.len() && i < b.len()
        invariant
            i <= a@.len(),
            i <= b@.len(),
            forall|j: int| 0 <= j < i ==> a@[j] == b@[j],
        decreases a@.len() - i,
    {
        proof {
            lemma_lex_order_skip(a@, b@, index_int(i));
        }
        if a[i] < b[i] {
            return Ordering::Less;
        }
        if a[i] > b[i] {
            return Ordering::Greater;
        }
        i += 1;
    }
    proof {
        lemma_lex_order_skip(a@, b@, index_int(i));
    }
    if i < b.len() {
        Ordering::Less
    } else if i < a.len() {
        Ordering::Greater
    } else {
        Ordering::Equal
    }
}

/// A string has no bytes exactly where it has no characters.
pub proof fn lemma_no_bytes_no_chars(s: Seq<char>)
    ensures
        (vstd::utf8::encode_utf8(s).len() == 0) == (s.len() == 0),
{
    reveal_with_fuel(vstd::utf8::encode_utf8, 2);
}

/// An interned, immutable string.
///
/// Its model is the text, `self@`, and the address [`IString::addr`] that the cache gave
/// to that text. Comparing two handles for equality compares their addresses.
#[derive(Debug)]
pub struct IString {
    addr: usize,
    hd: Header,
    text: String,
}

impl View for IString {
    type V = Seq<char>;

    closed spec fn view(&self) -> Seq<char> {
        self.text@
    }
}

impl IString {
    #[verifier::type_invariant]
    spec fn inv(self) -> bool {
        Self::valid_parts(self.addr, self.hd, self.text@)
    }

    /// What makes an address, a header and a text a handle: the address is aligned and
    /// is that of the empty string exactly for the empty text, and the header records the
    /// text's length in bytes.
    pub open spec fn valid_parts(addr: usize, hd: Header, text: Seq<char>) -> bool {
        &&& addr % ALIGNMENT == 0
        &&& addr >= ALIGNMENT
        &&& hd.spec_len() == vstd::utf8::encode_utf8(text).len()
        &&& hd.spec_len() <= usize::MAX
        &&& (text.len() == 0) == (addr == EMPTY_ADDR)
    }

    /// The address of the string's content.
    pub closed spec fn spec_addr(&self) -> usize {
        self.addr
    }

    /// The shard of the cache that owns the string.
    pub closed spec fn spec_shard(&self) -> int {
        self.hd.spec_shard_index()
    }

    /// The layout of the block that holds a string of `len` bytes: the header, then the
    /// bytes, padded to the header's alignment.
    pub open spec fn spec_layout(len: int) -> Result<Layout, LayoutError> {
        let word = crate::layout::spec_word_size();
        let size = crate::layout::round_up(word + 8 + len, word);
        if size <= isize::MAX {
            Ok(Layout::of(size, word))
        } else {
            Err(LayoutError)
        }
    }

    /// The layout of the block that holds a string of `len` bytes.
    pub fn layout(len: usize) -> (r: Result<Layout, LayoutError>)
        ensures
            r == Self::spec_layout(len as int),
    {
        let word = word_size();
        proof {
            crate::layout::lemma_round_up((word + 8) as int, word as int);
            crate::layout::lemma_round_up(word + 8 + len, word as int);
            crate::layout::lemma_round_up(len as int, 1);
        }
        let header = match Layout::from_size_align(word + 8, word) {
            Ok(header) => header,
            Err(e) => {
                return Err(e);
            },
        };
        let bytes = match Layout::array(1, 1, len) {
            Ok(bytes) => bytes,
            Err(e) => {
                return Err(e);
            },
        };
        proof {
            Layout::lemma_of((word + 8) as int, word as int);
            Layout::lemma_of(1 * len, 1);
        }
        match header.extend(bytes) {
            Ok((whole, _)) => {
                let padded = whole.pad_to_align();
                proof {
                    let size = crate::layout::round_up(word + 8 + len, word as int);
                    Layout::lemma_of(size, word as int);
                    padded.lemma_ext(Layout::of(size, word as int));
                }
                Ok(padded)
            },
            Err(e) => Err(e),
        }
    }

    /// The handle with the given address, header and text.
    pub(crate) fn from_parts(addr: usize, hd: Header, text: String) -> (r: Self)
        requires
            Self::valid_parts(addr, hd, text@),
        ensures
            r@ == text@,
            r.spec_addr() == addr,
            r.spec_shard() == hd.spec_shard_index(),
    {
        IString { addr, hd, text }
    }

    /// A copy of the handle, which no cache has counted.
    pub(crate) fn raw_copy(&self) -> (r: Self)
        ensures
            r == *self,
    {
        proof {
            use_type_invariant(self);
        }
        IString { addr: self.addr, hd: self.hd, text: self.text.clone() }
    }

    /// Returns the empty string.
    pub fn new() -> (r: Self)
        ensures
            r@.len() == 0,
            r.spec_addr() == EMPTY_ADDR,
    {
        proof {
            lemma_no_bytes_no_chars(Seq::<char>::empty());
        }
        IString { addr: EMPTY_ADDR, hd: Header::new(0, 0), text: String::new() }
    }

    /// The address of the string's content. Handles of one cache have the same address
    /// exactly where they have the same text.
    pub fn addr(&self) -> (r: usize)
        ensures
            r == self.spec_addr(),
            r % ALIGNMENT == 0,
            r >= ALIGNMENT,
            (r == EMPTY_ADDR) == (self@.len() == 0),
    {
        proof {
            use_type_invariant(self);
        }
        self.addr
    }

    /// The word that stands for this string in a value: its address with the string tag.
    pub fn ptr_usize(&self) -> (r: usize)
        ensures
            r == self.spec_addr() + 1,
    {
        proof {
            use_type_invariant(self);
        }
        tagged_word(self.addr, TypeTag::StringOrNull)
    }

    /// The shard of the cache that owns the string.
    pub fn shard_index(&self) -> (r: usize)
        ensures
            r == self.spec_shard(),
    {
        self.hd.shard_index()
    }

    /// Returns the length (in bytes) of this string.
    pub fn len(&self) -> (r: usize)
        ensures
            r == vstd::utf8::encode_utf8(self@).len(),
    {
        proof {
            use_type_invariant(self);
        }
        self.hd.len()
    }

    /// Returns `true` if this is the empty string "".
    pub fn is_empty(&self) -> (r: bool)
        ensures
            r == (self@.len() == 0),
    {
        proof {
            lemma_no_bytes_no_chars(self@);
        }
        self.len() == 0
    }

    /// Obtains a `&str` from this `IString`.
    pub fn as_str(&self) -> (r: &str)
        ensures
            r@ == self@,
    {
        self.text.as_str()
    }

    /// Obtains a byte slice from this `IString`.
    pub fn as_bytes(&self) -> (r: &[u8])
        ensures
            r@ == vstd::utf8::encode_utf8(self@),
    {
        self.text.as_str().as_bytes()
    }

    /// Whether two handles have the same address.
    pub fn raw_eq(&self, other: &Self) -> (r: bool)
        ensures
            r == (self.spec_addr() == other.spec_addr()),
    {
        self.addr == other.addr
    }

    /// Orders two strings: equal where the handles are the same, and else by their
    /// bytes.
    pub fn cmp(&self, other: &Self) -> (r: Ordering)
        ensures
            r == Self::order(*self, *other),
    {
        if self.raw_eq(other) {
            Ordering::Equal
        } else {
            order_bytes(self.as_bytes(), other.as_bytes())
        }
    }

    /// The order of two strings.
    pub open spec fn order(a: IString, b: IString) -> Ordering {
        if a.spec_addr() == b.spec_addr() {
            Ordering::Equal
        } else {
            lex_order(vstd::utf8::encode_utf8(a@), vstd::utf8::encode_utf8(b@))
        }
    }
}

impl<A: DefragAllocator> Defrag<A> for IString {
    open spec fn same_content(&self, other: &Self) -> bool {
        *self == *other
    }

    /// A string belongs to the cache that interned it, and stays where it is.
    fn defrag(self, defrag_allocator: &mut A) -> (r: Self) {
        self
    }
}

impl PartialEq for IString {
    fn eq(&self, other: &Self) -> (r: bool) {
        self.raw_eq(other)
    }
}

impl vstd::std_specs::cmp::PartialEqSpecImpl for IString {
    open spec fn obeys_eq_spec() -> bool {
        true
    }

    open spec fn eq_spec(&self, other: &Self) -> bool {
        self.spec_addr() == other.spec_addr()
    }
}

impl Eq for IString {

}

impl PartialOrd for IString {
    fn partial_cmp(&self, other: &Self) -> (r: Option<Ordering>) {
        Some(self.cmp(other))
    }
}

impl vstd::std_specs::cmp::PartialOrdSpecImpl for IString {
    open spec fn obeys_partial_cmp_spec() -> bool {
        true
    }

    open spec fn partial_cmp_spec(&self, other: &Self) -> Option<Ordering> {
        Some(Self::order(*self, *other))
    }
}

impl Default for IString {
    fn default() -> (r: Self)
        ensures
            r@.len() == 0,
            r.spec_addr() == EMPTY_ADDR,
    {
        Self::new()
    }
}

/// What a cache holds: for each text its address and its reference count.
pub type Entries = Map<Seq<char>, (usize, usize)>;

/// Address of the first string that a cache hands out.
pub const FIRST_ADDR: usize = 16;

/// A table from texts to addresses and reference counts, in one or more shards.
pub trait CacheTable: Sized {
    /// The entries of the table.
    spec fn entries(&self) -> Entries;

    /// The shard to which a text belongs.
    spec fn shard(&self, s: Seq<char>) -> usize;

    /// A table without entries.
    fn empty() -> (r: Self)
        ensures
            r.entries() == Entries::empty(),
    ;

    /// The shard to which a text belongs.
    fn determine_map(&self, s: &str) -> (r: usize)
        ensures
            r == self.shard(s@),
    ;

    /// The entry of a text, where the table has one.
    fn get(&self, s: &str) -> (r: Option<(usize, usize)>)
        ensures
            r == if self.entries().dom().contains(s@) {
                Some(self.entries()[s@])
            } else {
                None
            },
    ;

    /// Sets the entry of a text.
    fn insert(&mut self, s: &str, entry: (usize, usize))
        ensures
            final(self).entries() == old(self).entries().insert(s@, entry),
            forall|t: Seq<char>| #[trigger] final(self).shard(t) == old(self).shard(t),
    ;

    /// Takes out the entry of a text.
    fn remove(&mut self, s: &str)
        ensures
            final(self).entries() == old(self).entries().remove(s@),
            forall|t: Seq<char>| #[trigger] final(self).shard(t) == old(self).shard(t),
    ;

    /// Whether the table has no entry.
    fn is_empty(&self) -> (r: bool)
        ensures
            r == (self.entries().dom() == Set::<Seq<char>>::empty()),
    ;

    /// The number of entries.
    fn len(&self) -> (r: usize)
        ensures
            r == self.entries().dom().len(),
    ;

    /// The number of entries for which the table has memory: at least as many as it
    /// holds.
    fn capacity(&self) -> (r: usize)
        ensures
            r >= self.entries().dom().len(),
    ;

    /// Gives back unused memory, and keeps every entry.
    fn shrink_to_fit(&mut self)
        ensures
            final(self).entries() == old(self).entries(),
            forall|t: Seq<char>| #[trigger] final(self).shard(t) == old(self).shard(t),
    ;
}

/// The reference count after one more handle: counts stop at `usize::MAX`, where a text
/// stays in the cache for good.
pub open spec fn bumped(rc: usize) -> usize {
    if rc < usize::MAX {
        (rc + 1) as usize
    } else {
        rc
    }
}

/// The size of the block that holds a string of `len` bytes, where it has one.
pub open spec fn block_size(len: int) -> Option<int> {
    match IString::spec_layout(len) {
        Ok(layout) => Some(layout.spec_size()),
        Err(_) => None,
    }
}

/// What dropping the handle `s` makes of the entries of a cache: a handle that is
/// counted, which is one whose text has an entry with the handle's address, is counted
/// once less, and its text leaves with its last handle. A count of `usize::MAX` stays,
/// and so does everything for a handle that is not counted.
pub open spec fn drop_one(entries: Entries, s: IString) -> Entries {
    if entries.dom().contains(s@) && entries[s@].0 == s.spec_addr() && entries[s@].1
        < usize::MAX {
        if entries[s@].1 == 1 {
            entries.remove(s@)
        } else {
            entries.insert(s@, (s.spec_addr(), (entries[s@].1 - 1) as usize))
        }
    } else {
        entries
    }
}

/// What cloning the handle `s` makes of the entries of a cache: a handle that is counted
/// is counted once more, and nothing else changes.
pub open spec fn clone_one(entries: Entries, s: IString) -> Entries {
    if entries.dom().contains(s@) && entries[s@].0 == s.spec_addr() {
        entries.insert(s@, (s.spec_addr(), bumped(entries[s@].1)))
    } else {
        entries
    }
}

/// Whether `after` is what dropping the handle `s` makes of `before`.
pub open spec fn entries_dropped(before: Entries, s: IString, after: Entries) -> bool {
    after == drop_one(before, s)
}

/// What dropping the handles makes of the entries of a cache, the last handle first.
pub open spec fn drop_back(entries: Entries, handles: Seq<IString>) -> Entries
    decreases handles.len(),
{
    if handles.len() == 0 {
        entries
    } else {
        drop_back(drop_one(entries, handles.last()), handles.drop_last())
    }
}

/// What cloning the handles makes of the entries of a cache, the first handle first.
pub open spec fn clone_each(entries: Entries, handles: Seq<IString>) -> Entries
    decreases handles.len(),
{
    if handles.len() == 0 {
        entries
    } else {
        clone_one(clone_each(entries, handles.drop_last()), handles.last())
    }
}

/// Dropping the handles of two sequences, the one after the other, drops those of the
/// second sequence first.
pub proof fn lemma_drop_back_concat(entries: Entries, a: Seq<IString>, b: Seq<IString>)
    ensures
        drop_back(entries, a + b) == drop_back(drop_back(entries, b), a),
    decreases b.len(),
{
    if b.len() == 0 {
        assert(a + b =~= a);
    } else {
        assert((a + b).drop_last() =~= a + b.drop_last());
        assert((a + b).last() == b.last());
        lemma_drop_back_concat(drop_one(entries, b.last()), a, b.drop_last());
    }
}

/// Cloning the handles of two sequences, the one after the other, clones those of the
/// first sequence first.
pub proof fn lemma_clone_each_concat(entries: Entries, a: Seq<IString>, b: Seq<IString>)
    ensures
        clone_each(entries, a + b) == clone_each(clone_each(entries, a), b),
    decreases b.len(),
{
    if b.len() == 0 {
        assert(a + b =~= a);
    } else {
        assert((a + b).drop_last() =~= a + b.drop_last());
        assert((a + b).last() == b.last());
        lemma_clone_each_concat(entries, a, b.drop_last());
    }
}

/// Cloning handles keeps the texts and their addresses, and lowers no count.
pub proof fn lemma_clone_each_grows(entries: Entries, handles: Seq<IString>)
    ensures
        clone_each(entries, handles).dom() == entries.dom(),
        forall|t: Seq<char>| #[trigger]
            entries.dom().contains(t) ==> {
                &&& clone_each(entries, handles)[t].0 == entries[t].0
                &&& clone_each(entries, handles)[t].1 >= entries[t].1
            },
    decreases handles.len(),
{
    if handles.len() > 0 {
        lemma_clone_each_grows(entries, handles.drop_last());
        let middle = clone_each(entries, handles.drop_last());
        let s = handles.last();
        assert(clone_one(middle, s).dom() =~= middle.dom());
    }
}

/// Handles that are cloned and then dropped leave the entries as they were, where every
/// text is counted at least once and no count reaches `usize::MAX` on the way.
pub proof fn lemma_clone_then_drop(entries: Entries, handles: Seq<IString>)
    requires
        forall|t: Seq<char>| #[trigger] entries.dom().contains(t) ==> entries[t].1 >= 1,
        forall|t: Seq<char>| #[trigger]
            entries.dom().contains(t) ==> clone_each(entries, handles)[t].1 < usize::MAX,
    ensures
        drop_back(clone_each(entries, handles), handles) == entries,
    decreases handles.len(),
{
    if handles.len() > 0 {
        let s = handles.last();
        let middle = clone_each(entries, handles.drop_last());
        lemma_clone_each_grows(entries, handles.drop_last());
        assert(clone_one(middle, s).dom() =~= middle.dom());
        assert forall|t: Seq<char>| #[trigger] entries.dom().contains(t) implies middle[t].1
            < usize::MAX by {
            assert(clone_one(middle, s)[t].1 >= middle[t].1);
        }
        assert(drop_one(clone_one(middle, s), s) =~= middle);
        lemma_clone_then_drop(entries, handles.drop_last());
    }
}

/// One handle alone is dropped, or cloned, as it is by itself.
pub proof fn lemma_one_handle(entries: Entries, s: IString)
    ensures
        drop_back(entries, seq![s]) == drop_one(entries, s),
        clone_each(entries, seq![s]) == clone_one(entries, s),
        drop_back(entries, Seq::<IString>::empty()) == entries,
        clone_each(entries, Seq::<IString>::empty()) == entries,
{
    reveal_with_fuel(drop_back, 2);
    reveal_with_fuel(clone_each, 2);
    assert(seq![s].drop_last() =~= Seq::<IString>::empty());
}

/// The string cache: a table that holds the texts, and the address that the next new text
/// gets.
pub struct Cache<T: CacheTable> {
    table: T,
    next: usize,
}

impl<T: CacheTable> Cache<T> {
    /// The texts that the cache holds, each with its address and reference count.
    pub closed spec fn entries(&self) -> Entries {
        self.table.entries()
    }

    /// The address that the next new text gets. Every address in the cache is below it.
    pub closed spec fn frontier(&self) -> usize {
        self.next
    }

    /// The shard of the table to which a text belongs.
    pub closed spec fn shard_of(&self, s: Seq<char>) -> usize {
        self.table.shard(s)
    }

    /// Whether the cache holds a text.
    pub open spec fn contains(&self, s: Seq<char>) -> bool {
        self.entries().dom().contains(s)
    }

    /// The address of a text that the cache holds.
    pub open spec fn addr_of(&self, s: Seq<char>) -> usize {
        self.entries()[s].0
    }

    /// The number of handles that refer to a text: zero where the cache does not hold it.
    pub open spec fn refcount(&self, s: Seq<char>) -> usize {
        if self.contains(s) {
            self.entries()[s].1
        } else {
            0
        }
    }

    /// Whether a handle is one that the cache counts: the cache holds its text at its
    /// address.
    pub open spec fn owns(&self, s: IString) -> bool {
        self.contains(s@) && self.addr_of(s@) == s.spec_addr()
    }

    /// The cache's invariant: no entry for the empty text, every entry counted and at an
    /// aligned address from `FIRST_ADDR` up to the frontier, and no address shared by two
    /// texts.
    pub open spec fn wf(&self) -> bool {
        &&& self.frontier() >= FIRST_ADDR
        &&& self.frontier() % ALIGNMENT == 0
        &&& forall|s: Seq<char>| #[trigger]
            self.contains(s) ==> {
                &&& s.len() > 0
                &&& vstd::utf8::encode_utf8(s).len() < LEN_LIMIT
                &&& self.addr_of(s) % ALIGNMENT == 0
                &&& FIRST_ADDR <= self.addr_of(s) < self.frontier()
                &&& self.entries()[s].1 >= 1
                &&& self.shard_of(s) < SHARD_LIMIT
            }
        &&& forall|s: Seq<char>, t: Seq<char>|
            #![trigger self.contains(s), self.contains(t)]
            self.contains(s) && self.contains(t) && s != t ==> self.addr_of(s) != self.addr_of(t)
    }

    /// Whether a text can be interned: it is empty, or the cache holds it, or it is
    /// shorter than 2^48 bytes, its shard is one of the first 2^16, and its block fits
    /// below the end of the address space.
    pub open spec fn can_intern(&self, s: Seq<char>) -> bool {
        let len = vstd::utf8::encode_utf8(s).len();
        ||| s.len() == 0
        ||| self.contains(s)
        ||| {
            &&& len < LEN_LIMIT
            &&& self.shard_of(s) < SHARD_LIMIT
            &&& block_size(len as int) is Some
            &&& self.frontier() + block_size(len as int).unwrap() <= usize::MAX
        }
    }

    /// What interning `s` makes of a cache and hands out. The empty text changes nothing
    /// and has the address of the empty string. A text that the cache holds keeps its
    /// address and counts one handle more. A new text gets the frontier as its address,
    /// counts one handle, and moves the frontier past its block.
    pub open spec fn interned(
        before: Cache<T>,
        s: Seq<char>,
        after: Cache<T>,
        r: IString,
    ) -> bool {
        &&& r@ == s
        &&& s.len() > 0 ==> r.spec_shard() == before.shard_of(s)
        &&& forall|t: Seq<char>| #[trigger] after.shard_of(t) == before.shard_of(t)
        &&& if s.len() == 0 {
            &&& after.entries() == before.entries()
            &&& after.frontier() == before.frontier()
            &&& r.spec_addr() == EMPTY_ADDR
        } else if before.contains(s) {
            &&& after.entries() == before.entries().insert(
                s,
                (before.addr_of(s), bumped(before.refcount(s))),
            )
            &&& after.frontier() == before.frontier()
            &&& r.spec_addr() == before.addr_of(s)
        } else {
            &&& after.entries() == before.entries().insert(s, (before.frontier(), 1usize))
            &&& after.frontier() == before.frontier() + block_size(
                vstd::utf8::encode_utf8(s).len() as int,
            ).unwrap()
            &&& r.spec_addr() == before.frontier()
        }
    }

    /// What cloning the handle `s` makes of a cache: a handle that the cache counts is
    /// counted once more, and nothing else changes.
    pub open spec fn cloned(before: Cache<T>, s: IString, after: Cache<T>) -> bool {
        &&& after.frontier() == before.frontier()
        &&& after.entries() == clone_one(before.entries(), s)
    }

    /// What dropping the handle `s` makes of a cache: a handle that the cache counts is
    /// counted once less, and its text leaves the cache with its last handle. A count of
    /// `usize::MAX` stays, and so does everything for a handle that the cache does not
    /// count.
    pub open spec fn dropped(before: Cache<T>, s: IString, after: Cache<T>) -> bool {
        &&& after.frontier() == before.frontier()
        &&& entries_dropped(before.entries(), s, after.entries())
    }

    /// What dropping handles makes of a cache, whatever they are: the frontier stays, no
    /// text enters, and a text that stays keeps its address and counts no more handles
    /// than before.
    pub open spec fn shrunk(before: Cache<T>, after: Cache<T>) -> bool {
        &&& after.frontier() == before.frontier()
        &&& forall|t: Seq<char>| #[trigger]
            after.contains(t) ==> {
                &&& before.contains(t)
                &&& after.addr_of(t) == before.addr_of(t)
                &&& after.refcount(t) <= before.refcount(t)
            }
    }

    /// What cloning handles makes of a cache, whatever they are: the frontier and the
    /// texts stay, each at its address, and no text counts fewer handles than before.
    pub open spec fn grown(before: Cache<T>, after: Cache<T>) -> bool {
        &&& after.frontier() == before.frontier()
        &&& forall|t: Seq<char>| #[trigger] after.contains(t) == before.contains(t)
        &&& forall|t: Seq<char>| #[trigger]
            after.contains(t) ==> {
                &&& after.addr_of(t) == before.addr_of(t)
                &&& after.refcount(t) >= before.refcount(t)
            }
    }

    /// A cache has shrunk to itself.
    pub proof fn lemma_shrunk_refl(c: Cache<T>)
        ensures
            Self::shrunk(c, c),
    {
    }

    /// Shrinking twice is shrinking.
    pub proof fn lemma_shrunk_trans(a: Cache<T>, b: Cache<T>, c: Cache<T>)
        requires
            Self::shrunk(a, b),
            Self::shrunk(b, c),
        ensures
            Self::shrunk(a, c),
    {
        assert forall|t: Seq<char>| #[trigger] c.contains(t) implies a.contains(t) && c.addr_of(t)
            == a.addr_of(t) && c.refcount(t) <= a.refcount(t) by {
            assert(b.contains(t));
        }
    }

    /// A cache has grown to itself.
    pub proof fn lemma_grown_refl(c: Cache<T>)
        ensures
            Self::grown(c, c),
    {
    }

    /// Growing twice is growing.
    pub proof fn lemma_grown_trans(a: Cache<T>, b: Cache<T>, c: Cache<T>)
        requires
            Self::grown(a, b),
            Self::grown(b, c),
        ensures
            Self::grown(a, c),
    {
        assert forall|t: Seq<char>| #[trigger] c.contains(t) == a.contains(t) by {
            assert(b.contains(t) == a.contains(t));
        }
        assert forall|t: Seq<char>| #[trigger] c.contains(t) implies c.addr_of(t) == a.addr_of(t)
            && c.refcount(t) >= a.refcount(t) by {
            assert(b.contains(t));
        }
    }

    /// Dropping one handle shrinks the cache.
    pub proof fn lemma_dropped_shrunk(before: Cache<T>, s: IString, after: Cache<T>)
        requires
            before.wf(),
            Self::dropped(before, s, after),
        ensures
            Self::shrunk(before, after),
    {
        assert forall|t: Seq<char>| #[trigger] after.contains(t) implies before.contains(t)
            && after.addr_of(t) == before.addr_of(t) && after.refcount(t) <= before.refcount(t) by {
            if before.owns(s) && before.refcount(s@) < usize::MAX {
                if t == s@ {
                    assert(before.contains(t));
                } else {
                    assert(before.entries().dom().contains(t));
                }
            }
        }
    }

    /// Cloning one handle grows the cache.
    pub proof fn lemma_cloned_grown(before: Cache<T>, s: IString, after: Cache<T>)
        requires
            Self::cloned(before, s, after),
        ensures
            Self::grown(before, after),
    {
        assert forall|t: Seq<char>| #[trigger] after.contains(t) == before.contains(t) by {
            if before.owns(s) {
                assert(before.contains(s@));
            }
        }
        assert forall|t: Seq<char>| #[trigger] after.contains(t) implies after.addr_of(t)
            == before.addr_of(t) && after.refcount(t) >= before.refcount(t) by {
            assert(before.contains(t));
        }
    }

    /// Interning twice, the one right after the other, gives handles with the same address
    /// exactly where the two texts are the same.
    pub proof fn lemma_interning_unique(
        c0: Cache<T>,
        s1: Seq<char>,
        c1: Cache<T>,
        a: IString,
        s2: Seq<char>,
        c2: Cache<T>,
        b: IString,
    )
        requires
            c0.wf(),
            Self::interned(c0, s1, c1, a),
            c1.wf(),
            Self::interned(c1, s2, c2, b),
        ensures
            (a.spec_addr() == b.spec_addr()) == (s1 == s2),
    {
        if s1.len() == 0 {
            if s2.len() == 0 {
                assert(s1 =~= s2);
            } else if c1.contains(s2) {
            } else {
            }
        } else {
            assert(c1.contains(s1));
            if s2.len() == 0 {
            } else if c1.contains(s2) {
            } else {
            }
        }
    }

    /// A text whose last handle was dropped gets a new address when it is interned again:
    /// one that no text had before.
    pub proof fn lemma_reinterned_is_new(
        c0: Cache<T>,
        a: IString,
        c1: Cache<T>,
        c2: Cache<T>,
        b: IString,
    )
        requires
            c0.wf(),
            c0.owns(a),
            c0.refcount(a@) == 1,
            Self::dropped(c0, a, c1),
            c1.wf(),
            Self::interned(c1, a@, c2, b),
        ensures
            !c1.contains(a@),
            b.spec_addr() != a.spec_addr(),
            b.spec_addr() >= c0.frontier(),
    {
        assert(c0.contains(a@));
    }

    /// A cache without entries.
    pub fn new() -> (r: Self)
        ensures
            r.wf(),
            r.entries() == Entries::empty(),
            r.frontier() == FIRST_ADDR,
    {
        Cache { table: T::empty(), next: FIRST_ADDR }
    }

    /// Starts a new generation: the cache forgets every text, and keeps its frontier, so
    /// that no address of the old generation is given out again. Handles of the old
    /// generation stay valid and are no longer counted.
    pub fn reinit(&mut self)
        requires
            old(self).wf(),
        ensures
            final(self).wf(),
            final(self).entries() == Entries::empty(),
            final(self).frontier() == old(self).frontier(),
    {
        self.table = T::empty();
    }

    /// Whether a text can be interned.
    pub fn has_room(&self, s: &str) -> (r: bool)
        requires
            self.wf(),
        ensures
            r == self.can_intern(s@),
    {
        let len = s.as_bytes().len();
        proof {
            lemma_no_bytes_no_chars(s@);
        }
        if len == 0 {
            return true;
        }
        if self.table.get(s).is_some() {
            return true;
        }
        if len as u64 >= LEN_LIMIT || self.table.determine_map(s) >= SHARD_LIMIT {
            return false;
        }
        match IString::layout(len) {
            Ok(layout) => layout.size() <= usize::MAX - self.next,
            Err(_) => false,
        }
    }
}

impl IString {
    /// Converts a `&str` to an `IString` by interning it in the string cache.
    pub fn intern<T: CacheTable>(cache: &mut Cache<T>, s: &str) -> (r: Self)
        requires
            old(cache).wf(),
            old(cache).can_intern(s@),
        ensures
            final(cache).wf(),
            Cache::interned(*old(cache), s@, *final(cache), r),
    {
        let len = s.as_bytes().len();
        proof {
            lemma_no_bytes_no_chars(s@);
        }
        if len == 0 {
            let r = Self::new();
            assert(r@ =~= s@);
            return r;
        }
        let shard_index = cache.table.determine_map(s);
        match cache.table.get(s) {
            Some((addr, rc)) => {
                let count = if rc < usize::MAX {
                    rc + 1
                } else {
                    rc
                };
                assert(old(cache).contains(s@));
                cache.table.insert(s, (addr, count));
                proof {
                    assert forall|t: Seq<char>| #[trigger] cache.contains(t) implies old(
                        cache,
                    ).contains(t) by {}
                }
                Self::from_parts(addr, Header::new(len, shard_index), s.to_owned())
            },
            None => {
                let addr = cache.next;
                let size = match Self::layout(len) {
                    Ok(layout) => layout.size(),
                    Err(_) => 0,
                };
                proof {
                    let word = crate::layout::spec_word_size();
                    crate::layout::lemma_round_up(word + 8 + len, word);
                    Layout::lemma_of(crate::layout::round_up(word + 8 + len, word), word);
                }
                cache.next = addr + size;
                cache.table.insert(s, (addr, 1));
                proof {
                    assert forall|t: Seq<char>| #[trigger] cache.contains(t) && t != s@ implies old(
                        cache,
                    ).contains(t) by {}
                }
                Self::from_parts(addr, Header::new(len, shard_index), s.to_owned())
            },
        }
    }

    /// Interns a text where it can be interned, and says so where it cannot.
    pub fn try_intern<T: CacheTable>(cache: &mut Cache<T>, s: &str) -> (r: Option<Self>)
        requires
            old(cache).wf(),
        ensures
            final(cache).wf(),
            match r {
                Some(r) => old(cache).can_intern(s@) && Cache::interned(
                    *old(cache),
                    s@,
                    *final(cache),
                    r,
                ),
                None => !old(cache).can_intern(s@) && *final(cache) == *old(cache),
            },
    {
        if cache.has_room(s) {
            Some(Self::intern(cache, s))
        } else {
            None
        }
    }

    /// Another handle to the same string, which the cache counts where it counts this
    /// one.
    pub fn clone_impl<T: CacheTable>(&self, cache: &mut Cache<T>) -> (r: Self)
        requires
            old(cache).wf(),
        ensures
            final(cache).wf(),
            r == *self,
            Cache::cloned(*old(cache), *self, *final(cache)),
    {
        let addr = self.addr();
        if self.is_empty() {
            assert(!old(cache).contains(self@));
            return self.raw_copy();
        }
        match cache.table.get(self.as_str()) {
            Some((held, rc)) => {
                if held == addr {
                    let count = if rc < usize::MAX {
                        rc + 1
                    } else {
                        rc
                    };
                    cache.table.insert(self.as_str(), (addr, count));
                    proof {
                        assert forall|t: Seq<char>| #[trigger] cache.contains(t) implies old(
                            cache,
                        ).contains(t) by {}
                    }
                }
            },
            None => {},
        }
        self.raw_copy()
    }

    /// Drops a handle: the cache counts it no longer, and forgets its text with the last
    /// handle.
    pub fn drop_impl<T: CacheTable>(self, cache: &mut Cache<T>)
        requires
            old(cache).wf(),
        ensures
            final(cache).wf(),
            Cache::dropped(*old(cache), self, *final(cache)),
    {
        if self.is_empty() {
            proof {
                assert(!old(cache).contains(self@));
            }
            return ;
        }
        let addr = self.addr();
        match cache.table.get(self.as_str()) {
            Some((held, rc)) => {
                if held == addr && rc < usize::MAX {
                    assert(old(cache).contains(self@));
                    if rc == 1 {
                        // Reference count reached zero, free the string
                        cache.table.remove(self.as_str());

                        // Shrink the table if it's mostly empty.
                        let mostly_empty = match cache.table.len().checked_mul(3) {
                            Some(tripled) => tripled < cache.table.capacity(),
                            None => false,
                        };
                        if mostly_empty || cache.table.is_empty() {
                            cache.table.shrink_to_fit();
                        }
                    } else {
                        cache.table.insert(self.as_str(), (addr, rc - 1));
                    }
                    proof {
                        assert forall|t: Seq<char>| #[trigger] cache.contains(t) implies old(
                            cache,
                        ).contains(t) by {}
                    }
                }
            },
            None => {},
        }
    }
}

/// `dashmap::DashMap`: a map that keeps its entries in shards, each behind a lock of its
/// own.
#[verifier::external_type_specification]
#[verifier::external_body]
#[verifier::reject_recursive_types(K)]
#[verifier::reject_recursive_types(V)]
#[verifier::reject_recursive_types(S)]
pub struct ExDashMap<K, V, S>(dashmap::DashMap<K, V, S>);

/// A `dashmap` map from texts to addresses and reference counts.
pub type ShardedTable = dashmap::DashMap<String, (usize, usize)>;

/// The entries of a sharded table.
pub uninterp spec fn sharded_entries(t: ShardedTable) -> Entries;

/// The shard of a sharded table to which a text belongs. It is set by the table's hasher
/// and the number of its shards, which the table has from when it was made.
pub uninterp spec fn sharded_shard(t: ShardedTable, s: Seq<char>) -> usize;

/// `dashmap::DashMap::new`: a table without entries.
#[verifier::external_body]
fn sharded_new() -> (r: ShardedTable)
    ensures
        sharded_entries(r) == Entries::empty(),
{
    dashmap::DashMap::new()
}

/// `dashmap::DashMap::determine_map`: the shard to which a text belongs.
#[verifier::external_body]
fn sharded_determine_map(t: &ShardedTable, s: &str) -> (r: usize)
    ensures
        r == sharded_shard(*t, s@),
{
    dashmap::DashMap::determine_map(t, s)
}

/// `dashmap::DashMap::get`: the entry of a text, where the table has one.
#[verifier::external_body]
fn sharded_get(t: &ShardedTable, s: &str) -> (r: Option<(usize, usize)>)
    ensures
        r == if sharded_entries(*t).dom().contains(s@) {
            Some(sharded_entries(*t)[s@])
        } else {
            None
        },
{
    dashmap::DashMap::get(t, s).as_deref().copied()
}

/// `dashmap::DashMap::insert`: sets the entry of a text, leaves the others as they are,
/// and every text in its shard.
#[verifier::external_body]
fn sharded_insert(t: &mut ShardedTable, s: &str, entry: (usize, usize))
    ensures
        sharded_entries(*final(t)) == sharded_entries(*old(t)).insert(s@, entry),
        forall|x: Seq<char>| #[trigger] sharded_shard(*final(t), x) == sharded_shard(*old(t), x),
{
    dashmap::DashMap::insert(t, s.to_owned(), entry);
}

/// `dashmap::DashMap::remove`: takes out the entry of a text, leaves the others as they
/// are, and every text in its shard.
#[verifier::external_body]
fn sharded_remove(t: &mut ShardedTable, s: &str)
    ensures
        sharded_entries(*final(t)) == sharded_entries(*old(t)).remove(s@),
        forall|x: Seq<char>| #[trigger] sharded_shard(*final(t), x) == sharded_shard(*old(t), x),
{
    dashmap::DashMap::remove(t, s);
}

/// `dashmap::DashMap::is_empty`: whether the table has no entry.
#[verifier::external_body]
fn sharded_is_empty(t: &ShardedTable) -> (r: bool)
    ensures
        r == (sharded_entries(*t).dom() == Set::<Seq<char>>::empty()),
{
    dashmap::DashMap::is_empty(t)
}

/// `dashmap::DashMap::len`: the number of entries.
#[verifier::external_body]
fn sharded_len(t: &ShardedTable) -> (r: usize)
    ensures
        r == sharded_entries(*t).dom().len(),
{
    dashmap::DashMap::len(t)
}

/// `dashmap::DashMap::capacity`: the number of entries for which the table has memory.
/// It is the sum, over the shards, of each shard's entries and the room left in it, so
/// it is at least the number of entries; how much more is not known.
#[verifier::external_body]
fn sharded_capacity(t: &ShardedTable) -> (r: usize)
    ensures
        r >= sharded_entries(*t).dom().len(),
{
    dashmap::DashMap::capacity(t)
}

/// `dashmap::DashMap::shrink_to_fit`: gives back unused memory, keeps every entry, and
/// every text in its shard.
#[verifier::external_body]
fn sharded_shrink_to_fit(t: &mut ShardedTable)
    ensures
        sharded_entries(*final(t)) == sharded_entries(*old(t)),
        forall|x: Seq<char>| #[trigger] sharded_shard(*final(t), x) == sharded_shard(*old(t), x),
{
    dashmap::DashMap::shrink_to_fit(t);
}

impl CacheTable for ShardedTable {
    open spec fn entries(&self) -> Entries {
        sharded_entries(*self)
    }

    open spec fn shard(&self, s: Seq<char>) -> usize {
        sharded_shard(*self, s)
    }

    fn empty() -> (r: Self) {
        sharded_new()
    }

    fn determine_map(&self, s: &str) -> (r: usize) {
        sharded_determine_map(self, s)
    }

    fn get(&self, s: &str) -> (r: Option<(usize, usize)>) {
        sharded_get(self, s)
    }

    fn insert(&mut self, s: &str, entry: (usize, usize)) {
        sharded_insert(self, s, entry)
    }

    fn remove(&mut self, s: &str) {
        sharded_remove(self, s)
    }

    fn is_empty(&self) -> (r: bool) {
        sharded_is_empty(self)
    }

    fn len(&self) -> (r: usize) {
        sharded_len(self)
    }

    fn capacity(&self) -> (r: usize) {
        sharded_capacity(self)
    }

    fn shrink_to_fit(&mut self) {
        sharded_shrink_to_fit(self)
    }
}

/// The string cache whose table is in shards.
pub type ShardedCache = Cache<ShardedTable>;

/// Makes the string cache whose table is in shards.
pub fn init_cache() -> (r: ShardedCache)
    ensures
        r.wf(),
        r.entries() == Entries::empty(),
        r.frontier() == FIRST_ADDR,
{
    Cache::new()
}

} // verus!
