//! Sizes of the blocks that hold a value's contents.
//!
//! Every container keeps a small header followed by its payload in one block. The
//! functions here compute the size of such a block and fail, instead of wrapping, where
//! the size does not fit the address space.

use vstd::prelude::*;

verus! {

/// Size and alignment of a block, in bytes.
#[derive(Copy, Clone, Debug, PartialEq, Eq, Structural)]
pub struct Layout {
    size: usize,
    align: usize,
}

/// The size of a block does not fit the address space.
#[derive(Copy, Clone, Debug, PartialEq, Eq, Structural)]
pub struct LayoutError;

/// Bytes of a machine word.
pub open spec fn spec_word_size() -> int {
    usize::BITS as int / 8
}

/// Bytes of a machine word.
pub fn word_size() -> (r: usize)
    ensures
        r == spec_word_size(),
        r == 4 || r == 8,
{
    (usize::BITS / 8) as usize
}

/// The least multiple of `align` that is not below `size`.
pub open spec fn round_up(size: int, align: int) -> int {
    if size % align == 0 {
        size
    } else {
        size + align - size % align
    }
}

/// Whether a block of this size and alignment can exist: the alignment is positive and
/// the size, rounded up to it, is at most `isize::MAX`.
pub open spec fn fits(size: int, align: int) -> bool {
    &&& align > 0
    &&& size >= 0
    &&& round_up(size, align) <= isize::MAX
}

/// `round_up` rounds to a multiple, upwards, by less than one alignment.
pub proof fn lemma_round_up(size: int, align: int)
    requires
        size >= 0,
        align > 0,
    ensures
        round_up(size, align) % align == 0,
        size <= round_up(size, align) < size + align,
        round_up(round_up(size, align), align) == round_up(size, align),
{
    let r = size % align;
    if r != 0 {
        let q = size / align;
        assert(size == q * align + r) by (nonlinear_arith)
            requires
                q == size / align,
                r == size % align,
                align > 0,
        ;
        assert((q + 1) * align == q * align + align) by (nonlinear_arith);
        vstd::arithmetic::div_mod::lemma_fundamental_div_mod_converse(
            size + align - r,
            align,
            q + 1,
            0,
        );
    }
}

/// A sum of multiples of `align` is one, and rounds up to itself.
pub proof fn lemma_round_up_multiple(base: int, item: int, n: int, align: int)
    requires
        align > 0,
        base >= 0,
        item >= 0,
        n >= 0,
        base % align == 0,
        item % align == 0,
    ensures
        base + item * n >= 0,
        item * n >= 0,
        (item * n) % align == 0,
        round_up(item * n, align) == item * n,
        round_up(base + item * n, align) == base + item * n,
        round_up(base, align) == base,
{
    let qb = base / align;
    let qi = item / align;
    assert(base == qb * align) by (nonlinear_arith)
        requires
            qb == base / align,
            base % align == 0,
            align > 0,
    ;
    assert(item == qi * align) by (nonlinear_arith)
        requires
            qi == item / align,
            item % align == 0,
            align > 0,
    ;
    assert(item * n == (qi * n) * align) by (nonlinear_arith)
        requires
            item == qi * align,
    ;
    assert(base + item * n == (qb + qi * n) * align) by (nonlinear_arith)
        requires
            item == qi * align,
            base == qb * align,
    ;
    assert(item * n >= 0) by (nonlinear_arith)
        requires
            item >= 0,
            n >= 0,
    ;
    vstd::arithmetic::div_mod::lemma_fundamental_div_mod_converse(
        item * n,
        align,
        qi * n,
        0,
    );
    vstd::arithmetic::div_mod::lemma_fundamental_div_mod_converse(
        base + item * n,
        align,
        qb + qi * n,
        0,
    );
}

impl Layout {
    /// Size in bytes.
    pub closed spec fn spec_size(self) -> int {
        self.size as int
    }

    /// Alignment in bytes.
    pub closed spec fn spec_align(self) -> int {
        self.align as int
    }

    /// A layout describes a block that can exist.
    pub open spec fn wf(self) -> bool {
        fits(self.spec_size(), self.spec_align())
    }

    /// The layout of the given size and alignment.
    pub closed spec fn of(size: int, align: int) -> Layout {
        Layout { size: size as usize, align: align as usize }
    }

    /// [`Layout::of`] keeps the size and the alignment it is given.
    pub proof fn lemma_of(size: int, align: int)
        requires
            0 <= size <= usize::MAX,
            0 <= align <= usize::MAX,
        ensures
            Self::of(size, align).spec_size() == size,
            Self::of(size, align).spec_align() == align,
    {
    }

    /// Two layouts of the same size and alignment are the same.
    pub proof fn lemma_ext(self, other: Layout)
        requires
            self.spec_size() == other.spec_size(),
            self.spec_align() == other.spec_align(),
        ensures
            self == other,
    {
    }

    /// Size in bytes.
    pub fn size(&self) -> (r: usize)
        ensures
            r == self.spec_size(),
    {
        self.size
    }

    /// Alignment in bytes.
    pub fn align(&self) -> (r: usize)
        ensures
            r == self.spec_align(),
    {
        self.align
    }

    /// The layout of the given size and alignment, where such a block can exist.
    pub fn from_size_align(size: usize, align: usize) -> (r: Result<Layout, LayoutError>)
        ensures
            fits(size as int, align as int) ==> r == Ok::<Layout, LayoutError>(
                Self::of(size as int, align as int),
            ),
            !fits(size as int, align as int) ==> r is Err,
    {
        if align == 0 {
            return Err(LayoutError);
        }
        let rem = size % align;
        let pad = if rem == 0 {
            0
        } else {
            align - rem
        };
        if size > isize::MAX as usize || pad > isize::MAX as usize - size {
            Err(LayoutError)
        } else {
            Ok(Layout { size, align })
        }
    }

    /// The layout of `n` items of the given size and alignment, one after another.
    pub fn array(item_size: usize, item_align: usize, n: usize) -> (r: Result<
        Layout,
        LayoutError,
    >)
        ensures
            fits(item_size * n, item_align as int) ==> r == Ok::<Layout, LayoutError>(
                Self::of(item_size * n, item_align as int),
            ),
            !fits(item_size * n, item_align as int) ==> r is Err,
    {
        assert(item_size * n >= 0) by (nonlinear_arith)
            requires
                item_size >= 0,
                n >= 0,
        ;
        match item_size.checked_mul(n) {
            Some(size) => Self::from_size_align(size, item_align),
            None => {
                assert(!fits(item_size * n, item_align as int)) by {
                    if item_align > 0 {
                        lemma_round_up(item_size * n, item_align as int);
                    }
                }
                Err(LayoutError)
            },
        }
    }

    /// The layout of this block followed by `next`, with the padding that `next` needs
    /// before it, and the offset at which `next` starts.
    pub fn extend(&self, next: Layout) -> (r: Result<(Layout, usize), LayoutError>)
        requires
            self.wf(),
            next.wf(),
        ensures
            match r {
                Ok((layout, offset)) => {
                    &&& offset == round_up(self.spec_size(), next.spec_align())
                    &&& layout.spec_size() == offset + next.spec_size()
                    &&& layout.spec_align() == vstd::math::max(
                        self.spec_align(),
                        next.spec_align(),
                    )
                    &&& layout.wf()
                },
                Err(_) => !fits(
                    round_up(self.spec_size(), next.spec_align()) + next.spec_size(),
                    vstd::math::max(self.spec_align(), next.spec_align()),
                ),
            },
    {
        let align = if self.align >= next.align {
            self.align
        } else {
            next.align
        };
        let rem = self.size % next.align;
        let pad = if rem == 0 {
            0
        } else {
            next.align - rem
        };
        proof {
            lemma_round_up(self.size as int, next.align as int);
            lemma_round_up(self.size as int, self.align as int);
            lemma_round_up(next.size as int, next.align as int);
        }
        let offset = match self.size.checked_add(pad) {
            Some(offset) => offset,
            None => {
                proof {
                    lemma_round_up(
                        round_up(self.spec_size(), next.spec_align()) + next.spec_size(),
                        align as int,
                    );
                }
                return Err(LayoutError);
            },
        };
        let size = match offset.checked_add(next.size) {
            Some(size) => size,
            None => {
                proof {
                    lemma_round_up(offset + next.size, align as int);
                }
                return Err(LayoutError);
            },
        };
        match Self::from_size_align(size, align) {
            Ok(layout) => Ok((layout, offset)),
            Err(e) => Err(e),
        }
    }

    /// This layout with its size rounded up to its alignment.
    pub fn pad_to_align(&self) -> (r: Layout)
        requires
            self.wf(),
        ensures
            r.spec_size() == round_up(self.spec_size(), self.spec_align()),
            r.spec_align() == self.spec_align(),
            r.wf(),
    {
        let rem = self.size % self.align;
        let pad = if rem == 0 {
            0
        } else {
            self.align - rem
        };
        proof {
            lemma_round_up(self.size as int, self.align as int);
        }
        Layout { size: self.size + pad, align: self.align }
    }

    /// The layout of this block followed by `n` items of `item` bytes each, where the
    /// block's size and the item's are multiples of the alignment.
    pub open spec fn spec_append(self, item: int, n: int) -> Result<Layout, LayoutError> {
        let size = self.spec_size() + item * n;
        if size <= isize::MAX {
            Ok(Layout::of(size, self.spec_align()))
        } else {
            Err(LayoutError)
        }
    }

    /// The layout of this block followed by `n` items of `item` bytes each.
    pub fn append(&self, item: usize, n: usize) -> (r: Result<Layout, LayoutError>)
        requires
            self.wf(),
            self.spec_size() % self.spec_align() == 0,
            item as int % self.spec_align() == 0,
        ensures
            r == self.spec_append(item as int, n as int),
            r is Ok ==> r.unwrap().wf() && r.unwrap().spec_size() % r.unwrap().spec_align() == 0,
    {
        proof {
            lemma_round_up_multiple(self.size as int, item as int, n as int, self.align as int);
        }
        let items = match Self::array(item, self.align, n) {
            Ok(items) => items,
            Err(e) => {
                return Err(e);
            },
        };
        match self.extend(items) {
            Ok((whole, _)) => Ok(whole),
            Err(e) => Err(e),
        }
    }
}

} // verus!
