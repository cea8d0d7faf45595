//! Memory layouts (size and alignment), following the rules of
//! `std::alloc::Layout`: the alignment is a power of two and the size, rounded
//! up to a multiple of the alignment, does not exceed `isize::MAX`.

use vstd::prelude::*;
use vstd::arithmetic::power2::is_pow2;
use vstd::layout::{valid_layout, size_of, align_of, layout_for_type_is_valid};

verus! {

/// The size and alignment of a block of memory.
#[derive(Clone, Copy, Debug, PartialEq, Eq, Structural)]
pub struct Layout {
    size: usize,
    align: usize,
}

/// The padding needed after `size` bytes so that the next byte is aligned to
/// `align`.
pub open spec fn padding_for(size: int, align: int) -> int {
    if size % align == 0 {
        0
    } else {
        align - size % align
    }
}

/// Whether `(size, align)` is a valid layout: `align` is a power of two and
/// `size` rounded up to a multiple of `align` is at most `isize::MAX`.
pub open spec fn layout_ok(size: int, align: int) -> bool {
    &&& 0 <= size
    &&& 0 < align <= usize::MAX
    &&& is_pow2(align)
    &&& size <= isize::MAX as int - (isize::MAX as int % align)
}

impl Layout {
    pub closed spec fn spec_size(self) -> nat {
        self.size as nat
    }

    pub closed spec fn spec_align(self) -> nat {
        self.align as nat
    }

    /// The size and alignment satisfy the rules of a layout.
    pub open spec fn valid(self) -> bool {
        layout_ok(self.spec_size() as int, self.spec_align() as int)
    }

    /// The minimum size in bytes for a memory block of this layout.
    pub fn size(&self) -> (r: usize)
        ensures
            r == self.spec_size(),
    {
        self.size
    }

    /// The minimum byte alignment for a memory block of this layout.
    pub fn align(&self) -> (r: usize)
        ensures
            r == self.spec_align(),
    {
        self.align
    }

    /// The layout of a value of type `T`.
    pub closed spec fn spec_new<T>() -> Layout {
        Layout { size: size_of::<T>() as usize, align: align_of::<T>() as usize }
    }

    /// The layout of a value of type `T`.
    pub fn new<T>() -> (r: Layout)
        ensures
            r.valid(),
            r.spec_size() == size_of::<T>(),
            r.spec_align() == align_of::<T>(),
            r == Self::spec_new::<T>(),
    {
        layout_for_type_is_valid::<T>();
        let r = Layout { size: core::mem::size_of::<T>(), align: core::mem::align_of::<T>() };
        proof {
            lemma_valid_layout_ok(r.size, r.align);
        }
        r
    }

    /// Constructs a layout from a size and an alignment; `None` if the
    /// alignment is not a power of two or the rounded-up size overflows
    /// `isize`.
    pub fn from_size_align(size: usize, align: usize) -> (r: Option<Layout>)
        ensures
            r is Some <==> layout_ok(size as int, align as int),
            r matches Some(l) ==> l.spec_size() == size && l.spec_align() == align && l.valid(),
    {
        if !is_pow2_exec(align) {
            return None;
        }
        proof {
            reveal(is_pow2);
        }
        let max = isize::MAX as usize;
        let rem = max % align;
        assert(rem <= max) by (nonlinear_arith)
            requires
                align > 0,
                rem == max % align,
                max >= 0,
        ;
        if size > max - rem {
            return None;
        }
        Some(Layout { size, align })
    }

    /// Creates a layout describing the record for `self` followed by `next`,
    /// including any padding needed to align `next`, but no trailing padding.
    /// Returns the new layout and the offset at which `next` starts; `None`
    /// on arithmetic overflow.
    pub fn extend(&self, next: Layout) -> (r: Option<(Layout, usize)>)
        requires
            self.valid(),
            next.valid(),
        ensures
            ({
                let offset = self.spec_size() + padding_for(self.spec_size() as int, next.spec_align() as int);
                let new_size = offset + next.spec_size();
                let new_align = if self.spec_align() >= next.spec_align() { self.spec_align() } else { next.spec_align() };
                &&& r is Some <==> layout_ok(new_size, new_align as int)
                &&& r matches Some((l, o)) ==> {
                    &&& o == offset
                    &&& l.spec_size() == new_size
                    &&& l.spec_align() == new_align
                    &&& l.valid()
                }
            }),
    {
        let new_align = if self.align >= next.align { self.align } else { next.align };
        let pad = padding_needed_for(self.size, next.align);
        let max = isize::MAX as usize;
        if self.size > max || pad > max || next.size > max {
            return None;
        }
        let offset = self.size + pad;
        if offset > max || next.size > max - offset {
            proof {
                lemma_bound_rejects(offset + next.size, new_align as int);
            }
            return None;
        }
        let new_size = offset + next.size;
        match Layout::from_size_align(new_size, new_align) {
            Some(l) => Some((l, offset)),
            None => None,
        }
    }

    /// The layout with the size rounded up to a multiple of the alignment.
    pub fn pad_to_align(&self) -> (r: Layout)
        requires
            self.valid(),
        ensures
            r.valid(),
            r.spec_align() == self.spec_align(),
            r.spec_size() == self.spec_size() + padding_for(self.spec_size() as int, self.spec_align() as int),
            r.spec_size() % r.spec_align() == 0,
    {
        let pad = padding_needed_for(self.size, self.align);
        proof {
            lemma_pad_fits(self.size as int, self.align as int);
        }
        Layout { size: self.size + pad, align: self.align }
    }
}

/// The padding needed after `size` bytes to reach a multiple of `align`.
fn padding_needed_for(size: usize, align: usize) -> (r: usize)
    requires
        align > 0,
    ensures
        r == padding_for(size as int, align as int),
        r < align,
{
    let rem = size % align;
    if rem == 0 {
        0
    } else {
        align - rem
    }
}

/// Whether `n` is a power of two.
fn is_pow2_exec(n: usize) -> (r: bool)
    ensures
        r == is_pow2(n as int),
{
    reveal(is_pow2);
    if n == 0 {
        return false;
    }
    let mut m = n;
    while m > 1
        invariant
            m > 0,
            is_pow2(n as int) == is_pow2(m as int),
        decreases m,
    {
        proof {
            reveal(is_pow2);
        }
        if m % 2 != 0 {
            return false;
        }
        m = m / 2;
    }
    true
}

proof fn lemma_valid_layout_ok(size: usize, align: usize)
    requires
        valid_layout(size, align),
        align != 0,
    ensures
        layout_ok(size as int, align as int),
{
}

proof fn lemma_bound_rejects(total: int, align: int)
    requires
        total > isize::MAX,
        align > 0,
    ensures
        !layout_ok(total, align),
{
    assert(isize::MAX as int % align >= 0) by (nonlinear_arith)
        requires
            align > 0,
    ;
}

proof fn lemma_pad_fits(size: int, align: int)
    requires
        layout_ok(size, align),
    ensures
        layout_ok(size + padding_for(size, align), align),
        (size + padding_for(size, align)) % align == 0,
{
    let m = isize::MAX as int;
    let p = padding_for(size, align);
    let r = size % align;
    assert(0 <= r < align) by (nonlinear_arith)
        requires
            align > 0,
            r == size % align,
    ;
    assert((size + p) % align == 0) by (nonlinear_arith)
        requires
            align > 0,
            r == size % align,
            p == (if r == 0 { 0 } else { align - r }),
    ;
    // `m - m % align` is the largest multiple of `align` not above `m`, so a
    // size at most that stays at most that after rounding up
    assert(size + p <= m - m % align) by (nonlinear_arith)
        requires
            align > 0,
            0 <= size <= m - m % align,
            (size + p) % align == 0,
            0 <= p < align,
            p == 0 || size % align != 0,
            r == size % align,
            p == (if r == 0 { 0 } else { align - r }),
    ;
}

} // verus!
