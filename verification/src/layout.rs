//! Memory layouts: a size in bytes and a power-of-two alignment, with the
//! operations that lay out a `#[repr(C)]` record followed by an array.
//!
//! These follow the rules of `std::alloc::Layout`: a layout is valid when
//! its alignment is a power of two and its size, rounded up to that
//! alignment, does not exceed `isize::MAX`.

use vstd::prelude::*;
use vstd::arithmetic::power2::is_pow2;
use vstd::arithmetic::div_mod::{lemma_fundamental_div_mod, lemma_fundamental_div_mod_converse};
use vstd::layout::{size_of, align_of, valid_layout, layout_for_type_is_valid};

verus! {

/// The size and alignment of a block of memory.
#[derive(Clone, Copy, Debug, PartialEq, Eq, Hash)]
pub struct Layout {
    size: usize,
    align: usize,
}

/// A layout whose size would exceed `isize::MAX` once rounded up to its
/// alignment.
#[derive(Clone, Copy, Debug, PartialEq, Eq)]
pub struct LayoutError;

/// The padding that rounds `size` up to a multiple of `align`.
pub open spec fn padding(size: int, align: int) -> int {
    if size % align == 0 {
        0
    } else {
        align - size % align
    }
}

/// `size` rounded up to a multiple of `align` still fits in `isize::MAX`.
pub open spec fn fits(size: int, align: int) -> bool {
    size + align - 1 <= isize::MAX
}

/// A valid layout: a power-of-two alignment and a size that fits.
pub open spec fn valid(size: int, align: int) -> bool {
    is_pow2(align) && fits(size, align)
}

/// The layout of `next` placed after `first`, as `(size, align, offset)`,
/// or `None` when it would not fit.
pub open spec fn extend_spec(first: (int, int), next: (int, int)) -> Option<(int, int, int)> {
    let offset = first.0 + padding(first.0, next.1);
    let align = if first.1 < next.1 { next.1 } else { first.1 };
    if fits(offset + next.0, align) {
        Some((offset + next.0, align, offset))
    } else {
        None
    }
}

/// The layout of `n` values of `elem_size` bytes at alignment `align`.
pub open spec fn array_spec(elem_size: int, align: int, n: int) -> Option<(int, int)> {
    if fits(elem_size * n, align) {
        Some((elem_size * n, align))
    } else {
        None
    }
}

/// A power of two divides every power of two at least as large.
pub proof fn lemma_pow2_divides(a: int, m: int)
    requires
        is_pow2(a),
        is_pow2(m),
        a <= m,
    ensures
        m % a == 0,
    decreases a,
{
    reveal(is_pow2);
    if a != 1 {
        assert(a > 1);
        assert(m != 1);
        let a2 = a / 2;
        let m2 = m / 2;
        lemma_pow2_divides(a2, m2);
        assert(m % a == 0) by (nonlinear_arith)
            requires
                a == 2 * a2,
                m == 2 * m2,
                m2 % a2 == 0,
                a2 > 0,
        {
            let k = m2 / a2;
            assert(m2 == k * a2);
            assert(m == k * a);
        }
    }
}

proof fn lemma_pow2_word()
    ensures
        is_pow2(usize::MAX + 1),
        usize::MAX + 1 == 2 * (isize::MAX + 1),
{
    reveal_with_fuel(vstd::arithmetic::power2::is_pow2, 70);
    if usize::MAX == 0xffff_ffff {
        assert(is_pow2(0x1_0000_0000));
    } else {
        assert(is_pow2(0x1_0000_0000_0000_0000));
    }
}

/// A power of two that fits in a `usize` divides `isize::MAX + 1`.
proof fn lemma_pow2_fits(a: int)
    requires
        is_pow2(a),
        a <= usize::MAX,
    ensures
        0 < a <= isize::MAX + 1,
        (isize::MAX + 1) % a == 0,
{
    reveal(is_pow2);
    lemma_pow2_word();
    let m: int = usize::MAX + 1;
    lemma_pow2_divides(a, m);
    assert(a <= isize::MAX + 1) by (nonlinear_arith)
        requires
            m % a == 0,
            0 < a < m,
            m == 2 * (isize::MAX + 1),
    {
        let k = m / a;
        assert(m == k * a);
        if k <= 1 {
            assert(k * a <= a);
        } else {
            assert(k * a >= 2 * a);
        }
    }
    assert(is_pow2(isize::MAX + 1));
    lemma_pow2_divides(a, isize::MAX + 1);
}

proof fn lemma_valid_layout(size: int, align: int)
    requires
        valid_layout(size as usize, align as usize),
        0 <= size <= usize::MAX,
        0 <= align <= usize::MAX,
    ensures
        valid(size, align),
{
    lemma_pow2_fits(align);
    let m: int = isize::MAX as int;
    let k = (m + 1) / align;
    lemma_fundamental_div_mod(m + 1, align);
    assert(m + 1 == align * k);
    assert((k - 1) * align == align * k - align) by (nonlinear_arith);
    lemma_fundamental_div_mod_converse(m, align, k - 1, align - 1);
}

/// Padding rounds up to the next multiple, and by less than the alignment.
pub proof fn lemma_padding(size: int, align: int)
    requires
        0 <= size,
        0 < align,
    ensures
        (size + padding(size, align)) % align == 0,
        0 <= padding(size, align) < align,
{
    let q = size / align;
    let r = size % align;
    lemma_fundamental_div_mod(size, align);
    if r != 0 {
        assert(size + padding(size, align) == (q + 1) * align) by (nonlinear_arith)
            requires
                size == align * q + r,
                padding(size, align) == align - r,
        ;
        vstd::arithmetic::div_mod::lemma_mod_multiples_basic(q + 1, align);
    }
}

proof fn lemma_padded_fits(size: int, align: int)
    requires
        valid(size, align),
        0 <= size,
        align <= usize::MAX,
    ensures
        valid(size + padding(size, align), align),
        (size + padding(size, align)) % align == 0,
{
    lemma_pow2_fits(align);
    let m: int = isize::MAX + 1;
    let s = size + padding(size, align);
    let q = size / align;
    let r = size % align;
    assert(size == align * q + r && 0 <= r < align) by (nonlinear_arith)
        requires
            align > 0,
            q == size / align,
            r == size % align,
    ;
    let i = if r == 0 { q } else { q + 1 };
    assert(s == align * i) by (nonlinear_arith)
        requires
            size == align * q + r,
            i == (if r == 0 { q } else { q + 1 }),
            s == size + (if r == 0 { 0 } else { align - r }),
    ;
    assert(s % align == 0) by (nonlinear_arith)
        requires
            s == align * i,
            align > 0,
    ;
    let j = m / align;
    assert(m == align * j) by (nonlinear_arith)
        requires
            m % align == 0,
            align > 0,
            j == m / align,
    ;
    assert(s < m);
    assert(i <= j - 1) by (nonlinear_arith)
        requires
            s == align * i,
            m == align * j,
            s < m,
            align > 0,
    ;
    assert(s <= m - align) by (nonlinear_arith)
        requires
            s == align * i,
            m == align * j,
            i <= j - 1,
            align > 0,
    ;
}

impl Layout {
    #[verifier::type_invariant]
    spec fn inv(self) -> bool {
        valid(self.size as int, self.align as int)
    }

    /// The size in bytes.
    pub closed spec fn bytes(&self) -> int {
        self.size as int
    }

    /// The alignment in bytes.
    pub closed spec fn alignment(&self) -> int {
        self.align as int
    }

    proof fn lemma_valid(&self)
        requires
            valid(self.bytes(), self.alignment()),
        ensures
            0 < self.alignment() <= isize::MAX + 1,
            (isize::MAX + 1) % self.alignment() == 0,
    {
        lemma_pow2_fits(self.align as int);
    }

    /// The layout of a value of type `T`.
    pub fn new<T>() -> (l: Layout)
        ensures
            l.bytes() == size_of::<T>(),
            l.alignment() == align_of::<T>(),
    {
        layout_for_type_is_valid::<T>();
        let size = core::mem::size_of::<T>();
        let align = core::mem::align_of::<T>();
        proof {
            lemma_valid_layout(size as int, align as int);
        }
        Layout { size, align }
    }

    /// The layout of an array of `n` values of type `T`.
    pub fn array<T>(n: usize) -> (r: Result<Layout, LayoutError>)
        ensures
            match r {
                Ok(l) => array_spec(size_of::<T>() as int, align_of::<T>() as int, n as int)
                    == Some((l.bytes(), l.alignment())),
                Err(_) => array_spec(size_of::<T>() as int, align_of::<T>() as int, n as int)
                    is None,
            },
    {
        let elem = Layout::new::<T>();
        proof {
            use_type_invariant(&elem);
            elem.lemma_valid();
        }
        match n.checked_mul(elem.size) {
            None => {
                assert(elem.size * n > isize::MAX) by (nonlinear_arith)
                    requires
                        n * elem.size > usize::MAX,
                        usize::MAX >= isize::MAX,
                ;
                Err(LayoutError)
            },
            Some(size) => {
                assert(size == elem.size * n) by (nonlinear_arith)
                    requires
                        size == n * elem.size,
                ;
                if size <= isize::MAX as usize - (elem.align - 1) {
                    Ok(Layout { size, align: elem.align })
                } else {
                    Err(LayoutError)
                }
            },
        }
    }

    /// The size in bytes.
    pub fn size(&self) -> (r: usize)
        ensures
            r == self.bytes(),
    {
        self.size
    }

    /// The alignment in bytes.
    pub fn align(&self) -> (r: usize)
        ensures
            r == self.alignment(),
    {
        self.align
    }

    /// The layout of a record holding `self` followed by `next`, with the
    /// offset at which `next` starts; the alignment is the larger of the two.
    pub fn extend(&self, next: Layout) -> (r: Result<(Layout, usize), LayoutError>)
        ensures
            match r {
                Ok((l, offset)) => extend_spec(
                    (self.bytes(), self.alignment()),
                    (next.bytes(), next.alignment()),
                ) == Some((l.bytes(), l.alignment(), offset as int)),
                Err(_) => extend_spec(
                    (self.bytes(), self.alignment()),
                    (next.bytes(), next.alignment()),
                ) is None,
            },
    {
        proof {
            use_type_invariant(self);
            use_type_invariant(&next);
            self.lemma_valid();
            next.lemma_valid();
        }
        let rem = self.size % next.align;
        let pad = if rem == 0 {
            0
        } else {
            next.align - rem
        };
        let offset = self.size + pad;
        let align = if self.align < next.align {
            next.align
        } else {
            self.align
        };
        match offset.checked_add(next.size) {
            None => Err(LayoutError),
            Some(size) => {
                if size <= isize::MAX as usize - (align - 1) {
                    Ok((Layout { size, align }, offset))
                } else {
                    Err(LayoutError)
                }
            },
        }
    }

    /// This layout with its size rounded up to a multiple of its alignment.
    pub fn pad_to_align(&self) -> (l: Layout)
        ensures
            l.bytes() == self.bytes() + padding(self.bytes(), self.alignment()),
            l.alignment() == self.alignment(),
            l.bytes() % l.alignment() == 0,
    {
        proof {
            use_type_invariant(self);
            self.lemma_valid();
            lemma_padded_fits(self.size as int, self.align as int);
        }
        let rem = self.size % self.align;
        let pad = if rem == 0 {
            0
        } else {
            self.align - rem
        };
        Layout { size: self.size + pad, align: self.align }
    }
}

} // verus!
