//! Physical addresses and page frame numbers.
//!
//! Address arithmetic never wraps: what would exceed the greatest address
//! saturates to it.

use vstd::arithmetic::power2::*;
use vstd::prelude::*;

verus! {

/// `a`, or `limit` if that is less.
pub open spec fn saturated(a: int, limit: int) -> int {
    if a < limit {
        a
    } else {
        limit
    }
}

/// `a / b`, rounded up.
pub open spec fn ceil_div(a: int, b: int) -> int {
    (a + b - 1) / b
}

/// A physical address type: an unsigned integer of some width.
///
/// It is implemented for the unsigned primitives; a type that wraps an
/// address forwards each method to it, and so meets these contracts. `value`
/// and `limit` exist in contracts only: an implementation outside of verified
/// code leaves them out.
pub trait PhysAddr: Copy + Sized {
    /// The number that the address is.
    open spec fn value(self) -> int {
        arbitrary()
    }

    /// The greatest number that an address can be.
    open spec fn limit() -> int {
        arbitrary()
    }

    /// The zero address.
    fn zero() -> (addr: Self)
        ensures
            addr.value() == 0,
    ;

    /// The greatest address.
    fn highest() -> (addr: Self)
        ensures
            addr.value() == Self::limit(),
            0 <= Self::limit(),
    ;

    /// Returns `true` if `self` is less than `other`.
    fn below(self, other: Self) -> (less: bool)
        ensures
            less == (self.value() < other.value()),
    ;

    /// Returns `true` if `self` and `other` are the same address.
    fn same(self, other: Self) -> (equal: bool)
        ensures
            equal == (self.value() == other.value()),
    ;

    /// The sum of two addresses, which must not exceed the greatest one.
    fn plus(self, rhs: Self) -> (sum: Self)
        requires
            self.value() + rhs.value() <= Self::limit(),
        ensures
            sum.value() == self.value() + rhs.value(),
    ;

    /// The difference of two addresses, which must not be negative.
    fn minus(self, rhs: Self) -> (difference: Self)
        requires
            rhs.value() <= self.value(),
        ensures
            difference.value() == self.value() - rhs.value(),
    ;

    /// Rounds `addr` up to a multiple of `alignment`, a power of two,
    /// saturating.
    fn align_up(addr: Self, alignment: Self) -> (up: Self)
        requires
            is_pow2(alignment.value()),
        ensures
            0 <= addr.value() <= Self::limit(),
            up.value() == saturated(
                ceil_div(addr.value(), alignment.value()) * alignment.value(),
                Self::limit(),
            ),
    ;

    /// Rounds `addr` down to a multiple of `alignment`, a power of two.
    fn align_down(addr: Self, alignment: Self) -> (down: Self)
        requires
            is_pow2(alignment.value()),
        ensures
            0 <= addr.value() <= Self::limit(),
            down.value() == addr.value() - addr.value() % alignment.value(),
    ;

    /// The number of the first page that starts at or after `addr`.
    fn pfn_up(addr: Self, page_size: Self) -> (pfn: Self)
        requires
            page_size.value() != 0,
        ensures
            0 <= addr.value() <= Self::limit(),
            pfn.value() == ceil_div(addr.value(), page_size.value()),
    ;

    /// The number of the page that holds `addr`.
    fn pfn_down(addr: Self, page_size: Self) -> (pfn: Self)
        requires
            page_size.value() != 0,
        ensures
            0 <= addr.value() <= Self::limit(),
            pfn.value() == addr.value() / page_size.value(),
    ;

    /// The address at which the page numbered `pfn` starts, saturating.
    fn pfn_to_phys(pfn: Self, page_size: Self) -> (addr: Self)
        requires
            page_size.value() != 0,
        ensures
            addr.value() == saturated(pfn.value() * page_size.value(), Self::limit()),
    ;
}

/// Calls `<u128 as the_memblock::addr::PhysAddr>::align_up`.
///
/// Claimed: for a power of two `alignment` it returns the least multiple of
/// `alignment` that is at least `addr`, or `u128::MAX` if that multiple is not
/// representable. It panics on any other `alignment`.
#[verifier::external_body]
fn wide_align_up(addr: u128, alignment: u128) -> (up: u128)
    requires
        is_pow2(alignment as int),
    ensures
        up == saturated(ceil_div(addr as int, alignment as int) * alignment, u128::MAX as int),
{
    <u128 as the_memblock::addr::PhysAddr>::align_up(addr, alignment)
}

/// Calls `<u128 as the_memblock::addr::PhysAddr>::align_down`.
///
/// Claimed: for a power of two `alignment` it returns the greatest multiple
/// of `alignment` that is at most `addr`. It panics on any other `alignment`.
#[verifier::external_body]
fn wide_align_down(addr: u128, alignment: u128) -> (down: u128)
    requires
        is_pow2(alignment as int),
    ensures
        down == addr - addr as int % alignment as int,
{
    <u128 as the_memblock::addr::PhysAddr>::align_down(addr, alignment)
}

/// Calls `<u128 as the_memblock::addr::PhysAddr>::pfn_up`.
///
/// Claimed: it returns `addr / page_size`, rounded up. It panics on a
/// `page_size` of zero.
#[verifier::external_body]
fn wide_pfn_up(addr: u128, page_size: u128) -> (pfn: u128)
    requires
        page_size != 0,
    ensures
        pfn == ceil_div(addr as int, page_size as int),
{
    <u128 as the_memblock::addr::PhysAddr>::pfn_up(addr, page_size)
}

/// Calls `<u128 as the_memblock::addr::PhysAddr>::pfn_down`.
///
/// Claimed: it returns `addr / page_size`, rounded down. It panics on a
/// `page_size` of zero.
#[verifier::external_body]
fn wide_pfn_down(addr: u128, page_size: u128) -> (pfn: u128)
    requires
        page_size != 0,
    ensures
        pfn == addr as int / page_size as int,
{
    <u128 as the_memblock::addr::PhysAddr>::pfn_down(addr, page_size)
}

/// Calls `<u128 as the_memblock::addr::PhysAddr>::pfn_to_phys`.
///
/// Claimed: it returns `pfn * page_size`, or `u128::MAX` if the product is
/// not representable. It panics on a `page_size` of zero.
#[verifier::external_body]
fn wide_pfn_to_phys(pfn: u128, page_size: u128) -> (addr: u128)
    requires
        page_size != 0,
    ensures
        addr == saturated(pfn * page_size, u128::MAX as int),
{
    <u128 as the_memblock::addr::PhysAddr>::pfn_to_phys(pfn, page_size)
}

/// A quotient is at most the dividend, rounded up or down.
proof fn lemma_quotient(a: int, b: int)
    requires
        0 <= a,
        0 < b,
    ensures
        0 <= a / b <= a,
        0 <= ceil_div(a, b) <= a,
        0 <= a % b <= a,
        0 <= ceil_div(a, b) * b < a + b,
{
    assert(a + b - 1 >= 0);
    vstd::arithmetic::div_mod::lemma_fundamental_div_mod(a, b);
    vstd::arithmetic::div_mod::lemma_fundamental_div_mod(a + b - 1, b);
    let q = a / b;
    let c = (a + b - 1) / b;
    assert(0 <= q <= a) by (nonlinear_arith)
        requires
            a == b * q + a % b,
            0 <= a % b < b,
            0 <= a,
            0 < b,
    ;
    assert(0 <= c <= a) by (nonlinear_arith)
        requires
            a + b - 1 == b * c + (a + b - 1) % b,
            0 <= (a + b - 1) % b < b,
            0 <= a,
            0 < b,
    ;
    assert(0 <= b * q) by (nonlinear_arith)
        requires
            0 <= q,
            0 < b,
    ;
    assert(0 <= c * b && c * b == b * c) by (nonlinear_arith)
        requires
            0 <= c,
            0 < b,
    ;
}

/// A quotient rounded up is the least number whose multiple reaches the
/// dividend.
pub proof fn law_ceil_div(a: int, b: int)
    requires
        0 < b,
    ensures
        (ceil_div(a, b) - 1) * b < a <= ceil_div(a, b) * b,
{
    let c = ceil_div(a, b);
    vstd::arithmetic::div_mod::lemma_fundamental_div_mod(a + b - 1, b);
    let t = (a + b - 1) % b;
    assert((c - 1) * b < a <= c * b) by (nonlinear_arith)
        requires
            a + b - 1 == b * c + t,
            0 <= t < b,
    ;
}

/// Saturating keeps what does not exceed the limit and brings the rest down to
/// it.
pub proof fn law_saturated(a: int, limit: int)
    ensures
        a <= limit ==> saturated(a, limit) == a,
        a >= limit ==> saturated(a, limit) == limit,
{
}

/// A power of two is positive.
pub proof fn lemma_pow2_positive(n: int)
    requires
        is_pow2(n),
    ensures
        n > 0,
{
    reveal(is_pow2);
}

impl PhysAddr for u8 {
    open spec fn value(self) -> int {
        self as int
    }

    open spec fn limit() -> int {
        u8::MAX as int
    }

    fn zero() -> (addr: Self) {
        0
    }

    fn highest() -> (addr: Self) {
        u8::MAX
    }

    fn below(self, other: Self) -> (less: bool) {
        self < other
    }

    fn same(self, other: Self) -> (equal: bool) {
        self == other
    }

    fn plus(self, rhs: Self) -> (sum: Self) {
        self + rhs
    }

    fn minus(self, rhs: Self) -> (difference: Self) {
        self - rhs
    }

    fn align_up(addr: Self, alignment: Self) -> (up: Self) {
        proof {
            lemma_pow2_positive(alignment as int);
            lemma_quotient(addr as int, alignment as int);
        }
        let up: u128 = wide_align_up(addr as u128, alignment as u128);
        if up > u8::MAX as u128 {
            u8::MAX
        } else {
            up as u8
        }
    }

    fn align_down(addr: Self, alignment: Self) -> (down: Self) {
        proof {
            lemma_pow2_positive(alignment as int);
            lemma_quotient(addr as int, alignment as int);
        }
        wide_align_down(addr as u128, alignment as u128) as u8
    }

    fn pfn_up(addr: Self, page_size: Self) -> (pfn: Self) {
        proof {
            lemma_quotient(addr as int, page_size as int);
        }
        wide_pfn_up(addr as u128, page_size as u128) as u8
    }

    fn pfn_down(addr: Self, page_size: Self) -> (pfn: Self) {
        proof {
            lemma_quotient(addr as int, page_size as int);
        }
        wide_pfn_down(addr as u128, page_size as u128) as u8
    }

    fn pfn_to_phys(pfn: Self, page_size: Self) -> (addr: Self) {
        let addr: u128 = wide_pfn_to_phys(pfn as u128, page_size as u128);
        if addr > u8::MAX as u128 {
            u8::MAX
        } else {
            addr as u8
        }
    }
}

impl PhysAddr for u16 {
    open spec fn value(self) -> int {
        self as int
    }

    open spec fn limit() -> int {
        u16::MAX as int
    }

    fn zero() -> (addr: Self) {
        0
    }

    fn highest() -> (addr: Self) {
        u16::MAX
    }

    fn below(self, other: Self) -> (less: bool) {
        self < other
    }

    fn same(self, other: Self) -> (equal: bool) {
        self == other
    }

    fn plus(self, rhs: Self) -> (sum: Self) {
        self + rhs
    }

    fn minus(self, rhs: Self) -> (difference: Self) {
        self - rhs
    }

    fn align_up(addr: Self, alignment: Self) -> (up: Self) {
        proof {
            lemma_pow2_positive(alignment as int);
            lemma_quotient(addr as int, alignment as int);
        }
        let up: u128 = wide_align_up(addr as u128, alignment as u128);
        if up > u16::MAX as u128 {
            u16::MAX
        } else {
            up as u16
        }
    }

    fn align_down(addr: Self, alignment: Self) -> (down: Self) {
        proof {
            lemma_pow2_positive(alignment as int);
            lemma_quotient(addr as int, alignment as int);
        }
        wide_align_down(addr as u128, alignment as u128) as u16
    }

    fn pfn_up(addr: Self, page_size: Self) -> (pfn: Self) {
        proof {
            lemma_quotient(addr as int, page_size as int);
        }
        wide_pfn_up(addr as u128, page_size as u128) as u16
    }

    fn pfn_down(addr: Self, page_size: Self) -> (pfn: Self) {
        proof {
            lemma_quotient(addr as int, page_size as int);
        }
        wide_pfn_down(addr as u128, page_size as u128) as u16
    }

    fn pfn_to_phys(pfn: Self, page_size: Self) -> (addr: Self) {
        let addr: u128 = wide_pfn_to_phys(pfn as u128, page_size as u128);
        if addr > u16::MAX as u128 {
            u16::MAX
        } else {
            addr as u16
        }
    }
}

impl PhysAddr for u32 {
    open spec fn value(self) -> int {
        self as int
    }

    open spec fn limit() -> int {
        u32::MAX as int
    }

    fn zero() -> (addr: Self) {
        0
    }

    fn highest() -> (addr: Self) {
        u32::MAX
    }

    fn below(self, other: Self) -> (less: bool) {
        self < other
    }

    fn same(self, other: Self) -> (equal: bool) {
        self == other
    }

    fn plus(self, rhs: Self) -> (sum: Self) {
        self + rhs
    }

    fn minus(self, rhs: Self) -> (difference: Self) {
        self - rhs
    }

    fn align_up(addr: Self, alignment: Self) -> (up: Self) {
        proof {
            lemma_pow2_positive(alignment as int);
            lemma_quotient(addr as int, alignment as int);
        }
        let up: u128 = wide_align_up(addr as u128, alignment as u128);
        if up > u32::MAX as u128 {
            u32::MAX
        } else {
            up as u32
        }
    }

    fn align_down(addr: Self, alignment: Self) -> (down: Self) {
        proof {
            lemma_pow2_positive(alignment as int);
            lemma_quotient(addr as int, alignment as int);
        }
        wide_align_down(addr as u128, alignment as u128) as u32
    }

    fn pfn_up(addr: Self, page_size: Self) -> (pfn: Self) {
        proof {
            lemma_quotient(addr as int, page_size as int);
        }
        wide_pfn_up(addr as u128, page_size as u128) as u32
    }

    fn pfn_down(addr: Self, page_size: Self) -> (pfn: Self) {
        proof {
            lemma_quotient(addr as int, page_size as int);
        }
        wide_pfn_down(addr as u128, page_size as u128) as u32
    }

    fn pfn_to_phys(pfn: Self, page_size: Self) -> (addr: Self) {
        let addr: u128 = wide_pfn_to_phys(pfn as u128, page_size as u128);
        if addr > u32::MAX as u128 {
            u32::MAX
        } else {
            addr as u32
        }
    }
}

impl PhysAddr for u64 {
    open spec fn value(self) -> int {
        self as int
    }

    open spec fn limit() -> int {
        u64::MAX as int
    }

    fn zero() -> (addr: Self) {
        0
    }

    fn highest() -> (addr: Self) {
        u64::MAX
    }

    fn below(self, other: Self) -> (less: bool) {
        self < other
    }

    fn same(self, other: Self) -> (equal: bool) {
        self == other
    }

    fn plus(self, rhs: Self) -> (sum: Self) {
        self + rhs
    }

    fn minus(self, rhs: Self) -> (difference: Self) {
        self - rhs
    }

    fn align_up(addr: Self, alignment: Self) -> (up: Self) {
        proof {
            lemma_pow2_positive(alignment as int);
            lemma_quotient(addr as int, alignment as int);
        }
        let up: u128 = wide_align_up(addr as u128, alignment as u128);
        if up > u64::MAX as u128 {
            u64::MAX
        } else {
            up as u64
        }
    }

    fn align_down(addr: Self, alignment: Self) -> (down: Self) {
        proof {
            lemma_pow2_positive(alignment as int);
            lemma_quotient(addr as int, alignment as int);
        }
        wide_align_down(addr as u128, alignment as u128) as u64
    }

    fn pfn_up(addr: Self, page_size: Self) -> (pfn: Self) {
        proof {
            lemma_quotient(addr as int, page_size as int);
        }
        wide_pfn_up(addr as u128, page_size as u128) as u64
    }

    fn pfn_down(addr: Self, page_size: Self) -> (pfn: Self) {
        proof {
            lemma_quotient(addr as int, page_size as int);
        }
        wide_pfn_down(addr as u128, page_size as u128) as u64
    }

    fn pfn_to_phys(pfn: Self, page_size: Self) -> (addr: Self) {
        let addr: u128 = wide_pfn_to_phys(pfn as u128, page_size as u128);
        if addr > u64::MAX as u128 {
            u64::MAX
        } else {
            addr as u64
        }
    }
}

impl PhysAddr for u128 {
    open spec fn value(self) -> int {
        self as int
    }

    open spec fn limit() -> int {
        u128::MAX as int
    }

    fn zero() -> (addr: Self) {
        0
    }

    fn highest() -> (addr: Self) {
        u128::MAX
    }

    fn below(self, other: Self) -> (less: bool) {
        self < other
    }

    fn same(self, other: Self) -> (equal: bool) {
        self == other
    }

    fn plus(self, rhs: Self) -> (sum: Self) {
        self + rhs
    }

    fn minus(self, rhs: Self) -> (difference: Self) {
        self - rhs
    }

    fn align_up(addr: Self, alignment: Self) -> (up: Self) {
        wide_align_up(addr, alignment)
    }

    fn align_down(addr: Self, alignment: Self) -> (down: Self) {
        wide_align_down(addr, alignment)
    }

    fn pfn_up(addr: Self, page_size: Self) -> (pfn: Self) {
        wide_pfn_up(addr, page_size)
    }

    fn pfn_down(addr: Self, page_size: Self) -> (pfn: Self) {
        wide_pfn_down(addr, page_size)
    }

    fn pfn_to_phys(pfn: Self, page_size: Self) -> (addr: Self) {
        wide_pfn_to_phys(pfn, page_size)
    }
}

impl PhysAddr for usize {
    open spec fn value(self) -> int {
        self as int
    }

    open spec fn limit() -> int {
        usize::MAX as int
    }

    fn zero() -> (addr: Self) {
        0
    }

    fn highest() -> (addr: Self) {
        usize::MAX
    }

    fn below(self, other: Self) -> (less: bool) {
        self < other
    }

    fn same(self, other: Self) -> (equal: bool) {
        self == other
    }

    fn plus(self, rhs: Self) -> (sum: Self) {
        self + rhs
    }

    fn minus(self, rhs: Self) -> (difference: Self) {
        self - rhs
    }

    fn align_up(addr: Self, alignment: Self) -> (up: Self) {
        proof {
            lemma_pow2_positive(alignment as int);
            lemma_quotient(addr as int, alignment as int);
        }
        let up: u128 = wide_align_up(addr as u128, alignment as u128);
        if up > usize::MAX as u128 {
            usize::MAX
        } else {
            up as usize
        }
    }

    fn align_down(addr: Self, alignment: Self) -> (down: Self) {
        proof {
            lemma_pow2_positive(alignment as int);
            lemma_quotient(addr as int, alignment as int);
        }
        wide_align_down(addr as u128, alignment as u128) as usize
    }

    fn pfn_up(addr: Self, page_size: Self) -> (pfn: Self) {
        proof {
            lemma_quotient(addr as int, page_size as int);
        }
        wide_pfn_up(addr as u128, page_size as u128) as usize
    }

    fn pfn_down(addr: Self, page_size: Self) -> (pfn: Self) {
        proof {
            lemma_quotient(addr as int, page_size as int);
        }
        wide_pfn_down(addr as u128, page_size as u128) as usize
    }

    fn pfn_to_phys(pfn: Self, page_size: Self) -> (addr: Self) {
        let addr: u128 = wide_pfn_to_phys(pfn as u128, page_size as u128);
        if addr > usize::MAX as u128 {
            usize::MAX
        } else {
            addr as usize
        }
    }
}

} // verus!
