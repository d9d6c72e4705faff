//! Geometry of naturally aligned blocks of pages.

use vstd::arithmetic::power2::*;
use vstd::prelude::*;

verus! {

/// The number of pages in a block of `order`.
pub open spec fn span(order: int) -> int {
    pow2(order as nat) as int
}

/// `idx` is a multiple of the size of a block of `order`.
pub open spec fn aligned(idx: int, order: int) -> bool {
    idx % span(order) == 0
}

/// Page `p` lies in the block of `order` at `idx`.
pub open spec fn within(p: int, idx: int, order: int) -> bool {
    idx <= p < idx + span(order)
}

/// The two blocks have no page in common.
pub open spec fn disjoint(i: int, a: int, j: int, b: int) -> bool {
    i + span(a) <= j || j + span(b) <= i
}

/// The block of `order` at `i` lies inside the block of order `b` at `j`.
pub open spec fn nested(i: int, a: int, j: int, b: int) -> bool {
    j <= i && i + span(a) <= j + span(b)
}

/// The other half of the block of the next order that holds the block of
/// `order` at `idx`.
pub open spec fn buddy_of(idx: int, order: int) -> int {
    if aligned(idx, order + 1) {
        idx + span(order)
    } else {
        idx - span(order)
    }
}

/// The start of the block of the next order that holds the block of `order`
/// at `idx`.
pub open spec fn parent_of(idx: int, order: int) -> int {
    if aligned(idx, order + 1) {
        idx
    } else {
        idx - span(order)
    }
}

pub proof fn lemma_span(order: int)
    requires
        order >= 0,
    ensures
        span(order) >= 1,
        span(order + 1) == 2 * span(order),
        span(0) == 1,
{
    lemma_pow2_pos(order as nat);
    lemma_pow2_unfold((order + 1) as nat);
    vstd::arithmetic::power2::lemma2_to64();
}

/// Larger orders have larger blocks, in whole multiples.
pub proof fn lemma_span_multiple(a: int, b: int)
    requires
        0 <= a <= b,
    ensures
        span(b) == span(b - a) * span(a),
        span(a) <= span(b),
        span(a) >= 1,
        a < b ==> 2 * span(a) <= span(b),
{
    lemma_pow2_adds((b - a) as nat, a as nat);
    lemma_span(a);
    lemma_span(b - a);
    let x = span(b - a);
    let y = span(a);
    assert(x * y >= y) by (nonlinear_arith)
        requires
            x >= 1,
            y >= 1,
    ;
    if a < b {
        lemma_span(b - a - 1);
        assert(x * y >= 2 * y) by (nonlinear_arith)
            requires
                x >= 2,
                y >= 1,
        ;
    }
}

/// Two different multiples of `m` are at least `m` apart.
pub proof fn lemma_multiple_gap(u: int, v: int, m: int)
    requires
        m > 0,
        u % m == 0,
        v % m == 0,
        u < v,
    ensures
        u + m <= v,
{
    vstd::arithmetic::div_mod::lemma_fundamental_div_mod(u, m);
    vstd::arithmetic::div_mod::lemma_fundamental_div_mod(v, m);
    let x = u / m;
    let y = v / m;
    assert(m * x + m <= m * y) by (nonlinear_arith)
        requires
            m > 0,
            m * x < m * y,
    ;
}

/// Sums and differences of multiples of `m` are multiples of `m`.
pub proof fn lemma_multiple_sum(u: int, v: int, m: int)
    requires
        m > 0,
        u % m == 0,
        v % m == 0,
    ensures
        (u + v) % m == 0,
        (u - v) % m == 0,
{
    vstd::arithmetic::div_mod::lemma_fundamental_div_mod(u, m);
    vstd::arithmetic::div_mod::lemma_fundamental_div_mod(v, m);
    let x = u / m;
    let y = v / m;
    assert(u + v == (x + y) * m) by (nonlinear_arith)
        requires
            u == m * x,
            v == m * y,
    ;
    assert(u - v == (x - y) * m) by (nonlinear_arith)
        requires
            u == m * x,
            v == m * y,
    ;
    vstd::arithmetic::div_mod::lemma_mod_multiples_basic(x + y, m);
    vstd::arithmetic::div_mod::lemma_mod_multiples_basic(x - y, m);
}

/// What is aligned to a larger order is aligned to a smaller one.
pub proof fn lemma_aligned_smaller(idx: int, a: int, b: int)
    requires
        0 <= a <= b,
        aligned(idx, b),
    ensures
        aligned(idx, a),
        aligned(idx + span(b), a),
        aligned(span(b), a),
{
    lemma_span_multiple(a, b);
    let m = span(a);
    let c = span(b - a);
    let k = idx / span(b);
    vstd::arithmetic::div_mod::lemma_fundamental_div_mod(idx, span(b));
    assert(idx == (k * c) * m) by (nonlinear_arith)
        requires
            idx == span(b) * k,
            span(b) == c * m,
    ;
    vstd::arithmetic::div_mod::lemma_mod_multiples_basic(k * c, m);
    vstd::arithmetic::div_mod::lemma_mod_multiples_basic(c, m);
    lemma_multiple_sum(idx, span(b), m);
}

/// Two aligned blocks are disjoint, or the smaller lies in the larger.
pub proof fn lemma_nested(i: int, a: int, j: int, b: int)
    requires
        0 <= a <= b,
        aligned(i, a),
        aligned(j, b),
    ensures
        disjoint(i, a, j, b) || nested(i, a, j, b),
        disjoint(i, a, j, b) ==> !nested(i, a, j, b),
        a == b && !disjoint(i, a, j, b) ==> i == j,
{
    lemma_span_multiple(a, b);
    lemma_aligned_smaller(j, a, b);
    if i < j {
        lemma_multiple_gap(i, j, span(a));
    } else if i < j + span(b) {
        lemma_multiple_gap(i, j + span(b), span(a));
    }
}

/// A block and its buddy are the two halves of their parent.
pub proof fn lemma_buddy(idx: int, order: int)
    requires
        order >= 0,
        idx >= 0,
        aligned(idx, order),
    ensures
        buddy_of(idx, order) >= 0,
        aligned(buddy_of(idx, order), order),
        buddy_of(idx, order) != idx,
        buddy_of(buddy_of(idx, order), order) == idx,
        parent_of(idx, order) == parent_of(buddy_of(idx, order), order),
        parent_of(idx, order) == if idx < buddy_of(idx, order) {
            idx
        } else {
            buddy_of(idx, order)
        },
        parent_of(idx, order) >= 0,
        aligned(parent_of(idx, order), order + 1),
        disjoint(idx, order, buddy_of(idx, order), order),
        span(order + 1) == 2 * span(order),
        span(order) >= 1,
        aligned(idx, order + 1) <==> (idx / span(order)) % 2 == 0,
{
    lemma_span(order);
    let m = span(order);
    let k = idx / m;
    vstd::arithmetic::div_mod::lemma_fundamental_div_mod(idx, m);
    vstd::arithmetic::div_mod::lemma_fundamental_div_mod(k, 2);
    let h = k / 2;
    let r = k % 2;
    assert(idx == (2 * m) * h + m * r) by (nonlinear_arith)
        requires
            idx == m * k,
            k == 2 * h + r,
    ;
    vstd::arithmetic::div_mod::lemma_mod_multiples_basic(1, m);
    assert(1 * m == m);
    lemma_multiple_sum(idx, m, m);
    if r == 0 {
        assert(m * r == 0) by (nonlinear_arith)
            requires
                r == 0,
        ;
        assert(idx == h * (2 * m)) by (nonlinear_arith)
            requires
                idx == (2 * m) * h,
        ;
        vstd::arithmetic::div_mod::lemma_mod_multiples_basic(h, 2 * m);
        vstd::arithmetic::div_mod::lemma_fundamental_div_mod_converse(idx + m, 2 * m, h, m);
    } else {
        assert(m * r == m) by (nonlinear_arith)
            requires
                r == 1,
        ;
        vstd::arithmetic::div_mod::lemma_fundamental_div_mod_converse(idx, 2 * m, h, m);
        vstd::arithmetic::div_mod::lemma_fundamental_div_mod_converse(idx - m, 2 * m, h, 0);
        assert(idx - m >= 0) by (nonlinear_arith)
            requires
                idx == (2 * m) * h + m,
                h >= 0,
                m >= 1,
        ;
    }
}

/// The only block of `order` that holds page `p`.
pub proof fn lemma_cover(p: int, idx: int, order: int)
    requires
        order >= 0,
        p >= 0,
        aligned(idx, order),
    ensures
        within(p, idx, order) <==> idx == p - p % span(order),
        aligned(p - p % span(order), order),
        0 <= p - p % span(order) <= p,
{
    let m = span(order);
    lemma_span(order);
    vstd::arithmetic::div_mod::lemma_fundamental_div_mod(p, m);
    vstd::arithmetic::div_mod::lemma_fundamental_div_mod(idx, m);
    let q = p / m;
    assert(p - p % m == q * m) by (nonlinear_arith)
        requires
            p == m * q + p % m,
    ;
    vstd::arithmetic::div_mod::lemma_mod_multiples_basic(q, m);
    assert(q * m >= 0) by (nonlinear_arith)
        requires
            q >= 0,
            m >= 1,
    ;
    let head = p - p % m;
    if within(p, idx, order) {
        if idx < head {
            lemma_multiple_gap(idx, head, m);
        } else if head < idx {
            lemma_multiple_gap(head, idx, m);
        }
    }
}

/// The buddy's index differs from the block's in the bit of its order, and
/// the parent's has that bit cleared.
pub proof fn lemma_buddy_bits(idx: usize, block: usize, order: int)
    requires
        0 <= order < usize::BITS,
        block == span(order),
        aligned(idx as int, order),
    ensures
        idx ^ block == buddy_of(idx as int, order),
        idx & (idx ^ block) == parent_of(idx as int, order),
{
    let k: usize = order as usize;
    vstd::bits::lemma_usize_pow2_no_overflow(order as nat);
    vstd::bits::lemma_usize_shl_is_mul(1, k);
    vstd::bits::lemma_usize_shr_is_div(idx, k);
    lemma_buddy(idx as int, order);
    let q: usize = idx >> k;
    vstd::arithmetic::div_mod::lemma_fundamental_div_mod(idx as int, span(order));
    assert(q * block == idx) by {
        vstd::arithmetic::mul::lemma_mul_is_commutative(q as int, block as int);
    }
    vstd::bits::lemma_usize_shl_is_mul(q, k);
    assert(q << k == idx);
    assert(if q % 2 == 0 {
        idx ^ block == idx + block && idx & (idx ^ block) == idx
    } else {
        idx ^ block == idx - block && idx & (idx ^ block) == idx - block
    }) by (bit_vector)
        requires
            block == 1usize << k,
            k < usize::BITS,
            q == idx >> k,
            q << k == idx,
    ;
}

} // verus!
