//! Fixed-point cosine similarity.
//!
//! Embedding components and similarity scores are integers scaled by
//! `SCORE_SCALE`: a real value `x` is stored as `x * SCORE_SCALE` rounded to
//! an integer, and a similarity of `1.0` is the integer `SCORE_SCALE`.
//! Working over integers keeps every score exact and provable; the component
//! and dimension bounds below make all intermediate products fit in 128-bit
//! arithmetic.
//!
//! Degenerate inputs score zero by design rather than raising an error:
//! vectors of different lengths, empty vectors, and vectors of zero norm.

use vstd::arithmetic::div_mod::lemma_div_is_ordered;
use vstd::prelude::*;

verus! {

/// A similarity of 1.0 as a fixed-point integer.
pub const SCORE_SCALE: i64 = 1_000_000;

/// Largest magnitude a stored vector component may have.
pub const MAX_COMPONENT: i64 = 32_768;

/// Largest dimension a stored vector may have.
pub const MAX_DIM: usize = 16_384;

/// Dot product of two equally long integer sequences (0 when either is
/// empty).
pub open spec fn dot(a: Seq<i64>, b: Seq<i64>) -> int
    decreases a.len(),
{
    if a.len() == 0 || b.len() == 0 {
        0
    } else {
        dot(a.drop_last(), b.drop_last()) + a.last() * b.last()
    }
}

/// Squared Euclidean norm.
pub open spec fn norm_sq(a: Seq<i64>) -> int {
    dot(a, a)
}

/// The integer square root: the largest `r` with `r * r <= n`.
pub open spec fn sqrt_floor(n: nat) -> nat
    decreases n,
{
    if n == 0 {
        0
    } else {
        let r = sqrt_floor((n - 1) as nat);
        if (r + 1) * (r + 1) <= n {
            r + 1
        } else {
            r
        }
    }
}

/// The cosine similarity of `a` and `b` as a fixed-point integer:
/// `dot(a, b) * SCORE_SCALE / (|a| * |b|)`, rounded toward zero, and `0`
/// for every degenerate pair (length mismatch, empty, or zero norm).
pub open spec fn spec_cosine(a: Seq<i64>, b: Seq<i64>) -> int {
    if a.len() != b.len() || a.len() == 0 {
        0
    } else if norm_sq(a) * norm_sq(b) == 0 {
        0
    } else {
        let m = sqrt_floor((norm_sq(a) * norm_sq(b) * SCORE_SCALE * SCORE_SCALE) as nat) as int;
        let d = dot(a, b);
        if d >= 0 {
            (d * SCORE_SCALE * SCORE_SCALE) / m
        } else {
            -((-d * SCORE_SCALE * SCORE_SCALE) / m)
        }
    }
}

pub proof fn lemma_dot_symmetric(a: Seq<i64>, b: Seq<i64>)
    ensures
        dot(a, b) == dot(b, a),
    decreases a.len(),
{
    if a.len() != 0 && b.len() != 0 {
        lemma_dot_symmetric(a.drop_last(), b.drop_last());
    }
}

pub proof fn lemma_norm_sq_nonneg(a: Seq<i64>)
    ensures
        norm_sq(a) >= 0,
    decreases a.len(),
{
    if a.len() != 0 {
        lemma_norm_sq_nonneg(a.drop_last());
        let x = a.last();
        assert(x * x >= 0) by (nonlinear_arith);
    }
}

/// A vector has zero squared norm exactly when every component is zero.
pub proof fn lemma_norm_sq_zero(a: Seq<i64>)
    ensures
        (norm_sq(a) == 0) <==> (forall|i: int| 0 <= i < a.len() ==> a[i] == 0),
    decreases a.len(),
{
    if a.len() != 0 {
        let a0 = a.drop_last();
        lemma_norm_sq_zero(a0);
        lemma_norm_sq_nonneg(a0);
        let x = a.last();
        assert(x * x >= 0 && (x * x == 0 <==> x == 0)) by (nonlinear_arith);
        if norm_sq(a) == 0 {
            assert(forall|i: int| 0 <= i < a0.len() ==> a0[i] == a[i]);
        } else if forall|i: int| 0 <= i < a.len() ==> a[i] == 0 {
            assert(forall|i: int| 0 <= i < a0.len() ==> a0[i] == 0);
        }
    }
}

/// The Cauchy-Schwarz inequality for integer vectors:
/// `dot(a, b)^2 <= norm_sq(a) * norm_sq(b)`.
pub proof fn lemma_cauchy_schwarz(a: Seq<i64>, b: Seq<i64>)
    requires
        a.len() == b.len(),
    ensures
        dot(a, b) * dot(a, b) <= norm_sq(a) * norm_sq(b),
    decreases a.len(),
{
    if a.len() == 0 {
    } else {
        let a0 = a.drop_last();
        let b0 = b.drop_last();
        lemma_cauchy_schwarz(a0, b0);
        lemma_norm_sq_nonneg(a0);
        lemma_norm_sq_nonneg(b0);
        let d = dot(a0, b0);
        let na = norm_sq(a0);
        let nb = norm_sq(b0);
        let x = a.last();
        let y = b.last();
        // The cross terms obey 2*x*y*d <= na*y*y + x*x*nb, by comparing
        // squares: (2*x*y*d)^2 <= 4*x^2*y^2*na*nb <= (na*y^2 + x^2*nb)^2.
        let p = na * (y * y) + (x * x) * nb;
        let q = 2 * (x * y) * d;
        assert(p >= 0) by (nonlinear_arith)
            requires
                na >= 0,
                nb >= 0,
                p == na * (y * y) + (x * x) * nb,
        ;
        assert(q * q <= 4 * ((x * x) * (y * y)) * (na * nb)) by (nonlinear_arith)
            requires
                d * d <= na * nb,
                q == 2 * (x * y) * d,
        ;
        assert(4 * ((x * x) * (y * y)) * (na * nb) <= p * p) by (nonlinear_arith)
            requires
                p == na * (y * y) + (x * x) * nb,
        ;
        assert(q <= p) by (nonlinear_arith)
            requires
                p >= 0,
                q * q <= p * p,
        ;
        assert((d + x * y) * (d + x * y) == d * d + 2 * (x * y) * d + (x * x) * (y * y))
            by (nonlinear_arith);
        assert((na + x * x) * (nb + y * y) == na * nb + na * (y * y) + (x * x) * nb + (x * x) * (y
            * y)) by (nonlinear_arith);
        assert((d + x * y) * (d + x * y) <= (na + x * x) * (nb + y * y));
        assert(dot(a, b) == d + x * y);
        assert(norm_sq(a) == na + x * x);
        assert(norm_sq(b) == nb + y * y);
    }
}

pub proof fn lemma_sqrt_floor_props(n: nat)
    ensures
        sqrt_floor(n) * sqrt_floor(n) <= n,
        n < (sqrt_floor(n) + 1) * (sqrt_floor(n) + 1),
    decreases n,
{
    if n == 0 {
        assert(sqrt_floor(0) == 0) by {
            reveal_with_fuel(sqrt_floor, 1);
        }
        assert((sqrt_floor(n) + 1) * (sqrt_floor(n) + 1) == 1) by (nonlinear_arith)
            requires
                sqrt_floor(n) == 0,
        ;
    } else {
        lemma_sqrt_floor_props((n - 1) as nat);
        let r0 = sqrt_floor((n - 1) as nat);
        assert(r0 * r0 <= n - 1);
        assert(n - 1 < (r0 + 1) * (r0 + 1));
        assert(sqrt_floor(n) == if (r0 + 1) * (r0 + 1) <= n {
            r0 + 1
        } else {
            r0
        }) by {
            reveal_with_fuel(sqrt_floor, 2);
        }
        if (r0 + 1) * (r0 + 1) <= n {
            assert(sqrt_floor(n) == r0 + 1);
            assert(n < (r0 + 2) * (r0 + 2)) by (nonlinear_arith)
                requires
                    n - 1 < (r0 + 1) * (r0 + 1),
                    r0 >= 0,
            ;
            assert(sqrt_floor(n) * sqrt_floor(n) <= n);
            assert(n < (sqrt_floor(n) + 1) * (sqrt_floor(n) + 1));
        } else {
            assert(sqrt_floor(n) == r0);
            assert(sqrt_floor(n) * sqrt_floor(n) <= n);
            assert(n < (sqrt_floor(n) + 1) * (sqrt_floor(n) + 1));
        }
    }
}

/// `sqrt_floor` is the unique `k` with `k^2 <= n < (k+1)^2`.
pub proof fn lemma_sqrt_floor_unique(n: nat, k: nat)
    requires
        k * k <= n,
        n < (k + 1) * (k + 1),
    ensures
        k == sqrt_floor(n),
{
    lemma_sqrt_floor_props(n);
    let r = sqrt_floor(n);
    if k < r {
        assert((k + 1) * (k + 1) <= r * r) by (nonlinear_arith)
            requires
                k + 1 <= r,
        ;
    } else if r < k {
        assert((r + 1) * (r + 1) <= k * k) by (nonlinear_arith)
            requires
                r + 1 <= k,
        ;
    }
}

/// Any `k` whose square is at most `n` is at most `sqrt_floor(n)`.
pub proof fn lemma_sqrt_floor_maximal(n: nat, k: nat)
    requires
        k * k <= n,
    ensures
        k <= sqrt_floor(n),
{
    lemma_sqrt_floor_props(n);
    let r = sqrt_floor(n);
    if r < k {
        assert((r + 1) * (r + 1) <= k * k) by (nonlinear_arith)
            requires
                r + 1 <= k,
        ;
    }
}

/// Squaring is exactly inverted by `sqrt_floor`.
pub proof fn lemma_sqrt_floor_square(k: nat)
    ensures
        sqrt_floor(k * k) == k,
{
    assert(k * k < (k + 1) * (k + 1)) by (nonlinear_arith);
    lemma_sqrt_floor_unique(k * k, k);
}

/// The integer square root, by binary search over a 64-bit result range.
fn isqrt(x: u128) -> (r: u128)
    ensures
        r as nat == sqrt_floor(x as nat),
        r * r <= x,
{
    let mut lo: u128 = 0;
    let mut hi: u128 = 0xFFFF_FFFF_FFFF_FFFF;
    while lo < hi
        invariant
            lo <= hi,
            hi <= 0xFFFF_FFFF_FFFF_FFFF,
            (lo as int) * (lo as int) <= x as int,
            (x as int) < ((hi as int) + 1) * ((hi as int) + 1),
        decreases hi - lo,
    {
        let mid = lo + (hi - lo + 1) / 2;
        assert(lo < mid <= hi);
        assert((mid as int) * (mid as int) < 0x1_0000_0000_0000_0000_0000_0000_0000_0000)
            by (nonlinear_arith)
            requires
                mid <= 0xFFFF_FFFF_FFFF_FFFFu128,
        ;
        if mid * mid <= x {
            lo = mid;
        } else {
            hi = mid - 1;
        }
    }
    proof {
        lemma_sqrt_floor_unique(x as nat, lo as nat);
    }
    lo
}

/// Cosine similarity of two stored vectors, as a fixed-point score in
/// `[-SCORE_SCALE, SCORE_SCALE]`.  Mismatched lengths, empty vectors and
/// zero-norm vectors score `0`.
pub fn cosine_similarity(a: &[i64], b: &[i64]) -> (r: i64)
    requires
        a@.len() <= MAX_DIM,
        b@.len() <= MAX_DIM,
        forall|i: int| 0 <= i < a@.len() ==> -MAX_COMPONENT <= #[trigger] a@[i] <= MAX_COMPONENT,
        forall|i: int| 0 <= i < b@.len() ==> -MAX_COMPONENT <= #[trigger] b@[i] <= MAX_COMPONENT,
    ensures
        r == spec_cosine(a@, b@),
        -SCORE_SCALE <= r <= SCORE_SCALE,
{
    let n = a.len();
    if n != b.len() || n == 0 {
        return 0;
    }
    let mut d: i128 = 0;
    let mut na: i128 = 0;
    let mut nb: i128 = 0;
    for i in 0..n
        invariant
            n == a@.len(),
            n == b@.len(),
            n <= MAX_DIM,
            forall|j: int|
                0 <= j < a@.len() ==> -MAX_COMPONENT <= #[trigger] a@[j] <= MAX_COMPONENT,
            forall|j: int|
                0 <= j < b@.len() ==> -MAX_COMPONENT <= #[trigger] b@[j] <= MAX_COMPONENT,
            d == dot(a@.subrange(0, i as int), b@.subrange(0, i as int)),
            na == norm_sq(a@.subrange(0, i as int)),
            nb == norm_sq(b@.subrange(0, i as int)),
            -((i as int) * ((MAX_COMPONENT as int) * (MAX_COMPONENT as int))) <= d as int,
            d as int <= (i as int) * ((MAX_COMPONENT as int) * (MAX_COMPONENT as int)),
            0 <= na as int <= (i as int) * ((MAX_COMPONENT as int) * (MAX_COMPONENT as int)),
            0 <= nb as int <= (i as int) * ((MAX_COMPONENT as int) * (MAX_COMPONENT as int)),
    {
        let x = a[i] as i128;
        let y = b[i] as i128;
        proof {
            let bound = (MAX_COMPONENT as int) * (MAX_COMPONENT as int);
            assert(-bound <= x * y <= bound && 0 <= x * x <= bound && 0 <= y * y <= bound)
                by (nonlinear_arith)
                requires
                    -MAX_COMPONENT <= x <= MAX_COMPONENT,
                    -MAX_COMPONENT <= y <= MAX_COMPONENT,
                    bound == (MAX_COMPONENT as int) * (MAX_COMPONENT as int),
            ;
            assert(((i as int) + 1) * bound == (i as int) * bound + bound) by (nonlinear_arith);
            let sa1 = a@.subrange(0, i + 1);
            let sb1 = b@.subrange(0, i + 1);
            assert(sa1.drop_last() =~= a@.subrange(0, i as int));
            assert(sb1.drop_last() =~= b@.subrange(0, i as int));
            assert(sa1.last() == a@[i as int] && sb1.last() == b@[i as int]);
        }
        d = d + x * y;
        na = na + x * x;
        nb = nb + y * y;
    }
    proof {
        assert(a@.subrange(0, n as int) =~= a@);
        assert(b@.subrange(0, n as int) =~= b@);
    }
    if na == 0 || nb == 0 {
        proof {
            assert(norm_sq(a@) * norm_sq(b@) == 0) by (nonlinear_arith)
                requires
                    norm_sq(a@) == na as int,
                    norm_sq(b@) == nb as int,
                    na == 0 || nb == 0,
            ;
        }
        return 0;
    }
    proof {
        // The bounded components and dimension keep every product inside
        // 128 bits: na, nb <= 2^44, so na * nb <= 2^88 and
        // na * nb * SCORE_SCALE^2 < 2^128.
        let cap: int = (MAX_DIM as int) * ((MAX_COMPONENT as int) * (MAX_COMPONENT as int));
        assert(cap == 0x1000_0000_0000);
        assert(na as int <= cap && nb as int <= cap) by (nonlinear_arith)
            requires
                na as int <= (n as int) * ((MAX_COMPONENT as int) * (MAX_COMPONENT as int)),
                nb as int <= (n as int) * ((MAX_COMPONENT as int) * (MAX_COMPONENT as int)),
                0 <= n as int <= MAX_DIM as int,
                cap == (MAX_DIM as int) * ((MAX_COMPONENT as int) * (MAX_COMPONENT as int)),
        ;
        assert(0 < (na as int) * (nb as int) <= cap * cap) by (nonlinear_arith)
            requires
                0 < na as int <= cap,
                0 < nb as int <= cap,
        ;
        assert(cap * cap < 0x1_0000_0000_0000_0000_0000_0000_0000_0000);
    }
    let prod: u128 = (na as u128) * (nb as u128);
    proof {
        assert((prod as int) * ((SCORE_SCALE as int) * (SCORE_SCALE as int))
            <= (0x1000_0000_0000 * 0x1000_0000_0000) * (1_000_000 * 1_000_000)) by (nonlinear_arith)
            requires
                0 < prod as int <= 0x1000_0000_0000 * 0x1000_0000_0000,
        ;
        assert((0x1000_0000_0000 * 0x1000_0000_0000) * (1_000_000 * 1_000_000)
            < 0x1_0000_0000_0000_0000_0000_0000_0000_0000) by (nonlinear_arith);
    }
    let arg: u128 = prod * (SCORE_SCALE as u128) * (SCORE_SCALE as u128);
    let m = isqrt(arg);
    proof {
        assert(arg as int == (na as int) * (nb as int) * SCORE_SCALE * SCORE_SCALE)
            by (nonlinear_arith)
            requires
                arg as int == (prod as int) * (SCORE_SCALE as int) * (SCORE_SCALE as int),
                prod as int == (na as int) * (nb as int),
        ;
        assert(1 * 1 <= arg as nat);
        lemma_sqrt_floor_maximal(arg as nat, 1);
    }
    let mag: u128 = if d >= 0 {
        d as u128
    } else {
        (-d) as u128
    };
    proof {
        lemma_cauchy_schwarz(a@, b@);
        let s = SCORE_SCALE as int;
        assert((mag as int) * (mag as int) <= (na as int) * (nb as int)) by (nonlinear_arith)
            requires
                (d as int) * (d as int) <= (na as int) * (nb as int),
                mag as int == if d as int >= 0 {
                    d as int
                } else {
                    -(d as int)
                },
        ;
        assert((mag as int * s) * (mag as int * s) <= arg as int) by (nonlinear_arith)
            requires
                (mag as int) * (mag as int) <= (na as int) * (nb as int),
                arg as int == (na as int) * (nb as int) * s * s,
                s > 0,
        ;
        lemma_sqrt_floor_maximal(arg as nat, (mag as int * s) as nat);
        assert(mag as int * s <= m as int);
        assert((mag as int) * s * s <= 0x1000_0000_0000 * 1_000_000 * 1_000_000)
            by (nonlinear_arith)
            requires
                0 <= mag as int <= 0x1000_0000_0000,
                s == 1_000_000,
        ;
        assert(0x1000_0000_0000 * 1_000_000 * 1_000_000
            < 0x1_0000_0000_0000_0000_0000_0000_0000_0000);
    }
    let q: u128 = mag * (SCORE_SCALE as u128) * (SCORE_SCALE as u128) / m;
    proof {
        let s = SCORE_SCALE as int;
        assert(mag as int * s * s <= m as int * s) by (nonlinear_arith)
            requires
                mag as int * s <= m as int,
                s > 0,
        ;
        lemma_div_is_ordered(mag as int * s * s, m as int * s, m as int);
        assert((m as int * s) / (m as int) == s) by {
            vstd::arithmetic::div_mod::lemma_div_multiples_vanish(s, m as int);
        }
        assert(q as int == (mag as int * s * s) / (m as int));
        assert(q <= SCORE_SCALE);
        let sc = spec_cosine(a@, b@);
        if d >= 0 {
            assert(sc == (dot(a@, b@) * s * s) / (m as int));
            assert(dot(a@, b@) == mag as int);
        } else {
            assert(sc == -((-dot(a@, b@) * s * s) / (m as int)));
            assert(-dot(a@, b@) == mag as int);
        }
    }
    if d >= 0 {
        q as i64
    } else {
        -(q as i64)
    }
}

/// The similarity of any nonzero vector with itself is exactly `1.0`
/// (`SCORE_SCALE` in fixed point).
pub proof fn lemma_cosine_self(a: Seq<i64>)
    requires
        exists|i: int| 0 <= i < a.len() && a[i] != 0,
    ensures
        spec_cosine(a, a) == SCORE_SCALE,
{
    lemma_norm_sq_zero(a);
    lemma_norm_sq_nonneg(a);
    let n2 = norm_sq(a);
    assert(n2 > 0);
    let s = SCORE_SCALE as int;
    assert(n2 * n2 * s * s == (n2 * s) * (n2 * s)) by (nonlinear_arith);
    assert(n2 * n2 != 0) by (nonlinear_arith)
        requires
            n2 > 0,
    ;
    let m = n2 * s;
    assert(((n2 * n2 * s * s) as nat) == ((m as nat) * (m as nat))) by (nonlinear_arith)
        requires
            n2 > 0,
            s > 0,
            m == n2 * s,
    ;
    lemma_sqrt_floor_square(m as nat);
    assert(sqrt_floor((n2 * n2 * s * s) as nat) == m as nat);
    assert(dot(a, a) * s * s == m * s) by (nonlinear_arith)
        requires
            m == dot(a, a) * s,
    ;
    assert((m * s) / m == s) by {
        vstd::arithmetic::div_mod::lemma_div_multiples_vanish(s, m);
    }
}

/// Cosine similarity is symmetric.
pub proof fn lemma_cosine_symmetric(a: Seq<i64>, b: Seq<i64>)
    ensures
        spec_cosine(a, b) == spec_cosine(b, a),
{
    lemma_dot_symmetric(a, b);
    if a.len() == b.len() && a.len() != 0 {
        assert(norm_sq(a) * norm_sq(b) == norm_sq(b) * norm_sq(a)) by (nonlinear_arith);
    }
}

/// Every degenerate pair scores zero: mismatched lengths, empty vectors,
/// and vectors of zero norm.
pub proof fn lemma_cosine_degenerate(a: Seq<i64>, b: Seq<i64>)
    ensures
        a.len() != b.len() ==> spec_cosine(a, b) == 0,
        a.len() == 0 ==> spec_cosine(a, b) == 0,
        norm_sq(a) == 0 ==> spec_cosine(a, b) == 0,
        norm_sq(b) == 0 ==> spec_cosine(a, b) == 0,
{
    assert(norm_sq(a) == 0 ==> norm_sq(a) * norm_sq(b) == 0) by (nonlinear_arith);
    assert(norm_sq(b) == 0 ==> norm_sq(a) * norm_sq(b) == 0) by (nonlinear_arith);
}

} // verus!
