//! Fixed-point cosine similarity between embedding vectors.
//!
//! Embeddings are held as vectors of scaled integers: a component `x`
//! stands for the real number `x / SCALE`. Similarity scores are scaled the
//! same way, so a score near `SCALE` means a cosine near one.

use vstd::prelude::*;

verus! {

/// One unit, in fixed-point representation.
pub const SCALE: i64 = 10000;

/// Largest magnitude an embedding component may have.
pub const COMPONENT_BOUND: i64 = 1000000;

/// Every component of the vector is within the fixed-point bound.
pub open spec fn valid_components(a: Seq<i64>) -> bool {
    forall|i: int| 0 <= i < a.len() ==> -COMPONENT_BOUND <= #[trigger] a[i] <= COMPONENT_BOUND
}

/// The dot product of two equally long vectors.
pub open spec fn spec_dot(a: Seq<i64>, b: Seq<i64>) -> int
    decreases a.len(),
{
    if a.len() == 0 || b.len() == 0 {
        0
    } else {
        spec_dot(a.drop_last(), b.drop_last()) + a.last() * b.last()
    }
}

/// The squared Euclidean norm of a vector.
pub open spec fn spec_norm_sq(a: Seq<i64>) -> int {
    spec_dot(a, a)
}

/// `r` is the integer square root of `n`.
pub open spec fn is_sqrt(n: int, r: int) -> bool {
    r >= 0 && r * r <= n < (r + 1) * (r + 1)
}

/// The integer square root of a non-negative number.
pub open spec fn sqrt_of(n: int) -> int {
    choose|r: int| #[trigger] is_sqrt(n, r)
}

/// The fixed-point cosine similarity of two vectors: the dot product scaled
/// by `SCALE` and divided by the product of the two norms, rounded toward
/// zero; zero when either vector has zero norm.
pub open spec fn spec_cos_sim(a: Seq<i64>, b: Seq<i64>) -> int {
    let d = spec_dot(a, b);
    let na = sqrt_of(spec_norm_sq(a));
    let nb = sqrt_of(spec_norm_sq(b));
    if na == 0 || nb == 0 {
        0
    } else if d >= 0 {
        (d * SCALE) / (na * nb)
    } else {
        -((-d * SCALE) / (na * nb))
    }
}

/// An integer square root exists for every non-negative number.
pub proof fn lemma_sqrt_exists(n: int)
    requires
        n >= 0,
    ensures
        is_sqrt(n, sqrt_of(n)),
    decreases n,
{
    if n == 0 {
        assert(is_sqrt(0, 0)) by (nonlinear_arith);
    } else {
        lemma_sqrt_exists(n - 1);
        let r = choose|r: int| #[trigger] is_sqrt(n - 1, r);
        if (r + 1) * (r + 1) <= n {
            assert(is_sqrt(n, r + 1)) by (nonlinear_arith)
                requires
                    r >= 0 && (r + 1) * (r + 1) <= n && n - 1 < (r + 1) * (r + 1),
            ;
        } else {
            assert(is_sqrt(n, r));
        }
    }

}

/// The integer square root is unique.
pub proof fn lemma_sqrt_unique(n: int, r: int)
    requires
        is_sqrt(n, r),
    ensures
        sqrt_of(n) == r,
{
    lemma_sqrt_exists(n);
    let s = sqrt_of(n);
    assert(r == s) by (nonlinear_arith)
        requires
            r >= 0 && r * r <= n < (r + 1) * (r + 1) && s >= 0 && s * s <= n < (s + 1) * (s + 1),
    ;
}

/// The dot product is symmetric.
pub proof fn lemma_dot_symmetric(a: Seq<i64>, b: Seq<i64>)
    ensures
        spec_dot(a, b) == spec_dot(b, a),
    decreases a.len(),
{
    if a.len() != 0 && b.len() != 0 {
        lemma_dot_symmetric(a.drop_last(), b.drop_last());
    }
}

/// A squared norm is never negative.
pub proof fn lemma_norm_sq_nonneg(a: Seq<i64>)
    ensures
        spec_norm_sq(a) >= 0,
    decreases a.len(),
{
    if a.len() != 0 {
        lemma_norm_sq_nonneg(a.drop_last());
        assert(a.last() * a.last() >= 0) by (nonlinear_arith);
    }
}

/// Cosine similarity is symmetric.
pub proof fn lemma_cos_sim_symmetric(a: Seq<i64>, b: Seq<i64>)
    ensures
        spec_cos_sim(a, b) == spec_cos_sim(b, a),
{
    lemma_dot_symmetric(a, b);
}

/// Cosine similarity against a zero vector is zero, in either position.
pub proof fn lemma_cos_sim_zero_vec(a: Seq<i64>, b: Seq<i64>)
    requires
        forall|i: int| 0 <= i < a.len() ==> #[trigger] a[i] == 0,
    ensures
        spec_cos_sim(a, b) == 0,
        spec_cos_sim(b, a) == 0,
{
    lemma_zero_norm(a);
    lemma_sqrt_unique(0, 0);
    lemma_cos_sim_symmetric(a, b);
}

/// A zero vector has zero squared norm.
proof fn lemma_zero_norm(a: Seq<i64>)
    requires
        forall|i: int| 0 <= i < a.len() ==> #[trigger] a[i] == 0,
    ensures
        spec_norm_sq(a) == 0,
    decreases a.len(),
{
    if a.len() != 0 {
        assert(a.last() == 0);
        lemma_zero_norm(a.drop_last());
    }
}

/// Orthogonal vectors have zero similarity.
pub proof fn lemma_cos_sim_orthogonal(a: Seq<i64>, b: Seq<i64>)
    requires
        spec_dot(a, b) == 0,
    ensures
        spec_cos_sim(a, b) == 0,
{
    let na = sqrt_of(spec_norm_sq(a));
    let nb = sqrt_of(spec_norm_sq(b));
    if na != 0 && nb != 0 {
        lemma_norm_sq_nonneg(a);
        lemma_norm_sq_nonneg(b);
        lemma_sqrt_exists(spec_norm_sq(a));
        lemma_sqrt_exists(spec_norm_sq(b));
        assert(na * nb > 0) by (nonlinear_arith)
            requires
                na > 0 && nb > 0,
        ;
        assert((0 * SCALE as int) / (na * nb) == 0) by {
            vstd::arithmetic::div_mod::lemma_div_of0(na * nb);
        }
    }
}

/// A non-zero vector has similarity about one with itself: at least one
/// whole unit (`SCALE`), and above it only by square-root rounding slack,
/// which shrinks as the norm grows.
pub proof fn lemma_cos_sim_self(a: Seq<i64>)
    requires
        spec_norm_sq(a) > 0,
    ensures
        SCALE <= spec_cos_sim(a, a) <= 3 * SCALE,
        spec_cos_sim(a, a) <= SCALE + (2 * SCALE as int) / sqrt_of(spec_norm_sq(a)),
{
    let n = spec_norm_sq(a);
    lemma_sqrt_exists(n);
    let r = sqrt_of(n);
    assert(r >= 1) by (nonlinear_arith)
        requires
            is_sqrt(n, r) && n > 0,
    ;
    lemma_dot_symmetric(a, a);
    assert(spec_dot(a, a) == n);
    let denom = r * r;
    assert(denom >= 1) by (nonlinear_arith)
        requires
            r >= 1 && denom == r * r,
    ;
    assert(n * SCALE >= denom * SCALE && n * SCALE <= 3 * denom * SCALE) by (nonlinear_arith)
        requires
            is_sqrt(n, r) && r >= 1 && denom == r * r,
    ;
    vstd::arithmetic::div_mod::lemma_div_is_ordered(denom * SCALE as int, n * SCALE, denom);
    vstd::arithmetic::div_mod::lemma_div_is_ordered(n * SCALE, 3 * denom * SCALE as int, denom);
    assert((denom * SCALE as int) / denom == SCALE) by {
        vstd::arithmetic::div_mod::lemma_div_multiples_vanish(SCALE as int, denom);
    }
    assert((3 * denom * SCALE as int) / denom == 3 * SCALE) by {
        assert(3 * denom * SCALE as int == denom * (3 * SCALE)) by (nonlinear_arith);
        vstd::arithmetic::div_mod::lemma_div_multiples_vanish(3 * SCALE as int, denom);
    }
    let q = (n * SCALE) / denom;
    let t = (2 * SCALE as int) / r;
    vstd::arithmetic::div_mod::lemma_fundamental_div_mod(2 * SCALE as int, r);
    vstd::arithmetic::div_mod::lemma_mod_bound(2 * SCALE as int, r);
    assert(r * (t + 1) > 2 * SCALE) by (nonlinear_arith)
        requires
            2 * SCALE as int == r * t + (2 * SCALE as int) % r && (2 * SCALE as int) % r < r,
    ;
    vstd::arithmetic::div_mod::lemma_fundamental_div_mod(n * SCALE, denom);
    vstd::arithmetic::div_mod::lemma_mod_bound(n * SCALE, denom);
    assert(n <= denom + 2 * r) by (nonlinear_arith)
        requires
            n < (r + 1) * (r + 1) && denom == r * r,
    ;
    assert(q <= SCALE + t) by (nonlinear_arith)
        requires
            denom == r * r && r >= 1 && n <= denom + 2 * r && n * SCALE == denom * q + (n
                * SCALE) % denom && 0 <= (n * SCALE) % denom < denom && r * (t + 1) > 2 * SCALE
                && (SCALE as int) > 0,
    ;
}

/// The dot product of two equally long, componentwise bounded vectors.
pub fn dot(a: &Vec<i64>, b: &Vec<i64>) -> (r: i128)
    requires
        a@.len() == b@.len(),
        valid_components(a@),
        valid_components(b@),
    ensures
        r == spec_dot(a@, b@),
        -(a@.len() as int) * (COMPONENT_BOUND as int * COMPONENT_BOUND as int) <= r as int <= (
        a@.len() as int) * (COMPONENT_BOUND as int * COMPONENT_BOUND as int),
{
    let ghost bb: int = COMPONENT_BOUND as int * COMPONENT_BOUND as int;
    let mut acc: i128 = 0;
    let mut i: usize = 0;
    proof {
        assert(a@.take(0) =~= Seq::<i64>::empty());
        assert(b@.take(0) =~= Seq::<i64>::empty());
    }
    while i < a.len()
        invariant
            i <= a@.len() == b@.len(),
            valid_components(a@),
            valid_components(b@),
            acc == spec_dot(a@.take(i as int), b@.take(i as int)),
            -(i as int) * bb <= acc <= (i as int) * bb,
            bb == COMPONENT_BOUND as int * COMPONENT_BOUND as int,
        decreases a@.len() - i,
    {
        let x: i64 = a[i];
        let y: i64 = b[i];
        proof {
            assert(-bb <= x as int * y as int <= bb) by (nonlinear_arith)
                requires
                    -COMPONENT_BOUND <= x <= COMPONENT_BOUND && -COMPONENT_BOUND <= y
                        <= COMPONENT_BOUND && bb == COMPONENT_BOUND as int * COMPONENT_BOUND as int,
            ;
            assert((i as int + 1) * bb == i as int * bb + bb && (-(i as int + 1)) * bb == (-(
            i as int)) * bb - bb) by (nonlinear_arith);
            vstd::arithmetic::mul::lemma_mul_inequality(i as int + 1, usize::MAX as int, bb);
            vstd::arithmetic::mul::lemma_mul_inequality(
                -(usize::MAX as int),
                -(i as int + 1),
                bb,
            );
            assert((-(usize::MAX as int)) * bb <= (-(i as int + 1)) * bb);
            assert((usize::MAX as int) * bb < i128::MAX as int && (-(usize::MAX as int)) * bb
                > i128::MIN as int) by (nonlinear_arith)
                requires
                    bb == COMPONENT_BOUND as int * COMPONENT_BOUND as int,
            ;
            assert(a@.take(i as int + 1).drop_last() =~= a@.take(i as int));
            assert(b@.take(i as int + 1).drop_last() =~= b@.take(i as int));
            assert(a@.take(i as int + 1).last() == x);
            assert(b@.take(i as int + 1).last() == y);
        }
        acc = acc + (x as i128) * (y as i128);
        i = i + 1;
    }
    proof {
        assert(a@.take(a@.len() as int) =~= a@);
        assert(b@.take(b@.len() as int) =~= b@);
    }
    acc
}

/// The integer square root, by bisection.
pub fn isqrt(n: u128) -> (r: u128)
    ensures
        is_sqrt(n as int, r as int),
{
    if n == 0 {
        proof {
            assert(is_sqrt(0, 0)) by (nonlinear_arith);
        }
        return 0;
    }
    let mut lo: u128 = 0;
    let mut hi: u128 = 1 << 64;
    proof {
        assert((1u128 << 64) == 0x10000000000000000) by (bit_vector);
        assert((n as int) < 0x10000000000000000 * 0x10000000000000000) by (nonlinear_arith)
            requires
                n as int <= u128::MAX as int,
        ;
    }
    while hi - lo > 1
        invariant
            lo < hi <= 0x10000000000000000,
            (lo as int) * (lo as int) <= n as int,
            (n as int) < (hi as int) * (hi as int),
        decreases hi - lo,
    {
        let mid: u128 = lo + (hi - lo) / 2;
        proof {
            assert(lo < mid < hi);
            assert((mid as int) * (mid as int) <= 0xffffffffffffffff * 0xffffffffffffffff) by (nonlinear_arith)
                requires
                    0 <= mid as int <= 0xffffffffffffffff,
            ;
        }
        if mid * mid <= n {
            lo = mid;
        } else {
            hi = mid;
        }
    }
    proof {
        assert(hi == lo + 1);
    }
    lo
}

/// The fixed-point cosine similarity of two embedding vectors.
pub fn cos_sim(a: &Vec<i64>, b: &Vec<i64>) -> (r: i128)
    requires
        a@.len() == b@.len(),
        valid_components(a@),
        valid_components(b@),
    ensures
        r == spec_cos_sim(a@, b@),
{
    let d: i128 = dot(a, b);
    let na_sq: i128 = dot(a, a);
    let nb_sq: i128 = dot(b, b);
    proof {
        lemma_norm_sq_nonneg(a@);
        lemma_norm_sq_nonneg(b@);
    }
    let na: u128 = isqrt(na_sq as u128);
    let nb: u128 = isqrt(nb_sq as u128);
    proof {
        lemma_sqrt_unique(na_sq as int, na as int);
        lemma_sqrt_unique(nb_sq as int, nb as int);
    }
    if na == 0 || nb == 0 {
        return 0;
    }
    let vec_len: usize = a.len();
    proof {
        let bb: int = COMPONENT_BOUND as int * COMPONENT_BOUND as int;
        vstd::arithmetic::mul::lemma_mul_inequality(vec_len as int, usize::MAX as int, bb);
        vstd::arithmetic::mul::lemma_mul_inequality(
            -(usize::MAX as int),
            -(vec_len as int),
            bb,
        );
        assert((-(usize::MAX as int)) * bb <= (-(vec_len as int)) * bb);
        assert((-(usize::MAX as int)) * bb <= d as int <= (usize::MAX as int) * bb);
    }
    let mag: u128 = if d >= 0 {
        d as u128
    } else {
        (-d) as u128
    };
    proof {
        assert((na as int) * (nb as int) >= 1) by (nonlinear_arith)
            requires
                na as int >= 1 && nb as int >= 1,
        ;
        assert(mag as int * SCALE as int <= i128::MAX as int) by (nonlinear_arith)
            requires
                0 <= mag as int <= (usize::MAX as int) * (COMPONENT_BOUND as int
                    * COMPONENT_BOUND as int),
        ;
        assert(na as int <= 0xffffffffffffffff && nb as int <= 0xffffffffffffffff)
            by (nonlinear_arith)
            requires
                0 <= na as int && 0 <= nb as int && (na as int) * (na as int) <= i128::MAX as int
                    && (nb as int) * (nb as int) <= i128::MAX as int,
        ;
        assert((na as int) * (nb as int) <= u128::MAX as int) by (nonlinear_arith)
            requires
                0 <= na as int <= 0xffffffffffffffff && 0 <= nb as int <= 0xffffffffffffffff,
        ;
    }
    let denom: u128 = na * nb;
    let scaled: u128 = mag * (SCALE as u128);
    let q: u128 = scaled / denom;
    proof {
        vstd::arithmetic::div_mod::lemma_div_nonincreasing(scaled as int, denom as int);
        assert(q as int <= scaled as int);
    }
    if d >= 0 {
        q as i128
    } else {
        -(q as i128)
    }
}

} // verus!
