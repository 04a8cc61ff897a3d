//! The scoring primitive: cosine similarity between two fixed-point vectors.
//!
//! The score of two vectors `a` and `b` of equal length is
//! `dot(a, b) * SCALE / floor(sqrt(|a|^2 * |b|^2))`, truncated toward zero; a
//! score of `SCALE` means the vectors point in exactly the same direction.
//! Two vectors of different lengths, and any pair in which one vector is all
//! zero, score `0`.

use vstd::prelude::*;

verus! {

/// Largest number of coordinates a vector may carry.
pub const MAX_DIM: usize = 32768;

/// Largest magnitude of a single coordinate.
pub const MAX_COORD: i64 = 16777216;

/// The fixed-point scale: a score of `SCALE` is a cosine of exactly one.
pub const SCALE: u128 = 65536;

/// The vector is small enough that every intermediate product and sum of the
/// scoring arithmetic fits the machine integers used to compute it.
pub open spec fn bounded(a: Seq<i64>) -> bool {
    &&& a.len() <= MAX_DIM
    &&& forall|i: int|
        0 <= i < a.len() ==> -(MAX_COORD as int) <= #[trigger] a[i] <= MAX_COORD as int
}

/// Dot product of two equal-length vectors, as unbounded integers.
pub open spec fn dot(a: Seq<i64>, b: Seq<i64>) -> int
    recommends
        a.len() == b.len(),
    decreases a.len(),
{
    if a.len() == 0 {
        0
    } else {
        dot(a.drop_last(), b.drop_last()) + a.last() * b.last()
    }
}

/// Squared Euclidean norm of a vector.
pub open spec fn norm_sq(a: Seq<i64>) -> int {
    dot(a, a)
}

/// The vector whose coordinates are all zero.
pub open spec fn is_zero(a: Seq<i64>) -> bool {
    forall|i: int| 0 <= i < a.len() ==> a[i] == 0
}

/// Floor of the square root of a non-negative integer.
pub open spec fn sqrt_floor(n: int) -> int
    recommends
        n >= 0,
    decreases n,
{
    if n <= 0 {
        0
    } else {
        let r = sqrt_floor(n - 1);
        if (r + 1) * (r + 1) <= n {
            r + 1
        } else {
            r
        }
    }
}

/// Cosine similarity in fixed point. Mismatched lengths and zero vectors
/// score `0`; otherwise the quotient is truncated toward zero.
pub open spec fn cosine(a: Seq<i64>, b: Seq<i64>) -> int {
    if a.len() != b.len() {
        0
    } else if norm_sq(a) == 0 || norm_sq(b) == 0 {
        0
    } else {
        let d = dot(a, b);
        let den = sqrt_floor(norm_sq(a) * norm_sq(b));
        if d >= 0 {
            d * (SCALE as int) / den
        } else {
            -((-d) * (SCALE as int) / den)
        }
    }
}

pub proof fn lemma_sqrt_floor_bounds(n: int)
    requires
        n >= 0,
    ensures
        sqrt_floor(n) >= 0,
        sqrt_floor(n) * sqrt_floor(n) <= n,
        n < (sqrt_floor(n) + 1) * (sqrt_floor(n) + 1),
        n >= 1 ==> sqrt_floor(n) >= 1,
    decreases n,
{
    if n > 0 {
        lemma_sqrt_floor_bounds(n - 1);
        let r = sqrt_floor(n - 1);
        if n == 1 {
            assert(sqrt_floor(0) == 0);
            assert((r + 1) * (r + 1) == 1) by (nonlinear_arith)
                requires
                    r == 0,
            ;
        }
        if (r + 1) * (r + 1) <= n {
            assert(n < (r + 2) * (r + 2)) by (nonlinear_arith)
                requires
                    r >= 0,
                    n - 1 < (r + 1) * (r + 1),
                    (r + 1) * (r + 1) <= n,
            ;
        }
    }
}

/// Any `r` that satisfies the floor-square-root bounds is the floor square root.
pub proof fn lemma_sqrt_floor_unique(n: int, r: int)
    requires
        n >= 0,
        r >= 0,
        r * r <= n,
        n < (r + 1) * (r + 1),
    ensures
        r == sqrt_floor(n),
{
    lemma_sqrt_floor_bounds(n);
    let s = sqrt_floor(n);
    if r < s {
        assert(false) by (nonlinear_arith)
            requires
                r >= 0,
                s >= 0,
                r < s,
                s * s <= n,
                n < (r + 1) * (r + 1),
        ;
    }
    if s < r {
        assert(false) by (nonlinear_arith)
            requires
                r >= 0,
                s >= 0,
                s < r,
                r * r <= n,
                n < (s + 1) * (s + 1),
        ;
    }
}

pub proof fn lemma_norm_sq_nonneg(a: Seq<i64>)
    ensures
        norm_sq(a) >= 0,
    decreases a.len(),
{
    if a.len() > 0 {
        lemma_norm_sq_nonneg(a.drop_last());
        assert(a.last() * a.last() >= 0) by (nonlinear_arith);
    }
}

/// The squared norm vanishes exactly on the zero vector.
pub proof fn lemma_norm_sq_zero(a: Seq<i64>)
    ensures
        norm_sq(a) == 0 <==> is_zero(a),
    decreases a.len(),
{
    if a.len() > 0 {
        let d = a.drop_last();
        lemma_norm_sq_zero(d);
        lemma_norm_sq_nonneg(d);
        assert(a.last() * a.last() >= 0) by (nonlinear_arith);
        assert(a.last() * a.last() == 0 ==> a.last() == 0) by (nonlinear_arith);
        if norm_sq(a) == 0 {
            assert(forall|i: int| 0 <= i < d.len() ==> d[i] == a[i]);
        }
        if is_zero(a) {
            assert(forall|i: int| 0 <= i < d.len() ==> d[i] == 0);
            assert(a.last() == 0);
        }
    }
}

pub proof fn lemma_dot_bound(a: Seq<i64>, b: Seq<i64>)
    requires
        a.len() == b.len(),
        bounded(a),
        bounded(b),
    ensures
        -(a.len() as int * (MAX_COORD as int) * (MAX_COORD as int)) <= dot(a, b),
        dot(a, b) <= a.len() as int * (MAX_COORD as int) * (MAX_COORD as int),
    decreases a.len(),
{
    if a.len() > 0 {
        let da = a.drop_last();
        let db = b.drop_last();
        assert(bounded(da) && bounded(db)) by {
            assert(forall|i: int| 0 <= i < da.len() ==> da[i] == a[i]);
            assert(forall|i: int| 0 <= i < db.len() ==> db[i] == b[i]);
        }
        lemma_dot_bound(da, db);
        let c = MAX_COORD as int;
        assert(-(c * c) <= a.last() * b.last() <= c * c) by (nonlinear_arith)
            requires
                -c <= a.last() <= c,
                -c <= b.last() <= c,
                c > 0,
        ;
        assert(da.len() as int * c * c + c * c == a.len() as int * c * c) by (nonlinear_arith)
            requires
                a.len() == da.len() + 1,
        ;
    }
}

proof fn lemma_mul_ge_one(x: int, y: int)
    by (nonlinear_arith)
    requires
        x >= 1,
        y >= 1,
    ensures
        x * y >= 1,
{
}

proof fn lemma_square_grows(s: int)
    by (nonlinear_arith)
    requires
        s >= 1,
    ensures
        s * s >= s,
        s * s < (s + 1) * (s + 1),
{
}

/// A vector that is not all zero scores exactly `SCALE` — a cosine of one —
/// against itself.
pub proof fn lemma_cosine_self(a: Seq<i64>)
    requires
        !is_zero(a),
    ensures
        cosine(a, a) == SCALE,
{
    lemma_norm_sq_zero(a);
    lemma_norm_sq_nonneg(a);
    let s = norm_sq(a);
    assert(s >= 1);
    lemma_square_grows(s);
    lemma_sqrt_floor_unique(s * s, s);
    vstd::arithmetic::div_mod::lemma_div_multiples_vanish(SCALE as int, s);
}

/// Two vectors whose dot product vanishes — orthogonal vectors in
/// particular — score zero.
pub proof fn lemma_cosine_orthogonal(a: Seq<i64>, b: Seq<i64>)
    requires
        dot(a, b) == 0,
    ensures
        cosine(a, b) == 0,
{
    if a.len() == b.len() && norm_sq(a) != 0 && norm_sq(b) != 0 {
        lemma_norm_sq_nonneg(a);
        lemma_norm_sq_nonneg(b);
        let prod = norm_sq(a) * norm_sq(b);
        lemma_mul_ge_one(norm_sq(a), norm_sq(b));
        lemma_sqrt_floor_bounds(prod);
        vstd::arithmetic::div_mod::lemma_div_of0(sqrt_floor(prod));
    }
}

/// A zero vector on either side scores zero, whatever the other vector is.
pub proof fn lemma_cosine_zero_vector(a: Seq<i64>, b: Seq<i64>)
    requires
        is_zero(a) || is_zero(b),
    ensures
        cosine(a, b) == 0,
{
    lemma_norm_sq_zero(a);
    lemma_norm_sq_zero(b);
}

/// Dot product of two equal-length bounded vectors.
pub fn dot_product(a: &Vec<i64>, b: &Vec<i64>) -> (r: i128)
    requires
        a@.len() == b@.len(),
        bounded(a@),
        bounded(b@),
    ensures
        r == dot(a@, b@),
{
    let c: i128 = MAX_COORD as i128;
    let n = a.len();
    let mut acc: i128 = 0;
    let mut i: usize = 0;
    while i < n
        invariant
            i <= n,
            n == a@.len() == b@.len(),
            bounded(a@),
            bounded(b@),
            c == MAX_COORD as int,
            acc == dot(a@.take(i as int), b@.take(i as int)),
            -(i as int * c * c) <= acc <= i as int * c * c,
        decreases n - i,
    {
        proof {
            lemma_dot_bound(a@.take(i as int), b@.take(i as int));
        }
        let ai: i128 = a[i] as i128;
        let bi: i128 = b[i] as i128;
        assert(-(c * c) <= ai * bi <= c * c) by (nonlinear_arith)
            requires
                -c <= ai <= c,
                -c <= bi <= c,
                c > 0,
        ;
        let p: i128 = ai * bi;
        assert((i as int + 1) * c * c == i as int * c * c + c * c) by (nonlinear_arith);
        assert(i as int * c * c <= (MAX_DIM as int) * c * c) by (nonlinear_arith)
            requires
                0 <= i as int <= MAX_DIM as int,
                c > 0,
        ;
        acc = acc + p;
        proof {
            let t1 = a@.take(i as int + 1);
            let t2 = b@.take(i as int + 1);
            assert(t1.drop_last() =~= a@.take(i as int));
            assert(t2.drop_last() =~= b@.take(i as int));
            assert(t1.last() == a@[i as int]);
            assert(t2.last() == b@[i as int]);
        }
        i = i + 1;
        proof {
            lemma_dot_bound(a@.take(i as int), b@.take(i as int));
        }
    }
    proof {
        assert(a@.take(n as int) =~= a@);
        assert(b@.take(n as int) =~= b@);
    }
    acc
}

/// Floor of the square root, by binary search.
pub fn isqrt(n: u128) -> (r: u128)
    ensures
        r == sqrt_floor(n as int),
{
    let cap: u128 = 18446744073709551615;
    let mut lo: u128 = 0;
    let mut hi: u128 = if n < cap {
        n
    } else {
        cap
    };
    proof {
        assert((n as int) < (hi as int + 1) * (hi as int + 1)) by (nonlinear_arith)
            requires
                hi == if n < 18446744073709551615u128 {
                    n as int
                } else {
                    18446744073709551615
                },
                n <= u128::MAX,
        ;
    }
    while lo < hi
        invariant
            lo <= hi <= 18446744073709551615u128,
            lo as int * lo as int <= n as int,
            (n as int) < (hi as int + 1) * (hi as int + 1),
        decreases hi - lo,
    {
        let mid: u128 = lo + (hi - lo + 1) / 2;
        assert(lo < mid <= hi);
        assert(mid as int * mid as int <= u128::MAX as int) by (nonlinear_arith)
            requires
                0 <= mid as int <= 18446744073709551615,
        ;
        let sq: u128 = mid * mid;
        if sq <= n {
            lo = mid;
        } else {
            hi = mid - 1;
        }
    }
    proof {
        lemma_sqrt_floor_unique(n as int, lo as int);
    }
    lo
}

/// Cosine similarity between two bounded fixed-point vectors.
///
/// The result equals the mathematical definition `cosine` exactly; in
/// particular a length mismatch and a zero vector on either side both yield
/// `0` rather than an error.
pub fn cosine_similarity(a: &Vec<i64>, b: &Vec<i64>) -> (r: i128)
    requires
        bounded(a@),
        bounded(b@),
    ensures
        r == cosine(a@, b@),
        a@.len() != b@.len() ==> r == 0,
        is_zero(a@) || is_zero(b@) ==> r == 0,
{
    proof {
        lemma_norm_sq_zero(a@);
        lemma_norm_sq_zero(b@);
    }
    if a.len() != b.len() {
        return 0;
    }
    let d: i128 = dot_product(a, b);
    let na: i128 = dot_product(a, a);
    let nb: i128 = dot_product(b, b);
    if na == 0 || nb == 0 {
        return 0;
    }
    proof {
        lemma_norm_sq_nonneg(a@);
        lemma_norm_sq_nonneg(b@);
        lemma_dot_bound(a@, b@);
        lemma_dot_bound(a@, a@);
        lemma_dot_bound(b@, b@);
        assert((a@.len() as int) * (MAX_COORD as int) * (MAX_COORD as int) <= (MAX_DIM as int)
            * (MAX_COORD as int) * (MAX_COORD as int)) by (nonlinear_arith)
            requires
                0 <= a@.len() as int <= MAX_DIM as int,
        ;
        assert((b@.len() as int) * (MAX_COORD as int) * (MAX_COORD as int) <= (MAX_DIM as int)
            * (MAX_COORD as int) * (MAX_COORD as int)) by (nonlinear_arith)
            requires
                0 <= b@.len() as int <= MAX_DIM as int,
        ;
    }
    let bound: i128 = 9223372036854775808;
    assert(1 <= na <= bound && 1 <= nb <= bound && -bound <= d <= bound);
    proof {
        assert(1 <= (na as int) * (nb as int) <= u128::MAX as int) by (nonlinear_arith)
            requires
                1 <= na as int <= 9223372036854775808,
                1 <= nb as int <= 9223372036854775808,
        ;
    }
    let prod: u128 = (na as u128) * (nb as u128);
    let den: u128 = isqrt(prod);
    proof {
        lemma_sqrt_floor_bounds(prod as int);
    }
    if d >= 0 {
        let num: u128 = (d as u128) * SCALE;
        let q: u128 = num / den;
        assert(q <= num) by (nonlinear_arith)
            requires
                den >= 1,
                num >= 0,
                q == num as int / den as int,
        ;
        q as i128
    } else {
        let num: u128 = ((-d) as u128) * SCALE;
        let q: u128 = num / den;
        assert(q <= num) by (nonlinear_arith)
            requires
                den >= 1,
                num >= 0,
                q == num as int / den as int,
        ;
        -(q as i128)
    }
}

} // verus!
