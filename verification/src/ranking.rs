//! Similarity ranking engine: exact integer model of cosine similarity.
//!
//! Cosine similarity of `a` and `b` is `dot(a,b) / (|a|*|b|)`, defined as `0`
//! when either norm is zero. Ranking only ever needs to *compare* similarities
//! and to *test* them against the landmark values `1`, `0` and `-1`, and both
//! can be done exactly in integers: the map `x -> sign(x) * x^2` is strictly
//! monotone, so comparing `sim(q,a)` with `sim(q,b)` is the same as comparing
//! the exact rationals `sign(d_a) * d_a^2 / |a|^2` and `sign(d_b) * d_b^2 / |b|^2`
//! (the common positive factor `|q|^2` cancels). A [`Similarity`] value holds
//! the signed square of the cosine as an exact fraction `num / den`, so
//! similarity `1` is `num == den`, `0` is `num == 0`, and `-1` is `num == -den`.

use vstd::prelude::*;

verus! {

/// Largest vector length the exact arithmetic supports: with `i16` components
/// every intermediate product of the ranking comparison then fits in `i128`.
pub const MAX_DIMENSIONS: usize = 4096;

/// Exact cosine similarity, represented as the signed square of the cosine:
/// `num / den == sign(cos) * cos^2`, with `den >= 1`.
#[derive(Clone, Copy, Debug, PartialEq, Eq, Structural)]
pub struct Similarity {
    pub num: i128,
    pub den: i128,
}

/// Sum of the first `n` pairwise products of `a` and `b`.
pub open spec fn dot_prefix(a: Seq<i16>, b: Seq<i16>, n: int) -> int
    decreases n,
{
    if n <= 0 {
        0
    } else {
        dot_prefix(a, b, n - 1) + a[n - 1] * b[n - 1]
    }
}

/// Dot product over the common prefix of the two vectors.
pub open spec fn dot(a: Seq<i16>, b: Seq<i16>) -> int {
    if a.len() <= b.len() {
        dot_prefix(a, b, a.len() as int)
    } else {
        dot_prefix(a, b, b.len() as int)
    }
}

/// Squared Euclidean norm.
pub open spec fn norm_sq(a: Seq<i16>) -> int {
    dot(a, a)
}

/// Signed square of the dot product: `sign(dot) * dot^2`. For a fixed query
/// this is the numerator of the signed squared cosine.
pub open spec fn sim_num(q: Seq<i16>, v: Seq<i16>) -> int {
    let d = dot(q, v);
    if d >= 0 {
        d * d
    } else {
        -(d * d)
    }
}

/// Denominator of the per-candidate ranking fraction: `|v|^2`, or `1` for the
/// all-zero vector (whose similarity to anything is `0`, and whose numerator
/// is then `0` as well).
pub open spec fn sim_den(v: Seq<i16>) -> int {
    if norm_sq(v) == 0 {
        1
    } else {
        norm_sq(v)
    }
}

/// Denominator of the full signed squared cosine of a pair: `|a|^2 * |b|^2`,
/// or `1` when either norm is zero.
pub open spec fn sim_den_pair(a: Seq<i16>, b: Seq<i16>) -> int {
    if norm_sq(a) * norm_sq(b) == 0 {
        1
    } else {
        norm_sq(a) * norm_sq(b)
    }
}

/// The ranking order: similarity of `a` to the query `q` is at most that of
/// `b`. Comparison of the exact rationals `sim_num/sim_den` by
/// cross-multiplication (denominators are positive).
pub open spec fn score_le(q: Seq<i16>, a: Seq<i16>, b: Seq<i16>) -> bool {
    sim_num(q, a) * sim_den(b) <= sim_num(q, b) * sim_den(a)
}

/// Equal similarity to the query.
pub open spec fn score_eq(q: Seq<i16>, a: Seq<i16>, b: Seq<i16>) -> bool {
    score_le(q, a, b) && score_le(q, b, a)
}

pub proof fn lemma_dot_prefix_bound(a: Seq<i16>, b: Seq<i16>, n: int)
    requires
        0 <= n <= a.len(),
        n <= b.len(),
    ensures
        -n * 0x4000_0000 <= dot_prefix(a, b, n) <= n * 0x4000_0000,
    decreases n,
{
    if n > 0 {
        lemma_dot_prefix_bound(a, b, n - 1);
        let x = a[n - 1];
        let y = b[n - 1];
        assert(-0x4000_0000 <= x * y <= 0x4000_0000) by (nonlinear_arith)
            requires
                -0x8000 <= x <= 0x7fff,
                -0x8000 <= y <= 0x7fff,
        ;
    }
}

pub proof fn lemma_dot_bound(a: Seq<i16>, b: Seq<i16>)
    requires
        a.len() <= MAX_DIMENSIONS,
        b.len() <= MAX_DIMENSIONS,
    ensures
        -0x400_0000_0000 <= dot(a, b) <= 0x400_0000_0000,
{
    if a.len() <= b.len() {
        lemma_dot_prefix_bound(a, b, a.len() as int);
    } else {
        lemma_dot_prefix_bound(a, b, b.len() as int);
    }
}

pub proof fn lemma_dot_prefix_self_nonneg(a: Seq<i16>, n: int)
    requires
        0 <= n <= a.len(),
    ensures
        dot_prefix(a, a, n) >= 0,
    decreases n,
{
    if n > 0 {
        lemma_dot_prefix_self_nonneg(a, n - 1);
        let x = a[n - 1];
        assert(x * x >= 0) by (nonlinear_arith);
    }
}

pub proof fn lemma_norm_sq_nonneg(a: Seq<i16>)
    ensures
        norm_sq(a) >= 0,
{
    lemma_dot_prefix_self_nonneg(a, a.len() as int);
}

pub proof fn lemma_sim_den_pos(v: Seq<i16>)
    ensures
        sim_den(v) >= 1,
{
    lemma_norm_sq_nonneg(v);
}

/// The ranking order is total.
pub proof fn lemma_score_le_total(q: Seq<i16>, a: Seq<i16>, b: Seq<i16>)
    ensures
        score_le(q, a, b) || score_le(q, b, a),
{
}

/// The ranking order is transitive.
pub proof fn lemma_score_le_trans(q: Seq<i16>, a: Seq<i16>, b: Seq<i16>, c: Seq<i16>)
    requires
        score_le(q, a, b),
        score_le(q, b, c),
    ensures
        score_le(q, a, c),
{
    let na = sim_num(q, a);
    let nb = sim_num(q, b);
    let nc = sim_num(q, c);
    let da = sim_den(a);
    let db = sim_den(b);
    let dc = sim_den(c);
    lemma_sim_den_pos(a);
    lemma_sim_den_pos(b);
    lemma_sim_den_pos(c);
    assert(na * db * dc <= nb * da * dc) by (nonlinear_arith)
        requires
            na * db <= nb * da,
            dc >= 1,
    ;
    assert(nb * dc * da <= nc * db * da) by (nonlinear_arith)
        requires
            nb * dc <= nc * db,
            da >= 1,
    ;
    assert(nb * da * dc == nb * dc * da) by (nonlinear_arith);
    assert(na * dc <= nc * da) by (nonlinear_arith)
        requires
            na * db * dc <= nc * db * da,
            db >= 1,
    ;
}

/// A vector compared with itself has similarity one (`num == den`), unless it
/// is all-zero, in which case its similarity is zero (`num == 0`). Stated for
/// any pair of equal vectors.
pub proof fn lemma_identical_similarity(a: Seq<i16>, b: Seq<i16>)
    requires
        a == b,
    ensures
        norm_sq(a) != 0 ==> sim_num(a, b) == sim_den_pair(a, b) && sim_num(a, b) > 0,
        norm_sq(a) == 0 ==> sim_num(a, b) == 0,
{
    let n = norm_sq(a);
    lemma_norm_sq_nonneg(a);
    if n != 0 {
        assert(n * n > 0) by (nonlinear_arith)
            requires
                n >= 1,
        ;
    }
}

proof fn lemma_dot_prefix_self_zero(a: Seq<i16>, n: int)
    requires
        0 <= n <= a.len(),
    ensures
        dot_prefix(a, a, n) == 0 <==> (forall|i: int| 0 <= i < n ==> a[i] == 0),
    decreases n,
{
    if n > 0 {
        lemma_dot_prefix_self_zero(a, n - 1);
        lemma_dot_prefix_self_nonneg(a, n - 1);
        let x = a[n - 1];
        assert(x * x >= 0 && (x * x == 0 <==> x == 0)) by (nonlinear_arith);
    }
}

/// A vector has squared norm zero exactly when it is all-zero; together with
/// [`lemma_identical_similarity`], equal vectors have similarity one unless
/// they are all-zero, in which case their similarity is zero.
pub proof fn lemma_norm_sq_zero_iff_zero_vector(a: Seq<i16>)
    ensures
        norm_sq(a) == 0 <==> (forall|i: int| 0 <= i < a.len() ==> a[i] == 0),
{
    lemma_dot_prefix_self_zero(a, a.len() as int);
}

proof fn lemma_cross_term_bound(a: Seq<i16>, b: Seq<i16>, n: int, x: int, y: int)
    requires
        0 <= n <= a.len(),
        n <= b.len(),
    ensures
        2 * x * y * dot_prefix(a, b, n) <= y * y * dot_prefix(a, a, n) + x * x * dot_prefix(
            b,
            b,
            n,
        ),
    decreases n,
{
    if n == 0 {
        assert(2 * x * y * 0 <= y * y * 0 + x * x * 0) by (nonlinear_arith);
    } else {
        lemma_cross_term_bound(a, b, n - 1, x, y);
        let p = a[n - 1] as int;
        let q = b[n - 1] as int;
        let d0 = dot_prefix(a, b, n - 1);
        let a0 = dot_prefix(a, a, n - 1);
        let b0 = dot_prefix(b, b, n - 1);
        assert((y * p - x * q) * (y * p - x * q) >= 0) by (nonlinear_arith);
        assert(2 * x * y * (p * q) <= y * y * (p * p) + x * x * (q * q)) by (nonlinear_arith)
            requires
                (y * p - x * q) * (y * p - x * q) >= 0,
        ;
        assert(2 * x * y * (d0 + p * q) == 2 * x * y * d0 + 2 * x * y * (p * q))
            by (nonlinear_arith);
        assert(y * y * (a0 + p * p) == y * y * a0 + y * y * (p * p)) by (nonlinear_arith);
        assert(x * x * (b0 + q * q) == x * x * b0 + x * x * (q * q)) by (nonlinear_arith);
    }
}

/// Cauchy–Schwarz over the common prefix: the squared dot product never
/// exceeds the product of the squared norms.
pub proof fn lemma_cauchy_schwarz(a: Seq<i16>, b: Seq<i16>, n: int)
    requires
        0 <= n <= a.len(),
        n <= b.len(),
    ensures
        dot_prefix(a, b, n) * dot_prefix(a, b, n) <= dot_prefix(a, a, n) * dot_prefix(b, b, n),
    decreases n,
{
    if n == 0 {
    } else {
        lemma_cauchy_schwarz(a, b, n - 1);
        lemma_cross_term_bound(a, b, n - 1, a[n - 1] as int, b[n - 1] as int);
        let x = a[n - 1] as int;
        let y = b[n - 1] as int;
        let d0 = dot_prefix(a, b, n - 1);
        let a0 = dot_prefix(a, a, n - 1);
        let b0 = dot_prefix(b, b, n - 1);
        assert((d0 + x * y) * (d0 + x * y) == d0 * d0 + 2 * x * y * d0 + (x * y) * (x * y))
            by (nonlinear_arith);
        assert((a0 + x * x) * (b0 + y * y) == a0 * b0 + y * y * a0 + x * x * b0 + (x * x) * (y
            * y)) by (nonlinear_arith);
        assert((x * y) * (x * y) == (x * x) * (y * y)) by (nonlinear_arith);
        assert((d0 + x * y) * (d0 + x * y) <= (a0 + x * x) * (b0 + y * y));
    }
}

proof fn lemma_prefix_norm_mono(a: Seq<i16>, m: int, n: int)
    requires
        0 <= m <= n <= a.len(),
    ensures
        dot_prefix(a, a, m) <= dot_prefix(a, a, n),
    decreases n,
{
    if m < n {
        lemma_prefix_norm_mono(a, m, n - 1);
        let x = a[n - 1];
        assert(x * x >= 0) by (nonlinear_arith);
    }
}

/// The query itself is a best possible candidate: no vector scores strictly
/// higher against query `q` than `q` does (its own similarity is the maximum
/// value, one, whenever `q` is not all-zero).
pub proof fn lemma_exact_match_score_maximal(q: Seq<i16>, x: Seq<i16>)
    ensures
        score_le(q, x, q),
{
    let m: int = if q.len() <= x.len() {
        q.len() as int
    } else {
        x.len() as int
    };
    let d = dot(q, x);
    let nq = norm_sq(q);
    let nx = norm_sq(x);
    lemma_norm_sq_nonneg(q);
    lemma_norm_sq_nonneg(x);
    lemma_sim_den_pos(q);
    lemma_sim_den_pos(x);
    let dq = sim_den(q);
    let dx = sim_den(x);
    if d <= 0 {
        if d == 0 {
            assert(d * d == 0) by (nonlinear_arith)
                requires
                    d == 0,
            ;
        }
        assert(d * d >= 0) by (nonlinear_arith);
        assert(nq * nq >= 0) by (nonlinear_arith);
        assert(sim_num(q, x) * dq <= 0) by (nonlinear_arith)
            requires
                sim_num(q, x) <= 0,
                dq >= 1,
        ;
        assert(sim_num(q, q) * dx >= 0) by (nonlinear_arith)
            requires
                sim_num(q, q) >= 0,
                dx >= 1,
        ;
    } else {
        lemma_cauchy_schwarz(q, x, m);
        lemma_prefix_norm_mono(q, m, q.len() as int);
        lemma_prefix_norm_mono(x, m, x.len() as int);
        let am = dot_prefix(q, q, m);
        let bm = dot_prefix(x, x, m);
        assert(d * d <= am * bm);
        assert(am <= nq);
        assert(bm <= nx);
        lemma_dot_prefix_self_nonneg(q, m);
        lemma_dot_prefix_self_nonneg(x, m);
        assert(d * d <= nq * nx) by (nonlinear_arith)
            requires
                d * d <= am * bm,
                0 <= am <= nq,
                0 <= bm <= nx,
        ;
        if nq == 0 || nx == 0 {
            assert(nq * nx == 0) by (nonlinear_arith)
                requires
                    nq == 0 || nx == 0,
            ;
            assert(d * d > 0) by (nonlinear_arith)
                requires
                    d > 0,
            ;
        } else {
            assert(sim_num(q, x) == d * d);
            assert(sim_num(q, q) == nq * nq);
            assert(dq == nq);
            assert(dx == nx);
            assert(d * d * nq <= nq * nq * nx) by (nonlinear_arith)
                requires
                    d * d <= nq * nx,
                    nq >= 1,
            ;
        }
    }
}

/// Dot product of the common prefix, as exact `i128` arithmetic.
pub fn dot_i128(a: &Vec<i16>, b: &Vec<i16>) -> (r: i128)
    requires
        a@.len() <= MAX_DIMENSIONS,
        b@.len() <= MAX_DIMENSIONS,
    ensures
        r == dot(a@, b@),
        -0x400_0000_0000 <= r <= 0x400_0000_0000,
{
    let n = if a.len() <= b.len() {
        a.len()
    } else {
        b.len()
    };
    let mut acc: i128 = 0;
    for i in 0..n
        invariant
            n <= a@.len(),
            n <= b@.len(),
            n <= MAX_DIMENSIONS,
            acc == dot_prefix(a@, b@, i as int),
            -(i as int) * 0x4000_0000 <= acc <= (i as int) * 0x4000_0000,
    {
        let x = a[i] as i128;
        let y = b[i] as i128;
        assert(-0x4000_0000 <= x * y <= 0x4000_0000) by (nonlinear_arith)
            requires
                -0x8000 <= x <= 0x7fff,
                -0x8000 <= y <= 0x7fff,
        ;
        acc = acc + x * y;
    }
    proof {
        lemma_dot_bound(a@, b@);
    }
    acc
}

/// Numerator of the per-candidate ranking fraction for query `q`.
fn sim_num_i128(q: &Vec<i16>, v: &Vec<i16>) -> (r: i128)
    requires
        q@.len() <= MAX_DIMENSIONS,
        v@.len() <= MAX_DIMENSIONS,
    ensures
        r == sim_num(q@, v@),
        -0x10_0000_0000_0000_0000_0000 <= r <= 0x10_0000_0000_0000_0000_0000,
{
    let d = dot_i128(q, v);
    assert(-0x10_0000_0000_0000_0000_0000 <= d * d <= 0x10_0000_0000_0000_0000_0000)
        by (nonlinear_arith)
        requires
            -0x400_0000_0000 <= d <= 0x400_0000_0000,
    ;
    if d >= 0 {
        d * d
    } else {
        -(d * d)
    }
}

/// Denominator of the per-candidate ranking fraction.
fn sim_den_i128(v: &Vec<i16>) -> (r: i128)
    requires
        v@.len() <= MAX_DIMENSIONS,
    ensures
        r == sim_den(v@),
        1 <= r <= 0x400_0000_0000,
{
    proof {
        lemma_norm_sq_nonneg(v@);
    }
    let n = dot_i128(v, v);
    if n == 0 {
        1
    } else {
        n
    }
}

/// Decides the ranking order `score_le` exactly.
pub fn score_le_exec(q: &Vec<i16>, a: &Vec<i16>, b: &Vec<i16>) -> (r: bool)
    requires
        q@.len() <= MAX_DIMENSIONS,
        a@.len() <= MAX_DIMENSIONS,
        b@.len() <= MAX_DIMENSIONS,
    ensures
        r == score_le(q@, a@, b@),
{
    let na = sim_num_i128(q, a);
    let nb = sim_num_i128(q, b);
    let da = sim_den_i128(a);
    let db = sim_den_i128(b);
    assert(-0x4000_0000_0000_0000_0000_0000_0000_0000
        <= na * db <= 0x4000_0000_0000_0000_0000_0000_0000_0000) by (nonlinear_arith)
        requires
            -0x10_0000_0000_0000_0000_0000 <= na <= 0x10_0000_0000_0000_0000_0000,
            1 <= db <= 0x400_0000_0000,
    ;
    assert(-0x4000_0000_0000_0000_0000_0000_0000_0000
        <= nb * da <= 0x4000_0000_0000_0000_0000_0000_0000_0000) by (nonlinear_arith)
        requires
            -0x10_0000_0000_0000_0000_0000 <= nb <= 0x10_0000_0000_0000_0000_0000,
            1 <= da <= 0x400_0000_0000,
    ;
    na * db <= nb * da
}

/// Exact cosine similarity of two vectors, as the signed square `num / den`.
pub fn similarity(a: &Vec<i16>, b: &Vec<i16>) -> (r: Similarity)
    requires
        a@.len() <= MAX_DIMENSIONS,
        b@.len() <= MAX_DIMENSIONS,
    ensures
        r.num == sim_num(a@, b@),
        r.den == sim_den_pair(a@, b@),
        r.den >= 1,
{
    proof {
        lemma_norm_sq_nonneg(a@);
        lemma_norm_sq_nonneg(b@);
    }
    let num = sim_num_i128(a, b);
    let na = dot_i128(a, a);
    let nb = dot_i128(b, b);
    assert(0 <= na * nb <= 0x10_0000_0000_0000_0000_0000) by (nonlinear_arith)
        requires
            0 <= na <= 0x400_0000_0000,
            0 <= nb <= 0x400_0000_0000,
    ;
    let den = if na == 0 || nb == 0 {
        assert(na * nb == 0) by (nonlinear_arith)
            requires
                na == 0 || nb == 0,
        ;
        1i128
    } else {
        assert(na * nb != 0) by (nonlinear_arith)
            requires
                na >= 1,
                nb >= 1,
        ;
        na * nb
    };
    Similarity { num, den }
}

} // verus!
