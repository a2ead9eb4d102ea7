//! The metric kernel: exact integer scoring of vectors under the three
//! metrics, and an exact order on scores.
//!
//! Components are bounded fixed-point integers, so every dot product and
//! squared distance is computed exactly in `i128`. Cosine distances are
//! ordered without ever taking a square root: for a fixed query the order of
//! `1 - d/sqrt(nq*n)` is decided by comparing `d*d*n` terms with a sign
//! analysis. A reported cosine distance uses an integer square root and is
//! the only place a rounded value appears.

use vstd::prelude::*;
use crate::config::{DistanceMetric, COMP_LIMIT, MAX_DIM};

verus! {

/// Largest magnitude a dot product of two in-range vectors can reach:
/// `MAX_DIM * COMP_LIMIT * COMP_LIMIT`.
pub const MAX_DOT_ABS: i128 = 4397778079744;

/// Largest value a squared Euclidean distance of two in-range vectors can
/// reach: `MAX_DIM * (2 * COMP_LIMIT) * (2 * COMP_LIMIT)`.
pub const MAX_SQ_ABS: i128 = 17591112318976;

/// Every component of `s` lies in `[-b, b]`.
pub open spec fn bounded(s: Seq<i32>, b: int) -> bool {
    forall|i: int| 0 <= i < s.len() ==> -b <= #[trigger] s[i] <= b
}

/// The dot product of two equal-length vectors, as an unbounded integer.
pub open spec fn dot_s(a: Seq<i32>, b: Seq<i32>) -> int
    decreases a.len(),
{
    if a.len() == 0 || b.len() == 0 {
        0
    } else {
        dot_s(a.drop_last(), b.drop_last()) + a.last() * b.last()
    }
}

/// The squared Euclidean distance of two equal-length vectors.
pub open spec fn sqd_s(a: Seq<i32>, b: Seq<i32>) -> int
    decreases a.len(),
{
    if a.len() == 0 || b.len() == 0 {
        0
    } else {
        sqd_s(a.drop_last(), b.drop_last()) + (a.last() - b.last()) * (a.last() - b.last())
    }
}

/// A score of one stored vector against one fixed base vector: the exact
/// dot product, the stored vector's squared norm, and the exact squared
/// Euclidean distance.
pub ghost struct KeyS {
    pub dot: int,
    pub nsq: int,
    pub sq: int,
}

/// The score of `v` against the base vector `q`.
pub open spec fn key_s(q: Seq<i32>, v: Seq<i32>) -> KeyS {
    KeyS { dot: dot_s(q, v), nsq: dot_s(v, v), sq: sqd_s(q, v) }
}

/// The ranges that scores of in-range vectors always stay in.
pub open spec fn key_in_range(k: KeyS) -> bool {
    &&& -MAX_DOT_ABS <= k.dot <= MAX_DOT_ABS
    &&& 0 <= k.nsq <= MAX_DOT_ABS
    &&& 0 <= k.sq <= MAX_SQ_ABS
}

/// Under cosine distance with a base vector of squared norm `qn`, the vector
/// scored `(du, nu)` is at least as close as the one scored `(dv, nv)`.
/// A zero norm on either side means a distance of exactly one.
/// Opaque: its case analysis multiplies large terms, which callers of the
/// comparison never need to see.
#[verifier::opaque]
pub open spec fn cos_le(qn: int, du: int, nu: int, dv: int, nv: int) -> bool {
    if qn <= 0 {
        true
    } else if nu <= 0 && nv <= 0 {
        true
    } else if nu <= 0 {
        dv <= 0
    } else if nv <= 0 {
        du >= 0
    } else if du >= 0 && dv < 0 {
        true
    } else if du < 0 && dv >= 0 {
        false
    } else if du >= 0 {
        du * du * nv >= dv * dv * nu
    } else {
        du * du * nv <= dv * dv * nu
    }
}

/// Under metric `m` and a base vector of squared norm `qn`, the vector
/// scored `a` is at least as close to the base as the one scored `b`.
pub open spec fn key_le(m: DistanceMetric, qn: int, a: KeyS, b: KeyS) -> bool {
    match m {
        DistanceMetric::Euclidean => a.sq <= b.sq,
        DistanceMetric::Dot => a.dot >= b.dot,
        DistanceMetric::Cosine => cos_le(qn, a.dot, a.nsq, b.dot, b.nsq),
    }
}

/// Under metric `m`, the stored vector `u` is at least as close to the
/// query `q` as the stored vector `v` is.
pub open spec fn dist_le_s(m: DistanceMetric, q: Seq<i32>, u: Seq<i32>, v: Seq<i32>) -> bool {
    key_le(m, dot_s(q, q), key_s(q, u), key_s(q, v))
}

/// The score order is total: of any two scores, one is at least as close.
pub proof fn lemma_key_le_total(m: DistanceMetric, qn: int, a: KeyS, b: KeyS)
    ensures
        key_le(m, qn, a, b) || key_le(m, qn, b, a),
{
    reveal(cos_le);
}

/// A vector's dot product with itself is non-negative.
pub proof fn lemma_self_dot_nonneg(a: Seq<i32>)
    ensures
        dot_s(a, a) >= 0,
    decreases a.len(),
{
    if a.len() > 0 {
        lemma_self_dot_nonneg(a.drop_last());
        let x = a.last() as int;
        assert(x * x >= 0) by (nonlinear_arith);
    }
}

/// An exactly computed score of one vector against a base vector.
#[derive(Debug, Clone, Copy)]
pub struct ScoreKey {
    pub dot: i128,
    pub nsq: i128,
    pub sq: i128,
}

impl View for ScoreKey {
    type V = KeyS;

    open spec fn view(&self) -> KeyS {
        KeyS { dot: self.dot as int, nsq: self.nsq as int, sq: self.sq as int }
    }
}

/// Computes the exact score of `v` against the base vector `q`.
pub fn score(q: &Vec<i32>, v: &Vec<i32>) -> (k: ScoreKey)
    requires
        q@.len() == v@.len(),
        q@.len() <= MAX_DIM,
        bounded(q@, COMP_LIMIT as int),
        bounded(v@, COMP_LIMIT as int),
    ensures
        k@ == key_s(q@, v@),
        key_in_range(k@),
{
    let n = q.len();
    let mut dot: i128 = 0;
    let mut nsq: i128 = 0;
    let mut sq: i128 = 0;
    let mut i: usize = 0;
    proof {
        assert(q@.take(0) =~= Seq::<i32>::empty());
        assert(v@.take(0) =~= Seq::<i32>::empty());
    }
    while i < n
        invariant
            0 <= i <= n,
            n == q@.len() == v@.len(),
            n <= MAX_DIM,
            bounded(q@, COMP_LIMIT as int),
            bounded(v@, COMP_LIMIT as int),
            dot == dot_s(q@.take(i as int), v@.take(i as int)),
            nsq == dot_s(v@.take(i as int), v@.take(i as int)),
            sq == sqd_s(q@.take(i as int), v@.take(i as int)),
            -(i * (COMP_LIMIT * COMP_LIMIT)) <= dot <= i * (COMP_LIMIT * COMP_LIMIT),
            0 <= nsq <= i * (COMP_LIMIT * COMP_LIMIT),
            0 <= sq <= i * (4 * COMP_LIMIT * COMP_LIMIT),
        decreases n - i,
    {
        let x: i128 = q[i] as i128;
        let y: i128 = v[i] as i128;
        proof {
            let ii = i as int;
            assert(-COMP_LIMIT <= q@[ii] <= COMP_LIMIT);
            assert(-COMP_LIMIT <= v@[ii] <= COMP_LIMIT);
            assert(-(COMP_LIMIT * COMP_LIMIT) <= x * y <= COMP_LIMIT * COMP_LIMIT)
                by (nonlinear_arith)
                requires
                    -COMP_LIMIT <= x <= COMP_LIMIT,
                    -COMP_LIMIT <= y <= COMP_LIMIT;
            assert(0 <= y * y <= COMP_LIMIT * COMP_LIMIT) by (nonlinear_arith)
                requires -COMP_LIMIT <= y <= COMP_LIMIT;
            assert(0 <= (x - y) * (x - y) <= 4 * (COMP_LIMIT * COMP_LIMIT)) by (nonlinear_arith)
                requires
                    -COMP_LIMIT <= x <= COMP_LIMIT,
                    -COMP_LIMIT <= y <= COMP_LIMIT;
            assert((i + 1) * (COMP_LIMIT * COMP_LIMIT)
                == i * (COMP_LIMIT * COMP_LIMIT) + COMP_LIMIT * COMP_LIMIT) by (nonlinear_arith);
            assert((i + 1) * (4 * COMP_LIMIT * COMP_LIMIT)
                == i * (4 * COMP_LIMIT * COMP_LIMIT) + 4 * (COMP_LIMIT * COMP_LIMIT))
                by (nonlinear_arith);
            assert(MAX_DIM * (COMP_LIMIT * COMP_LIMIT) == MAX_DOT_ABS);
            assert(MAX_DIM * (4 * COMP_LIMIT * COMP_LIMIT) == MAX_SQ_ABS);
            assert(i + 1 <= MAX_DIM);
            assert((i + 1) * (COMP_LIMIT * COMP_LIMIT) <= MAX_DIM * (COMP_LIMIT * COMP_LIMIT))
                by (nonlinear_arith)
                requires i + 1 <= MAX_DIM;
            assert((i + 1) * (4 * COMP_LIMIT * COMP_LIMIT)
                <= MAX_DIM * (4 * COMP_LIMIT * COMP_LIMIT)) by (nonlinear_arith)
                requires i + 1 <= MAX_DIM;
        }
        let d = x - y;
        dot = dot + x * y;
        nsq = nsq + y * y;
        sq = sq + d * d;
        proof {
            let ii = i as int;
            assert(q@.take(ii + 1).drop_last() =~= q@.take(ii));
            assert(v@.take(ii + 1).drop_last() =~= v@.take(ii));
            assert(q@.take(ii + 1).last() == q@[ii]);
            assert(v@.take(ii + 1).last() == v@[ii]);
        }
        i = i + 1;
    }
    proof {
        assert(q@.take(n as int) =~= q@);
        assert(v@.take(n as int) =~= v@);
        assert(n * (COMP_LIMIT * COMP_LIMIT) <= MAX_DOT_ABS) by (nonlinear_arith)
            requires n <= MAX_DIM;
        assert(n * (4 * COMP_LIMIT * COMP_LIMIT) <= MAX_SQ_ABS) by (nonlinear_arith)
            requires n <= MAX_DIM;
    }
    ScoreKey { dot, nsq, sq }
}

/// Decides the exact score order of `a` and `b` against a base vector of
/// squared norm `qn`, without rounding.
pub fn key_le_exec(m: DistanceMetric, qn: i128, a: &ScoreKey, b: &ScoreKey) -> (r: bool)
    requires
        key_in_range(a@),
        key_in_range(b@),
        0 <= qn <= MAX_DOT_ABS,
    ensures
        r == key_le(m, qn as int, a@, b@),
{
    proof {
        reveal(cos_le);
    }
    match m {
        DistanceMetric::Euclidean => a.sq <= b.sq,
        DistanceMetric::Dot => a.dot >= b.dot,
        DistanceMetric::Cosine => {
            if qn <= 0 {
                true
            } else if a.nsq <= 0 && b.nsq <= 0 {
                true
            } else if a.nsq <= 0 {
                b.dot <= 0
            } else if b.nsq <= 0 {
                a.dot >= 0
            } else if a.dot >= 0 && b.dot < 0 {
                true
            } else if a.dot < 0 && b.dot >= 0 {
                false
            } else {
                proof {
                    assert(
                        0 <= a.dot * a.dot <= MAX_DOT_ABS * MAX_DOT_ABS
                        && 0 <= (a.dot * a.dot) * b.nsq
                            <= (MAX_DOT_ABS * MAX_DOT_ABS) * MAX_DOT_ABS
                    ) by (nonlinear_arith)
                        requires
                            -MAX_DOT_ABS <= a.dot <= MAX_DOT_ABS,
                            0 <= b.nsq <= MAX_DOT_ABS;
                    assert(
                        0 <= b.dot * b.dot <= MAX_DOT_ABS * MAX_DOT_ABS
                        && 0 <= (b.dot * b.dot) * a.nsq
                            <= (MAX_DOT_ABS * MAX_DOT_ABS) * MAX_DOT_ABS
                    ) by (nonlinear_arith)
                        requires
                            -MAX_DOT_ABS <= b.dot <= MAX_DOT_ABS,
                            0 <= a.nsq <= MAX_DOT_ABS;
                }
                let lhs = a.dot * a.dot * b.nsq;
                let rhs = b.dot * b.dot * a.nsq;
                if a.dot >= 0 {
                    lhs >= rhs
                } else {
                    lhs <= rhs
                }
            }
        },
    }
}

/// `r` is the integer square root of `x`.
pub open spec fn is_isqrt(r: int, x: int) -> bool {
    &&& 0 <= r
    &&& r * r <= x
    &&& x < (r + 1) * (r + 1)
}

/// The floor of the square root, by binary search.
pub fn isqrt(x: i128) -> (r: i128)
    requires
        0 <= x <= MAX_DOT_ABS * MAX_DOT_ABS,
    ensures
        is_isqrt(r as int, x as int),
{
    let mut lo: i128 = 0;
    let mut hi: i128 = MAX_DOT_ABS + 1;
    proof {
        assert(MAX_DOT_ABS * MAX_DOT_ABS < (MAX_DOT_ABS + 1) * (MAX_DOT_ABS + 1))
            by (nonlinear_arith);
    }
    while lo + 1 < hi
        invariant
            0 <= lo < hi <= MAX_DOT_ABS + 1,
            lo * lo <= x,
            x < hi * hi,
        decreases hi - lo,
    {
        let mid = lo + (hi - lo) / 2;
        proof {
            assert(lo < mid < hi);
            assert(0 <= mid * mid && mid * mid <= i128::MAX) by (nonlinear_arith)
                requires 0 < mid <= MAX_DOT_ABS + 1;
        }
        if mid * mid <= x {
            lo = mid;
        } else {
            hi = mid;
        }
    }
    lo
}

/// A distance value as reported to callers: the rational `num / den`.
/// Euclidean distances are reported squared and exactly; Dot distances
/// exactly. A cosine distance is rounded: its denominator is the floor
/// square root of the norm product, so two reported cosine values may tie,
/// or order differently from the exact comparison, when norms are tiny.
/// The order of returned hits is always decided by the exact comparison,
/// never by these reported values.
#[derive(Debug, Clone, Copy, PartialEq, Eq, Structural)]
pub struct Distance {
    pub num: i128,
    pub den: i128,
}

/// How a reported distance relates to the score it was computed from:
/// exactly the squared distance for Euclidean, exactly the negated dot
/// product for Dot, and `(s - dot) / s` with `s = isqrt(qn * nsq)` for
/// Cosine, one when either norm is zero.
pub open spec fn distance_from_key(m: DistanceMetric, qn: int, k: KeyS, d: Distance) -> bool {
    match m {
        DistanceMetric::Euclidean => d.num == k.sq && d.den == 1,
        DistanceMetric::Dot => d.num == -k.dot && d.den == 1,
        DistanceMetric::Cosine => {
            if qn <= 0 || k.nsq <= 0 {
                d.num == 1 && d.den == 1
            } else {
                &&& 1 <= d.den
                &&& is_isqrt(d.den as int, qn * k.nsq)
                &&& d.num == d.den - k.dot
            }
        },
    }
}

/// Turns a score into the distance value reported to callers.
pub fn report_distance(m: DistanceMetric, qn: i128, k: &ScoreKey) -> (d: Distance)
    requires
        key_in_range(k@),
        0 <= qn <= MAX_DOT_ABS,
    ensures
        distance_from_key(m, qn as int, k@, d),
{
    match m {
        DistanceMetric::Euclidean => Distance { num: k.sq, den: 1 },
        DistanceMetric::Dot => Distance { num: -k.dot, den: 1 },
        DistanceMetric::Cosine => {
            if qn <= 0 || k.nsq <= 0 {
                Distance { num: 1, den: 1 }
            } else {
                proof {
                    assert(0 <= qn * k.nsq <= MAX_DOT_ABS * MAX_DOT_ABS) by (nonlinear_arith)
                        requires
                            0 < qn <= MAX_DOT_ABS,
                            0 < k.nsq <= MAX_DOT_ABS;
                }
                let s = isqrt(qn * k.nsq);
                proof {
                    assert(1 <= qn * k.nsq) by (nonlinear_arith)
                        requires 0 < qn, 0 < k.nsq;
                    if s < 1 {
                        assert((s + 1) * (s + 1) <= 1) by (nonlinear_arith)
                            requires 0 <= s < 1;
                    }
                    assert(s <= MAX_DOT_ABS) by {
                        if s > MAX_DOT_ABS {
                            assert(s * s > MAX_DOT_ABS * MAX_DOT_ABS) by (nonlinear_arith)
                                requires s > MAX_DOT_ABS >= 0;
                        }
                    }
                }
                Distance { num: s - k.dot, den: s }
            }
        },
    }
}

} // verus!
