//! Line scores and their ordering.
//!
//! The penalty of a candidate line is the arithmetic mean of its per-sample
//! contributions.  To keep the comparison exact, a score is kept as the pair
//! (sum of contributions, number of samples) and two scores are compared as
//! rationals.  A line with no in-bounds sample is `Degenerate`; it compares
//! below every finite score, mirroring a score of negative infinity.

use vstd::prelude::*;
use vstd::arithmetic::div_mod::lemma_fundamental_div_mod;

verus! {

/// The score of one candidate line.
pub enum Score {
    /// The rasterized line had no in-bounds sample.
    Degenerate,
    /// Mean penalty `sum / len` of a non-empty line.
    Finite { sum: u128, len: usize },
}

/// A finite score always comes from a non-empty line.
pub open spec fn score_wf(s: Score) -> bool {
    match s {
        Score::Degenerate => true,
        Score::Finite { sum, len } => len >= 1,
    }
}

/// Strict "better" ordering on scores: the search minimizes the mean penalty,
/// and a degenerate score sorts below every finite one.
pub open spec fn score_lt(a: Score, b: Score) -> bool {
    match (a, b) {
        (Score::Degenerate, Score::Degenerate) => false,
        (Score::Degenerate, Score::Finite { .. }) => true,
        (Score::Finite { .. }, Score::Degenerate) => false,
        (Score::Finite { sum: s1, len: l1 }, Score::Finite { sum: s2, len: l2 }) => (s1 as int)
            * (l2 as int) < (s2 as int) * (l1 as int),
    }
}

/// Comparing two non-negative rationals `s1/l1 < s2/l2` by cross-multiplying
/// is the same as comparing quotient digits first and remainders second.
proof fn lemma_rational_compare(s1: int, l1: int, s2: int, l2: int, q1: int, r1: int, q2: int, r2: int)
    by (nonlinear_arith)
    requires
        l1 > 0,
        l2 > 0,
        s1 == l1 * q1 + r1,
        s2 == l2 * q2 + r2,
        0 <= r1 < l1,
        0 <= r2 < l2,
    ensures
        (s1 * l2 < s2 * l1) <==> (q1 < q2 || (q1 == q2 && r1 * l2 < r2 * l1)),
{
}

/// `score_lt` never relates a score to itself.
pub proof fn lemma_score_lt_irreflexive(a: Score)
    ensures
        !score_lt(a, a),
{
}

/// `score_lt` is transitive.
pub proof fn lemma_score_lt_trans(a: Score, b: Score, c: Score)
    requires
        score_lt(a, b),
        score_lt(b, c),
        score_wf(a),
        score_wf(b),
        score_wf(c),
    ensures
        score_lt(a, c),
{
    match (a, b, c) {
        (
            Score::Finite { sum: s1, len: l1 },
            Score::Finite { sum: s2, len: l2 },
            Score::Finite { sum: s3, len: l3 },
        ) => {
            assert((s1 as int) * (l3 as int) < (s3 as int) * (l1 as int)) by (nonlinear_arith)
                requires
                    (s1 as int) * (l2 as int) < (s2 as int) * (l1 as int),
                    (s2 as int) * (l3 as int) < (s3 as int) * (l2 as int),
                    l1 >= 1,
                    l2 >= 1,
                    l3 >= 1,
                    s1 >= 0,
                    s2 >= 0,
                    s3 >= 0,
            ;
        },
        _ => {},
    }
}

/// A score below `b` is also below anything not below `b`: with exact
/// rational comparison, `a < b` and `c >= b` give `a < c`.
pub proof fn lemma_score_lt_compat(a: Score, b: Score, c: Score)
    requires
        score_lt(a, b),
        !score_lt(c, b),
        score_wf(a),
        score_wf(b),
        score_wf(c),
    ensures
        score_lt(a, c),
{
    match (a, b, c) {
        (
            Score::Finite { sum: s1, len: l1 },
            Score::Finite { sum: s2, len: l2 },
            Score::Finite { sum: s3, len: l3 },
        ) => {
            assert((s1 as int) * (l3 as int) < (s3 as int) * (l1 as int)) by (nonlinear_arith)
                requires
                    (s1 as int) * (l2 as int) < (s2 as int) * (l1 as int),
                    (s3 as int) * (l2 as int) >= (s2 as int) * (l3 as int),
                    l1 >= 1,
                    l2 >= 1,
                    l3 >= 1,
                    s1 >= 0,
                    s2 >= 0,
                    s3 >= 0,
            ;
        },
        _ => {},
    }
}

impl Score {
    /// Whether this score marks a line with no in-bounds sample.
    pub fn is_degenerate(&self) -> (b: bool)
        ensures
            b == (*self is Degenerate),
    {
        match self {
            Score::Degenerate => true,
            Score::Finite { .. } => false,
        }
    }
}

/// Decides `score_lt(*a, *b)` on machine integers.
pub fn score_is_lt(a: &Score, b: &Score) -> (r: bool)
    requires
        score_wf(*a),
        score_wf(*b),
    ensures
        r == score_lt(*a, *b),
{
    match (a, b) {
        (Score::Degenerate, Score::Degenerate) => false,
        (Score::Degenerate, Score::Finite { .. }) => true,
        (Score::Finite { .. }, Score::Degenerate) => false,
        (Score::Finite { sum: s1, len: l1 }, Score::Finite { sum: s2, len: l2 }) => {
            let n1 = *l1 as u128;
            let n2 = *l2 as u128;
            let q1 = *s1 / n1;
            let r1 = *s1 % n1;
            let q2 = *s2 / n2;
            let r2 = *s2 % n2;
            proof {
                lemma_fundamental_div_mod(*s1 as int, n1 as int);
                lemma_fundamental_div_mod(*s2 as int, n2 as int);
                assert(r1 < n1 && r2 < n2);
                assert(r1 * n2 <= u128::MAX && r2 * n1 <= u128::MAX) by (nonlinear_arith)
                    requires
                        0 <= r1 < n1 <= usize::MAX as u128,
                        0 <= r2 < n2 <= usize::MAX as u128,
                ;
                lemma_rational_compare(
                    *s1 as int,
                    n1 as int,
                    *s2 as int,
                    n2 as int,
                    q1 as int,
                    r1 as int,
                    q2 as int,
                    r2 as int,
                );
            }
            if q1 != q2 {
                q1 < q2
            } else {
                r1 * n2 < r2 * n1
            }
        },
    }
}

} // verus!
