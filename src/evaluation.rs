//! Retrieval quality of a ranked result list against the documents expected.
use vstd::prelude::*;
use crate::processor::RagError;
use crate::score::Score;
use crate::search::SearchResult;
use vstd::arithmetic::div_mod::{
    lemma_div_basics, lemma_div_multiples_vanish, lemma_fundamental_div_mod,
};

verus! {

/// Quality of one result list, each metric an exact fraction.
#[derive(Debug, Clone, Copy)]
pub struct EvaluationMetrics {
    /// Mean score of the results capped at one, in lowest terms; `None`
    /// where a partial sum in lowest terms does not fit in 128 bits.
    pub relevance: Option<Score>,
    pub precision: Score,
    pub recall: Score,
    pub f1_score: Score,
}

/// Computes retrieval quality metrics.
pub struct Evaluator;

/// `id` is one of `expected`.
pub open spec fn is_expected(id: Seq<char>, expected: Seq<String>) -> bool {
    exists|j: int| 0 <= j < expected.len() && (#[trigger] expected[j])@ == id
}

/// Number of results whose document is expected.
pub open spec fn relevant_count(results: Seq<SearchResult>, expected: Seq<String>) -> nat
    decreases results.len(),
{
    if results.len() == 0 {
        0
    } else {
        relevant_count(results.drop_last(), expected) + if is_expected(
            results.last().document_id@,
            expected,
        ) {
            1nat
        } else {
            0nat
        }
    }
}

/// The sum of the scores as one fraction over the product of their
/// denominators.
pub open spec fn score_sum(rs: Seq<SearchResult>) -> (int, int)
    decreases rs.len(),
{
    if rs.len() == 0 {
        (0, 1)
    } else {
        let p = score_sum(rs.drop_last());
        let s = rs.last().score;
        (p.0 * s.den + s.num * p.1, p.1 * s.den)
    }
}

/// Greatest common divisor.
pub open spec fn gcd(a: nat, b: nat) -> nat
    decreases b,
{
    if b == 0 {
        a
    } else {
        gcd(b, a % b)
    }
}

/// `n / d` in lowest terms.
pub open spec fn reduce(n: nat, d: nat) -> (nat, nat) {
    (n / gcd(n, d), d / gcd(n, d))
}

/// The running sum of the scores, each partial sum in lowest terms; `None`
/// once a step of it does not fit in 128 bits.
pub open spec fn reduced_sum(rs: Seq<SearchResult>) -> Option<(nat, nat)>
    decreases rs.len(),
{
    if rs.len() == 0 {
        Some((0, 1))
    } else {
        match reduced_sum(rs.drop_last()) {
            None => None,
            Some(p) => {
                let (sn, sd) = (rs.last().score.num as nat, rs.last().score.den as nat);
                if p.0 * sd > u128::MAX || sn * p.1 > u128::MAX || p.0 * sd + sn * p.1
                    > u128::MAX || p.1 * sd > u128::MAX {
                    None
                } else {
                    Some(reduce(p.0 * sd + sn * p.1, p.1 * sd))
                }
            },
        }
    }
}

/// The mean score of `rs`, capped at one, in lowest terms; zero for no
/// scores. `None` where a partial sum in lowest terms, or the mean itself,
/// does not fit in 128 bits.
pub open spec fn mean_capped(rs: Seq<SearchResult>) -> Option<(nat, nat)> {
    let n = rs.len();
    if n == 0 {
        Some((0, 1))
    } else {
        match reduced_sum(rs) {
            None => None,
            Some(p) => {
                if p.0 >= p.1 * n {
                    Some((1, 1))
                } else if p.1 * (n / gcd(p.0, n)) > u128::MAX {
                    None
                } else {
                    Some((p.0 / gcd(p.0, n), p.1 * (n / gcd(p.0, n))))
                }
            },
        }
    }
}

/// `r` is the mean of the scores `rs` capped at one: one where the sum
/// reaches their number, else sum over number, as values.
pub open spec fn is_capped_mean_value(r: Score, rs: Seq<SearchResult>) -> bool {
    let s = score_sum(rs);
    let n = rs.len() as int;
    &&& r.den > 0
    &&& r.num <= r.den
    &&& if n > 0 && s.0 >= s.1 * n {
        r.num == r.den
    } else {
        r.num * (s.1 * n) == s.0 * r.den
    }
}

/// Every score is a fraction with a positive denominator.
pub open spec fn scores_valid(rs: Seq<SearchResult>) -> bool {
    forall|i: int| 0 <= i < rs.len() ==> (#[trigger] rs[i]).score.den > 0
}

/// `s` is the fraction `m` holds.
pub open spec fn is_mean(s: Score, m: Option<(nat, nat)>) -> bool {
    match m {
        Some(p) => s.num == p.0 && s.den == p.1,
        None => false,
    }
}

/// The fraction `n / d`.
pub open spec fn is_frac(s: Score, n: int, d: int) -> bool {
    s.num == n && s.den == d
}

/// The greatest common divisor of two numbers, not both zero, is positive
/// and divides both.
proof fn lemma_gcd_divides(a: nat, b: nat)
    requires
        a > 0 || b > 0,
    ensures
        gcd(a, b) > 0,
        (a / gcd(a, b)) * gcd(a, b) == a,
        (b / gcd(a, b)) * gcd(a, b) == b,
    decreases b,
{
    if b == 0 {
        lemma_div_basics(a as int);
    } else {
        let r = a % b;
        lemma_gcd_divides(b, r);
        let g = gcd(b, r);
        lemma_fundamental_div_mod(a as int, b as int);
        let k = (b / g) * (a / b) + r / g;
        assert(a == g * k) by (nonlinear_arith)
            requires
                a == b * (a / b) + r,
                (b / g) * g == b,
                (r / g) * g == r,
                k == (b / g) * (a / b) + r / g,
        ;
        lemma_div_multiples_vanish(k as int, g as int);
        assert(gcd(a, b) == g);
        assert(a / g == k);
        assert(k * g == a) by (nonlinear_arith)
            requires
                a == g * k,
        ;
    }
}

proof fn lemma_cancel(x: int, y: int, g: int)
    requires
        g > 0,
        x * g == y * g,
    ensures
        x == y,
{
    assert(x == y) by (nonlinear_arith)
        requires
            g > 0,
            x * g == y * g,
    ;
}

fn gcd_u128(a: u128, b: u128) -> (r: u128)
    ensures
        r == gcd(a as nat, b as nat),
    decreases b,
{
    if b == 0 {
        a
    } else {
        gcd_u128(b, a % b)
    }
}

/// The running sum in lowest terms, where it fits, has the value of the
/// plain sum.
pub open spec fn reduced_agrees(rs: Seq<SearchResult>) -> bool {
    match reduced_sum(rs) {
        Some(p) => p.1 > 0 && p.0 * score_sum(rs).1 == score_sum(rs).0 * p.1,
        None => true,
    }
}

/// A partial sum in lowest terms has the value of the plain sum.
proof fn lemma_reduced_sum_value(rs: Seq<SearchResult>)
    requires
        scores_valid(rs),
    ensures
        score_sum(rs).0 >= 0,
        score_sum(rs).1 > 0,
        reduced_agrees(rs),
    decreases rs.len(),
{
    if rs.len() > 0 {
        let front = rs.drop_last();
        assert forall|i: int| 0 <= i < front.len() implies (#[trigger] front[i]).score.den > 0 by {
            assert(front[i] == rs[i]);
        }
        lemma_reduced_sum_value(front);
        assert(rs[rs.len() - 1].score.den > 0);
        let s0 = score_sum(front).0;
        let s1 = score_sum(front).1;
        let sn = rs.last().score.num as int;
        let sd = rs.last().score.den as int;
        assert(s0 * sd + sn * s1 >= 0 && s1 * sd > 0) by (nonlinear_arith)
            requires
                s0 >= 0,
                s1 > 0,
                sd > 0,
                sn >= 0,
        ;
        if reduced_sum(rs) is Some {
            assert(reduced_sum(front) is Some);
            assert(reduced_agrees(front));
            let p = reduced_sum(front)->0;
            assert(p.1 > 0);
            let (a, b) = (p.0 as int, p.1 as int);
            let n = a * sd + sn * b;
            let d = b * sd;
            assert(d > 0) by (nonlinear_arith)
                requires
                    d == b * sd,
                    b > 0,
                    sd > 0,
            ;
            assert(n >= 0) by (nonlinear_arith)
                requires
                    n == a * sd + sn * b,
                    a >= 0,
                    b > 0,
                    sd > 0,
                    sn >= 0,
            ;
            lemma_gcd_divides(n as nat, d as nat);
            let g = gcd(n as nat, d as nat) as int;
            let n2 = n / g;
            let d2 = d / g;
            let big = s0 * sd + sn * s1;
            assert(n * (s1 * sd) == big * d) by (nonlinear_arith)
                requires
                    a * s1 == s0 * b,
                    n == a * sd + sn * b,
                    d == b * sd,
                    big == s0 * sd + sn * s1,
            ;
            assert((n2 * (s1 * sd)) * g == (big * d2) * g) by (nonlinear_arith)
                requires
                    n * (s1 * sd) == big * d,
                    n2 * g == n,
                    d2 * g == d,
            ;
            lemma_cancel(n2 * (s1 * sd), big * d2, g);
            assert(d2 > 0) by (nonlinear_arith)
                requires
                    d2 * g == d,
                    d > 0,
                    g > 0,
            ;
        }
    }
}

/// The mean of the scores of `results`, capped at one.
fn relevance(results: &[SearchResult]) -> (r: Option<Score>)
    requires
        scores_valid(results@),
    ensures
        r is None <==> mean_capped(results@) is None,
        r is Some ==> is_mean(r->0, mean_capped(results@)),
        r is Some ==> is_capped_mean_value(r->0, results@),
{
    if results.len() == 0 {
        return Some(Score::zero());
    }
    let mut a: u128 = 0;
    let mut b: u128 = 1;
    let mut i: usize = 0;
    while i < results.len()
        invariant
            i <= results.len(),
            scores_valid(results@),
            b > 0,
            reduced_sum(results@.take(i as int)) == Some((a as nat, b as nat)),
        decreases results.len() - i,
    {
        let s = results[i].score;
        assert(results@.take(i + 1).drop_last() =~= results@.take(i as int));
        assert(results@.take(i + 1).last() == results@[i as int]);
        let x = a.checked_mul(s.den);
        let y = s.num.checked_mul(b);
        let z = b.checked_mul(s.den);
        if x.is_none() || y.is_none() || z.is_none() {
            proof {
                lemma_none_stays(results@, i + 1);
            }
            return None;
        }
        let x = x.unwrap();
        let y = y.unwrap();
        let z = z.unwrap();
        let w = x.checked_add(y);
        if w.is_none() {
            proof {
                lemma_none_stays(results@, i + 1);
            }
            return None;
        }
        let w = w.unwrap();
        proof {
            assert(z > 0 || w > 0 || z == 0);
        }
        proof {
            assert(results@[i as int].score.den > 0);
            assert(b * s.den > 0) by (nonlinear_arith)
                requires
                    b > 0,
                    s.den > 0,
            ;
        }
        let g = gcd_u128(w, z);
        proof {
            lemma_gcd_divides(w as nat, z as nat);
            assert((z / g) > 0) by (nonlinear_arith)
                requires
                    (z / g) * g == z,
                    z > 0,
                    g > 0,
            ;
        }
        a = w / g;
        b = z / g;
        i += 1;
    }
    assert(results@.take(i as int) =~= results@);
    proof {
        lemma_reduced_sum_value(results@);
    }
    let n = results.len() as u128;
    let capped = match b.checked_mul(n) {
        None => false,
        Some(bn) => a >= bn,
    };
    if capped {
        proof {
            let s = score_sum(results@);
            let (ai, bi, ni) = (a as int, b as int, n as int);
            assert(s.0 >= s.1 * ni) by (nonlinear_arith)
                requires
                    ai * s.1 == s.0 * bi,
                    bi > 0,
                    s.1 > 0,
                    ai >= bi * ni,
            {
                assert(ai * s.1 >= bi * ni * s.1);
            }
        }
        return Some(Score { num: 1, den: 1 });
    }
    let g = gcd_u128(a, n);
    proof {
        lemma_gcd_divides(a as nat, n as nat);
    }
    let n2 = n / g;
    match b.checked_mul(n2) {
        None => None,
        Some(d) => {
            let num = a / g;
            proof {
                let s = score_sum(results@);
                let (ai, bi, gi, ni, n2i, numi) = (a as int, b as int, g as int, n as int, n2 as int, num as int);
                assert(numi * (s.1 * ni) == s.0 * (bi * n2i) && numi <= bi * n2i && s.0 < s.1 * ni
                    && bi * n2i > 0) by (nonlinear_arith)
                    requires
                        ai * s.1 == s.0 * bi,
                        bi > 0,
                        s.1 > 0,
                        ai < bi * ni,
                        numi * gi == ai,
                        n2i * gi == ni,
                        gi > 0,
                        ni > 0,
                {
                    assert(n2i > 0);
                    assert((numi * (s.1 * ni)) * gi == (s.0 * (bi * n2i)) * gi);
                    assert(numi * gi <= (bi * n2i) * gi);
                    assert(ai * s.1 < bi * ni * s.1);
                }
            }
            Some(Score { num, den: d })
        },
    }
}

/// Once a partial sum does not fit, the whole sum does not.
proof fn lemma_none_stays(rs: Seq<SearchResult>, k: int)
    requires
        0 <= k <= rs.len(),
        reduced_sum(rs.take(k)) is None,
    ensures
        reduced_sum(rs) is None,
        mean_capped(rs) is None,
    decreases rs.len() - k,
{
    if k < rs.len() {
        assert(rs.take(k + 1).drop_last() =~= rs.take(k));
        lemma_none_stays(rs, k + 1);
    } else {
        assert(rs.take(k) =~= rs);
    }
}

impl Evaluator {
    pub fn new() -> Self {
        Evaluator
    }

    /// Precision and recall of `results` against `expected_doc_ids`: both
    /// one when nothing is expected; precision zero for no results.
    fn calculate_precision_recall(&self, results: &[SearchResult], expected_doc_ids: &[String]) -> (r: (Score, Score))
        ensures
            expected_doc_ids.len() == 0 ==> is_frac(r.0, 1, 1) && is_frac(r.1, 1, 1),
            expected_doc_ids.len() > 0 && results.len() == 0 ==> is_frac(r.0, 0, 1),
            expected_doc_ids.len() > 0 && results.len() > 0 ==> is_frac(
                r.0,
                relevant_count(results@, expected_doc_ids@) as int,
                results.len() as int,
            ),
            expected_doc_ids.len() > 0 ==> is_frac(
                r.1,
                relevant_count(results@, expected_doc_ids@) as int,
                expected_doc_ids.len() as int,
            ),
            relevant_count(results@, expected_doc_ids@) <= results.len(),
    {
        let mut rr: usize = 0;
        let mut i: usize = 0;
        while i < results.len()
            invariant
                i <= results.len(),
                rr == relevant_count(results@.take(i as int), expected_doc_ids@),
                rr <= i,
            decreases results.len() - i,
        {
            assert(results@.take(i + 1).drop_last() =~= results@.take(i as int));
            let mut j: usize = 0;
            let mut found = false;
            while j < expected_doc_ids.len() && !found
                invariant
                    j <= expected_doc_ids.len(),
                    i < results.len(),
                    found ==> is_expected(results@[i as int].document_id@, expected_doc_ids@),
                    !found ==> forall|t: int|
                        0 <= t < j ==> (#[trigger] expected_doc_ids@[t])@
                            != results@[i as int].document_id@,
                decreases expected_doc_ids.len() - j + if found {
                    0int
                } else {
                    1int
                },
            {
                if expected_doc_ids[j] == results[i].document_id {
                    found = true;
                } else {
                    j += 1;
                }
            }
            if found {
                rr += 1;
            }
            i += 1;
        }
        assert(results@.take(i as int) =~= results@);
        if expected_doc_ids.len() == 0 {
            return (Score { num: 1, den: 1 }, Score { num: 1, den: 1 });
        }
        let precision = if results.len() == 0 {
            Score::zero()
        } else {
            Score { num: rr as u128, den: results.len() as u128 }
        };
        (precision, Score { num: rr as u128, den: expected_doc_ids.len() as u128 })
    }

    /// Metrics of `results` against the documents expected: all zero for no
    /// results; otherwise the capped mean score, the share of results from an
    /// expected document (precision), that count over the number expected
    /// (recall), both one when nothing is expected, and their harmonic mean,
    /// zero when both are zero.
    pub fn evaluate(&self, results: &[SearchResult], expected_doc_ids: &[String]) -> (r: Result<
        EvaluationMetrics,
        RagError,
    >)
        requires
            scores_valid(results@),
        ensures
            r is Ok,
            evaluated(results@, expected_doc_ids@, r->Ok_0),
    {
        if results.len() == 0 {
            return Ok(
                EvaluationMetrics {
                    relevance: Some(Score::zero()),
                    precision: Score::zero(),
                    recall: Score::zero(),
                    f1_score: Score::zero(),
                },
            );
        }
        let rel = relevance(results);
        let (precision, recall) = self.calculate_precision_recall(results, expected_doc_ids);
        let f1_score = if precision.num == 0 {
            Score::zero()
        } else {
            let s = Score {
                num: 2 * precision.num,
                den: precision.den + recall.den,
            };
            proof {
                let (a, b, c, d) = (
                    precision.num as int,
                    precision.den as int,
                    recall.num as int,
                    recall.den as int,
                );
                assert(2 * a * (a * d + c * b) == 2 * a * c * (b + d)) by (nonlinear_arith)
                    requires
                        a == c,
                ;
                assert(a * d + c * b > 0) by (nonlinear_arith)
                    requires
                        a == c,
                        a > 0,
                        b > 0,
                        d > 0,
                ;
            }
            s
        };
        Ok(EvaluationMetrics { relevance: rel, precision, recall, f1_score })
    }
}

/// `m` holds the metrics of `results` against `expected`.
pub open spec fn evaluated(results: Seq<SearchResult>, expected: Seq<String>, m: EvaluationMetrics) -> bool {
    let rr = relevant_count(results, expected) as int;
    if results.len() == 0 {
        &&& m.relevance == Some(Score { num: 0, den: 1 })
        &&& is_frac(m.precision, 0, 1)
        &&& is_frac(m.recall, 0, 1)
        &&& is_frac(m.f1_score, 0, 1)
    } else {
        &&& (m.relevance is None <==> mean_capped(results) is None)
        &&& (m.relevance is Some ==> is_mean(m.relevance->0, mean_capped(results))
            && is_capped_mean_value(m.relevance->0, results))
        &&& (expected.len() == 0 ==> is_frac(m.precision, 1, 1) && is_frac(m.recall, 1, 1))
        &&& (expected.len() > 0 ==> is_frac(m.precision, rr, results.len() as int) && is_frac(
            m.recall,
            rr,
            expected.len() as int,
        ))
        &&& f1_of(m.precision, m.recall, m.f1_score)
    }
}

/// `f` is the harmonic mean of precision `p` and recall `r`, `2pr / (p + r)`,
/// or zero where `p + r` is zero.
pub open spec fn f1_of(p: Score, r: Score, f: Score) -> bool {
    let (a, b, c, d) = (p.num as int, p.den as int, r.num as int, r.den as int);
    if a * d + c * b > 0 {
        f.den > 0 && f.num * (a * d + c * b) == 2 * a * c * f.den
    } else {
        is_frac(f, 0, 1)
    }
}

} // verus!
