//! Exact relevance scores: non-negative fractions compared by cross
//! multiplication.
use vstd::prelude::*;
use vstd::arithmetic::div_mod::lemma_fundamental_div_mod;

verus! {

/// The fraction `num / den`.
#[derive(Debug, Clone, Copy)]
pub struct Score {
    pub num: u128,
    pub den: u128,
}

/// `a` is at least `b`, as fractions.
pub open spec fn ge(a: Score, b: Score) -> bool {
    a.num * b.den >= b.num * a.den
}

/// `a` and `b` are the same fraction.
pub open spec fn same(a: Score, b: Score) -> bool {
    a.num * b.den == b.num * a.den
}

pub proof fn lemma_ge_total(a: Score, b: Score)
    ensures
        ge(a, b) || ge(b, a),
        !ge(a, b) ==> ge(b, a),
{
}

pub proof fn lemma_ge_trans(a: Score, b: Score, c: Score)
    requires
        a.den > 0,
        b.den > 0,
        c.den > 0,
        ge(a, b),
        ge(b, c),
    ensures
        ge(a, c),
{
    let (an, ad, bn, bd, cn, cd) = (
        a.num as int,
        a.den as int,
        b.num as int,
        b.den as int,
        c.num as int,
        c.den as int,
    );
    assert(an * cd >= cn * ad) by (nonlinear_arith)
        requires
            ad > 0,
            bd > 0,
            cd > 0,
            an >= 0,
            bn >= 0,
            cn >= 0,
            an * bd >= bn * ad,
            bn * cd >= cn * bd,
    {
        assert(an * bd * cd >= bn * ad * cd);
        assert(bn * cd * ad >= cn * bd * ad);
        assert(an * cd * bd >= cn * ad * bd);
    }
}

/// Whether `a / b >= c / d`, without forming the products.
fn frac_ge(a: u128, b: u128, c: u128, d: u128) -> (r: bool)
    requires
        b > 0,
        d > 0,
    ensures
        r == (a * d >= c * b),
    decreases b + d,
{
    let qa = a / b;
    let qc = c / d;
    let ra = a % b;
    let rc = c % d;
    proof {
        lemma_fundamental_div_mod(a as int, b as int);
        lemma_fundamental_div_mod(c as int, d as int);
    }
    let ghost ai = a as int;
    let ghost bi = b as int;
    let ghost ci = c as int;
    let ghost di = d as int;
    let ghost qai = qa as int;
    let ghost qci = qc as int;
    let ghost rai = ra as int;
    let ghost rci = rc as int;
    if qa > qc {
        assert(ai * di >= ci * bi) by (nonlinear_arith)
            requires
                ai == bi * qai + rai,
                ci == di * qci + rci,
                0 <= rai < bi,
                0 <= rci < di,
                qai >= qci + 1,
                qci >= 0,
        {
            assert(ai * di >= bi * (qci + 1) * di);
            assert(ci * bi < di * (qci + 1) * bi);
        }
        return true;
    }
    if qa < qc {
        assert(ai * di < ci * bi) by (nonlinear_arith)
            requires
                ai == bi * qai + rai,
                ci == di * qci + rci,
                0 <= rai < bi,
                0 <= rci < di,
                qci >= qai + 1,
                qai >= 0,
        {
            assert(ci * bi >= di * (qai + 1) * bi);
            assert(ai * di < bi * (qai + 1) * di);
        }
        return false;
    }
    assert(ai * di - ci * bi == rai * di - rci * bi) by (nonlinear_arith)
        requires
            ai == bi * qai + rai,
            ci == di * qci + rci,
            qai == qci,
    ;
    if rc == 0 {
        assert(rai * di >= 0) by (nonlinear_arith)
            requires
                rai >= 0,
                di > 0,
        ;
        return true;
    }
    if ra == 0 {
        assert(rci * bi > 0) by (nonlinear_arith)
            requires
                rci > 0,
                bi > 0,
        ;
        return false;
    }
    frac_ge(d, rc, b, ra)
}

impl Score {
    /// The score zero.
    pub fn zero() -> (r: Score)
        ensures
            r.num == 0,
            r.den == 1,
    {
        Score { num: 0, den: 1 }
    }

    /// Whether this score is at least `other`.
    pub fn at_least(&self, other: &Score) -> (r: bool)
        requires
            self.den > 0,
            other.den > 0,
        ensures
            r == ge(*self, *other),
    {
        frac_ge(self.num, self.den, other.num, other.den)
    }
}

} // verus!
