//! Lexical ranking of chunks against a free-text query.
use vstd::prelude::*;
use crate::chunking::DocumentChunk;
use crate::processor::RagError;
use crate::score::{ge, lemma_ge_total, lemma_ge_trans, Score};
use crate::text::{chars_of, split_words, views, words};

verus! {

pub uninterp spec fn lower_of(s: Seq<char>) -> Seq<char>;

/// Relies on `str::to_lowercase`: the lower-case form depends on the
/// characters of the string alone.
#[verifier::external_body]
fn lowercase(s: &str) -> (r: String)
    ensures
        r@ == lower_of(s@),
{
    s.to_lowercase()
}

/// `needle` occurs in `hay` as a contiguous run.
pub open spec fn contains(hay: Seq<char>, needle: Seq<char>) -> bool {
    exists|i: int|
        0 <= i && i + needle.len() <= hay.len() && #[trigger] hay.subrange(i, i + needle.len())
            == needle
}

/// One word occurs inside the other.
pub open spec fn related(a: Seq<char>, b: Seq<char>) -> bool {
    contains(a, b) || contains(b, a)
}

/// Query word `w` is related to some word of `cw`.
pub open spec fn matches_any(w: Seq<char>, cw: Seq<Seq<char>>) -> bool {
    exists|j: int| 0 <= j < cw.len() && related(#[trigger] cw[j], w)
}

/// Number of the words `qw` that are related to some word of `cw`.
pub open spec fn hits(qw: Seq<Seq<char>>, cw: Seq<Seq<char>>) -> nat
    decreases qw.len(),
{
    if qw.len() == 0 {
        0
    } else {
        hits(qw.drop_last(), cw) + if matches_any(qw.last(), cw) {
            1nat
        } else {
            0nat
        }
    }
}

/// Length penalty of a chunk of `n` words, as numerator and denominator.
pub open spec fn penalty(n: nat) -> (nat, nat) {
    if n < 10 {
        (n, 10)
    } else if n > 200 {
        (200, n)
    } else {
        (1, 1)
    }
}

/// The lexical score of `content` for `query`, as numerator and
/// denominator, both already lower-cased: the share of query words found,
/// times the length penalty.
pub open spec fn lexical_score(query: Seq<char>, content: Seq<char>) -> (nat, nat) {
    let qw = words(query);
    let cw = words(content);
    if qw.len() == 0 || cw.len() == 0 {
        (0, 1)
    } else {
        (hits(qw, cw) * penalty(cw.len()).0, qw.len() * penalty(cw.len()).1)
    }
}

/// The lexical score of `content` for `query`, compared without case.
pub open spec fn similarity(query: Seq<char>, content: Seq<char>) -> (nat, nat) {
    lexical_score(lower_of(query), lower_of(content))
}

/// `s` is the score of `content` for `query`.
pub open spec fn scores_as(s: Score, query: Seq<char>, content: Seq<char>) -> bool {
    s.num == similarity(query, content).0 && s.den == similarity(query, content).1
}

/// `ord` lists the indices of `scores` once each, best score first, equal
/// scores in index order.
pub open spec fn is_ranking(ord: Seq<int>, scores: Seq<Score>) -> bool {
    &&& ord.len() == scores.len()
    &&& forall|a: int| 0 <= a < ord.len() ==> 0 <= #[trigger] ord[a] < scores.len()
    &&& forall|a: int, b: int| 0 <= a < b < ord.len() ==> #[trigger] ord[a] != #[trigger] ord[b]
    &&& forall|a: int, b: int|
        0 <= a < b < ord.len() ==> ge(scores[#[trigger] ord[a]], scores[#[trigger] ord[b]])
    &&& forall|a: int, b: int|
        0 <= a < b < ord.len() && ge(scores[ord[b]], scores[ord[a]]) ==> #[trigger] ord[a]
            < #[trigger] ord[b]
}

/// `res` is the ranking of `chunks` for `query`, cut at `limit`: the
/// scores in non-increasing order, each between zero and one, ranks `1..=n`
/// where `n` is the smaller of `limit` and the number of chunks, and each
/// result taken from a distinct chunk, with equal scores in chunk order.
pub open spec fn ranked(
    query: Seq<char>,
    chunks: Seq<DocumentChunk>,
    limit: nat,
    res: Seq<SearchResult>,
) -> bool {
    &&& res.len() == if limit <= chunks.len() {
        limit
    } else {
        chunks.len()
    }
    &&& forall|i: int| 0 <= i < res.len() ==> #[trigger] res[i].rank == i + 1
    &&& forall|i: int, j: int|
        0 <= i < j < res.len() ==> ge(#[trigger] res[i].score, #[trigger] res[j].score)
    &&& forall|i: int|
        0 <= i < res.len() ==> (#[trigger] res[i]).score.den > 0 && res[i].score.num
            <= res[i].score.den
    &&& exists|scores: Seq<Score>, ord: Seq<int>|
        {
            &&& scores.len() == chunks.len()
            &&& forall|t: int|
                0 <= t < chunks.len() ==> scores_as(#[trigger] scores[t], query, chunks[t].content@)
            &&& is_ranking(ord, scores)
            &&& forall|i: int|
                0 <= i < res.len() ==> is_result_for(
                    #[trigger] res[i],
                    chunks[ord[i]],
                    scores[ord[i]],
                    (i + 1) as nat,
                )
        }
}

/// `r` is the result at rank `rank` for chunk `c`, scored by `s`.
pub open spec fn is_result_for(r: SearchResult, c: DocumentChunk, s: Score, rank: nat) -> bool {
    &&& r.chunk_id == c.id
    &&& r.document_id == c.document_id
    &&& r.content == c.content
    &&& r.score == s
    &&& r.rank == rank
}

#[derive(Debug, Clone)]
pub struct SearchResult {
    pub chunk_id: String,
    pub document_id: String,
    pub content: String,
    pub score: Score,
    pub rank: usize,
}

/// Ranks chunks against queries.
pub struct SearchEngine;

proof fn lemma_hits_le(qw: Seq<Seq<char>>, cw: Seq<Seq<char>>)
    ensures
        hits(qw, cw) <= qw.len(),
    decreases qw.len(),
{
    if qw.len() > 0 {
        lemma_hits_le(qw.drop_last(), cw);
    }
}

/// A score lies between zero and one, and its denominator is positive.
pub proof fn lemma_score_bounds(query: Seq<char>, content: Seq<char>)
    ensures
        lexical_score(query, content).1 > 0,
        lexical_score(query, content).0 <= lexical_score(query, content).1,
        similarity(query, content).1 > 0,
        similarity(query, content).0 <= similarity(query, content).1,
{
    lemma_lexical_bounds(query, content);
    lemma_lexical_bounds(lower_of(query), lower_of(content));
}

proof fn lemma_lexical_bounds(query: Seq<char>, content: Seq<char>)
    ensures
        lexical_score(query, content).1 > 0,
        lexical_score(query, content).0 <= lexical_score(query, content).1,
{
    let qw = words(query);
    let cw = words(content);
    if qw.len() > 0 && cw.len() > 0 {
        lemma_hits_le(qw, cw);
        let h = hits(qw, cw) as int;
        let q = qw.len() as int;
        let pn = penalty(cw.len()).0 as int;
        let pd = penalty(cw.len()).1 as int;
        assert(h * pn <= q * pd) by (nonlinear_arith)
            requires
                0 <= h <= q,
                0 <= pn <= pd,
        ;
        assert(q * pd > 0) by (nonlinear_arith)
            requires
                q > 0,
                pd > 0,
        ;
    }
}

/// Whether `needle` occurs in `hay`.
fn contains_chars(hay: &Vec<char>, needle: &Vec<char>) -> (r: bool)
    ensures
        r == contains(hay@, needle@),
{
    let n = needle.len();
    if n > hay.len() {
        return false;
    }
    if n == 0 {
        assert(hay@.subrange(0int, 0int + needle@.len()) =~= needle@);
        return true;
    }
    let last = hay.len() - n;
    let mut i: usize = 0;
    while i <= last
        invariant
            n == needle.len(),
            last + n == hay.len(),
            n > 0,
            forall|t: int| 0 <= t < i ==> #[trigger] hay@.subrange(t, t + n) != needle@,
        decreases last + 1 - i,
    {
        let mut j: usize = 0;
        let mut same = true;
        while j < n && same
            invariant
                i <= last,
                n == needle.len(),
                last + n == hay.len(),
                same ==> forall|t: int| 0 <= t < j ==> hay@[i + t] == needle@[t],
                !same ==> hay@.subrange(i as int, i + n) != needle@,
                j <= n,
            decreases n - j + if same {
                1int
            } else {
                0int
            },
        {
            if hay[i + j] != needle[j] {
                same = false;
                assert(hay@.subrange(i as int, i + n)[j as int] != needle@[j as int]);
            } else {
                j += 1;
            }
        }
        if same {
            assert(hay@.subrange(i as int, i + n) =~= needle@);
            return true;
        }
        i += 1;
    }
    false
}

/// Whether query word `w` is related to some word of `cw`, checking the
/// chunk words in order and stopping at the first related one.
fn find_match(w: &Vec<char>, cw: &Vec<Vec<char>>) -> (r: bool)
    ensures
        r == matches_any(w@, views(cw@)),
{
    let mut j: usize = 0;
    while j < cw.len()
        invariant
            j <= cw.len(),
            forall|t: int| 0 <= t < j ==> !related(#[trigger] views(cw@)[t], w@),
        decreases cw.len() - j,
    {
        if contains_chars(&cw[j], w) || contains_chars(w, &cw[j]) {
            assert(views(cw@)[j as int] == cw@[j as int]@);
            return true;
        }
        j += 1;
    }
    false
}

impl SearchEngine {
    pub fn new() -> (r: Result<Self, RagError>)
        ensures
            r is Ok,
    {
        Ok(SearchEngine)
    }

    /// The lexical score of `content` for `query`, compared without case.
    pub fn calculate_similarity(&self, query: &str, content: &str) -> (r: Score)
        ensures
            scores_as(r, query@, content@),
            r.den > 0,
            r.num <= r.den,
    {
        let ql = lowercase(query);
        let cl = lowercase(content);
        Self::score_lowercased(ql.as_str(), cl.as_str())
    }

    /// The lexical score of `content_lower` for `query_lower`, both already
    /// in lower case.
    pub fn score_lowercased(query_lower: &str, content_lower: &str) -> (r: Score)
        ensures
            r.num == lexical_score(query_lower@, content_lower@).0,
            r.den == lexical_score(query_lower@, content_lower@).1,
            r.den > 0,
            r.num <= r.den,
    {
        proof {
            lemma_lexical_bounds(query_lower@, content_lower@);
        }
        let qchars = chars_of(query_lower);
        let cchars = chars_of(content_lower);
        let qw = split_words(&qchars);
        let cw = split_words(&cchars);
        if qw.len() == 0 || cw.len() == 0 {
            return Score::zero();
        }
        let ghost qv = views(qw@);
        let ghost cv = views(cw@);
        let mut matches: usize = 0;
        let mut k: usize = 0;
        while k < qw.len()
            invariant
                k <= qw.len(),
                qv == views(qw@),
                cv == views(cw@),
                matches == hits(qv.take(k as int), cv),
                matches <= k,
            decreases qw.len() - k,
        {
            assert(qv.take(k + 1).drop_last() =~= qv.take(k as int));
            if find_match(&qw[k], &cw) {
                matches += 1;
            }
            k += 1;
        }
        assert(qv.take(k as int) =~= qv);
        let n = cw.len();
        let (pn, pd): (u128, u128) = if n < 10 {
            (n as u128, 10)
        } else if n > 200 {
            (200, n as u128)
        } else {
            (1, 1)
        };
        assert(matches as u128 * pn <= u64::MAX as u128 * 200) by (nonlinear_arith)
            requires
                matches <= u64::MAX,
                pn <= 200,
        ;
        assert(qw.len() as u128 * pd <= u64::MAX as u128 * u64::MAX as u128) by (nonlinear_arith)
            requires
                qw.len() <= u64::MAX,
                pd <= u64::MAX,
        ;
        Score { num: matches as u128 * pn, den: qw.len() as u128 * pd }
    }

    /// Scores each chunk for `query`, best first; equal scores keep the
    /// order of `chunks`. At most `limit` results, ranked from 1.
    pub fn search(&self, query: &str, chunks: &[DocumentChunk], limit: usize) -> (r: Result<
        Vec<SearchResult>,
        RagError,
    >)
        ensures
            r is Ok,
            ranked(query@, chunks@, limit as nat, r->Ok_0@),
    {
        let mut scores: Vec<Score> = Vec::new();
        let mut t: usize = 0;
        while t < chunks.len()
            invariant
                t <= chunks.len(),
                scores.len() == t,
                forall|u: int|
                    0 <= u < t ==> scores_as(#[trigger] scores@[u], query@, chunks@[u].content@),
                forall|u: int|
                    0 <= u < t ==> (#[trigger] scores@[u]).den > 0 && scores@[u].num <= scores@[u].den,
            decreases chunks.len() - t,
        {
            let s = self.calculate_similarity(query, chunks[t].content.as_str());
            scores.push(s);
            t += 1;
        }
        let ord = rank_order(&scores);
        let n = if limit <= chunks.len() {
            limit
        } else {
            chunks.len()
        };
        let ghost ordi = ord@.map_values(|x: usize| x as int);
        let mut results: Vec<SearchResult> = Vec::new();
        let mut i: usize = 0;
        while i < n
            invariant
                i <= n <= chunks.len() == scores.len() == ord.len(),
                ordi == ord@.map_values(|x: usize| x as int),
                is_ranking(ordi, scores@),
                results.len() == i,
                forall|a: int|
                    0 <= a < i ==> is_result_for(
                        #[trigger] results@[a],
                        chunks@[ordi[a]],
                        scores@[ordi[a]],
                        (a + 1) as nat,
                    ),
            decreases n - i,
        {
            let c = ord[i];
            assert(ordi[i as int] == c as int);
            let res = SearchResult {
                chunk_id: chunks[c].id.clone(),
                document_id: chunks[c].document_id.clone(),
                content: chunks[c].content.clone(),
                score: scores[c],
                rank: i + 1,
            };
            results.push(res);
            i += 1;
        }
        proof {
            assert forall|a: int, b: int| 0 <= a < b < results.len() implies ge(
                #[trigger] results@[a].score,
                #[trigger] results@[b].score,
            ) by {
                assert(ge(scores@[ordi[a]], scores@[ordi[b]]));
            }
            assert forall|a: int| 0 <= a < results.len() implies (#[trigger] results@[a]).score.den
                > 0 && results@[a].score.num <= results@[a].score.den by {
                assert(0 <= ordi[a] < scores.len());
            }
        }
        Ok(results)
    }
}

/// Orders the indices of `scores`, best score first and equal scores in
/// index order (a stable insertion sort).
fn rank_order(scores: &Vec<Score>) -> (r: Vec<usize>)
    requires
        forall|u: int| 0 <= u < scores.len() ==> (#[trigger] scores@[u]).den > 0,
    ensures
        is_ranking(r@.map_values(|x: usize| x as int), scores@),
{
    let ghost sv = scores@;
    let mut ord: Vec<usize> = Vec::new();
    let mut k: usize = 0;
    while k < scores.len()
        invariant
            k <= scores.len(),
            sv == scores@,
            forall|u: int| 0 <= u < sv.len() ==> (#[trigger] sv[u]).den > 0,
            ord.len() == k,
            forall|a: int| 0 <= a < k ==> #[trigger] ord@[a] < k,
            forall|a: int, b: int| 0 <= a < b < k ==> #[trigger] ord@[a] != #[trigger] ord@[b],
            forall|a: int, b: int|
                0 <= a < b < k ==> ge(sv[#[trigger] ord@[a] as int], sv[#[trigger] ord@[b] as int]),
            forall|a: int, b: int|
                0 <= a < b < k && ge(sv[ord@[b] as int], sv[ord@[a] as int]) ==> #[trigger] ord@[a]
                    < #[trigger] ord@[b],
        decreases scores.len() - k,
    {
        let mut p: usize = k;
        while p > 0 && !scores[ord[p - 1]].at_least(&scores[k])
            invariant
                p <= k < scores.len(),
                sv == scores@,
                ord.len() == k,
                forall|u: int| 0 <= u < sv.len() ==> (#[trigger] sv[u]).den > 0,
                forall|a: int| 0 <= a < k ==> #[trigger] ord@[a] < k,
                forall|a: int| p <= a < k ==> !ge(sv[#[trigger] ord@[a] as int], sv[k as int]),
            decreases p,
        {
            p -= 1;
        }
        let ghost old_ord = ord@;
        proof {
            if p > 0 {
                assert forall|a: int| 0 <= a < p implies ge(
                    sv[#[trigger] old_ord[a] as int],
                    sv[k as int],
                ) by {
                    if a < p - 1 {
                        lemma_ge_trans(sv[old_ord[a] as int], sv[old_ord[p - 1] as int], sv[k as int]);
                    }
                }
            }
            assert forall|a: int| p <= a < k implies ge(
                sv[k as int],
                sv[#[trigger] old_ord[a] as int],
            ) by {
                lemma_ge_total(sv[old_ord[a] as int], sv[k as int]);
            }
        }
        ord.insert(p, k);
        proof {
            let nw = ord@;
            assert(nw == old_ord.insert(p as int, k));
            assert forall|a: int| 0 <= a < k + 1 implies #[trigger] nw[a] < k + 1 by {
                if a > p {
                    assert(nw[a] == old_ord[a - 1]);
                }
            }
            assert forall|a: int, b: int| 0 <= a < b < k + 1 implies #[trigger] nw[a]
                != #[trigger] nw[b] by {
                if a < p && b > p {
                    assert(nw[b] == old_ord[b - 1]);
                } else if a > p {
                    assert(nw[a] == old_ord[a - 1] && nw[b] == old_ord[b - 1]);
                }
            }
            assert forall|a: int, b: int| 0 <= a < b < k + 1 implies ge(
                sv[#[trigger] nw[a] as int],
                sv[#[trigger] nw[b] as int],
            ) by {
                if a < p && b > p {
                    assert(nw[b] == old_ord[b - 1]);
                } else if a > p {
                    assert(nw[a] == old_ord[a - 1] && nw[b] == old_ord[b - 1]);
                } else if a == p {
                    assert(nw[b] == old_ord[b - 1]);
                }
            }
            assert forall|a: int, b: int|
                0 <= a < b < k + 1 && ge(sv[nw[b] as int], sv[nw[a] as int]) implies #[trigger] nw[a]
                < #[trigger] nw[b] by {
                if a < p && b > p {
                    assert(nw[b] == old_ord[b - 1]);
                } else if a > p {
                    assert(nw[a] == old_ord[a - 1] && nw[b] == old_ord[b - 1]);
                } else if a == p {
                    assert(nw[b] == old_ord[b - 1]);
                }
            }
        }
        k += 1;
    }
    let ghost ordi = ord@.map_values(|x: usize| x as int);
    assert forall|a: int, b: int| 0 <= a < b < ordi.len() implies #[trigger] ordi[a]
        != #[trigger] ordi[b] by {
        assert(ord@[a] != ord@[b]);
    }
    assert forall|a: int, b: int| 0 <= a < b < ordi.len() implies ge(
        sv[#[trigger] ordi[a]],
        sv[#[trigger] ordi[b]],
    ) by {
        assert(ge(sv[ord@[a] as int], sv[ord@[b] as int]));
    }
    assert forall|a: int, b: int|
        0 <= a < b < ordi.len() && ge(sv[ordi[b]], sv[ordi[a]]) implies #[trigger] ordi[a]
        < #[trigger] ordi[b] by {
        assert(ord@[a] < ord@[b]);
    }
    assert forall|a: int| 0 <= a < ordi.len() implies 0 <= #[trigger] ordi[a] < sv.len() by {
        assert(ord@[a] < k);
    }
    ord
}

} // verus!
