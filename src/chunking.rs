//! Segmentation of a document into ordered chunks.
use vstd::prelude::*;
use crate::processor::{ProcessedDocument, RagError};
use crate::text::{
    append_chars, chars_of, decimal, decimal_chars, is_blank, is_space_char, is_word, join,
    lemma_words_are_words, lemma_words_of_join, scan_words, split_words, string_of, views, words,
};

verus! {

#[derive(Debug, Clone)]
pub struct DocumentChunk {
    pub id: String,
    pub content: String,
    pub start_pos: usize,
    pub end_pos: usize,
    pub word_count: usize,
    pub document_id: String,
}

#[derive(Debug, Clone, Copy)]
pub enum ChunkingStrategy {
    FixedSize { size: usize },
    Paragraph,
}

pub struct ChunkingEngine {
    strategy: ChunkingStrategy,
}

/// The identifier of the chunk emitted `n`-th from document `doc_id`.
pub open spec fn chunk_id(doc_id: Seq<char>, n: nat) -> Seq<char> {
    doc_id + seq!['_'] + decimal(n)
}

/// Number of chunks of at most `k` words that `n` words make.
pub open spec fn fixed_count(n: nat, k: nat) -> nat
    recommends
        k > 0,
{
    if n == 0 {
        0
    } else {
        ((n - 1) as nat / k + 1) as nat
    }
}

/// Word index at which fixed-size chunk `i` ends.
pub open spec fn fixed_end(n: nat, k: nat, i: nat) -> nat {
    if (i + 1) * k <= n {
        (i + 1) * k
    } else {
        n
    }
}

/// Chunk `i` of a fixed-size segmentation at `k` words of the words `ws` of
/// document `doc_id`.
pub open spec fn is_fixed_chunk(
    c: DocumentChunk,
    doc_id: Seq<char>,
    ws: Seq<Seq<char>>,
    k: nat,
    i: nat,
) -> bool {
    &&& c.start_pos == i * k
    &&& c.end_pos == fixed_end(ws.len(), k, i)
    &&& c.word_count == c.end_pos - c.start_pos
    &&& c.content@ == join(ws.subrange(c.start_pos as int, c.end_pos as int))
    &&& c.id@ == chunk_id(doc_id, i)
    &&& c.document_id@ == doc_id
}

/// The fixed-size segmentation at `k` words of `content`.
pub open spec fn fixed_segmentation(
    chunks: Seq<DocumentChunk>,
    doc_id: Seq<char>,
    content: Seq<char>,
    k: nat,
) -> bool {
    &&& chunks.len() == fixed_count(words(content).len(), k)
    &&& forall|i: int|
        0 <= i < chunks.len() ==> is_fixed_chunk(
            #[trigger] chunks[i],
            doc_id,
            words(content),
            k,
            i as nat,
        )
}

/// Splitting on blank lines, one character at a time: the pieces already
/// closed, and the piece in progress. A piece closes where two line feeds
/// meet, and neither of them belongs to it.
pub open spec fn scan_pieces(s: Seq<char>) -> (Seq<Seq<char>>, Seq<char>)
    decreases s.len(),
{
    if s.len() == 0 {
        (Seq::empty(), Seq::empty())
    } else {
        let prev = scan_pieces(s.drop_last());
        if s.last() == '\n' && prev.1.len() > 0 && prev.1.last() == '\n' {
            (prev.0.push(prev.1.drop_last()), Seq::empty())
        } else {
            (prev.0, prev.1.push(s.last()))
        }
    }
}

/// The pieces of `s` between occurrences of `"\n\n"`, left to right.
pub open spec fn pieces(s: Seq<char>) -> Seq<Seq<char>> {
    scan_pieces(s).0.push(scan_pieces(s).1)
}

/// The pieces joined back with `"\n\n"` between each two.
pub open spec fn join_blank(ps: Seq<Seq<char>>) -> Seq<char>
    decreases ps.len(),
{
    if ps.len() == 0 {
        Seq::empty()
    } else if ps.len() == 1 {
        ps[0]
    } else {
        join_blank(ps.drop_last()) + seq!['\n', '\n'] + ps.last()
    }
}

/// What comes before piece `x` once it is joined after `done`.
pub open spec fn lead(done: Seq<Seq<char>>) -> Seq<char> {
    if done.len() == 0 {
        Seq::empty()
    } else {
        join_blank(done) + seq!['\n', '\n']
    }
}

proof fn lemma_join_blank_push(done: Seq<Seq<char>>, x: Seq<char>)
    ensures
        join_blank(done.push(x)) == lead(done) + x,
{
    assert(done.push(x).drop_last() =~= done);
    if done.len() == 0 {
        assert(Seq::<char>::empty() + x =~= x);
    }
}

proof fn lemma_scan_pieces_join(s: Seq<char>)
    ensures
        lead(scan_pieces(s).0) + scan_pieces(s).1 == s,
    decreases s.len(),
{
    if s.len() == 0 {
        assert(lead(Seq::<Seq<char>>::empty()) + Seq::<char>::empty() =~= s);
    } else {
        let t = s.drop_last();
        let c = s.last();
        lemma_scan_pieces_join(t);
        let prev = scan_pieces(t);
        assert(t.push(c) =~= s);
        if c == '\n' && prev.1.len() > 0 && prev.1.last() == '\n' {
            let x = prev.1.drop_last();
            lemma_join_blank_push(prev.0, x);
            assert(prev.1 =~= x.push('\n'));
            assert(lead(prev.0.push(x)) =~= lead(prev.0) + x + seq!['\n', '\n']);
            assert(lead(prev.0.push(x)) + Seq::<char>::empty() =~= s);
        } else {
            assert(lead(prev.0) + prev.1.push(c) =~= s);
        }
    }
}

/// Splitting on blank lines loses nothing: joining the pieces back with
/// `"\n\n"` gives the text again.
pub proof fn lemma_pieces_join(s: Seq<char>)
    ensures
        join_blank(pieces(s)) == s,
{
    lemma_scan_pieces_join(s);
    lemma_join_blank_push(scan_pieces(s).0, scan_pieces(s).1);
}

/// The pieces that hold something besides white space.
pub open spec fn non_blank(ps: Seq<Seq<char>>) -> Seq<Seq<char>>
    decreases ps.len(),
{
    if ps.len() == 0 {
        Seq::empty()
    } else if is_blank(ps.last()) {
        non_blank(ps.drop_last())
    } else {
        non_blank(ps.drop_last()).push(ps.last())
    }
}

/// The paragraphs of `s`: its non-blank pieces between blank lines.
pub open spec fn paragraphs(s: Seq<char>) -> Seq<Seq<char>> {
    non_blank(pieces(s))
}

/// Total number of words in `ps`.
pub open spec fn word_total(ps: Seq<Seq<char>>) -> nat
    decreases ps.len(),
{
    if ps.len() == 0 {
        0
    } else {
        word_total(ps.drop_last()) + words(ps.last()).len()
    }
}

/// Total number of characters in `ps`.
pub open spec fn char_total(ps: Seq<Seq<char>>) -> nat
    decreases ps.len(),
{
    if ps.len() == 0 {
        0
    } else {
        char_total(ps.drop_last()) + ps.last().len()
    }
}

/// Chunk `i` of the paragraph segmentation with paragraphs `ps` of document
/// `doc_id`.
pub open spec fn is_paragraph_chunk(
    c: DocumentChunk,
    doc_id: Seq<char>,
    ps: Seq<Seq<char>>,
    i: int,
) -> bool {
    &&& c.content@ == ps[i]
    &&& c.word_count == words(ps[i]).len()
    &&& c.start_pos == word_total(ps.take(i))
    &&& c.end_pos == c.start_pos + c.word_count
    &&& c.id@ == chunk_id(doc_id, i as nat)
    &&& c.document_id@ == doc_id
}

/// The paragraph segmentation of `content`.
pub open spec fn paragraph_segmentation(
    chunks: Seq<DocumentChunk>,
    doc_id: Seq<char>,
    content: Seq<char>,
) -> bool {
    &&& chunks.len() == paragraphs(content).len()
    &&& forall|i: int|
        0 <= i < chunks.len() ==> is_paragraph_chunk(
            #[trigger] chunks[i],
            doc_id,
            paragraphs(content),
            i,
        )
}

/// The segmentation that `strategy` makes of `content`.
pub open spec fn segmentation(
    strategy: ChunkingStrategy,
    chunks: Seq<DocumentChunk>,
    doc_id: Seq<char>,
    content: Seq<char>,
) -> bool {
    match strategy {
        ChunkingStrategy::FixedSize { size } => fixed_segmentation(
            chunks,
            doc_id,
            content,
            size as nat,
        ),
        ChunkingStrategy::Paragraph => paragraph_segmentation(chunks, doc_id, content),
    }
}

/// A strategy that can run: fixed-size chunks hold at least one word.
pub open spec fn strategy_ok(strategy: ChunkingStrategy) -> bool {
    match strategy {
        ChunkingStrategy::FixedSize { size } => size > 0,
        ChunkingStrategy::Paragraph => true,
    }
}

proof fn lemma_words_len(s: Seq<char>)
    ensures
        words(s).len() <= s.len(),
        scan_words(s).0.len() + scan_words(s).1.len() <= s.len(),
    decreases s.len(),
{
    if s.len() > 0 {
        lemma_words_len(s.drop_last());
    }
}

proof fn lemma_scan_pieces_len(s: Seq<char>)
    ensures
        char_total(scan_pieces(s).0) + scan_pieces(s).1.len() <= s.len(),
        char_total(pieces(s)) <= s.len(),
    decreases s.len(),
{
    if s.len() > 0 {
        lemma_scan_pieces_len(s.drop_last());
        let prev = scan_pieces(s.drop_last());
        if s.last() == '\n' && prev.1.len() > 0 && prev.1.last() == '\n' {
            assert(prev.0.push(prev.1.drop_last()).drop_last() =~= prev.0);
        }
    }
    let st = scan_pieces(s);
    assert(st.0.push(st.1).drop_last() =~= st.0);
}

proof fn lemma_word_total_le(ps: Seq<Seq<char>>)
    ensures
        word_total(ps) <= char_total(ps),
    decreases ps.len(),
{
    if ps.len() > 0 {
        lemma_word_total_le(ps.drop_last());
        lemma_words_len(ps.last());
    }
}

proof fn lemma_non_blank_chars(ps: Seq<Seq<char>>)
    ensures
        char_total(non_blank(ps)) <= char_total(ps),
    decreases ps.len(),
{
    if ps.len() > 0 {
        lemma_non_blank_chars(ps.drop_last());
        if !is_blank(ps.last()) {
            assert(non_blank(ps.drop_last()).push(ps.last()).drop_last() =~= non_blank(
                ps.drop_last(),
            ));
        }
    }
}

proof fn lemma_char_total_prefix(ps: Seq<Seq<char>>, k: int)
    requires
        0 <= k <= ps.len(),
    ensures
        char_total(ps.take(k)) <= char_total(ps),
    decreases ps.len(),
{
    if k < ps.len() {
        assert(ps.drop_last().take(k) =~= ps.take(k));
        lemma_char_total_prefix(ps.drop_last(), k);
    } else {
        assert(ps.take(k) =~= ps);
    }
}

/// Fixed-size segmentation at `k` words loses no word and reorders none:
/// each chunk's content splits back into its run of the document's words,
/// the runs follow one another from the first word to the last, every chunk
/// but the last holds exactly `k` words and the last holds one to `k`; a
/// document without words gives no chunk.
pub proof fn lemma_fixed_segmentation_covers(
    chunks: Seq<DocumentChunk>,
    doc_id: Seq<char>,
    content: Seq<char>,
    k: nat,
)
    requires
        k > 0,
        fixed_segmentation(chunks, doc_id, content, k),
    ensures
        chunks.len() == 0 <==> words(content).len() == 0,
        forall|i: int|
            0 <= i < chunks.len() ==> words((#[trigger] chunks[i]).content@) == words(
                content,
            ).subrange(chunks[i].start_pos as int, chunks[i].end_pos as int),
        chunks.len() > 0 ==> chunks[0].start_pos == 0 && chunks.last().end_pos == words(
            content,
        ).len(),
        forall|i: int|
            0 <= i < chunks.len() - 1 ==> (#[trigger] chunks[i]).end_pos == chunks[i + 1].start_pos
                && chunks[i].word_count == k,
        chunks.len() > 0 ==> 1 <= chunks.last().word_count <= k,
{
    let ws = words(content);
    let n = ws.len();
    lemma_words_are_words(content);
    assert forall|i: int| 0 <= i < chunks.len() implies words((#[trigger] chunks[i]).content@)
        == ws.subrange(chunks[i].start_pos as int, chunks[i].end_pos as int) by {
        let c = chunks[i];
        assert(is_fixed_chunk(c, doc_id, ws, k, i as nat));
        let m = i as nat;
        let cnt = fixed_count(n, k);
        assert(m < cnt);
        assert(m * k <= fixed_end(n, k, m)) by {
            assert(m * k < n) by (nonlinear_arith)
                requires
                    m < (n - 1) as nat / k + 1,
                    n > 0,
                    k > 0,
            ;
            assert((m + 1) * k == m * k + k) by (nonlinear_arith);
        }
        let part = ws.subrange(c.start_pos as int, c.end_pos as int);
        assert forall|t: int| 0 <= t < part.len() implies is_word(#[trigger] part[t]) by {
            assert(part[t] == ws[c.start_pos + t]);
        }
        lemma_words_of_join(part);
    }
    if chunks.len() > 0 {
        let last = (chunks.len() - 1) as nat;
        assert(last == (n - 1) as nat / k);
        assert(0 * k == 0);
        assert(is_fixed_chunk(chunks[0], doc_id, ws, k, 0));
        assert(is_fixed_chunk(chunks[last as int], doc_id, ws, k, last));
        assert(last * k < n && n <= (last + 1) * k) by (nonlinear_arith)
            requires
                last == (n - 1) as nat / k,
                n > 0,
                k > 0,
        ;
        assert((last + 1) * k == last * k + k) by (nonlinear_arith);
    }
    assert forall|i: int| 0 <= i < chunks.len() - 1 implies (#[trigger] chunks[i]).end_pos
        == chunks[i + 1].start_pos && chunks[i].word_count == k by {
        let m = i as nat;
        assert(is_fixed_chunk(chunks[i], doc_id, ws, k, m));
        assert(is_fixed_chunk(chunks[i + 1], doc_id, ws, k, m + 1));
        assert((m + 1) * k <= n) by (nonlinear_arith)
            requires
                m + 1 < (n - 1) as nat / k + 1,
                n > 0,
                k > 0,
        ;
        assert((m + 1) * k == m * k + k) by (nonlinear_arith);
    }
}

proof fn lemma_non_blank_kept(ps: Seq<Seq<char>>)
    ensures
        forall|i: int| 0 <= i < non_blank(ps).len() ==> !is_blank(#[trigger] non_blank(ps)[i]),
    decreases ps.len(),
{
    if ps.len() > 0 {
        lemma_non_blank_kept(ps.drop_last());
        let prev = non_blank(ps.drop_last());
        if !is_blank(ps.last()) {
            assert forall|i: int| 0 <= i < prev.push(ps.last()).len() implies !is_blank(
                #[trigger] prev.push(ps.last())[i],
            ) by {
                if i < prev.len() {
                    assert(prev.push(ps.last())[i] == prev[i]);
                }
            }
        }
    }
}

/// Paragraph segmentation never emits a chunk whose content is only white
/// space.
pub proof fn lemma_paragraph_chunks_not_blank(
    chunks: Seq<DocumentChunk>,
    doc_id: Seq<char>,
    content: Seq<char>,
)
    requires
        paragraph_segmentation(chunks, doc_id, content),
    ensures
        forall|i: int| 0 <= i < chunks.len() ==> !is_blank((#[trigger] chunks[i]).content@),
{
    lemma_non_blank_kept(pieces(content));
    assert forall|i: int| 0 <= i < chunks.len() implies !is_blank((#[trigger] chunks[i]).content@) by {
        assert(is_paragraph_chunk(chunks[i], doc_id, paragraphs(content), i));
    }
}

/// Builds the identifier of the chunk emitted `n`-th from document `doc_id`.
fn make_chunk_id(doc_id: &String, n: usize) -> (r: String)
    ensures
        r@ == chunk_id(doc_id@, n as nat),
{
    let mut v = chars_of(doc_id.as_str());
    v.push('_');
    let d = decimal_chars(n);
    append_chars(&mut v, &d);
    string_of(&v)
}

/// Joins the words `ws[lo..hi]` with single spaces.
fn join_range(ws: &Vec<Vec<char>>, lo: usize, hi: usize) -> (r: Vec<char>)
    requires
        lo <= hi <= ws.len(),
    ensures
        r@ == join(views(ws@).subrange(lo as int, hi as int)),
{
    let mut out: Vec<char> = Vec::new();
    let mut k: usize = lo;
    while k < hi
        invariant
            lo <= k <= hi <= ws.len(),
            out@ == join(views(ws@).subrange(lo as int, k as int)),
        decreases hi - k,
    {
        let ghost before = out@;
        if k > lo {
            out.push(' ');
        }
        append_chars(&mut out, &ws[k]);
        let ghost part = views(ws@).subrange(lo as int, k + 1);
        assert(part.drop_last() =~= views(ws@).subrange(lo as int, k as int));
        if k == lo {
            assert(before =~= Seq::<char>::empty());
            assert(out@ =~= part[0]);
        }
        k += 1;
    }
    out
}

/// Splits `s` into the pieces between occurrences of `"\n\n"`.
fn split_pieces(s: &Vec<char>) -> (r: Vec<Vec<char>>)
    ensures
        views(r@) == pieces(s@),
{
    let mut done: Vec<Vec<char>> = Vec::new();
    let mut cur: Vec<char> = Vec::new();
    let mut i: usize = 0;
    while i < s.len()
        invariant
            i <= s.len(),
            views(done@) == scan_pieces(s@.take(i as int)).0,
            cur@ == scan_pieces(s@.take(i as int)).1,
        decreases s.len() - i,
    {
        let c = s[i];
        assert(s@.take(i + 1).drop_last() =~= s@.take(i as int));
        if c == '\n' && cur.len() > 0 && cur[cur.len() - 1] == '\n' {
            cur.pop();
            let ghost before = done@;
            done.push(cur);
            assert(views(done@) =~= views(before).push(cur@));
            cur = Vec::new();
        } else {
            cur.push(c);
        }
        i += 1;
    }
    assert(s@.take(i as int) =~= s@);
    let ghost before = done@;
    done.push(cur);
    assert(views(done@) =~= views(before).push(cur@));
    done
}

/// Whether every character of `v` is white space.
fn all_space(v: &Vec<char>) -> (r: bool)
    ensures
        r == is_blank(v@),
{
    let mut j: usize = 0;
    while j < v.len()
        invariant
            j <= v.len(),
            forall|t: int| 0 <= t < j ==> crate::text::is_space(#[trigger] v@[t]),
        decreases v.len() - j,
    {
        if !is_space_char(v[j]) {
            return false;
        }
        j += 1;
    }
    true
}

impl ChunkingEngine {
    /// The strategy the engine segments with.
    pub closed spec fn spec_strategy(&self) -> ChunkingStrategy {
        self.strategy
    }

    pub open spec fn wf(&self) -> bool {
        strategy_ok(self.spec_strategy())
    }

    /// An engine that cuts fixed-size chunks of 500 words.
    pub fn new() -> (r: Result<Self, RagError>)
        ensures
            r is Ok,
            r->Ok_0.wf(),
            r->Ok_0.spec_strategy() == (ChunkingStrategy::FixedSize { size: 500 }),
    {
        Ok(ChunkingEngine { strategy: ChunkingStrategy::FixedSize { size: 500 } })
    }

    /// An engine that segments with `strategy`.
    pub fn with_strategy(strategy: ChunkingStrategy) -> (r: Self)
        requires
            strategy_ok(strategy),
        ensures
            r.wf(),
            r.spec_strategy() == strategy,
    {
        ChunkingEngine { strategy }
    }

    /// Splits the document into its chunks, in order.
    pub fn chunk_document(&self, document: &ProcessedDocument) -> (r: Result<
        Vec<DocumentChunk>,
        RagError,
    >)
        requires
            self.wf(),
        ensures
            r is Ok,
            segmentation(self.spec_strategy(), r->Ok_0@, document.id@, document.content@),
    {
        match self.strategy {
            ChunkingStrategy::FixedSize { size } => self.fixed_size_chunking(document, size),
            ChunkingStrategy::Paragraph => self.paragraph_chunking(document),
        }
    }

    /// Cuts the document's words into runs of `chunk_size`, in order.
    pub fn fixed_size_chunking(&self, document: &ProcessedDocument, chunk_size: usize) -> (r: Result<
        Vec<DocumentChunk>,
        RagError,
    >)
        requires
            chunk_size > 0,
        ensures
            r is Ok,
            fixed_segmentation(r->Ok_0@, document.id@, document.content@, chunk_size as nat),
    {
        let chars = chars_of(document.content.as_str());
        let ws = split_words(&chars);
        let ghost wv = words(document.content@);
        let ghost k = chunk_size as nat;
        let n = ws.len();
        let mut chunks: Vec<DocumentChunk> = Vec::new();
        let mut start: usize = 0;
        assert(chunks.len() == 0);
        assert(chunks.len() * k == 0) by (nonlinear_arith)
            requires
                chunks.len() == 0,
        ;
        while start < n
            invariant
                n == ws.len() == wv.len(),
                views(ws@) == wv,
                k == chunk_size > 0,
                start as int == if chunks.len() * k <= n {
                    chunks.len() * k
                } else {
                    n as int
                },
                start < n ==> chunks.len() * k < n,
                chunks.len() == if start == 0 {
                    0
                } else {
                    fixed_count(start as nat, k)
                },
                forall|i: int|
                    0 <= i < chunks.len() ==> is_fixed_chunk(
                        #[trigger] chunks@[i],
                        document.id@,
                        wv,
                        k,
                        i as nat,
                    ),
            decreases n - start,
        {
            let end = if chunk_size >= n - start {
                n
            } else {
                start + chunk_size
            };
            let content_chars = join_range(&ws, start, end);
            let chunk = DocumentChunk {
                id: make_chunk_id(&document.id, chunks.len()),
                content: string_of(&content_chars),
                start_pos: start,
                end_pos: end,
                word_count: end - start,
                document_id: document.id.clone(),
            };
            let ghost m = chunks.len() as nat;
            proof {
                assert(start == m * k);
                assert((m + 1) * k == m * k + k) by (nonlinear_arith);
                if m > 0 {
                    assert(((m * k - 1) as nat / k) == m - 1) by (nonlinear_arith)
                        requires
                            k > 0,
                            m > 0,
                    ;
                }
                if end < n {
                    assert(((end - 1) as nat / k) == m) by (nonlinear_arith)
                        requires
                            end == (m + 1) * k,
                            k > 0,
                    ;
                } else {
                    assert(((n - 1) as nat / k) == m) by (nonlinear_arith)
                        requires
                            m * k < n,
                            n <= (m + 1) * k,
                            k > 0,
                    ;
                }
            }
            chunks.push(chunk);
            start = end;
        }
        Ok(chunks)
    }

    /// One chunk per non-blank paragraph, in order.
    pub fn paragraph_chunking(&self, document: &ProcessedDocument) -> (r: Result<
        Vec<DocumentChunk>,
        RagError,
    >)
        ensures
            r is Ok,
            paragraph_segmentation(r->Ok_0@, document.id@, document.content@),
    {
        let chars = chars_of(document.content.as_str());
        let ps = split_pieces(&chars);
        let ghost pv = pieces(document.content@);
        let mut chunks: Vec<DocumentChunk> = Vec::new();
        let mut word_pos: usize = 0;
        let mut j: usize = 0;
        proof {
            lemma_scan_pieces_len(document.content@);
        }
        while j < ps.len()
            invariant
                j <= ps.len(),
                views(ps@) == pv,
                pv == pieces(document.content@),
                char_total(pv) <= chars@.len(),
                chars@ == document.content@,
                chunks.len() == non_blank(pv.take(j as int)).len(),
                word_pos == word_total(non_blank(pv.take(j as int))),
                forall|i: int|
                    0 <= i < chunks.len() ==> is_paragraph_chunk(
                        #[trigger] chunks@[i],
                        document.id@,
                        non_blank(pv.take(j as int)),
                        i,
                    ),
            decreases ps.len() - j,
        {
            let ghost kept = non_blank(pv.take(j as int));
            assert(pv.take(j + 1).drop_last() =~= pv.take(j as int));
            if !all_space(&ps[j]) {
                let wchars = split_words(&ps[j]);
                let wc = wchars.len();
                let ghost next = kept.push(pv[j as int]);
                proof {
                    assert(ps@[j as int]@ == pv[j as int]);
                    assert(non_blank(pv.take(j + 1)) == next);
                    assert(next.drop_last() =~= kept);
                    lemma_word_total_le(next);
                    lemma_non_blank_chars(pv.take(j + 1));
                    lemma_char_total_prefix(pv, j + 1);
                    assert(word_total(next) == word_pos + wc);
                    assert(word_total(next) <= char_total(next));
                    assert(char_total(next) <= char_total(pv.take(j + 1)));
                    assert(char_total(pv.take(j + 1)) <= char_total(pv));
                    assert(chars@.len() == chars.len());
                }
                let chunk = DocumentChunk {
                    id: make_chunk_id(&document.id, chunks.len()),
                    content: string_of(&ps[j]),
                    start_pos: word_pos,
                    end_pos: word_pos + wc,
                    word_count: wc,
                    document_id: document.id.clone(),
                };
                proof {
                    assert(next.take(chunks.len() as int) =~= kept);
                    assert forall|i: int| 0 <= i < chunks.len() implies next.take(i) =~= kept.take(
                        i,
                    ) by {}
                }
                chunks.push(chunk);
                word_pos = word_pos + wc;
            }
            j += 1;
        }
        assert(pv.take(j as int) =~= pv);
        Ok(chunks)
    }
}

} // verus!
