//! The corpus store: documents and chunks keyed by identifier.
//!
//! Each operation takes the store by reference, so it runs alone on it; a
//! caller that shares a store between threads puts it behind a lock. Storing
//! a document and then its chunks are two operations, and a reader between
//! them sees the document without its chunks.
use vstd::prelude::*;
use vstd::utf8::encode_utf8;
use crate::chunking::DocumentChunk;
use crate::processor::{ProcessedDocument, RagError};

verus! {

#[derive(Debug, Clone, Copy)]
pub struct StorageStats {
    pub total_documents: usize,
    pub total_chunks: usize,
    pub total_size_bytes: usize,
}

pub struct StorageManager {
    documents: Vec<ProcessedDocument>,
    chunks: Vec<DocumentChunk>,
}

/// `new` is `old` with `d` written under its identifier: in place of the
/// document with that identifier if there is one, else appended.
pub open spec fn doc_written(
    old: Seq<ProcessedDocument>,
    new: Seq<ProcessedDocument>,
    d: ProcessedDocument,
) -> bool {
    ||| exists|i: int| 0 <= i < old.len() && #[trigger] old[i].id@ == d.id@ && new == old.update(i, d)
    ||| (forall|i: int| 0 <= i < old.len() ==> #[trigger] old[i].id@ != d.id@) && new == old.push(d)
}

/// `new` is `old` with `c` written under its identifier.
pub open spec fn chunk_written(
    old: Seq<DocumentChunk>,
    new: Seq<DocumentChunk>,
    c: DocumentChunk,
) -> bool {
    ||| exists|i: int| 0 <= i < old.len() && #[trigger] old[i].id@ == c.id@ && new == old.update(i, c)
    ||| (forall|i: int| 0 <= i < old.len() ==> #[trigger] old[i].id@ != c.id@) && new == old.push(c)
}

/// `new` is `old` with the chunks `cs` written one after another, so the
/// last of equal identifiers wins.
pub open spec fn chunks_written(
    old: Seq<DocumentChunk>,
    new: Seq<DocumentChunk>,
    cs: Seq<DocumentChunk>,
) -> bool
    decreases cs.len(),
{
    if cs.len() == 0 {
        new == old
    } else {
        exists|mid: Seq<DocumentChunk>|
            chunks_written(old, mid, cs.drop_last()) && #[trigger] chunk_written(
                mid,
                new,
                cs.last(),
            )
    }
}

pub open spec fn doc_ids_unique(ds: Seq<ProcessedDocument>) -> bool {
    forall|i: int, j: int| 0 <= i < j < ds.len() ==> #[trigger] ds[i].id@ != #[trigger] ds[j].id@
}

pub open spec fn chunk_ids_unique(cs: Seq<DocumentChunk>) -> bool {
    forall|i: int, j: int| 0 <= i < j < cs.len() ==> #[trigger] cs[i].id@ != #[trigger] cs[j].id@
}

/// Byte length of a string with characters `s`, as `str::len` reports it.
pub open spec fn byte_len(s: Seq<char>) -> nat {
    encode_utf8(s).len() as usize as nat
}

/// Total byte length of the documents' contents.
pub open spec fn content_bytes(ds: Seq<ProcessedDocument>) -> nat
    decreases ds.len(),
{
    if ds.len() == 0 {
        0
    } else {
        content_bytes(ds.drop_last()) + byte_len(ds.last().content@)
    }
}

proof fn lemma_doc_written_unique(old: Seq<ProcessedDocument>, new: Seq<ProcessedDocument>, d: ProcessedDocument)
    requires
        doc_ids_unique(old),
        doc_written(old, new, d),
    ensures
        doc_ids_unique(new),
{
    if exists|i: int| 0 <= i < old.len() && #[trigger] old[i].id@ == d.id@ && new == old.update(i, d) {
        let i = choose|i: int| 0 <= i < old.len() && #[trigger] old[i].id@ == d.id@ && new == old.update(i, d);
        assert forall|a: int, b: int| 0 <= a < b < new.len() implies #[trigger] new[a].id@ != #[trigger] new[b].id@ by {
            if a == i {
                assert(old[i].id@ != old[b].id@);
            } else if b == i {
                assert(old[a].id@ != old[i].id@);
            }
        }
    } else {
        assert forall|a: int, b: int| 0 <= a < b < new.len() implies #[trigger] new[a].id@ != #[trigger] new[b].id@ by {
            if b == old.len() {
                assert(old[a].id@ != d.id@);
            }
        }
    }
}

proof fn lemma_chunk_written_unique(old: Seq<DocumentChunk>, new: Seq<DocumentChunk>, c: DocumentChunk)
    requires
        chunk_ids_unique(old),
        chunk_written(old, new, c),
    ensures
        chunk_ids_unique(new),
{
    if exists|i: int| 0 <= i < old.len() && #[trigger] old[i].id@ == c.id@ && new == old.update(i, c) {
        let i = choose|i: int| 0 <= i < old.len() && #[trigger] old[i].id@ == c.id@ && new == old.update(i, c);
        assert forall|a: int, b: int| 0 <= a < b < new.len() implies #[trigger] new[a].id@ != #[trigger] new[b].id@ by {
            if a == i {
                assert(old[i].id@ != old[b].id@);
            } else if b == i {
                assert(old[a].id@ != old[i].id@);
            }
        }
    } else {
        assert forall|a: int, b: int| 0 <= a < b < new.len() implies #[trigger] new[a].id@ != #[trigger] new[b].id@ by {
            if b == old.len() {
                assert(old[a].id@ != c.id@);
            }
        }
    }
}

impl DocumentChunk {
    /// A field-by-field copy.
    pub fn duplicate(&self) -> (r: Self)
        ensures
            r == *self,
    {
        DocumentChunk {
            id: self.id.clone(),
            content: self.content.clone(),
            start_pos: self.start_pos,
            end_pos: self.end_pos,
            word_count: self.word_count,
            document_id: self.document_id.clone(),
        }
    }
}

impl StorageManager {
    /// The stored documents, in the order they were first stored.
    pub closed spec fn docs(&self) -> Seq<ProcessedDocument> {
        self.documents@
    }

    /// The stored chunks, in the order they were first stored.
    pub closed spec fn chunk_list(&self) -> Seq<DocumentChunk> {
        self.chunks@
    }

    /// No two stored documents, and no two stored chunks, share an identifier.
    pub open spec fn wf(&self) -> bool {
        doc_ids_unique(self.docs()) && chunk_ids_unique(self.chunk_list())
    }

    pub fn new() -> (r: Result<Self, RagError>)
        ensures
            r is Ok,
            r->Ok_0.wf(),
            r->Ok_0.docs().len() == 0,
            r->Ok_0.chunk_list().len() == 0,
    {
        Ok(StorageManager { documents: Vec::new(), chunks: Vec::new() })
    }

    /// Stores `document` under its identifier, replacing one stored there,
    /// and returns the identifier.
    pub fn store_document(&mut self, document: ProcessedDocument) -> (r: Result<String, RagError>)
        requires
            old(self).wf(),
        ensures
            final(self).wf(),
            r is Ok,
            r->Ok_0 == document.id,
            doc_written(old(self).docs(), final(self).docs(), document),
            final(self).chunk_list() == old(self).chunk_list(),
    {
        let doc_id = document.id.clone();
        let ghost before = self.documents@;
        let mut i: usize = 0;
        while i < self.documents.len()
            invariant
                self.documents@ == before,
                before == old(self).documents@,
                self.chunks@ == old(self).chunks@,
                chunk_ids_unique(self.chunks@),
                doc_id == document.id,
                doc_ids_unique(before),
                i <= before.len(),
                forall|t: int| 0 <= t < i ==> #[trigger] before[t].id@ != document.id@,
            decreases self.documents.len() - i,
        {
            if self.documents[i].id == document.id {
                assert(before[i as int].id@ == document.id@);
                self.documents.set(i, document);
                proof {
                    lemma_doc_written_unique(before, self.documents@, document);
                }
                return Ok(doc_id);
            }
            i += 1;
        }
        self.documents.push(document);
        proof {
            lemma_doc_written_unique(before, self.documents@, document);
        }
        Ok(doc_id)
    }

    /// Writes one chunk under its identifier.
    fn store_chunk(&mut self, chunk: DocumentChunk)
        requires
            chunk_ids_unique(old(self).chunk_list()),
        ensures
            chunk_ids_unique(final(self).chunk_list()),
            chunk_written(old(self).chunk_list(), final(self).chunk_list(), chunk),
            final(self).docs() == old(self).docs(),
    {
        let ghost before = self.chunks@;
        let mut i: usize = 0;
        while i < self.chunks.len()
            invariant
                self.chunks@ == before,
                before == old(self).chunks@,
                self.documents@ == old(self).documents@,
                chunk_ids_unique(before),
                i <= before.len(),
                forall|t: int| 0 <= t < i ==> #[trigger] before[t].id@ != chunk.id@,
            decreases self.chunks.len() - i,
        {
            if self.chunks[i].id == chunk.id {
                assert(before[i as int].id@ == chunk.id@);
                self.chunks.set(i, chunk);
                proof {
                    lemma_chunk_written_unique(before, self.chunks@, chunk);
                }
                return;
            }
            i += 1;
        }
        self.chunks.push(chunk);
        proof {
            lemma_chunk_written_unique(before, self.chunks@, chunk);
        }
    }

    /// Stores each chunk under its own identifier, in order. The chunks'
    /// document identifiers are not checked against the stored documents.
    pub fn store_chunks(&mut self, _doc_id: String, chunks: Vec<DocumentChunk>) -> (r: Result<
        (),
        RagError,
    >)
        requires
            old(self).wf(),
        ensures
            final(self).wf(),
            r is Ok,
            chunks_written(old(self).chunk_list(), final(self).chunk_list(), chunks@),
            final(self).docs() == old(self).docs(),
    {
        let ghost start = self.chunks@;
        let mut k: usize = 0;
        while k < chunks.len()
            invariant
                k <= chunks.len(),
                self.wf(),
                self.documents@ == old(self).documents@,
                chunks_written(start, self.chunks@, chunks@.take(k as int)),
            decreases chunks.len() - k,
        {
            let ghost mid = self.chunks@;
            let c = chunks[k].duplicate();
            self.store_chunk(c);
            proof {
                let cs = chunks@.take(k + 1);
                assert(cs.drop_last() =~= chunks@.take(k as int));
                assert(chunk_written(mid, self.chunks@, cs.last()));
            }
            k += 1;
        }
        assert(chunks@.take(k as int) =~= chunks@);
        Ok(())
    }

    /// A copy of the document stored under `doc_id`, if any.
    pub fn get_document(&self, doc_id: &str) -> (r: Result<Option<ProcessedDocument>, RagError>)
        ensures
            r is Ok,
            r->Ok_0 is Some <==> exists|i: int|
                0 <= i < self.docs().len() && #[trigger] self.docs()[i].id@ == doc_id@,
            r->Ok_0 is Some ==> exists|i: int|
                0 <= i < self.docs().len() && #[trigger] self.docs()[i] == r->Ok_0->0
                    && self.docs()[i].id@ == doc_id@,
    {
        let key = String::from_str(doc_id);
        let mut i: usize = 0;
        while i < self.documents.len()
            invariant
                i <= self.documents.len(),
                key@ == doc_id@,
                forall|t: int| 0 <= t < i ==> #[trigger] self.documents@[t].id@ != doc_id@,
            decreases self.documents.len() - i,
        {
            if self.documents[i].id == key {
                let d = self.documents[i].duplicate();
                assert(self.docs()[i as int] == d && self.docs()[i as int].id@ == doc_id@);
                return Ok(Some(d));
            }
            i += 1;
        }
        Ok(None)
    }

    /// A copy of every stored chunk.
    pub fn get_all_chunks(&self) -> (r: Result<Vec<DocumentChunk>, RagError>)
        ensures
            r is Ok,
            r->Ok_0@ == self.chunk_list(),
    {
        let mut out: Vec<DocumentChunk> = Vec::new();
        let mut i: usize = 0;
        while i < self.chunks.len()
            invariant
                i <= self.chunks.len(),
                out@ == self.chunks@.take(i as int),
            decreases self.chunks.len() - i,
        {
            out.push(self.chunks[i].duplicate());
            i += 1;
            assert(out@ =~= self.chunks@.take(i as int));
        }
        assert(self.chunks@.take(i as int) =~= self.chunks@);
        Ok(out)
    }

    /// The identifiers of the stored documents.
    pub fn list_documents(&self) -> (r: Result<Vec<String>, RagError>)
        ensures
            r is Ok,
            r->Ok_0.len() == self.docs().len(),
            forall|i: int| 0 <= i < self.docs().len() ==> #[trigger] r->Ok_0@[i] == self.docs()[i].id,
    {
        let mut out: Vec<String> = Vec::new();
        let mut i: usize = 0;
        while i < self.documents.len()
            invariant
                i <= self.documents.len(),
                out.len() == i,
                forall|t: int| 0 <= t < i ==> #[trigger] out@[t] == self.documents@[t].id,
            decreases self.documents.len() - i,
        {
            out.push(self.documents[i].id.clone());
            i += 1;
        }
        Ok(out)
    }

    /// Counts of documents and chunks, and the byte length of all document
    /// contents (held at `usize::MAX` should it exceed that).
    pub fn get_stats(&self) -> (r: Result<StorageStats, RagError>)
        ensures
            r is Ok,
            r->Ok_0.total_documents == self.docs().len(),
            r->Ok_0.total_chunks == self.chunk_list().len(),
            r->Ok_0.total_size_bytes == if content_bytes(self.docs()) <= usize::MAX {
                content_bytes(self.docs())
            } else {
                usize::MAX as nat
            },
    {
        let mut total: usize = 0;
        let mut i: usize = 0;
        while i < self.documents.len()
            invariant
                i <= self.documents.len(),
                total == if content_bytes(self.documents@.take(i as int)) <= usize::MAX {
                    content_bytes(self.documents@.take(i as int))
                } else {
                    usize::MAX as nat
                },
            decreases self.documents.len() - i,
        {
            let b = self.documents[i].content.as_str().len();
            assert(self.documents@.take(i + 1).drop_last() =~= self.documents@.take(i as int));
            total = if total > usize::MAX - b {
                usize::MAX
            } else {
                total + b
            };
            i += 1;
        }
        assert(self.documents@.take(i as int) =~= self.documents@);
        Ok(StorageStats {
            total_documents: self.documents.len(),
            total_chunks: self.chunks.len(),
            total_size_bytes: total,
        })
    }

    /// Removes every document and chunk.
    pub fn clear(&mut self) -> (r: Result<(), RagError>)
        ensures
            final(self).wf(),
            r is Ok,
            final(self).docs().len() == 0,
            final(self).chunk_list().len() == 0,
    {
        self.documents.clear();
        self.chunks.clear();
        Ok(())
    }
}

} // verus!
