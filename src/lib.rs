//! Lexical retrieval over plain-text documents: segmentation, an in-memory
//! corpus store, ranking by word overlap, and retrieval-quality metrics.
use vstd::prelude::*;

pub mod chunking;
pub mod evaluation;
pub mod processor;
pub mod score;
pub mod search;
pub mod storage;
pub mod text;

use crate::chunking::{segmentation, ChunkingEngine, DocumentChunk};
use crate::evaluation::{evaluated, EvaluationMetrics, Evaluator};
use crate::processor::{ProcessedDocument, RagError};
use crate::search::{ranked, SearchEngine, SearchResult};
use crate::storage::{chunks_written, content_bytes, doc_written, StorageManager, StorageStats};

verus! {

/// Segmentation, storage, ranking and evaluation behind one interface.
pub struct SimpleRagSystem {
    chunker: ChunkingEngine,
    searcher: SearchEngine,
    storage: StorageManager,
}

impl SimpleRagSystem {
    pub closed spec fn engine(&self) -> ChunkingEngine {
        self.chunker
    }

    pub closed spec fn store(&self) -> StorageManager {
        self.storage
    }

    pub open spec fn wf(&self) -> bool {
        self.engine().wf() && self.store().wf()
    }

    /// A system that cuts 500-word chunks, with an empty store.
    pub fn new() -> (r: Result<Self, RagError>)
        ensures
            r is Ok,
            r->Ok_0.wf(),
            r->Ok_0.engine().spec_strategy() == (crate::chunking::ChunkingStrategy::FixedSize {
                size: 500,
            }),
            r->Ok_0.store().docs().len() == 0,
            r->Ok_0.store().chunk_list().len() == 0,
    {
        let chunker = match ChunkingEngine::new() {
            Ok(c) => c,
            Err(e) => return Err(e),
        };
        let searcher = match SearchEngine::new() {
            Ok(s) => s,
            Err(e) => return Err(e),
        };
        let storage = match StorageManager::new() {
            Ok(s) => s,
            Err(e) => return Err(e),
        };
        Ok(SimpleRagSystem { chunker, searcher, storage })
    }

    /// Segments `document`, stores it, then stores its chunks, and returns
    /// its identifier.
    pub fn process_document(&mut self, document: ProcessedDocument) -> (r: Result<String, RagError>)
        requires
            old(self).wf(),
        ensures
            final(self).wf(),
            r is Ok,
            r->Ok_0 == document.id,
            final(self).engine() == old(self).engine(),
            doc_written(old(self).store().docs(), final(self).store().docs(), document),
            exists|chunks: Seq<DocumentChunk>|
                segmentation(
                    old(self).engine().spec_strategy(),
                    chunks,
                    document.id@,
                    document.content@,
                ) && chunks_written(
                    old(self).store().chunk_list(),
                    final(self).store().chunk_list(),
                    chunks,
                ),
    {
        let ghost doc = document;
        let chunks = match self.chunker.chunk_document(&document) {
            Ok(c) => c,
            Err(e) => return Err(e),
        };
        let doc_id = match self.storage.store_document(document) {
            Ok(id) => id,
            Err(e) => return Err(e),
        };
        let ghost cs = chunks@;
        match self.storage.store_chunks(doc_id.clone(), chunks) {
            Ok(()) => {},
            Err(e) => return Err(e),
        }
        assert(segmentation(old(self).engine().spec_strategy(), cs, doc.id@, doc.content@));
        Ok(doc_id)
    }

    /// The stored chunks ranked for `query`, at most `limit` of them.
    pub fn search(&self, query: &str, limit: usize) -> (r: Result<Vec<SearchResult>, RagError>)
        ensures
            r is Ok,
            ranked(query@, self.store().chunk_list(), limit as nat, r->Ok_0@),
    {
        let all_chunks = match self.storage.get_all_chunks() {
            Ok(c) => c,
            Err(e) => return Err(e),
        };
        self.searcher.search(query, all_chunks.as_slice(), limit)
    }

    /// The metrics of the top five results for `query` against the
    /// documents expected.
    pub fn evaluate_search(&self, query: &str, expected_doc_ids: &[String]) -> (r: Result<
        EvaluationMetrics,
        RagError,
    >)
        ensures
            r is Ok,
            exists|res: Seq<SearchResult>|
                ranked(query@, self.store().chunk_list(), 5, res) && evaluated(
                    res,
                    expected_doc_ids@,
                    r->Ok_0,
                ),
    {
        let results = match self.search(query, 5) {
            Ok(r) => r,
            Err(e) => return Err(e),
        };
        let evaluator = Evaluator::new();
        let m = evaluator.evaluate(results.as_slice(), expected_doc_ids);
        assert(ranked(query@, self.store().chunk_list(), 5, results@));
        m
    }

    /// The identifiers of the stored documents.
    pub fn list_documents(&self) -> (r: Result<Vec<String>, RagError>)
        ensures
            r is Ok,
            r->Ok_0.len() == self.store().docs().len(),
            forall|i: int|
                0 <= i < self.store().docs().len() ==> #[trigger] r->Ok_0@[i]
                    == self.store().docs()[i].id,
    {
        self.storage.list_documents()
    }

    /// A copy of the document stored under `doc_id`, if any.
    pub fn get_document(&self, doc_id: &str) -> (r: Result<Option<ProcessedDocument>, RagError>)
        ensures
            r is Ok,
            r->Ok_0 is Some <==> exists|i: int|
                0 <= i < self.store().docs().len() && #[trigger] self.store().docs()[i].id@
                    == doc_id@,
            r->Ok_0 is Some ==> exists|i: int|
                0 <= i < self.store().docs().len() && #[trigger] self.store().docs()[i]
                    == r->Ok_0->0 && self.store().docs()[i].id@ == doc_id@,
    {
        assert(self.store() == self.storage);
        self.storage.get_document(doc_id)
    }

    /// Counts of stored documents and chunks, and the documents' bytes.
    pub fn get_stats(&self) -> (r: Result<StorageStats, RagError>)
        ensures
            r is Ok,
            r->Ok_0.total_documents == self.store().docs().len(),
            r->Ok_0.total_chunks == self.store().chunk_list().len(),
            r->Ok_0.total_size_bytes == if content_bytes(self.store().docs()) <= usize::MAX {
                content_bytes(self.store().docs())
            } else {
                usize::MAX as nat
            },
    {
        self.storage.get_stats()
    }
}

} // verus!
