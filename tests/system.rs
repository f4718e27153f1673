use rag_system::chunking::{ChunkingEngine, ChunkingStrategy};
use rag_system::processor::DocumentProcessor;
use rag_system::search::SearchEngine;
use rag_system::SimpleRagSystem;

#[test]
fn test_simple_rag_workflow() {
    let test_content = r#"
# Machine Learning Basics

Machine learning is a subset of artificial intelligence that enables computers to learn from data without being explicitly programmed.

## Key Concepts

### Supervised Learning
In supervised learning, we train models on labeled data.

### Unsupervised Learning
Unsupervised learning finds patterns in unlabeled data.

Applications include natural language processing, computer vision, and recommendation systems.
"#;
    let processor = DocumentProcessor::new();
    let document = processor.build_document(
        "doc-1".to_string(),
        test_content.to_string(),
        "/tmp/test_rag.md".to_string(),
        Some("md".to_string()),
        test_content.len(),
    );

    let mut rag = SimpleRagSystem::new().unwrap();
    let doc_id = rag.process_document(document).unwrap();

    let results = rag.search("machine learning", 3).unwrap();
    assert!(!results.is_empty());

    let metrics = rag.evaluate_search("machine learning", &[doc_id]).unwrap();
    let rel = metrics.relevance.unwrap();
    assert!(rel.num as f64 / rel.den as f64 >= 0.0);
    assert!(metrics.precision.num as f64 / metrics.precision.den as f64 >= 0.0);
}

#[test]
fn single_sentence_end_to_end() {
    let text = "Machine learning is a subset of artificial intelligence that enables computers to learn from data.";
    let processor = DocumentProcessor::new();
    let document = processor.build_document("ml".to_string(), text.to_string(), "/x.txt".to_string(), None, text.len());
    let chunks = ChunkingEngine::new().unwrap().chunk_document(&document).unwrap();
    assert_eq!(chunks.len(), 1);
    let all: Vec<&str> = text.split_whitespace().collect();
    let got: Vec<&str> = chunks[0].content.split_whitespace().collect();
    assert_eq!(got, all);
    assert_eq!(chunks[0].word_count, all.len());

    assert_eq!(all.len(), 15);

    let engine = SearchEngine::new().unwrap();
    let s = engine.calculate_similarity("machine learning", &chunks[0].content);
    assert!(s.num > 0);
    assert_eq!(s.num, s.den);

    let short = "Machine learning is a subset of artificial intelligence";
    let t = engine.calculate_similarity("machine learning", short);
    assert!(t.num > 0);
    assert!(t.num < t.den);
    assert_eq!(t.num as f64 / t.den as f64, 0.8);
}

#[test]
fn two_documents_stats() {
    let processor = DocumentProcessor::new();
    let a = "Rust ownership and borrowing.";
    let b = "Gardening tips for spring tomatoes.";
    let mut rag = SimpleRagSystem::new().unwrap();
    rag.process_document(processor.build_document("a".to_string(), a.to_string(), "/a".to_string(), None, a.len()))
        .unwrap();
    rag.process_document(processor.build_document("b".to_string(), b.to_string(), "/b".to_string(), None, b.len()))
        .unwrap();
    let stats = rag.get_stats().unwrap();
    assert_eq!(stats.total_documents, 2);
    assert_eq!(stats.total_size_bytes, a.len() + b.len());
    assert_eq!(stats.total_chunks, 2);
    let mut ids = rag.list_documents().unwrap();
    ids.sort();
    assert_eq!(ids, vec!["a".to_string(), "b".to_string()]);
    assert_eq!(rag.get_document("b").unwrap().unwrap().content, b);

    let hits = rag.search("tomatoes", 5).unwrap();
    assert_eq!(hits[0].document_id, "b");
    assert_eq!(hits[0].chunk_id, "b_0");
}

#[test]
fn paragraph_engine_strategy_is_selectable() {
    let engine = ChunkingEngine::with_strategy(ChunkingStrategy::Paragraph);
    let processor = DocumentProcessor::new();
    let d = processor.build_document("q".to_string(), "one\n\ntwo".to_string(), "/q".to_string(), None, 8);
    let chunks = engine.chunk_document(&d).unwrap();
    assert_eq!(chunks.len(), 2);
    assert_eq!(chunks[1].content, "two");
}
