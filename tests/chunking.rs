use rag_system::chunking::{ChunkingEngine, ChunkingStrategy};
use rag_system::processor::{DocumentMetadata, DocumentProcessor, ProcessedDocument};

fn doc(id: &str, content: &str) -> ProcessedDocument {
    ProcessedDocument {
        id: id.to_string(),
        content: content.to_string(),
        metadata: DocumentMetadata {
            file_path: "/test.txt".to_string(),
            file_type: "txt".to_string(),
            file_size: content.len(),
            word_count: content.split_whitespace().count(),
        },
    }
}

#[test]
fn test_chunking_engine_creation() {
    let engine = ChunkingEngine::new();
    assert!(engine.is_ok());
}

#[test]
fn test_fixed_size_chunking() {
    let engine = ChunkingEngine::new().unwrap();
    let document = ProcessedDocument {
        id: "test".to_string(),
        content: "This is a test document with multiple words that should be chunked properly.".to_string(),
        metadata: DocumentMetadata {
            file_path: "/test.txt".to_string(),
            file_type: "txt".to_string(),
            file_size: 100,
            word_count: 15,
        },
    };

    let chunks = engine.chunk_document(&document).unwrap();
    assert!(!chunks.is_empty());
    assert!(chunks[0].word_count <= 500);
}

#[test]
fn fixed_size_chunks_reassemble_words() {
    let engine = ChunkingEngine::with_strategy(ChunkingStrategy::FixedSize { size: 3 });
    let text = "  one two\tthree\nfour   five six seven ";
    let chunks = engine.chunk_document(&doc("d", text)).unwrap();
    assert_eq!(chunks.len(), 3);
    let contents: Vec<&str> = chunks.iter().map(|c| c.content.as_str()).collect();
    assert_eq!(contents, vec!["one two three", "four five six", "seven"]);
    let rejoined: Vec<&str> = chunks.iter().flat_map(|c| c.content.split_whitespace()).collect();
    let source_words: Vec<&str> = text.split_whitespace().collect();
    assert_eq!(rejoined, source_words);
    assert_eq!(chunks[0].word_count, 3);
    assert_eq!(chunks[1].word_count, 3);
    assert_eq!(chunks[2].word_count, 1);
    assert_eq!((chunks[1].start_pos, chunks[1].end_pos), (3, 6));
    assert_eq!((chunks[2].start_pos, chunks[2].end_pos), (6, 7));
    assert_eq!(chunks[0].id, "d_0");
    assert_eq!(chunks[2].id, "d_2");
    assert_eq!(chunks[2].document_id, "d");
}

#[test]
fn fixed_size_exact_multiple() {
    let engine = ChunkingEngine::with_strategy(ChunkingStrategy::FixedSize { size: 2 });
    let chunks = engine.chunk_document(&doc("x", "a b c d")).unwrap();
    assert_eq!(chunks.len(), 2);
    assert_eq!(chunks[1].content, "c d");
    assert_eq!(chunks[1].end_pos, 4);
}

#[test]
fn fixed_size_ids_count_past_nine() {
    let engine = ChunkingEngine::with_strategy(ChunkingStrategy::FixedSize { size: 1 });
    let chunks = engine.chunk_document(&doc("doc", "a b c d e f g h i j k l")).unwrap();
    assert_eq!(chunks.len(), 12);
    assert_eq!(chunks[10].id, "doc_10");
    assert_eq!(chunks[11].id, "doc_11");
    assert_eq!(chunks[11].content, "l");
}

#[test]
fn empty_document_gives_no_chunks() {
    let fixed = ChunkingEngine::new().unwrap();
    assert!(fixed.chunk_document(&doc("e", "")).unwrap().is_empty());
    assert!(fixed.chunk_document(&doc("e", " \n\t ")).unwrap().is_empty());
    let para = ChunkingEngine::with_strategy(ChunkingStrategy::Paragraph);
    assert!(para.chunk_document(&doc("e", "")).unwrap().is_empty());
    assert!(para.chunk_document(&doc("e", "  \n\n \n\n")).unwrap().is_empty());
}

#[test]
fn paragraph_chunking_skips_blank_paragraphs() {
    let engine = ChunkingEngine::with_strategy(ChunkingStrategy::Paragraph);
    let text = "First para here.\n\n   \n\nSecond one\nspans lines.\n\n\nThird";
    let chunks = engine.chunk_document(&doc("p", text)).unwrap();
    assert_eq!(chunks.len(), 3);
    assert_eq!(chunks[0].content, "First para here.");
    assert_eq!(chunks[1].content, "Second one\nspans lines.");
    assert_eq!(chunks[2].content, "\nThird");
    for c in &chunks {
        assert!(!c.content.trim().is_empty());
    }
    assert_eq!((chunks[0].start_pos, chunks[0].end_pos, chunks[0].word_count), (0, 3, 3));
    assert_eq!((chunks[1].start_pos, chunks[1].end_pos, chunks[1].word_count), (3, 7, 4));
    assert_eq!((chunks[2].start_pos, chunks[2].end_pos, chunks[2].word_count), (7, 8, 1));
    assert_eq!(chunks[1].id, "p_1");
}

#[test]
fn processor_builds_metadata() {
    let processor = DocumentProcessor::new();
    let d = processor.build_document(
        "id1".to_string(),
        "This is a test file for processing.".to_string(),
        "/tmp/x".to_string(),
        None,
        35,
    );
    assert_eq!(d.metadata.word_count, 7);
    assert_eq!(d.metadata.file_type, "txt");
    let e = processor.build_document("id2".to_string(), "a".to_string(), "/tmp/y.md".to_string(), Some("md".to_string()), 1);
    assert_eq!(e.metadata.file_type, "md");
    assert_eq!(e.metadata.file_size, 1);
}

#[test]
fn test_processor_creation() {
    let _processor = DocumentProcessor::new();
    assert!(true);
}
