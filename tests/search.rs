use rag_system::chunking::DocumentChunk;
use rag_system::score::Score;
use rag_system::search::SearchEngine;

fn value(s: &Score) -> f64 {
    s.num as f64 / s.den as f64
}

fn chunk(id: &str, content: &str, doc: &str) -> DocumentChunk {
    let n = content.split_whitespace().count();
    DocumentChunk {
        id: id.to_string(),
        content: content.to_string(),
        start_pos: 0,
        end_pos: n,
        word_count: n,
        document_id: doc.to_string(),
    }
}

fn words(n: usize, w: &str) -> String {
    vec![w; n].join(" ")
}

#[test]
fn test_search_engine_creation() {
    let engine = SearchEngine::new();
    assert!(engine.is_ok());
}

#[test]
fn test_simple_search() {
    let engine = SearchEngine::new().unwrap();
    let chunks = vec![
        DocumentChunk {
            id: "chunk1".to_string(),
            content: "Machine learning is a subset of artificial intelligence".to_string(),
            start_pos: 0,
            end_pos: 10,
            word_count: 10,
            document_id: "doc1".to_string(),
        },
        DocumentChunk {
            id: "chunk2".to_string(),
            content: "Natural language processing deals with text data".to_string(),
            start_pos: 0,
            end_pos: 8,
            word_count: 8,
            document_id: "doc2".to_string(),
        },
    ];

    let results = engine.search("machine learning", &chunks, 5).unwrap();
    assert_eq!(results.len(), 2);
    assert!(value(&results[0].score) > value(&results[1].score));
}

#[test]
fn similarity_is_case_insensitive_with_short_penalty() {
    let engine = SearchEngine::new().unwrap();
    let s = engine.calculate_similarity("MACHINE Learning", "Machine learning is a subset of artificial intelligence");
    assert_eq!((s.num, s.den), (16, 20));
    assert!((value(&s) - 0.8).abs() < 1e-12);
}

#[test]
fn similarity_matches_substrings_both_ways() {
    let engine = SearchEngine::new().unwrap();
    let text = words(10, "x");
    let s = engine.calculate_similarity("learn", &format!("learning {}", words(9, "y")));
    assert_eq!(value(&s), 1.0);
    let t = engine.calculate_similarity("learning", &format!("learn {}", words(9, "y")));
    assert_eq!(value(&t), 1.0);
    let u = engine.calculate_similarity("zzz", &text);
    assert_eq!(value(&u), 0.0);
}

#[test]
fn similarity_length_penalty_boundaries() {
    let engine = SearchEngine::new().unwrap();
    let at = |n: usize| value(&engine.calculate_similarity("w", &words(n, "w")));
    assert_eq!(at(9), 0.9);
    assert_eq!(at(10), 1.0);
    assert_eq!(at(200), 1.0);
    assert!((at(201) - 200.0 / 201.0).abs() < 1e-12);
    assert!((at(400) - 0.5).abs() < 1e-12);
    for n in [1usize, 5, 9, 10, 11, 150, 199, 200, 201, 1000] {
        let v = at(n);
        assert!((0.0..=1.0).contains(&v));
    }
}

#[test]
fn similarity_of_empty_sides_is_zero() {
    let engine = SearchEngine::new().unwrap();
    assert_eq!(value(&engine.calculate_similarity("", "some words here")), 0.0);
    assert_eq!(value(&engine.calculate_similarity("query", "   ")), 0.0);
}

#[test]
fn half_of_query_words_found() {
    let engine = SearchEngine::new().unwrap();
    let s = engine.calculate_similarity("alpha omega", &words(20, "alpha"));
    assert_eq!(value(&s), 0.5);
}

#[test]
fn ranking_is_descending_and_truncated() {
    let engine = SearchEngine::new().unwrap();
    let chunks = vec![
        chunk("c0", "nothing relevant", "d0"),
        chunk("c1", &words(10, "rust"), "d1"),
        chunk("c2", &words(5, "rust"), "d2"),
        chunk("c3", &words(12, "rust"), "d3"),
        chunk("c4", "rust", "d4"),
    ];
    let all = engine.search("rust", &chunks, 10).unwrap();
    assert_eq!(all.len(), 5);
    for w in all.windows(2) {
        assert!(value(&w[0].score) >= value(&w[1].score));
    }
    let ranks: Vec<usize> = all.iter().map(|r| r.rank).collect();
    assert_eq!(ranks, vec![1, 2, 3, 4, 5]);
    let ids: Vec<&str> = all.iter().map(|r| r.chunk_id.as_str()).collect();
    assert_eq!(ids, vec!["c1", "c3", "c2", "c4", "c0"]);

    let top = engine.search("rust", &chunks, 2).unwrap();
    assert_eq!(top.len(), 2);
    assert_eq!(top[0].chunk_id, "c1");
    assert_eq!(top[1].chunk_id, "c3");
    assert_eq!(top[1].rank, 2);
    assert_eq!(top[1].document_id, "d3");
    assert_eq!(top[1].content, words(12, "rust"));
}

#[test]
fn ranking_with_zero_limit_or_no_chunks_is_empty() {
    let engine = SearchEngine::new().unwrap();
    let chunks = vec![chunk("c0", "a b c", "d")];
    assert!(engine.search("a", &chunks, 0).unwrap().is_empty());
    assert!(engine.search("a", &[], 5).unwrap().is_empty());
}

#[test]
fn lowercased_scoring_does_not_fold_case() {
    let plain = SearchEngine::score_lowercased("Machine", "machine learning is one subset of artificial intelligence here too");
    assert_eq!(plain.num, 0);
    let engine = SearchEngine::new().unwrap();
    let folded = engine.calculate_similarity("Machine", "machine learning is one subset of artificial intelligence here too");
    assert_eq!((folded.num, folded.den), (1, 1));
}
