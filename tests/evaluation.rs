use rag_system::evaluation::Evaluator;
use rag_system::score::Score;
use rag_system::search::SearchResult;

fn value(s: &Score) -> f64 {
    s.num as f64 / s.den as f64
}

fn result(doc: &str, num: u128, den: u128, rank: usize) -> SearchResult {
    SearchResult {
        chunk_id: format!("{}_0", doc),
        document_id: doc.to_string(),
        content: "text".to_string(),
        score: Score { num, den },
        rank,
    }
}

#[test]
fn test_evaluator_creation() {
    let _evaluator = Evaluator::new();
    assert!(true);
}

#[test]
fn test_empty_results() {
    let evaluator = Evaluator::new();
    let results: Vec<SearchResult> = vec![];
    let expected = vec!["doc1".to_string()];

    let metrics = evaluator.evaluate(&results, &expected).unwrap();

    assert_eq!(value(&metrics.relevance.unwrap()), 0.0);
    assert_eq!(value(&metrics.precision), 0.0);
    assert_eq!(value(&metrics.recall), 0.0);
    assert_eq!(value(&metrics.f1_score), 0.0);
}

#[test]
fn test_perfect_evaluation() {
    let evaluator = Evaluator::new();

    let results = vec![SearchResult {
        chunk_id: "chunk1".to_string(),
        document_id: "doc1".to_string(),
        content: "Perfect match".to_string(),
        score: Score { num: 1, den: 1 },
        rank: 1,
    }];

    let expected = vec!["doc1".to_string()];
    let metrics = evaluator.evaluate(&results, &expected).unwrap();

    assert!(value(&metrics.relevance.unwrap()) > 0.5);
    assert_eq!(value(&metrics.precision), 1.0);
    assert_eq!(value(&metrics.recall), 1.0);
    assert_eq!(value(&metrics.f1_score), 1.0);
}

#[test]
fn vacuous_cases() {
    let evaluator = Evaluator::new();
    let none: Vec<SearchResult> = vec![];
    let m = evaluator.evaluate(&none, &[]).unwrap();
    assert_eq!(
        (value(&m.relevance.unwrap()), value(&m.precision), value(&m.recall), value(&m.f1_score)),
        (0.0, 0.0, 0.0, 0.0)
    );
    let m = evaluator.evaluate(&none, &["x".to_string()]).unwrap();
    assert_eq!(
        (value(&m.relevance.unwrap()), value(&m.precision), value(&m.recall), value(&m.f1_score)),
        (0.0, 0.0, 0.0, 0.0)
    );
    let some = vec![result("d", 1, 4, 1)];
    let m = evaluator.evaluate(&some, &[]).unwrap();
    assert_eq!(value(&m.precision), 1.0);
    assert_eq!(value(&m.recall), 1.0);
    assert_eq!(value(&m.f1_score), 1.0);
}

#[test]
fn precision_recall_f1_by_document_id() {
    let evaluator = Evaluator::new();
    let results = vec![result("a", 1, 2, 1), result("b", 1, 4, 2), result("a", 0, 1, 3), result("c", 1, 1, 4)];
    let expected = vec!["a".to_string(), "z".to_string()];
    let m = evaluator.evaluate(&results, &expected).unwrap();
    assert_eq!(value(&m.precision), 0.5);
    assert_eq!(value(&m.recall), 1.0);
    assert!((value(&m.f1_score) - 2.0 / 3.0).abs() < 1e-12);
    assert!((value(&m.relevance.unwrap()) - 0.4375).abs() < 1e-12);
}

#[test]
fn no_relevant_results_gives_zero_f1() {
    let evaluator = Evaluator::new();
    let results = vec![result("b", 1, 1, 1)];
    let m = evaluator.evaluate(&results, &["a".to_string()]).unwrap();
    assert_eq!(value(&m.precision), 0.0);
    assert_eq!(value(&m.recall), 0.0);
    assert_eq!(value(&m.f1_score), 0.0);
}

#[test]
fn relevance_is_capped_at_one() {
    let evaluator = Evaluator::new();
    let results = vec![result("a", 3, 1, 1), result("b", 1, 1, 2)];
    let m = evaluator.evaluate(&results, &[]).unwrap();
    assert_eq!(value(&m.relevance.unwrap()), 1.0);
}

#[test]
fn relevance_of_many_equal_small_scores() {
    let evaluator = Evaluator::new();
    let results: Vec<SearchResult> = (0..27).map(|i| result("d", 1, 30, i + 1)).collect();
    let m = evaluator.evaluate(&results, &["d".to_string()]).unwrap();
    let r = m.relevance.unwrap();
    assert_eq!((r.num, r.den), (1, 30));
}

#[test]
fn relevance_in_lowest_terms() {
    let evaluator = Evaluator::new();
    let results = vec![result("a", 1, 6, 1), result("b", 1, 3, 2)];
    let m = evaluator.evaluate(&results, &[]).unwrap();
    let r = m.relevance.unwrap();
    assert_eq!((r.num, r.den), (1, 4));
}
