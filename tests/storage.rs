use rag_system::chunking::DocumentChunk;
use rag_system::processor::{DocumentMetadata, ProcessedDocument};
use rag_system::storage::StorageManager;

fn doc(id: &str, content: &str) -> ProcessedDocument {
    ProcessedDocument {
        id: id.to_string(),
        content: content.to_string(),
        metadata: DocumentMetadata {
            file_path: "/test/path".to_string(),
            file_type: "txt".to_string(),
            file_size: content.len(),
            word_count: content.split_whitespace().count(),
        },
    }
}

fn chunk(id: &str, content: &str, doc: &str) -> DocumentChunk {
    DocumentChunk {
        id: id.to_string(),
        content: content.to_string(),
        start_pos: 0,
        end_pos: 1,
        word_count: 1,
        document_id: doc.to_string(),
    }
}

#[test]
fn test_storage_creation() {
    let storage = StorageManager::new();
    assert!(storage.is_ok());
}

#[test]
fn test_document_storage() {
    let mut storage = StorageManager::new().unwrap();

    let document = ProcessedDocument {
        id: "test_doc".to_string(),
        content: "Test content".to_string(),
        metadata: DocumentMetadata {
            file_path: "/test/path".to_string(),
            file_type: "txt".to_string(),
            file_size: 12,
            word_count: 2,
        },
    };

    let doc_id = storage.store_document(document).unwrap();
    assert_eq!(doc_id, "test_doc");

    let retrieved = storage.get_document("test_doc").unwrap();
    assert!(retrieved.is_some());
    assert_eq!(retrieved.unwrap().content, "Test content");
}

#[test]
fn missing_document_is_none() {
    let storage = StorageManager::new().unwrap();
    assert!(storage.get_document("absent").unwrap().is_none());
}

#[test]
fn stats_sum_content_bytes() {
    let mut storage = StorageManager::new().unwrap();
    storage.store_document(doc("a", "alpha beta")).unwrap();
    storage.store_document(doc("b", "größe")).unwrap();
    let stats = storage.get_stats().unwrap();
    assert_eq!(stats.total_documents, 2);
    assert_eq!(stats.total_size_bytes, "alpha beta".len() + "größe".len());
    assert_eq!(stats.total_size_bytes, 17);
    assert_eq!(stats.total_chunks, 0);
}

#[test]
fn storing_same_id_overwrites() {
    let mut storage = StorageManager::new().unwrap();
    storage.store_document(doc("a", "old")).unwrap();
    storage.store_document(doc("a", "new text")).unwrap();
    assert_eq!(storage.list_documents().unwrap(), vec!["a".to_string()]);
    assert_eq!(storage.get_document("a").unwrap().unwrap().content, "new text");
    assert_eq!(storage.get_stats().unwrap().total_size_bytes, 8);
}

#[test]
fn chunks_last_write_wins_and_need_no_document() {
    let mut storage = StorageManager::new().unwrap();
    storage
        .store_chunks(
            "nodoc".to_string(),
            vec![chunk("x_0", "first", "nodoc"), chunk("x_1", "second", "nodoc"), chunk("x_0", "third", "nodoc")],
        )
        .unwrap();
    let all = storage.get_all_chunks().unwrap();
    assert_eq!(all.len(), 2);
    let x0 = all.iter().find(|c| c.id == "x_0").unwrap();
    assert_eq!(x0.content, "third");
    assert!(storage.get_document("nodoc").unwrap().is_none());
    assert_eq!(storage.get_stats().unwrap().total_chunks, 2);
}

#[test]
fn clear_empties_store() {
    let mut storage = StorageManager::new().unwrap();
    storage.store_document(doc("a", "x")).unwrap();
    storage.store_chunks("a".to_string(), vec![chunk("a_0", "x", "a")]).unwrap();
    storage.clear().unwrap();
    let stats = storage.get_stats().unwrap();
    assert_eq!((stats.total_documents, stats.total_chunks, stats.total_size_bytes), (0, 0, 0));
    assert!(storage.list_documents().unwrap().is_empty());
    assert!(storage.get_all_chunks().unwrap().is_empty());
}
