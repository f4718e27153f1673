//! Documents as the corpus receives them: text plus descriptive metadata.
use vstd::prelude::*;
use crate::text::{chars_of, split_words, words};

verus! {

/// The error type of the library's fallible operations.
#[derive(Debug, Clone)]
pub struct RagError {
    pub message: String,
}

#[derive(Debug, Clone)]
pub struct DocumentMetadata {
    pub file_path: String,
    pub file_type: String,
    pub file_size: usize,
    pub word_count: usize,
}

#[derive(Debug, Clone)]
pub struct ProcessedDocument {
    pub id: String,
    pub content: String,
    pub metadata: DocumentMetadata,
}

impl DocumentMetadata {
    /// A field-by-field copy.
    pub fn duplicate(&self) -> (r: Self)
        ensures
            r == *self,
    {
        DocumentMetadata {
            file_path: self.file_path.clone(),
            file_type: self.file_type.clone(),
            file_size: self.file_size,
            word_count: self.word_count,
        }
    }
}

impl ProcessedDocument {
    /// A field-by-field copy.
    pub fn duplicate(&self) -> (r: Self)
        ensures
            r == *self,
    {
        ProcessedDocument {
            id: self.id.clone(),
            content: self.content.clone(),
            metadata: self.metadata.duplicate(),
        }
    }
}

/// Builds documents from text that has already been read.
pub struct DocumentProcessor;

impl DocumentProcessor {
    pub fn new() -> Self {
        DocumentProcessor
    }

    /// Assembles a document from its identifier, text and file facts. The
    /// type tag is the file's extension, `"txt"` when it has none; the word
    /// count is the number of white-space separated words of the text.
    pub fn build_document(
        &self,
        id: String,
        content: String,
        file_path: String,
        extension: Option<String>,
        file_size: usize,
    ) -> (r: ProcessedDocument)
        ensures
            r.id == id,
            r.content == content,
            r.metadata.file_path == file_path,
            r.metadata.file_size == file_size,
            r.metadata.word_count == words(content@).len(),
            extension is Some ==> r.metadata.file_type == extension->0,
            extension is None ==> r.metadata.file_type@ == seq!['t', 'x', 't'],
    {
        let chars = chars_of(content.as_str());
        let ws = split_words(&chars);
        let file_type = match extension {
            Some(e) => e,
            None => {
                let t = String::from_str("txt");
                proof {
                    reveal_strlit("txt");
                }
                t
            },
        };
        ProcessedDocument {
            id,
            content,
            metadata: DocumentMetadata { file_path, file_type, file_size, word_count: ws.len() },
        }
    }
}

} // verus!
