//! The records that the storage layer reads and returns.

use vstd::prelude::*;

verus! {

/// A problem found while indexing a note.
#[derive(Debug)]
pub struct StorageIssue {
    pub kind: String,
    pub message: String,
    pub relative_path: Option<String>,
}

/// What opening a vault reports.
#[derive(Debug)]
pub struct VaultSummary {
    pub vault_path: String,
    pub notes_path: String,
    pub database_path: String,
    pub document_count: usize,
    pub issue_count: usize,
    pub issues: Vec<StorageIssue>,
}

/// Optional restrictions on a document listing.
#[derive(Debug)]
pub struct DocumentFilter {
    pub category: Option<String>,
    pub tag: Option<String>,
    pub query: Option<String>,
}

/// A document as the index lists it.
#[derive(Debug)]
pub struct DocumentListItem {
    pub id: String,
    pub title: String,
    pub category: Option<String>,
    pub tags: Vec<String>,
    pub relative_path: String,
    pub created_at: String,
    pub updated_at: String,
    pub content_hash: String,
}

/// A document as it is read from its file.
#[derive(Debug)]
pub struct DocumentPayload {
    pub id: String,
    pub title: String,
    pub category: Option<String>,
    pub tags: Vec<String>,
    pub body: String,
    pub relative_path: String,
    pub created_at: String,
    pub updated_at: String,
}

/// What a new document is created from; every field may be left out.
#[derive(Debug)]
pub struct CreateDocumentInput {
    pub title: Option<String>,
    pub category: Option<String>,
    pub tags: Option<Vec<String>>,
    pub body: Option<String>,
}

/// The edited fields of an existing document.
#[derive(Debug)]
pub struct SaveDocumentInput {
    pub id: String,
    pub title: String,
    pub category: Option<String>,
    pub tags: Vec<String>,
    pub body: String,
}

/// What saving a document reports.
#[derive(Debug)]
pub struct SaveResult {
    pub id: String,
    pub relative_path: String,
    pub updated_at: String,
}

/// What deleting a document reports.
#[derive(Debug)]
pub struct DeleteResult {
    pub id: String,
    pub trashed_path: String,
}

/// A search request.
#[derive(Debug)]
pub struct SearchInput {
    pub query: String,
    pub category: Option<String>,
    pub tags: Option<Vec<String>>,
    pub sort: Option<String>,
}

/// A search hit. The relevance score that the full-text engine computes is
/// kept outside this crate; `rank` is the hit's position in the engine's
/// answer, by which that score is found again.
#[derive(Debug)]
pub struct SearchResult {
    pub id: String,
    pub title: String,
    pub category: Option<String>,
    pub tags: Vec<String>,
    pub relative_path: String,
    pub updated_at: String,
    pub snippet: String,
    pub rank: usize,
}

/// What rebuilding the index reports.
#[derive(Debug)]
pub struct IndexStatus {
    pub document_count: usize,
    pub issue_count: usize,
    pub issues: Vec<StorageIssue>,
}

/// What the status of a vault reports.
#[derive(Debug)]
pub struct StorageStatus {
    pub vault_path: String,
    pub notes_path: String,
    pub database_path: String,
    pub document_count: usize,
    pub tag_count: usize,
    pub pending_embedding_jobs: usize,
    pub issue_count: usize,
    pub issues: Vec<StorageIssue>,
}

/// A note read from disk, ready to be written to the index.
#[derive(Debug)]
pub struct IndexedDocument {
    pub item: DocumentListItem,
    pub body: String,
    pub file_mtime: i64,
}

} // verus!
