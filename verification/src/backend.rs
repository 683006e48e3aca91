//! The storage backend abstraction.
//!
//! Any backend presents the same capability set — reindex test, atomic
//! document replacement, ranked query answering — specified against the one
//! abstract corpus view. Callers depend only on this contract, never on
//! which variant is active; that is what makes the snapshot and the
//! relational backend interchangeable.

use vstd::prelude::*;

use crate::corpus::spec_add;
use crate::corpus::spec_requires_reindexing;
use crate::corpus::SpecCorpus;
use crate::errors::StorageError;
use crate::lexer::lex;
use crate::model::InMemoryModel;
use crate::model::SearchHit;
use crate::relational::RelationalModel;
use crate::score::spec_search;

verus! {

/// The capability set every storage backend provides, each capability
/// specified against the backend's abstract corpus view.
pub trait Model: Sized {
    /// The abstract corpus the backend currently stores.
    spec fn corpus(&self) -> SpecCorpus;

    /// The backend's internal consistency; every mutation preserves it.
    spec fn inv(&self) -> bool;

    /// True if no document is stored for the path, or the stored timestamp
    /// predates the given one; never mutates state.
    fn requires_reindexing(&self, file_path: &str, last_modified: u64) -> (r: bool)
        requires
            self.inv(),
        ensures
            r == spec_requires_reindexing(self.corpus(), file_path@, last_modified),
    ;

    /// Atomically replace any document stored at the path with statistics
    /// computed from the tokenized content, keeping the aggregate
    /// document-frequency counters consistent; on failure the corpus is
    /// untouched.
    fn add_document(&mut self, file_path: String, last_modified: u64, content: &[char]) -> (r:
        Result<(), StorageError>)
        requires
            old(self).inv(),
        ensures
            final(self).inv(),
            r is Ok ==> final(self).corpus() == spec_add(
                old(self).corpus(),
                file_path@,
                lex(content@),
                last_modified,
            ),
            r is Err ==> final(self).corpus() == old(self).corpus(),
    ;

    /// Answer a query: for every stored document, in storage order, the
    /// exact per-token ranking statistics — a function of the corpus view
    /// alone, so backends with equal views answer identically.
    fn search_query(&self, query: &[char]) -> (r: Vec<SearchHit>)
        requires
            self.inv(),
        ensures
            r@.len() == spec_search(self.corpus().docs, lex(query@)).len(),
            forall|i: int|
                0 <= i < r@.len() ==> (#[trigger] r@[i])@ == spec_search(
                    self.corpus().docs,
                    lex(query@),
                )[i],
    ;
}

impl Model for InMemoryModel {
    open spec fn corpus(&self) -> SpecCorpus {
        self@
    }

    open spec fn inv(&self) -> bool {
        self.wf()
    }

    fn requires_reindexing(&self, file_path: &str, last_modified: u64) -> (r: bool) {
        InMemoryModel::requires_reindexing(self, file_path, last_modified)
    }

    fn add_document(&mut self, file_path: String, last_modified: u64, content: &[char]) -> (r:
        Result<(), StorageError>) {
        InMemoryModel::add_document(self, file_path, last_modified, content)
    }

    fn search_query(&self, query: &[char]) -> (r: Vec<SearchHit>) {
        InMemoryModel::search_query(self, query)
    }
}

impl Model for RelationalModel {
    open spec fn corpus(&self) -> SpecCorpus {
        self@
    }

    open spec fn inv(&self) -> bool {
        self.wf()
    }

    fn requires_reindexing(&self, file_path: &str, last_modified: u64) -> (r: bool) {
        RelationalModel::requires_reindexing(self, file_path, last_modified)
    }

    fn add_document(&mut self, file_path: String, last_modified: u64, content: &[char]) -> (r:
        Result<(), StorageError>) {
        RelationalModel::add_document(self, file_path, last_modified, content)
    }

    fn search_query(&self, query: &[char]) -> (r: Vec<SearchHit>) {
        RelationalModel::search_query(self, query)
    }
}

} // verus!
