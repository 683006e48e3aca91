//! The indexing orchestrator's decision logic.
//!
//! The caller walks the directory tree, obtains timestamps, and extracts
//! file content; this module decides what each outcome does to the corpus:
//! a file whose stored timestamp is current is skipped untouched, a file
//! whose content cannot be extracted increments the skip counter and leaves
//! the corpus unchanged, and an extracted file replaces its document.

use vstd::prelude::*;

use crate::backend::Model;
use crate::chars::str_eq;
use crate::corpus::doc_at;
use crate::corpus::distinct_paths;
use crate::corpus::has_path;
use crate::corpus::spec_add;
use crate::corpus::spec_requires_reindexing;
use crate::corpus::SpecCorpus;
use crate::errors::StorageError;
use crate::lexer::lex;

verus! {

/// Counters of one indexing pass.
pub struct IndexStats {
    /// Documents added or replaced.
    pub processed: usize,
    /// Files skipped because their content could not be extracted.
    pub skipped: usize,
}

impl IndexStats {
    pub fn new() -> (s: IndexStats)
        ensures
            s.processed == 0,
            s.skipped == 0,
    {
        IndexStats { processed: 0, skipped: 0 }
    }
}

/// The extractor a file extension selects.
#[derive(Clone, Copy, PartialEq, Eq, Structural, Debug)]
pub enum ExtractionKind {
    /// Raw file bytes as text.
    Text,
    /// Character data of a structural parse.
    Xml,
    /// Per-page text of a portable document.
    Pdf,
    /// No extractor: the file is skipped.
    Unsupported,
}

/// The extractor selected by an extension.
pub open spec fn spec_extraction_kind(e: Seq<char>) -> ExtractionKind {
    if e == "xhtml"@ || e == "xml"@ {
        ExtractionKind::Xml
    } else if e == "txt"@ || e == "md"@ {
        ExtractionKind::Text
    } else if e == "pdf"@ {
        ExtractionKind::Pdf
    } else {
        ExtractionKind::Unsupported
    }
}

/// Dispatch a file to its extractor by extension; a missing or unrecognized
/// extension selects no extractor.
pub fn extraction_kind(extension: Option<&str>) -> (k: ExtractionKind)
    ensures
        k == match extension {
            Some(e) => spec_extraction_kind(e@),
            None => ExtractionKind::Unsupported,
        },
{
    match extension {
        Some(e) => {
            if str_eq(e, "xhtml") || str_eq(e, "xml") {
                ExtractionKind::Xml
            } else if str_eq(e, "txt") || str_eq(e, "md") {
                ExtractionKind::Text
            } else if str_eq(e, "pdf") {
                ExtractionKind::Pdf
            } else {
                ExtractionKind::Unsupported
            }
        },
        None => ExtractionKind::Unsupported,
    }
}

/// Apply one file's extraction outcome to any storage backend: a failed
/// extraction increments the skip counter by exactly one and leaves the
/// corpus untouched; a successful one replaces the file's document and
/// increments the processed counter; a storage failure is propagated with
/// the corpus and the counters untouched.
pub fn index_extracted<M: Model>(
    model: &mut M,
    stats: &mut IndexStats,
    file_path: String,
    last_modified: u64,
    extraction: Option<&[char]>,
) -> (r: Result<(), StorageError>)
    requires
        old(model).inv(),
        old(stats).processed < usize::MAX,
        old(stats).skipped < usize::MAX,
    ensures
        final(model).inv(),
        match extraction {
            Some(content) => {
                &&& (r is Ok ==> {
                    &&& final(model).corpus() == spec_add(
                        old(model).corpus(),
                        file_path@,
                        lex(content@),
                        last_modified,
                    )
                    &&& final(stats).processed == old(stats).processed + 1
                    &&& final(stats).skipped == old(stats).skipped
                })
                &&& (r is Err ==> {
                    &&& final(model).corpus() == old(model).corpus()
                    &&& final(stats).processed == old(stats).processed
                    &&& final(stats).skipped == old(stats).skipped
                })
            },
            None => {
                &&& r is Ok
                &&& final(model).corpus() == old(model).corpus()
                &&& final(stats).skipped == old(stats).skipped + 1
                &&& final(stats).processed == old(stats).processed
            },
        },
{
    match extraction {
        Some(content) => {
            let r = model.add_document(file_path, last_modified, content);
            if r.is_ok() {
                stats.processed = stats.processed + 1;
            }
            r
        },
        None => {
            stats.skipped = stats.skipped + 1;
            Ok(())
        },
    }
}

/// Skip law: a stored document whose timestamp is not older than the file's
/// needs no reindexing, so an unchanged file (same path, same timestamp)
/// is skipped and the corpus statistics stay exactly as they are.
pub proof fn lemma_unchanged_file_not_reindexed(c: SpecCorpus, path: Seq<char>, last_modified: u64)
    requires
        distinct_paths(c.docs),
        has_path(c.docs, path),
        doc_at(c.docs, path).last_modified >= last_modified,
    ensures
        !spec_requires_reindexing(c, path, last_modified),
{
}

} // verus!
