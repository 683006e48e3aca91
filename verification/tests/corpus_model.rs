use seroost::indexer::{extraction_kind, index_extracted, ExtractionKind, IndexStats};
use seroost::model::InMemoryModel;

fn chars(s: &str) -> Vec<char> {
    s.chars().collect()
}

#[test]
fn term_frequencies_sum_to_term_count() {
    let mut m = InMemoryModel::new();
    m.add_document("a.txt".to_string(), 1, &chars("a b a")).unwrap();
    assert_eq!(m.stored_term_count("a.txt"), Some(3));
    assert_eq!(m.stored_frequency("a.txt", "A"), Some(2));
    assert_eq!(m.stored_frequency("a.txt", "B"), Some(1));
    assert_eq!(m.stored_frequency("a.txt", "C"), Some(0));
    assert_eq!(m.stored_frequency("missing.txt", "A"), None);
}

#[test]
fn term_frequency_ratios_lie_between_zero_and_one() {
    let mut m = InMemoryModel::new();
    m.add_document("a.txt".to_string(), 1, &chars("x x y z")).unwrap();
    for hit in m.search_query(&chars("x y q")) {
        for p in &hit.stats {
            assert!(p.tf_count <= p.doc_len);
            let ratio = p.tf_count as f32 / p.doc_len as f32;
            assert!((0.0..=1.0).contains(&ratio));
        }
    }
}

#[test]
fn document_frequency_counts_documents_holding_the_term() {
    let mut m = InMemoryModel::new();
    m.add_document("a.txt".to_string(), 1, &chars("apple pear")).unwrap();
    m.add_document("b.txt".to_string(), 1, &chars("apple apple plum")).unwrap();
    m.add_document("c.txt".to_string(), 1, &chars("plum")).unwrap();
    // Counted once per document, however often the term repeats inside one.
    assert_eq!(m.document_frequency("APPLE"), 2);
    assert_eq!(m.document_frequency("PEAR"), 1);
    assert_eq!(m.document_frequency("PLUM"), 2);
    assert_eq!(m.document_frequency("QUINCE"), 0);
}

#[test]
fn document_frequency_follows_every_replacement() {
    let mut m = InMemoryModel::new();
    m.add_document("a.txt".to_string(), 1, &chars("old shared")).unwrap();
    m.add_document("b.txt".to_string(), 1, &chars("shared")).unwrap();
    assert_eq!(m.document_frequency("OLD"), 1);
    assert_eq!(m.document_frequency("SHARED"), 2);
    // Replace a.txt: its old terms' contribution must vanish exactly.
    m.add_document("a.txt".to_string(), 2, &chars("fresh shared")).unwrap();
    assert_eq!(m.document_count(), 2);
    assert_eq!(m.document_frequency("OLD"), 0);
    assert_eq!(m.document_frequency("FRESH"), 1);
    assert_eq!(m.document_frequency("SHARED"), 2);
}

#[test]
fn reindexing_same_unchanged_file_leaves_statistics_unchanged() {
    let mut m = InMemoryModel::new();
    m.add_document("a.txt".to_string(), 7, &chars("alpha beta alpha")).unwrap();
    // The orchestrator would skip the unchanged file outright:
    assert!(!m.requires_reindexing("a.txt", 7));
    // and even adding it again with identical content changes nothing.
    m.add_document("a.txt".to_string(), 7, &chars("alpha beta alpha")).unwrap();
    assert_eq!(m.document_count(), 1);
    assert_eq!(m.stored_term_count("a.txt"), Some(3));
    assert_eq!(m.stored_frequency("a.txt", "ALPHA"), Some(2));
    assert_eq!(m.document_frequency("ALPHA"), 1);
    assert_eq!(m.document_frequency("BETA"), 1);
}

#[test]
fn reindexing_replaces_a_documents_statistics_exactly() {
    let mut m = InMemoryModel::new();
    m.add_document("a.txt".to_string(), 1, &chars("one two")).unwrap();
    m.add_document("b.txt".to_string(), 1, &chars("two three")).unwrap();
    assert!(m.requires_reindexing("a.txt", 2));
    m.add_document("a.txt".to_string(), 2, &chars("two four four")).unwrap();
    // No residual double-count for the replaced document's terms.
    assert_eq!(m.document_frequency("ONE"), 0);
    assert_eq!(m.document_frequency("TWO"), 2);
    assert_eq!(m.document_frequency("FOUR"), 1);
    assert_eq!(m.stored_term_count("a.txt"), Some(3));
    assert_eq!(m.stored_frequency("a.txt", "FOUR"), Some(2));
    // The untouched sibling keeps exactly its statistics.
    assert_eq!(m.stored_term_count("b.txt"), Some(2));
    assert_eq!(m.stored_frequency("b.txt", "THREE"), Some(1));
}

#[test]
fn requires_reindexing_depends_on_the_stored_timestamp() {
    let mut m = InMemoryModel::new();
    assert!(m.requires_reindexing("a.txt", 5));
    m.add_document("a.txt".to_string(), 5, &chars("text")).unwrap();
    assert!(!m.requires_reindexing("a.txt", 5));
    assert!(!m.requires_reindexing("a.txt", 4));
    assert!(m.requires_reindexing("a.txt", 6));
}

#[test]
fn failed_extraction_increments_the_skip_counter_only() {
    let mut m = InMemoryModel::new();
    let mut stats = IndexStats::new();
    let r = index_extracted(&mut m, &mut stats, "bad.bin".to_string(), 1, None);
    assert!(r.is_ok());
    assert_eq!(stats.skipped, 1);
    assert_eq!(stats.processed, 0);
    assert_eq!(m.document_count(), 0);
    // A sibling file is still indexed afterwards.
    let content = chars("ok words");
    let r2 = index_extracted(&mut m, &mut stats, "good.txt".to_string(), 1, Some(&content));
    assert!(r2.is_ok());
    assert_eq!(stats.skipped, 1);
    assert_eq!(stats.processed, 1);
    assert_eq!(m.document_count(), 1);
}

#[test]
fn extensions_dispatch_to_their_extractors() {
    assert_eq!(extraction_kind(Some("txt")), ExtractionKind::Text);
    assert_eq!(extraction_kind(Some("md")), ExtractionKind::Text);
    assert_eq!(extraction_kind(Some("xml")), ExtractionKind::Xml);
    assert_eq!(extraction_kind(Some("xhtml")), ExtractionKind::Xml);
    assert_eq!(extraction_kind(Some("pdf")), ExtractionKind::Pdf);
    assert_eq!(extraction_kind(Some("exe")), ExtractionKind::Unsupported);
    assert_eq!(extraction_kind(Some("TXT")), ExtractionKind::Unsupported);
    assert_eq!(extraction_kind(None), ExtractionKind::Unsupported);
}
