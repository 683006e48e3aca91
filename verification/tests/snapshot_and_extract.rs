use seroost::errors::SnapshotError;
use seroost::extract::xml_text_from_bytes;
use seroost::lexer::tokenize;
use seroost::model::{InMemoryModel, Snapshot, SnapshotDoc};

fn chars(s: &str) -> Vec<char> {
    s.chars().collect()
}

fn filled() -> InMemoryModel {
    let mut m = InMemoryModel::new();
    m.add_document("a.txt".to_string(), 1, &chars("apple banana apple")).unwrap();
    m.add_document("b.txt".to_string(), 2, &chars("banana cherry")).unwrap();
    m
}

fn load_fault(r: Result<InMemoryModel, SnapshotError>) -> SnapshotError {
    match r {
        Err(e) => e,
        Ok(_) => panic!("a corrupt snapshot was loaded"),
    }
}

fn snapshots_equal(a: &Snapshot, b: &Snapshot) -> bool {
    a.document_frequency == b.document_frequency
        && a.docs.len() == b.docs.len()
        && a.docs.iter().zip(b.docs.iter()).all(|(x, y)| {
            x.path == y.path
                && x.term_frequency == y.term_frequency
                && x.term_count == y.term_count
                && x.last_modified == y.last_modified
        })
}

#[test]
fn snapshot_save_load_save_round_trips_exactly() {
    let m = filled();
    let saved = m.to_snapshot();
    let loaded = InMemoryModel::from_snapshot(saved).unwrap();
    let saved_again = loaded.to_snapshot();
    let reference = m.to_snapshot();
    assert!(snapshots_equal(&saved_again, &reference));
}

#[test]
fn reloaded_snapshot_answers_identical_queries() {
    let m = filled();
    let loaded = InMemoryModel::from_snapshot(m.to_snapshot()).unwrap();
    for query in ["apple", "banana cherry", ""] {
        let q = chars(query);
        let before = m.search_query(&q);
        let after = loaded.search_query(&q);
        assert_eq!(before.len(), after.len());
        for (x, y) in before.iter().zip(after.iter()) {
            assert_eq!(x.path, y.path);
            assert_eq!(x.stats, y.stats);
        }
    }
}

fn one_doc_snapshot(tf: Vec<(String, usize)>, count: usize, df: Vec<(String, usize)>) -> Snapshot {
    Snapshot {
        docs: vec![SnapshotDoc {
            path: "a.txt".to_string(),
            term_frequency: tf,
            term_count: count,
            last_modified: 1,
        }],
        document_frequency: df,
    }
}

#[test]
fn corrupt_snapshots_are_rejected_with_their_fault() {
    // Two documents under one path.
    let dup_path = Snapshot {
        docs: vec![
            SnapshotDoc {
                path: "a.txt".to_string(),
                term_frequency: vec![("X".to_string(), 1)],
                term_count: 1,
                last_modified: 1,
            },
            SnapshotDoc {
                path: "a.txt".to_string(),
                term_frequency: vec![("Y".to_string(), 1)],
                term_count: 1,
                last_modified: 2,
            },
        ],
        document_frequency: vec![("X".to_string(), 1), ("Y".to_string(), 1)],
    };
    assert_eq!(
        load_fault(InMemoryModel::from_snapshot(dup_path)),
        SnapshotError::DuplicatePath
    );

    // A term repeated inside one term-frequency record.
    let dup_term = one_doc_snapshot(
        vec![("X".to_string(), 1), ("X".to_string(), 1)],
        2,
        vec![("X".to_string(), 1)],
    );
    assert_eq!(
        load_fault(InMemoryModel::from_snapshot(dup_term)),
        SnapshotError::DuplicateTerm
    );

    // A term repeated inside the document-frequency record.
    let dup_df = one_doc_snapshot(
        vec![("X".to_string(), 1)],
        1,
        vec![("X".to_string(), 1), ("X".to_string(), 1)],
    );
    assert_eq!(
        load_fault(InMemoryModel::from_snapshot(dup_df)),
        SnapshotError::DuplicateTerm
    );

    // A zero occurrence count.
    let zero = one_doc_snapshot(
        vec![("X".to_string(), 0)],
        0,
        vec![("X".to_string(), 1)],
    );
    assert_eq!(
        load_fault(InMemoryModel::from_snapshot(zero)),
        SnapshotError::ZeroCount
    );

    // Counts that do not sum to the token total.
    let mismatch = one_doc_snapshot(
        vec![("X".to_string(), 2)],
        3,
        vec![("X".to_string(), 1)],
    );
    assert_eq!(
        load_fault(InMemoryModel::from_snapshot(mismatch)),
        SnapshotError::CountMismatch
    );

    // A document frequency that disagrees with the stored documents.
    let wrong_df = one_doc_snapshot(
        vec![("X".to_string(), 1)],
        1,
        vec![("X".to_string(), 2)],
    );
    assert_eq!(
        load_fault(InMemoryModel::from_snapshot(wrong_df)),
        SnapshotError::FrequencyMismatch
    );

    // A stored term with no document-frequency entry at all.
    let missing_df = one_doc_snapshot(vec![("X".to_string(), 1)], 1, vec![]);
    assert_eq!(
        load_fault(InMemoryModel::from_snapshot(missing_df)),
        SnapshotError::FrequencyMismatch
    );
}

#[test]
fn empty_snapshot_loads_as_an_empty_corpus() {
    let s = Snapshot { docs: vec![], document_frequency: vec![] };
    let m = InMemoryModel::from_snapshot(s).unwrap();
    assert_eq!(m.document_count(), 0);
}

#[test]
fn xml_character_data_is_joined_with_spaces() {
    let out = xml_text_from_bytes(b"<r>alpha<z>beta</z></r>").unwrap();
    assert_eq!(out, "alpha beta ");
    assert_eq!(tokenize(&out.chars().collect::<Vec<char>>()), vec!["ALPHA", "BETA"]);
}

#[test]
fn xml_without_character_data_yields_empty_text() {
    let out = xml_text_from_bytes(b"<r><z/></r>").unwrap();
    assert_eq!(out, "");
}

#[test]
fn malformed_xml_is_a_format_error() {
    assert!(xml_text_from_bytes(b"<r>unclosed").is_err());
    assert!(xml_text_from_bytes(b"not xml at all").is_err());
}
