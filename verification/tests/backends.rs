use seroost::model::{InMemoryModel, SearchHit};
use seroost::relational::RelationalModel;
use seroost::score::TokenStat;

fn chars(s: &str) -> Vec<char> {
    s.chars().collect()
}

fn score(parts: &[TokenStat]) -> f32 {
    let mut rank = 0f32;
    for p in parts {
        let tf = if p.doc_len == 0 {
            0f32
        } else {
            p.tf_count as f32 / p.doc_len as f32
        };
        let idf = (p.corpus_size as f32 / p.df_smoothed as f32).log10();
        rank += tf * idf;
    }
    rank
}

fn ranked(hits: &[SearchHit]) -> Vec<(String, f32)> {
    let mut scored: Vec<(String, f32)> = hits
        .iter()
        .map(|h| (h.path.clone(), score(&h.stats)))
        .collect();
    scored.sort_by(|(_, a), (_, b)| a.partial_cmp(b).unwrap());
    scored.reverse();
    scored
}

const DOCS: &[(&str, &str)] = &[
    ("a.txt", "apple banana apple"),
    ("b.txt", "banana cherry"),
    ("c.txt", "cherry cherry cherry durian"),
];

fn filled_snapshot_backend() -> InMemoryModel {
    let mut m = InMemoryModel::new();
    for (i, (path, text)) in DOCS.iter().enumerate() {
        m.add_document(path.to_string(), i as u64, &chars(text)).unwrap();
    }
    m
}

fn filled_relational_backend() -> RelationalModel {
    let mut m = RelationalModel::new();
    for (i, (path, text)) in DOCS.iter().enumerate() {
        m.add_document(path.to_string(), i as u64, &chars(text)).unwrap();
    }
    m
}

#[test]
fn both_backends_answer_queries_identically() {
    let mem = filled_snapshot_backend();
    let rel = filled_relational_backend();
    for query in ["apple", "cherry banana", "durian zebra", ""] {
        let q = chars(query);
        let mem_hits = mem.search_query(&q);
        let rel_hits = rel.search_query(&q);
        assert_eq!(mem_hits.len(), rel_hits.len());
        for (mh, rh) in mem_hits.iter().zip(rel_hits.iter()) {
            assert_eq!(mh.path, rh.path);
            assert_eq!(mh.stats, rh.stats);
        }
        assert_eq!(ranked(&mem_hits), ranked(&rel_hits));
    }
}

#[test]
fn relational_backend_maintains_the_same_statistics() {
    let mut rel = filled_relational_backend();
    assert_eq!(rel.document_count(), 3);
    assert_eq!(rel.document_frequency("BANANA"), 2);
    assert_eq!(rel.document_frequency("CHERRY"), 2);
    rel.add_document("b.txt".to_string(), 9, &chars("durian")).unwrap();
    assert_eq!(rel.document_count(), 3);
    assert_eq!(rel.document_frequency("BANANA"), 1);
    assert_eq!(rel.document_frequency("DURIAN"), 2);
    rel.remove_document("c.txt");
    assert_eq!(rel.document_count(), 2);
    assert_eq!(rel.document_frequency("CHERRY"), 0);
    assert_eq!(rel.document_frequency("DURIAN"), 1);
    assert!(rel.requires_reindexing("c.txt", 0));
    assert!(!rel.requires_reindexing("a.txt", 0));
}

#[test]
fn higher_term_frequency_ranks_higher_at_equal_document_frequency() {
    // "the" appears once out of 2 tokens in a.txt and once out of 100 in
    // b.txt; a third document without it keeps the corpus-wide idf
    // positive, so the denser document scores strictly higher.
    let mut m = InMemoryModel::new();
    m.add_document("a.txt".to_string(), 1, &chars("the fox")).unwrap();
    let mut long_text = String::from("the");
    for i in 0..99 {
        long_text.push_str(&format!(" w{}", i));
    }
    m.add_document("b.txt".to_string(), 1, &chars(&long_text)).unwrap();
    m.add_document("c.txt".to_string(), 1, &chars("quiet pond")).unwrap();
    assert_eq!(m.stored_term_count("b.txt"), Some(100));
    let hits = m.search_query(&chars("THE"));
    let order = ranked(&hits);
    assert_eq!(order[0].0, "a.txt");
    assert_eq!(order[1].0, "b.txt");
    assert!(order[0].1 > order[1].1);
    assert!(order[1].1 > 0.0);
    assert_eq!(order[2].1, 0.0);
}

#[test]
fn empty_query_scores_every_document_zero() {
    let m = filled_snapshot_backend();
    let hits = m.search_query(&chars("   "));
    assert_eq!(hits.len(), 3);
    for h in &hits {
        assert!(h.stats.is_empty());
        assert_eq!(score(&h.stats), 0.0);
    }
}

#[test]
fn unseen_query_terms_are_smoothed_not_errors() {
    let m = filled_snapshot_backend();
    let hits = m.search_query(&chars("zebra"));
    for h in &hits {
        assert_eq!(h.stats[0].tf_count, 0);
        assert_eq!(h.stats[0].df_smoothed, 1);
        assert_eq!(score(&h.stats), 0.0);
    }
}
