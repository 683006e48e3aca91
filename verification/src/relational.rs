//! The durable relational storage backend.
//!
//! The corpus is normalized into three relations: document rows
//! (id, path unique, term count, timestamp), term-frequency rows
//! (term, document id, count; unique per term and id), and
//! document-frequency rows (term unique, count). Adding a document deletes
//! the old rows, captures a freshly generated id, inserts one
//! term-frequency row per distinct term, and upserts each term's
//! document-frequency count. The backend answers the same corpus view as
//! the snapshot backend, which is what makes the two interchangeable.

use vstd::prelude::*;

use crate::chars::str_eq;
use crate::corpus::df_after_add;
use crate::corpus::df_after_remove;
use crate::corpus::doc_count;
use crate::corpus::doc_from_tokens;
use crate::corpus::has_path;
use crate::corpus::lemma_doc_count_absent;
use crate::corpus::lemma_doc_count_member;
use crate::corpus::lemma_path_index;
use crate::corpus::lemma_spec_add_preserves_wf;
use crate::corpus::lemma_spec_remove_preserves_wf;
use crate::corpus::occ_map;
use crate::corpus::path_index;
use crate::corpus::remove_path;
use crate::corpus::spec_add;
use crate::corpus::spec_remove;
use crate::corpus::spec_requires_reindexing;
use crate::corpus::wf_corpus;
use crate::corpus::SpecCorpus;
use crate::corpus::SpecDoc;
use crate::counts::assoc_map;
use crate::counts::CountMap;
use crate::errors::StorageError;
use crate::lexer::lex;
use crate::lexer::tokenize;
use crate::model::count_tokens;
use crate::model::SearchHit;
use crate::score::spec_search;
use crate::score::spec_stat;
use crate::score::spec_stats;
use crate::score::TokenStat;

verus! {

/// One row of the Documents relation.
pub struct DocRow {
    id: u64,
    path: String,
    term_count: usize,
    last_modified: u64,
}

/// One row of the TermFrequency relation.
pub struct TfRow {
    term: String,
    doc_id: u64,
    freq: usize,
}

/// The term-frequency map of document `id`, read off the relation rows.
pub open spec fn tf_of(rows: Seq<(Seq<char>, u64, usize)>, id: u64) -> Map<Seq<char>, usize>
    decreases rows.len(),
{
    if rows.len() == 0 {
        Map::empty()
    } else {
        let m = tf_of(rows.drop_last(), id);
        if rows.last().1 == id {
            m.insert(rows.last().0, rows.last().2)
        } else {
            m
        }
    }
}

/// Whether no two rows describe the same (term, document) pair.
pub open spec fn distinct_tf_rows(rows: Seq<(Seq<char>, u64, usize)>) -> bool {
    forall|i: int, j: int|
        0 <= i < j < rows.len() ==> ((#[trigger] rows[i]).0, rows[i].1) != ((
        #[trigger] rows[j]).0, rows[j].1)
}

pub proof fn lemma_tf_of_contains(rows: Seq<(Seq<char>, u64, usize)>, id: u64, t: Seq<char>)
    ensures
        tf_of(rows, id).contains_key(t) <==> exists|k: int|
            0 <= k < rows.len() && (#[trigger] rows[k]).1 == id && rows[k].0 == t,
    decreases rows.len(),
{
    if rows.len() > 0 {
        lemma_tf_of_contains(rows.drop_last(), id, t);
        if tf_of(rows, id).contains_key(t) {
            if rows.last().1 == id && rows.last().0 == t {
                assert(rows[rows.len() - 1].1 == id && rows[rows.len() - 1].0 == t);
            } else {
                let k = choose|k: int|
                    0 <= k < rows.drop_last().len() && (#[trigger] rows.drop_last()[k]).1 == id
                        && rows.drop_last()[k].0 == t;
                assert(rows[k].1 == id && rows[k].0 == t);
            }
        }
        if exists|k: int| 0 <= k < rows.len() && (#[trigger] rows[k]).1 == id && rows[k].0 == t {
            let k = choose|k: int|
                0 <= k < rows.len() && (#[trigger] rows[k]).1 == id && rows[k].0 == t;
            if k < rows.len() - 1 {
                assert(rows.drop_last()[k].1 == id && rows.drop_last()[k].0 == t);
            }
        }
    }
}

pub proof fn lemma_tf_of_index(rows: Seq<(Seq<char>, u64, usize)>, id: u64, k: int)
    requires
        distinct_tf_rows(rows),
        0 <= k < rows.len(),
        rows[k].1 == id,
    ensures
        tf_of(rows, id).contains_key(rows[k].0),
        tf_of(rows, id)[rows[k].0] == rows[k].2,
    decreases rows.len(),
{
    if k == rows.len() - 1 {
    } else {
        assert(distinct_tf_rows(rows.drop_last()));
        assert(rows.drop_last()[k] == rows[k]);
        lemma_tf_of_index(rows.drop_last(), id, k);
        assert((rows[k].0, rows[k].1) != (rows.last().0, rows.last().1));
    }
}

/// Rows with no row for `id` describe an empty document.
pub proof fn lemma_tf_of_absent(rows: Seq<(Seq<char>, u64, usize)>, id: u64)
    requires
        forall|k: int| 0 <= k < rows.len() ==> (#[trigger] rows[k]).1 != id,
    ensures
        tf_of(rows, id) == Map::<Seq<char>, usize>::empty(),
    decreases rows.len(),
{
    if rows.len() > 0 {
        assert(forall|k: int|
            0 <= k < rows.drop_last().len() ==> (#[trigger] rows.drop_last()[k]) == rows[k]);
        lemma_tf_of_absent(rows.drop_last(), id);
        assert(rows[rows.len() - 1].1 != id);
    }
}

/// The rows kept when document `rid`'s rows are deleted.
pub open spec fn drop_rows_of(rows: Seq<(Seq<char>, u64, usize)>, rid: u64) -> Seq<
    (Seq<char>, u64, usize),
>
    decreases rows.len(),
{
    if rows.len() == 0 {
        Seq::empty()
    } else {
        let rest = drop_rows_of(rows.drop_last(), rid);
        if rows.last().1 == rid {
            rest
        } else {
            rest.push(rows.last())
        }
    }
}

/// Deleting one document's rows does not change any other document's
/// term-frequency map.
pub proof fn lemma_drop_rows_tf(rows: Seq<(Seq<char>, u64, usize)>, rid: u64, id: u64)
    requires
        id != rid,
    ensures
        tf_of(drop_rows_of(rows, rid), id) == tf_of(rows, id),
    decreases rows.len(),
{
    if rows.len() > 0 {
        lemma_drop_rows_tf(rows.drop_last(), rid, id);
        if rows.last().1 != rid {
            assert(drop_rows_of(rows, rid).drop_last() =~= drop_rows_of(rows.drop_last(), rid));
            assert(drop_rows_of(rows, rid).last() == rows.last());
        }
    }
}

/// Every kept row is one of the original rows.
pub proof fn lemma_drop_rows_elements(rows: Seq<(Seq<char>, u64, usize)>, rid: u64)
    ensures
        drop_rows_of(rows, rid).len() <= rows.len(),
        forall|k: int|
            0 <= k < drop_rows_of(rows, rid).len() ==> exists|k0: int|
                0 <= k0 < rows.len() && (#[trigger] drop_rows_of(rows, rid)[k]) == rows[k0],
        forall|k: int| 0 <= k < drop_rows_of(rows, rid).len() ==> (#[trigger] drop_rows_of(
            rows,
            rid,
        )[k]).1 != rid,
    decreases rows.len(),
{
    if rows.len() > 0 {
        lemma_drop_rows_elements(rows.drop_last(), rid);
        let kept = drop_rows_of(rows, rid);
        let rest = drop_rows_of(rows.drop_last(), rid);
        assert forall|k: int| 0 <= k < kept.len() implies (exists|k0: int|
            0 <= k0 < rows.len() && (#[trigger] kept[k]) == rows[k0]) && kept[k].1 != rid by {
            if rows.last().1 == rid {
                let k0 = choose|k0: int|
                    0 <= k0 < rows.drop_last().len() && (#[trigger] rest[k]) == rows.drop_last()[
                    k0];
                assert(kept[k] == rows[k0]);
            } else {
                if k < kept.len() - 1 {
                    assert(kept[k] == rest[k]);
                    let k0 = choose|k0: int|
                        0 <= k0 < rows.drop_last().len() && (#[trigger] rest[k])
                            == rows.drop_last()[k0];
                    assert(kept[k] == rows[k0]);
                } else {
                    assert(kept[k] == rows[rows.len() - 1]);
                }
            }
        }
    }
}

/// Deleting rows keeps (term, document) pairs distinct.
pub proof fn lemma_drop_rows_distinct(rows: Seq<(Seq<char>, u64, usize)>, rid: u64)
    requires
        distinct_tf_rows(rows),
    ensures
        distinct_tf_rows(drop_rows_of(rows, rid)),
    decreases rows.len(),
{
    if rows.len() > 0 {
        assert(distinct_tf_rows(rows.drop_last()));
        lemma_drop_rows_distinct(rows.drop_last(), rid);
        let kept = drop_rows_of(rows, rid);
        let rest = drop_rows_of(rows.drop_last(), rid);
        if rows.last().1 != rid {
            lemma_drop_rows_elements(rows.drop_last(), rid);
            assert forall|i: int, j: int|
                0 <= i < j < kept.len() implies ((#[trigger] kept[i]).0, kept[i].1) != ((
            #[trigger] kept[j]).0, kept[j].1) by {
                if j == kept.len() - 1 {
                    assert(kept[i] == rest[i]);
                    assert(kept[j] == rows.last());
                    let k0 = choose|k0: int|
                        0 <= k0 < rows.drop_last().len() && (#[trigger] rest[i])
                            == rows.drop_last()[k0];
                    assert((rows[k0].0, rows[k0].1) != (rows.last().0, rows.last().1));
                } else {
                    assert(kept[i] == rest[i] && kept[j] == rest[j]);
                }
            }
        }
    }
}

/// The durable relational backend.
pub struct RelationalModel {
    doc_rows: Vec<DocRow>,
    tf_rows: Vec<TfRow>,
    df: CountMap,
    next_id: u64,
}

impl View for RelationalModel {
    type V = SpecCorpus;

    closed spec fn view(&self) -> SpecCorpus {
        SpecCorpus { docs: self.doc_seq(), df: self.df@ }
    }
}

impl RelationalModel {
    /// The TermFrequency relation as (term, id, count) triples.
    pub closed spec fn tf_seq(self) -> Seq<(Seq<char>, u64, usize)> {
        self.tf_rows@.map_values(|r: TfRow| (r.term@, r.doc_id, r.freq))
    }

    /// The corpus the relations describe, in document-row order.
    pub closed spec fn doc_seq(self) -> Seq<(Seq<char>, SpecDoc)> {
        Seq::new(
            self.doc_rows@.len(),
            |i: int|
                (
                    self.doc_rows@[i].path@,
                    SpecDoc {
                        tf: tf_of(self.tf_seq(), self.doc_rows@[i].id),
                        count: self.doc_rows@[i].term_count,
                        last_modified: self.doc_rows@[i].last_modified,
                    },
                ),
        )
    }

    /// Whether some document row carries `id`.
    pub closed spec fn row_id_live(self, id: u64) -> bool {
        exists|i: int| 0 <= i < self.doc_rows@.len() && (#[trigger] self.doc_rows@[i]).id == id
    }

    pub closed spec fn wf(self) -> bool {
        &&& wf_corpus(self@)
        &&& self.df.wf()
        &&& distinct_tf_rows(self.tf_seq())
        &&& forall|i: int, j: int|
            0 <= i < j < self.doc_rows@.len() ==> (#[trigger] self.doc_rows@[i]).id != (
            #[trigger] self.doc_rows@[j]).id
        &&& forall|i: int| 0 <= i < self.doc_rows@.len() ==> (#[trigger] self.doc_rows@[i]).id
            < self.next_id
        &&& forall|k: int|
            0 <= k < self.tf_seq().len() ==> self.row_id_live((#[trigger] self.tf_seq()[k]).1)
    }

    /// Whether the id generator is exhausted, so that no further document
    /// can be inserted.
    pub closed spec fn id_space_full(self) -> bool {
        self.next_id == u64::MAX
    }

    /// Empty relations.
    pub fn new() -> (m: RelationalModel)
        ensures
            m.wf(),
            !m.id_space_full(),
            m@ == (SpecCorpus { docs: Seq::<(Seq<char>, SpecDoc)>::empty(), df: Map::<
                Seq<char>,
                usize,
            >::empty() }),
    {
        let m = RelationalModel {
            doc_rows: Vec::new(),
            tf_rows: Vec::new(),
            df: CountMap::new(),
            next_id: 0,
        };
        proof {
            assert(m.doc_seq() =~= Seq::<(Seq<char>, SpecDoc)>::empty());
            assert(m.tf_seq() =~= Seq::<(Seq<char>, u64, usize)>::empty());
        }
        m
    }

    /// Number of stored documents.
    pub fn document_count(&self) -> (n: usize)
        ensures
            n == self@.docs.len(),
    {
        self.doc_rows.len()
    }

    fn find_doc_row(&self, path: &str) -> (r: Option<usize>)
        ensures
            match r {
                Some(i) => i < self@.docs.len() && self@.docs[i as int].0 == path@,
                None => !has_path(self@.docs, path@),
            },
    {
        let n = self.doc_rows.len();
        let mut i: usize = 0;
        while i < n
            invariant
                n == self.doc_rows@.len(),
                n == self@.docs.len(),
                i <= n,
                forall|j: int| 0 <= j < i ==> (#[trigger] self@.docs[j]).0 != path@,
            decreases n - i,
        {
            proof {
                assert(self@.docs[i as int].0 == self.doc_rows@[i as int].path@);
            }
            if str_eq(self.doc_rows[i].path.as_str(), path) {
                return Some(i);
            }
            i = i + 1;
        }
        proof {
            if has_path(self@.docs, path@) {
                let j = choose|j: int|
                    0 <= j < self@.docs.len() && (#[trigger] self@.docs[j]).0 == path@;
                assert(false);
            }
        }
        None
    }

    /// Whether `file_path` must be (re)indexed: no row is stored for it, or
    /// the stored timestamp predates `last_modified`. Does not mutate the
    /// relations.
    pub fn requires_reindexing(&self, file_path: &str, last_modified: u64) -> (r: bool)
        requires
            self.wf(),
        ensures
            r == spec_requires_reindexing(self@, file_path@, last_modified),
    {
        match self.find_doc_row(file_path) {
            Some(i) => {
                proof {
                    assert(has_path(self@.docs, file_path@));
                    lemma_path_index(self@.docs, file_path@);
                    assert(path_index(self@.docs, file_path@) == i as int);
                }
                self.doc_rows[i].last_modified < last_modified
            },
            None => true,
        }
    }
}


impl RelationalModel {
    /// Delete the document row stored at `file_path`, its term-frequency
    /// rows, and its terms' contribution to the document-frequency relation.
    pub fn remove_document(&mut self, file_path: &str)
        requires
            old(self).wf(),
        ensures
            final(self).wf(),
            final(self)@ == spec_remove(old(self)@, file_path@),
            final(self).id_space_full() == old(self).id_space_full(),
    {
        let ghost c0 = self@;
        let found = self.find_doc_row(file_path);
        match found {
            None => {
                proof {
                    assert(spec_remove(c0, file_path@) == c0);
                    assert(self.wf());
                }
            },
            Some(i) => {
                let rid = self.doc_rows[i].id;
                proof {
                    assert(has_path(c0.docs, file_path@));
                    lemma_path_index(c0.docs, file_path@);
                    assert(path_index(c0.docs, file_path@) == i as int);
                    assert(c0.docs[i as int].1.tf == tf_of(self.tf_seq(), rid));
                }
                let ghost rows0 = self.tf_seq();
                let ghost df0 = self.df@;
                let ghost old_tf = tf_of(rows0, rid);
                let nrows = self.tf_rows.len();
                let mut kept: Vec<TfRow> = Vec::new();
                let mut k: usize = 0;
                while k < nrows
                    invariant
                        old(self).wf(),
                        c0 == old(self)@,
                        self.doc_rows == old(self).doc_rows,
                        self.tf_rows == old(self).tf_rows,
                        self.next_id == old(self).next_id,
                        0 <= (i as int) < self.doc_rows@.len(),
                        rid == self.doc_rows@[i as int].id,
                        rows0 == self.tf_seq(),
                        old_tf == tf_of(rows0, rid),
                        nrows == rows0.len(),
                        k <= nrows,
                        kept@.map_values(|r: TfRow| (r.term@, r.doc_id, r.freq)) == drop_rows_of(
                            rows0.take(k as int),
                            rid,
                        ),
                        df0 == old(self).df@,
                        self.df.wf(),
                        self.df@.dom() == df0.dom(),
                        forall|t: Seq<char>| #[trigger]
                            df0.contains_key(t) ==> self.df@[t] == if (exists|l: int|
                                0 <= l < k && (#[trigger] rows0[l]).1 == rid && rows0[l].0 == t) {
                                (df0[t] - 1) as usize
                            } else {
                                df0[t]
                            },
                    decreases nrows - k,
                {
                    proof {
                        assert(rows0.take(k + 1) =~= rows0.take(k as int).push(rows0[k as int]));
                        assert((rows0.take(k as int).push(rows0[k as int])).drop_last()
                            =~= rows0.take(k as int));
                        assert(rows0[k as int] == (self.tf_rows@[k as int].term@,
                            self.tf_rows@[k as int].doc_id, self.tf_rows@[k as int].freq));
                    }
                    let matches_rid = self.tf_rows[k].doc_id == rid;
                    if matches_rid {
                        let ghost t = self.tf_rows@[k as int].term@;
                        proof {
                            lemma_tf_of_index(rows0, rid, k as int);
                            assert(old_tf.contains_key(t));
                            assert(c0.docs[i as int].1.tf.contains_key(t));
                            assert(c0.df.contains_key(t));
                            lemma_doc_count_member(c0.docs, i as int, t);
                            assert(df0[t] == doc_count(c0.docs, t));
                            assert(df0[t] >= 1);
                            // this row's pair has not occurred before
                            assert forall|l: int|
                                0 <= l < k implies !((#[trigger] rows0[l]).1 == rid && rows0[l].0
                                == t) by {
                                assert(distinct_tf_rows(rows0));
                            }
                            assert(self.df@[t] == df0[t]);
                        }
                        let term = &self.tf_rows[k].term;
                        let v = match self.df.get(term.as_str()) {
                            Some(v) => v,
                            None => {
                                proof {
                                    assert(self.df@.dom().contains(t));
                                }
                                0
                            },
                        };
                        let ghost df_pre = self.df@;
                        self.df.set(term.as_str(), v - 1);
                        proof {
                            assert(self.df@ == df_pre.insert(t, (df0[t] - 1) as usize));
                            assert(self.df@.dom() =~= df0.dom());
                            assert forall|u: Seq<char>| #[trigger]
                                df0.contains_key(u) implies self.df@[u] == (if (exists|l: int|
                                0 <= l < k + 1 && (#[trigger] rows0[l]).1 == rid && rows0[l].0
                                    == u) {
                                (df0[u] - 1) as usize
                            } else {
                                df0[u]
                            }) by {
                                if u == t {
                                    assert(rows0[k as int].1 == rid && rows0[k as int].0 == u);
                                } else {
                                    if exists|l: int|
                                        0 <= l < k + 1 && (#[trigger] rows0[l]).1 == rid
                                            && rows0[l].0 == u {
                                        let l = choose|l: int|
                                            0 <= l < k + 1 && (#[trigger] rows0[l]).1 == rid
                                                && rows0[l].0 == u;
                                        assert(l < k);
                                        assert(rows0[l].1 == rid && rows0[l].0 == u);
                                    }
                                }
                            }
                            assert(drop_rows_of(rows0.take(k + 1), rid) == drop_rows_of(
                                rows0.take(k as int),
                                rid,
                            ));
                        }
                    } else {
                        let row = TfRow {
                            term: self.tf_rows[k].term.clone(),
                            doc_id: self.tf_rows[k].doc_id,
                            freq: self.tf_rows[k].freq,
                        };
                        let ghost kept_pre = kept@.map_values(
                            |r: TfRow| (r.term@, r.doc_id, r.freq),
                        );
                        kept.push(row);
                        proof {
                            assert(kept@.map_values(|r: TfRow| (r.term@, r.doc_id, r.freq))
                                =~= kept_pre.push(rows0[k as int]));
                            assert forall|u: Seq<char>| #[trigger]
                                df0.contains_key(u) implies self.df@[u] == (if (exists|l: int|
                                0 <= l < k + 1 && (#[trigger] rows0[l]).1 == rid && rows0[l].0
                                    == u) {
                                (df0[u] - 1) as usize
                            } else {
                                df0[u]
                            }) by {
                                if exists|l: int|
                                    0 <= l < k + 1 && (#[trigger] rows0[l]).1 == rid && rows0[l].0
                                        == u {
                                    let l = choose|l: int|
                                        0 <= l < k + 1 && (#[trigger] rows0[l]).1 == rid
                                            && rows0[l].0 == u;
                                    assert(l < k);
                                    assert(rows0[l].1 == rid && rows0[l].0 == u);
                                }
                            }
                            assert(drop_rows_of(rows0.take(k + 1), rid) =~= drop_rows_of(
                                rows0.take(k as int),
                                rid,
                            ).push(rows0[k as int]));
                        }
                    }
                    k = k + 1;
                }
                proof {
                    assert(rows0.take(nrows as int) =~= rows0);
                    assert forall|u: Seq<char>| true implies ((exists|l: int|
                        0 <= l < nrows && (#[trigger] rows0[l]).1 == rid && rows0[l].0 == u)
                        <==> old_tf.contains_key(u)) by {
                        lemma_tf_of_contains(rows0, rid, u);
                    }
                    assert(self.df@ =~= df_after_remove(df0, old_tf));
                }
                self.tf_rows = kept;
                let ghost docs_pre = self.doc_rows@;
                let _ = self.doc_rows.remove(i);
                proof {
                    assert(self.doc_rows@ =~= docs_pre.remove(i as int));
                    assert(self.tf_seq() == drop_rows_of(rows0, rid));
                    lemma_drop_rows_distinct(rows0, rid);
                    lemma_drop_rows_elements(rows0, rid);
                    assert forall|j: int|
                        0 <= j < self.doc_seq().len() implies #[trigger] self.doc_seq()[j]
                        == c0.docs.remove(i as int)[j] by {
                        let j0 = if j < i as int {
                            j
                        } else {
                            j + 1
                        };
                        assert(self.doc_rows@[j] == docs_pre[j0]);
                        assert(docs_pre[j0].id != rid);
                        lemma_drop_rows_tf(rows0, rid, docs_pre[j0].id);
                        assert(c0.docs[j0] == (docs_pre[j0].path@, SpecDoc {
                            tf: tf_of(rows0, docs_pre[j0].id),
                            count: docs_pre[j0].term_count,
                            last_modified: docs_pre[j0].last_modified,
                        }));
                    }
                    assert(self.doc_seq() =~= c0.docs.remove(i as int));
                    assert(remove_path(c0.docs, file_path@) == c0.docs.remove(i as int));
                    assert(self@ == spec_remove(c0, file_path@));
                    lemma_spec_remove_preserves_wf(c0, file_path@);
                    // structural invariants of the relations
                    assert forall|i0: int, j0: int|
                        0 <= i0 < j0 < self.doc_rows@.len() implies (
                    #[trigger] self.doc_rows@[i0]).id != (#[trigger] self.doc_rows@[j0]).id by {
                        let i1 = if i0 < i as int {
                            i0
                        } else {
                            i0 + 1
                        };
                        let j1 = if j0 < i as int {
                            j0
                        } else {
                            j0 + 1
                        };
                        assert(self.doc_rows@[i0] == docs_pre[i1]);
                        assert(self.doc_rows@[j0] == docs_pre[j1]);
                    }
                    assert forall|i0: int|
                        0 <= i0 < self.doc_rows@.len() implies (#[trigger] self.doc_rows@[i0]).id
                        < self.next_id by {
                        let i1 = if i0 < i as int {
                            i0
                        } else {
                            i0 + 1
                        };
                        assert(self.doc_rows@[i0] == docs_pre[i1]);
                    }
                    assert forall|k0: int|
                        0 <= k0 < self.tf_seq().len() implies self.row_id_live(
                        (#[trigger] self.tf_seq()[k0]).1,
                    ) by {
                        assert(self.tf_seq()[k0] == drop_rows_of(rows0, rid)[k0]);
                        let k1 = choose|k1: int|
                            0 <= k1 < rows0.len() && (#[trigger] drop_rows_of(rows0, rid)[k0])
                                == rows0[k1];
                        assert(old(self).tf_seq()[k1] == rows0[k1]);
                        assert(old(self).row_id_live(rows0[k1].1));
                        let i1 = choose|i1: int|
                            0 <= i1 < docs_pre.len() && (#[trigger] docs_pre[i1]).id == rows0[
                            k1].1;
                        assert(i1 != i as int) by {
                            assert(self.tf_seq()[k0].1 != rid);
                        }
                        let i2 = if i1 < i as int {
                            i1
                        } else {
                            i1 - 1
                        };
                        assert(self.doc_rows@[i2] == docs_pre[i1]);
                        assert(self.doc_rows@[i2].id == self.tf_seq()[k0].1);
                    }
                    assert(self.wf());
                }
            },
        }
    }
}




impl RelationalModel {
    /// Atomically replace any document stored at `file_path`: delete the old
    /// rows, capture a freshly generated id, insert one term-frequency row
    /// per distinct term of the tokenized `content`, and upsert each term's
    /// document-frequency count. Fails only when the id generator is
    /// exhausted, leaving the relations untouched.
    pub fn add_document(&mut self, file_path: String, last_modified: u64, content: &[char]) -> (r:
        Result<(), StorageError>)
        requires
            old(self).wf(),
        ensures
            final(self).wf(),
            r is Ok <==> !old(self).id_space_full(),
            r is Err ==> final(self)@ == old(self)@,
            r is Ok ==> final(self)@ == spec_add(
                old(self)@,
                file_path@,
                lex(content@),
                last_modified,
            ),
    {
        if self.next_id == u64::MAX {
            return Err(StorageError::Engine);
        }
        let ghost c0 = self@;
        let ghost p = file_path@;
        let tokens = tokenize(content);
        let ghost toks = tokens.deep_view();
        self.remove_document(file_path.as_str());
        let ghost c1 = self@;
        proof {
            lemma_spec_remove_preserves_wf(c0, p);
        }
        let id = self.next_id;
        self.next_id = self.next_id + 1;
        proof {
            assert(self@ == c1);
        }
        let cm = count_tokens(&tokens);
        let count = tokens.len();
        let ghost rows1 = self.tf_seq();
        let ghost df1 = self.df@;
        let ghost docs_pre = self.doc_rows@;
        proof {
            // No existing row carries the fresh id.
            assert forall|k: int| 0 <= k < rows1.len() implies (#[trigger] rows1[k]).1 != id by {
                assert(self.row_id_live(rows1[k].1));
                let i0 = choose|i0: int|
                    0 <= i0 < self.doc_rows@.len() && (#[trigger] self.doc_rows@[i0]).id
                        == rows1[k].1;
            }
            lemma_tf_of_absent(rows1, id);
        }
        self.doc_rows.push(DocRow { id, path: file_path, term_count: count, last_modified });
        let total_docs = self.doc_rows.len();
        proof {
            assert(total_docs == docs_pre.len() + 1);
        }
        let ghost d = doc_from_tokens(toks, last_modified);
        let ghost keys = cm.entry_seq();
        let n = cm.len();
        let mut j: usize = 0;
        while j < n
            invariant
                cm.wf(),
                cm@ == occ_map(toks),
                keys == cm.entry_seq(),
                n == keys.len(),
                j <= n,
                d == doc_from_tokens(toks, last_modified),
                self.doc_rows@.len() == docs_pre.len() + 1,
                forall|l: int| 0 <= l < docs_pre.len() ==> (#[trigger] self.doc_rows@[l])
                    == docs_pre[l],
                self.doc_rows@[docs_pre.len() as int].id == id,
                self.doc_rows@[docs_pre.len() as int].path@ == p,
                self.doc_rows@[docs_pre.len() as int].term_count == d.count,
                self.doc_rows@[docs_pre.len() as int].last_modified == last_modified,
                self.next_id == id + 1,
                forall|i0: int| 0 <= i0 < docs_pre.len() ==> (#[trigger] docs_pre[i0]).id < id,
                forall|i0: int, j0: int|
                    0 <= i0 < j0 < docs_pre.len() ==> (#[trigger] docs_pre[i0]).id != (
                    #[trigger] docs_pre[j0]).id,
                rows1.len() + j == self.tf_seq().len(),
                forall|l: int| 0 <= l < rows1.len() ==> (#[trigger] self.tf_seq()[l]) == rows1[l],
                forall|l: int|
                    0 <= l < j ==> (#[trigger] self.tf_seq()[rows1.len() + l]) == (
                    keys[l].0,
                    id,
                    keys[l].1,
                ),
                distinct_tf_rows(self.tf_seq()),
                forall|l: int| 0 <= l < rows1.len() ==> (#[trigger] rows1[l]).1 != id,
                forall|l: int| 0 <= l < rows1.len() ==> exists|i0: int|
                    0 <= i0 < docs_pre.len() && (#[trigger] rows1[l]).1 == (
                    #[trigger] docs_pre[i0]).id,
                tf_of(self.tf_seq(), id) == assoc_map(keys.take(j as int)),
                forall|oid: u64|
                    oid != id ==> #[trigger] tf_of(self.tf_seq(), oid) == tf_of(rows1, oid),
                wf_corpus(c1),
                c1.docs.len() == docs_pre.len(),
                docs_pre.len() < usize::MAX,
                forall|t: Seq<char>| #[trigger]
                    c1.df.contains_key(t) ==> c1.df[t] == doc_count(c1.docs, t),
                df1 == c1.df,
                self.df.wf(),
                forall|t: Seq<char>|
                    #![trigger self.df@.contains_key(t)]
                    #![trigger self.df@[t]]
                    {
                        &&& (self.df@.contains_key(t) <==> df1.contains_key(t) || (exists|l: int|
                            0 <= l < j && (#[trigger] keys[l]).0 == t))
                        &&& (self.df@.contains_key(t) ==> self.df@[t] == (if (exists|l: int|
                            0 <= l < j && (#[trigger] keys[l]).0 == t) {
                            if df1.contains_key(t) {
                                (df1[t] + 1) as usize
                            } else {
                                1usize
                            }
                        } else {
                            df1[t]
                        }))
                    },
            decreases n - j,
        {
            let term = cm.key_at(j).clone();
            let freq = cm.count_at(j);
            let ghost t = term@;
            proof {
                assert(t == keys[j as int].0);
                cm.lemma_index(j as int);
                assert forall|l: int| 0 <= l < j implies (#[trigger] keys[l]).0 != t by {
                    assert(cm.wf());
                }
                if df1.contains_key(t) {
                    assert(df1[t] == doc_count(c1.docs, t));
                    crate::corpus::lemma_doc_count_bounds(c1.docs, t);
                }
            }
            // Upsert the term's document-frequency count.
            match self.df.get(term.as_str()) {
                Some(v) => {
                    proof {
                        assert(df1.contains_key(t));
                        assert(v == df1[t]);
                        assert(v < usize::MAX);
                    }
                    self.df.set(term.as_str(), v + 1);
                },
                None => {
                    proof {
                        assert(!df1.contains_key(t));
                    }
                    self.df.set(term.as_str(), 1);
                },
            }
            proof {
                assert(keys[j as int].0 == t);
                assert forall|u: Seq<char>|
                    #![trigger self.df@.contains_key(u)]
                    #![trigger self.df@[u]]
                    {
                        &&& (self.df@.contains_key(u) <==> df1.contains_key(u) || (exists|l: int|
                            0 <= l < j + 1 && (#[trigger] keys[l]).0 == u))
                        &&& (self.df@.contains_key(u) ==> self.df@[u] == (if (exists|l: int|
                            0 <= l < j + 1 && (#[trigger] keys[l]).0 == u) {
                            if df1.contains_key(u) {
                                (df1[u] + 1) as usize
                            } else {
                                1usize
                            }
                        } else {
                            df1[u]
                        }))
                    } by {
                    if u == t {
                        assert(keys[j as int].0 == u);
                    } else {
                        if exists|l: int| 0 <= l < j + 1 && (#[trigger] keys[l]).0 == u {
                            let l = choose|l: int| 0 <= l < j + 1 && (#[trigger] keys[l]).0 == u;
                            assert(l != j);
                            assert(0 <= l < j && keys[l].0 == u);
                        }
                    }
                }
            }
            // Insert the term-frequency row.
            let ghost rows_pre = self.tf_seq();
            self.tf_rows.push(TfRow { term, doc_id: id, freq });
            proof {
                assert(self.tf_seq() =~= rows_pre.push((t, id, freq)));
                assert(self.tf_seq().drop_last() =~= rows_pre);
                assert(self.tf_seq().last() == (t, id, freq));
                assert(tf_of(self.tf_seq(), id) == tf_of(rows_pre, id).insert(t, freq));
                assert(keys.take(j + 1) =~= keys.take(j as int).push((t, freq)));
                crate::counts::lemma_assoc_push(keys.take(j as int), (t, freq));
                assert(tf_of(self.tf_seq(), id) == assoc_map(keys.take(j + 1)));
                assert forall|oid: u64| oid != id implies #[trigger] tf_of(self.tf_seq(), oid)
                    == tf_of(rows1, oid) by {
                    assert(tf_of(self.tf_seq(), oid) == tf_of(rows_pre, oid));
                }
                assert forall|i0: int, j0: int|
                    0 <= i0 < j0 < self.tf_seq().len() implies ((#[trigger] self.tf_seq()[i0]).0,
                self.tf_seq()[i0].1) != ((#[trigger] self.tf_seq()[j0]).0, self.tf_seq()[j0].1) by {
                    if j0 == self.tf_seq().len() - 1 {
                        if i0 < rows1.len() {
                            assert(self.tf_seq()[i0] == rows_pre[i0]);
                            assert(rows_pre[i0] == rows1[i0]);
                            assert(self.tf_seq()[i0].1 != id);
                        } else {
                            let l = i0 - rows1.len();
                            assert(rows_pre[rows1.len() + l] == (keys[l].0, id, keys[l].1));
                            assert(self.tf_seq()[i0] == rows_pre[i0]);
                            assert(keys[l].0 != t);
                        }
                    }
                }
            }
            j = j + 1;
        }
        proof {
            assert(keys.take(n as int) =~= keys);
            // The appended document's term-frequency map is the token counts.
            assert(tf_of(self.tf_seq(), id) == cm@);
            // The document sequence is the old one with the new entry.
            assert forall|l: int|
                0 <= l < self.doc_seq().len() implies #[trigger] self.doc_seq()[l] == c1.docs.push(
                (p, d),
            )[l] by {
                if l < docs_pre.len() {
                    assert(self.doc_rows@[l] == docs_pre[l]);
                    assert(docs_pre[l].id != id);
                    assert(tf_of(self.tf_seq(), docs_pre[l].id) == tf_of(rows1, docs_pre[l].id));
                    assert(c1.docs[l] == (docs_pre[l].path@, SpecDoc {
                        tf: tf_of(rows1, docs_pre[l].id),
                        count: docs_pre[l].term_count,
                        last_modified: docs_pre[l].last_modified,
                    }));
                } else {
                    assert(self.doc_rows@[l].id == id);
                    assert(d.tf == occ_map(toks));
                }
            }
            assert(self.doc_seq() =~= c1.docs.push((p, d)));
            // The document-frequency map matches the abstract transition.
            assert forall|u: Seq<char>| true implies ((exists|l: int|
                0 <= l < n && (#[trigger] keys[l]).0 == u) <==> d.tf.contains_key(u)) by {
                cm.lemma_contains(u);
            }
            assert(self.df@ =~= df_after_add(df1, d.tf));
            assert(self@ == spec_add(c0, p, toks, last_modified));
            assert(toks == lex(content@));
            lemma_spec_add_preserves_wf(c0, p, toks, last_modified);
            // Structural invariants of the relations.
            assert forall|i0: int, j0: int|
                0 <= i0 < j0 < self.doc_rows@.len() implies (#[trigger] self.doc_rows@[i0]).id
                != (#[trigger] self.doc_rows@[j0]).id by {
                if j0 == self.doc_rows@.len() - 1 {
                    assert(self.doc_rows@[i0] == docs_pre[i0]);
                }
            }
            assert forall|i0: int|
                0 <= i0 < self.doc_rows@.len() implies (#[trigger] self.doc_rows@[i0]).id
                < self.next_id by {
                if i0 < docs_pre.len() {
                    assert(self.doc_rows@[i0] == docs_pre[i0]);
                }
            }
            assert forall|k0: int|
                0 <= k0 < self.tf_seq().len() implies self.row_id_live(
                (#[trigger] self.tf_seq()[k0]).1,
            ) by {
                if k0 < rows1.len() {
                    assert(self.tf_seq()[k0] == rows1[k0]);
                    let i0 = choose|i0: int|
                        0 <= i0 < docs_pre.len() && (#[trigger] rows1[k0]).1 == (
                        #[trigger] docs_pre[i0]).id;
                    assert(self.doc_rows@[i0] == docs_pre[i0]);
                    assert(self.doc_rows@[i0].id == self.tf_seq()[k0].1);
                } else {
                    let l = k0 - rows1.len();
                    assert(self.tf_seq()[rows1.len() + l] == (keys[l].0, id, keys[l].1));
                    assert(rows1.len() + l == k0);
                    assert(self.tf_seq()[k0].1 == id);
                    assert(self.doc_rows@[docs_pre.len() as int].id == id);
                }
            }
            assert(self.wf());
        }
        Ok(())
    }
}



impl RelationalModel {
    /// The aggregate document-frequency count recorded for a term, zero
    /// when the term is absent.
    pub fn document_frequency(&self, term: &str) -> (n: usize)
        requires
            self.wf(),
        ensures
            n == doc_count(self@.docs, term@),
    {
        match self.df.get(term) {
            Some(v) => {
                proof {
                    assert(self@.df.contains_key(term@));
                    assert(self@.df[term@] == doc_count(self@.docs, term@));
                }
                v
            },
            None => {
                proof {
                    assert forall|i: int|
                        0 <= i < self@.docs.len() implies !(#[trigger] self@.docs[i]).1.tf.contains_key(
                        term@,
                    ) by {
                        if self@.docs[i].1.tf.contains_key(term@) {
                            assert(self@.df.contains_key(term@));
                        }
                    }
                    lemma_doc_count_absent(self@.docs, term@);
                }
                0
            },
        }
    }

    /// The stored occurrence count of `term` in the document with row `i`,
    /// zero when no row records it.
    fn tf_lookup(&self, i: usize, term: &str) -> (n: usize)
        requires
            self.wf(),
            i < self@.docs.len(),
        ensures
            n == if self@.docs[i as int].1.tf.contains_key(term@) {
                self@.docs[i as int].1.tf[term@]
            } else {
                0usize
            },
    {
        let id = self.doc_rows[i].id;
        proof {
            assert(self@.docs[i as int].1.tf == tf_of(self.tf_seq(), id));
        }
        let n = self.tf_rows.len();
        let mut k: usize = 0;
        while k < n
            invariant
                self.wf(),
                n == self.tf_seq().len(),
                n == self.tf_rows@.len(),
                k <= n,
                (i as int) < self.doc_rows@.len(),
                (i as int) < self@.docs.len(),
                id == self.doc_rows@[i as int].id,
                forall|l: int|
                    0 <= l < k ==> !((#[trigger] self.tf_seq()[l]).1 == id && self.tf_seq()[l].0
                        == term@),
            decreases n - k,
        {
            proof {
                assert(self.tf_seq()[k as int] == (self.tf_rows@[k as int].term@,
                    self.tf_rows@[k as int].doc_id, self.tf_rows@[k as int].freq));
            }
            if self.tf_rows[k].doc_id == id {
                if str_eq(self.tf_rows[k].term.as_str(), term) {
                    proof {
                        assert(self.tf_seq()[k as int].0 == term@);
                        assert(self.tf_seq()[k as int].1 == id);
                        lemma_tf_of_index(self.tf_seq(), id, k as int);
                        assert(tf_of(self.tf_seq(), id)[term@] == self.tf_seq()[k as int].2);
                        assert(self.tf_rows@[k as int].freq == self.tf_seq()[k as int].2);
                        assert(id == self.doc_rows@[i as int].id);
                        assert(self@.docs[i as int].1.tf == tf_of(self.tf_seq(), id));
                    }
                    return self.tf_rows[k].freq;
                }
            }
            k = k + 1;
        }
        proof {
            lemma_tf_of_contains(self.tf_seq(), id, term@);
            if tf_of(self.tf_seq(), id).contains_key(term@) {
                let l = choose|l: int|
                    0 <= l < self.tf_seq().len() && (#[trigger] self.tf_seq()[l]).1 == id
                        && self.tf_seq()[l].0 == term@;
                assert(false);
            }
        }
        0
    }

    /// Answer a query by a scan over the relations: tokenize it with the
    /// same tokenizer used for indexing, and return, for every stored
    /// document in row order, the exact per-token ranking statistics —
    /// the same answer the snapshot backend gives for an equal corpus.
    pub fn search_query(&self, query: &[char]) -> (r: Vec<SearchHit>)
        requires
            self.wf(),
        ensures
            r@.len() == spec_search(self@.docs, lex(query@)).len(),
            forall|i: int|
                0 <= i < r@.len() ==> (#[trigger] r@[i])@ == spec_search(self@.docs, lex(query@))[i],
    {
        let tokens = tokenize(query);
        let ghost q = tokens.deep_view();
        let nd = self.doc_rows.len();
        let mut r: Vec<SearchHit> = Vec::new();
        let mut i: usize = 0;
        while i < nd
            invariant
                self.wf(),
                q == tokens.deep_view(),
                q == lex(query@),
                nd == self.doc_rows@.len(),
                nd == self@.docs.len(),
                i <= nd,
                r@.len() == i,
                forall|k: int|
                    0 <= k < i ==> (#[trigger] r@[k])@ == spec_search(self@.docs, q)[k],
            decreases nd - i,
        {
            let nq = tokens.len();
            let mut stats: Vec<TokenStat> = Vec::new();
            let ghost dv = self@.docs[i as int].1;
            let mut j: usize = 0;
            while j < nq
                invariant
                    self.wf(),
                    q == tokens.deep_view(),
                    nd == self.doc_rows@.len(),
                    nd == self@.docs.len(),
                    0 <= (i as int) < nd,
                    dv == self@.docs[i as int].1,
                    nq == q.len(),
                    j <= nq,
                    stats@.len() == j,
                    forall|k: int|
                        0 <= k < j ==> (#[trigger] stats@[k]) == spec_stat(self@.docs, dv, q[k]),
                decreases nq - j,
            {
                let term = &tokens[j];
                proof {
                    assert(q[j as int] == term@);
                }
                let tfc = self.tf_lookup(i, term.as_str());
                let dfv = self.document_frequency(term.as_str());
                let dfs = if dfv >= 1 {
                    dfv
                } else {
                    1
                };
                let dl = self.doc_rows[i].term_count;
                proof {
                    assert(dv.count == self.doc_rows@[i as int].term_count);
                }
                stats.push(
                    TokenStat { tf_count: tfc, doc_len: dl, corpus_size: nd, df_smoothed: dfs },
                );
                proof {
                    assert(stats@.last() == spec_stat(self@.docs, dv, term@));
                }
                j = j + 1;
            }
            let hit = SearchHit { path: self.doc_rows[i].path.clone(), stats };
            r.push(hit);
            proof {
                assert(stats@ =~= spec_stats(self@.docs, dv, q));
                assert(self@.docs[i as int].0 == self.doc_rows@[i as int].path@);
                assert(r@.last()@ == spec_search(self@.docs, q)[i as int]);
            }
            i = i + 1;
        }
        r
    }
}


} // verus!
