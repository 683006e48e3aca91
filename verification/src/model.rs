//! The snapshot (in-memory) storage backend.
//!
//! Holds the whole corpus in working memory: documents in insertion order
//! with their per-term statistics, plus the aggregate document-frequency
//! map, maintained incrementally on every mutation.

use vstd::prelude::*;

use crate::chars::str_eq;
use crate::corpus::df_after_add;
use crate::corpus::df_after_remove;
use crate::corpus::doc_at;
use crate::corpus::doc_count;
use crate::corpus::doc_from_tokens;
use crate::corpus::has_path;
use crate::corpus::lemma_doc_count_absent;
use crate::corpus::lemma_doc_count_member;
use crate::corpus::lemma_occ_count_bounds;
use crate::corpus::lemma_occ_map_push;
use crate::corpus::lemma_path_index;
use crate::corpus::lemma_spec_add_preserves_wf;
use crate::corpus::lemma_spec_remove_preserves_wf;
use crate::corpus::occ_count;
use crate::corpus::occ_map;
use crate::corpus::path_index;
use crate::corpus::remove_path;
use crate::corpus::spec_add;
use crate::corpus::spec_remove;
use crate::corpus::spec_requires_reindexing;
use crate::corpus::wf_corpus;
use crate::corpus::SpecCorpus;
use crate::corpus::SpecDoc;
use crate::counts::CountMap;
use crate::errors::SnapshotError;
use crate::errors::StorageError;
use crate::lexer::lex;
use crate::lexer::tokenize;
use crate::score::spec_search;
use crate::score::spec_stat;
use crate::score::spec_stats;
use crate::score::TokenStat;

verus! {

/// The stored statistics of one document.
pub struct Doc {
    tf: CountMap,
    count: usize,
    last_modified: u64,
}

impl View for Doc {
    type V = SpecDoc;

    closed spec fn view(&self) -> SpecDoc {
        SpecDoc { tf: self.tf@, count: self.count, last_modified: self.last_modified }
    }
}

impl Doc {
    pub closed spec fn wf(self) -> bool {
        &&& self.tf.wf()
        &&& self.tf.total() == self.count as int
    }

    /// Total number of tokens of the document.
    pub fn term_count(&self) -> (n: usize)
        ensures
            n == self@.count,
    {
        self.count
    }

    /// The source timestamp the document was indexed at.
    pub fn last_modified(&self) -> (ts: u64)
        ensures
            ts == self@.last_modified,
    {
        self.last_modified
    }

    /// The stored occurrence count of a term, zero when absent.
    pub fn frequency_of(&self, term: &str) -> (n: usize)
        requires
            self.wf(),
        ensures
            n == if self@.tf.contains_key(term@) {
                self@.tf[term@]
            } else {
                0usize
            },
    {
        match self.tf.get(term) {
            Some(v) => v,
            None => 0,
        }
    }
}

/// One entry of a query answer: a stored document's path and the exact
/// statistics of every query token against that document.
pub struct SearchHit {
    pub path: String,
    pub stats: Vec<TokenStat>,
}

impl View for SearchHit {
    type V = (Seq<char>, Seq<TokenStat>);

    open spec fn view(&self) -> (Seq<char>, Seq<TokenStat>) {
        (self.path@, self.stats@)
    }
}

/// Count the occurrences of each token, in first-occurrence order.
pub(crate) fn count_tokens(tokens: &Vec<String>) -> (tf: CountMap)
    ensures
        tf.wf(),
        tf@ == occ_map(tokens.deep_view()),
        tf.total() == tokens.deep_view().len(),
{
    let ghost all = tokens.deep_view();
    let mut tf = CountMap::new();
    proof {
        assert(all.take(0) =~= Seq::<Seq<char>>::empty());
        assert(occ_map(all.take(0)) =~= Map::<Seq<char>, usize>::empty());
    }
    let n = tokens.len();
    let mut i: usize = 0;
    while i < n
        invariant
            n == all.len(),
            all == tokens.deep_view(),
            i <= n,
            tf.wf(),
            tf@ == occ_map(all.take(i as int)),
            tf.total() == i,
        decreases n - i,
    {
        let t = &tokens[i];
        let ghost prefix = all.take(i as int);
        proof {
            lemma_occ_count_bounds(prefix, t@);
            assert(all[i as int] == t@);
        }
        let v = match tf.get(t.as_str()) {
            Some(v) => {
                proof {
                    assert(v == occ_count(prefix, t@));
                }
                v
            },
            None => {
                proof {
                    assert(occ_count(prefix, t@) == 0);
                }
                0
            },
        };
        tf.set(t.as_str(), v + 1);
        proof {
            lemma_occ_map_push(prefix, t@);
            assert(all.take(i + 1) =~= prefix.push(t@));
        }
        i = i + 1;
    }
    proof {
        assert(all.take(n as int) =~= all);
    }
    tf
}

/// The snapshot backend: the corpus held in working memory.
pub struct InMemoryModel {
    docs: Vec<(String, Doc)>,
    df: CountMap,
}

impl View for InMemoryModel {
    type V = SpecCorpus;

    closed spec fn view(&self) -> SpecCorpus {
        SpecCorpus { docs: self.doc_seq(), df: self.df@ }
    }
}

impl InMemoryModel {
    pub closed spec fn doc_seq(self) -> Seq<(Seq<char>, SpecDoc)> {
        self.docs@.map_values(|e: (String, Doc)| (e.0@, e.1@))
    }

    pub closed spec fn wf(self) -> bool {
        &&& wf_corpus(self@)
        &&& self.df.wf()
        &&& forall|i: int| 0 <= i < self.docs@.len() ==> (#[trigger] self.docs@[i]).1.wf()
    }

    /// Sum of the stored per-term occurrence counts of document `i`.
    pub closed spec fn stored_tf_sum(self, i: int) -> int {
        self.docs@[i].1.tf.total()
    }

    /// An empty corpus.
    pub fn new() -> (m: InMemoryModel)
        ensures
            m.wf(),
            m@ == (SpecCorpus { docs: Seq::<(Seq<char>, SpecDoc)>::empty(), df: Map::<
                Seq<char>,
                usize,
            >::empty() }),
    {
        let m = InMemoryModel { docs: Vec::new(), df: CountMap::new() };
        proof {
            assert(m.doc_seq() =~= Seq::<(Seq<char>, SpecDoc)>::empty());
        }
        m
    }

    /// Number of stored documents.
    pub fn document_count(&self) -> (n: usize)
        ensures
            n == self@.docs.len(),
    {
        self.docs.len()
    }

    /// The aggregate document-frequency count recorded for a term, zero when
    /// the term is absent.
    pub fn document_frequency(&self, term: &str) -> (n: usize)
        requires
            self.wf(),
        ensures
            n == doc_count(self@.docs, term@),
    {
        match self.df.get(term) {
            Some(v) => {
                proof {
                    assert(self@.df.contains_key(term@));
                    assert(self@.df[term@] == doc_count(self@.docs, term@));
                }
                v
            },
            None => {
                proof {
                    self.lemma_untracked_term_unstored(term@);
                    lemma_doc_count_absent(self@.docs, term@);
                }
                0
            },
        }
    }

    /// A term with no document-frequency entry occurs in no stored document.
    proof fn lemma_untracked_term_unstored(self, t: Seq<char>)
        requires
            self.wf(),
            !self@.df.contains_key(t),
        ensures
            forall|i: int| 0 <= i < self@.docs.len() ==> !(#[trigger] self@.docs[i]).1.tf.contains_key(t),
    {
        assert forall|i: int|
            0 <= i < self@.docs.len() implies !(#[trigger] self@.docs[i]).1.tf.contains_key(t) by {
            if self@.docs[i].1.tf.contains_key(t) {
                assert(self@.df.contains_key(t));
            }
        }
    }

    fn find_doc(&self, path: &str) -> (r: Option<usize>)
        ensures
            match r {
                Some(i) => i < self@.docs.len() && self@.docs[i as int].0 == path@,
                None => !has_path(self@.docs, path@),
            },
    {
        let n = self.docs.len();
        let mut i: usize = 0;
        while i < n
            invariant
                n == self@.docs.len(),
                n == self.docs@.len(),
                i <= n,
                forall|j: int| 0 <= j < i ==> (#[trigger] self@.docs[j]).0 != path@,
            decreases n - i,
        {
            proof {
                assert(self@.docs[i as int].0 == self.docs@[i as int].0@);
            }
            if str_eq(self.docs[i].0.as_str(), path) {
                return Some(i);
            }
            i = i + 1;
        }
        proof {
            if has_path(self@.docs, path@) {
                let j = choose|j: int|
                    0 <= j < self@.docs.len() && (#[trigger] self@.docs[j]).0 == path@;
                assert(false);
            }
        }
        None
    }

    /// Whether `file_path` must be (re)indexed: no document is stored for
    /// it, or the stored timestamp predates `last_modified`. Does not mutate
    /// the corpus.
    pub fn requires_reindexing(&self, file_path: &str, last_modified: u64) -> (r: bool)
        requires
            self.wf(),
        ensures
            r == spec_requires_reindexing(self@, file_path@, last_modified),
    {
        match self.find_doc(file_path) {
            Some(i) => {
                proof {
                    assert(has_path(self@.docs, file_path@));
                    lemma_path_index(self@.docs, file_path@);
                    assert(path_index(self@.docs, file_path@) == i as int);
                }
                self.docs[i].1.last_modified < last_modified
            },
            None => true,
        }
    }

    /// Remove the document stored at `file_path`, if any, decrementing the
    /// document frequency of each of its terms.
    pub fn remove_document(&mut self, file_path: &str)
        requires
            old(self).wf(),
        ensures
            final(self).wf(),
            final(self)@ == spec_remove(old(self)@, file_path@),
    {
        let ghost c0 = self@;
        let found = self.find_doc(file_path);
        match found {
            None => {
                proof {
                    assert(spec_remove(c0, file_path@) == c0);
                }
            },
            Some(i) => {
                proof {
                    assert(has_path(c0.docs, file_path@));
                    lemma_path_index(c0.docs, file_path@);
                    assert(path_index(c0.docs, file_path@) == i as int);
                }
                let ghost df0 = self.df@;
                let ghost tf0 = self.docs@[i as int].1.tf@;
                let ghost keys = self.docs@[i as int].1.tf.entry_seq();
                let n = self.docs[i].1.tf.len();
                let mut j: usize = 0;
                while j < n
                    invariant
                        old(self).wf(),
                        c0 == old(self)@,
                        self.docs == old(self).docs,
                        0 <= (i as int) < self.docs@.len(),
                        keys == self.docs@[i as int].1.tf.entry_seq(),
                        tf0 == self.docs@[i as int].1.tf@,
                        n == keys.len(),
                        j <= n,
                        df0 == old(self).df@,
                        self.df.wf(),
                        self.df@.dom() == df0.dom(),
                        forall|t: Seq<char>| #[trigger]
                            df0.contains_key(t) ==> self.df@[t] == if (exists|k: int|
                                0 <= k < j && (#[trigger] keys[k]).0 == t) {
                                (df0[t] - 1) as usize
                            } else {
                                df0[t]
                            },
                    decreases n - j,
                {
                    let ghost tf_map = self.docs@[i as int].1.tf;
                    let term = self.docs[i].1.tf.key_at(j);
                    let ghost t = term@;
                    proof {
                        assert(t == keys[j as int].0);
                        tf_map.lemma_index(j as int);
                        assert(tf0.contains_key(t));
                        assert(c0.docs[i as int].1.tf == tf0);
                        assert(c0.df.contains_key(t));
                        lemma_doc_count_member(c0.docs, i as int, t);
                        assert(df0[t] == doc_count(c0.docs, t));
                        assert(df0[t] >= 1);
                        // `t` is not among the keys already processed.
                        assert forall|k: int| 0 <= k < j implies (#[trigger] keys[k]).0 != t by {
                            assert(tf_map.wf());
                        }
                        assert(self.df@[t] == df0[t]);
                    }
                    let v = match self.df.get(term.as_str()) {
                        Some(v) => v,
                        None => {
                            proof {
                                assert(self.df@.dom().contains(t));
                            }
                            0
                        },
                    };
                    let ghost df_pre = self.df@;
                    self.df.set(term.as_str(), v - 1);
                    proof {
                        assert(self.df@ == df_pre.insert(t, (df0[t] - 1) as usize));
                        assert(self.df@.dom() =~= df0.dom());
                        assert forall|u: Seq<char>| #[trigger]
                            df0.contains_key(u) implies self.df@[u] == (if (exists|k: int|
                            0 <= k < j + 1 && (#[trigger] keys[k]).0 == u) {
                            (df0[u] - 1) as usize
                        } else {
                            df0[u]
                        }) by {
                            if u == t {
                                assert(keys[j as int].0 == u);
                            } else {
                                assert forall|k: int|
                                    0 <= k < j + 1 && (#[trigger] keys[k]).0 == u implies k
                                    < j by {}
                            }
                        }
                    }
                    j = j + 1;
                }
                proof {
                    let tf_map = self.docs@[i as int].1.tf;
                    assert forall|u: Seq<char>| true implies ((exists|k: int|
                        0 <= k < n && (#[trigger] keys[k]).0 == u) <==> tf0.contains_key(u)) by {
                        tf_map.lemma_contains(u);
                    }
                    assert(self.df@ =~= df_after_remove(df0, tf0));
                }
                let ghost docs_pre = self.docs@;
                let _ = self.docs.remove(i);
                proof {
                    assert(self.docs@ =~= docs_pre.remove(i as int));
                    assert(self.doc_seq() =~= c0.docs.remove(i as int));
                    assert(remove_path(c0.docs, file_path@) == c0.docs.remove(i as int));
                    assert(doc_at(c0.docs, file_path@) == c0.docs[i as int].1);
                    assert(self@ == spec_remove(c0, file_path@));
                    lemma_spec_remove_preserves_wf(c0, file_path@);
                    assert forall|k: int|
                        0 <= k < self.docs@.len() implies (#[trigger] self.docs@[k]).1.wf() by {
                        if k < i as int {
                            assert(self.docs@[k] == docs_pre[k]);
                        } else {
                            assert(self.docs@[k] == docs_pre[k + 1]);
                        }
                    }
                }
            },
        }
    }

    /// Atomically replace any document stored at `file_path` with fresh
    /// statistics computed from the tokenized `content`, keeping the
    /// aggregate document-frequency counters consistent.
    pub fn add_document(&mut self, file_path: String, last_modified: u64, content: &[char]) -> (r:
        Result<(), StorageError>)
        requires
            old(self).wf(),
        ensures
            final(self).wf(),
            r is Ok,
            final(self)@ == spec_add(old(self)@, file_path@, lex(content@), last_modified),
    {
        let ghost c0 = self@;
        let ghost p = file_path@;
        let tokens = tokenize(content);
        let ghost toks = tokens.deep_view();
        self.remove_document(file_path.as_str());
        let ghost c1 = self@;
        proof {
            lemma_spec_remove_preserves_wf(c0, p);
        }
        let tf = count_tokens(&tokens);
        let count = tokens.len();
        let doc = Doc { tf, count, last_modified };
        let ghost docs_pre = self.docs@;
        let ghost d = doc@;
        self.docs.push((file_path, doc));
        proof {
            assert(self.doc_seq() =~= c1.docs.push((p, d)));
            assert(d == doc_from_tokens(toks, last_modified));
        }
        let di = self.docs.len() - 1;
        let ghost df1 = self.df@;
        let ghost keys = self.docs@[di as int].1.tf.entry_seq();
        let n = self.docs[di].1.tf.len();
        let mut j: usize = 0;
        while j < n
            invariant
                0 <= (di as int) < self.docs@.len(),
                di as int == self.docs@.len() - 1,
                self.docs@.len() <= usize::MAX,
                self.docs@.len() == docs_pre.len() + 1,
                forall|k: int| 0 <= k < docs_pre.len() ==> self.docs@[k] == docs_pre[k],
                self.doc_seq() == c1.docs.push((p, d)),
                forall|k: int| 0 <= k < docs_pre.len() ==> (#[trigger] docs_pre[k]).1.wf(),
                self.docs@[di as int].1.wf(),
                keys == self.docs@[di as int].1.tf.entry_seq(),
                self.docs@[di as int].1.tf.wf(),
                self.docs@[di as int].1.tf@ == d.tf,
                wf_corpus(c1),
                c1.docs.len() == self.docs@.len() - 1,
                forall|t: Seq<char>| #[trigger]
                    c1.df.contains_key(t) ==> c1.df[t] == doc_count(c1.docs, t),
                n == keys.len(),
                j <= n,
                df1 == c1.df,
                self.df.wf(),
                forall|t: Seq<char>|
                    #![trigger self.df@.contains_key(t)]
                    #![trigger self.df@[t]]
                    {
                        &&& (self.df@.contains_key(t) <==> df1.contains_key(t) || (exists|k: int|
                            0 <= k < j && (#[trigger] keys[k]).0 == t))
                        &&& (self.df@.contains_key(t) ==> self.df@[t] == (if (exists|k: int|
                            0 <= k < j && (#[trigger] keys[k]).0 == t) {
                            if df1.contains_key(t) {
                                (df1[t] + 1) as usize
                            } else {
                                1usize
                            }
                        } else {
                            df1[t]
                        }))
                    },
            decreases n - j,
        {
            let ghost tf_map = self.docs@[di as int].1.tf;
            let term_owned = self.docs[di].1.tf.key_at(j).clone();
            let term = &term_owned;
            let ghost t = term@;
            proof {
                assert(t == keys[j as int].0);
                tf_map.lemma_index(j as int);
                // `t` is not among the keys already processed.
                assert forall|k: int| 0 <= k < j implies (#[trigger] keys[k]).0 != t by {
                    assert(tf_map.wf());
                }
                if df1.contains_key(t) {
                    assert(df1[t] == doc_count(c1.docs, t));
                    crate::corpus::lemma_doc_count_bounds(c1.docs, t);
                }
            }
            match self.df.get(term.as_str()) {
                Some(v) => {
                    proof {
                        assert(df1.contains_key(t));
                        assert(v == df1[t]);
                        assert(v < usize::MAX);
                    }
                    self.df.set(term.as_str(), v + 1);
                },
                None => {
                    proof {
                        assert(!df1.contains_key(t));
                    }
                    self.df.set(term.as_str(), 1);
                },
            }
            proof {
                assert(keys[j as int].0 == t);
                assert forall|u: Seq<char>|
                    #![trigger self.df@.contains_key(u)]
                    #![trigger self.df@[u]]
                    {
                        &&& (self.df@.contains_key(u) <==> df1.contains_key(u) || (exists|k: int|
                            0 <= k < j + 1 && (#[trigger] keys[k]).0 == u))
                        &&& (self.df@.contains_key(u) ==> self.df@[u] == (if (exists|k: int|
                            0 <= k < j + 1 && (#[trigger] keys[k]).0 == u) {
                            if df1.contains_key(u) {
                                (df1[u] + 1) as usize
                            } else {
                                1usize
                            }
                        } else {
                            df1[u]
                        }))
                    } by {
                    if u == t {
                        assert(keys[j as int].0 == u);
                    } else {
                        if exists|k: int| 0 <= k < j + 1 && (#[trigger] keys[k]).0 == u {
                            let k = choose|k: int| 0 <= k < j + 1 && (#[trigger] keys[k]).0 == u;
                            assert(k != j);
                            assert(0 <= k < j && keys[k].0 == u);
                        }
                    }
                }
            }
            j = j + 1;
        }
        proof {
            let tf_map = self.docs@[di as int].1.tf;
            assert forall|u: Seq<char>| true implies ((exists|k: int|
                0 <= k < n && (#[trigger] keys[k]).0 == u) <==> d.tf.contains_key(u)) by {
                tf_map.lemma_contains(u);
            }
            assert(self.df@ =~= df_after_add(df1, d.tf));
            assert(self@ == spec_add(c0, p, toks, last_modified));
            assert(toks == lex(content@));
            lemma_spec_add_preserves_wf(c0, p, toks, last_modified);
            assert(wf_corpus(self@));
            assert forall|k: int|
                0 <= k < self.docs@.len() implies (#[trigger] self.docs@[k]).1.wf() by {
                if k < self.docs@.len() - 1 {
                    assert(self.docs@[k] == docs_pre[k]);
                }
            }
        }
        Ok(())
    }

    /// Answer a query: tokenize it with the same tokenizer used for
    /// indexing, and return, for every stored document in storage order, the
    /// exact per-token ranking statistics.
    pub fn search_query(&self, query: &[char]) -> (r: Vec<SearchHit>)
        requires
            self.wf(),
        ensures
            r@.len() == spec_search(self@.docs, lex(query@)).len(),
            forall|i: int|
                0 <= i < r@.len() ==> (#[trigger] r@[i])@ == spec_search(self@.docs, lex(query@))[i],
    {
        let tokens = tokenize(query);
        let ghost q = tokens.deep_view();
        let nd = self.docs.len();
        let mut r: Vec<SearchHit> = Vec::new();
        let mut i: usize = 0;
        while i < nd
            invariant
                self.wf(),
                q == tokens.deep_view(),
                q == lex(query@),
                nd == self.docs@.len(),
                i <= nd,
                r@.len() == i,
                forall|k: int|
                    0 <= k < i ==> (#[trigger] r@[k])@ == spec_search(self@.docs, q)[k],
            decreases nd - i,
        {
            let nq = tokens.len();
            let mut stats: Vec<TokenStat> = Vec::new();
            let ghost dv = self.docs@[i as int].1@;
            proof {
                assert(self@.docs[i as int].1 == dv);
            }
            let mut j: usize = 0;
            while j < nq
                invariant
                    self.wf(),
                    q == tokens.deep_view(),
                    nd == self.docs@.len(),
                    0 <= (i as int) < nd,
                    dv == self.docs@[i as int].1@,
                    dv == self@.docs[i as int].1,
                    nq == q.len(),
                    j <= nq,
                    stats@.len() == j,
                    forall|k: int|
                        0 <= k < j ==> (#[trigger] stats@[k]) == spec_stat(self@.docs, dv, q[k]),
                decreases nq - j,
            {
                let term = &tokens[j];
                let ghost t = term@;
                proof {
                    assert(q[j as int] == t);
                }
                let tfc = match self.docs[i].1.tf.get(term.as_str()) {
                    Some(v) => v,
                    None => 0,
                };
                let dfv = self.document_frequency(term.as_str());
                let dfs = if dfv >= 1 {
                    dfv
                } else {
                    1
                };
                let dl = self.docs[i].1.count;
                stats.push(TokenStat { tf_count: tfc, doc_len: dl, corpus_size: nd, df_smoothed: dfs });
                proof {
                    assert(stats@.last() == spec_stat(self@.docs, dv, t));
                }
                j = j + 1;
            }
            let hit = SearchHit { path: self.docs[i].0.clone(), stats };
            r.push(hit);
            proof {
                assert(stats@ =~= spec_stats(self@.docs, dv, q));
                assert(r@.last()@ == spec_search(self@.docs, q)[i as int]);
            }
            i = i + 1;
        }
        r
    }

    /// The raw term-frequency counts of any stored document sum exactly to
    /// its term count, so every term-frequency ratio lies in [0, 1].
    pub proof fn lemma_tf_counts_sum_to_count(self, i: int)
        requires
            self.wf(),
            0 <= i < self@.docs.len(),
        ensures
            self.stored_tf_sum(i) == self@.docs[i].1.count,
    {
    }

    /// The document-frequency invariant: after any sequence of mutations,
    /// every recorded document frequency equals the number of currently
    /// stored documents whose term-frequency map holds the term, and every
    /// stored term is recorded.
    pub proof fn lemma_df_invariant(self, t: Seq<char>)
        requires
            self.wf(),
        ensures
            self@.df.contains_key(t) ==> self@.df[t] == doc_count(self@.docs, t),
            forall|i: int|
                0 <= i < self@.docs.len() && #[trigger] self@.docs[i].1.tf.contains_key(t)
                    ==> self@.df.contains_key(t),
    {
    }
}


/// One document of a persisted snapshot: the path, the per-term occurrence
/// counts in storage order, the token total, and the source timestamp.
pub struct SnapshotDoc {
    pub path: String,
    pub term_frequency: Vec<(String, usize)>,
    pub term_count: usize,
    pub last_modified: u64,
}

/// The abstract content of one snapshot document record.
pub ghost struct SpecSnapshotDoc {
    pub path: Seq<char>,
    pub tf_rows: Seq<(Seq<char>, usize)>,
    pub term_count: usize,
    pub last_modified: u64,
}

impl View for SnapshotDoc {
    type V = SpecSnapshotDoc;

    open spec fn view(&self) -> SpecSnapshotDoc {
        SpecSnapshotDoc {
            path: self.path@,
            tf_rows: self.term_frequency@.map_values(|e: (String, usize)| (e.0@, e.1)),
            term_count: self.term_count,
            last_modified: self.last_modified,
        }
    }
}

/// A persisted snapshot of the whole corpus: the document records followed
/// by the aggregate document-frequency record.
pub struct Snapshot {
    pub docs: Vec<SnapshotDoc>,
    pub document_frequency: Vec<(String, usize)>,
}

/// The abstract content of a snapshot.
pub ghost struct SpecSnapshot {
    pub docs: Seq<SpecSnapshotDoc>,
    pub df_rows: Seq<(Seq<char>, usize)>,
}

impl View for Snapshot {
    type V = SpecSnapshot;

    open spec fn view(&self) -> SpecSnapshot {
        SpecSnapshot {
            docs: self.docs@.map_values(|d: SnapshotDoc| d@),
            df_rows: self.document_frequency@.map_values(|e: (String, usize)| (e.0@, e.1)),
        }
    }
}

/// The corpus a snapshot describes.
pub open spec fn corpus_of_snapshot(s: SpecSnapshot) -> SpecCorpus {
    SpecCorpus {
        docs: s.docs.map_values(
            |d: SpecSnapshotDoc|
                (
                    d.path,
                    SpecDoc {
                        tf: crate::counts::assoc_map(d.tf_rows),
                        count: d.term_count,
                        last_modified: d.last_modified,
                    },
                ),
        ),
        df: crate::counts::assoc_map(s.df_rows),
    }
}

/// A loadable snapshot: the corpus it describes satisfies the corpus
/// invariant, every record's keys are distinct, and every document's counts
/// sum to its token total.
pub open spec fn snapshot_wf(s: SpecSnapshot) -> bool {
    &&& wf_corpus(corpus_of_snapshot(s))
    &&& crate::counts::distinct_keys(s.df_rows)
    &&& forall|i: int|
        0 <= i < s.docs.len() ==> crate::counts::distinct_keys((#[trigger] s.docs[i]).tf_rows)
            && crate::counts::sum_counts(s.docs[i].tf_rows) == s.docs[i].term_count
}

impl InMemoryModel {
    /// The snapshot this corpus persists as, down to record order.
    pub closed spec fn snap_view(self) -> SpecSnapshot {
        SpecSnapshot {
            docs: self.docs@.map_values(
                |e: (String, Doc)|
                    SpecSnapshotDoc {
                        path: e.0@,
                        tf_rows: e.1.tf.entry_seq(),
                        term_count: e.1.count,
                        last_modified: e.1.last_modified,
                    },
            ),
            df_rows: self.df.entry_seq(),
        }
    }

    /// The snapshot of a corpus describes exactly that corpus, and a
    /// well-formed corpus persists as a loadable snapshot.
    pub proof fn lemma_snap_view_describes_corpus(self)
        ensures
            corpus_of_snapshot(self.snap_view()) == self@,
            self.wf() ==> snapshot_wf(self.snap_view()),
    {
        assert(corpus_of_snapshot(self.snap_view()).docs =~= self@.docs);
        assert(corpus_of_snapshot(self.snap_view()) == self@);
        if self.wf() {
            assert forall|i: int| 0 <= i < self.snap_view().docs.len() implies
                crate::counts::distinct_keys((#[trigger] self.snap_view().docs[i]).tf_rows)
                && crate::counts::sum_counts(self.snap_view().docs[i].tf_rows)
                == self.snap_view().docs[i].term_count by {
                assert(self.docs@[i].1.wf());
            }
        }
    }
}



impl InMemoryModel {
    /// Persist the corpus as a snapshot, down to record order.
    pub fn to_snapshot(&self) -> (s: Snapshot)
        ensures
            s@ == self.snap_view(),
    {
        let mut docs: Vec<SnapshotDoc> = Vec::new();
        let n = self.docs.len();
        let mut i: usize = 0;
        while i < n
            invariant
                n == self.docs@.len(),
                i <= n,
                docs@.len() == i,
                forall|k: int| 0 <= k < i ==> (#[trigger] docs@[k])@ == self.snap_view().docs[k],
            decreases n - i,
        {
            let sd = SnapshotDoc {
                path: self.docs[i].0.clone(),
                term_frequency: self.docs[i].1.tf.to_rows(),
                term_count: self.docs[i].1.count,
                last_modified: self.docs[i].1.last_modified,
            };
            docs.push(sd);
            i = i + 1;
        }
        let s = Snapshot { docs, document_frequency: self.df.to_rows() };
        proof {
            assert(s@.docs =~= self.snap_view().docs);
            assert(s@ == self.snap_view());
        }
        s
    }

    /// Load a corpus from a snapshot, validating it in full: a snapshot
    /// whose records are duplicated, hold zero counts, or disagree with the
    /// statistical invariants is rejected rather than loaded.
    pub fn from_snapshot(s: Snapshot) -> (r: Result<InMemoryModel, SnapshotError>)
        ensures
            r matches Ok(m) ==> m.wf() && m.snap_view() == s@,
            r is Err ==> !snapshot_wf(s@),
    {
        // The aggregate document-frequency record.
        let mut df = CountMap::new();
        let ndf = s.document_frequency.len();
        let mut i: usize = 0;
        while i < ndf
            invariant
                ndf == s@.df_rows.len(),
                ndf == s.document_frequency@.len(),
                i <= ndf,
                df.wf(),
                df.entry_seq() == s@.df_rows.take(i as int),
            decreases ndf - i,
        {
            let term = &s.document_frequency[i].0;
            let v = s.document_frequency[i].1;
            proof {
                assert(s@.df_rows[i as int] == (term@, v));
            }
            match df.get(term.as_str()) {
                Some(_) => {
                    proof {
                        df.lemma_contains(term@);
                        let j = choose|j: int|
                            0 <= j < df.entry_seq().len() && (#[trigger] df.entry_seq()[j]).0
                                == term@;
                        assert(s@.df_rows[j].0 == s@.df_rows[i as int].0);
                        assert(!crate::counts::distinct_keys(s@.df_rows));
                    }
                    return Err(SnapshotError::DuplicateTerm);
                },
                None => {},
            }
            df.set(term.as_str(), v);
            proof {
                assert(s@.df_rows.take(i + 1) =~= s@.df_rows.take(i as int).push((term@, v)));
            }
            i = i + 1;
        }
        proof {
            assert(df.entry_seq() =~= s@.df_rows);
        }
        // The document records.
        let mut docs: Vec<(String, Doc)> = Vec::new();
        let nd = s.docs.len();
        let mut di: usize = 0;
        while di < nd
            invariant
                nd == s@.docs.len(),
                nd == s.docs@.len(),
                di <= nd,
                docs@.len() == di,
                df.wf(),
                df.entry_seq() == s@.df_rows,
                forall|k: int|
                    0 <= k < di ==> {
                        &&& (#[trigger] docs@[k]).0@ == s@.docs[k].path
                        &&& docs@[k].1.tf.entry_seq() == s@.docs[k].tf_rows
                        &&& docs@[k].1.count == s@.docs[k].term_count
                        &&& docs@[k].1.last_modified == s@.docs[k].last_modified
                        &&& docs@[k].1.wf()
                    },
                forall|k1: int, k2: int|
                    0 <= k1 < k2 < di ==> (#[trigger] docs@[k1]).0@ != (#[trigger] docs@[k2]).0@,
                forall|k: int, l: int|
                    0 <= k < di && 0 <= l < (#[trigger] docs@[k]).1.tf.entry_seq().len()
                        ==> (#[trigger] docs@[k].1.tf.entry_seq()[l]).1 >= 1,
            decreases nd - di,
        {
            let sd = &s.docs[di];
            proof {
                assert(sd@ == s@.docs[di as int]);
            }
            // No two document records may share a path.
            let mut k: usize = 0;
            let built = docs.len();
            while k < built
                invariant
                    built == docs@.len(),
                    docs@.len() == di as int,
                    k <= built,
                    di < nd,
                    nd == s@.docs.len(),
                    nd == s.docs@.len(),
                    sd == s.docs@[di as int],
                    sd@ == s@.docs[di as int],
                    forall|k0: int|
                        0 <= k0 < docs@.len() ==> (#[trigger] docs@[k0]).0@ == s@.docs[k0].path,
                    forall|k0: int| 0 <= k0 < k ==> (#[trigger] docs@[k0]).0@ != sd@.path,
                decreases built - k,
            {
                if str_eq(docs[k].0.as_str(), sd.path.as_str()) {
                    proof {
                        let cs = corpus_of_snapshot(s@);
                        assert(docs@[k as int].0@ == s@.docs[k as int].path);
                        assert(s@.docs[k as int].path == s@.docs[di as int].path);
                        assert(cs.docs[k as int].0 == s@.docs[k as int].path);
                        assert(cs.docs[di as int].0 == s@.docs[di as int].path);
                        assert(!crate::corpus::distinct_paths(cs.docs));
                        assert(!snapshot_wf(s@));
                    }
                    return Err(SnapshotError::DuplicatePath);
                }
                k = k + 1;
            }
            // The document's term-frequency record.
            let mut tf = CountMap::new();
            let mut sum: usize = 0;
            let nrow = sd.term_frequency.len();
            let mut j: usize = 0;
            while j < nrow
                invariant
                    nd == s@.docs.len(),
                    nd == s.docs@.len(),
                    di < nd,
                    sd == s.docs@[di as int],
                    sd@ == s@.docs[di as int],
                    nrow == sd@.tf_rows.len(),
                    nrow == sd.term_frequency@.len(),
                    j <= nrow,
                    tf.wf(),
                    tf.entry_seq() == sd@.tf_rows.take(j as int),
                    sum == crate::counts::sum_counts(sd@.tf_rows.take(j as int)),
                    forall|l: int| 0 <= l < j ==> (#[trigger] sd@.tf_rows[l]).1 >= 1,
                decreases nrow - j,
            {
                let term = &sd.term_frequency[j].0;
                let v = sd.term_frequency[j].1;
                proof {
                    assert(sd@.tf_rows[j as int] == (term@, v));
                }
                match tf.get(term.as_str()) {
                    Some(_) => {
                        proof {
                            tf.lemma_contains(term@);
                            let l = choose|l: int|
                                0 <= l < tf.entry_seq().len() && (#[trigger] tf.entry_seq()[l]).0
                                    == term@;
                            assert(sd@.tf_rows[l].0 == sd@.tf_rows[j as int].0);
                            assert(!crate::counts::distinct_keys(sd@.tf_rows));
                            assert(!crate::counts::distinct_keys(s@.docs[di as int].tf_rows));
                            assert(!snapshot_wf(s@));
                        }
                        return Err(SnapshotError::DuplicateTerm);
                    },
                    None => {},
                }
                if v == 0 {
                    proof {
                        if crate::counts::distinct_keys(sd@.tf_rows) {
                            crate::counts::lemma_assoc_index(sd@.tf_rows, j as int);
                            let cs = corpus_of_snapshot(s@);
                            assert(cs.docs[di as int].1.tf == crate::counts::assoc_map(
                                sd@.tf_rows,
                            ));
                            assert(cs.docs[di as int].1.tf.contains_key(term@));
                            assert(cs.docs[di as int].1.tf[term@] == 0);
                            assert(!wf_corpus(cs));
                        } else {
                            assert(!crate::counts::distinct_keys(s@.docs[di as int].tf_rows));
                        }
                        assert(!snapshot_wf(s@));
                    }
                    return Err(SnapshotError::ZeroCount);
                }
                if v > usize::MAX - sum {
                    proof {
                        crate::counts::lemma_sum_take_le(sd@.tf_rows, j + 1);
                        assert(sd@.tf_rows.take(j + 1) =~= sd@.tf_rows.take(j as int).push(
                            (term@, v),
                        ));
                        crate::counts::lemma_sum_push(sd@.tf_rows.take(j as int), (term@, v));
                        assert(crate::counts::sum_counts(sd@.tf_rows) > usize::MAX);
                        assert(crate::counts::sum_counts(s@.docs[di as int].tf_rows)
                            != s@.docs[di as int].term_count);
                        assert(!snapshot_wf(s@));
                    }
                    return Err(SnapshotError::CountMismatch);
                }
                sum = sum + v;
                tf.set(term.as_str(), v);
                proof {
                    assert(sd@.tf_rows.take(j + 1) =~= sd@.tf_rows.take(j as int).push((term@, v)));
                    crate::counts::lemma_sum_push(sd@.tf_rows.take(j as int), (term@, v));
                }
                j = j + 1;
            }
            proof {
                assert(tf.entry_seq() =~= sd@.tf_rows);
            }
            if sum != sd.term_count {
                proof {
                    assert(crate::counts::sum_counts(sd@.tf_rows) != sd@.term_count);
                    assert(crate::counts::sum_counts(s@.docs[di as int].tf_rows)
                        != s@.docs[di as int].term_count);
                    assert(!snapshot_wf(s@));
                }
                return Err(SnapshotError::CountMismatch);
            }
            let doc = Doc { tf, count: sd.term_count, last_modified: sd.last_modified };
            docs.push((sd.path.clone(), doc));
            di = di + 1;
        }
        let m = InMemoryModel { docs, df };
        proof {
            assert(m.snap_view().docs =~= s@.docs);
            assert(m.snap_view() == s@);
            assert(m@.docs =~= corpus_of_snapshot(s@).docs);
            assert(m@.df == corpus_of_snapshot(s@).df);
        }
        // The aggregate record must agree with the documents.
        let ndf2 = m.df.len();
        let mut i2: usize = 0;
        while i2 < ndf2
            invariant
                ndf2 == m.df.entry_seq().len(),
                i2 <= ndf2,
                m.snap_view() == s@,
                m@.docs == corpus_of_snapshot(s@).docs,
                m@.df == corpus_of_snapshot(s@).df,
                m.df.wf(),
                forall|k0: int| 0 <= k0 < m.docs@.len() ==> (#[trigger] m.docs@[k0]).1.wf(),
                forall|l: int|
                    0 <= l < i2 ==> (#[trigger] m.df.entry_seq()[l]).1 == doc_count(
                        m@.docs,
                        m.df.entry_seq()[l].0,
                    ),
            decreases ndf2 - i2,
        {
            let term = m.df.key_at(i2);
            let v = m.df.count_at(i2);
            let ghost t = term@;
            let nb = m.docs.len();
            let mut cnt: usize = 0;
            let mut k: usize = 0;
            while k < nb
                invariant
                    nb == m.docs@.len(),
                    k <= nb,
                    t == term@,
                    cnt <= k,
                    forall|k0: int|
                        0 <= k0 < nb ==> (#[trigger] m.docs@[k0]).1.wf(),
                    cnt == doc_count(m@.docs.take(k as int), t),
                decreases nb - k,
            {
                proof {
                    assert(m@.docs.take(k + 1) =~= m@.docs.take(k as int).push(m@.docs[k as int]));
                    crate::corpus::lemma_doc_count_push(
                        m@.docs.take(k as int),
                        m@.docs[k as int],
                        t,
                    );
                }
                if m.docs[k].1.tf.get(term.as_str()).is_some() {
                    cnt = cnt + 1;
                }
                k = k + 1;
            }
            proof {
                assert(m@.docs.take(nb as int) =~= m@.docs);
            }
            if cnt != v {
                proof {
                    crate::counts::lemma_assoc_index(m.df.entry_seq(), i2 as int);
                    assert(corpus_of_snapshot(s@).df.contains_key(t));
                    assert(corpus_of_snapshot(s@).df[t] == v);
                    assert(doc_count(corpus_of_snapshot(s@).docs, t) == cnt);
                    assert(!wf_corpus(corpus_of_snapshot(s@)));
                }
                return Err(SnapshotError::FrequencyMismatch);
            }
            i2 = i2 + 1;
        }
        // Every stored term must have an aggregate entry.
        let nb = m.docs.len();
        let mut k: usize = 0;
        while k < nb
            invariant
                nb == m.docs@.len(),
                k <= nb,
                m.snap_view() == s@,
                m@.docs == corpus_of_snapshot(s@).docs,
                m@.df == corpus_of_snapshot(s@).df,
                m.df.wf(),
                forall|l: int|
                    0 <= l < m.df.entry_seq().len() ==> (#[trigger] m.df.entry_seq()[l]).1
                        == doc_count(m@.docs, m.df.entry_seq()[l].0),
                forall|k0: int|
                    0 <= k0 < nb ==> (#[trigger] m.docs@[k0]).1.wf(),
                forall|k0: int, t: Seq<char>|
                    0 <= k0 < k && #[trigger] m@.docs[k0].1.tf.contains_key(t)
                        ==> m@.df.contains_key(t),
            decreases nb - k,
        {
            let nrow = m.docs[k].1.tf.len();
            let mut l: usize = 0;
            while l < nrow
                invariant
                    nb == m.docs@.len(),
                    k < nb,
                    nrow == m.docs@[k as int].1.tf.entry_seq().len(),
                    l <= nrow,
                    m.snap_view() == s@,
                    m@.docs == corpus_of_snapshot(s@).docs,
                    m@.df == corpus_of_snapshot(s@).df,
                    m.df.wf(),
                    m.docs@[k as int].1.wf(),
                    forall|l0: int|
                        0 <= l0 < l ==> m@.df.contains_key(
                            (#[trigger] m.docs@[k as int].1.tf.entry_seq()[l0]).0,
                        ),
                decreases nrow - l,
            {
                let term = m.docs[k].1.tf.key_at(l);
                if df_lacks(&m.df, term.as_str()) {
                    proof {
                        let ghost tfm = m.docs@[k as int].1.tf;
                        tfm.lemma_index(l as int);
                        assert(m@.docs[k as int].1.tf.contains_key(term@));
                        assert(!wf_corpus(corpus_of_snapshot(s@)));
                    }
                    return Err(SnapshotError::FrequencyMismatch);
                }
                l = l + 1;
            }
            proof {
                let ghost tfm = m.docs@[k as int].1.tf;
                assert forall|t: Seq<char>| #[trigger]
                    m@.docs[k as int].1.tf.contains_key(t) implies m@.df.contains_key(t) by {
                    tfm.lemma_contains(t);
                    let l0 = choose|l0: int|
                        0 <= l0 < tfm.entry_seq().len() && (#[trigger] tfm.entry_seq()[l0]).0 == t;
                    assert(m@.df.contains_key(tfm.entry_seq()[l0].0));
                }
            }
            k = k + 1;
        }
        proof {
            // The corpus invariant holds of the validated state.
            let cs = m@;
            assert forall|t: Seq<char>| #[trigger] cs.df.contains_key(t) implies cs.df[t]
                == doc_count(cs.docs, t) by {
                m.df.lemma_contains(t);
                let l0 = choose|l0: int|
                    0 <= l0 < m.df.entry_seq().len() && (#[trigger] m.df.entry_seq()[l0]).0 == t;
                m.df.lemma_index(l0);
            }
            assert forall|i0: int, t: Seq<char>|
                0 <= i0 < cs.docs.len() && #[trigger] cs.docs[i0].1.tf.contains_key(t) implies 1
                <= cs.docs[i0].1.tf[t] <= cs.docs[i0].1.count by {
                let ghost tfm = m.docs@[i0].1.tf;
                tfm.lemma_contains(t);
                let l0 = choose|l0: int|
                    0 <= l0 < tfm.entry_seq().len() && (#[trigger] tfm.entry_seq()[l0]).0 == t;
                crate::counts::lemma_assoc_index(tfm.entry_seq(), l0);
                crate::counts::lemma_count_le_sum(tfm.entry_seq(), l0);
                assert(tfm.entry_seq()[l0].1 >= 1);
            }
            assert(wf_corpus(m@));
        }
        Ok(m)
    }
}

/// Whether the aggregate record lacks a term.
fn df_lacks(df: &CountMap, term: &str) -> (r: bool)
    requires
        df.wf(),
    ensures
        r == !df@.contains_key(term@),
{
    match df.get(term) {
        Some(_) => false,
        None => true,
    }
}



impl InMemoryModel {
    /// The stored token total of the document at `path`, if one is stored.
    pub fn stored_term_count(&self, path: &str) -> (r: Option<usize>)
        requires
            self.wf(),
        ensures
            match r {
                Some(n) => has_path(self@.docs, path@) && n == doc_at(self@.docs, path@).count,
                None => !has_path(self@.docs, path@),
            },
    {
        match self.find_doc(path) {
            Some(i) => {
                proof {
                    assert(has_path(self@.docs, path@));
                    lemma_path_index(self@.docs, path@);
                    assert(path_index(self@.docs, path@) == i as int);
                }
                Some(self.docs[i].1.count)
            },
            None => None,
        }
    }

    /// The stored occurrence count of `term` in the document at `path`:
    /// zero when the document does not hold the term, absent when no
    /// document is stored at the path.
    pub fn stored_frequency(&self, path: &str, term: &str) -> (r: Option<usize>)
        requires
            self.wf(),
        ensures
            match r {
                Some(n) => has_path(self@.docs, path@) && n == if doc_at(
                    self@.docs,
                    path@,
                ).tf.contains_key(term@) {
                    doc_at(self@.docs, path@).tf[term@]
                } else {
                    0usize
                },
                None => !has_path(self@.docs, path@),
            },
    {
        match self.find_doc(path) {
            Some(i) => {
                proof {
                    assert(has_path(self@.docs, path@));
                    lemma_path_index(self@.docs, path@);
                    assert(path_index(self@.docs, path@) == i as int);
                    assert(self.docs@[i as int].1.wf());
                }
                Some(self.docs[i].1.frequency_of(term))
            },
            None => None,
        }
    }
}


} // verus!
