//! The abstract corpus model shared by every storage backend.
//!
//! A backend's state is viewed as a sequence of documents in insertion order
//! (paths pairwise distinct) together with the aggregate document-frequency
//! map. Adding a document is remove-then-append; the document-frequency map
//! is adjusted incrementally, never recomputed.

use vstd::prelude::*;

verus! {

/// The abstract state of one stored document.
pub ghost struct SpecDoc {
    /// Occurrence count of each term of the document, keys exactly the terms
    /// that occur, every count at least one.
    pub tf: Map<Seq<char>, usize>,
    /// Total number of tokens of the document.
    pub count: usize,
    /// Source timestamp used for staleness detection.
    pub last_modified: u64,
}

/// The abstract corpus: documents in insertion order plus the aggregate
/// document-frequency map.
pub ghost struct SpecCorpus {
    pub docs: Seq<(Seq<char>, SpecDoc)>,
    pub df: Map<Seq<char>, usize>,
}

/// Number of occurrences of `t` in `tokens`.
pub open spec fn occ_count(tokens: Seq<Seq<char>>, t: Seq<char>) -> int
    decreases tokens.len(),
{
    if tokens.len() == 0 {
        0
    } else {
        occ_count(tokens.drop_last(), t) + if tokens.last() == t {
            1int
        } else {
            0int
        }
    }
}

pub proof fn lemma_occ_count_bounds(tokens: Seq<Seq<char>>, t: Seq<char>)
    ensures
        0 <= occ_count(tokens, t) <= tokens.len(),
        occ_count(tokens, t) > 0 <==> tokens.contains(t),
    decreases tokens.len(),
{
    if tokens.len() > 0 {
        lemma_occ_count_bounds(tokens.drop_last(), t);
        if tokens.contains(t) && tokens.last() != t {
            let i = choose|i: int| 0 <= i < tokens.len() && tokens[i] == t;
            assert(tokens.drop_last()[i] == t);
            assert(tokens.drop_last().contains(t));
        }
        if tokens.drop_last().contains(t) {
            let i = choose|i: int| 0 <= i < tokens.drop_last().len() && tokens.drop_last()[i] == t;
            assert(tokens[i] == t);
        }
    }
}

/// The term-frequency map of a token sequence.
pub open spec fn occ_map(tokens: Seq<Seq<char>>) -> Map<Seq<char>, usize> {
    Map::new(|t: Seq<char>| tokens.contains(t), |t: Seq<char>| occ_count(tokens, t) as usize)
}

pub proof fn lemma_occ_map_push(tokens: Seq<Seq<char>>, t: Seq<char>)
    requires
        tokens.len() < usize::MAX,
    ensures
        occ_map(tokens.push(t)) == occ_map(tokens).insert(t, (occ_count(tokens, t) + 1) as usize),
{
    let s2 = tokens.push(t);
    assert(s2.drop_last() =~= tokens);
    assert(s2.contains(t)) by {
        assert(s2[tokens.len() as int] == t);
    }
    assert forall|u: Seq<char>| true implies occ_count(s2, u) == occ_count(tokens, u) + (if u == t {
        1int
    } else {
        0int
    }) by {
        assert(s2.last() == t);
    }
    assert forall|u: Seq<char>| s2.contains(u) && u != t implies tokens.contains(u) by {
        let i = choose|i: int| 0 <= i < s2.len() && s2[i] == u;
        assert(tokens[i] == u);
    }
    assert forall|u: Seq<char>| tokens.contains(u) implies s2.contains(u) by {
        let i = choose|i: int| 0 <= i < tokens.len() && tokens[i] == u;
        assert(s2[i] == u);
    }
    lemma_occ_count_bounds(tokens, t);
    assert(occ_map(s2) =~= occ_map(tokens).insert(t, (occ_count(tokens, t) + 1) as usize));
}

/// The abstract document built from a token sequence and a timestamp.
pub open spec fn doc_from_tokens(tokens: Seq<Seq<char>>, last_modified: u64) -> SpecDoc {
    SpecDoc { tf: occ_map(tokens), count: tokens.len() as usize, last_modified }
}

/// Whether the paths of a document sequence are pairwise distinct.
pub open spec fn distinct_paths(docs: Seq<(Seq<char>, SpecDoc)>) -> bool {
    forall|i: int, j: int|
        0 <= i < j < docs.len() ==> (#[trigger] docs[i]).0 != (#[trigger] docs[j]).0
}

/// Whether a document is stored under path `p`.
pub open spec fn has_path(docs: Seq<(Seq<char>, SpecDoc)>, p: Seq<char>) -> bool {
    exists|i: int| 0 <= i < docs.len() && (#[trigger] docs[i]).0 == p
}

/// The index of the document stored under `p` (unique when paths are
/// distinct).
pub open spec fn path_index(docs: Seq<(Seq<char>, SpecDoc)>, p: Seq<char>) -> int {
    choose|i: int| 0 <= i < docs.len() && (#[trigger] docs[i]).0 == p
}

/// The document stored under `p`.
pub open spec fn doc_at(docs: Seq<(Seq<char>, SpecDoc)>, p: Seq<char>) -> SpecDoc {
    docs[path_index(docs, p)].1
}

pub proof fn lemma_path_index(docs: Seq<(Seq<char>, SpecDoc)>, p: Seq<char>)
    requires
        distinct_paths(docs),
        has_path(docs, p),
    ensures
        0 <= path_index(docs, p) < docs.len(),
        docs[path_index(docs, p)].0 == p,
        forall|j: int|
            0 <= j < docs.len() && j != path_index(docs, p) ==> (#[trigger] docs[j]).0 != p,
{
    let i = path_index(docs, p);
    assert(0 <= i < docs.len() && docs[i].0 == p);
}

/// The document sequence with the entry under `p` removed, if any.
pub open spec fn remove_path(docs: Seq<(Seq<char>, SpecDoc)>, p: Seq<char>) -> Seq<
    (Seq<char>, SpecDoc),
> {
    if has_path(docs, p) {
        docs.remove(path_index(docs, p))
    } else {
        docs
    }
}

/// Number of documents whose term-frequency map records `t`.
pub open spec fn doc_count(docs: Seq<(Seq<char>, SpecDoc)>, t: Seq<char>) -> int
    decreases docs.len(),
{
    if docs.len() == 0 {
        0
    } else {
        doc_count(docs.drop_last(), t) + if docs.last().1.tf.contains_key(t) {
            1int
        } else {
            0int
        }
    }
}

pub proof fn lemma_doc_count_bounds(docs: Seq<(Seq<char>, SpecDoc)>, t: Seq<char>)
    ensures
        0 <= doc_count(docs, t) <= docs.len(),
    decreases docs.len(),
{
    if docs.len() > 0 {
        lemma_doc_count_bounds(docs.drop_last(), t);
    }
}

pub proof fn lemma_doc_count_push(docs: Seq<(Seq<char>, SpecDoc)>, e: (Seq<char>, SpecDoc), t: Seq<char>)
    ensures
        doc_count(docs.push(e), t) == doc_count(docs, t) + if e.1.tf.contains_key(t) {
            1int
        } else {
            0int
        },
{
    assert(docs.push(e).drop_last() =~= docs);
}

pub proof fn lemma_doc_count_remove(docs: Seq<(Seq<char>, SpecDoc)>, i: int, t: Seq<char>)
    requires
        0 <= i < docs.len(),
    ensures
        doc_count(docs.remove(i), t) == doc_count(docs, t) - if docs[i].1.tf.contains_key(t) {
            1int
        } else {
            0int
        },
    decreases docs.len(),
{
    if i == docs.len() - 1 {
        assert(docs.remove(i) =~= docs.drop_last());
    } else {
        lemma_doc_count_remove(docs.drop_last(), i, t);
        assert(docs.remove(i).drop_last() =~= docs.drop_last().remove(i));
        assert(docs.remove(i).last() == docs.last());
        assert(docs.drop_last()[i] == docs[i]);
    }
}

pub proof fn lemma_doc_count_member(docs: Seq<(Seq<char>, SpecDoc)>, i: int, t: Seq<char>)
    requires
        0 <= i < docs.len(),
        docs[i].1.tf.contains_key(t),
    ensures
        doc_count(docs, t) >= 1,
    decreases docs.len(),
{
    lemma_doc_count_bounds(docs.drop_last(), t);
    if i < docs.len() - 1 {
        assert(docs.drop_last()[i] == docs[i]);
        lemma_doc_count_member(docs.drop_last(), i, t);
    }
}

pub proof fn lemma_doc_count_absent(docs: Seq<(Seq<char>, SpecDoc)>, t: Seq<char>)
    requires
        forall|i: int| 0 <= i < docs.len() ==> !(#[trigger] docs[i]).1.tf.contains_key(t),
    ensures
        doc_count(docs, t) == 0,
    decreases docs.len(),
{
    if docs.len() > 0 {
        assert(forall|i: int|
            0 <= i < docs.drop_last().len() ==> docs.drop_last()[i] == docs[i]);
        lemma_doc_count_absent(docs.drop_last(), t);
        assert(docs.last() == docs[docs.len() - 1]);
    }
}

/// The document-frequency map after the terms of a removed document are
/// decremented. The domain is unchanged; a term absent from the map (none of
/// the removed document's terms can be, in a well-formed corpus) keeps its
/// absence.
pub open spec fn df_after_remove(df: Map<Seq<char>, usize>, tf: Map<Seq<char>, usize>) -> Map<
    Seq<char>,
    usize,
> {
    Map::new(
        |t: Seq<char>| df.contains_key(t),
        |t: Seq<char>|
            if tf.contains_key(t) {
                (df[t] - 1) as usize
            } else {
                df[t]
            },
    )
}

/// The document-frequency map after the terms of an added document are
/// incremented; terms not yet recorded enter with a count of one.
pub open spec fn df_after_add(df: Map<Seq<char>, usize>, tf: Map<Seq<char>, usize>) -> Map<
    Seq<char>,
    usize,
> {
    Map::new(
        |t: Seq<char>| df.contains_key(t) || tf.contains_key(t),
        |t: Seq<char>|
            if tf.contains_key(t) {
                if df.contains_key(t) {
                    (df[t] + 1) as usize
                } else {
                    1usize
                }
            } else {
                df[t]
            },
    )
}

/// Removal of the document at `path`, if one is stored: the entry leaves
/// the document sequence and each of its terms' document frequencies is
/// decremented. Without a stored document the corpus is unchanged.
pub open spec fn spec_remove(c: SpecCorpus, path: Seq<char>) -> SpecCorpus {
    if has_path(c.docs, path) {
        SpecCorpus {
            docs: remove_path(c.docs, path),
            df: df_after_remove(c.df, doc_at(c.docs, path).tf),
        }
    } else {
        c
    }
}

/// Removing a document preserves the corpus invariant and leaves no entry
/// under the removed path.
pub proof fn lemma_spec_remove_preserves_wf(c: SpecCorpus, path: Seq<char>)
    requires
        wf_corpus(c),
    ensures
        wf_corpus(spec_remove(c, path)),
        !has_path(spec_remove(c, path).docs, path),
        has_path(c.docs, path) ==> spec_remove(c, path).docs.len() == c.docs.len() - 1,
        !has_path(c.docs, path) ==> spec_remove(c, path) == c,
{
    if !has_path(c.docs, path) {
        return;
    }
    let docs1 = remove_path(c.docs, path);
    let df1 = df_after_remove(c.df, doc_at(c.docs, path).tf);
    let idx = path_index(c.docs, path);
    lemma_path_index(c.docs, path);
    assert forall|t: Seq<char>| #[trigger] df1.contains_key(t) implies df1[t] == doc_count(
        docs1,
        t,
    ) by {
        lemma_doc_count_remove(c.docs, idx, t);
        if c.docs[idx].1.tf.contains_key(t) {
            lemma_doc_count_member(c.docs, idx, t);
        }
    }
    assert forall|i: int, t: Seq<char>|
        0 <= i < docs1.len() && #[trigger] docs1[i].1.tf.contains_key(t) implies {
        &&& df1.contains_key(t)
        &&& 1 <= docs1[i].1.tf[t] <= docs1[i].1.count
    } by {
        if i < idx {
            assert(docs1[i] == c.docs[i]);
        } else {
            assert(docs1[i] == c.docs[i + 1]);
        }
    }
    assert forall|i: int, j: int|
        0 <= i < j < docs1.len() implies (#[trigger] docs1[i]).0 != (#[trigger] docs1[j]).0 by {
        let i0 = if i < idx {
            i
        } else {
            i + 1
        };
        let j0 = if j < idx {
            j
        } else {
            j + 1
        };
        assert(docs1[i] == c.docs[i0] && docs1[j] == c.docs[j0]);
    }
    if has_path(docs1, path) {
        let i = choose|i: int| 0 <= i < docs1.len() && (#[trigger] docs1[i]).0 == path;
        let i0 = if i < idx {
            i
        } else {
            i + 1
        };
        assert(c.docs[i0].0 == path && i0 != idx);
    }
}

/// Atomic replacement of the document at `path`: the old entry (if any) is
/// removed and its terms' document frequencies decremented, then the new
/// document is appended and its terms' document frequencies incremented.
pub open spec fn spec_add(
    c: SpecCorpus,
    path: Seq<char>,
    tokens: Seq<Seq<char>>,
    last_modified: u64,
) -> SpecCorpus {
    let d = doc_from_tokens(tokens, last_modified);
    if has_path(c.docs, path) {
        let old_tf = doc_at(c.docs, path).tf;
        SpecCorpus {
            docs: remove_path(c.docs, path).push((path, d)),
            df: df_after_add(df_after_remove(c.df, old_tf), d.tf),
        }
    } else {
        SpecCorpus { docs: c.docs.push((path, d)), df: df_after_add(c.df, d.tf) }
    }
}

/// Whether a path must be (re)indexed: no document is stored for it, or the
/// stored timestamp predates the given one.
pub open spec fn spec_requires_reindexing(c: SpecCorpus, path: Seq<char>, last_modified: u64) -> bool {
    !has_path(c.docs, path) || doc_at(c.docs, path).last_modified < last_modified
}

/// The corpus invariant:
/// - paths are pairwise distinct;
/// - every recorded term frequency lies between one and the document's
///   token count;
/// - every document-frequency entry equals the number of stored documents
///   whose term-frequency map records that term;
/// - every term of every stored document has a document-frequency entry.
pub open spec fn wf_corpus(c: SpecCorpus) -> bool {
    &&& distinct_paths(c.docs)
    &&& forall|i: int, t: Seq<char>|
        0 <= i < c.docs.len() && #[trigger] c.docs[i].1.tf.contains_key(t) ==> 1 <= c.docs[i].1.tf[t]
            <= c.docs[i].1.count
    &&& forall|t: Seq<char>| #[trigger]
        c.df.contains_key(t) ==> c.df[t] == doc_count(c.docs, t)
    &&& forall|i: int, t: Seq<char>|
        0 <= i < c.docs.len() && #[trigger] c.docs[i].1.tf.contains_key(t) ==> c.df.contains_key(
            t,
        )
}

/// Adding a document preserves the corpus invariant.
pub proof fn lemma_spec_add_preserves_wf(
    c: SpecCorpus,
    path: Seq<char>,
    tokens: Seq<Seq<char>>,
    last_modified: u64,
)
    requires
        wf_corpus(c),
        tokens.len() <= usize::MAX,
        remove_path(c.docs, path).len() < usize::MAX,
    ensures
        wf_corpus(spec_add(c, path, tokens, last_modified)),
        has_path(spec_add(c, path, tokens, last_modified).docs, path),
        doc_at(spec_add(c, path, tokens, last_modified).docs, path) == doc_from_tokens(
            tokens,
            last_modified,
        ),
{
    let d = doc_from_tokens(tokens, last_modified);
    assert forall|t: Seq<char>| #[trigger] d.tf.contains_key(t) implies 1 <= d.tf[t] <= d.count by {
        lemma_occ_count_bounds(tokens, t);
    }
    let c2 = spec_add(c, path, tokens, last_modified);
    let docs1 = if has_path(c.docs, path) {
        remove_path(c.docs, path)
    } else {
        c.docs
    };
    let df1 = if has_path(c.docs, path) {
        df_after_remove(c.df, doc_at(c.docs, path).tf)
    } else {
        c.df
    };
    if has_path(c.docs, path) {
        let idx = path_index(c.docs, path);
        lemma_path_index(c.docs, path);
        assert forall|t: Seq<char>| #[trigger] df1.contains_key(t) implies df1[t] == doc_count(
            docs1,
            t,
        ) by {
            lemma_doc_count_remove(c.docs, idx, t);
            if c.docs[idx].1.tf.contains_key(t) {
                lemma_doc_count_member(c.docs, idx, t);
            }
        }
        assert forall|i: int, t: Seq<char>|
            0 <= i < docs1.len() && #[trigger] docs1[i].1.tf.contains_key(t) implies {
            &&& df1.contains_key(t)
            &&& 1 <= docs1[i].1.tf[t] <= docs1[i].1.count
        } by {
            if i < idx {
                assert(docs1[i] == c.docs[i]);
            } else {
                assert(docs1[i] == c.docs[i + 1]);
            }
        }
        assert(distinct_paths(docs1) && !has_path(docs1, path)) by {
            assert forall|i: int, j: int|
                0 <= i < j < docs1.len() implies (#[trigger] docs1[i]).0 != (
            #[trigger] docs1[j]).0 by {
                let i0 = if i < idx {
                    i
                } else {
                    i + 1
                };
                let j0 = if j < idx {
                    j
                } else {
                    j + 1
                };
                assert(docs1[i] == c.docs[i0] && docs1[j] == c.docs[j0]);
            }
            if has_path(docs1, path) {
                let i = choose|i: int| 0 <= i < docs1.len() && (#[trigger] docs1[i]).0 == path;
                let i0 = if i < idx {
                    i
                } else {
                    i + 1
                };
                assert(c.docs[i0].0 == path && i0 != idx);
            }
        }
    }
    // `docs1` is well formed and lacks `path`; now append the new document.
    assert(distinct_paths(docs1) && !has_path(docs1, path));
    let docs2 = docs1.push((path, d));
    assert(c2.docs == docs2);
    assert(c2.df == df_after_add(df1, d.tf));
    assert forall|i: int, j: int|
        0 <= i < j < docs2.len() implies (#[trigger] docs2[i]).0 != (#[trigger] docs2[j]).0 by {
        if j == docs2.len() - 1 {
            assert(docs2[j].0 == path);
            assert(docs2[i] == docs1[i]);
            if docs1[i].0 == path {
                assert(has_path(docs1, path));
            }
        } else {
            assert(docs2[i] == docs1[i] && docs2[j] == docs1[j]);
        }
    }
    assert forall|t: Seq<char>| #[trigger] c2.df.contains_key(t) implies c2.df[t] == doc_count(
        docs2,
        t,
    ) by {
        lemma_doc_count_push(docs1, (path, d), t);
        lemma_doc_count_bounds(docs1, t);
        if d.tf.contains_key(t) {
            if !df1.contains_key(t) {
                assert forall|i: int|
                    0 <= i < docs1.len() implies !(#[trigger] docs1[i]).1.tf.contains_key(t) by {
                    if docs1[i].1.tf.contains_key(t) {
                        assert(df1.contains_key(t));
                    }
                }
                lemma_doc_count_absent(docs1, t);
            }
        }
    }
    assert forall|i: int, t: Seq<char>|
        0 <= i < docs2.len() && #[trigger] docs2[i].1.tf.contains_key(t) implies {
        &&& c2.df.contains_key(t)
        &&& 1 <= docs2[i].1.tf[t] <= docs2[i].1.count
    } by {
        if i < docs2.len() - 1 {
            assert(docs2[i] == docs1[i]);
        } else {
            assert(docs2[i].1 == d);
        }
    }
    assert(docs2[docs2.len() - 1].0 == path);
    assert(has_path(docs2, path));
    lemma_path_index(docs2, path);
    assert(doc_at(docs2, path) == d);
}


/// Idempotence law: adding the same document (same path, same tokens, same
/// timestamp) twice leaves the corpus exactly as one addition does — the
/// statistics are unchanged by the repetition.
pub proof fn lemma_add_idempotent(
    c: SpecCorpus,
    path: Seq<char>,
    tokens: Seq<Seq<char>>,
    last_modified: u64,
)
    requires
        wf_corpus(c),
        tokens.len() <= usize::MAX,
        remove_path(c.docs, path).len() < usize::MAX,
    ensures
        spec_add(spec_add(c, path, tokens, last_modified), path, tokens, last_modified) == spec_add(
            c,
            path,
            tokens,
            last_modified,
        ),
{
    let d = doc_from_tokens(tokens, last_modified);
    let c1 = spec_add(c, path, tokens, last_modified);
    lemma_spec_add_preserves_wf(c, path, tokens, last_modified);
    lemma_spec_remove_preserves_wf(c, path);
    let docs1 = spec_remove(c, path).docs;
    let x = spec_remove(c, path).df;
    assert(c1.docs == docs1.push((path, d)));
    assert(c1.df == df_after_add(x, d.tf));
    // The entry under `path` in `c1` is the appended one.
    assert(c1.docs[c1.docs.len() - 1].0 == path);
    assert(has_path(c1.docs, path));
    lemma_path_index(c1.docs, path);
    let idx = path_index(c1.docs, path);
    assert(idx == c1.docs.len() - 1) by {
        if idx < c1.docs.len() - 1 {
            assert(c1.docs[idx] == docs1[idx]);
            assert(has_path(docs1, path));
        }
    }
    assert(remove_path(c1.docs, path) =~= docs1);
    assert(doc_at(c1.docs, path) == d);
    let c2 = spec_add(c1, path, tokens, last_modified);
    assert(c2.docs =~= c1.docs);
    // The document-frequency map returns to itself: decrementing then
    // incrementing the same term set is the identity.
    let z = df_after_remove(c1.df, d.tf);
    assert forall|t: Seq<char>| true implies #[trigger] df_after_add(z, d.tf).contains_key(t)
        == c1.df.contains_key(t) by {}
    assert forall|t: Seq<char>| #[trigger] c1.df.contains_key(t) implies df_after_add(z, d.tf)[t]
        == c1.df[t] by {
        if d.tf.contains_key(t) {
            assert(x.contains_key(t) ==> x[t] == doc_count(docs1, t));
            lemma_doc_count_bounds(docs1, t);
        }
    }
    assert(df_after_add(z, d.tf) =~= c1.df);
}

/// Exact-replacement law: adding a document under one path touches no other
/// document — every other stored path keeps exactly its statistics, and the
/// added path holds exactly the statistics of the new tokens.
pub proof fn lemma_add_preserves_other_docs(
    c: SpecCorpus,
    path: Seq<char>,
    tokens: Seq<Seq<char>>,
    last_modified: u64,
    other: Seq<char>,
)
    requires
        wf_corpus(c),
        other != path,
    ensures
        has_path(spec_add(c, path, tokens, last_modified).docs, other) == has_path(c.docs, other),
        has_path(c.docs, other) ==> doc_at(spec_add(c, path, tokens, last_modified).docs, other)
            == doc_at(c.docs, other),
{
    let d = doc_from_tokens(tokens, last_modified);
    let c2 = spec_add(c, path, tokens, last_modified);
    let docs1 = if has_path(c.docs, path) {
        remove_path(c.docs, path)
    } else {
        c.docs
    };
    assert(c2.docs == docs1.push((path, d)));
    let idx = if has_path(c.docs, path) {
        path_index(c.docs, path)
    } else {
        c.docs.len() as int
    };
    if has_path(c.docs, path) {
        lemma_path_index(c.docs, path);
    }
    // Each entry of `docs1` is an entry of `c.docs` other than `idx`.
    assert forall|k: int| 0 <= k < docs1.len() implies #[trigger] docs1[k] == c.docs[
        if k < idx {
            k
        } else {
            k + 1
        }
    ] by {}
    if has_path(c.docs, other) {
        lemma_path_index(c.docs, other);
        let oi = path_index(c.docs, other);
        assert(oi != idx);
        let k = if oi < idx {
            oi
        } else {
            oi - 1
        };
        assert(docs1[k] == c.docs[oi]);
        assert(c2.docs[k] == c.docs[oi]);
        assert(has_path(c2.docs, other));
        lemma_path_index(c2.docs, other);
        let oi2 = path_index(c2.docs, other);
        assert(oi2 == k) by {
            if oi2 != k {
                if oi2 == c2.docs.len() - 1 {
                    assert(c2.docs[oi2].0 == path);
                } else {
                    let j0 = if oi2 < idx {
                        oi2
                    } else {
                        oi2 + 1
                    };
                    assert(c.docs[j0].0 == other && j0 != oi);
                }
            }
        }
        assert(doc_at(c2.docs, other) == doc_at(c.docs, other));
    } else {
        if has_path(c2.docs, other) {
            let j = choose|j: int| 0 <= j < c2.docs.len() && (#[trigger] c2.docs[j]).0 == other;
            if j == c2.docs.len() - 1 {
                assert(c2.docs[j].0 == path);
            } else {
                let j0 = if j < idx {
                    j
                } else {
                    j + 1
                };
                assert(c.docs[j0].0 == other);
                assert(has_path(c.docs, other));
            }
        }
    }
}


} // verus!
