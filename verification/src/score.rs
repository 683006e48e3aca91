//! Exact ranking statistics.
//!
//! A ranked query multiplies a term-frequency ratio by a logarithmic
//! inverse-document-frequency factor. The logarithm is irrational, so the
//! library computes, for every stored document and every query token, the
//! exact integer statistics the score is made of; evaluating and sorting the
//! floating-point scores is left to the caller.

use vstd::prelude::*;

use crate::corpus::doc_count;
use crate::corpus::SpecCorpus;
use crate::corpus::SpecDoc;
use crate::corpus::wf_corpus;

verus! {

/// The exact statistics behind one query token's contribution to one
/// document's score:
/// `(tf_count / doc_len) * log10(corpus_size / df_smoothed)`,
/// with a zero contribution when `doc_len` is zero.
#[derive(Clone, Copy, PartialEq, Eq, Structural, Debug)]
pub struct TokenStat {
    /// Occurrences of the token in the document (zero when absent).
    pub tf_count: usize,
    /// Total tokens of the document.
    pub doc_len: usize,
    /// Number of stored documents.
    pub corpus_size: usize,
    /// Number of stored documents containing the token, smoothed so that an
    /// unseen token counts as if it occurred in exactly one document.
    pub df_smoothed: usize,
}

/// The statistics of token `t` against document `d` in corpus `docs`.
pub open spec fn spec_stat(docs: Seq<(Seq<char>, SpecDoc)>, d: SpecDoc, t: Seq<char>) -> TokenStat {
    TokenStat {
        tf_count: if d.tf.contains_key(t) {
            d.tf[t]
        } else {
            0usize
        },
        doc_len: d.count,
        corpus_size: docs.len() as usize,
        df_smoothed: if doc_count(docs, t) >= 1 {
            doc_count(docs, t) as usize
        } else {
            1usize
        },
    }
}

/// The per-token statistics of a whole query against one document.
pub open spec fn spec_stats(docs: Seq<(Seq<char>, SpecDoc)>, d: SpecDoc, q: Seq<Seq<char>>) -> Seq<
    TokenStat,
> {
    Seq::new(q.len(), |j: int| spec_stat(docs, d, q[j]))
}

/// The answer to a query: for every stored document, in storage order, the
/// exact statistics of every query token against it.
pub open spec fn spec_search(docs: Seq<(Seq<char>, SpecDoc)>, q: Seq<Seq<char>>) -> Seq<
    (Seq<char>, Seq<TokenStat>),
> {
    Seq::new(docs.len(), |i: int| (docs[i].0, spec_stats(docs, docs[i].1, q)))
}

/// Backend-equivalence law: the answer to a query is a function of the
/// corpus view alone, so two backends whose views coincide — however they
/// store their state — answer every query identically.
pub proof fn lemma_backend_equivalence(
    a: Seq<(Seq<char>, SpecDoc)>,
    b: Seq<(Seq<char>, SpecDoc)>,
    q: Seq<Seq<char>>,
)
    requires
        a == b,
    ensures
        spec_search(a, q) == spec_search(b, q),
{
}

/// Empty-query law: a query with no tokens is answered, not rejected — every
/// stored document appears with an empty statistics list, so every score sums
/// to zero.
pub proof fn lemma_empty_query(docs: Seq<(Seq<char>, SpecDoc)>, q: Seq<Seq<char>>)
    requires
        q.len() == 0,
    ensures
        spec_search(docs, q).len() == docs.len(),
        forall|i: int|
            0 <= i < docs.len() ==> #[trigger] spec_search(docs, q)[i] == (
            docs[i].0,
            Seq::<TokenStat>::empty(),
            ),
{
    assert forall|i: int|
        0 <= i < docs.len() implies #[trigger] spec_search(docs, q)[i] == (
    docs[i].0,
    Seq::<TokenStat>::empty(),
    ) by {
        assert(spec_stats(docs, docs[i].1, q) =~= Seq::<TokenStat>::empty());
    }
}

/// Term-frequency bounds law: in a well-formed corpus every statistic has
/// `tf_count <= doc_len`, so the term-frequency ratio lies in [0, 1], and
/// the smoothed document frequency lies between one and the corpus size
/// (or is exactly one in a corpus where the term is unseen).
pub proof fn lemma_stat_bounds(c: SpecCorpus, i: int, t: Seq<char>)
    requires
        wf_corpus(c),
        c.docs.len() <= usize::MAX,
        0 <= i < c.docs.len(),
    ensures
        spec_stat(c.docs, c.docs[i].1, t).tf_count <= spec_stat(c.docs, c.docs[i].1, t).doc_len,
        1 <= spec_stat(c.docs, c.docs[i].1, t).df_smoothed,
        spec_stat(c.docs, c.docs[i].1, t).df_smoothed <= if c.docs.len() >= 1 {
            c.docs.len() as int
        } else {
            1int
        },
{
    crate::corpus::lemma_doc_count_bounds(c.docs, t);
    if c.docs[i].1.tf.contains_key(t) {
        assert(1 <= c.docs[i].1.tf[t] <= c.docs[i].1.count);
    }
}

} // verus!
