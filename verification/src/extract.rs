//! Text extraction from structured document content.
//!
//! An XML or XHTML document's text is the concatenation of the
//! character-data runs of a streaming structural parse, each run followed by
//! a single inserted space. The parse is an outside parser's work and is a
//! function of the bytes alone, so its two outcomes get names: whether the
//! document is well formed, and which character-data runs it holds. The
//! joining of the runs is verified here.

use vstd::prelude::*;

use crate::errors::FormatError;

verus! {

/// The concatenation of text runs, each followed by a single space.
pub open spec fn cat_runs(runs: Seq<Seq<char>>) -> Seq<char>
    decreases runs.len(),
{
    if runs.len() == 0 {
        Seq::empty()
    } else {
        cat_runs(runs.drop_last()) + runs.last() + seq![' ']
    }
}

/// Join text runs into one text: each run, then one space.
pub fn join_runs(runs: &Vec<String>) -> (out: String)
    ensures
        out@ == cat_runs(runs.deep_view()),
{
    let ghost all = runs.deep_view();
    let mut out = String::new();
    proof {
        assert(all.take(0) =~= Seq::<Seq<char>>::empty());
        assert(out@ =~= cat_runs(all.take(0)));
    }
    let n = runs.len();
    let mut i: usize = 0;
    while i < n
        invariant
            n == all.len(),
            all == runs.deep_view(),
            i <= n,
            out@ == cat_runs(all.take(i as int)),
        decreases n - i,
    {
        out.append(runs[i].as_str());
        out.append(" ");
        proof {
            reveal_strlit(" ");
            assert(" "@ =~= seq![' ']);
            assert(all.take(i + 1) =~= all.take(i as int).push(all[i as int]));
            assert(all.take(i + 1).drop_last() =~= all.take(i as int));
            assert(all[i as int] == runs@[i as int]@);
            assert(out@ =~= cat_runs(all.take(i as int)) + all[i as int] + seq![' ']);
        }
        i = i + 1;
    }
    proof {
        assert(all.take(n as int) =~= all);
    }
    out
}

/// Whether the bytes form a well-formed document: the structural parse runs
/// to the end of the document without reporting an error. The parse reads
/// the bytes alone, under the parser's default configuration, so this is a
/// function of the bytes.
pub uninterp spec fn xml_wf(bytes: Seq<u8>) -> bool;

/// The character-data runs of a well-formed document's parse, in document
/// order; a function of the bytes, like `xml_wf`.
pub uninterp spec fn xml_runs_of(bytes: Seq<u8>) -> Seq<Seq<char>>;

#[verifier::external_type_specification]
#[verifier::external_body]
pub struct ExXmlError(xml::reader::Error);

/// Relies on xml::reader::EventReader: its event iteration parses the bytes
/// (a pull per event; the stream ends at the end-of-document event or at the
/// first error, and character data arrives as `Characters` runs). On a
/// well-formed document the call returns exactly the character-data runs in
/// document order; on a malformed one, the parser's error.
#[verifier::external_body]
fn xml_character_runs(bytes: &[u8]) -> (r: Result<Vec<String>, xml::reader::Error>)
    ensures
        r matches Ok(runs) ==> xml_wf(bytes@) && runs.deep_view() == xml_runs_of(bytes@),
        r is Err ==> !xml_wf(bytes@),
{
    let mut runs = Vec::new();
    for event in xml::reader::EventReader::new(bytes) {
        match event {
            Ok(xml::reader::XmlEvent::Characters(s)) => runs.push(s),
            Ok(_) => {},
            Err(e) => return Err(e),
        }
    }
    Ok(runs)
}

/// Extract the text of an XML or XHTML document: the concatenation of all
/// character-data runs of a streaming structural parse, each run followed
/// by a single inserted space, and nothing else. A malformed document is a
/// format error, and only a malformed one.
pub fn xml_text_from_bytes(bytes: &[u8]) -> (r: Result<String, FormatError>)
    ensures
        r matches Ok(out) ==> xml_wf(bytes@) && out@ == cat_runs(xml_runs_of(bytes@)),
        r is Err <==> !xml_wf(bytes@),
{
    match xml_character_runs(bytes) {
        Ok(runs) => Ok(join_runs(&runs)),
        Err(_) => Err(FormatError::Malformed),
    }
}

} // verus!
