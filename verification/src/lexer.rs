//! The tokenizer: deterministic segmentation of text into normalized terms.
//!
//! Rules, applied left to right at each position:
//! 1. skip a maximal run of whitespace;
//! 2. a leading numeric character starts a maximal numeric run, emitted
//!    verbatim;
//! 3. a leading alphabetic character starts a maximal alphanumeric run,
//!    emitted with every ASCII lowercase letter folded to uppercase;
//! 4. any other character is emitted alone as a one-character term.
//!
//! Two deliberate narrowings of "digit" and "uppercase every alphabetic
//! character":
//! - the character classes are the full Unicode ones (`char::is_numeric`,
//!   `char::is_alphabetic`), so a numeric run may hold any Unicode numeric
//!   character, not only the ASCII decimal digits;
//! - case folding is ASCII-only (`char::to_ascii_uppercase`): a non-ASCII
//!   letter keeps its case. Full Unicode uppercasing maps one character to
//!   up to three, which would break the one-to-one alignment between a
//!   term's characters and its source span that the reconstruction law
//!   states; the ASCII fold keeps indexing and querying byte-for-byte
//!   deterministic at the cost of leaving non-ASCII letters unfolded.

use vstd::prelude::*;

use crate::chars::alphabetic_char;
use crate::chars::alphanumeric_char;
use crate::chars::ascii_char;
use crate::chars::ascii_lower_char;
use crate::chars::ascii_upper;
use crate::chars::is_alphabetic_char;
use crate::chars::is_alphanumeric_char;
use crate::chars::is_numeric_char;
use crate::chars::is_whitespace_char;
use crate::chars::numeric_char;
use crate::chars::spec_ascii_upper;
use crate::chars::string_push;
use crate::chars::whitespace_char;

verus! {

/// Length of the maximal whitespace prefix of `s`.
pub open spec fn ws_run(s: Seq<char>) -> nat
    decreases s.len(),
{
    if s.len() == 0 || !whitespace_char(s[0]) {
        0
    } else {
        1 + ws_run(s.drop_first())
    }
}

/// Length of the maximal numeric prefix of `s`.
pub open spec fn num_run(s: Seq<char>) -> nat
    decreases s.len(),
{
    if s.len() == 0 || !numeric_char(s[0]) {
        0
    } else {
        1 + num_run(s.drop_first())
    }
}

/// Length of the maximal alphanumeric prefix of `s`.
pub open spec fn alnum_run(s: Seq<char>) -> nat
    decreases s.len(),
{
    if s.len() == 0 || !alphanumeric_char(s[0]) {
        0
    } else {
        1 + alnum_run(s.drop_first())
    }
}

pub proof fn lemma_ws_run_bounds(s: Seq<char>)
    ensures
        ws_run(s) <= s.len(),
        forall|i: int| 0 <= i < ws_run(s) ==> whitespace_char(s[i]),
        ws_run(s) < s.len() ==> !whitespace_char(s[ws_run(s) as int]),
    decreases s.len(),
{
    if s.len() > 0 && whitespace_char(s[0]) {
        lemma_ws_run_bounds(s.drop_first());
        assert(forall|i: int| 0 <= i < s.len() - 1 ==> #[trigger] s.drop_first()[i] == s[i + 1]);
        assert forall|i: int| 0 <= i < ws_run(s) implies whitespace_char(s[i]) by {
            if i > 0 {
                assert(whitespace_char(s.drop_first()[i - 1]));
            }
        }
    }
}

pub proof fn lemma_num_run_bounds(s: Seq<char>)
    ensures
        num_run(s) <= s.len(),
        forall|i: int| 0 <= i < num_run(s) ==> numeric_char(s[i]),
        num_run(s) < s.len() ==> !numeric_char(s[num_run(s) as int]),
    decreases s.len(),
{
    if s.len() > 0 && numeric_char(s[0]) {
        lemma_num_run_bounds(s.drop_first());
        assert(forall|i: int| 0 <= i < s.len() - 1 ==> #[trigger] s.drop_first()[i] == s[i + 1]);
        assert forall|i: int| 0 <= i < num_run(s) implies numeric_char(s[i]) by {
            if i > 0 {
                assert(numeric_char(s.drop_first()[i - 1]));
            }
        }
    }
}

pub proof fn lemma_alnum_run_bounds(s: Seq<char>)
    ensures
        alnum_run(s) <= s.len(),
        forall|i: int| 0 <= i < alnum_run(s) ==> alphanumeric_char(s[i]),
        alnum_run(s) < s.len() ==> !alphanumeric_char(s[alnum_run(s) as int]),
    decreases s.len(),
{
    if s.len() > 0 && alphanumeric_char(s[0]) {
        lemma_alnum_run_bounds(s.drop_first());
        assert(forall|i: int| 0 <= i < s.len() - 1 ==> #[trigger] s.drop_first()[i] == s[i + 1]);
        assert forall|i: int| 0 <= i < alnum_run(s) implies alphanumeric_char(s[i]) by {
            if i > 0 {
                assert(alphanumeric_char(s.drop_first()[i - 1]));
            }
        }
    }
}

/// The whitespace gap that the tokenizer skips at the head of `s`.
pub open spec fn gap(s: Seq<char>) -> Seq<char> {
    s.take(ws_run(s) as int)
}

/// What remains of `s` once the leading whitespace gap is skipped.
pub open spec fn after_gap(s: Seq<char>) -> Seq<char> {
    s.skip(ws_run(s) as int)
}

/// The source span of the term found at the head of `s`, where `s` starts at
/// a term boundary (no leading whitespace). Empty only when `s` is empty.
pub open spec fn token_span(s: Seq<char>) -> Seq<char> {
    if s.len() == 0 {
        Seq::empty()
    } else if numeric_char(s[0]) {
        s.take(num_run(s) as int)
    } else if alphabetic_char(s[0]) {
        s.take(alnum_run(s) as int)
    } else {
        s.take(1)
    }
}

/// Case folding applied to every character of a term.
pub open spec fn folded(s: Seq<char>) -> Seq<char> {
    s.map_values(|c: char| spec_ascii_upper(c))
}

pub proof fn lemma_folded_index(s: Seq<char>)
    ensures
        folded(s).len() == s.len(),
        forall|i: int| 0 <= i < s.len() ==> folded(s)[i] == spec_ascii_upper(s[i]),
{
}

pub proof fn lemma_folded_push(s: Seq<char>, c: char)
    ensures
        folded(s.push(c)) =~= folded(s).push(spec_ascii_upper(c)),
{
    lemma_folded_index(s);
    lemma_folded_index(s.push(c));
}

/// The emitted term for the span at the head of `s`: the span itself, with
/// case folding applied when the span is an alphabetic run.
pub open spec fn fold_span(s: Seq<char>) -> Seq<char> {
    if s.len() > 0 && !numeric_char(s[0]) && alphabetic_char(s[0]) {
        folded(token_span(s))
    } else {
        token_span(s)
    }
}

pub proof fn lemma_token_span_len(s: Seq<char>)
    requires
        s.len() > 0,
    ensures
        1 <= token_span(s).len() <= s.len(),
        token_span(s) == s.take(token_span(s).len() as int),
        fold_span(s).len() == token_span(s).len(),
{
    if numeric_char(s[0]) {
        lemma_num_run_bounds(s);
        assert(num_run(s) >= 1);
    } else if alphabetic_char(s[0]) {
        lemma_alnum_run_bounds(s);
        assert(alnum_run(s) >= 1);
    }
}

/// The sequence of terms the tokenizer emits for `s`.
pub open spec fn lex(s: Seq<char>) -> Seq<Seq<char>>
    decreases s.len(),
    via lex_decreases
{
    let t = after_gap(s);
    if t.len() == 0 {
        Seq::empty()
    } else {
        seq![fold_span(t)] + lex(t.skip(token_span(t).len() as int))
    }
}

#[via_fn]
proof fn lex_decreases(s: Seq<char>) {
    lemma_ws_run_bounds(s);
    let t = after_gap(s);
    if t.len() != 0 {
        lemma_token_span_len(t);
    }
}

/// The input rebuilt from the tokenizer's trace: at each step the whitespace
/// gap followed by the term's source span, with the trailing gap at the end.
pub open spec fn rebuilt(s: Seq<char>) -> Seq<char>
    decreases s.len(),
    via rebuilt_decreases
{
    let t = after_gap(s);
    if t.len() == 0 {
        gap(s)
    } else {
        gap(s) + token_span(t) + rebuilt(t.skip(token_span(t).len() as int))
    }
}

#[via_fn]
proof fn rebuilt_decreases(s: Seq<char>) {
    lemma_ws_run_bounds(s);
    let t = after_gap(s);
    if t.len() != 0 {
        lemma_token_span_len(t);
    }
}

/// Whether every character of `g` is whitespace.
pub open spec fn all_whitespace(g: Seq<char>) -> bool {
    forall|i: int| 0 <= i < g.len() ==> whitespace_char(g[i])
}

/// Tokenizer reconstruction law: concatenating, in order, each skipped
/// whitespace gap and each emitted term's source span rebuilds the input
/// exactly; the terms' spans are the input minus the elided whitespace.
pub proof fn lemma_tokenizer_reconstruction(s: Seq<char>)
    ensures
        rebuilt(s) == s,
    decreases s.len(),
{
    lemma_ws_run_bounds(s);
    let t = after_gap(s);
    if t.len() == 0 {
        assert(gap(s) =~= s);
    } else {
        lemma_token_span_len(t);
        let rest = t.skip(token_span(t).len() as int);
        lemma_tokenizer_reconstruction(rest);
        assert(gap(s) + token_span(t) + rest =~= s);
    }
}

/// Every gap the tokenizer skips consists of whitespace alone, and it is
/// maximal: the character after it (the start of the next term's span, if
/// any) is not whitespace.
pub proof fn lemma_gap_whitespace(s: Seq<char>)
    ensures
        all_whitespace(gap(s)),
        after_gap(s).len() > 0 ==> !whitespace_char(after_gap(s)[0]),
{
    lemma_ws_run_bounds(s);
}

/// Shape of the term found at a term boundary `s`:
/// - a numeric-led span is a maximal run of numeric characters, emitted
///   verbatim, so a digit run is never merged with adjacent letters;
/// - an alphabetic-led span is a maximal run of alphanumeric characters,
///   emitted with ASCII case folding applied character by character;
/// - any other leading character forms a one-character term of its own.
pub proof fn lemma_token_shape(s: Seq<char>)
    requires
        s.len() > 0,
    ensures
        1 <= token_span(s).len() <= s.len(),
        token_span(s) == s.take(token_span(s).len() as int),
        numeric_char(s[0]) ==> {
            &&& fold_span(s) == token_span(s)
            &&& forall|i: int| 0 <= i < token_span(s).len() ==> numeric_char(token_span(s)[i])
            &&& token_span(s).len() < s.len() ==> !numeric_char(s[token_span(s).len() as int])
        },
        !numeric_char(s[0]) && alphabetic_char(s[0]) ==> {
            &&& fold_span(s) == folded(token_span(s))
            &&& forall|i: int|
                0 <= i < token_span(s).len() ==> alphanumeric_char(token_span(s)[i])
            &&& token_span(s).len() < s.len() ==> !alphanumeric_char(
                s[token_span(s).len() as int],
            )
        },
        !numeric_char(s[0]) && !alphabetic_char(s[0]) ==> {
            &&& fold_span(s) == s.take(1)
            &&& fold_span(s).len() == 1
        },
{
    lemma_token_span_len(s);
    if numeric_char(s[0]) {
        lemma_num_run_bounds(s);
    } else if alphabetic_char(s[0]) {
        lemma_alnum_run_bounds(s);
    }
}

/// Case-folding law: a term emitted for an alphabetic run whose span is all
/// ASCII contains no ASCII lowercase letter — such terms are fully
/// uppercase. Folding is deliberately ASCII-only (see the module note), so
/// the law is stated for ASCII spans; a non-ASCII letter keeps its case,
/// identically at indexing and at query time.
pub proof fn lemma_alphabetic_term_uppercase(s: Seq<char>)
    requires
        s.len() > 0,
        !numeric_char(s[0]),
        alphabetic_char(s[0]),
        forall|i: int| 0 <= i < token_span(s).len() ==> ascii_char(#[trigger] token_span(s)[i]),
    ensures
        forall|i: int|
            0 <= i < fold_span(s).len() ==> !ascii_lower_char(#[trigger] fold_span(s)[i]),
{
    lemma_folded_index(token_span(s));
    assert forall|i: int| 0 <= i < fold_span(s).len() implies !ascii_lower_char(
        fold_span(s)[i],
    ) by {
        let c = token_span(s)[i];
        assert(fold_span(s)[i] == spec_ascii_upper(c));
    }
}

/// Every emitted term is nonempty.
pub proof fn lemma_emitted_terms_nonempty(s: Seq<char>)
    ensures
        forall|j: int| 0 <= j < lex(s).len() ==> #[trigger] lex(s)[j].len() >= 1,
    decreases s.len(),
{
    lemma_ws_run_bounds(s);
    let t = after_gap(s);
    if t.len() != 0 {
        lemma_token_span_len(t);
        let rest = t.skip(token_span(t).len() as int);
        lemma_emitted_terms_nonempty(rest);
        assert forall|j: int| 0 <= j < lex(s).len() implies #[trigger] lex(s)[j].len() >= 1 by {
            if j > 0 {
                assert(lex(s)[j] == lex(rest)[j - 1]);
            }
        }
    }
}

/// A cursor over a character slice that yields the normalized terms of the
/// input, one at a time, in order.
pub struct Lexer<'a> {
    content: &'a [char],
    pos: usize,
}

proof fn lemma_skip_skip(s: Seq<char>, a: int, b: int)
    requires
        0 <= a,
        0 <= b,
        a + b <= s.len(),
    ensures
        s.skip(a).skip(b) =~= s.skip(a + b),
{
}

proof fn lemma_skip_step(s: Seq<char>, i: int)
    requires
        0 <= i < s.len(),
    ensures
        s.skip(i).drop_first() =~= s.skip(i + 1),
        s.skip(i)[0] == s[i],
{
}

impl<'a> Lexer<'a> {
    /// The characters not yet consumed.
    pub closed spec fn remaining(self) -> Seq<char> {
        self.content@.skip(self.pos as int)
    }

    /// The whole input the lexer was created over.
    pub closed spec fn input(self) -> Seq<char> {
        self.content@
    }

    pub closed spec fn wf(self) -> bool {
        self.pos <= self.content@.len()
    }

    pub fn new(content: &'a [char]) -> (l: Lexer<'a>)
        ensures
            l.wf(),
            l.remaining() == content@,
            l.input() == content@,
    {
        let l = Lexer { content, pos: 0 };
        proof {
            assert(l.remaining() =~= content@);
        }
        l
    }

    fn skip_whitespace(&mut self)
        requires
            old(self).wf(),
        ensures
            final(self).wf(),
            final(self).content == old(self).content,
            final(self).remaining() == after_gap(old(self).remaining()),
    {
        let ghost c0 = self.content@;
        let ghost s0 = self.remaining();
        let ghost p0 = self.pos as int;
        loop
            invariant
                self.wf(),
                self.content@ == c0,
                0 <= p0 <= self.pos <= c0.len(),
                ws_run(s0) == (self.pos - p0) + ws_run(self.remaining()),
            ensures
                self.wf(),
                self.content@ == c0,
                0 <= p0 <= self.pos <= c0.len(),
                self.pos - p0 == ws_run(s0),
            decreases c0.len() - self.pos,
        {
            if self.pos == self.content.len() {
                proof {
                    assert(self.remaining().len() == 0);
                    assert(ws_run(self.remaining()) == 0);
                }
                break;
            }
            let c = self.content[self.pos];
            proof {
                lemma_skip_step(c0, self.pos as int);
                assert(self.remaining()[0] == c);
            }
            if !is_whitespace_char(c) {
                proof {
                    assert(ws_run(self.remaining()) == 0);
                }
                break;
            }
            proof {
                lemma_skip_step(c0, self.pos as int);
                assert(self.remaining().drop_first() =~= c0.skip(self.pos + 1));
                assert(ws_run(self.remaining()) == 1 + ws_run(c0.skip(self.pos + 1)));
            }
            self.pos = self.pos + 1;
        }
        proof {
            lemma_ws_run_bounds(s0);
            lemma_skip_skip(c0, p0, ws_run(s0) as int);
            assert(self.remaining() =~= s0.skip(ws_run(s0) as int));
        }
    }

    /// Emit the next term, advancing past the whitespace gap and the term's
    /// source span; `None` exactly when no term remains.
    pub fn next_token(&mut self) -> (t: Option<String>)
        requires
            old(self).wf(),
        ensures
            final(self).wf(),
            final(self).input() == old(self).input(),
            t matches Some(tok) ==> {
                &&& lex(old(self).remaining()).len() >= 1
                &&& tok@ == lex(old(self).remaining())[0]
                &&& lex(final(self).remaining()) == lex(old(self).remaining()).drop_first()
                &&& final(self).remaining().len() < old(self).remaining().len()
            },
            t is None ==> {
                &&& lex(old(self).remaining()).len() == 0
                &&& final(self).remaining().len() == 0
            },
    {
        let ghost rem0 = self.remaining();
        self.skip_whitespace();
        let ghost c0 = self.content@;
        let ghost t = self.remaining();
        if self.pos == self.content.len() {
            proof {
                assert(t.len() == 0);
            }
            return None;
        }
        let ghost pa = self.pos as int;
        let c = self.content[self.pos];
        proof {
            lemma_skip_step(c0, pa);
            assert(t.len() > 0 && t[0] == c);
            lemma_token_span_len(t);
        }
        let mut tok = String::new();
        if is_numeric_char(c) {
            proof {
                assert(t.skip(0) =~= t);
                assert(t.take(0) =~= tok@);
            }
            loop
                invariant
                    self.wf(),
                    self.content@ == c0,
                    0 <= pa <= self.pos <= c0.len(),
                    t == c0.skip(pa),
                    t.len() > 0 && numeric_char(t[0]),
                    num_run(t) == (self.pos - pa) + num_run(t.skip(self.pos - pa)),
                    tok@ == t.take(self.pos - pa),
                ensures
                    self.wf(),
                    self.content@ == c0,
                    0 <= pa <= self.pos <= c0.len(),
                    self.pos - pa == num_run(t),
                    tok@ == t.take(self.pos - pa),
                decreases c0.len() - self.pos,
            {
                proof {
                    lemma_skip_skip(c0, pa, self.pos - pa);
                    assert(t.skip(self.pos - pa) =~= c0.skip(self.pos as int));
                }
                if self.pos == self.content.len() {
                    proof {
                        assert(t.skip(self.pos - pa).len() == 0);
                        assert(num_run(t.skip(self.pos - pa)) == 0);
                    }
                    break;
                }
                let ch = self.content[self.pos];
                proof {
                    lemma_skip_step(c0, self.pos as int);
                    assert(t.skip(self.pos - pa)[0] == ch);
                }
                if !is_numeric_char(ch) {
                    proof {
                        assert(num_run(t.skip(self.pos - pa)) == 0);
                    }
                    break;
                }
                proof {
                    lemma_skip_step(t, self.pos - pa);
                    assert(t.skip(self.pos - pa).drop_first() =~= t.skip(self.pos - pa + 1));
                    assert(num_run(t.skip(self.pos - pa)) == 1 + num_run(
                        t.skip(self.pos - pa + 1),
                    ));
                    assert(t.take(self.pos - pa + 1) =~= t.take(self.pos - pa).push(ch));
                }
                string_push(&mut tok, ch);
                self.pos = self.pos + 1;
            }
            proof {
                assert(tok@ == token_span(t));
                assert(tok@ == fold_span(t));
            }
        } else if is_alphabetic_char(c) {
            proof {
                assert(t.skip(0) =~= t);
                assert(folded(t.take(0)) =~= tok@);
            }
            loop
                invariant
                    self.wf(),
                    self.content@ == c0,
                    0 <= pa <= self.pos <= c0.len(),
                    t == c0.skip(pa),
                    t.len() > 0 && !numeric_char(t[0]) && alphabetic_char(t[0]),
                    alnum_run(t) == (self.pos - pa) + alnum_run(t.skip(self.pos - pa)),
                    tok@ == folded(t.take(self.pos - pa)),
                ensures
                    self.wf(),
                    self.content@ == c0,
                    0 <= pa <= self.pos <= c0.len(),
                    self.pos - pa == alnum_run(t),
                    tok@ == folded(t.take(self.pos - pa)),
                decreases c0.len() - self.pos,
            {
                proof {
                    lemma_skip_skip(c0, pa, self.pos - pa);
                    assert(t.skip(self.pos - pa) =~= c0.skip(self.pos as int));
                }
                if self.pos == self.content.len() {
                    proof {
                        assert(t.skip(self.pos - pa).len() == 0);
                        assert(alnum_run(t.skip(self.pos - pa)) == 0);
                    }
                    break;
                }
                let ch = self.content[self.pos];
                proof {
                    lemma_skip_step(c0, self.pos as int);
                    assert(t.skip(self.pos - pa)[0] == ch);
                }
                if !is_alphanumeric_char(ch) {
                    proof {
                        assert(alnum_run(t.skip(self.pos - pa)) == 0);
                    }
                    break;
                }
                proof {
                    lemma_skip_step(t, self.pos - pa);
                    assert(t.skip(self.pos - pa).drop_first() =~= t.skip(self.pos - pa + 1));
                    assert(alnum_run(t.skip(self.pos - pa)) == 1 + alnum_run(
                        t.skip(self.pos - pa + 1),
                    ));
                    assert(t.take(self.pos - pa + 1) =~= t.take(self.pos - pa).push(ch));
                    lemma_folded_push(t.take(self.pos - pa), ch);
                }
                string_push(&mut tok, ascii_upper(ch));
                self.pos = self.pos + 1;
            }
            proof {
                assert(tok@ == fold_span(t));
            }
        } else {
            string_push(&mut tok, c);
            self.pos = self.pos + 1;
            proof {
                assert(tok@ =~= t.take(1));
                assert(tok@ == fold_span(t));
            }
        }
        proof {
            let rest = t.skip(token_span(t).len() as int);
            lemma_ws_run_bounds(rem0);
            assert(t.len() + ws_run(rem0) == rem0.len());
            lemma_skip_skip(c0, pa, token_span(t).len() as int);
            assert(self.remaining() =~= rest);
            assert(lex(rem0) == seq![fold_span(t)] + lex(rest));
            assert(lex(rem0)[0] == fold_span(t));
            assert(lex(rem0).drop_first() =~= lex(rest));
        }
        Some(tok)
    }
}

/// Tokenize a whole character sequence into its normalized terms.
pub fn tokenize(content: &[char]) -> (r: Vec<String>)
    ensures
        r.deep_view() == lex(content@),
{
    let mut lexer = Lexer::new(content);
    let mut r: Vec<String> = Vec::new();
    proof {
        assert(r.deep_view() + lex(lexer.remaining()) =~= lex(content@));
    }
    loop
        invariant
            lexer.wf(),
            r.deep_view() + lex(lexer.remaining()) == lex(content@),
        ensures
            r.deep_view() == lex(content@),
        decreases lexer.remaining().len(),
    {
        let ghost r_old = r.deep_view();
        let ghost rem_old = lexer.remaining();
        match lexer.next_token() {
            Some(tok) => {
                let ghost tv = tok@;
                r.push(tok);
                proof {
                    assert(r.deep_view() =~= r_old.push(tv));
                    assert(r_old.push(tv) + lex(lexer.remaining()) =~= r_old + lex(rem_old));
                }
            },
            None => {
                proof {
                    assert(r.deep_view() =~= lex(content@));
                }
                break;
            },
        }
    }
    r
}

} // verus!
