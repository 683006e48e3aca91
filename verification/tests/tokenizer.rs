use seroost::lexer::{tokenize, Lexer};

fn chars(s: &str) -> Vec<char> {
    s.chars().collect()
}

fn tokens(s: &str) -> Vec<String> {
    tokenize(&chars(s))
}

#[test]
fn folds_alphabetic_runs_to_uppercase() {
    assert_eq!(tokens("Hello, World!"), vec!["HELLO", ",", "WORLD", "!"]);
}

#[test]
fn keeps_digit_runs_apart_from_letters() {
    assert_eq!(tokens("123abc"), vec!["123", "ABC"]);
    assert_eq!(tokens("x9 42"), vec!["X9", "42"]);
}

#[test]
fn alphabetic_run_swallows_trailing_digits() {
    assert_eq!(tokens("foo2bar baz"), vec!["FOO2BAR", "BAZ"]);
}

#[test]
fn punctuation_is_emitted_one_character_at_a_time() {
    assert_eq!(tokens("a.b..c"), vec!["A", ".", "B", ".", ".", "C"]);
}

#[test]
fn empty_and_whitespace_only_inputs_yield_no_terms() {
    assert_eq!(tokens(""), Vec::<String>::new());
    assert_eq!(tokens(" \t\r\n  "), Vec::<String>::new());
}

#[test]
fn elided_whitespace_is_the_only_loss() {
    // Concatenating the emitted terms' source spans reconstructs the input
    // minus the elided whitespace; on input without case folding and
    // without whitespace, the concatenated terms are the input itself.
    let input = "abc,123.x";
    let toks = tokens(input);
    let rebuilt: String = toks.concat();
    assert_eq!(rebuilt, "ABC,123.X");
    let no_ws: String = "abc def".chars().filter(|c| !c.is_whitespace()).collect();
    let rebuilt2: String = tokens("abc def").concat().to_lowercase();
    assert_eq!(rebuilt2, no_ws);
}

#[test]
fn case_folding_is_ascii_only() {
    // Non-ASCII alphabetic characters join alphanumeric runs but are left
    // unfolded; only ASCII lowercase letters map to their uppercase forms.
    assert_eq!(tokens("F\u{fc}\u{df}e 42"), vec!["F\u{fc}\u{df}E", "42"]);
}

#[test]
fn lexer_yields_terms_one_at_a_time() {
    let content = chars("  one two ");
    let mut lexer = Lexer::new(&content);
    assert_eq!(lexer.next_token(), Some("ONE".to_string()));
    assert_eq!(lexer.next_token(), Some("TWO".to_string()));
    assert_eq!(lexer.next_token(), None);
    assert_eq!(lexer.next_token(), None);
}

#[test]
fn indexing_and_querying_tokenize_identically() {
    let text = "The  quick-brown_fox 99bottles";
    assert_eq!(tokens(text), tokens(text));
    assert_eq!(
        tokens(text),
        vec!["THE", "QUICK", "-", "BROWN", "_", "FOX", "99", "BOTTLES"]
    );
}
