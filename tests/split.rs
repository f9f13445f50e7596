use sneedov::markov::split::{corpus_lines, is_punctuation, is_punctuation_token, split_sentence};

fn words(v: &[&str]) -> Vec<String> {
    v.iter().map(|s| s.to_string()).collect()
}

#[test]
fn split_separates_trailing_punctuation() {
    assert_eq!(split_sentence("the cat sat."), words(&["the", "cat", "sat", "."]));
    assert_eq!(split_sentence("hello, world!"), words(&["hello", ",", "world", "!"]));
}

#[test]
fn split_keeps_doubled_punctuation() {
    assert_eq!(split_sentence("wow!!"), words(&["wow!!"]));
    assert_eq!(split_sentence("what?!"), words(&["what?!"]));
    assert_eq!(split_sentence("huh!."), words(&["huh!."]));
    assert_eq!(split_sentence("ok?,"), words(&["ok?,"]));
}

#[test]
fn split_lone_punctuation_is_one_token() {
    assert_eq!(split_sentence("the cat sat ."), words(&["the", "cat", "sat", "."]));
    assert_eq!(split_sentence("?"), words(&["?"]));
}

#[test]
fn split_on_any_whitespace() {
    assert_eq!(split_sentence("  a\tb\nc  "), words(&["a", "b", "c"]));
    assert_eq!(split_sentence("a\u{3000}b"), words(&["a", "b"]));
    assert_eq!(split_sentence(""), Vec::<String>::new());
    assert_eq!(split_sentence("   "), Vec::<String>::new());
}

#[test]
fn split_non_punctuation_ending_stays() {
    assert_eq!(split_sentence("abc"), words(&["abc"]));
    assert_eq!(split_sentence("a-"), words(&["a-"]));
    assert_eq!(split_sentence("x;"), words(&["x", ";"]));
}

#[test]
fn punctuation_of_parsed_chars() {
    assert!(is_punctuation(".".parse::<char>()));
    assert!(is_punctuation(":".parse::<char>()));
    assert!(!is_punctuation("a".parse::<char>()));
    assert!(!is_punctuation("..".parse::<char>()));
    assert!(!is_punctuation("".parse::<char>()));
}

#[test]
fn punctuation_tokens() {
    assert!(is_punctuation_token("!"));
    assert!(!is_punctuation_token("!!"));
    assert!(!is_punctuation_token("a"));
    assert!(!is_punctuation_token(""));
}

#[test]
fn corpus_lines_skip_blank_lines() {
    assert_eq!(corpus_lines("a b\n\n  \nc."), words(&["a b", "c."]));
    assert_eq!(corpus_lines(""), Vec::<String>::new());
    assert_eq!(corpus_lines("one\n"), words(&["one"]));
}
