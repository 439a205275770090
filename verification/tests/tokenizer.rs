use split_whitespace_rest::SplitWhitespace;

#[test]
fn words() {
    let string = "These are some words";
    let mut swex = SplitWhitespace::new(string);
    assert_eq!(swex.next_token(), Some("These"));
    assert_eq!(swex.next_token(), Some("are"));
    assert_eq!(swex.next_token(), Some("some"));
    assert_eq!(swex.next_token(), Some("words"));
}

#[test]
fn rest() {
    let string = "say joe Hey Joe, what's up?";
    let mut swex = SplitWhitespace::new(string);
    assert_eq!(swex.next_token(), Some("say"));
    assert_eq!(swex.next_token(), Some("joe"));
    assert_eq!(swex.rest_as_slice(), "Hey Joe, what's up?");
}

#[test]
fn multiple_space() {
    let string = "word1   word2  word3     word4 word5    some  more   text ";
    let mut swex = SplitWhitespace::new(string);
    assert_eq!(swex.next_token(), Some("word1"));
    assert_eq!(swex.next_token(), Some("word2"));
    assert_eq!(swex.next_token(), Some("word3"));
    assert_eq!(swex.next_token(), Some("word4"));
    assert_eq!(swex.next_token(), Some("word5"));
    assert_eq!(swex.rest_as_slice(), "   some  more   text ");
}

#[test]
fn space_at_end() {
    let string = "hello world       ";
    let mut swex = SplitWhitespace::new(string);
    assert_eq!(swex.next_token(), Some("hello"));
    assert_eq!(swex.next_token(), Some("world"));
    assert_eq!(swex.next_token(), None);
}

#[test]
fn one_word_only_once() {
    let string = "hello";
    let mut swex = SplitWhitespace::new(string);
    assert_eq!(swex.next_token(), Some("hello"));
    assert_eq!(swex.next_token(), None);
}

#[test]
fn words_then_end() {
    let mut sw = SplitWhitespace::new("These are some words");
    assert_eq!(sw.next_token(), Some("These"));
    assert_eq!(sw.next_token(), Some("are"));
    assert_eq!(sw.next_token(), Some("some"));
    assert_eq!(sw.next_token(), Some("words"));
    assert_eq!(sw.next_token(), None);
}

#[test]
fn rest_before_any_extraction() {
    let string = "  padded\tinput with tabs\n";
    let sw = SplitWhitespace::new(string);
    assert_eq!(sw.rest_as_slice(), string);
}

#[test]
fn empty_input() {
    let mut sw = SplitWhitespace::new("");
    assert_eq!(sw.rest_as_slice(), "");
    assert_eq!(sw.next_token(), None);
    assert_eq!(sw.rest_as_slice(), "");
}

#[test]
fn only_whitespace() {
    let mut sw = SplitWhitespace::new(" \t \n  ");
    assert_eq!(sw.next_token(), None);
    assert_eq!(sw.rest_as_slice(), "");
}

#[test]
fn exhaustion_is_idempotent() {
    let mut sw = SplitWhitespace::new("one two  ");
    assert_eq!(sw.next_token(), Some("one"));
    assert_eq!(sw.next_token(), Some("two"));
    assert_eq!(sw.next_token(), None);
    assert_eq!(sw.rest_as_slice(), "");
    assert_eq!(sw.next_token(), None);
    assert_eq!(sw.next_token(), None);
    assert_eq!(sw.rest_as_slice(), "");
}

#[test]
fn join_preserves_non_whitespace_content() {
    let string = " alpha\t\tbeta  gamma\ndelta   ";
    let mut sw = SplitWhitespace::new(string);
    let mut joined = String::new();
    while let Some(tok) = sw.next_token() {
        assert!(!tok.is_empty());
        assert!(tok.chars().all(|c| !c.is_whitespace()));
        if !joined.is_empty() {
            joined.push(' ');
        }
        joined.push_str(tok);
    }
    let squeeze = |s: &str| s.chars().filter(|c| !c.is_whitespace()).collect::<String>();
    assert_eq!(squeeze(&joined), squeeze(string));
    assert_eq!(joined, "alpha beta gamma delta");
}

#[test]
fn unicode_whitespace_separators() {
    // NO-BREAK SPACE, EM SPACE and IDEOGRAPHIC SPACE all carry the Unicode
    // White_Space property, and multi-byte letters keep their boundaries
    let string = "un\u{a0}deux\u{2003}trois\u{3000}caf\u{e9}";
    let mut sw = SplitWhitespace::new(string);
    assert_eq!(sw.next_token(), Some("un"));
    assert_eq!(sw.next_token(), Some("deux"));
    assert_eq!(sw.rest_as_slice(), "trois\u{3000}caf\u{e9}");
    assert_eq!(sw.next_token(), Some("trois"));
    assert_eq!(sw.next_token(), Some("caf\u{e9}"));
    assert_eq!(sw.next_token(), None);
}

#[test]
fn single_trailing_space() {
    let mut sw = SplitWhitespace::new("hello ");
    assert_eq!(sw.next_token(), Some("hello"));
    assert_eq!(sw.rest_as_slice(), "");
    assert_eq!(sw.next_token(), None);
}

#[test]
fn interleaved_rest_and_extraction() {
    let mut sw = SplitWhitespace::new("a  bb ccc");
    assert_eq!(sw.rest_as_slice(), "a  bb ccc");
    assert_eq!(sw.next_token(), Some("a"));
    assert_eq!(sw.rest_as_slice(), " bb ccc");
    assert_eq!(sw.next_token(), Some("bb"));
    assert_eq!(sw.rest_as_slice(), "ccc");
    assert_eq!(sw.next_token(), Some("ccc"));
    assert_eq!(sw.rest_as_slice(), "");
    assert_eq!(sw.next_token(), None);
}
