use rino::Matcher;

fn all_words(text: &str) -> Vec<String> {
    let mut m = Matcher::new(text);
    let mut out = Vec::new();
    while let Some(w) = m.next_word() {
        out.push(w);
    }
    out
}

#[test]
fn words_in_order_with_punctuation_and_digits() {
    assert_eq!(all_words("hello, world! 123 hello"), vec!["hello", "world", "hello"]);
}

#[test]
fn only_separators_give_no_words() {
    assert!(all_words("123 456 !?,.; \t\n-_=+").is_empty());
    assert!(all_words("").is_empty());
}

#[test]
fn no_separators_give_one_word() {
    assert_eq!(all_words("abcdef"), vec!["abcdef"]);
}

#[test]
fn leading_and_trailing_separators_are_dropped() {
    assert_eq!(all_words("  ..the cat!!  "), vec!["the", "cat"]);
}

#[test]
fn digits_split_words() {
    assert_eq!(all_words("x1y22z"), vec!["x", "y", "z"]);
}

#[test]
fn non_ascii_letters_are_word_characters() {
    assert_eq!(all_words("café naïve, 日本語!"), vec!["café", "naïve", "日本語"]);
}

#[test]
fn case_is_kept() {
    assert_eq!(all_words("Cat cat CAT"), vec!["Cat", "cat", "CAT"]);
}

#[test]
fn exhausted_scanner_stays_exhausted() {
    let mut m = Matcher::new("one two");
    assert_eq!(m.next_word().as_deref(), Some("one"));
    assert_eq!(m.next_word().as_deref(), Some("two"));
    assert_eq!(m.next_word(), None);
    assert_eq!(m.next_word(), None);
}

#[test]
fn words_and_separators_partition_the_text() {
    let text = "  Hi, there!42ok";
    let words = all_words(text);
    assert_eq!(words, vec!["Hi", "there", "ok"]);
    let letters: String = text.chars().filter(|c| c.is_alphabetic()).collect();
    assert_eq!(words.concat(), letters);
}

#[test]
fn skip_then_word_by_hand() {
    let mut m = Matcher::new(" ,ab1");
    m.skip();
    assert_eq!(m.peek(), Some('a'));
    m.skip();
    assert_eq!(m.peek(), Some('a'));
    m.save();
    assert_eq!(m.word(), "ab");
    assert_eq!(m.peek(), Some('1'));
    assert_eq!(m.advance(), Some('1'));
    assert_eq!(m.advance(), None);
    assert_eq!(m.peek(), None);
}
