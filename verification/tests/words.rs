use rlox::words::find_first_word;

fn first(sentence: &str) -> String {
    find_first_word(&String::from(sentence))
}

#[test]
fn first_word_of_one_word() {
    assert_eq!(first("hi"), "hi");
    assert_eq!(first("byte"), "byte");
    assert_eq!(first("word"), "word");
}

#[test]
fn first_word_skips_leading_spaces() {
    assert_eq!(first("    another long    sequence of words"), "another");
    assert_eq!(first(" a"), "a");
}

#[test]
fn first_word_ends_at_the_next_space() {
    assert_eq!(first("one two"), "one");
    assert_eq!(first("tab\tis no space"), "tab\tis");
    assert_eq!(first("trailing "), "trailing");
}

#[test]
fn first_word_of_nothing_is_empty() {
    assert_eq!(first(""), "");
    assert_eq!(first("     "), "");
}

#[test]
fn first_word_may_hold_any_characters() {
    assert_eq!(first("  héllo wörld"), "héllo");
    assert_eq!(first("日本語 テキスト"), "日本語");
}
