use borrow_validator::words::{first_word, first_word_index};

#[test]
fn index_of_first_space() {
    assert_eq!(first_word_index(&String::from("hello world")), 5);
}

#[test]
fn index_is_length_without_space() {
    assert_eq!(first_word_index(&String::from("hello")), 5);
    assert_eq!(first_word_index(&String::new()), 0);
}

#[test]
fn index_of_leading_space_is_zero() {
    assert_eq!(first_word_index(&String::from(" hello")), 0);
}

#[test]
fn index_counts_bytes() {
    assert_eq!(first_word_index(&String::from("héllo wörld")), 6);
    assert_eq!(first_word_index(&String::from("日本語 テキスト")), 9);
}

#[test]
fn index_stops_at_the_first_of_several_spaces() {
    assert_eq!(first_word_index(&String::from("a  b c")), 1);
}

#[test]
fn first_word_of_two() {
    assert_eq!(first_word(&String::from("hello world")), "hello");
}

#[test]
fn first_word_is_all_without_space() {
    assert_eq!(first_word(&String::from("hello")), "hello");
    assert_eq!(first_word(&String::new()), "");
}

#[test]
fn first_word_is_empty_after_leading_space() {
    assert_eq!(first_word(&String::from(" hello")), "");
}

#[test]
fn first_word_keeps_multibyte_characters() {
    assert_eq!(first_word(&String::from("héllo wörld")), "héllo");
    assert_eq!(first_word(&String::from("日本語 テキスト")), "日本語");
}

#[test]
fn first_word_ignores_other_whitespace() {
    assert_eq!(first_word(&String::from("a\tb c")), "a\tb");
}
