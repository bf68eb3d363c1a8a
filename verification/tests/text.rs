use generics::{first_word, str_longest};

#[test]
fn longer_is_the_first() {
    assert_eq!(str_longest("hello", "hi"), "hello");
}

#[test]
fn longer_is_the_second() {
    assert_eq!(str_longest("hi", "hello"), "hello");
}

#[test]
fn equally_long_gives_the_second() {
    assert_eq!(str_longest("cat", "dog"), "dog");
    let x = String::from("same");
    let y = String::from("same");
    assert!(std::ptr::eq(str_longest(&x, &y), y.as_str()));
}

#[test]
fn both_empty_gives_empty() {
    assert_eq!(str_longest("", ""), "");
    assert_eq!(str_longest("", "a"), "a");
    assert_eq!(str_longest("a", ""), "a");
}

#[test]
fn longer_is_counted_in_bytes() {
    // two characters in four bytes against three in three
    assert_eq!(str_longest("\u{e9}\u{e9}", "abc"), "\u{e9}\u{e9}");
    // one character in two bytes ties with two in two
    assert_eq!(str_longest("\u{e9}", "ab"), "ab");
}

#[test]
fn longest_borrows_its_argument() {
    let x = String::from("longer one");
    let y = String::from("short");
    assert!(std::ptr::eq(str_longest(&x, &y), x.as_str()));
}

#[test]
fn longest_twice_is_the_same() {
    assert_eq!(str_longest("left", "right"), str_longest("left", "right"));
}

#[test]
fn first_word_of_three() {
    assert_eq!(first_word("the quick fox"), "the");
}

#[test]
fn first_word_of_one() {
    assert_eq!(first_word("single"), "single");
}

#[test]
fn first_word_of_empty() {
    assert_eq!(first_word(""), "");
}

#[test]
fn first_word_ends_at_the_first_space_only() {
    assert_eq!(first_word(" leading"), "");
    assert_eq!(first_word("trailing "), "trailing");
    assert_eq!(first_word("a  b"), "a");
    assert_eq!(first_word(" "), "");
}

#[test]
fn first_word_stops_at_no_other_blank() {
    assert_eq!(first_word("tab\tand\nline end"), "tab\tand\nline");
    assert_eq!(first_word("no\u{a0}break space"), "no\u{a0}break");
}

#[test]
fn first_word_with_longer_characters() {
    assert_eq!(first_word("h\u{e9}llo w\u{f6}rld"), "h\u{e9}llo");
    // U+0120 and U+2020 end in the bits of a space but hold no space byte
    assert_eq!(first_word("\u{120}\u{2020}x y"), "\u{120}\u{2020}x");
    assert_eq!(first_word("\u{1f600} smile"), "\u{1f600}");
    assert_eq!(first_word("\u{1f600}\u{1f600}"), "\u{1f600}\u{1f600}");
}

#[test]
fn first_word_is_the_bytes_before_the_first_space_byte() {
    let text = "caf\u{e9} au lait";
    let cut = text.as_bytes().iter().position(|b| *b == generics::text::SPACE).unwrap();
    assert_eq!(cut, 5);
    assert_eq!(first_word(text).as_bytes(), &text.as_bytes()[..cut]);
}

#[test]
fn first_word_borrows_its_argument() {
    let text = String::from("borrowed text");
    assert!(std::ptr::eq(first_word(&text), &text[..8]));
    let whole = String::from("whole");
    assert!(std::ptr::eq(first_word(&whole), whole.as_str()));
}

#[test]
fn first_word_twice_is_the_same() {
    assert_eq!(first_word("again and again"), first_word("again and again"));
    assert_eq!(first_word(first_word("again and again")), "again");
}
