use osmgraphing::helpers::parse::{parse_signed, parse_unsigned};
use osmgraphing::helpers::text::{
    chars_of, first_word_chars, split_whitespace_chars, str_eq, to_ascii_lowercase, trim_chars,
};

fn text(chars: &[char]) -> String {
    chars.iter().collect()
}

#[test]
fn trim_removes_surrounding_whitespace() {
    let chars = chars_of("  \t motorway \n");
    assert_eq!(text(&trim_chars(&chars)), "motorway");
    assert_eq!(text(&trim_chars(&chars_of("   "))), "");
    assert_eq!(text(&trim_chars(&chars_of("a b"))), "a b");
}

#[test]
fn lowercase_changes_ascii_letters_only() {
    assert_eq!(text(&to_ascii_lowercase(&chars_of("HighWay:Ä1"))), "highway:Ä1");
}

#[test]
fn split_whitespace_yields_words_in_order() {
    let words = split_whitespace_chars(&chars_of("  12  34\t56 \n"));
    let words: Vec<String> = words.iter().map(|w| text(w)).collect();
    assert_eq!(words, vec!["12", "34", "56"]);
    assert!(split_whitespace_chars(&chars_of(" \t ")).is_empty());
}

#[test]
fn first_word_stops_at_whitespace() {
    assert_eq!(first_word_chars(&chars_of("yes please")).map(|w| text(&w)), Some(String::from("yes")));
    assert_eq!(first_word_chars(&chars_of("")), None);
}

#[test]
fn string_equality() {
    assert!(str_eq("fmi", "fmi"));
    assert!(!str_eq("fmi", "pbf"));
}

#[test]
fn unsigned_numbers_are_parsed_like_std() {
    assert_eq!(parse_unsigned(&chars_of("4294967295"), u32::MAX as u64), Some(4294967295));
    assert_eq!(parse_unsigned(&chars_of("4294967296"), u32::MAX as u64), None);
    assert_eq!(parse_unsigned(&chars_of("+17"), 100), Some(17));
    assert_eq!(parse_unsigned(&chars_of("-1"), 100), None);
    assert_eq!(parse_unsigned(&chars_of(""), 100), None);
    assert_eq!(parse_unsigned(&chars_of("1a"), 100), None);
    assert_eq!(parse_unsigned(&chars_of("18446744073709551616"), u64::MAX), None);
}

#[test]
fn signed_numbers_are_parsed_like_std() {
    assert_eq!(parse_signed(&chars_of("-9223372036854775808")), Some(i64::MIN));
    assert_eq!(parse_signed(&chars_of("9223372036854775807")), Some(i64::MAX));
    assert_eq!(parse_signed(&chars_of("9223372036854775808")), None);
    assert_eq!(parse_signed(&chars_of("+5")), Some(5));
    assert_eq!(parse_signed(&chars_of("-")), None);
}
