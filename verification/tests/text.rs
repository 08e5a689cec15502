use state_search::digits::{join_numbers, join_signed, scale_of};
use state_search::text::{
    chars_of, fields_of, lines_of, parse_integer, parse_number, parse_word, parse_words_of,
    slice_of, split_at_each, split_once_at, trimmed, without_prefix, without_suffix,
};

fn cs(s: &str) -> Vec<char> {
    s.chars().collect()
}

fn strings(pieces: Vec<Vec<char>>) -> Vec<String> {
    pieces.into_iter().map(|p| p.into_iter().collect()).collect()
}

#[test]
fn characters_of_a_text() {
    assert_eq!(chars_of("a\u{e9}\u{1F600}b"), vec!['a', '\u{e9}', '\u{1F600}', 'b']);
    assert_eq!(chars_of(""), Vec::<char>::new());
}

#[test]
fn pieces_between_separators() {
    assert_eq!(strings(split_at_each(&cs("a,bc,,d"), ',')), vec!["a", "bc", "", "d"]);
    assert_eq!(strings(split_at_each(&cs(""), ',')), vec![""]);
    assert_eq!(strings(split_at_each(&cs(","), ',')), vec!["", ""]);
    assert_eq!(strings(split_at_each(&cs("abc"), ',')), vec!["abc"]);
}

#[test]
fn lines_of_a_text() {
    assert_eq!(strings(lines_of(&cs("a\nb\r\n\nc\n"))), vec!["a", "b", "", "c"]);
    assert_eq!(strings(lines_of(&cs(""))), Vec::<String>::new());
    assert_eq!(strings(lines_of(&cs("\n"))), vec![""]);
    assert_eq!(strings(lines_of(&cs("a"))), vec!["a"]);
    assert_eq!(strings(lines_of(&cs("a\r"))), vec!["a"]);
}

#[test]
fn numbers_are_read_digit_by_digit() {
    assert_eq!(parse_number(&cs("0")), Some(0));
    assert_eq!(parse_number(&cs("+12")), Some(12));
    assert_eq!(parse_number(&cs("007")), Some(7));
    assert_eq!(parse_number(&cs("18446744073709551615")), Some(u64::MAX));
    assert_eq!(parse_number(&cs("18446744073709551616")), None);
    assert_eq!(parse_number(&cs("")), None);
    assert_eq!(parse_number(&cs("+")), None);
    assert_eq!(parse_number(&cs("++1")), None);
    assert_eq!(parse_number(&cs("-1")), None);
    assert_eq!(parse_number(&cs("1 ")), None);
    assert_eq!(parse_number(&cs("1a")), None);
    assert_eq!(parse_word(&cs("42")), Some(42));
}

#[test]
fn whole_numbers_with_a_sign() {
    assert_eq!(parse_integer(&cs("-0")), Some(0));
    assert_eq!(parse_integer(&cs("-17")), Some(-17));
    assert_eq!(parse_integer(&cs("+17")), Some(17));
    assert_eq!(parse_integer(&cs("-9223372036854775808")), Some(i64::MIN));
    assert_eq!(parse_integer(&cs("9223372036854775807")), Some(i64::MAX));
    assert_eq!(parse_integer(&cs("9223372036854775808")), None);
    assert_eq!(parse_integer(&cs("-9223372036854775809")), None);
    assert_eq!(parse_integer(&cs("-")), None);
    assert_eq!(parse_integer(&cs("-+5")), None);
    assert_eq!(parse_integer(&cs("--5")), None);
}

#[test]
fn rows_of_numbers() {
    assert_eq!(parse_words_of(&vec![cs("1"), cs("22")]), Some(vec![1, 22]));
    assert_eq!(parse_words_of(&vec![cs("1"), cs("")]), None);
    assert_eq!(parse_words_of(&vec![]), Some(vec![]));
}

#[test]
fn blanks_are_trimmed_at_both_ends() {
    assert_eq!(trimmed(&cs("  a b\t\r\n")), cs("a b"));
    assert_eq!(trimmed(&cs(" \n ")), cs(""));
    assert_eq!(trimmed(&cs("")), cs(""));
    assert_eq!(trimmed(&cs("x")), cs("x"));
}

#[test]
fn cut_once_and_strip() {
    assert_eq!(split_once_at(&cs("a=b=c"), '='), Some((cs("a"), cs("b=c"))));
    assert_eq!(split_once_at(&cs("=x"), '='), Some((cs(""), cs("x"))));
    assert_eq!(split_once_at(&cs("abc"), '='), None);
    assert_eq!(without_prefix(&cs("seed=7"), "seed="), Some(cs("7")));
    assert_eq!(without_prefix(&cs("seed"), "seed="), None);
    assert_eq!(without_prefix(&cs("sead=7"), "seed="), None);
    assert_eq!(without_prefix(&cs("x"), ""), Some(cs("x")));
    assert_eq!(without_suffix(&cs("12:"), ":"), Some(cs("12")));
    assert_eq!(without_suffix(&cs("12"), ":"), None);
    assert_eq!(without_suffix(&cs(""), ":"), None);
    assert_eq!(slice_of(&cs("hello"), 1, 3), cs("el"));
}

#[test]
fn fields_between_blanks() {
    assert_eq!(strings(fields_of(&cs("  a  bc \t d"))), vec!["a", "bc", "d"]);
    assert_eq!(strings(fields_of(&cs("   "))), Vec::<String>::new());
    assert_eq!(strings(fields_of(&cs("one"))), vec!["one"]);
}

#[test]
fn numbers_written_one_after_the_other() {
    assert_eq!(join_numbers(&vec![12, 0, 345]), Some(120345));
    assert_eq!(join_numbers(&vec![]), Some(0));
    assert_eq!(join_numbers(&vec![0, 0, 7]), Some(7));
    assert_eq!(join_numbers(&vec![0, u64::MAX]), Some(u64::MAX));
    assert_eq!(join_numbers(&vec![1, u64::MAX]), None);
    assert_eq!(join_numbers(&vec![1844674407370955161, 5]), Some(u64::MAX));
    assert_eq!(join_numbers(&vec![1844674407370955161, 6]), None);
    assert_eq!(scale_of(0), Some(10));
    assert_eq!(scale_of(9), Some(10));
    assert_eq!(scale_of(10), Some(100));
    assert_eq!(scale_of(999), Some(1000));
    assert_eq!(scale_of(u64::MAX), None);
    assert_eq!(scale_of(9_999_999_999_999_999_999), Some(10_000_000_000_000_000_000));
    assert_eq!(scale_of(10_000_000_000_000_000_000), None);
    assert_eq!(scale_of(999_999_999_999_999_999), Some(1_000_000_000_000_000_000));
}

#[test]
fn joined_numbers_with_a_sign() {
    assert_eq!(join_signed(&vec![-3, 5]), Some(-35));
    assert_eq!(join_signed(&vec![3, -5]), None);
    assert_eq!(join_signed(&vec![]), None);
    assert_eq!(join_signed(&vec![i64::MIN]), Some(i64::MIN));
    assert_eq!(join_signed(&vec![i64::MAX]), Some(i64::MAX));
    assert_eq!(join_signed(&vec![922337203685477580, 8]), None);
    assert_eq!(join_signed(&vec![-922337203685477580, 8]), Some(i64::MIN));
    assert_eq!(join_signed(&vec![-922337203685477580, 9]), None);
}
