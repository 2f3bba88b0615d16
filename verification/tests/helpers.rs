//! The value-level helpers and text utilities behind the builtins and the
//! completion machinery.
use lishp::SExpression;
use lishp::text::{to_num, int_to_chars, split_lines, chars_eq};
use lishp::builtins::{num_of_value, eq_values, first_value, rest_value, cons_values};
use lishp::completer::{unescape, escape, extract_word, find_unclosed_quote, Quote, BreakSet};
use lishp::complete::{curr_word, filter_candidates, split_base};
use lishp::sx_eq;

fn chars(s: &str) -> Vec<char> {
    s.chars().collect()
}

fn atom(s: &str) -> SExpression {
    SExpression::Atom(chars(s))
}

#[test]
fn numbers_parse_exactly() {
    assert_eq!(to_num(&chars("0")), Some(0));
    assert_eq!(to_num(&chars("42")), Some(42));
    assert_eq!(to_num(&chars("-7")), Some(-7));
    assert_eq!(to_num(&chars("")), None);
    assert_eq!(to_num(&chars("-")), None);
    assert_eq!(to_num(&chars("2x")), None);
    assert_eq!(to_num(&chars("1.5")), None);
    assert_eq!(to_num(&chars("9223372036854775807")), Some(i64::MAX));
    assert_eq!(to_num(&chars("9223372036854775808")), None);
}

#[test]
fn numbers_print_exactly() {
    assert_eq!(int_to_chars(0), chars("0"));
    assert_eq!(int_to_chars(1024), chars("1024"));
    assert_eq!(int_to_chars(-7), chars("-7"));
    assert_eq!(int_to_chars(i64::MIN), chars("-9223372036854775808"));
}

#[test]
fn num_of_value_flattens_and_parses() {
    assert_eq!(num_of_value(&atom("12")).unwrap(), 12);
    // a list's flattened content is read as one number
    let v = SExpression::List(vec![atom("1"), atom("2")]);
    assert_eq!(num_of_value(&v).unwrap(), 12);
    assert_eq!(num_of_value(&atom("x")).unwrap_err(), "x is not a number");
}

#[test]
fn line_splitting() {
    let none: Vec<Vec<char>> = Vec::new();
    assert_eq!(split_lines(&chars("")), none);
    assert_eq!(split_lines(&chars("a\nb")), vec![chars("a"), chars("b")]);
    assert_eq!(split_lines(&chars("a\nb\n")), vec![chars("a"), chars("b")]);
    assert_eq!(split_lines(&chars("a\r\nb")), vec![chars("a"), chars("b")]);
    assert_eq!(split_lines(&chars("\n\n")), vec![chars(""), chars("")]);
}

#[test]
fn structural_equality_helpers() {
    assert!(sx_eq(&atom("a"), &atom("a")));
    assert!(!sx_eq(&atom("a"), &atom("b")));
    assert!(!sx_eq(&atom(""), &SExpression::List(vec![])));
    assert!(eq_values(&atom(""), &SExpression::List(vec![])));
    assert!(eq_values(&SExpression::List(vec![]), &atom("")));
    assert!(!eq_values(&atom("x"), &SExpression::List(vec![])));
    assert!(chars_eq(&chars("ab"), &chars("ab")));
    assert!(!chars_eq(&chars("ab"), &chars("abc")));
}

#[test]
fn first_and_rest_values() {
    assert_eq!(first_value(SExpression::List(vec![atom("x"), atom("y")])).unwrap(), atom("x"));
    assert_eq!(first_value(atom("abc")).unwrap(), atom("a"));
    assert!(first_value(SExpression::List(vec![])).is_err());
    assert_eq!(
        rest_value(SExpression::List(vec![atom("x"), atom("y")])).unwrap(),
        SExpression::List(vec![atom("y")])
    );
    assert_eq!(rest_value(atom("abc")).unwrap(), atom("bc"));
    assert!(rest_value(atom("")).is_err());
}

#[test]
fn cons_value_shapes() {
    assert_eq!(cons_values(atom("a"), SExpression::List(vec![])).unwrap(), atom("a"));
    assert_eq!(cons_values(atom("a"), atom("bc")).unwrap(), atom("abc"));
    assert_eq!(
        cons_values(atom("ab"), SExpression::List(vec![atom("c")])).unwrap(),
        SExpression::List(vec![atom("ab"), atom("c")])
    );
    assert!(cons_values(atom("ab"), atom("cd")).is_err());
}

#[test]
fn unescape_removes_escapes() {
    assert_eq!(unescape(&chars("a\\ b"), Some('\\')), chars("a b"));
    assert_eq!(unescape(&chars("a\\\\b"), Some('\\')), chars("a\\b"));
    assert_eq!(unescape(&chars("plain"), Some('\\')), chars("plain"));
    assert_eq!(unescape(&chars("tail\\"), Some('\\')), chars("tail"));
    assert_eq!(unescape(&chars("a\\ b"), None), chars("a\\ b"));
}

#[test]
fn escape_marks_break_characters() {
    assert_eq!(
        escape(chars("a b"), Some('\\'), BreakSet::Default, Quote::Bare),
        chars("a\\ b")
    );
    assert_eq!(
        escape(chars("a b"), Some('\\'), BreakSet::Default, Quote::Single),
        chars("a b")
    );
    assert_eq!(
        escape(chars("say\"hi\""), Some('\\'), BreakSet::DoubleQuotes, Quote::Double),
        chars("say\\\"hi\\\"")
    );
}

#[test]
fn extract_word_slices_back_from_the_cursor() {
    let line = chars("cat some/pa");
    let (start, word) = extract_word(&line, line.len(), Some('\\'), BreakSet::Default);
    assert_eq!(start, 4);
    assert_eq!(word, chars("some/pa"));
    // an escaped space does not end the word
    let line = chars("cat a\\ b");
    let (start, word) = extract_word(&line, line.len(), Some('\\'), BreakSet::Default);
    assert_eq!(start, 4);
    assert_eq!(word, chars("a\\ b"));
}

#[test]
fn curr_word_scans_to_separator() {
    // cursor on the last character; the word starts after the space
    let buf = "ab cd";
    let (start, end) = curr_word(buf, 4);
    assert_eq!((start, end), (3, 4));
    let buf = "(ls";
    let (start, end) = curr_word(buf, 2);
    assert_eq!((start, end), (1, 2));
}

#[test]
fn completion_filters_and_marks_candidates() {
    let entries = vec![
        ("foo".to_string(), false),
        ("foobar".to_string(), true),
        ("baz".to_string(), false),
        ("a b".to_string(), false),
    ];
    let base = chars("x/");
    let cands = filter_candidates(&entries, &base, &chars("foo"));
    assert_eq!(cands, vec!["x/foo".to_string(), "x/foobar/".to_string()]);
    // a leading `./` is dropped, and whitespace forces quotes
    let cands = filter_candidates(&entries, &chars("./"), &chars("a"));
    assert_eq!(cands, vec!["\"a b\"".to_string()]);
}

#[test]
fn completion_splits_base_and_prefix() {
    let (base, pref) = split_base(&chars("src/ma"));
    assert_eq!(base, chars("src/"));
    assert_eq!(pref, chars("ma"));
    let (base, pref) = split_base(&chars("name"));
    assert_eq!(base, chars("./"));
    assert_eq!(pref, chars("name"));
    let (base, pref) = split_base(&chars("/usr/bi"));
    assert_eq!(base, chars("/usr/"));
    assert_eq!(pref, chars("bi"));
}

#[test]
fn unclosed_quotes_are_found() {
    assert_eq!(find_unclosed_quote(&chars("plain text")), None);
    assert_eq!(find_unclosed_quote(&chars("say \"hi")), Some((4, Quote::Double)));
    assert_eq!(find_unclosed_quote(&chars("say \"hi\"")), None);
    assert_eq!(find_unclosed_quote(&chars("it's")), Some((2, Quote::Single)));
    // an escaped quote does not open a run
    assert_eq!(find_unclosed_quote(&chars("a \\\" b")), None);
    // an escape inside double quotes keeps the run open
    assert_eq!(find_unclosed_quote(&chars("\"a\\\"")), Some((0, Quote::Double)));
}
