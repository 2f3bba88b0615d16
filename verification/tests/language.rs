//! The lexical and syntactic layer: tokens, alias expansion, parsing, and
//! the printed form.
use lishp::SExpression;
use lishp::lexer::{lex, Token, AliasTable};

fn chars(s: &str) -> Vec<char> {
    s.chars().collect()
}

fn atom(s: &str) -> SExpression {
    SExpression::Atom(chars(s))
}

fn no_aliases() -> AliasTable {
    Vec::new()
}

#[test]
fn lex_bare_line_is_wrapped() {
    let toks = lex(&chars("ls -l"), &no_aliases()).unwrap();
    assert_eq!(
        toks,
        vec![
            Token::LParen,
            Token::Ident(chars("ls")),
            Token::Ident(chars("-l")),
            Token::RParen,
            Token::EOF,
        ]
    );
}

#[test]
fn lex_parenthesized_line_is_not_wrapped() {
    let toks = lex(&chars("(+ 1 2)"), &no_aliases()).unwrap();
    assert_eq!(
        toks,
        vec![
            Token::LParen,
            Token::Ident(chars("+")),
            Token::Ident(chars("1")),
            Token::Ident(chars("2")),
            Token::RParen,
            Token::EOF,
        ]
    );
}

#[test]
fn lex_quoted_text_is_one_token() {
    let toks = lex(&chars("(= \"a b\" x)"), &no_aliases()).unwrap();
    assert_eq!(
        toks,
        vec![
            Token::LParen,
            Token::Ident(chars("=")),
            Token::Ident(chars("a b")),
            Token::Ident(chars("x")),
            Token::RParen,
            Token::EOF,
        ]
    );
}

#[test]
fn lex_empty_quotes_yield_empty_ident() {
    let toks = lex(&chars("(f \"\")"), &no_aliases()).unwrap();
    assert_eq!(
        toks,
        vec![
            Token::LParen,
            Token::Ident(chars("f")),
            Token::Ident(chars("")),
            Token::RParen,
            Token::EOF,
        ]
    );
}

#[test]
fn lex_escapes() {
    // \n names a newline, \xHH a byte, and any other escaped character stands
    // for itself
    let toks = lex(&chars("a\\nb"), &no_aliases()).unwrap();
    assert_eq!(
        toks,
        vec![Token::LParen, Token::Ident(chars("a\nb")), Token::RParen, Token::EOF]
    );
    let toks = lex(&chars("a\\x41"), &no_aliases()).unwrap();
    assert_eq!(
        toks,
        vec![Token::LParen, Token::Ident(chars("aA")), Token::RParen, Token::EOF]
    );
    let toks = lex(&chars("a\\(b"), &no_aliases()).unwrap();
    assert_eq!(
        toks,
        vec![Token::LParen, Token::Ident(chars("a(b")), Token::RParen, Token::EOF]
    );
}

#[test]
fn lex_malformed_escape_is_an_error() {
    assert!(lex(&chars("abc\\"), &no_aliases()).is_err());
    assert!(lex(&chars("a\\xg1"), &no_aliases()).is_err());
    assert!(lex(&chars("a\\x4"), &no_aliases()).is_err());
}

#[test]
fn lex_comment_runs_to_end_of_line() {
    let toks = lex(&chars("(a ; comment here\nb)"), &no_aliases()).unwrap();
    assert_eq!(
        toks,
        vec![
            Token::LParen,
            Token::Ident(chars("a")),
            Token::Ident(chars("b")),
            Token::RParen,
            Token::EOF,
        ]
    );
}

#[test]
fn alias_expands_in_head_position_only() {
    let mut al = no_aliases();
    al.push((chars("ll"), vec![chars("ls"), chars("-l")]));
    let expanded = lex(&chars("(ll /tmp)"), &al).unwrap();
    let plain = lex(&chars("(ls -l /tmp)"), &no_aliases()).unwrap();
    assert_eq!(expanded, plain);
    // not in head position: no expansion
    let toks = lex(&chars("(echo ll)"), &al).unwrap();
    assert_eq!(
        toks,
        vec![
            Token::LParen,
            Token::Ident(chars("echo")),
            Token::Ident(chars("ll")),
            Token::RParen,
            Token::EOF,
        ]
    );
}

#[test]
fn parse_simple_call() {
    let e = SExpression::parse("(+ 1 2)", &no_aliases()).unwrap();
    assert_eq!(
        e,
        SExpression::Call(vec![atom("+"), atom("1"), atom("2")])
    );
}

#[test]
fn parse_quote_turns_call_into_list() {
    // a bare quoted form still receives the implicit outer wrap
    let e = SExpression::parse("'(1 2)", &no_aliases()).unwrap();
    assert_eq!(
        e,
        SExpression::Call(vec![SExpression::List(vec![atom("1"), atom("2")])])
    );
    // inside a form, quoting data needs no wrap
    let e = SExpression::parse("(f '(1 2))", &no_aliases()).unwrap();
    assert_eq!(
        e,
        SExpression::Call(vec![atom("f"), SExpression::List(vec![atom("1"), atom("2")])])
    );
    // a quoted atom stays an atom
    let e = SExpression::parse("(f 'x)", &no_aliases()).unwrap();
    assert_eq!(e, SExpression::Call(vec![atom("f"), atom("x")]));
}

#[test]
fn parse_nested() {
    let e = SExpression::parse("(a (b c) d)", &no_aliases()).unwrap();
    assert_eq!(
        e,
        SExpression::Call(vec![
            atom("a"),
            SExpression::Call(vec![atom("b"), atom("c")]),
            atom("d"),
        ])
    );
}

#[test]
fn parse_empty_input_is_the_empty_atom() {
    let e = SExpression::parse("", &no_aliases()).unwrap();
    assert_eq!(e, atom(""));
    let e = SExpression::parse("   ; just a comment", &no_aliases()).unwrap();
    assert_eq!(e, atom(""));
}

#[test]
fn parse_unbalanced_is_an_error() {
    assert!(SExpression::parse("(a (b)", &no_aliases()).is_err());
}

#[test]
fn parse_str_reads_many_forms() {
    let (es, err) = lishp::parser::parse_str("(a b) (c)", &no_aliases());
    assert!(err.is_none());
    assert_eq!(
        es,
        vec![
            SExpression::Call(vec![atom("a"), atom("b")]),
            SExpression::Call(vec![atom("c")]),
        ]
    );
}

#[test]
fn print_atom_forms() {
    assert_eq!(atom("abc").to_text(), chars("abc"));
    assert_eq!(atom("a b").to_text(), chars("\"a b\""));
    assert_eq!(atom("").to_text(), chars("\"\""));
}

#[test]
fn print_list_form() {
    let l = SExpression::List(vec![atom("1"), atom("2")]);
    assert_eq!(l.to_text(), chars("(1 2)"));
}

#[test]
fn print_long_list_wraps() {
    let many: Vec<SExpression> = (0..40).map(|_| atom("abcd")).collect();
    let text: String = SExpression::List(many).to_text().into_iter().collect();
    assert!(text.starts_with("(\n\t"));
    assert!(text.contains("\n\tabcd"));
    assert!(text.ends_with("\n)"));
}

#[test]
fn print_then_parse_recovers_the_wrapped_atom() {
    // the parsed line is the implicit command wrap around the printed atom
    let text: String = atom("value1").to_text().into_iter().collect();
    let back = SExpression::parse(&text, &no_aliases()).unwrap();
    assert_eq!(back, SExpression::Call(vec![atom("value1")]));
}

#[test]
fn print_then_parse_recovers_list_structure() {
    // printing a reduced list and reparsing yields the same elements, as the
    // syntactic call form
    let v = SExpression::List(vec![atom("1"), atom("2"), atom("3")]);
    let text: String = v.to_text().into_iter().collect();
    let back = SExpression::parse(&text, &no_aliases()).unwrap();
    assert_eq!(
        back,
        SExpression::Call(vec![atom("1"), atom("2"), atom("3")])
    );
}
