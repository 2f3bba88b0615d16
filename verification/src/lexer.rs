//! The lexer: one left-to-right scan over the input characters with four
//! modes (normal, inside a double quote, backslash escape, line comment),
//! plus head-position alias substitution and the implicit outer-call wrap.
use vstd::prelude::*;

verus! {

/// A lexical token of the language.
#[derive(Debug, PartialEq, Eq)]
pub enum Token {
    LParen,
    RParen,
    Quote,
    Ident(Vec<char>),
    EOF,
}

/// The mathematical shape of a token.
pub enum TokenV {
    LParen,
    RParen,
    Quote,
    Ident(Seq<char>),
    EOF,
}

impl View for Token {
    type V = TokenV;

    open spec fn view(&self) -> TokenV {
        match self {
            Token::LParen => TokenV::LParen,
            Token::RParen => TokenV::RParen,
            Token::Quote => TokenV::Quote,
            Token::Ident(s) => TokenV::Ident(s@),
            Token::EOF => TokenV::EOF,
        }
    }
}

/// Deep view of a token vector, elementwise.
pub open spec fn token_views(ts: Seq<Token>) -> Seq<TokenV>
    decreases ts,
{
    if ts.len() == 0 {
        Seq::empty()
    } else {
        token_views(ts.drop_last()).push(ts.last()@)
    }
}

/// `token_views` is the elementwise view.
pub proof fn lemma_token_views(ts: Seq<Token>)
    ensures
        token_views(ts).len() == ts.len(),
        forall|i: int| 0 <= i < ts.len() ==> token_views(ts)[i] == #[trigger] ts[i]@,
    decreases ts,
{
    if ts.len() > 0 {
        lemma_token_views(ts.drop_last());
        assert forall|i: int| 0 <= i < ts.len() implies token_views(ts)[i] == #[trigger] ts[i]@ by {
            if i < ts.len() - 1 {
                assert(ts.drop_last()[i] == ts[i]);
            } else {
                assert(ts.last() == ts[i]);
            }
        }
    }
}

/// Appending one token extends the deep view by its view.
pub proof fn lemma_token_views_push(ts: Seq<Token>, t: Token)
    ensures
        token_views(ts.push(t)) == token_views(ts).push(t@),
{
    assert(ts.push(t).drop_last() =~= ts);
    assert(ts.push(t).last() == t);
}

/// The alias table: a symbol mapped to the sequence of replacement words that
/// stand in for it when it occurs in head position.
pub type AliasTable = Vec<(Vec<char>, Vec<Vec<char>>)>;

/// The views of a sequence of words.
pub open spec fn word_views(gs: Seq<Vec<char>>) -> Seq<Seq<char>> {
    Seq::new(gs.len(), |i: int| gs[i]@)
}

/// First-match lookup in the alias table.
pub open spec fn alias_find(al: Seq<(Vec<char>, Vec<Vec<char>>)>, k: Seq<char>) -> Option<
    Seq<Seq<char>>,
>
    decreases al,
{
    if al.len() == 0 {
        Option::None
    } else if al[0].0@ == k {
        Option::Some(word_views(al[0].1@))
    } else {
        alias_find(al.skip(1), k)
    }
}

/// The whitespace characters that separate words.
pub open spec fn spec_is_space(c: char) -> bool {
    c == ' ' || c == '\t' || c == '\n' || c == '\r' || c == '\u{b}' || c == '\u{c}'
}

/// Whitespace test matching `spec_is_space`.
pub fn is_space(c: char) -> (r: bool)
    ensures
        r == spec_is_space(c),
{
    c == ' ' || c == '\t' || c == '\n' || c == '\r' || c == '\u{b}' || c == '\u{c}'
}

/// The value of a hexadecimal digit, if the character is one.
pub open spec fn spec_hex_val(c: char) -> Option<u32> {
    if '0' <= c && c <= '9' {
        Option::Some(((c as u32) - ('0' as u32)) as u32)
    } else if 'a' <= c && c <= 'f' {
        Option::Some(((c as u32) - ('a' as u32) + 10) as u32)
    } else if 'A' <= c && c <= 'F' {
        Option::Some(((c as u32) - ('A' as u32) + 10) as u32)
    } else {
        Option::None
    }
}

/// Hexadecimal digit value matching `spec_hex_val`.
pub fn hex_val(c: char) -> (r: Option<u32>)
    ensures
        r == spec_hex_val(c),
{
    if '0' <= c && c <= '9' {
        Some((c as u32) - ('0' as u32))
    } else if 'a' <= c && c <= 'f' {
        Some((c as u32) - ('a' as u32) + 10)
    } else if 'A' <= c && c <= 'F' {
        Some((c as u32) - ('A' as u32) + 10)
    } else {
        None
    }
}

/// The character named by two hexadecimal digits.
pub open spec fn spec_hex_char(a: u32, b: u32) -> char
    recommends
        a < 16,
        b < 16,
{
    ((a * 16 + b) as u8) as char
}

/// Builds the character named by two hexadecimal digit values.
pub fn hex_char(a: u32, b: u32) -> (r: char)
    requires
        a < 16,
        b < 16,
    ensures
        r == spec_hex_char(a, b),
{
    ((a * 16 + b) as u8) as char
}

/// The scanner's state between characters.
pub struct LexState {
    /// tokens already emitted
    pub toks: Seq<TokenV>,
    /// the word being accumulated
    pub stack: Seq<char>,
    /// inside a `;`-to-end-of-line comment
    pub in_comment: bool,
    /// inside a double-quoted run
    pub in_quote: bool,
    /// the previous token boundary was an opening parenthesis
    pub last_paren: bool,
}

/// The scanner's initial state.
pub open spec fn lex_init() -> LexState {
    LexState {
        toks: Seq::empty(),
        stack: Seq::empty(),
        in_comment: false,
        in_quote: false,
        last_paren: false,
    }
}

/// The tokens emitted when the accumulated word is finalized: nothing for an
/// empty word outside quotes; the alias replacement words when the word
/// stands in head position and is aliased; the word itself otherwise.
pub open spec fn flush_toks(
    stack: Seq<char>,
    in_quote: bool,
    last_paren: bool,
    al: Seq<(Vec<char>, Vec<Vec<char>>)>,
) -> Seq<TokenV> {
    if stack.len() == 0 && !in_quote {
        Seq::empty()
    } else if last_paren {
        match alias_find(al, stack) {
            Option::Some(gs) => Seq::new(gs.len(), |i: int| TokenV::Ident(gs[i])),
            Option::None => seq![TokenV::Ident(stack)],
        }
    } else {
        seq![TokenV::Ident(stack)]
    }
}

/// The state after finalizing the accumulated word.
pub open spec fn flushed(st: LexState, last_paren: bool, al: Seq<(Vec<char>, Vec<Vec<char>>)>) -> LexState {
    LexState {
        toks: st.toks + flush_toks(st.stack, st.in_quote, st.last_paren, al),
        stack: Seq::empty(),
        in_comment: st.in_comment,
        in_quote: st.in_quote,
        last_paren,
    }
}

/// The tokens produced by scanning `text` from position `i` in state `st`,
/// or `None` if an escape is cut short or names a non-hexadecimal digit.
pub open spec fn lex_from(
    text: Seq<char>,
    i: int,
    st: LexState,
    al: Seq<(Vec<char>, Vec<Vec<char>>)>,
) -> Option<Seq<TokenV>>
    decreases text.len() - i,
{
    if i < 0 || i >= text.len() {
        Option::Some(flushed(st, st.last_paren, al).toks)
    } else {
        let c = text[i];
        if st.in_comment {
            if c == '\n' {
                lex_from(text, i + 1, LexState { in_comment: false, ..st }, al)
            } else {
                lex_from(text, i + 1, st, al)
            }
        } else if c == '"' {
            let f = flushed(st, false, al);
            lex_from(text, i + 1, LexState { in_quote: !st.in_quote, ..f }, al)
        } else if c == '\\' {
            if i + 1 >= text.len() {
                Option::None
            } else {
                let n = text[i + 1];
                if n == 'n' {
                    lex_from(text, i + 2, LexState { stack: st.stack.push('\n'), ..st }, al)
                } else if n == 'x' {
                    if i + 3 >= text.len() {
                        Option::None
                    } else {
                        match (spec_hex_val(text[i + 2]), spec_hex_val(text[i + 3])) {
                            (Option::Some(a), Option::Some(b)) => lex_from(
                                text,
                                i + 4,
                                LexState { stack: st.stack.push(spec_hex_char(a, b)), ..st },
                                al,
                            ),
                            _ => Option::None,
                        }
                    }
                } else {
                    lex_from(text, i + 2, LexState { stack: st.stack.push(n), ..st }, al)
                }
            }
        } else if st.in_quote {
            lex_from(text, i + 1, LexState { stack: st.stack.push(c), ..st }, al)
        } else if spec_is_space(c) {
            lex_from(text, i + 1, flushed(st, false, al), al)
        } else if c == ';' {
            let f = flushed(st, false, al);
            lex_from(text, i + 1, LexState { in_comment: true, ..f }, al)
        } else if c == '\'' {
            let f = flushed(st, false, al);
            lex_from(text, i + 1, LexState { toks: f.toks.push(TokenV::Quote), ..f }, al)
        } else if c == '(' {
            let f = flushed(st, true, al);
            lex_from(text, i + 1, LexState { toks: f.toks.push(TokenV::LParen), ..f }, al)
        } else if c == ')' {
            let f = flushed(st, false, al);
            lex_from(text, i + 1, LexState { toks: f.toks.push(TokenV::RParen), ..f }, al)
        } else {
            lex_from(text, i + 1, LexState { stack: st.stack.push(c), ..st }, al)
        }
    }
}

/// Wraps a bare token run in an implicit outer call and appends the end
/// marker: the token sequence of a complete line.
pub open spec fn finish_toks(toks: Seq<TokenV>) -> Seq<TokenV> {
    let wrapped = if toks.len() != 0 && (toks[0] != TokenV::LParen || toks.last()
        != TokenV::RParen) {
        seq![TokenV::LParen] + toks + seq![TokenV::RParen]
    } else {
        toks
    };
    wrapped.push(TokenV::EOF)
}

/// The token sequence of `text` under alias table `al`, or `None` when an
/// escape is malformed.
pub open spec fn lex_spec(text: Seq<char>, al: Seq<(Vec<char>, Vec<Vec<char>>)>) -> Option<
    Seq<TokenV>,
> {
    match lex_from(text, 0, lex_init(), al) {
        Option::Some(toks) => Option::Some(finish_toks(toks)),
        Option::None => Option::None,
    }
}

/// First-match lookup of a word in the alias table.
#[verifier::loop_isolation(false)]
pub fn alias_get<'a>(al: &'a AliasTable, k: &Vec<char>) -> (r: Option<&'a Vec<Vec<char>>>)
    ensures
        match r {
            Option::Some(gs) => alias_find(al@, k@) == Option::Some(word_views(gs@)),
            Option::None => alias_find(al@, k@) is None,
        },
{
    let n = al.len();
    let mut j: usize = 0;
    proof {
        assert(al@.skip(0) =~= al@);
    }
    while j < n
        invariant
            j <= n,
            alias_find(al@, k@) == alias_find(al@.skip(j as int), k@),
        decreases n - j,
    {
        proof {
            assert(al@.skip(j as int)[0] == al@[j as int]);
            assert(al@.skip(j as int).skip(1) =~= al@.skip(j as int + 1));
        }
        if crate::text::chars_eq(&al[j].0, k) {
            return Some(&al[j].1);
        }
        j += 1;
    }
    proof {
        assert(al@.skip(n as int) =~= Seq::<(Vec<char>, Vec<Vec<char>>)>::empty());
    }
    None
}

/// Finalizes the accumulated word into the token vector, consuming it; the
/// tokens grow by exactly `flush_toks` and the word is emptied.
#[verifier::loop_isolation(false)]
fn flush_push(
    tokens: &mut Vec<Token>,
    stack: Vec<char>,
    in_quote: bool,
    last_paren: bool,
    al: &AliasTable,
) -> (fresh: Vec<char>)
    ensures
        token_views(final(tokens)@) == token_views(old(tokens)@) + flush_toks(
            stack@,
            in_quote,
            last_paren,
            al@,
        ),
        fresh@ == Seq::<char>::empty(),
{
    let ghost base = token_views(tokens@);
    if stack.len() == 0 && !in_quote {
        proof {
            assert(token_views(tokens@) =~= base + flush_toks(stack@, in_quote, last_paren, al@));
        }
        return stack;
    }
    if last_paren {
        match alias_get(al, &stack) {
            Some(gs) => {
                let ghost gsv = word_views(gs@);
                let m = gs.len();
                let mut j: usize = 0;
                while j < m
                    invariant
                        j <= m,
                        gs@.len() == m,
                        token_views(tokens@) == base + Seq::new(
                            j as nat,
                            |i: int| TokenV::Ident(gsv[i]),
                        ),
                    decreases m - j,
                {
                    let word = crate::clone_chars(&gs[j]);
                    proof {
                        lemma_token_views_push(tokens@, Token::Ident(word));
                    }
                    tokens.push(Token::Ident(word));
                    proof {
                        assert(token_views(tokens@) =~= base + Seq::new(
                            (j + 1) as nat,
                            |i: int| TokenV::Ident(gsv[i]),
                        ));
                    }
                    j += 1;
                }
                proof {
                    assert(flush_toks(stack@, in_quote, last_paren, al@) =~= Seq::new(
                        m as nat,
                        |i: int| TokenV::Ident(gsv[i]),
                    ));
                    assert(token_views(tokens@) =~= base + flush_toks(
                        stack@,
                        in_quote,
                        last_paren,
                        al@,
                    ));
                }
                Vec::new()
            },
            None => {
                proof {
                    lemma_token_views_push(tokens@, Token::Ident(stack));
                    assert(token_views(tokens@).push(TokenV::Ident(stack@)) =~= base + flush_toks(
                        stack@,
                        in_quote,
                        last_paren,
                        al@,
                    ));
                }
                tokens.push(Token::Ident(stack));
                Vec::new()
            },
        }
    } else {
        proof {
            lemma_token_views_push(tokens@, Token::Ident(stack));
            assert(token_views(tokens@).push(TokenV::Ident(stack@)) =~= base + flush_toks(
                stack@,
                in_quote,
                last_paren,
                al@,
            ));
        }
        tokens.push(Token::Ident(stack));
        Vec::new()
    }
}

/// Runs the scanner over `text` under alias table `al`: either the complete
/// token sequence of the line (implicitly wrapped, ending in the end marker),
/// or an error when a backslash escape is cut short or names a character
/// that is not a hexadecimal digit.
#[verifier::loop_isolation(false)]
pub fn lex(text: &Vec<char>, al: &AliasTable) -> (r: Result<Vec<Token>, String>)
    ensures
        match r {
            Ok(ts) => lex_spec(text@, al@) == Option::Some(token_views(ts@)),
            Err(m) => lex_spec(text@, al@) is None && (m@ == "escape cut short by end of input"@
                || m@ == "hex escape cut short by end of input"@ || m@
                == "hex escape needs two hexadecimal digits"@),
        },
{
    let mut tokens: Vec<Token> = Vec::new();
    let mut stack: Vec<char> = Vec::new();
    let mut in_comment = false;
    let mut in_quote = false;
    let mut last_paren = false;
    let n = text.len();
    let mut i: usize = 0;
    proof {
        assert(token_views(tokens@) =~= Seq::<TokenV>::empty());
    }
    while i < n
        invariant
            i <= n,
            lex_from(
                text@,
                i as int,
                LexState {
                    toks: token_views(tokens@),
                    stack: stack@,
                    in_comment,
                    in_quote,
                    last_paren,
                },
                al@,
            ) == lex_from(text@, 0, lex_init(), al@),
        decreases n - i,
    {
        let ghost st0 = LexState {
            toks: token_views(tokens@),
            stack: stack@,
            in_comment,
            in_quote,
            last_paren,
        };
        let c = text[i];
        if in_comment {
            if c == '\n' {
                in_comment = false;
            }
            i += 1;
        } else if c == '"' {
            stack = flush_push(&mut tokens, stack, in_quote, last_paren, al);
            last_paren = false;
            in_quote = !in_quote;
            i += 1;
        } else if c == '\\' {
            if n - i < 2 {
                proof {
                    assert(lex_from(text@, i as int, st0, al@) is None);
                }
                return Err(String::from_str("escape cut short by end of input"));
            }
            let nx = text[i + 1];
            if nx == 'n' {
                stack.push('\n');
                i += 2;
            } else if nx == 'x' {
                if n - i < 4 {
                    proof {
                        assert(lex_from(text@, i as int, st0, al@) is None);
                    }
                    return Err(String::from_str("hex escape cut short by end of input"));
                }
                match (hex_val(text[i + 2]), hex_val(text[i + 3])) {
                    (Some(a), Some(b)) => {
                        stack.push(hex_char(a, b));
                        i += 4;
                    },
                    _ => {
                        proof {
                            assert(lex_from(text@, i as int, st0, al@) is None);
                        }
                        return Err(String::from_str("hex escape needs two hexadecimal digits"));
                    },
                }
            } else {
                stack.push(nx);
                i += 2;
            }
        } else if in_quote {
            stack.push(c);
            i += 1;
        } else if is_space(c) {
            stack = flush_push(&mut tokens, stack, in_quote, last_paren, al);
            last_paren = false;
            i += 1;
        } else if c == ';' {
            stack = flush_push(&mut tokens, stack, in_quote, last_paren, al);
            last_paren = false;
            in_comment = true;
            i += 1;
        } else if c == '\'' {
            stack = flush_push(&mut tokens, stack, in_quote, last_paren, al);
            last_paren = false;
            proof {
                lemma_token_views_push(tokens@, Token::Quote);
            }
            tokens.push(Token::Quote);
            i += 1;
        } else if c == '(' {
            stack = flush_push(&mut tokens, stack, in_quote, last_paren, al);
            proof {
                lemma_token_views_push(tokens@, Token::LParen);
            }
            tokens.push(Token::LParen);
            last_paren = true;
            i += 1;
        } else if c == ')' {
            stack = flush_push(&mut tokens, stack, in_quote, last_paren, al);
            last_paren = false;
            proof {
                lemma_token_views_push(tokens@, Token::RParen);
            }
            tokens.push(Token::RParen);
            i += 1;
        } else {
            stack.push(c);
            i += 1;
        }
        proof {
            let st1 = LexState {
                toks: token_views(tokens@),
                stack: stack@,
                in_comment,
                in_quote,
                last_paren,
            };
            assert(lex_from(text@, i as int, st1, al@) == lex_from(text@, 0, lex_init(), al@));
        }
    }
    // final flush of the accumulated word
    let ghost st_end = LexState {
        toks: token_views(tokens@),
        stack: stack@,
        in_comment,
        in_quote,
        last_paren,
    };
    stack = flush_push(&mut tokens, stack, in_quote, last_paren, al);
    proof {
        assert(lex_from(text@, n as int, st_end, al@) == Option::Some(token_views(tokens@)));
    }
    let ghost bare = token_views(tokens@);
    // wrap a bare command line in an implicit outer call
    let needs_wrap = tokens.len() != 0 && (!matches!(tokens[0], Token::LParen) || !matches!(
        tokens[tokens.len() - 1],
        Token::RParen,
    ));
    proof {
        lemma_token_views(tokens@);
        if tokens@.len() > 0 {
            assert(bare[0] == tokens@[0]@);
            assert(bare.last() == tokens@[tokens@.len() - 1]@);
        }
    }
    if needs_wrap {
        let ghost pre = tokens@;
        tokens.insert(0, Token::LParen);
        proof {
            lemma_token_views(tokens@);
            assert(tokens@.len() == pre.len() + 1);
            assert forall|j: int| 0 <= j < tokens@.len() implies token_views(tokens@)[j] == (
            seq![TokenV::LParen] + bare)[j] by {
                assert(token_views(tokens@)[j] == tokens@[j]@);
                if j == 0 {
                    assert(tokens@[0] == Token::LParen);
                } else {
                    assert(tokens@[j] == pre[j - 1]);
                    assert(bare[j - 1] == pre[j - 1]@);
                }
            }
            assert(token_views(tokens@) =~= seq![TokenV::LParen] + bare);
            lemma_token_views_push(tokens@, Token::RParen);
            assert(token_views(tokens@).push(TokenV::RParen) =~= seq![TokenV::LParen] + bare
                + seq![TokenV::RParen]);
        }
        tokens.push(Token::RParen);
    }
    proof {
        lemma_token_views_push(tokens@, Token::EOF);
    }
    tokens.push(Token::EOF);
    Ok(tokens)
}

} // verus!

verus! {

/// True of a character with no lexical meaning of its own: not whitespace,
/// and none of the quote, escape, comment or parenthesis characters.
pub open spec fn plain_char(c: char) -> bool {
    &&& !spec_is_space(c)
    &&& c != '"'
    &&& c != '\\'
    &&& c != ';'
    &&& c != '\''
    &&& c != '('
    &&& c != ')'
}

/// Scanning a run of plain characters only accumulates them onto the word
/// in progress.
pub proof fn lemma_lex_plain_run(
    text: Seq<char>,
    i: int,
    j: int,
    st: LexState,
    al: Seq<(Vec<char>, Vec<Vec<char>>)>,
)
    requires
        0 <= i <= j <= text.len(),
        !st.in_comment,
        !st.in_quote,
        forall|k: int| i <= k < j ==> plain_char(#[trigger] text[k]),
    ensures
        lex_from(text, i, st, al) == lex_from(
            text,
            j,
            LexState { stack: st.stack + text.subrange(i, j), ..st },
            al,
        ),
    decreases j - i,
{
    if i == j {
        assert(st.stack + text.subrange(i, j) =~= st.stack);
        assert(LexState { stack: st.stack + text.subrange(i, j), ..st } == st);
    } else {
        let c = text[i];
        assert(plain_char(c));
        let st1 = LexState { stack: st.stack.push(c), ..st };
        assert(lex_from(text, i, st, al) == lex_from(text, i + 1, st1, al));
        lemma_lex_plain_run(text, i + 1, j, st1, al);
        assert(st1.stack + text.subrange(i + 1, j) =~= st.stack + text.subrange(i, j));
    }
}

} // verus!

verus! {

/// The scan depends only on the text still ahead: two texts with the same
/// suffix scan identically from the same state.
pub proof fn lemma_lex_suffix(
    text1: Seq<char>,
    i1: int,
    text2: Seq<char>,
    i2: int,
    st: LexState,
    al: Seq<(Vec<char>, Vec<Vec<char>>)>,
)
    requires
        0 <= i1 <= text1.len(),
        0 <= i2 <= text2.len(),
        text1.skip(i1) == text2.skip(i2),
    ensures
        lex_from(text1, i1, st, al) == lex_from(text2, i2, st, al),
    decreases text1.len() - i1,
{
    assert(text1.skip(i1).len() == text1.len() - i1);
    assert(text2.skip(i2).len() == text2.len() - i2);
    assert(text1.skip(i1).len() == text2.skip(i2).len());
    assert(text1.len() - i1 == text2.len() - i2);
    if i1 < text1.len() {
        assert(text1[i1] == text1.skip(i1)[0]);
        assert(text2[i2] == text2.skip(i2)[0]);
        assert(text1[i1] == text2[i2]);
        let c = text1[i1];
        assert(text1.skip(i1).skip(1) =~= text1.skip(i1 + 1));
        assert(text2.skip(i2).skip(1) =~= text2.skip(i2 + 1));
        assert(text1.skip(i1 + 1) == text2.skip(i2 + 1));
        if st.in_comment || c == '"' || st.in_quote && c != '\\' || (!st.in_quote && c != '\\' && (
        spec_is_space(c) || c == ';' || c == '\'' || c == '(' || c == ')')) {
            lemma_lex_suffix(text1, i1 + 1, text2, i2 + 1, next_state(text1, i1, st, al), al);
        } else if c == '\\' {
            if i1 + 1 < text1.len() {
                assert(text1[i1 + 1] == text1.skip(i1)[1]);
                assert(text2[i2 + 1] == text2.skip(i2)[1]);
                assert(text1[i1 + 1] == text2[i2 + 1]);
                let n = text1[i1 + 1];
                assert(text1.skip(i1).skip(2) =~= text1.skip(i1 + 2));
                assert(text2.skip(i2).skip(2) =~= text2.skip(i2 + 2));
                assert(text1.skip(i1 + 2) == text2.skip(i2 + 2));
                if n == 'x' {
                    if i1 + 3 < text1.len() {
                        assert(text1[i1 + 2] == text1.skip(i1)[2]);
                        assert(text2[i2 + 2] == text2.skip(i2)[2]);
                        assert(text1[i1 + 2] == text2[i2 + 2]);
                        assert(text1[i1 + 3] == text1.skip(i1)[3]);
                        assert(text2[i2 + 3] == text2.skip(i2)[3]);
                        assert(text1[i1 + 3] == text2[i2 + 3]);
                        assert(text1.skip(i1).skip(4) =~= text1.skip(i1 + 4));
                        assert(text2.skip(i2).skip(4) =~= text2.skip(i2 + 4));
                        assert(text1.skip(i1 + 4) == text2.skip(i2 + 4));
                        match (spec_hex_val(text1[i1 + 2]), spec_hex_val(text1[i1 + 3])) {
                            (Option::Some(a), Option::Some(b)) => {
                                lemma_lex_suffix(
                                    text1,
                                    i1 + 4,
                                    text2,
                                    i2 + 4,
                                    LexState {
                                        stack: st.stack.push(spec_hex_char(a, b)),
                                        ..st
                                    },
                                    al,
                                );
                            },
                            _ => {},
                        }
                    }
                } else {
                    let pushed = if n == 'n' {
                        '\n'
                    } else {
                        n
                    };
                    lemma_lex_suffix(
                        text1,
                        i1 + 2,
                        text2,
                        i2 + 2,
                        LexState { stack: st.stack.push(pushed), ..st },
                        al,
                    );
                }
            }
        } else {
            // a plain character, or any character inside quotes
            lemma_lex_suffix(
                text1,
                i1 + 1,
                text2,
                i2 + 1,
                LexState { stack: st.stack.push(c), ..st },
                al,
            );
        }
    }
}

/// The state after one scanned character, for the single-step cases.
pub open spec fn next_state(
    text: Seq<char>,
    i: int,
    st: LexState,
    al: Seq<(Vec<char>, Vec<Vec<char>>)>,
) -> LexState {
    let c = text[i];
    if st.in_comment {
        if c == '\n' {
            LexState { in_comment: false, ..st }
        } else {
            st
        }
    } else if c == '"' {
        let f = flushed(st, false, al);
        LexState { in_quote: !st.in_quote, ..f }
    } else if c == '\\' {
        st
    } else if st.in_quote {
        LexState { stack: st.stack.push(c), ..st }
    } else if spec_is_space(c) {
        flushed(st, false, al)
    } else if c == ';' {
        let f = flushed(st, false, al);
        LexState { in_comment: true, ..f }
    } else if c == '\'' {
        let f = flushed(st, false, al);
        LexState { toks: f.toks.push(TokenV::Quote), ..f }
    } else if c == '(' {
        let f = flushed(st, true, al);
        LexState { toks: f.toks.push(TokenV::LParen), ..f }
    } else if c == ')' {
        let f = flushed(st, false, al);
        LexState { toks: f.toks.push(TokenV::RParen), ..f }
    } else {
        LexState { stack: st.stack.push(c), ..st }
    }
}

} // verus!
