//! The parser: recursive descent over the token sequence. An opening
//! parenthesis collects elements into a `Call` until the matching closer; a
//! quote reinterprets a parsed `Call` as data (`List`); any other token in
//! form position is an atom. A line holding only the end marker parses as
//! the empty atom.
use vstd::prelude::*;
use crate::lexer::{Token, TokenV, token_views, lemma_token_views, lex_spec, AliasTable};
use crate::{Sx, SExpression, views_of, lemma_views_of};

verus! {

/// Outcome of parsing one form: the form's shape and the position after it,
/// or a parse error.
pub enum FormOut {
    Val(Sx, int),
    Fail,
}

/// Outcome of parsing an element run: the elements' shapes and the position
/// after the closing parenthesis, or a parse error.
pub enum ElemsOut {
    Val(Seq<Sx>, int),
    Fail,
}

/// Parses one form at position `i`.
pub open spec fn spec_parse_form(toks: Seq<TokenV>, i: int) -> FormOut
    decreases toks.len() - i, 1int,
{
    if i < 0 || i >= toks.len() {
        FormOut::Fail
    } else {
        match toks[i] {
            TokenV::EOF => FormOut::Fail,
            TokenV::Ident(s) => FormOut::Val(Sx::Atom(s), i + 1),
            TokenV::Quote => match spec_parse_form(toks, i + 1) {
                FormOut::Val(v, j) => FormOut::Val(
                    match v {
                        Sx::Call(es) => Sx::List(es),
                        other => other,
                    },
                    j,
                ),
                FormOut::Fail => FormOut::Fail,
            },
            TokenV::LParen => match spec_parse_elems(toks, i + 1) {
                ElemsOut::Val(vs, j) => FormOut::Val(Sx::Call(vs), j),
                ElemsOut::Fail => FormOut::Fail,
            },
            TokenV::RParen => FormOut::Fail,
        }
    }
}

/// Parses forms until a closing parenthesis, which is consumed. The guard on
/// the position returned by `spec_parse_form` keeps the recursion well
/// founded; parsed forms always advance, so the guard never bites.
pub open spec fn spec_parse_elems(toks: Seq<TokenV>, i: int) -> ElemsOut
    decreases toks.len() - i, 2int,
{
    if i < 0 || i >= toks.len() {
        ElemsOut::Fail
    } else if toks[i] == TokenV::RParen {
        ElemsOut::Val(Seq::empty(), i + 1)
    } else if toks[i] == TokenV::EOF {
        ElemsOut::Fail
    } else {
        match spec_parse_form(toks, i) {
            FormOut::Val(v, j) => if i < j <= toks.len() {
                match spec_parse_elems(toks, j) {
                    ElemsOut::Val(vs, k) => ElemsOut::Val(seq![v] + vs, k),
                    ElemsOut::Fail => ElemsOut::Fail,
                }
            } else {
                ElemsOut::Fail
            },
            FormOut::Fail => ElemsOut::Fail,
        }
    }
}

/// A parsed form always stands on at least one token.
pub proof fn lemma_parse_form_advances(toks: Seq<TokenV>, i: int)
    ensures
        spec_parse_form(toks, i) matches FormOut::Val(_, j) ==> i < j <= toks.len(),
    decreases toks.len() - i, 1int,
{
    if 0 <= i < toks.len() {
        match toks[i] {
            TokenV::Quote => lemma_parse_form_advances(toks, i + 1),
            TokenV::LParen => lemma_parse_elems_advances(toks, i + 1),
            _ => {},
        }
    }
}

/// A parsed element run always ends past its opening position.
pub proof fn lemma_parse_elems_advances(toks: Seq<TokenV>, i: int)
    ensures
        spec_parse_elems(toks, i) matches ElemsOut::Val(_, j) ==> i < j <= toks.len(),
    decreases toks.len() - i, 2int,
{
    if 0 <= i < toks.len() && toks[i] != TokenV::RParen && toks[i] != TokenV::EOF {
        lemma_parse_form_advances(toks, i);
        match spec_parse_form(toks, i) {
            FormOut::Val(v, j) => {
                if i < j <= toks.len() {
                    lemma_parse_elems_advances(toks, j);
                }
            },
            FormOut::Fail => {},
        }
    }
}

/// The parsed shape of a whole line of tokens: the empty atom for a line
/// holding only the end marker, otherwise its first form.
pub open spec fn spec_parse_line(toks: Seq<TokenV>) -> FormOut {
    if toks.len() > 0 && toks[0] == TokenV::EOF {
        FormOut::Val(Sx::Atom(Seq::empty()), 1)
    } else {
        spec_parse_form(toks, 0)
    }
}

/// The parsed shape of a line of text under an alias table: `None` when the
/// lexer or the parser rejects it.
pub open spec fn spec_parse_text(
    text: Seq<char>,
    al: Seq<(Vec<char>, Vec<Vec<char>>)>,
) -> Option<Sx> {
    match lex_spec(text, al) {
        Option::Some(toks) => match spec_parse_line(toks) {
            FormOut::Val(v, _) => Option::Some(v),
            FormOut::Fail => Option::None,
        },
        Option::None => Option::None,
    }
}

/// Parses one form starting at `i`; on success the returned position is
/// just past the form.
pub fn parse_toks(toks: &Vec<Token>, i: usize) -> (r: Result<(SExpression, usize), String>)
    ensures
        match r {
            Ok((e, j)) => spec_parse_form(token_views(toks@), i as int) == FormOut::Val(
                e@,
                j as int,
            ) && i < j <= toks@.len(),
            Err(m) => spec_parse_form(token_views(toks@), i as int) is Fail && (m@
                == "Unexpected EOF"@ || m@ == "unexpected closing parenthesis"@ || m@
                == "unexpected end of tokens"@),
        },
    decreases toks@.len() - i, 1int,
{
    proof {
        lemma_token_views(toks@);
    }
    let ghost tv = token_views(toks@);
    if i >= toks.len() {
        return Err(String::from_str("unexpected end of tokens"));
    }
    proof {
        assert(tv[i as int] == toks@[i as int]@);
    }
    match &toks[i] {
        Token::EOF => Err(String::from_str("Unexpected EOF")),
        Token::RParen => Err(String::from_str("unexpected closing parenthesis")),
        Token::Ident(s) => {
            let word = crate::clone_chars(s);
            Ok((SExpression::Atom(word), i + 1))
        },
        Token::Quote => {
            match parse_toks(toks, i + 1) {
                Ok((v, j)) => {
                    let out = match v {
                        SExpression::Call(es) => SExpression::List(es),
                        other => other,
                    };
                    Ok((out, j))
                },
                Err(e) => Err(e),
            }
        },
        Token::LParen => {
            match parse_elems(toks, i + 1) {
                Ok((vs, j)) => Ok((SExpression::Call(vs), j)),
                Err(e) => Err(e),
            }
        },
    }
}

/// Parses forms until the matching closing parenthesis, which is consumed.
#[verifier::loop_isolation(false)]
fn parse_elems(toks: &Vec<Token>, i: usize) -> (r: Result<(Vec<SExpression>, usize), String>)
    ensures
        match r {
            Ok((es, j)) => spec_parse_elems(token_views(toks@), i as int) == ElemsOut::Val(
                views_of(es@),
                j as int,
            ) && i < j <= toks@.len(),
            Err(m) => spec_parse_elems(token_views(toks@), i as int) is Fail && (m@
                == "Unexpected EOF"@ || m@ == "unexpected closing parenthesis"@ || m@
                == "unexpected end of tokens"@),
        },
    decreases toks@.len() - i, 2int,
{
    proof {
        lemma_token_views(toks@);
    }
    let ghost tv = token_views(toks@);
    if i >= toks.len() {
        return Err(String::from_str("Unexpected EOF"));
    }
    proof {
        assert(tv[i as int] == toks@[i as int]@);
    }
    if matches!(&toks[i], Token::RParen) {
        let empty_elems: Vec<SExpression> = Vec::new();
        proof {
            assert(empty_elems@ =~= Seq::<SExpression>::empty());
            assert(views_of(empty_elems@) =~= Seq::<Sx>::empty());
        }
        return Ok((empty_elems, i + 1));
    }
    if matches!(&toks[i], Token::EOF) {
        return Err(String::from_str("Unexpected EOF"));
    }
    match parse_toks(toks, i) {
        Ok((v, j)) => {
            match parse_elems(toks, j) {
                Ok((mut vs, k)) => {
                    let ghost vs0 = vs@;
                    vs.insert(0, v);
                    proof {
                        lemma_views_of(vs@);
                        lemma_views_of(vs0);
                        assert forall|t: int| 0 <= t < vs@.len() implies views_of(vs@)[t] == (
                        seq![v@] + views_of(vs0))[t] by {
                            assert(views_of(vs@)[t] == vs@[t]@);
                            if t > 0 {
                                assert(vs@[t] == vs0[t - 1]);
                                assert(views_of(vs0)[t - 1] == vs0[t - 1]@);
                            }
                        }
                        assert(views_of(vs@) =~= seq![v@] + views_of(vs0));
                    }
                    Ok((vs, k))
                },
                Err(e) => Err(e),
            }
        },
        Err(e) => Err(e),
    }
}

impl SExpression {
    /// Parses one line of text under an alias table: the line's first form,
    /// implicitly wrapped in an outer call if it was not parenthesized.
    pub fn parse(s: &str, al: &AliasTable) -> (r: Result<SExpression, String>)
        ensures
            match r {
                Ok(e) => spec_parse_text(s@, al@) == Option::Some(e@),
                Err(m) => spec_parse_text(s@, al@) is None && (m@ == "Unexpected EOF"@ || m@
                    == "unexpected closing parenthesis"@ || m@ == "unexpected end of tokens"@
                    || m@ == "escape cut short by end of input"@ || m@
                    == "hex escape cut short by end of input"@ || m@
                    == "hex escape needs two hexadecimal digits"@),
            },
    {
        let text = crate::text::str_to_chars(s);
        let toks = match crate::lexer::lex(&text, al) {
            Ok(ts) => ts,
            Err(e) => {
                return Err(e);
            },
        };
        proof {
            lemma_token_views(toks@);
        }
        if toks.len() > 0 && matches!(&toks[0], Token::EOF) {
            return Ok(SExpression::Atom(Vec::new()));
        }
        match parse_toks(&toks, 0) {
            Ok((e, _)) => Ok(e),
            Err(e) => Err(e),
        }
    }
}

/// Parses a whole program text: every form in order, stopping at the end
/// marker. On a malformed form the forms before it are kept and the error
/// is reported beside them.
#[verifier::loop_isolation(false)]
pub fn parse_str(s: &str, al: &AliasTable) -> (r: (Vec<SExpression>, Option<String>)) {
    let text = crate::text::str_to_chars(s);
    let toks = match crate::lexer::lex(&text, al) {
        Ok(ts) => ts,
        Err(e) => {
            return (Vec::new(), Some(e));
        },
    };
    let mut out: Vec<SExpression> = Vec::new();
    let mut i: usize = 0;
    let n = toks.len();
    while i < n && !matches!(&toks[i], Token::EOF)
        invariant
            i <= n,
            n == toks@.len(),
        decreases n - i,
    {
        match parse_toks(&toks, i) {
            Ok((e, j)) => {
                out.push(e);
                i = j;
            },
            Err(e) => {
                return (out, Some(e));
            },
        }
    }
    (out, None)
}

} // verus!
