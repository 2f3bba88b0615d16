//! Cross-cutting laws of the language, stated and proved over the same
//! specification functions that the executable functions' contracts use.
use vstd::prelude::*;
use crate::Sx;
use crate::lexer::{TokenV, lex_init, lex_from, lex_spec, finish_toks, flush_toks, flushed,
    LexState, plain_char, lemma_lex_plain_run, spec_is_space, alias_find};
use crate::parser::{spec_parse_text, spec_parse_line, spec_parse_form, spec_parse_elems, FormOut,
    ElemsOut};
use crate::print::{print_sx, needs_quotes};

verus! {

/// An atom whose text reads back exactly as itself: non-empty, made only of
/// characters without lexical meaning.
pub open spec fn unambiguous_atom(s: Seq<char>) -> bool {
    s.len() > 0 && forall|j: int| 0 <= j < s.len() ==> plain_char(#[trigger] s[j])
}

/// Round-trip for a fully reduced atom: printing it and parsing the printed
/// text back (under an empty alias table) yields exactly the implicit
/// command wrap around the same atom. The wrap is why the round trip stops
/// at the parse: re-evaluating the parsed line would treat the printed atom
/// as a command name.
pub proof fn lemma_print_parse_atom(s: Seq<char>)
    requires
        unambiguous_atom(s),
    ensures
        spec_parse_text(print_sx(Sx::Atom(s)), Seq::empty()) == Option::Some(
            Sx::Call(seq![Sx::Atom(s)]),
        ),
{
    let al = Seq::<(Vec<char>, Vec<Vec<char>>)>::empty();
    // the printed form is the text itself: no quotes are needed
    assert(!needs_quotes(s)) by {
        if needs_quotes(s) {
            let j = choose|j: int| 0 <= j < s.len() && s[j] == ' ';
            assert(plain_char(s[j]));
            assert(spec_is_space(' '));
        }
    }
    let text = print_sx(Sx::Atom(s));
    assert(text == s);
    // the scan accumulates the whole text onto the word in progress
    let st0 = lex_init();
    lemma_lex_plain_run(text, 0, text.len() as int, st0, al);
    let st1 = LexState { stack: st0.stack + text.subrange(0, text.len() as int), ..st0 };
    assert(st1.stack =~= s);
    // the end of input finalizes the word into a single token
    let bare = flushed(st1, st1.last_paren, al).toks;
    assert(flush_toks(st1.stack, false, false, al) =~= seq![TokenV::Ident(s)]);
    assert(bare =~= seq![TokenV::Ident(s)]);
    assert(lex_from(text, 0, st0, al) == Option::Some(bare));
    // the bare word is wrapped in the implicit outer call
    let toks = finish_toks(bare);
    assert(bare[0] != TokenV::LParen);
    assert(toks =~= seq![TokenV::LParen, TokenV::Ident(s), TokenV::RParen, TokenV::EOF]);
    assert(lex_spec(text, al) == Option::Some(toks));
    // parsing: the opening parenthesis collects one atom up to the closer
    assert(toks[0] == TokenV::LParen);
    assert(toks[1] == TokenV::Ident(s));
    assert(toks[2] == TokenV::RParen);
    assert(spec_parse_form(toks, 1) == FormOut::Val(Sx::Atom(s), 2));
    assert(spec_parse_elems(toks, 2) == ElemsOut::Val(Seq::<Sx>::empty(), 3));
    assert(spec_parse_elems(toks, 1) == ElemsOut::Val(seq![Sx::Atom(s)] + Seq::<Sx>::empty(), 3));
    assert(seq![Sx::Atom(s)] + Seq::<Sx>::empty() =~= seq![Sx::Atom(s)]);
    assert(spec_parse_form(toks, 0) == FormOut::Val(Sx::Call(seq![Sx::Atom(s)]), 3));
    assert(spec_parse_line(toks) == FormOut::Val(Sx::Call(seq![Sx::Atom(s)]), 3));
}

/// The words joined by single spaces.
pub open spec fn join_words(ws: Seq<Seq<char>>) -> Seq<char>
    decreases ws,
{
    if ws.len() == 0 {
        Seq::empty()
    } else if ws.len() == 1 {
        ws[0]
    } else {
        ws[0] + seq![' '] + join_words(ws.skip(1))
    }
}

/// One word token for each word.
pub open spec fn idents_of(ws: Seq<Seq<char>>) -> Seq<TokenV> {
    Seq::new(ws.len(), |i: int| TokenV::Ident(ws[i]))
}

/// Scanning the joined words accumulates the last one onto the word in
/// progress and emits one token for each word before it.
pub proof fn lemma_lex_join(
    text: Seq<char>,
    i: int,
    ws: Seq<Seq<char>>,
    st: LexState,
    al: Seq<(Vec<char>, Vec<Vec<char>>)>,
)
    requires
        ws.len() > 0,
        forall|k: int| 0 <= k < ws.len() ==> unambiguous_atom(#[trigger] ws[k]),
        0 <= i,
        i + join_words(ws).len() <= text.len(),
        text.subrange(i, i + join_words(ws).len()) == join_words(ws),
        !st.in_comment,
        !st.in_quote,
        st.stack.len() == 0,
        st.last_paren ==> alias_find(al, ws[0]) is None,
    ensures
        lex_from(text, i, st, al) == lex_from(
            text,
            i + join_words(ws).len(),
            LexState {
                toks: st.toks + idents_of(ws.drop_last()),
                stack: ws.last(),
                in_comment: st.in_comment,
                in_quote: st.in_quote,
                last_paren: st.last_paren && ws.len() == 1,
            },
            al,
        ),
    decreases ws.len(),
{
    let jl = join_words(ws).len() as int;
    if ws.len() == 1 {
        assert(join_words(ws) == ws[0]);
        assert forall|k: int| i <= k < i + jl implies plain_char(#[trigger] text[k]) by {
            assert(text.subrange(i, i + jl)[k - i] == text[k]);
            assert(ws[0][k - i] == text[k]);
            assert(unambiguous_atom(ws[0]));
        }
        lemma_lex_plain_run(text, i, i + jl, st, al);
        assert(st.stack + text.subrange(i, i + jl) =~= ws[0]);
        assert(idents_of(ws.drop_last()) =~= Seq::<TokenV>::empty());
        assert(st.toks + idents_of(ws.drop_last()) =~= st.toks);
        assert(ws.last() == ws[0]);
    } else {
        let w0 = ws[0];
        let tail = ws.skip(1);
        assert(join_words(ws) == w0 + seq![' '] + join_words(tail));
        let w0l = w0.len() as int;
        let jtl = join_words(tail).len() as int;
        assert(jl == w0l + 1 + jtl);
        // the first word is a plain run
        assert forall|k: int| i <= k < i + w0l implies plain_char(#[trigger] text[k]) by {
            assert(text.subrange(i, i + jl)[k - i] == text[k]);
            assert(join_words(ws)[k - i] == w0[k - i]);
            assert(unambiguous_atom(w0));
        }
        lemma_lex_plain_run(text, i, i + w0l, st, al);
        let st1 = LexState { stack: st.stack + text.subrange(i, i + w0l), ..st };
        assert(st.stack + text.subrange(i, i + w0l) =~= w0) by {
            assert forall|k: int| 0 <= k < w0l implies text.subrange(i, i + w0l)[k] == w0[k] by {
                assert(text.subrange(i, i + jl)[k] == text[i + k]);
                assert(text.subrange(i, i + w0l)[k] == text[i + k]);
                assert(join_words(ws)[k] == w0[k]);
            }
        }
        assert(st1 == LexState { stack: w0, ..st });
        // the separating space finalizes it into one token
        assert(text[i + w0l] == ' ') by {
            assert(text.subrange(i, i + jl)[w0l] == text[i + w0l]);
            assert(join_words(ws)[w0l] == ' ');
        }
        let stw = LexState { stack: w0, ..st };
        assert(lex_from(text, i + w0l, stw, al) == lex_from(
            text,
            i + w0l + 1,
            flushed(stw, false, al),
            al,
        ));
        let st2 = flushed(stw, false, al);
        assert(flush_toks(w0, false, st.last_paren, al) =~= seq![TokenV::Ident(w0)]);
        assert(st2 == LexState {
            toks: st.toks + seq![TokenV::Ident(w0)],
            stack: Seq::empty(),
            in_comment: st.in_comment,
            in_quote: st.in_quote,
            last_paren: false,
        });
        // the remaining words follow from the state after the space
        assert(text.subrange(i + w0l + 1, i + jl) =~= join_words(tail)) by {
            assert forall|k: int| 0 <= k < jtl implies text.subrange(i + w0l + 1, i + jl)[k]
                == join_words(tail)[k] by {
                assert(text.subrange(i + w0l + 1, i + jl)[k] == text[i + w0l + 1 + k]);
                assert(text.subrange(i, i + jl)[w0l + 1 + k] == text[i + w0l + 1 + k]);
                assert(join_words(ws)[w0l + 1 + k] == join_words(tail)[k]);
            }
        }
        assert forall|k: int| 0 <= k < tail.len() implies unambiguous_atom(#[trigger] tail[k]) by {
            assert(tail[k] == ws[k + 1]);
        }
        lemma_lex_join(text, i + w0l + 1, tail, st2, al);
        // the token runs agree
        assert(st2.toks + idents_of(tail.drop_last()) =~= st.toks + idents_of(ws.drop_last())) by {
            assert(idents_of(ws.drop_last()).len() == ws.len() - 1);
            assert forall|k: int| 0 <= k < st.toks.len() + ws.len() - 1 implies (st2.toks
                + idents_of(tail.drop_last()))[k] == (st.toks + idents_of(ws.drop_last()))[k] by {
                if k >= st.toks.len() {
                    let j = k - st.toks.len();
                    if j == 0 {
                        assert(ws.drop_last()[0] == w0);
                    } else {
                        assert(idents_of(tail.drop_last())[j - 1] == TokenV::Ident(
                            tail.drop_last()[j - 1],
                        ));
                        assert(tail.drop_last()[j - 1] == ws[j]);
                        assert(ws.drop_last()[j] == ws[j]);
                    }
                }
            }
        }
        assert(tail.last() == ws.last());
    }
}

/// Alias expansion: a line whose head is an aliased symbol reads exactly as
/// the line with the replacement words written out, token for token. The
/// replacement's own head must not itself be aliased, and the head word
/// must end at a space or a closing parenthesis.
pub proof fn lemma_alias_expansion(
    a: Seq<char>,
    ws: Seq<Seq<char>>,
    rest: Seq<char>,
    al: Seq<(Vec<char>, Vec<Vec<char>>)>,
)
    requires
        unambiguous_atom(a),
        alias_find(al, a) == Option::Some(ws),
        ws.len() > 0,
        forall|k: int| 0 <= k < ws.len() ==> unambiguous_atom(#[trigger] ws[k]),
        alias_find(al, ws[0]) is None,
        rest.len() > 0,
        rest[0] == ' ' || rest[0] == ')',
    ensures
        lex_spec(seq!['('] + a + rest, al) == lex_spec(seq!['('] + join_words(ws) + rest, al),
{
    let t1 = seq!['('] + a + rest;
    let t2 = seq!['('] + join_words(ws) + rest;
    let al_ = al;
    let jl = join_words(ws).len() as int;
    // both lines open with the parenthesis
    let st_lp = LexState {
        toks: seq![TokenV::LParen],
        stack: Seq::empty(),
        in_comment: false,
        in_quote: false,
        last_paren: true,
    };
    assert(t1[0] == '(');
    assert(t2[0] == '(');
    assert(flush_toks(Seq::empty(), false, false, al_) =~= Seq::<TokenV>::empty());
    assert(flushed(lex_init(), true, al_).toks =~= Seq::<TokenV>::empty());
    assert(lex_from(t1, 0, lex_init(), al_) == lex_from(t1, 1, st_lp, al_)) by {
        assert(LexState {
            toks: flushed(lex_init(), true, al_).toks.push(TokenV::LParen),
            ..flushed(lex_init(), true, al_)
        } == st_lp);
    }
    assert(lex_from(t2, 0, lex_init(), al_) == lex_from(t2, 1, st_lp, al_)) by {
        assert(LexState {
            toks: flushed(lex_init(), true, al_).toks.push(TokenV::LParen),
            ..flushed(lex_init(), true, al_)
        } == st_lp);
    }
    // the aliased head accumulates as one word
    let alen = a.len() as int;
    assert forall|k: int| 1 <= k < 1 + alen implies plain_char(#[trigger] t1[k]) by {
        assert(t1[k] == a[k - 1]);
    }
    lemma_lex_plain_run(t1, 1, 1 + alen, st_lp, al_);
    let st_a = LexState { stack: st_lp.stack + t1.subrange(1, 1 + alen), ..st_lp };
    assert(st_lp.stack + t1.subrange(1, 1 + alen) =~= a) by {
        assert forall|k: int| 0 <= k < alen implies t1.subrange(1, 1 + alen)[k] == a[k] by {
            assert(t1.subrange(1, 1 + alen)[k] == t1[1 + k]);
            assert(t1[1 + k] == a[k]);
        }
    }
    assert(st_a == LexState { stack: a, ..st_lp });
    // the written-out words accumulate to the same tokens
    assert(t2.subrange(1, 1 + jl) =~= join_words(ws)) by {
        assert forall|k: int| 0 <= k < jl implies t2.subrange(1, 1 + jl)[k] == join_words(ws)[k] by {
            assert(t2.subrange(1, 1 + jl)[k] == t2[1 + k]);
            assert(t2[1 + k] == join_words(ws)[k]);
        }
    }
    lemma_lex_join(t2, 1, ws, st_lp, al_);
    let st_b = LexState {
        toks: st_lp.toks + idents_of(ws.drop_last()),
        stack: ws.last(),
        in_comment: false,
        in_quote: false,
        last_paren: ws.len() == 1,
    };
    // the terminator finalizes both heads into the same tokens
    let p1 = 1 + alen;
    let p2 = 1 + jl;
    assert(t1[p1] == rest[0]);
    assert(t2[p2] == rest[0]);
    let sep_toks = seq![TokenV::LParen] + idents_of(ws);
    assert(flush_toks(a, false, true, al_) =~= idents_of(ws));
    assert(st_lp.toks + idents_of(ws) =~= sep_toks);
    let ghost flushed_b_toks = st_b.toks + flush_toks(ws.last(), false, st_b.last_paren, al_);
    assert(flushed_b_toks =~= sep_toks) by {
        assert(ws.last().len() > 0) by {
            assert(unambiguous_atom(ws[ws.len() - 1]));
        }
        if ws.len() == 1 {
            assert(flush_toks(ws.last(), false, true, al_) =~= seq![TokenV::Ident(ws[0])]);
            assert(idents_of(ws.drop_last()) =~= Seq::<TokenV>::empty());
        } else {
            assert(flush_toks(ws.last(), false, false, al_) =~= seq![TokenV::Ident(ws.last())]);
        }
        assert forall|k: int| 0 <= k < sep_toks.len() implies flushed_b_toks[k] == sep_toks[k] by {
            if k >= 1 {
                if k - 1 < ws.len() - 1 {
                    assert(idents_of(ws.drop_last())[k - 1] == TokenV::Ident(ws.drop_last()[k - 1]));
                    assert(ws.drop_last()[k - 1] == ws[k - 1]);
                    assert(idents_of(ws)[k - 1] == TokenV::Ident(ws[k - 1]));
                } else {
                    assert(ws.last() == ws[k - 1]);
                    assert(idents_of(ws)[k - 1] == TokenV::Ident(ws[k - 1]));
                }
            }
        }
    }
    let st_after = if rest[0] == ' ' {
        flushed(st_a, false, al_)
    } else {
        let f = flushed(st_a, false, al_);
        LexState { toks: f.toks.push(TokenV::RParen), ..f }
    };
    let st_after_b = if rest[0] == ' ' {
        flushed(st_b, false, al_)
    } else {
        let f = flushed(st_b, false, al_);
        LexState { toks: f.toks.push(TokenV::RParen), ..f }
    };
    assert(flushed(st_a, false, al_).toks =~= sep_toks);
    assert(flushed(st_b, false, al_).toks =~= sep_toks);
    assert(st_after == st_after_b);
    assert(lex_from(t1, p1, st_a, al_) == lex_from(t1, p1 + 1, st_after, al_));
    assert(lex_from(t2, p2, st_b, al_) == lex_from(t2, p2 + 1, st_after_b, al_));
    // past the head both lines are the same text
    assert(t1.skip(p1 + 1) =~= rest.skip(1)) by {
        assert forall|k: int| 0 <= k < rest.len() - 1 implies t1.skip(p1 + 1)[k] == rest.skip(
            1,
        )[k] by {
            assert(t1.skip(p1 + 1)[k] == t1[p1 + 1 + k]);
            assert(t1[p1 + 1 + k] == rest[1 + k]);
            assert(rest.skip(1)[k] == rest[1 + k]);
        }
    }
    assert(t2.skip(p2 + 1) =~= rest.skip(1)) by {
        assert forall|k: int| 0 <= k < rest.len() - 1 implies t2.skip(p2 + 1)[k] == rest.skip(
            1,
        )[k] by {
            assert(t2.skip(p2 + 1)[k] == t2[p2 + 1 + k]);
            assert(t2[p2 + 1 + k] == rest[1 + k]);
            assert(rest.skip(1)[k] == rest[1 + k]);
        }
    }
    crate::lexer::lemma_lex_suffix(t1, p1 + 1, t2, p2 + 1, st_after, al_);
}

/// True of a value that prints without quoting or wrapping: atoms are
/// non-empty runs of plain characters, and lists are short enough for the
/// one-line form.
pub open spec fn unambig(v: Sx) -> bool
    decreases v,
{
    match v {
        Sx::Atom(s) => unambiguous_atom(s),
        Sx::Call(es) => unambig_seq(es),
        Sx::List(es) => Sx::lens_sum(es) <= crate::print::WRAP_LIMIT && unambig_seq(es),
    }
}

/// True when every element is unambiguous.
pub open spec fn unambig_seq(es: Seq<Sx>) -> bool
    decreases es,
{
    es.len() == 0 || (unambig(es[0]) && unambig_seq(es.skip(1)))
}

/// The tokens a value reads back as: one word for an atom, a parenthesized
/// run for a call or list.
pub open spec fn tokens_of(v: Sx) -> Seq<TokenV>
    decreases v, 1int,
{
    match v {
        Sx::Atom(s) => seq![TokenV::Ident(s)],
        Sx::Call(es) => seq![TokenV::LParen] + tokens_elems(es) + seq![TokenV::RParen],
        Sx::List(es) => seq![TokenV::LParen] + tokens_elems(es) + seq![TokenV::RParen],
    }
}

/// The elements' tokens, in order.
pub open spec fn tokens_elems(es: Seq<Sx>) -> Seq<TokenV>
    decreases es, 2int,
{
    if es.len() == 0 {
        Seq::empty()
    } else {
        tokens_of(es[0]) + tokens_elems(es.skip(1))
    }
}

/// What parsing gives back for a printed value: every evaluated list
/// returns as the syntactic call form, since printing loses the quote.
pub open spec fn call_form(v: Sx) -> Sx
    decreases v, 1int,
{
    match v {
        Sx::Atom(s) => Sx::Atom(s),
        Sx::Call(es) => Sx::Call(call_forms(es)),
        Sx::List(es) => Sx::Call(call_forms(es)),
    }
}

/// The elements' parsed forms, in order.
pub open spec fn call_forms(es: Seq<Sx>) -> Seq<Sx>
    decreases es, 2int,
{
    if es.len() == 0 {
        Seq::empty()
    } else {
        seq![call_form(es[0])] + call_forms(es.skip(1))
    }
}

/// An unambiguous atom prints as its own text.
pub proof fn lemma_print_atom_plain(s: Seq<char>)
    requires
        unambiguous_atom(s),
    ensures
        print_sx(Sx::Atom(s)) == s,
{
    if needs_quotes(s) {
        let j = choose|j: int| 0 <= j < s.len() && s[j] == ' ';
        assert(plain_char(s[j]));
        assert(spec_is_space(' '));
    }
}

/// Printing elements from the front: the first element, the separator, the
/// rest.
pub proof fn lemma_print_elems_front(es: Seq<Sx>, sep: Seq<char>)
    requires
        es.len() >= 2,
    ensures
        crate::print::print_elems(es, sep) == print_sx(es[0]) + sep + crate::print::print_elems(
            es.skip(1),
            sep,
        ),
    decreases es.len(),
{
    let tail = es.skip(1);
    if es.len() == 2 {
        assert(es.drop_last() =~= seq![es[0]]);
        assert(crate::print::print_elems(es.drop_last(), sep) == print_sx(es[0]));
        assert(tail.len() == 1);
        assert(crate::print::print_elems(tail, sep) == print_sx(tail[0]));
        assert(tail[0] == es.last());
    } else {
        lemma_print_elems_front(es.drop_last(), sep);
        assert(es.drop_last()[0] == es[0]);
        assert(es.drop_last().skip(1) =~= tail.drop_last());
        assert(tail.len() >= 2);
        assert(crate::print::print_elems(tail, sep) == crate::print::print_elems(
            tail.drop_last(),
            sep,
        ) + sep + print_sx(tail.last()));
        assert(tail.last() == es.last());
        assert(((print_sx(es[0]) + sep + crate::print::print_elems(tail.drop_last(), sep)) + sep
            + print_sx(es.last())) =~= (print_sx(es[0]) + sep + (crate::print::print_elems(
            tail.drop_last(),
            sep,
        ) + sep + print_sx(es.last()))));
    }
}

/// Scanning a printed value appends exactly its tokens: the whole value is
/// consumed and the word in progress stays empty.
pub proof fn lemma_lex_value(text: Seq<char>, i: int, v: Sx, st: LexState)
    requires
        unambig(v),
        v matches Sx::Call(_) || v matches Sx::List(_),
        !st.in_comment,
        !st.in_quote,
        st.stack.len() == 0,
        0 <= i,
        i + print_sx(v).len() <= text.len(),
        text.subrange(i, i + print_sx(v).len() as int) == print_sx(v),
    ensures
        lex_from(text, i, st, Seq::empty()) == lex_from(
            text,
            i + print_sx(v).len() as int,
            LexState {
                toks: st.toks + tokens_of(v),
                stack: Seq::empty(),
                in_comment: false,
                in_quote: false,
                last_paren: false,
            },
            Seq::empty(),
        ),
    decreases v, 1int,
{
    let al = Seq::<(Vec<char>, Vec<Vec<char>>)>::empty();
    let es = match v {
        Sx::Call(es) => es,
        Sx::List(es) => es,
        Sx::Atom(_) => Seq::empty(),
    };
    let pe = crate::print::print_elems(es, seq![' ']);
    assert(print_sx(v) == seq!['('] + pe + seq![')']);
    let pv_len = print_sx(v).len() as int;
    assert(pv_len == pe.len() + 2);
    // the opening parenthesis
    assert(text[i] == '(') by {
        assert(text.subrange(i, i + pv_len)[0] == text[i]);
        assert(print_sx(v)[0] == '(');
    }
    assert(flush_toks(st.stack, false, st.last_paren, al) =~= Seq::<TokenV>::empty());
    let st1 = LexState {
        toks: st.toks + Seq::<TokenV>::empty() + Seq::<TokenV>::empty(),
        stack: Seq::empty(),
        in_comment: false,
        in_quote: false,
        last_paren: true,
    };
    let f = flushed(st, true, al);
    let st1b = LexState { toks: f.toks.push(TokenV::LParen), ..f };
    assert(st1b.toks =~= st.toks.push(TokenV::LParen));
    assert(lex_from(text, i, st, al) == lex_from(text, i + 1, st1b, al));
    // the elements and the closer
    assert(text.subrange(i + 1, i + 1 + pe.len() + 1) =~= pe + seq![')']) by {
        assert forall|k: int| 0 <= k < pe.len() + 1 implies text.subrange(
            i + 1,
            i + 1 + pe.len() + 1,
        )[k] == (pe + seq![')'])[k] by {
            assert(text.subrange(i + 1, i + 1 + pe.len() + 1)[k] == text[i + 1 + k]);
            assert(text.subrange(i, i + pv_len)[1 + k] == text[i + 1 + k]);
            assert(print_sx(v)[1 + k] == (pe + seq![')'])[k]);
        }
    }
    assert(unambig_seq(es));
    lemma_lex_elems(text, i + 1, es, st1b);
    // the tokens line up
    assert(st1b.toks + tokens_elems(es) + seq![TokenV::RParen] =~= st.toks + tokens_of(v));
}

/// Scanning printed elements followed by a closing parenthesis appends the
/// elements' tokens and the closer.
pub proof fn lemma_lex_elems(text: Seq<char>, i: int, es: Seq<Sx>, st: LexState)
    requires
        unambig_seq(es),
        !st.in_comment,
        !st.in_quote,
        st.stack.len() == 0,
        0 <= i,
        i + crate::print::print_elems(es, seq![' ']).len() + 1 <= text.len(),
        text.subrange(i, i + crate::print::print_elems(es, seq![' ']).len() + 1)
            == crate::print::print_elems(es, seq![' ']) + seq![')'],
    ensures
        lex_from(text, i, st, Seq::empty()) == lex_from(
            text,
            i + crate::print::print_elems(es, seq![' ']).len() + 1,
            LexState {
                toks: st.toks + tokens_elems(es) + seq![TokenV::RParen],
                stack: Seq::empty(),
                in_comment: false,
                in_quote: false,
                last_paren: false,
            },
            Seq::empty(),
        ),
    decreases es, 2int,
{
    let al = Seq::<(Vec<char>, Vec<Vec<char>>)>::empty();
    let pe = crate::print::print_elems(es, seq![' ']);
    if es.len() == 0 {
        assert(pe =~= Seq::<char>::empty());
        assert(text[i] == ')') by {
            assert(text.subrange(i, i + 1)[0] == text[i]);
            assert((pe + seq![')'])[0] == ')');
        }
        let f = flushed(st, false, al);
        assert(flush_toks(st.stack, false, st.last_paren, al) =~= Seq::<TokenV>::empty());
        let st2 = LexState { toks: f.toks.push(TokenV::RParen), ..f };
        assert(lex_from(text, i, st, al) == lex_from(text, i + 1, st2, al));
        assert(st2.toks =~= st.toks + tokens_elems(es) + seq![TokenV::RParen]);
        assert(st2 == LexState {
            toks: st.toks + tokens_elems(es) + seq![TokenV::RParen],
            stack: Seq::empty(),
            in_comment: false,
            in_quote: false,
            last_paren: false,
        });
    } else {
        let e0 = es[0];
        assert(unambig(e0) && unambig_seq(es.skip(1)));
        let p0 = print_sx(e0);
        let rest_pe = crate::print::print_elems(es.skip(1), seq![' ']);
        // split the text at the end of the first element
        let sep: Seq<char> = if es.len() == 1 {
            Seq::empty()
        } else {
            seq![' ']
        };
        assert(pe == p0 + sep + rest_pe || (es.len() == 1 && pe == p0)) by {
            if es.len() == 1 {
                assert(pe == print_sx(es[0]));
            } else {
                lemma_print_elems_front(es, seq![' ']);
            }
        }
        // the first element ends at a space or at the closer
        let p0l = p0.len() as int;
        let after0 = i + p0l;
        assert forall|k: int| 0 <= k < p0l implies text[i + k] == p0[k] by {
            assert(text.subrange(i, i + pe.len() + 1)[k] == text[i + k]);
            if es.len() == 1 {
                assert((pe + seq![')'])[k] == p0[k]);
            } else {
                assert((pe + seq![')'])[k] == (p0 + sep + rest_pe)[k]);
            }
        }
        assert(text[after0] == (if es.len() == 1 {
            ')'
        } else {
            ' '
        })) by {
            assert(text.subrange(i, i + pe.len() + 1)[p0l] == text[after0]);
            if es.len() == 1 {
                assert((pe + seq![')'])[p0l] == ')');
            } else {
                assert((pe + seq![')'])[p0l] == (p0 + sep + rest_pe)[p0l]);
            }
        }
        // scan the first element
        let st_mid: LexState = match e0 {
            Sx::Atom(s) => {
                lemma_print_atom_plain(s);
                assert(p0 == s);
                assert forall|k: int| i <= k < after0 implies plain_char(#[trigger] text[k]) by {
                    assert(text[i + (k - i)] == p0[k - i]);
                    assert(unambiguous_atom(s));
                }
                lemma_lex_plain_run(text, i, after0, st, al);
                assert(st.stack + text.subrange(i, after0) =~= s) by {
                    assert forall|k: int| 0 <= k < p0l implies text.subrange(i, after0)[k]
                        == s[k] by {
                        assert(text.subrange(i, after0)[k] == text[i + k]);
                    }
                }
                LexState { stack: s, ..st }
            },
            _ => {
                assert(text.subrange(i, after0) =~= p0) by {
                    assert forall|k: int| 0 <= k < p0l implies text.subrange(i, after0)[k]
                        == p0[k] by {
                        assert(text.subrange(i, after0)[k] == text[i + k]);
                    }
                }
                lemma_lex_value(text, i, e0, st);
                LexState {
                    toks: st.toks + tokens_of(e0),
                    stack: Seq::empty(),
                    in_comment: false,
                    in_quote: false,
                    last_paren: false,
                }
            },
        };
        assert(lex_from(text, i, st, al) == lex_from(text, after0, st_mid, al));
        // the terminator finalizes the element's word
        let flushed_toks: Seq<TokenV> = match e0 {
            Sx::Atom(s) => st.toks + seq![TokenV::Ident(s)],
            _ => st.toks + tokens_of(e0),
        };
        assert(st_mid.toks + flush_toks(st_mid.stack, false, st_mid.last_paren, al)
            =~= flushed_toks) by {
            match e0 {
                Sx::Atom(s) => {
                    assert(s.len() > 0);
                    assert(flush_toks(s, false, st_mid.last_paren, al) =~= seq![
                        TokenV::Ident(s),
                    ]);
                },
                _ => {
                    assert(flush_toks(Seq::<char>::empty(), false, false, al)
                        =~= Seq::<TokenV>::empty());
                    assert(st_mid.toks + Seq::<TokenV>::empty() =~= st_mid.toks);
                },
            }
        }
        assert(flushed_toks =~= st.toks + tokens_of(e0)) by {
            match e0 {
                Sx::Atom(s) => {
                    assert(tokens_of(e0) == seq![TokenV::Ident(s)]);
                },
                _ => {},
            }
        }
        if es.len() == 1 {
            // the closer ends the run
            let f = flushed(st_mid, false, al);
            let st_end = LexState { toks: f.toks.push(TokenV::RParen), ..f };
            assert(lex_from(text, after0, st_mid, al) == lex_from(text, after0 + 1, st_end, al));
            assert(after0 + 1 == i + pe.len() + 1);
            assert(tokens_elems(es) =~= tokens_of(e0) + tokens_elems(es.skip(1)));
            assert(tokens_elems(es.skip(1)) =~= Seq::<TokenV>::empty());
            assert(st_end.toks =~= st.toks + tokens_elems(es) + seq![TokenV::RParen]);
            assert(st_end == LexState {
                toks: st.toks + tokens_elems(es) + seq![TokenV::RParen],
                stack: Seq::empty(),
                in_comment: false,
                in_quote: false,
                last_paren: false,
            });
        } else {
            // the space separates it from the rest
            let f = flushed(st_mid, false, al);
            assert(lex_from(text, after0, st_mid, al) == lex_from(text, after0 + 1, f, al));
            assert(f == LexState {
                toks: st.toks + tokens_of(e0),
                stack: Seq::empty(),
                in_comment: false,
                in_quote: false,
                last_paren: false,
            });
            assert(text.subrange(after0 + 1, after0 + 1 + rest_pe.len() + 1) =~= rest_pe + seq![
                ')',
            ]) by {
                assert forall|k: int| 0 <= k < rest_pe.len() + 1 implies text.subrange(
                    after0 + 1,
                    after0 + 1 + rest_pe.len() + 1,
                )[k] == (rest_pe + seq![')'])[k] by {
                    assert(text.subrange(after0 + 1, after0 + 1 + rest_pe.len() + 1)[k] == text[
                        after0 + 1 + k]);
                    assert(text.subrange(i, i + pe.len() + 1)[p0l + 1 + k] == text[after0 + 1 + k]);
                    assert((pe + seq![')'])[p0l + 1 + k] == (rest_pe + seq![')'])[k]);
                }
            }
            lemma_lex_elems(text, after0 + 1, es.skip(1), f);
            assert(after0 + 1 + rest_pe.len() + 1 == i + pe.len() + 1);
            assert(f.toks + tokens_elems(es.skip(1)) + seq![TokenV::RParen] =~= st.toks
                + tokens_elems(es) + seq![TokenV::RParen]) by {
                assert(tokens_elems(es) == tokens_of(e0) + tokens_elems(es.skip(1)));
            }
        }
    }
}

/// A value's tokens parse back as its call form, everything consumed.
pub proof fn lemma_parse_value(toks: Seq<TokenV>, i: int, v: Sx)
    requires
        0 <= i,
        i + tokens_of(v).len() <= toks.len(),
        toks.subrange(i, i + tokens_of(v).len() as int) == tokens_of(v),
    ensures
        spec_parse_form(toks, i) == FormOut::Val(call_form(v), i + tokens_of(v).len() as int),
    decreases v, 1int,
{
    match v {
        Sx::Atom(s) => {
            assert(toks[i] == TokenV::Ident(s)) by {
                assert(toks.subrange(i, i + 1)[0] == toks[i]);
                assert(tokens_of(v)[0] == TokenV::Ident(s));
            }
        },
        Sx::Call(es) => {
            lemma_parse_value_compound(toks, i, v, es);
        },
        Sx::List(es) => {
            lemma_parse_value_compound(toks, i, v, es);
        },
    }
}

/// The parenthesized case of `lemma_parse_value`.
proof fn lemma_parse_value_compound(toks: Seq<TokenV>, i: int, v: Sx, es: Seq<Sx>)
    requires
        0 <= i,
        v == Sx::Call(es) || v == Sx::List(es),
        i + tokens_of(v).len() <= toks.len(),
        toks.subrange(i, i + tokens_of(v).len() as int) == tokens_of(v),
    ensures
        spec_parse_form(toks, i) == FormOut::Val(call_form(v), i + tokens_of(v).len() as int),
    decreases v, 0int,
{
    let tv = tokens_of(v);
    let te = tokens_elems(es);
    assert(tv == seq![TokenV::LParen] + te + seq![TokenV::RParen]);
    assert(toks[i] == TokenV::LParen) by {
        assert(toks.subrange(i, i + tv.len() as int)[0] == toks[i]);
        assert(tv[0] == TokenV::LParen);
    }
    assert(toks.subrange(i + 1, i + 1 + te.len() + 1) =~= te + seq![TokenV::RParen]) by {
        assert forall|k: int| 0 <= k < te.len() + 1 implies toks.subrange(
            i + 1,
            i + 1 + te.len() + 1,
        )[k] == (te + seq![TokenV::RParen])[k] by {
            assert(toks.subrange(i + 1, i + 1 + te.len() + 1)[k] == toks[i + 1 + k]);
            assert(toks.subrange(i, i + tv.len() as int)[1 + k] == toks[i + 1 + k]);
            assert(tv[1 + k] == (te + seq![TokenV::RParen])[k]);
        }
    }
    lemma_parse_elems_trees(toks, i + 1, es);
}

/// An element run's tokens, closed by the parenthesis, parse back as the
/// elements' call forms.
pub proof fn lemma_parse_elems_trees(toks: Seq<TokenV>, i: int, es: Seq<Sx>)
    requires
        0 <= i,
        i + tokens_elems(es).len() + 1 <= toks.len(),
        toks.subrange(i, i + tokens_elems(es).len() + 1) == tokens_elems(es) + seq![
            TokenV::RParen,
        ],
    ensures
        spec_parse_elems(toks, i) == ElemsOut::Val(
            call_forms(es),
            i + tokens_elems(es).len() + 1,
        ),
    decreases es, 2int,
{
    let te = tokens_elems(es);
    if es.len() == 0 {
        assert(toks[i] == TokenV::RParen) by {
            assert(toks.subrange(i, i + 1)[0] == toks[i]);
            assert((te + seq![TokenV::RParen])[0] == TokenV::RParen);
        }
        assert(call_forms(es) =~= Seq::<Sx>::empty());
    } else {
        let e0 = es[0];
        let t0 = tokens_of(e0);
        let rest_te = tokens_elems(es.skip(1));
        assert(te == t0 + rest_te);
        assert(t0.len() >= 1) by {
            match e0 {
                Sx::Atom(_) => {},
                Sx::Call(_) => {},
                Sx::List(_) => {},
            }
        }
        assert forall|k: int| 0 <= k < te.len() + 1 implies toks[i + k] == (te + seq![
            TokenV::RParen,
        ])[k] by {
            assert(toks.subrange(i, i + te.len() + 1)[k] == toks[i + k]);
        }
        // the run opens with a word or a parenthesis, never the closer
        assert(toks[i] == t0[0]);
        assert(t0[0] != TokenV::RParen && t0[0] != TokenV::EOF) by {
            match e0 {
                Sx::Atom(s) => {
                    assert(t0[0] == TokenV::Ident(s));
                },
                Sx::Call(inner) => {
                    assert(t0[0] == (seq![TokenV::LParen] + tokens_elems(inner) + seq![
                        TokenV::RParen,
                    ])[0]);
                },
                Sx::List(inner) => {
                    assert(t0[0] == (seq![TokenV::LParen] + tokens_elems(inner) + seq![
                        TokenV::RParen,
                    ])[0]);
                },
            }
        }
        assert(toks.subrange(i, i + t0.len() as int) =~= t0) by {
            assert forall|k: int| 0 <= k < t0.len() implies toks.subrange(
                i,
                i + t0.len() as int,
            )[k] == t0[k] by {
                assert(toks.subrange(i, i + t0.len() as int)[k] == toks[i + k]);
                assert((te + seq![TokenV::RParen])[k] == t0[k]);
            }
        }
        lemma_parse_value(toks, i, e0);
        let j = i + t0.len() as int;
        assert(toks.subrange(j, j + rest_te.len() + 1) =~= rest_te + seq![TokenV::RParen]) by {
            assert forall|k: int| 0 <= k < rest_te.len() + 1 implies toks.subrange(
                j,
                j + rest_te.len() + 1,
            )[k] == (rest_te + seq![TokenV::RParen])[k] by {
                assert(toks.subrange(j, j + rest_te.len() + 1)[k] == toks[j + k]);
                assert(toks[i + (t0.len() + k)] == (te + seq![TokenV::RParen])[t0.len() + k]);
            }
        }
        lemma_parse_elems_trees(toks, j, es.skip(1));
        assert(seq![call_form(e0)] + call_forms(es.skip(1)) =~= call_forms(es));
    }
}

/// Round-trip: printing any unambiguous evaluated value and parsing the
/// text back (under an empty alias table) recovers its whole structure,
/// every list returning as the syntactic call form, since printing loses
/// the quote that made it data. Re-evaluating the parsed line would
/// therefore treat list heads as commands: the quoting ambiguity on which
/// the full round trip stops.
pub proof fn lemma_print_parse_value(v: Sx)
    requires
        unambig(v),
        v matches Sx::Call(_) || v matches Sx::List(_),
    ensures
        spec_parse_text(print_sx(v), Seq::empty()) == Option::Some(call_form(v)),
{
    let al = Seq::<(Vec<char>, Vec<Vec<char>>)>::empty();
    let text = print_sx(v);
    assert(text.subrange(0, text.len() as int) =~= text);
    lemma_lex_value(text, 0, v, lex_init());
    let st_f = LexState {
        toks: lex_init().toks + tokens_of(v),
        stack: Seq::empty(),
        in_comment: false,
        in_quote: false,
        last_paren: false,
    };
    assert(flush_toks(st_f.stack, false, false, al) =~= Seq::<TokenV>::empty());
    let bare = flushed(st_f, st_f.last_paren, al).toks;
    assert(bare =~= tokens_of(v));
    assert(lex_from(text, 0, lex_init(), al) == Option::Some(bare));
    // the printed value stands in parentheses already: no wrap is added
    let es = match v {
        Sx::Call(es) => es,
        Sx::List(es) => es,
        Sx::Atom(_) => Seq::empty(),
    };
    let te = tokens_elems(es);
    assert(tokens_of(v) == seq![TokenV::LParen] + te + seq![TokenV::RParen]);
    assert(bare[0] == TokenV::LParen);
    assert(bare.last() == TokenV::RParen) by {
        assert(bare[bare.len() as int - 1] == (seq![TokenV::LParen] + te + seq![
            TokenV::RParen,
        ])[te.len() as int + 1]);
    }
    let toks = finish_toks(bare);
    assert(toks =~= bare.push(TokenV::EOF));
    assert(lex_spec(text, al) == Option::Some(toks));
    // parsing recovers the structure
    assert(toks.subrange(0, tokens_of(v).len() as int) =~= tokens_of(v)) by {
        assert forall|k: int| 0 <= k < tokens_of(v).len() implies toks.subrange(
            0,
            tokens_of(v).len() as int,
        )[k] == tokens_of(v)[k] by {
            assert(toks.subrange(0, tokens_of(v).len() as int)[k] == toks[k]);
            assert(toks[k] == bare.push(TokenV::EOF)[k]);
        }
    }
    lemma_parse_value(toks, 0, v);
    assert(toks[0] == TokenV::LParen);
    assert(spec_parse_line(toks) == FormOut::Val(call_form(v), tokens_of(v).len() as int));
}

} // verus!
