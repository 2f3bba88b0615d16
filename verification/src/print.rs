//! The printed form of a value: an atom prints as its text, double-quoted
//! when it holds a space and as an empty quoted string when empty; a call or
//! list prints parenthesized and space-separated, a long list in a wrapped,
//! indented form.
use vstd::prelude::*;
use crate::{Sx, SExpression, views_of, lemma_views_of, lemma_no_call_seq, lemma_lens_sum_prefix,
    lemma_lens_sum_step};

verus! {

/// The character count beyond which a list prints in wrapped form.
pub const WRAP_LIMIT: usize = 100;

/// True when the atom's text needs double quotes: it holds a space or is
/// empty.
pub open spec fn needs_quotes(s: Seq<char>) -> bool {
    s.len() == 0 || exists|j: int| 0 <= j < s.len() && s[j] == ' '
}

/// The printed form of an atom.
pub open spec fn print_atom(s: Seq<char>) -> Seq<char> {
    if needs_quotes(s) {
        seq!['"'] + s + seq!['"']
    } else {
        s
    }
}

/// The printed form of a value.
pub open spec fn print_sx(v: Sx) -> Seq<char>
    decreases v, 1int,
{
    match v {
        Sx::Atom(s) => print_atom(s),
        Sx::Call(es) => seq!['('] + print_elems(es, seq![' ']) + seq![')'],
        Sx::List(es) => {
            if Sx::lens_sum(es) > WRAP_LIMIT {
                seq!['('] + seq!['\n', '\t'] + print_elems(es, seq!['\n', '\t']) + seq!['\n']
                    + seq![')']
            } else {
                seq!['('] + print_elems(es, seq![' ']) + seq![')']
            }
        },
    }
}

/// The printed elements joined by a separator.
pub open spec fn print_elems(es: Seq<Sx>, sep: Seq<char>) -> Seq<char>
    decreases es, 0int,
{
    if es.len() == 0 {
        Seq::empty()
    } else if es.len() == 1 {
        print_sx(es[0])
    } else {
        print_elems(es.drop_last(), sep) + sep + print_sx(es.last())
    }
}

/// True of values the printer accepts: lists hold no pending calls and
/// their character count stays within the machine's bounds.
pub open spec fn printable(v: Sx) -> bool
    decreases v,
{
    match v {
        Sx::Atom(_) => true,
        Sx::Call(es) => printable_seq(es),
        Sx::List(es) => v.no_call() && v.len_of() <= usize::MAX && printable_seq(es),
    }
}

/// True when every element is printable.
pub open spec fn printable_seq(es: Seq<Sx>) -> bool
    decreases es,
{
    es.len() == 0 || (printable_seq(es.drop_last()) && printable(es.last()))
}

/// `printable_seq` holds exactly when it holds of every element.
pub proof fn lemma_printable_seq(es: Seq<Sx>)
    ensures
        printable_seq(es) <==> (forall|i: int| 0 <= i < es.len() ==> printable(#[trigger] es[i])),
    decreases es,
{
    if es.len() > 0 {
        lemma_printable_seq(es.drop_last());
        if printable_seq(es) {
            assert forall|i: int| 0 <= i < es.len() implies printable(#[trigger] es[i]) by {
                if i < es.len() - 1 {
                    assert(es.drop_last()[i] == es[i]);
                } else {
                    assert(es.last() == es[i]);
                }
            }
        }
        if forall|i: int| 0 <= i < es.len() ==> printable(#[trigger] es[i]) {
            assert forall|i: int|
                0 <= i < es.drop_last().len() implies printable(
                #[trigger] es.drop_last()[i],
            ) by {
                assert(es.drop_last()[i] == es[i]);
            }
            assert(es.last() == es[es.len() - 1]);
        }
    }
}

/// Step lemma: printing one more element appends a separator and its form.
pub proof fn lemma_print_elems_step(es: Seq<Sx>, sep: Seq<char>, i: int)
    requires
        1 <= i < es.len(),
    ensures
        print_elems(es.take(i + 1), sep) == print_elems(es.take(i), sep) + sep + print_sx(es[i]),
{
    assert(es.take(i + 1).drop_last() =~= es.take(i));
    assert(es.take(i + 1).last() == es[i]);
}

/// True when the text holds a space character.
#[verifier::loop_isolation(false)]
fn contains_space(s: &Vec<char>) -> (r: bool)
    ensures
        r == (exists|j: int| 0 <= j < s@.len() && s@[j] == ' '),
{
    let n = s.len();
    let mut i: usize = 0;
    while i < n
        invariant
            i <= n,
            forall|j: int| 0 <= j < i ==> s@[j] != ' ',
        decreases n - i,
    {
        if s[i] == ' ' {
            return true;
        }
        i += 1;
    }
    false
}

impl SExpression {
    /// The printed form of this value.
    #[verifier::loop_isolation(false)]
    pub fn to_text(&self) -> (r: Vec<char>)
        requires
            printable(self@),
        ensures
            r@ == print_sx(self@),
        decreases self,
    {
        match self {
            SExpression::Atom(s) => {
                if s.len() == 0 || contains_space(s) {
                    let mut out: Vec<char> = Vec::new();
                    out.push('"');
                    let mut mid = crate::clone_chars(s);
                    out.append(&mut mid);
                    out.push('"');
                    proof {
                        assert(out@ =~= seq!['"'] + s@ + seq!['"']);
                    }
                    out
                } else {
                    crate::clone_chars(s)
                }
            },
            SExpression::Call(es) => {
                proof {
                    lemma_views_of(es@);
                    lemma_printable_seq(views_of(es@));
                }
                let mut out: Vec<char> = Vec::new();
                out.push('(');
                let sep_sp: Vec<char> = sep_space();
                let mut body = print_children(es, &sep_sp, self);
                out.append(&mut body);
                out.push(')');
                proof {
                    assert(out@ =~= seq!['('] + print_elems(views_of(es@), seq![' ']) + seq![
                        ')',
                    ]);
                }
                out
            },
            SExpression::List(es) => {
                proof {
                    lemma_views_of(es@);
                    lemma_printable_seq(views_of(es@));
                    lemma_no_call_seq(views_of(es@));
                }
                let total = self.len();
                let mut out: Vec<char> = Vec::new();
                out.push('(');
                if total > WRAP_LIMIT {
                    out.push('\n');
                    out.push('\t');
                    let sep_nl: Vec<char> = sep_newline();
                    let mut body = print_children(es, &sep_nl, self);
                    out.append(&mut body);
                    out.push('\n');
                    out.push(')');
                    proof {
                        assert(out@ =~= seq!['('] + seq!['\n', '\t'] + print_elems(
                            views_of(es@),
                            seq!['\n', '\t'],
                        ) + seq!['\n'] + seq![')']);
                    }
                    out
                } else {
                    let sep_sp: Vec<char> = sep_space();
                    let mut body = print_children(es, &sep_sp, self);
                    out.append(&mut body);
                    out.push(')');
                    proof {
                        assert(out@ =~= seq!['('] + print_elems(views_of(es@), seq![' ']) + seq![
                            ')',
                        ]);
                    }
                    out
                }
            },
        }
    }
}

/// A single-space separator.
fn sep_space() -> (r: Vec<char>)
    ensures
        r@ == seq![' '],
{
    let mut v: Vec<char> = Vec::new();
    v.push(' ');
    proof {
        assert(v@ =~= seq![' ']);
    }
    v
}

/// The wrapped-form separator: a newline and an indent.
fn sep_newline() -> (r: Vec<char>)
    ensures
        r@ == seq!['\n', '\t'],
{
    let mut v: Vec<char> = Vec::new();
    v.push('\n');
    v.push('\t');
    proof {
        assert(v@ =~= seq!['\n', '\t']);
    }
    v
}

/// Prints the elements joined by the separator. The parent node is passed
/// along only to tie the recursion's measure to the tree.
#[verifier::loop_isolation(false)]
fn print_children(es: &Vec<SExpression>, sep: &Vec<char>, parent: &SExpression) -> (r: Vec<char>)
    requires
        *parent == SExpression::Call(*es) || *parent == SExpression::List(*es),
        forall|i: int| 0 <= i < views_of(es@).len() ==> printable(#[trigger] views_of(es@)[i]),
    ensures
        r@ == print_elems(views_of(es@), sep@),
    decreases parent, 0int,
{
    proof {
        lemma_views_of(es@);
    }
    let ghost all = views_of(es@);
    let mut out: Vec<char> = Vec::new();
    let n = es.len();
    if n == 0 {
        proof {
            assert(out@ =~= print_elems(all, sep@));
        }
        return out;
    }
    let mut i: usize = 0;
    while i < n
        invariant
            i <= n,
            i > 0 ==> out@ == print_elems(all.take(i as int), sep@),
            i == 0 ==> out@ == Seq::<char>::empty(),
        decreases n - i,
    {
        proof {
            if *parent == SExpression::Call(*es) {
                assert(parent->Call_0 == *es);
                assert(decreases_to!(*parent => parent->Call_0));
            } else {
                assert(parent->List_0 == *es);
                assert(decreases_to!(*parent => parent->List_0));
            }
            assert(decreases_to!(*es => es@));
            assert(decreases_to!(es@ => es@[i as int]));
            assert(decreases_to!(*parent => es@[i as int]));
            assert(es@[i as int]@ == all[i as int]);
        }
        if i > 0 {
            let mut s2 = crate::clone_chars(sep);
            out.append(&mut s2);
        }
        let mut part = es[i].to_text();
        out.append(&mut part);
        proof {
            if i == 0 {
                assert(all.take(1) =~= seq![all[0]]);
                if all.take(1).len() == 1 {
                    assert(print_elems(all.take(1), sep@) == print_sx(all.take(1)[0]));
                }
                assert(out@ =~= print_elems(all.take(1), sep@));
            } else {
                lemma_print_elems_step(all, sep@, i as int);
            }
        }
        i += 1;
    }
    proof {
        assert(all.take(n as int) =~= all);
    }
    out
}

impl SExpression {
    /// Decides `printable`: whether `to_text` accepts this value.
    #[verifier::loop_isolation(false)]
    pub fn is_printable(&self) -> (r: bool)
        ensures
            r == printable(self@),
        decreases self, 1int,
    {
        match self {
            SExpression::Atom(_) => true,
            SExpression::Call(es) => children_printable(es, self),
            SExpression::List(es) => {
                proof {
                    lemma_views_of(es@);
                }
                if !crate::has_no_call(self) {
                    return false;
                }
                let ghost all = views_of(es@);
                proof {
                    crate::lemma_no_call_seq(all);
                }
                // the character count must fit the machine word
                let n = es.len();
                let mut total: usize = 0;
                let mut i: usize = 0;
                while i < n
                    invariant
                        i <= n,
                        total == Sx::lens_sum(all.take(i as int)),
                    decreases n - i,
                {
                    proof {
                        assert(decreases_to!(*self => es@[i as int]));
                        assert(all[i as int].no_call());
                        assert(es@[i as int]@ == all[i as int]);
                        lemma_lens_sum_step(all, i as int);
                    }
                    let part = match checked_len(&es[i]) {
                        Some(k) => k,
                        None => {
                            proof {
                                lemma_lens_sum_prefix_any(all, i as int + 1);
                            }
                            return false;
                        },
                    };
                    total = match total.checked_add(part) {
                        Some(t) => t,
                        None => {
                            proof {
                                lemma_lens_sum_prefix_any(all, i as int + 1);
                            }
                            return false;
                        },
                    };
                    i += 1;
                }
                proof {
                    assert(all.take(n as int) =~= all);
                }
                children_printable(es, self)
            },
        }
    }
}

/// A prefix's sum never exceeds the whole sum.
proof fn lemma_lens_sum_prefix_any(es: Seq<Sx>, i: int)
    requires
        0 <= i <= es.len(),
    ensures
        Sx::lens_sum(es.take(i)) <= Sx::lens_sum(es),
{
    lemma_lens_sum_prefix(es, i);
}

/// The character count of a value when it fits the machine word.
#[verifier::loop_isolation(false)]
fn checked_len(e: &SExpression) -> (r: Option<usize>)
    requires
        e@.no_call(),
    ensures
        match r {
            Some(k) => k == e@.len_of(),
            None => e@.len_of() > usize::MAX,
        },
    decreases e, 1int,
{
    match e {
        SExpression::Atom(s) => Some(s.len()),
        SExpression::Call(_) => {
            proof {
                assert(false);
            }
            None
        },
        SExpression::List(es) => {
            proof {
                lemma_views_of(es@);
                crate::lemma_no_call_seq(views_of(es@));
            }
            let ghost all = views_of(es@);
            let n = es.len();
            let mut total: usize = 0;
            let mut i: usize = 0;
            while i < n
                invariant
                    i <= n,
                    total == Sx::lens_sum(all.take(i as int)),
                decreases n - i,
            {
                proof {
                    assert(decreases_to!(*e => es@[i as int]));
                    assert(all[i as int].no_call());
                    assert(es@[i as int]@ == all[i as int]);
                    lemma_lens_sum_step(all, i as int);
                }
                let part = match checked_len(&es[i]) {
                    Some(k) => k,
                    None => {
                        proof {
                            lemma_lens_sum_prefix_any(all, i as int + 1);
                        }
                        return None;
                    },
                };
                total = match total.checked_add(part) {
                    Some(t) => t,
                    None => {
                        proof {
                            lemma_lens_sum_prefix_any(all, i as int + 1);
                        }
                        return None;
                    },
                };
                i += 1;
            }
            proof {
                assert(all.take(n as int) =~= all);
            }
            Some(total)
        },
    }
}

/// True when every element of `es` is printable; the parent ties the
/// recursion to the tree.
#[verifier::loop_isolation(false)]
fn children_printable(es: &Vec<SExpression>, parent: &SExpression) -> (r: bool)
    requires
        *parent == SExpression::Call(*es) || *parent == SExpression::List(*es),
    ensures
        r == printable_seq(views_of(es@)),
    decreases parent, 0int,
{
    proof {
        lemma_views_of(es@);
        lemma_printable_seq(views_of(es@));
    }
    let ghost all = views_of(es@);
    let n = es.len();
    let mut i: usize = 0;
    while i < n
        invariant
            i <= n,
            forall|j: int| 0 <= j < i ==> printable(#[trigger] all[j]),
        decreases n - i,
    {
        proof {
            if *parent == SExpression::Call(*es) {
                assert(parent->Call_0 == *es);
                assert(decreases_to!(*parent => parent->Call_0));
            } else {
                assert(parent->List_0 == *es);
                assert(decreases_to!(*parent => parent->List_0));
            }
            assert(decreases_to!(*es => es@));
            assert(decreases_to!(es@ => es@[i as int]));
            assert(decreases_to!(*parent => es@[i as int]));
            assert(es@[i as int]@ == all[i as int]);
        }
        if !es[i].is_printable() {
            proof {
                assert(!printable(all[i as int]));
            }
            return false;
        }
        i += 1;
    }
    true
}

} // verus!
