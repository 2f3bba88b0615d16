//! A small Lisp-flavoured shell language: symbolic expressions, a lexer with
//! head-position alias expansion, a recursive-descent parser, a
//! substitution-based evaluator with hygienic user functions, and an
//! external-process subsystem that captures output of nested commands.
use vstd::prelude::*;

pub mod lexer;
pub mod parser;
pub mod print;
pub mod laws;
pub mod sys;
pub mod interpreter;
pub mod builtins;
pub mod complete;
pub mod completer;
pub mod text;

verus! {

/// The mathematical shape of a symbolic expression: an unevaluated call,
/// an evaluated list, or a scalar atom holding a character sequence.
pub enum Sx {
    Call(Seq<Sx>),
    List(Seq<Sx>),
    Atom(Seq<char>),
}

/// A symbolic expression, the sole value/syntax type of the language.
/// `Call` is pending syntax (head = operator), `List` is evaluated data,
/// `Atom` is a scalar used as string, number or boolean depending on context.
#[derive(Debug, PartialEq, Eq)]
pub enum SExpression {
    Call(Vec<SExpression>),
    List(Vec<SExpression>),
    Atom(Vec<char>),
}

/// Deep view of a sequence of expressions, elementwise.
pub open spec fn views_of(es: Seq<SExpression>) -> Seq<Sx>
    decreases es,
{
    if es.len() == 0 {
        Seq::empty()
    } else {
        views_of(es.drop_last()).push(es.last()@)
    }
}

impl View for SExpression {
    type V = Sx;

    open spec fn view(&self) -> Sx
        decreases self,
    {
        match self {
            SExpression::Call(es) => Sx::Call(views_of(es@)),
            SExpression::List(es) => Sx::List(views_of(es@)),
            SExpression::Atom(s) => Sx::Atom(s@),
        }
    }
}

/// `views_of` is the elementwise view.
pub proof fn lemma_views_of(es: Seq<SExpression>)
    ensures
        views_of(es).len() == es.len(),
        forall|i: int| 0 <= i < es.len() ==> views_of(es)[i] == #[trigger] es[i]@,
    decreases es,
{
    if es.len() > 0 {
        lemma_views_of(es.drop_last());
        assert(views_of(es) == views_of(es.drop_last()).push(es.last()@));
        assert forall|i: int| 0 <= i < es.len() implies views_of(es)[i] == #[trigger] es[i]@ by {
            if i < es.len() - 1 {
                assert(es.drop_last()[i] == es[i]);
            } else {
                assert(es.last() == es[i]);
            }
        }
    } else {
        assert(views_of(es) == Seq::<Sx>::empty());
    }
}


/// Two sequences of expressions with elementwise equal views have equal views.
pub proof fn lemma_views_pointwise(a: Seq<SExpression>, b: Seq<SExpression>)
    requires
        a.len() == b.len(),
        forall|i: int| 0 <= i < a.len() ==> a[i]@ == b[i]@,
    ensures
        views_of(a) == views_of(b),
{
    lemma_views_of(a);
    lemma_views_of(b);
    assert forall|i: int| 0 <= i < a.len() implies views_of(a)[i] == views_of(b)[i] by {
        assert(a[i]@ == b[i]@);
    }
    assert(views_of(a) =~= views_of(b));
}

impl Sx {
    /// True of evaluated data: no pending `Call` anywhere under this value.
    pub open spec fn no_call(self) -> bool
        decreases self,
    {
        match self {
            Sx::Call(_) => false,
            Sx::List(es) => Self::no_call_seq(es),
            Sx::Atom(_) => true,
        }
    }

    /// True if every value in the sequence is free of pending calls.
    pub open spec fn no_call_seq(es: Seq<Sx>) -> bool
        decreases es,
    {
        es.len() == 0 || (Self::no_call_seq(es.drop_last()) && es.last().no_call())
    }

    /// The flattened character content of an evaluated value: an atom's
    /// characters, or the concatenation of a list's elements' contents.
    pub open spec fn ident_of(self) -> Seq<char>
        decreases self,
    {
        match self {
            Sx::Atom(s) => s,
            Sx::List(es) => Self::idents_concat(es),
            Sx::Call(es) => Self::idents_concat(es),
        }
    }

    /// Concatenation of the flattened contents of a sequence of values.
    pub open spec fn idents_concat(es: Seq<Sx>) -> Seq<char>
        decreases es,
    {
        if es.len() == 0 {
            Seq::empty()
        } else {
            Self::idents_concat(es.drop_last()) + es.last().ident_of()
        }
    }

    /// The character count of an evaluated value (atoms' lengths, summed).
    pub open spec fn len_of(self) -> nat
        decreases self,
    {
        match self {
            Sx::Atom(s) => s.len(),
            Sx::List(es) => Self::lens_sum(es),
            Sx::Call(es) => Self::lens_sum(es),
        }
    }

    /// Sum of the character counts of a sequence of values.
    pub open spec fn lens_sum(es: Seq<Sx>) -> nat
        decreases es,
    {
        if es.len() == 0 {
            0
        } else {
            Self::lens_sum(es.drop_last()) + es.last().len_of()
        }
    }

    /// Substitution: rewrite every atom equal to `from` under pending `Call`
    /// syntax into `to`; evaluated `List` data is left untouched.
    pub open spec fn subst(self, from: Seq<char>, to: Sx) -> Sx
        decreases self,
    {
        match self {
            Sx::Atom(s) => if s == from { to } else { Sx::Atom(s) },
            Sx::Call(es) => Sx::Call(Self::subst_seq(es, from, to)),
            Sx::List(es) => Sx::List(es),
        }
    }

    /// Elementwise substitution over a sequence of values.
    pub open spec fn subst_seq(es: Seq<Sx>, from: Seq<char>, to: Sx) -> Seq<Sx>
        decreases es,
    {
        if es.len() == 0 {
            Seq::empty()
        } else {
            Self::subst_seq(es.drop_last(), from, to).push(es.last().subst(from, to))
        }
    }

    /// The flattened atoms of a value, in order: a call or list contributes
    /// its elements' leaves, an atom contributes itself.
    pub open spec fn leaves_of(self) -> Seq<Seq<char>>
        decreases self,
    {
        match self {
            Sx::Atom(s) => seq![s],
            Sx::List(es) => Self::leaves_concat(es),
            Sx::Call(es) => Self::leaves_concat(es),
        }
    }

    /// Concatenation of the leaves of a sequence of values.
    pub open spec fn leaves_concat(es: Seq<Sx>) -> Seq<Seq<char>>
        decreases es,
    {
        if es.len() == 0 {
            Seq::empty()
        } else {
            Self::leaves_concat(es.drop_last()) + es.last().leaves_of()
        }
    }
}


/// `no_call_seq` holds exactly when it holds of every element.
pub proof fn lemma_no_call_seq(es: Seq<Sx>)
    ensures
        Sx::no_call_seq(es) <==> (forall|i: int|
            0 <= i < es.len() ==> (#[trigger] es[i]).no_call()),
    decreases es,
{
    if es.len() > 0 {
        lemma_no_call_seq(es.drop_last());
        if Sx::no_call_seq(es) {
            assert forall|i: int| 0 <= i < es.len() implies (#[trigger] es[i]).no_call() by {
                if i < es.len() - 1 {
                    assert(es.drop_last()[i] == es[i]);
                } else {
                    assert(es.last() == es[i]);
                }
            }
        }
        if forall|i: int| 0 <= i < es.len() ==> (#[trigger] es[i]).no_call() {
            assert forall|i: int|
                0 <= i < es.drop_last().len() implies (#[trigger] es.drop_last()[i]).no_call() by {
                assert(es.drop_last()[i] == es[i]);
            }
            assert(es.last() == es[es.len() - 1]);
        }
    }
}

/// Step lemma: flattening one more element extends the concatenation.
pub proof fn lemma_idents_concat_step(es: Seq<Sx>, i: int)
    requires
        0 <= i < es.len(),
    ensures
        Sx::idents_concat(es.take(i + 1)) == Sx::idents_concat(es.take(i)) + es[i].ident_of(),
{
    assert(es.take(i + 1).drop_last() =~= es.take(i));
    assert(es.take(i + 1).last() == es[i]);
}

/// Step lemma: summing one more element extends the sum.
pub proof fn lemma_lens_sum_step(es: Seq<Sx>, i: int)
    requires
        0 <= i < es.len(),
    ensures
        Sx::lens_sum(es.take(i + 1)) == Sx::lens_sum(es.take(i)) + es[i].len_of(),
{
    assert(es.take(i + 1).drop_last() =~= es.take(i));
    assert(es.take(i + 1).last() == es[i]);
}

/// Step lemma: the leaves of one more element extend the concatenation.
pub proof fn lemma_leaves_concat_step(es: Seq<Sx>, i: int)
    requires
        0 <= i < es.len(),
    ensures
        Sx::leaves_concat(es.take(i + 1)) == Sx::leaves_concat(es.take(i)) + es[i].leaves_of(),
{
    assert(es.take(i + 1).drop_last() =~= es.take(i));
    assert(es.take(i + 1).last() == es[i]);
}

/// `subst_seq` is the elementwise substitution.
pub proof fn lemma_subst_seq(es: Seq<Sx>, from: Seq<char>, to: Sx)
    ensures
        Sx::subst_seq(es, from, to).len() == es.len(),
        forall|i: int| 0 <= i < es.len() ==> Sx::subst_seq(es, from, to)[i] == (
        #[trigger] es[i]).subst(from, to),
    decreases es,
{
    if es.len() > 0 {
        lemma_subst_seq(es.drop_last(), from, to);
        assert forall|i: int| 0 <= i < es.len() implies Sx::subst_seq(es, from, to)[i] == (
        #[trigger] es[i]).subst(from, to) by {
            if i < es.len() - 1 {
                assert(es.drop_last()[i] == es[i]);
            } else {
                assert(es.last() == es[i]);
            }
        }
    }
}

impl Clone for SExpression {
    /// A deep copy; the copy has the same view as the original.
    fn clone(&self) -> (r: Self)
        ensures
            r@ == self@,
        decreases self,
    {
        match self {
            SExpression::Atom(s) => SExpression::Atom(clone_chars(s)),
            SExpression::Call(es) => SExpression::Call(clone_children(es)),
            SExpression::List(es) => SExpression::List(clone_children(es)),
        }
    }
}

/// Copies a character vector.
#[verifier::loop_isolation(false)]
pub fn clone_chars(s: &Vec<char>) -> (r: Vec<char>)
    ensures
        r@ == s@,
{
    let mut out: Vec<char> = Vec::new();
    let n = s.len();
    let mut i: usize = 0;
    while i < n
        invariant
            i <= n,
            out@ == s@.take(i as int),
        decreases n - i,
    {
        out.push(s[i]);
        proof {
            assert(s@.take(i + 1 as int) =~= s@.take(i as int).push(s@[i as int]));
        }
        i += 1;
    }
    proof {
        assert(s@.take(n as int) =~= s@);
    }
    out
}

/// Deep-copies every element of `es`; the copies' views match elementwise.
#[verifier::loop_isolation(false)]
fn clone_children(es: &Vec<SExpression>) -> (r: Vec<SExpression>)
    ensures
        views_of(r@) == views_of(es@),
    decreases es,
{
    let mut out: Vec<SExpression> = Vec::new();
    let n = es.len();
    let mut i: usize = 0;
    while i < n
        invariant
            i <= n,
            out@.len() == i,
            forall|j: int| 0 <= j < i ==> out@[j]@ == es@[j]@,
        decreases n - i,
    {
        proof {
            assert(decreases_to!(*es => es@[i as int]));
        }
        out.push(es[i].clone());
        i += 1;
    }
    proof {
        lemma_views_pointwise(out@, es@);
    }
    out
}

impl SExpression {
    /// The character count of an evaluated value: an atom's length, or the
    /// sum over a list's elements.
    #[verifier::loop_isolation(false)]
pub fn len(&self) -> (r: usize)
        requires
            self@.no_call(),
            self@.len_of() <= usize::MAX,
        ensures
            r == self@.len_of(),
        decreases self,
    {
        match self {
            SExpression::Atom(s) => s.len(),
            SExpression::List(es) => {
                let ghost all = views_of(es@);
                let n = es.len();
                let mut total: usize = 0;
                let mut i: usize = 0;
                proof {
                    lemma_views_of(es@);
                    assert(self@ == Sx::List(all));
                }
                while i < n
                    invariant
                        i <= n,
                        total == Sx::lens_sum(all.take(i as int)),
                    decreases n - i,
                {
                    proof {
                        assert(decreases_to!(*self => es@[i as int]));
                        lemma_no_call_seq(all);
                        assert(all[i as int].no_call());
                        assert(es@[i as int]@ == all[i as int]);
                        lemma_lens_sum_step(all, i as int);
                        lemma_lens_sum_prefix(all, i + 1);
                    }
                    let part = es[i].len();
                    total = total + part;
                    i += 1;
                }
                proof {
                    assert(all.take(n as int) =~= all);
                }
                total
            },
            SExpression::Call(_) => {
                proof {
                    assert(false);
                }
                0
            },
        }
    }

    /// The flattened character content of an evaluated value, by reference.
    #[verifier::loop_isolation(false)]
pub fn ident_ref(&self) -> (r: Vec<char>)
        requires
            self@.no_call(),
        ensures
            r@ == self@.ident_of(),
        decreases self,
    {
        match self {
            SExpression::Atom(s) => clone_chars(s),
            SExpression::List(es) => {
                let ghost all = views_of(es@);
                let mut out: Vec<char> = Vec::new();
                let n = es.len();
                let mut i: usize = 0;
                proof {
                    lemma_views_of(es@);
                    assert(self@ == Sx::List(all));
                }
                while i < n
                    invariant
                        i <= n,
                        out@ == Sx::idents_concat(all.take(i as int)),
                    decreases n - i,
                {
                    proof {
                        assert(decreases_to!(*self => es@[i as int]));
                        lemma_no_call_seq(all);
                        assert(all[i as int].no_call());
                        assert(es@[i as int]@ == all[i as int]);
                        lemma_idents_concat_step(all, i as int);
                    }
                    let mut part = es[i].ident_ref();
                    out.append(&mut part);
                    i += 1;
                }
                proof {
                    assert(all.take(n as int) =~= all);
                }
                out
            },
            SExpression::Call(_) => {
                proof {
                    assert(false);
                }
                Vec::new()
            },
        }
    }

    /// The flattened character content of an evaluated value.
    pub fn ident(self) -> (r: Vec<char>)
        requires
            self@.no_call(),
        ensures
            r@ == self@.ident_of(),
    {
        self.ident_ref()
    }

    /// Substitution by reference: builds the rewritten tree, leaving the
    /// original in place.
    #[verifier::loop_isolation(false)]
pub fn replace_ref(&self, from: &Vec<char>, to: &SExpression) -> (r: SExpression)
        ensures
            r@ == self@.subst(from@, to@),
        decreases self,
    {
        match self {
            SExpression::Atom(s) => {
                if crate::text::chars_eq(s, from) {
                    to.clone()
                } else {
                    SExpression::Atom(clone_chars(s))
                }
            },
            SExpression::Call(es) => {
                let ghost all = views_of(es@);
                let mut out: Vec<SExpression> = Vec::new();
                let n = es.len();
                let mut i: usize = 0;
                proof {
                    lemma_views_of(es@);
                    assert(self@ == Sx::Call(all));
                }
                while i < n
                    invariant
                        i <= n,
                        out@.len() == i,
                        forall|j: int| 0 <= j < i ==> out@[j]@ == (#[trigger] all[j]).subst(
                            from@,
                            to@,
                        ),
                    decreases n - i,
                {
                    proof {
                        assert(decreases_to!(*self => es@[i as int]));
                    }
                    let replaced = es[i].replace_ref(from, to);
                    out.push(replaced);
                    i += 1;
                }
                proof {
                    lemma_subst_seq(all, from@, to@);
                    lemma_views_of(out@);
                    assert forall|j: int| 0 <= j < n implies views_of(out@)[j] == Sx::subst_seq(
                        all,
                        from@,
                        to@,
                    )[j] by {
                        assert(out@.len() == n);
                        assert(views_of(out@)[j] == out@[j]@);
                        assert(out@[j]@ == all[j].subst(from@, to@));
                        assert(Sx::subst_seq(all, from@, to@)[j] == all[j].subst(from@, to@));
                    }
                    assert(views_of(out@) =~= Sx::subst_seq(all, from@, to@));
                }
                SExpression::Call(out)
            },
            SExpression::List(es) => SExpression::List(clone_children(es)),
        }
    }

    /// Substitution: rewrites every atom equal to `from` under `Call` syntax
    /// into a copy of `to`; evaluated `List` data is left untouched.
    pub fn replace(self, from: &Vec<char>, to: SExpression) -> (r: SExpression)
        ensures
            r@ == self@.subst(from@, to@),
    {
        self.replace_ref(from, &to)
    }

    /// The flattened atoms of a value, in order, by reference.
    pub fn list_ref(&self) -> (r: Vec<Vec<char>>)
        ensures
            r@.len() == self@.leaves_of().len(),
            forall|i: int| 0 <= i < r@.len() ==> r@[i]@ == self@.leaves_of()[i],
        decreases self,
    {
        match self {
            SExpression::Atom(s) => {
                let mut out: Vec<Vec<char>> = Vec::new();
                out.push(clone_chars(s));
                out
            },
            SExpression::List(es) => leaves_of_children(es),
            SExpression::Call(es) => leaves_of_children(es),
        }
    }

    /// The flattened atoms of a value, in order.
    pub fn list(self) -> (r: Vec<Vec<char>>)
        ensures
            r@.len() == self@.leaves_of().len(),
            forall|i: int| 0 <= i < r@.len() ==> r@[i]@ == self@.leaves_of()[i],
    {
        self.list_ref()
    }
}

/// Concatenates the leaves of the elements of `es`.
#[verifier::loop_isolation(false)]
fn leaves_of_children(es: &Vec<SExpression>) -> (r: Vec<Vec<char>>)
    ensures
        r@.len() == Sx::leaves_concat(views_of(es@)).len(),
        forall|i: int| 0 <= i < r@.len() ==> r@[i]@ == Sx::leaves_concat(views_of(es@))[i],
    decreases es,
{
    let ghost all = views_of(es@);
    let mut out: Vec<Vec<char>> = Vec::new();
    let n = es.len();
    let mut i: usize = 0;
    proof {
        lemma_views_of(es@);
    }
    while i < n
        invariant
            i <= n,
            out@.len() == Sx::leaves_concat(all.take(i as int)).len(),
            forall|j: int| 0 <= j < out@.len() ==> out@[j]@ == Sx::leaves_concat(
                all.take(i as int),
            )[j],
        decreases n - i,
    {
        proof {
            assert(decreases_to!(*es => es@[i as int]));
            assert(es@[i as int]@ == all[i as int]);
            lemma_leaves_concat_step(all, i as int);
        }
        let mut part = es[i].list_ref();
        let ghost out_before = out@;
        let ghost leaves = all[i as int].leaves_of();
        let m = part.len();
        let mut k: usize = 0;
        while k < m
            invariant
                k <= m,
                part@.len() == m - k,
                forall|j: int| 0 <= j < part@.len() ==> part@[j]@ == leaves[j + k],
                m == leaves.len(),
                out@.len() == out_before.len() + k,
                forall|j: int| 0 <= j < out_before.len() ==> out@[j]@ == out_before[j]@,
                forall|j: int| 0 <= j < k ==> out@[out_before.len() + j]@ == leaves[j],
            decreases m - k,
        {
            let leaf = part.remove(0);
            out.push(leaf);
            k += 1;
        }
        i += 1;
    }
    proof {
        assert(all.take(n as int) =~= all);
    }
    out
}

/// Sum of `len_of` over any prefix is bounded by the sum over the whole.
pub proof fn lemma_lens_sum_prefix(es: Seq<Sx>, i: int)
    requires
        0 <= i <= es.len(),
    ensures
        Sx::lens_sum(es.take(i)) <= Sx::lens_sum(es),
    decreases es.len() - i,
{
    if i == es.len() {
        assert(es.take(i) =~= es);
    } else {
        lemma_lens_sum_step(es, i);
        lemma_lens_sum_prefix(es, i + 1);
    }
}

/// Structural equality of two expressions, with no special cases.
pub fn sx_eq(a: &SExpression, b: &SExpression) -> (r: bool)
    ensures
        r == (a@ == b@),
    decreases a,
{
    match (a, b) {
        (SExpression::Atom(s1), SExpression::Atom(s2)) => crate::text::chars_eq(s1, s2),
        (SExpression::Call(e1), SExpression::Call(e2)) => sx_eq_children(e1, e2),
        (SExpression::List(e1), SExpression::List(e2)) => sx_eq_children(e1, e2),
        _ => false,
    }
}

/// Elementwise structural equality of two child sequences.
#[verifier::loop_isolation(false)]
fn sx_eq_children(e1: &Vec<SExpression>, e2: &Vec<SExpression>) -> (r: bool)
    ensures
        r == (views_of(e1@) == views_of(e2@)),
    decreases e1,
{
    proof {
        lemma_views_of(e1@);
        lemma_views_of(e2@);
    }
    if e1.len() != e2.len() {
        proof {
            assert(views_of(e1@).len() != views_of(e2@).len());
        }
        return false;
    }
    let n = e1.len();
    let mut i: usize = 0;
    while i < n
        invariant
            i <= n,
            forall|j: int| 0 <= j < i ==> views_of(e1@)[j] == views_of(e2@)[j],
        decreases n - i,
    {
        proof {
            assert(decreases_to!(*e1 => e1@[i as int]));
        }
        if !sx_eq(&e1[i], &e2[i]) {
            proof {
                assert(views_of(e1@)[i as int] == e1@[i as int]@);
                assert(views_of(e2@)[i as int] == e2@[i as int]@);
                assert(views_of(e1@)[i as int] != views_of(e2@)[i as int]);
            }
            return false;
        }
        i += 1;
    }
    proof {
        assert(views_of(e1@) =~= views_of(e2@));
    }
    true
}

/// True when the value holds no pending `Call` anywhere.
#[verifier::loop_isolation(false)]
pub fn has_no_call(e: &SExpression) -> (r: bool)
    ensures
        r == e@.no_call(),
    decreases e,
{
    match e {
        SExpression::Atom(_) => true,
        SExpression::Call(_) => false,
        SExpression::List(es) => {
            let ghost all = views_of(es@);
            let n = es.len();
            let mut i: usize = 0;
            proof {
                lemma_views_of(es@);
                lemma_no_call_seq(all);
            }
            while i < n
                invariant
                    i <= n,
                    forall|j: int| 0 <= j < i ==> (#[trigger] all[j]).no_call(),
                decreases n - i,
            {
                proof {
                    assert(decreases_to!(*e => es@[i as int]));
                }
                if !has_no_call(&es[i]) {
                    proof {
                        assert(!all[i as int].no_call());
                    }
                    return false;
                }
                i += 1;
            }
            true
        },
    }
}

} // verus!
