//! The builtin library: a fixed table of primitive operations. Each builtin
//! receives the raw argument expressions and the interpreter state, decides
//! itself which arguments to evaluate and in what order, and returns a value
//! or an error string.
use vstd::prelude::*;
use crate::{Sx, SExpression, views_of, lemma_views_of, clone_chars, sx_eq};
use crate::interpreter::{Interpreter, same_state, known_value, known_chars, known_num, env_find};
use crate::text::{spec_to_num, spec_int_text, spec_bool_text, spec_digits, spec_div_trunc,
    spec_rem_trunc, to_num, int_to_chars, bool_chars, chars_to_string, str_to_chars, chars_eq_str,
    concat_chars};

verus! {

/// The names that dispatch to a builtin operation.
pub open spec fn spec_is_builtin(s: Seq<char>) -> bool {
    ||| s == "+"@
    ||| s == "-"@
    ||| s == "*"@
    ||| s == "/"@
    ||| s == "%"@
    ||| s == "^"@
    ||| s == "<"@
    ||| s == ">"@
    ||| s == "<="@
    ||| s == ">="@
    ||| s == "="@
    ||| s == "if"@
    ||| s == "or"@
    ||| s == "and"@
    ||| s == "not"@
    ||| s == "first"@
    ||| s == "rest"@
    ||| s == "list"@
    ||| s == "cons"@
    ||| s == "defun"@
    ||| s == "def"@
    ||| s == "alias"@
    ||| s == "let"@
    ||| s == "export"@
    ||| s == "getenv"@
    ||| s == "cd"@
    ||| s == "exit"@
    ||| s == "write"@
    ||| s == "append"@
    ||| s == "read"@
}

/// One builtin operation each.
pub enum BuiltinId {
    Add,
    Sub,
    Mul,
    Div,
    Mod,
    Pow,
    Lt,
    Gt,
    Leq,
    Geq,
    EqB,
    IfB,
    OrB,
    AndB,
    NotB,
    First,
    Rest,
    ListB,
    Cons,
    Defun,
    Def,
    Alias,
    LetB,
    Export,
    Getenv,
    Cd,
    Exit,
    WriteF,
    AppendF,
    ReadF,
}

/// Recognizes a builtin name.
pub fn builtin_lookup(name: &Vec<char>) -> (r: Option<BuiltinId>)
    ensures
        r is Some <==> spec_is_builtin(name@),
{
    if chars_eq_str(name, "+") {
        Some(BuiltinId::Add)
    } else if chars_eq_str(name, "-") {
        Some(BuiltinId::Sub)
    } else if chars_eq_str(name, "*") {
        Some(BuiltinId::Mul)
    } else if chars_eq_str(name, "/") {
        Some(BuiltinId::Div)
    } else if chars_eq_str(name, "%") {
        Some(BuiltinId::Mod)
    } else if chars_eq_str(name, "^") {
        Some(BuiltinId::Pow)
    } else if chars_eq_str(name, "<") {
        Some(BuiltinId::Lt)
    } else if chars_eq_str(name, ">") {
        Some(BuiltinId::Gt)
    } else if chars_eq_str(name, "<=") {
        Some(BuiltinId::Leq)
    } else if chars_eq_str(name, ">=") {
        Some(BuiltinId::Geq)
    } else if chars_eq_str(name, "=") {
        Some(BuiltinId::EqB)
    } else if chars_eq_str(name, "if") {
        Some(BuiltinId::IfB)
    } else if chars_eq_str(name, "or") {
        Some(BuiltinId::OrB)
    } else if chars_eq_str(name, "and") {
        Some(BuiltinId::AndB)
    } else if chars_eq_str(name, "not") {
        Some(BuiltinId::NotB)
    } else if chars_eq_str(name, "first") {
        Some(BuiltinId::First)
    } else if chars_eq_str(name, "rest") {
        Some(BuiltinId::Rest)
    } else if chars_eq_str(name, "list") {
        Some(BuiltinId::ListB)
    } else if chars_eq_str(name, "cons") {
        Some(BuiltinId::Cons)
    } else if chars_eq_str(name, "defun") {
        Some(BuiltinId::Defun)
    } else if chars_eq_str(name, "def") {
        Some(BuiltinId::Def)
    } else if chars_eq_str(name, "alias") {
        Some(BuiltinId::Alias)
    } else if chars_eq_str(name, "let") {
        Some(BuiltinId::LetB)
    } else if chars_eq_str(name, "export") {
        Some(BuiltinId::Export)
    } else if chars_eq_str(name, "getenv") {
        Some(BuiltinId::Getenv)
    } else if chars_eq_str(name, "cd") {
        Some(BuiltinId::Cd)
    } else if chars_eq_str(name, "exit") {
        Some(BuiltinId::Exit)
    } else if chars_eq_str(name, "write") {
        Some(BuiltinId::WriteF)
    } else if chars_eq_str(name, "append") {
        Some(BuiltinId::AppendF)
    } else if chars_eq_str(name, "read") {
        Some(BuiltinId::ReadF)
    } else {
        None
    }
}

/// Hands the arguments to the named builtin.
pub fn dispatch(b: BuiltinId, args: Vec<SExpression>, s: &mut Interpreter, fuel: u64) -> (r:
    Result<SExpression, String>)
    requires
        fuel >= 1,
    ensures
        final(s).last_ret_code == old(s).last_ret_code,
        final(s).last_ret_code == old(s).last_ret_code,
    decreases fuel, 8int,
{
    match b {
        BuiltinId::Add => builtin_add(args, s, fuel),
        BuiltinId::Sub => builtin_sub(args, s, fuel),
        BuiltinId::Mul => builtin_mul(args, s, fuel),
        BuiltinId::Div => builtin_div(args, s, fuel),
        BuiltinId::Mod => builtin_mod(args, s, fuel),
        BuiltinId::Pow => builtin_pow(args, s, fuel),
        BuiltinId::Lt => builtin_lt(args, s, fuel),
        BuiltinId::Gt => builtin_gt(args, s, fuel),
        BuiltinId::Leq => builtin_leq(args, s, fuel),
        BuiltinId::Geq => builtin_geq(args, s, fuel),
        BuiltinId::EqB => builtin_eq(args, s, fuel),
        BuiltinId::IfB => builtin_if(args, s, fuel),
        BuiltinId::OrB => builtin_or(args, s, fuel),
        BuiltinId::AndB => builtin_and(args, s, fuel),
        BuiltinId::NotB => builtin_not(args, s, fuel),
        BuiltinId::First => builtin_first(args, s, fuel),
        BuiltinId::Rest => builtin_rest(args, s, fuel),
        BuiltinId::ListB => builtin_list(args, s, fuel),
        BuiltinId::Cons => builtin_cons(args, s, fuel),
        BuiltinId::Defun => builtin_defun(args, s, fuel),
        BuiltinId::Def => builtin_def(args, s, fuel),
        BuiltinId::Alias => builtin_alias(args, s, fuel),
        BuiltinId::LetB => builtin_let(args, s, fuel),
        BuiltinId::Export => builtin_export(args, s, fuel),
        BuiltinId::Getenv => builtin_getenv(args, s, fuel),
        BuiltinId::Cd => builtin_cd(args, s, fuel),
        BuiltinId::Exit => builtin_exit(args, s, fuel),
        BuiltinId::WriteF => builtin_file_write(args, s, fuel),
        BuiltinId::AppendF => builtin_file_append(args, s, fuel),
        BuiltinId::ReadF => builtin_file_read(args, s, fuel),
    }
}

/// The number a value denotes: its flattened text read as a decimal
/// integer.
pub fn num_of_value(v: &SExpression) -> (r: Result<i64, String>)
    ensures
        r matches Ok(n) ==> (v@.no_call() && spec_to_num(v@.ident_of()) == Some(n)),
        r matches Err(m) ==> (v@.no_call() ==> (spec_to_num(v@.ident_of()) is None && m@
            == v@.ident_of() + " is not a number"@)),
{
    if !crate::has_no_call(v) {
        return Err(String::from_str("value is not a number"));
    }
    let chars = v.ident_ref();
    match to_num(&chars) {
        Some(n) => Ok(n),
        None => {
            let suffix = str_to_chars(" is not a number");
            let msg = concat_chars(&chars, &suffix);
            Err(chars_to_string(&msg))
        },
    }
}

/// The boolean a value denotes: whether its flattened text is `true`.
pub fn truthy(v: &SExpression) -> (r: Result<bool, String>)
    ensures
        r matches Ok(b) ==> (v@.no_call() && b == (v@.ident_of() == "true"@)),
        r is Err ==> !v@.no_call(),
{
    if !crate::has_no_call(v) {
        return Err(String::from_str("boolean argument is not a value"));
    }
    let chars = v.ident_ref();
    Ok(chars_eq_str(&chars, "true"))
}

/// Equality with the empty-value special case: the empty atom and the empty
/// list compare equal; everything else compares structurally.
pub open spec fn spec_eq_vals(a: Sx, b: Sx) -> bool {
    if (a matches Sx::Atom(s) && s.len() == 0) && (b matches Sx::List(l) && l.len() == 0) {
        true
    } else if (b matches Sx::Atom(s) && s.len() == 0) && (a matches Sx::List(l) && l.len() == 0) {
        true
    } else {
        a == b
    }
}

/// Structural equality of two evaluated values, the empty atom and the
/// empty list counting as equal.
pub fn eq_values(x: &SExpression, y: &SExpression) -> (r: bool)
    ensures
        r == spec_eq_vals(x@, y@),
{
    match (x, y) {
        (SExpression::Atom(s), SExpression::List(l)) => {
            proof {
                lemma_views_of(l@);
            }
            if s.len() == 0 && l.len() == 0 {
                true
            } else {
                sx_eq(x, y)
            }
        },
        (SExpression::List(l), SExpression::Atom(s)) => {
            proof {
                lemma_views_of(l@);
            }
            if s.len() == 0 && l.len() == 0 {
                true
            } else {
                sx_eq(x, y)
            }
        },
        _ => sx_eq(x, y),
    }
}

/// The first element of a list, or the first character of an atom.
pub fn first_value(v: SExpression) -> (r: Result<SExpression, String>)
    ensures
        v@ matches Sx::List(es) ==> (es.len() > 0 ==> (r matches Ok(x) && x@ == es[0])),
        v@ matches Sx::List(es) ==> (es.len() == 0 ==> (r matches Err(m) && m@
            == "tried to call first on empty list"@)),
        v@ matches Sx::Atom(s) ==> (s.len() > 0 ==> (r matches Ok(x) && x@ == Sx::Atom(
            seq![s[0]],
        ))),
        v@ matches Sx::Atom(s) ==> (s.len() == 0 ==> (r matches Err(m) && m@
            == "tried to call first on empty string"@)),
        v@ matches Sx::Call(_) ==> r is Err,
    decreases v,
{
    match v {
        SExpression::List(mut es) => {
            proof {
                lemma_views_of(es@);
            }
            if es.len() > 0 {
                let x = es.remove(0);
                Ok(x)
            } else {
                Err(String::from_str("tried to call first on empty list"))
            }
        },
        SExpression::Atom(s) => {
            if s.len() > 0 {
                let mut one: Vec<char> = Vec::new();
                one.push(s[0]);
                proof {
                    assert(one@ =~= seq![s@[0]]);
                }
                Ok(SExpression::Atom(one))
            } else {
                Err(String::from_str("tried to call first on empty string"))
            }
        },
        SExpression::Call(_) => Err(String::from_str("first expects a value")),
    }
}

/// A list without its first element, or an atom without its first
/// character.
pub fn rest_value(v: SExpression) -> (r: Result<SExpression, String>)
    ensures
        v@ matches Sx::List(es) ==> (es.len() > 0 ==> (r matches Ok(x) && x@ == Sx::List(
            es.skip(1),
        ))),
        v@ matches Sx::List(es) ==> (es.len() == 0 ==> (r matches Err(m) && m@
            == "tried to call rest on empty list"@)),
        v@ matches Sx::Atom(s) ==> (s.len() > 0 ==> (r matches Ok(x) && x@ == Sx::Atom(
            s.skip(1),
        ))),
        v@ matches Sx::Atom(s) ==> (s.len() == 0 ==> (r matches Err(m) && m@
            == "tried to call rest on empty string"@)),
        v@ matches Sx::Call(_) ==> r is Err,
    decreases v,
{
    match v {
        SExpression::List(mut es) => {
            proof {
                lemma_views_of(es@);
            }
            if es.len() > 0 {
                let ghost pre = es@;
                let _ = es.remove(0);
                proof {
                    lemma_views_of(es@);
                    assert forall|j: int| 0 <= j < es@.len() implies views_of(es@)[j] == views_of(
                        pre,
                    ).skip(1)[j] by {
                        assert(es@[j] == pre[j + 1]);
                        assert(views_of(pre)[j + 1] == pre[j + 1]@);
                    }
                    assert(views_of(es@) =~= views_of(pre).skip(1));
                }
                Ok(SExpression::List(es))
            } else {
                Err(String::from_str("tried to call rest on empty list"))
            }
        },
        SExpression::Atom(mut s) => {
            if s.len() > 0 {
                let ghost pre = s@;
                let _ = s.remove(0);
                proof {
                    assert(s@ =~= pre.skip(1));
                }
                Ok(SExpression::Atom(s))
            } else {
                Err(String::from_str("tried to call rest on empty string"))
            }
        },
        SExpression::Call(_) => Err(String::from_str("rest expects a value")),
    }
}

/// Joining a value onto a list-like value: a single character onto a string
/// concatenates; anything onto a list prepends; the empty list degrades to
/// the string case.
pub fn cons_values(x: SExpression, xs: SExpression) -> (r: Result<SExpression, String>)
    ensures
        x@ matches Sx::Atom(c) ==> (xs@ matches Sx::List(l) ==> ((c.len() == 1 && l.len() == 0)
            ==> (r matches Ok(o) && o@ == Sx::Atom(c)))),
        x@ matches Sx::Atom(c) ==> (xs@ matches Sx::Atom(t) ==> (c.len() == 1 ==> (r matches Ok(o)
            && o@ == Sx::Atom(c + t)))),
        xs@ matches Sx::List(l) ==> (!(x@ matches Sx::Atom(c) && c.len() == 1 && l.len() == 0)
            ==> (r matches Ok(o) && o@ == Sx::List(seq![x@] + l))),
        xs@ matches Sx::Atom(t) ==> (!(x@ matches Sx::Atom(c) && c.len() == 1) ==> (r matches Err(
            m,
        ) && m@ == "cons second argument must be list-like"@)),
        xs@ matches Sx::Call(_) ==> r is Err,
{
    let x_is_one_char = match &x {
        SExpression::Atom(c) => c.len() == 1,
        _ => false,
    };
    match xs {
        SExpression::List(mut l) => {
            proof {
                lemma_views_of(l@);
            }
            if x_is_one_char && l.len() == 0 {
                Ok(x)
            } else {
                let ghost pre = l@;
                l.insert(0, x);
                proof {
                    lemma_views_of(l@);
                    assert forall|j: int| 0 <= j < l@.len() implies views_of(l@)[j] == (seq![
                        l@[0]@,
                    ] + views_of(pre))[j] by {
                        if j > 0 {
                            assert(l@[j] == pre[j - 1]);
                            assert(views_of(pre)[j - 1] == pre[j - 1]@);
                        }
                    }
                    assert(views_of(l@) =~= seq![l@[0]@] + views_of(pre));
                }
                Ok(SExpression::List(l))
            }
        },
        SExpression::Atom(t) => {
            if x_is_one_char {
                match x {
                    SExpression::Atom(c) => {
                        let joined = concat_chars(&c, &t);
                        Ok(SExpression::Atom(joined))
                    },
                    _ => {
                        proof {
                            assert(false);
                        }
                        Err(String::new())
                    },
                }
            } else {
                Err(String::from_str("cons second argument must be list-like"))
            }
        },
        SExpression::Call(_) => Err(String::from_str("cons second argument must be list-like")),
    }
}

} // verus!

verus! {

/// The checked sum of statically known numeric arguments, folded left to
/// right from `acc`; `None` when an argument's number is unknown here or a
/// step leaves the machine range.
pub open spec fn known_sum(st: Interpreter, rem: Seq<SExpression>, acc: i64) -> Option<i64>
    decreases rem.len(),
{
    if rem.len() == 0 {
        Option::Some(acc)
    } else {
        match known_num(st, rem[0]@) {
            Option::Some(n) => if i64::MIN <= acc + n <= i64::MAX {
                known_sum(st, rem.skip(1), (acc + n) as i64)
            } else {
                Option::None
            },
            Option::None => Option::None,
        }
    }
}

/// The first statically known argument whose text is not a number, reached
/// by the fold before any overflow: the text the error message names.
pub open spec fn first_num_fault(st: Interpreter, rem: Seq<SExpression>, acc: i64) -> Option<
    Seq<char>,
>
    decreases rem.len(),
{
    if rem.len() == 0 {
        Option::None
    } else {
        match known_chars(st, rem[0]@) {
            Option::Some(t) => match crate::text::spec_to_num(t) {
                Option::Some(n) => if i64::MIN <= acc + n <= i64::MAX {
                    first_num_fault(st, rem.skip(1), (acc + n) as i64)
                } else {
                    Option::None
                },
                Option::None => Option::Some(t),
            },
            Option::None => Option::None,
        }
    }
}

/// As `first_num_fault`, but along the multiplication fold.
pub open spec fn first_num_fault_mul(st: Interpreter, rem: Seq<SExpression>, acc: i64) -> Option<
    Seq<char>,
>
    decreases rem.len(),
{
    if rem.len() == 0 {
        Option::None
    } else {
        match known_chars(st, rem[0]@) {
            Option::Some(t) => match crate::text::spec_to_num(t) {
                Option::Some(n) => if i64::MIN <= acc * n <= i64::MAX {
                    first_num_fault_mul(st, rem.skip(1), (acc * n) as i64)
                } else {
                    Option::None
                },
                Option::None => Option::Some(t),
            },
            Option::None => Option::None,
        }
    }
}

/// The checked product of statically known numeric arguments, folded left
/// to right from `acc`.
pub open spec fn known_product(st: Interpreter, rem: Seq<SExpression>, acc: i64) -> Option<i64>
    decreases rem.len(),
{
    if rem.len() == 0 {
        Option::Some(acc)
    } else {
        match known_num(st, rem[0]@) {
            Option::Some(n) => if i64::MIN <= acc * n <= i64::MAX {
                known_product(st, rem.skip(1), (acc * n) as i64)
            } else {
                Option::None
            },
            Option::None => Option::None,
        }
    }
}

/// The boolean-or fold of statically known arguments: whether any flattens
/// to the text `true`.
pub open spec fn known_or_fold(st: Interpreter, rem: Seq<SExpression>, acc: bool) -> Option<bool>
    decreases rem.len(),
{
    if rem.len() == 0 {
        Option::Some(acc)
    } else {
        match known_chars(st, rem[0]@) {
            Option::Some(t) => known_or_fold(st, rem.skip(1), acc || t == "true"@),
            Option::None => Option::None,
        }
    }
}

/// The boolean-and fold of statically known arguments.
pub open spec fn known_and_fold(st: Interpreter, rem: Seq<SExpression>, acc: bool) -> Option<bool>
    decreases rem.len(),
{
    if rem.len() == 0 {
        Option::Some(acc)
    } else {
        match known_chars(st, rem[0]@) {
            Option::Some(t) => known_and_fold(st, rem.skip(1), acc && t == "true"@),
            Option::None => Option::None,
        }
    }
}

/// Folds addition over any number of evaluated numeric arguments.
#[verifier::loop_isolation(false)]
pub fn builtin_add(args: Vec<SExpression>, s: &mut Interpreter, fuel: u64) -> (r: Result<
    SExpression,
    String,
>)
    requires
        fuel >= 1,
    ensures
        final(s).last_ret_code == old(s).last_ret_code,
        args@.len() == 0 ==> (r matches Ok(v) && v@ == Sx::Atom(spec_int_text(0)) && same_state(
            *old(s),
            *final(s),
        )),
        known_sum(*old(s), args@, 0) matches Some(total) ==> (r matches Ok(v) && v@ == Sx::Atom(
            spec_int_text(total as int),
        ) && same_state(*old(s), *final(s))),
        first_num_fault(*old(s), args@, 0) matches Some(t) ==> (r matches Err(m) && m@ == t
            + " is not a number"@ && same_state(*old(s), *final(s))),
    decreases fuel, 7int,
{
    let ghost args0 = args@;
    let mut acc: i64 = 0;
    let mut rest = args;
    if rest.len() == 0 {
        return Ok(SExpression::Atom(int_to_chars(0)));
    }
    while rest.len() > 0
        invariant
            fuel >= 1,
            s.last_ret_code == old(s).last_ret_code,
            known_sum(*old(s), args0, 0) matches Some(total) ==> (known_sum(*old(s), rest@, acc)
                == Some(total) && same_state(*old(s), *s)),
            first_num_fault(*old(s), args0, 0) matches Some(t) ==> (first_num_fault(
                *old(s),
                rest@,
                acc,
            ) == Some(t) && same_state(*old(s), *s)),
        decreases rest@.len(),
    {
        let ghost rest0 = rest@;
        let ghost pre = *s;
        let a = rest.remove(0);
        proof {
            assert(rest@ =~= rest0.skip(1));
            if known_sum(*old(s), args0, 0) is Some || first_num_fault(*old(s), args0, 0)
                is Some {
                assert(known_chars(*old(s), rest0[0]@) is Some);
                assert(pre == *old(s));
            }
        }
        let v = s.eval_expr(a, false, fuel - 1)?;
        proof {
            if known_sum(*old(s), args0, 0) is Some || first_num_fault(*old(s), args0, 0)
                is Some {
                assert(v@ == known_value(*old(s), rest0[0]@)->Some_0);
                assert(v@.no_call());
            }
        }
        let n = num_of_value(&v)?;
        acc = match acc.checked_add(n) {
            Some(m) => m,
            None => {
                return Err(String::from_str("numeric overflow"));
            },
        };
    }
    proof {
        if known_sum(*old(s), args0, 0) is Some {
            assert(known_sum(*old(s), rest@, acc) == Some(acc));
        }
    }
    Ok(SExpression::Atom(int_to_chars(acc)))
}

/// Folds multiplication over any number of evaluated numeric arguments.
#[verifier::loop_isolation(false)]
pub fn builtin_mul(args: Vec<SExpression>, s: &mut Interpreter, fuel: u64) -> (r: Result<
    SExpression,
    String,
>)
    requires
        fuel >= 1,
    ensures
        final(s).last_ret_code == old(s).last_ret_code,
        args@.len() == 0 ==> (r matches Ok(v) && v@ == Sx::Atom(spec_int_text(1)) && same_state(
            *old(s),
            *final(s),
        )),
        known_product(*old(s), args@, 1) matches Some(total) ==> (r matches Ok(v) && v@
            == Sx::Atom(spec_int_text(total as int)) && same_state(*old(s), *final(s))),
        first_num_fault_mul(*old(s), args@, 1) matches Some(t) ==> (r matches Err(m) && m@ == t
            + " is not a number"@ && same_state(*old(s), *final(s))),
    decreases fuel, 7int,
{
    let ghost args0 = args@;
    let mut acc: i64 = 1;
    let mut rest = args;
    if rest.len() == 0 {
        return Ok(SExpression::Atom(int_to_chars(1)));
    }
    while rest.len() > 0
        invariant
            fuel >= 1,
            s.last_ret_code == old(s).last_ret_code,
            known_product(*old(s), args0, 1) matches Some(total) ==> (known_product(
                *old(s),
                rest@,
                acc,
            ) == Some(total) && same_state(*old(s), *s)),
            first_num_fault_mul(*old(s), args0, 1) matches Some(t) ==> (first_num_fault_mul(
                *old(s),
                rest@,
                acc,
            ) == Some(t) && same_state(*old(s), *s)),
        decreases rest@.len(),
    {
        let ghost rest0 = rest@;
        let ghost pre = *s;
        let a = rest.remove(0);
        proof {
            assert(rest@ =~= rest0.skip(1));
            if known_product(*old(s), args0, 1) is Some || first_num_fault_mul(
                *old(s),
                args0,
                1,
            ) is Some {
                assert(known_chars(*old(s), rest0[0]@) is Some);
                assert(pre == *old(s));
            }
        }
        let v = s.eval_expr(a, false, fuel - 1)?;
        proof {
            if known_product(*old(s), args0, 1) is Some || first_num_fault_mul(
                *old(s),
                args0,
                1,
            ) is Some {
                assert(v@ == known_value(*old(s), rest0[0]@)->Some_0);
                assert(v@.no_call());
            }
        }
        let n = num_of_value(&v)?;
        acc = match acc.checked_mul(n) {
            Some(m) => m,
            None => {
                return Err(String::from_str("numeric overflow"));
            },
        };
    }
    proof {
        if known_product(*old(s), args0, 1) is Some {
            assert(known_product(*old(s), rest@, acc) == Some(acc));
        }
    }
    Ok(SExpression::Atom(int_to_chars(acc)))
}

/// Takes the first two arguments as numbers, further ones ignored.
fn two_nums(args: Vec<SExpression>, s: &mut Interpreter, fuel: u64) -> (r: Result<
    (i64, i64),
    String,
>)
    requires
        fuel >= 1,
        args@.len() >= 2,
    ensures
        final(s).last_ret_code == old(s).last_ret_code,
        known_num(*old(s), args@[0]@) matches Some(n0) ==> (known_num(*old(s), args@[1]@)
            matches Some(n1) ==> (r matches Ok(p) && p.0 == n0 && p.1 == n1 && same_state(
            *old(s),
            *final(s),
        ))),
        known_chars(*old(s), args@[0]@) matches Some(a0) ==> (spec_to_num(a0) is None ==> (
        r matches Err(m) && m@ == a0 + " is not a number"@ && same_state(*old(s), *final(s)))),
        known_num(*old(s), args@[0]@) matches Some(n0) ==> (known_chars(*old(s), args@[1]@)
            matches Some(a1) ==> (spec_to_num(a1) is None ==> (r matches Err(m) && m@ == a1
            + " is not a number"@ && same_state(*old(s), *final(s))))),
    decreases fuel, 6int,
{
    let mut args = args;
    let x = args.remove(0);
    let y = args.remove(0);
    let vx = s.eval_expr(x, false, fuel - 1)?;
    let nx = num_of_value(&vx)?;
    let vy = s.eval_expr(y, false, fuel - 1)?;
    let ny = num_of_value(&vy)?;
    Ok((nx, ny))
}

/// Subtracts the second numeric argument from the first.
pub fn builtin_sub(args: Vec<SExpression>, s: &mut Interpreter, fuel: u64) -> (r: Result<
    SExpression,
    String,
>)
    requires
        fuel >= 1,
    ensures
        final(s).last_ret_code == old(s).last_ret_code,
        args@.len() < 2 ==> (r matches Err(m) && m@ == "sub requires two arguments"@ && same_state(
            *old(s),
            *final(s),
        )),
        args@.len() >= 2 ==> (known_num(*old(s), args@[0]@) matches Some(n0) ==> (known_num(
            *old(s),
            args@[1]@,
        ) matches Some(n1) ==> (i64::MIN <= n0 - n1 <= i64::MAX ==> (r matches Ok(v) && v@
            == Sx::Atom(spec_int_text(n0 - n1)) && same_state(*old(s), *final(s)))))),
        args@.len() >= 2 ==> (known_num(*old(s), args@[0]@) matches Some(n0) ==> (known_chars(
            *old(s),
            args@[1]@,
        ) matches Some(a1) ==> (spec_to_num(a1) is None ==> (r matches Err(m) && m@ == a1
            + " is not a number"@ && same_state(*old(s), *final(s)))))),
    decreases fuel, 7int,
{
    if args.len() < 2 {
        return Err(String::from_str("sub requires two arguments"));
    }
    let (nx, ny) = two_nums(args, s, fuel)?;
    match nx.checked_sub(ny) {
        Some(m) => Ok(SExpression::Atom(int_to_chars(m))),
        None => Err(String::from_str("numeric overflow")),
    }
}

/// Divides the first numeric argument by the second, truncating toward
/// zero.
pub fn builtin_div(args: Vec<SExpression>, s: &mut Interpreter, fuel: u64) -> (r: Result<
    SExpression,
    String,
>)
    requires
        fuel >= 1,
    ensures
        final(s).last_ret_code == old(s).last_ret_code,
        args@.len() < 2 ==> (r matches Err(m) && m@ == "div requires two arguments"@ && same_state(
            *old(s),
            *final(s),
        )),
        args@.len() >= 2 ==> (known_num(*old(s), args@[0]@) matches Some(n0) ==> (known_num(
            *old(s),
            args@[1]@,
        ) matches Some(n1) ==> (n1 != 0 ==> (i64::MIN <= spec_div_trunc(n0 as int, n1 as int)
            <= i64::MAX ==> (r matches Ok(v) && v@ == Sx::Atom(
            spec_int_text(spec_div_trunc(n0 as int, n1 as int)),
        ) && same_state(*old(s), *final(s))))))),
        args@.len() >= 2 ==> (known_num(*old(s), args@[0]@) matches Some(n0) ==> (known_num(
            *old(s),
            args@[1]@,
        ) matches Some(n1) ==> (n1 == 0 ==> (r matches Err(m) && m@ == "division by zero"@
            && same_state(*old(s), *final(s)))))),
    decreases fuel, 7int,
{
    if args.len() < 2 {
        return Err(String::from_str("div requires two arguments"));
    }
    let (nx, ny) = two_nums(args, s, fuel)?;
    if ny == 0 {
        return Err(String::from_str("division by zero"));
    }
    match nx.checked_div(ny) {
        Some(m) => Ok(SExpression::Atom(int_to_chars(m))),
        None => Err(String::from_str("numeric overflow")),
    }
}

/// The remainder of the first numeric argument by the second.
pub fn builtin_mod(args: Vec<SExpression>, s: &mut Interpreter, fuel: u64) -> (r: Result<
    SExpression,
    String,
>)
    requires
        fuel >= 1,
    ensures
        final(s).last_ret_code == old(s).last_ret_code,
        args@.len() < 2 ==> (r matches Err(m) && m@ == "mod requires two arguments"@ && same_state(
            *old(s),
            *final(s),
        )),
        args@.len() >= 2 ==> (known_num(*old(s), args@[0]@) matches Some(n0) ==> (known_num(
            *old(s),
            args@[1]@,
        ) matches Some(n1) ==> (n1 != 0 && !(n0 == i64::MIN && n1 == -1) ==> (i64::MIN
            <= spec_rem_trunc(n0 as int, n1 as int) <= i64::MAX ==> (r matches Ok(v) && v@
            == Sx::Atom(spec_int_text(spec_rem_trunc(n0 as int, n1 as int))) && same_state(
            *old(s),
            *final(s),
        )))))),
        args@.len() >= 2 ==> (known_num(*old(s), args@[0]@) matches Some(n0) ==> (known_num(
            *old(s),
            args@[1]@,
        ) matches Some(n1) ==> (n1 == 0 ==> (r matches Err(m) && m@ == "division by zero"@
            && same_state(*old(s), *final(s)))))),
    decreases fuel, 7int,
{
    if args.len() < 2 {
        return Err(String::from_str("mod requires two arguments"));
    }
    let (nx, ny) = two_nums(args, s, fuel)?;
    if ny == 0 {
        return Err(String::from_str("division by zero"));
    }
    match nx.checked_rem(ny) {
        Some(m) => Ok(SExpression::Atom(int_to_chars(m))),
        None => Err(String::from_str("numeric overflow")),
    }
}

/// The checked power loop from a partial product: multiply by the base
/// until the exponent is reached, `None` when a step leaves the machine
/// range.
pub open spec fn pow_from(base: int, acc: int, k: int, e: int) -> Option<int>
    decreases e - k,
{
    if k >= e {
        Option::Some(acc)
    } else if i64::MIN <= acc * base <= i64::MAX {
        pow_from(base, acc * base, k + 1, e)
    } else {
        Option::None
    }
}

/// The power builtin's result for known operands: special bases exactly,
/// any other base by the checked multiplication loop.
pub open spec fn known_pow(base: int, e: int) -> Option<int> {
    if e < 0 {
        Option::None
    } else if base == 0 {
        Option::Some(
            if e == 0 {
                1
            } else {
                0
            },
        )
    } else if base == 1 {
        Option::Some(1)
    } else if base == -1 {
        Option::Some(
            if e % 2 == 0 {
                1
            } else {
                -1
            },
        )
    } else {
        pow_from(base, 1, 0, e)
    }
}

/// Raises the first numeric argument to the power of the second.
#[verifier::loop_isolation(false)]
pub fn builtin_pow(args: Vec<SExpression>, s: &mut Interpreter, fuel: u64) -> (r: Result<
    SExpression,
    String,
>)
    requires
        fuel >= 1,
    ensures
        final(s).last_ret_code == old(s).last_ret_code,
        args@.len() < 2 ==> (r matches Err(m) && m@ == "pow requires two arguments"@ && same_state(
            *old(s),
            *final(s),
        )),
        args@.len() >= 2 ==> (known_num(*old(s), args@[0]@) matches Some(n0) ==> (known_num(
            *old(s),
            args@[1]@,
        ) matches Some(n1) ==> {
            &&& (n1 < 0 ==> (r matches Err(m) && m@ == "negative exponent"@ && same_state(
                *old(s),
                *final(s),
            )))
            &&& (known_pow(n0 as int, n1 as int) matches Some(p) ==> (r matches Ok(v) && v@
                == Sx::Atom(spec_int_text(p)) && same_state(*old(s), *final(s))))
            &&& ((n1 >= 0 && known_pow(n0 as int, n1 as int) is None) ==> (r matches Err(m) && m@
                == "numeric overflow"@ && same_state(*old(s), *final(s))))
        })),
    decreases fuel, 7int,
{
    if args.len() < 2 {
        return Err(String::from_str("pow requires two arguments"));
    }
    let (nx, ny) = two_nums(args, s, fuel)?;
    if ny < 0 {
        return Err(String::from_str("negative exponent"));
    }
    let result: i64 = if nx == 0 {
        if ny == 0 {
            1
        } else {
            0
        }
    } else if nx == 1 {
        1
    } else if nx == -1 {
        if ny % 2 == 0 {
            1
        } else {
            -1
        }
    } else {
        let mut acc: i64 = 1;
        let mut k: i64 = 0;
        while k < ny
            invariant
                0 <= k <= ny,
                pow_from(nx as int, 1, 0, ny as int) == pow_from(
                    nx as int,
                    acc as int,
                    k as int,
                    ny as int,
                ),
            decreases ny - k,
        {
            acc = match acc.checked_mul(nx) {
                Some(m) => m,
                None => {
                    return Err(String::from_str("numeric overflow"));
                },
            };
            k += 1;
        }
        acc
    };
    Ok(SExpression::Atom(int_to_chars(result)))
}

/// Strict less-than on two numeric arguments.
pub fn builtin_lt(args: Vec<SExpression>, s: &mut Interpreter, fuel: u64) -> (r: Result<
    SExpression,
    String,
>)
    requires
        fuel >= 1,
    ensures
        final(s).last_ret_code == old(s).last_ret_code,
        args@.len() < 2 ==> (r matches Err(m) && m@ == "lt requires two arguments"@ && same_state(
            *old(s),
            *final(s),
        )),
        args@.len() >= 2 ==> (known_num(*old(s), args@[0]@) matches Some(n0) ==> (known_num(
            *old(s),
            args@[1]@,
        ) matches Some(n1) ==> (r matches Ok(v) && v@ == Sx::Atom(spec_bool_text(n0 < n1))
            && same_state(*old(s), *final(s))))),
    decreases fuel, 7int,
{
    if args.len() < 2 {
        return Err(String::from_str("lt requires two arguments"));
    }
    let (nx, ny) = two_nums(args, s, fuel)?;
    Ok(SExpression::Atom(bool_chars(nx < ny)))
}

/// Strict greater-than on two numeric arguments.
pub fn builtin_gt(args: Vec<SExpression>, s: &mut Interpreter, fuel: u64) -> (r: Result<
    SExpression,
    String,
>)
    requires
        fuel >= 1,
    ensures
        final(s).last_ret_code == old(s).last_ret_code,
        args@.len() < 2 ==> (r matches Err(m) && m@ == "gt requires two arguments"@ && same_state(
            *old(s),
            *final(s),
        )),
        args@.len() >= 2 ==> (known_num(*old(s), args@[0]@) matches Some(n0) ==> (known_num(
            *old(s),
            args@[1]@,
        ) matches Some(n1) ==> (r matches Ok(v) && v@ == Sx::Atom(spec_bool_text(n0 > n1))
            && same_state(*old(s), *final(s))))),
    decreases fuel, 7int,
{
    if args.len() < 2 {
        return Err(String::from_str("gt requires two arguments"));
    }
    let (nx, ny) = two_nums(args, s, fuel)?;
    Ok(SExpression::Atom(bool_chars(nx > ny)))
}

/// Non-strict less-than on two numeric arguments.
pub fn builtin_leq(args: Vec<SExpression>, s: &mut Interpreter, fuel: u64) -> (r: Result<
    SExpression,
    String,
>)
    requires
        fuel >= 1,
    ensures
        final(s).last_ret_code == old(s).last_ret_code,
        args@.len() < 2 ==> (r matches Err(m) && m@ == "leq requires two arguments"@ && same_state(
            *old(s),
            *final(s),
        )),
        args@.len() >= 2 ==> (known_num(*old(s), args@[0]@) matches Some(n0) ==> (known_num(
            *old(s),
            args@[1]@,
        ) matches Some(n1) ==> (r matches Ok(v) && v@ == Sx::Atom(spec_bool_text(n0 <= n1))
            && same_state(*old(s), *final(s))))),
    decreases fuel, 7int,
{
    if args.len() < 2 {
        return Err(String::from_str("leq requires two arguments"));
    }
    let (nx, ny) = two_nums(args, s, fuel)?;
    Ok(SExpression::Atom(bool_chars(nx <= ny)))
}

/// Non-strict greater-than on two numeric arguments.
pub fn builtin_geq(args: Vec<SExpression>, s: &mut Interpreter, fuel: u64) -> (r: Result<
    SExpression,
    String,
>)
    requires
        fuel >= 1,
    ensures
        final(s).last_ret_code == old(s).last_ret_code,
        args@.len() < 2 ==> (r matches Err(m) && m@ == "geq requires two arguments"@ && same_state(
            *old(s),
            *final(s),
        )),
        args@.len() >= 2 ==> (known_num(*old(s), args@[0]@) matches Some(n0) ==> (known_num(
            *old(s),
            args@[1]@,
        ) matches Some(n1) ==> (r matches Ok(v) && v@ == Sx::Atom(spec_bool_text(n0 >= n1))
            && same_state(*old(s), *final(s))))),
    decreases fuel, 7int,
{
    if args.len() < 2 {
        return Err(String::from_str("geq requires two arguments"));
    }
    let (nx, ny) = two_nums(args, s, fuel)?;
    Ok(SExpression::Atom(bool_chars(nx >= ny)))
}

/// Structural equality of two evaluated arguments, the empty atom and the
/// empty list counting as equal.
pub fn builtin_eq(args: Vec<SExpression>, s: &mut Interpreter, fuel: u64) -> (r: Result<
    SExpression,
    String,
>)
    requires
        fuel >= 1,
    ensures
        final(s).last_ret_code == old(s).last_ret_code,
        args@.len() < 2 ==> (r matches Err(m) && m@ == "eq requires two arguments"@ && same_state(
            *old(s),
            *final(s),
        )),
        args@.len() >= 2 ==> (known_value(*old(s), args@[0]@) matches Some(v0) ==> (known_value(
            *old(s),
            args@[1]@,
        ) matches Some(v1) ==> (r matches Ok(v) && v@ == Sx::Atom(
            spec_bool_text(spec_eq_vals(v0, v1)),
        ) && same_state(*old(s), *final(s))))),
    decreases fuel, 7int,
{
    if args.len() < 2 {
        return Err(String::from_str("eq requires two arguments"));
    }
    let mut args = args;
    let x = args.remove(0);
    let y = args.remove(0);
    let vx = s.eval_expr(x, false, fuel - 1)?;
    let vy = s.eval_expr(y, false, fuel - 1)?;
    Ok(SExpression::Atom(bool_chars(eq_values(&vx, &vy))))
}

/// Evaluates the condition, then exactly one branch.
pub fn builtin_if(args: Vec<SExpression>, s: &mut Interpreter, fuel: u64) -> (r: Result<
    SExpression,
    String,
>)
    requires
        fuel >= 1,
    ensures
        final(s).last_ret_code == old(s).last_ret_code,
        args@.len() < 3 ==> (r matches Err(m) && m@ == "if requires three arguments"@ && same_state(
            *old(s),
            *final(s),
        )),
        args@.len() >= 3 ==> (known_chars(*old(s), args@[0]@) matches Some(t0) ==> (t0 == "true"@
            ==> crate::interpreter::eval_contract(*old(s), *final(s), args@[1]@, false, r))),
        args@.len() >= 3 ==> (known_chars(*old(s), args@[0]@) matches Some(t0) ==> (t0 != "true"@
            ==> crate::interpreter::eval_contract(*old(s), *final(s), args@[2]@, false, r))),
    decreases fuel, 7int,
{
    if args.len() < 3 {
        return Err(String::from_str("if requires three arguments"));
    }
    let ghost args0 = args@;
    let mut args = args;
    let cond = args.remove(0);
    let t = args.remove(0);
    let f = args.remove(0);
    let ghost pre = *s;
    let vc = s.eval_expr(cond, false, fuel - 1)?;
    proof {
        if known_chars(*old(s), args0[0]@) is Some {
            assert(vc@ == known_value(*old(s), args0[0]@)->Some_0);
            assert(vc@.no_call());
            assert(*s == *old(s));
        }
    }
    let b = truthy(&vc)?;
    if b {
        s.eval_expr(t, false, fuel - 1)
    } else {
        s.eval_expr(f, false, fuel - 1)
    }
}

/// Folds boolean or over the evaluated arguments.
#[verifier::loop_isolation(false)]
pub fn builtin_or(args: Vec<SExpression>, s: &mut Interpreter, fuel: u64) -> (r: Result<
    SExpression,
    String,
>)
    requires
        fuel >= 1,
    ensures
        final(s).last_ret_code == old(s).last_ret_code,
        args@.len() == 0 ==> (r matches Ok(v) && v@ == Sx::Atom(spec_bool_text(false))
            && same_state(*old(s), *final(s))),
        known_or_fold(*old(s), args@, false) matches Some(res) ==> (r matches Ok(v) && v@
            == Sx::Atom(spec_bool_text(res)) && same_state(*old(s), *final(s))),
    decreases fuel, 7int,
{
    let ghost args0 = args@;
    let mut acc = false;
    let mut rest = args;
    if rest.len() == 0 {
        return Ok(SExpression::Atom(bool_chars(false)));
    }
    while rest.len() > 0
        invariant
            fuel >= 1,
            s.last_ret_code == old(s).last_ret_code,
            known_or_fold(*old(s), args0, false) matches Some(res) ==> (known_or_fold(
                *old(s),
                rest@,
                acc,
            ) == Some(res) && same_state(*old(s), *s)),
        decreases rest@.len(),
    {
        let ghost rest0 = rest@;
        let ghost pre = *s;
        let a = rest.remove(0);
        proof {
            assert(rest@ =~= rest0.skip(1));
            if known_or_fold(*old(s), args0, false) is Some {
                assert(known_chars(*old(s), rest0[0]@) is Some);
                assert(pre == *old(s));
            }
        }
        let v = s.eval_expr(a, false, fuel - 1)?;
        proof {
            if known_or_fold(*old(s), args0, false) is Some {
                assert(v@ == known_value(*old(s), rest0[0]@)->Some_0);
                assert(v@.no_call());
            }
        }
        let b = truthy(&v)?;
        acc = acc || b;
    }
    proof {
        if known_or_fold(*old(s), args0, false) is Some {
            assert(known_or_fold(*old(s), rest@, acc) == Some(acc));
        }
    }
    Ok(SExpression::Atom(bool_chars(acc)))
}

/// Folds boolean and over the evaluated arguments.
#[verifier::loop_isolation(false)]
pub fn builtin_and(args: Vec<SExpression>, s: &mut Interpreter, fuel: u64) -> (r: Result<
    SExpression,
    String,
>)
    requires
        fuel >= 1,
    ensures
        final(s).last_ret_code == old(s).last_ret_code,
        args@.len() == 0 ==> (r matches Ok(v) && v@ == Sx::Atom(spec_bool_text(true)) && same_state(
            *old(s),
            *final(s),
        )),
        known_and_fold(*old(s), args@, true) matches Some(res) ==> (r matches Ok(v) && v@
            == Sx::Atom(spec_bool_text(res)) && same_state(*old(s), *final(s))),
    decreases fuel, 7int,
{
    let ghost args0 = args@;
    let mut acc = true;
    let mut rest = args;
    if rest.len() == 0 {
        return Ok(SExpression::Atom(bool_chars(true)));
    }
    while rest.len() > 0
        invariant
            fuel >= 1,
            s.last_ret_code == old(s).last_ret_code,
            known_and_fold(*old(s), args0, true) matches Some(res) ==> (known_and_fold(
                *old(s),
                rest@,
                acc,
            ) == Some(res) && same_state(*old(s), *s)),
        decreases rest@.len(),
    {
        let ghost rest0 = rest@;
        let ghost pre = *s;
        let a = rest.remove(0);
        proof {
            assert(rest@ =~= rest0.skip(1));
            if known_and_fold(*old(s), args0, true) is Some {
                assert(known_chars(*old(s), rest0[0]@) is Some);
                assert(pre == *old(s));
            }
        }
        let v = s.eval_expr(a, false, fuel - 1)?;
        proof {
            if known_and_fold(*old(s), args0, true) is Some {
                assert(v@ == known_value(*old(s), rest0[0]@)->Some_0);
                assert(v@.no_call());
            }
        }
        let b = truthy(&v)?;
        acc = acc && b;
    }
    proof {
        if known_and_fold(*old(s), args0, true) is Some {
            assert(known_and_fold(*old(s), rest@, acc) == Some(acc));
        }
    }
    Ok(SExpression::Atom(bool_chars(acc)))
}

/// Negates one boolean argument.
pub fn builtin_not(args: Vec<SExpression>, s: &mut Interpreter, fuel: u64) -> (r: Result<
    SExpression,
    String,
>)
    requires
        fuel >= 1,
    ensures
        final(s).last_ret_code == old(s).last_ret_code,
        args@.len() == 0 ==> (r matches Err(m) && m@ == "not requires one argument"@ && same_state(
            *old(s),
            *final(s),
        )),
        args@.len() >= 1 ==> (known_value(*old(s), args@[0]@) matches Some(v0) ==> (v0 matches
            Sx::Atom(t) ==> {
            &&& (t == "true"@ ==> (r matches Ok(v) && v@ == Sx::Atom(spec_bool_text(false))
                && same_state(*old(s), *final(s))))
            &&& (t == "false"@ ==> (r matches Ok(v) && v@ == Sx::Atom(spec_bool_text(true))
                && same_state(*old(s), *final(s))))
            &&& ((t != "true"@ && t != "false"@) ==> (r matches Err(m) && m@
                == "not expects a boolean argument"@ && same_state(*old(s), *final(s))))
        })),
        args@.len() >= 1 ==> (known_value(*old(s), args@[0]@) matches Some(v0) ==> (v0 matches
            Sx::List(_) ==> (r matches Err(m) && m@ == "not expects a boolean argument"@
            && same_state(*old(s), *final(s))))),
    decreases fuel, 7int,
{
    if args.len() == 0 {
        return Err(String::from_str("not requires one argument"));
    }
    let mut args = args;
    let a = args.remove(0);
    let v = s.eval_expr(a, false, fuel - 1)?;
    proof {
        reveal_strlit("true");
        reveal_strlit("false");
        assert("true"@.len() == 4);
        assert("false"@.len() == 5);
    }
    match &v {
        SExpression::Atom(c) => {
            if chars_eq_str(c, "true") {
                Ok(SExpression::Atom(bool_chars(false)))
            } else if chars_eq_str(c, "false") {
                Ok(SExpression::Atom(bool_chars(true)))
            } else {
                Err(String::from_str("not expects a boolean argument"))
            }
        },
        _ => Err(String::from_str("not expects a boolean argument")),
    }
}

/// The first element of the evaluated argument.
pub fn builtin_first(args: Vec<SExpression>, s: &mut Interpreter, fuel: u64) -> (r: Result<
    SExpression,
    String,
>)
    requires
        fuel >= 1,
    ensures
        final(s).last_ret_code == old(s).last_ret_code,
        args@.len() == 0 ==> (r matches Err(m) && m@ == "first requires one argument"@
            && same_state(*old(s), *final(s))),
        args@.len() >= 1 ==> (known_value(*old(s), args@[0]@) matches Some(v0) ==> {
            &&& (v0 matches Sx::Atom(t) ==> (t.len() > 0 ==> (r matches Ok(v) && v@ == Sx::Atom(
                seq![t[0]],
            ) && same_state(*old(s), *final(s)))))
            &&& (v0 matches Sx::Atom(t) ==> (t.len() == 0 ==> (r matches Err(m) && m@
                == "tried to call first on empty string"@ && same_state(*old(s), *final(s)))))
            &&& (v0 matches Sx::List(es) ==> (es.len() > 0 ==> (r matches Ok(v) && v@ == es[0]
                && same_state(*old(s), *final(s)))))
            &&& (v0 matches Sx::List(es) ==> (es.len() == 0 ==> (r matches Err(m) && m@
                == "tried to call first on empty list"@ && same_state(*old(s), *final(s)))))
        }),
    decreases fuel, 7int,
{
    if args.len() == 0 {
        return Err(String::from_str("first requires one argument"));
    }
    let mut args = args;
    let a = args.remove(0);
    let v = s.eval_expr(a, false, fuel - 1)?;
    first_value(v)
}

/// The evaluated argument without its first element.
pub fn builtin_rest(args: Vec<SExpression>, s: &mut Interpreter, fuel: u64) -> (r: Result<
    SExpression,
    String,
>)
    requires
        fuel >= 1,
    ensures
        final(s).last_ret_code == old(s).last_ret_code,
        args@.len() == 0 ==> (r matches Err(m) && m@ == "rest requires one argument"@ && same_state(
            *old(s),
            *final(s),
        )),
        args@.len() >= 1 ==> (known_value(*old(s), args@[0]@) matches Some(v0) ==> {
            &&& (v0 matches Sx::Atom(t) ==> (t.len() > 0 ==> (r matches Ok(v) && v@ == Sx::Atom(
                t.skip(1),
            ) && same_state(*old(s), *final(s)))))
            &&& (v0 matches Sx::Atom(t) ==> (t.len() == 0 ==> (r matches Err(m) && m@
                == "tried to call rest on empty string"@ && same_state(*old(s), *final(s)))))
            &&& (v0 matches Sx::List(es) ==> (es.len() > 0 ==> (r matches Ok(v) && v@ == Sx::List(
                es.skip(1),
            ) && same_state(*old(s), *final(s)))))
            &&& (v0 matches Sx::List(es) ==> (es.len() == 0 ==> (r matches Err(m) && m@
                == "tried to call rest on empty list"@ && same_state(*old(s), *final(s)))))
        }),
    decreases fuel, 7int,
{
    if args.len() == 0 {
        return Err(String::from_str("rest requires one argument"));
    }
    let mut args = args;
    let a = args.remove(0);
    let v = s.eval_expr(a, false, fuel - 1)?;
    rest_value(v)
}

/// Collects the evaluated arguments into a list.
#[verifier::loop_isolation(false)]
pub fn builtin_list(args: Vec<SExpression>, s: &mut Interpreter, fuel: u64) -> (r: Result<
    SExpression,
    String,
>)
    requires
        fuel >= 1,
    ensures
        final(s).last_ret_code == old(s).last_ret_code,
        r matches Ok(v) ==> (v@ matches Sx::List(es) && es.len() == args@.len()),
        (forall|k: int|
            0 <= k < args@.len() ==> (#[trigger] known_value(*old(s), args@[k]@)) is Some) ==> (
        r matches Ok(v) && v@ == Sx::List(
            Seq::new(args@.len(), |k: int| known_value(*old(s), args@[k]@)->Some_0),
        ) && same_state(*old(s), *final(s))),
    decreases fuel, 7int,
{
    let ghost args0 = args@;
    let ghost total = args@.len();
    let n_args = args.len();
    let mut items: Vec<SExpression> = Vec::new();
    let mut rest = args;
    let mut i: usize = 0;
    while rest.len() > 0
        invariant
            fuel >= 1,
            s.last_ret_code == old(s).last_ret_code,
            i == items@.len(),
            i + rest@.len() == total,
            total == args0.len(),
            n_args == total,
            forall|t: int| 0 <= t < rest@.len() ==> rest@[t] == args0[i + t],
            (forall|k: int|
                0 <= k < args0.len() ==> (#[trigger] known_value(*old(s), args0[k]@)) is Some)
                ==> (same_state(*old(s), *s) && (forall|k: int|
                0 <= k < i ==> (#[trigger] items@[k])@ == known_value(
                    *old(s),
                    args0[k]@,
                )->Some_0)),
        decreases rest@.len(),
    {
        let ghost rest0 = rest@;
        let ghost pre = *s;
        let a = rest.remove(0);
        proof {
            assert(a == args0[i as int]);
            assert forall|t: int| 0 <= t < rest@.len() implies rest@[t] == args0[i + 1 + t] by {
                assert(rest@[t] == rest0[t + 1]);
            }
            if forall|k: int|
                0 <= k < args0.len() ==> (#[trigger] known_value(*old(s), args0[k]@)) is Some {
                assert(known_value(*old(s), args0[i as int]@) is Some);
                assert(pre == *old(s));
            }
        }
        let v = s.eval_expr(a, false, fuel - 1)?;
        let ghost items0 = items@;
        items.push(v);
        proof {
            if forall|k: int|
                0 <= k < args0.len() ==> (#[trigger] known_value(*old(s), args0[k]@)) is Some {
                assert forall|k: int|
                    0 <= k < i + 1 implies (#[trigger] items@[k])@ == known_value(
                    *old(s),
                    args0[k]@,
                )->Some_0 by {
                    if k < i {
                        assert(items@[k] == items0[k]);
                    }
                }
            }
        }
        i += 1;
    }
    proof {
        lemma_views_of(items@);
        if forall|k: int|
            0 <= k < args0.len() ==> (#[trigger] known_value(*old(s), args0[k]@)) is Some {
            assert forall|k: int|
                0 <= k < items@.len() implies views_of(items@)[k] == Seq::new(
                args0.len(),
                |t: int| known_value(*old(s), args0[t]@)->Some_0,
            )[k] by {
                assert(views_of(items@)[k] == items@[k]@);
                assert(items@[k]@ == known_value(*old(s), args0[k]@)->Some_0);
            }
            assert(views_of(items@) =~= Seq::new(
                args0.len(),
                |k: int| known_value(*old(s), args0[k]@)->Some_0,
            ));
        }
    }
    Ok(SExpression::List(items))
}

/// Joins the first evaluated argument onto the second.
pub fn builtin_cons(args: Vec<SExpression>, s: &mut Interpreter, fuel: u64) -> (r: Result<
    SExpression,
    String,
>)
    requires
        fuel >= 1,
    ensures
        final(s).last_ret_code == old(s).last_ret_code,
        args@.len() < 2 ==> (r matches Err(m) && m@ == "cons requires two arguments"@ && same_state(
            *old(s),
            *final(s),
        )),
        args@.len() >= 2 ==> (known_value(*old(s), args@[0]@) matches Some(v0) ==> (known_value(
            *old(s),
            args@[1]@,
        ) matches Some(v1) ==> {
            &&& (v0 matches Sx::Atom(c) ==> (v1 matches Sx::List(l) ==> ((c.len() == 1 && l.len()
                == 0) ==> (r matches Ok(o) && o@ == Sx::Atom(c) && same_state(
                *old(s),
                *final(s),
            )))))
            &&& (v0 matches Sx::Atom(c) ==> (v1 matches Sx::Atom(t) ==> (c.len() == 1 ==> (
            r matches Ok(o) && o@ == Sx::Atom(c + t) && same_state(*old(s), *final(s))))))
            &&& (v1 matches Sx::List(l) ==> (!(v0 matches Sx::Atom(c) && c.len() == 1 && l.len()
                == 0) ==> (r matches Ok(o) && o@ == Sx::List(seq![v0] + l) && same_state(
                *old(s),
                *final(s),
            ))))
            &&& (v1 matches Sx::Atom(t) ==> (!(v0 matches Sx::Atom(c) && c.len() == 1) ==> (
            r matches Err(m) && m@ == "cons second argument must be list-like"@ && same_state(
                *old(s),
                *final(s),
            ))))
        })),
    decreases fuel, 7int,
{
    if args.len() < 2 {
        return Err(String::from_str("cons requires two arguments"));
    }
    let ghost args0 = args@;
    let mut args = args;
    let x = args.remove(0);
    let xs = args.remove(0);
    let ghost pre = *s;
    let vx = s.eval_expr(x, false, fuel - 1)?;
    proof {
        if known_value(*old(s), args0[0]@) is Some {
            assert(vx@ == known_value(*old(s), args0[0]@)->Some_0);
            assert(*s == *old(s));
        }
    }
    let ghost mid = *s;
    let vxs = s.eval_expr(xs, false, fuel - 1)?;
    proof {
        if known_value(*old(s), args0[0]@) is Some && known_value(*old(s), args0[1]@) is Some {
            assert(mid == *old(s));
            assert(vxs@ == known_value(*old(s), args0[1]@)->Some_0);
            assert(*s == *old(s));
        }
    }
    cons_values(vx, vxs)
}

} // verus!

verus! {

/// A hygienic parameter name: the original name bracketed by delimiters
/// with the counter value, unique for the interpreter's lifetime.
pub open spec fn spec_mint(name: Seq<char>, id: int) -> Seq<char> {
    seq!['#'] + name + seq!['#'] + spec_digits(id) + seq!['#']
}

/// The outcome of hygienic renaming: the fresh parameter names in
/// declaration order, the rewritten body, and the next counter value.
pub struct Renamed {
    pub names: Seq<Seq<char>>,
    pub body: Sx,
    pub next: int,
}

/// Renames each parameter in order, rewriting the body as it goes.
pub open spec fn spec_rename(vars: Seq<Seq<char>>, tree: Sx, id: int) -> Renamed
    decreases vars,
{
    if vars.len() == 0 {
        Renamed { names: Seq::empty(), body: tree, next: id }
    } else {
        let fresh = spec_mint(vars[0], id);
        let rec = spec_rename(vars.skip(1), tree.subst(vars[0], Sx::Atom(fresh)), id + 1);
        Renamed { names: seq![fresh] + rec.names, body: rec.body, next: rec.next }
    }
}

/// Builds the hygienic name for one parameter.
pub fn mint_chars(name: &Vec<char>, id: usize) -> (r: Vec<char>)
    ensures
        r@ == spec_mint(name@, id as int),
{
    let mut out: Vec<char> = Vec::new();
    out.push('#');
    let mut mid = clone_chars(name);
    out.append(&mut mid);
    out.push('#');
    let mut digits = crate::text::digit_chars(id as u64);
    out.append(&mut digits);
    out.push('#');
    proof {
        assert(out@ =~= spec_mint(name@, id as int));
    }
    out
}

/// Binds a name to an expression, unevaluated; the definition table gains
/// the binding in front.
pub fn builtin_def(args: Vec<SExpression>, s: &mut Interpreter, fuel: u64) -> (r: Result<
    SExpression,
    String,
>)
    requires
        fuel >= 1,
    ensures
        final(s).last_ret_code == old(s).last_ret_code,
        args@[0]@ matches Sx::Atom(nm) ==> (args@.len() >= 2 ==> {
            &&& final(s).defs@.len() == old(s).defs@.len() + 1
            &&& final(s).defs@[0].0@ == nm
            &&& final(s).defs@[0].1@ == args@[1]@
            &&& final(s).defs@.skip(1) == old(s).defs@
            &&& crate::interpreter::same_state_except_defs(*old(s), *final(s))
            &&& r matches Ok(v) && v@ == Sx::Atom("defined "@ + nm)
        }),
        !(args@.len() >= 2 && args@[0]@ matches Sx::Atom(nm)) ==> (r matches Err(m) && m@
            == "def requires two arguments"@ && same_state(*old(s), *final(s))),
    decreases fuel, 7int,
{
    if args.len() < 2 {
        return Err(String::from_str("def requires two arguments"));
    }
    let mut args = args;
    let name_e = args.remove(0);
    let val = args.remove(0);
    match name_e {
        SExpression::Atom(name) => {
            let ghost pre = s.defs@;
            let msg_prefix = str_to_chars("defined ");
            let msg = concat_chars(&msg_prefix, &name);
            s.defs.insert(0, (name, val));
            proof {
                assert(final(s).defs@.skip(1) =~= pre);
            }
            Ok(SExpression::Atom(msg))
        },
        _ => Err(String::from_str("def requires two arguments")),
    }
}

/// Defines a user function: every parameter is renamed to a fresh hygienic
/// name inside the body before it is stored, so that two functions reusing
/// a parameter name can never collide under substitution.
#[verifier::loop_isolation(false)]
pub fn builtin_defun(args: Vec<SExpression>, s: &mut Interpreter, fuel: u64) -> (r: Result<
    SExpression,
    String,
>)
    requires
        fuel >= 1,
    ensures
        final(s).last_ret_code == old(s).last_ret_code,
        args@[0]@ matches Sx::Atom(nm) ==> ((args@.len() >= 3 && args@[1]@.leaves_of().len()
            <= usize::MAX - old(s).id) ==> {
            let rn = spec_rename(args@[1]@.leaves_of(), args@[2]@, old(s).id as int);
            &&& final(s).funcs@.len() == old(s).funcs@.len() + 1
            &&& final(s).funcs@[0].0@ == nm
            &&& crate::lexer::word_views(final(s).funcs@[0].1.0@) == rn.names
            &&& final(s).funcs@[0].1.1@ == rn.body
            &&& final(s).funcs@.skip(1) == old(s).funcs@
            &&& final(s).id == rn.next
            &&& crate::interpreter::same_state_except_funcs(*old(s), *final(s))
            &&& r matches Ok(v) && v@ == Sx::Atom("defined "@ + nm)
        }),
        !(args@.len() >= 3 && args@[0]@ matches Sx::Atom(nm)) ==> (r matches Err(m) && m@
            == "defun requires three arguments"@ && same_state(*old(s), *final(s))),
    decreases fuel, 7int,
{
    if args.len() < 3 {
        return Err(String::from_str("defun requires three arguments"));
    }
    let ghost args0 = args@;
    let mut args = args;
    let name_e = args.remove(0);
    let vars_e = args.remove(0);
    let tree0 = args.remove(0);
    let ghost body0 = tree0@;
    let name = match name_e {
        SExpression::Atom(n) => n,
        _ => {
            return Err(String::from_str("defun requires three arguments"));
        },
    };
    let ghost all_vars = vars_e@.leaves_of();
    let leaves = vars_e.list();
    if s.id > usize::MAX - leaves.len() {
        return Err(String::from_str("identifier space exhausted"));
    }
    let ghost id0 = s.id as int;
    let ghost full = spec_rename(all_vars, tree0@, id0);
    let m = leaves.len();
    let mut vs: Vec<Vec<char>> = Vec::new();
    let mut tree = tree0;
    let mut k: usize = 0;
    proof {
        assert(all_vars.skip(0) =~= all_vars);
        assert(crate::lexer::word_views(vs@) =~= Seq::<Seq<char>>::empty());
        assert(Seq::<Seq<char>>::empty() + full.names =~= full.names);
    }
    while k < m
        invariant
            k <= m,
            m == all_vars.len(),
            m == leaves@.len(),
            forall|j: int| 0 <= j < m ==> leaves@[j]@ == all_vars[j],
            s.id == id0 + k,
            s.id <= usize::MAX - (m - k),
            vs@.len() == k,
            spec_rename(all_vars, body0, id0) == (Renamed {
                names: crate::lexer::word_views(vs@) + spec_rename(
                    all_vars.skip(k as int),
                    tree@,
                    s.id as int,
                ).names,
                body: spec_rename(all_vars.skip(k as int), tree@, s.id as int).body,
                next: spec_rename(all_vars.skip(k as int), tree@, s.id as int).next,
            }),
            crate::interpreter::same_state_except_funcs(*old(s), *s),
            s.funcs == old(s).funcs,
        decreases m - k,
    {
        let ghost rem = all_vars.skip(k as int);
        proof {
            assert(rem[0] == all_vars[k as int]);
            assert(rem.skip(1) =~= all_vars.skip(k as int + 1));
        }
        let var = clone_chars(&leaves[k]);
        let fresh = mint_chars(&var, s.id);
        let fresh_atom = SExpression::Atom(clone_chars(&fresh));
        tree = tree.replace(&var, fresh_atom);
        let ghost vs_pre = vs@;
        vs.push(fresh);
        proof {
            assert(crate::lexer::word_views(vs@) =~= crate::lexer::word_views(vs_pre).push(
                spec_mint(all_vars[k as int], id0 + k),
            ));
            assert(crate::lexer::word_views(vs_pre) + (seq![
                spec_mint(all_vars[k as int], id0 + k),
            ] + spec_rename(all_vars.skip(k as int + 1), tree@, id0 + k + 1).names)
                =~= crate::lexer::word_views(vs@) + spec_rename(
                all_vars.skip(k as int + 1),
                tree@,
                id0 + k + 1,
            ).names);
        }
        s.id = s.id + 1;
        k += 1;
    }
    proof {
        assert(all_vars.skip(m as int) =~= Seq::<Seq<char>>::empty());
        assert(crate::lexer::word_views(vs@) + Seq::<Seq<char>>::empty() =~= crate::lexer::word_views(vs@));
    }
    let msg_prefix = str_to_chars("defined ");
    let msg = concat_chars(&msg_prefix, &name);
    let ghost funcs_pre = s.funcs@;
    s.funcs.insert(0, (name, (vs, tree)));
    proof {
        assert(final(s).funcs@.skip(1) =~= funcs_pre);
    }
    Ok(SExpression::Atom(msg))
}

/// Records an alias: the head symbol and the flattened words that replace
/// it at lex time.
#[verifier::loop_isolation(false)]
pub fn builtin_alias(args: Vec<SExpression>, s: &mut Interpreter, fuel: u64) -> (r: Result<
    SExpression,
    String,
>)
    requires
        fuel >= 1,
    ensures
        final(s).last_ret_code == old(s).last_ret_code,
        !(args@.len() >= 1 && args@[0]@ matches Sx::Atom(nm)) ==> (r matches Err(m) && m@
            == "alias requires two arguments"@ && same_state(*old(s), *final(s))),
        r matches Ok(v) ==> ({
            &&& args@.len() >= 1
            &&& final(s).aliases@.len() == old(s).aliases@.len() + 1
            &&& final(s).aliases@[0].0@ == args@[0]@->Atom_0
            &&& crate::lexer::word_views(final(s).aliases@[0].1@) == Sx::leaves_concat(
                views_of(args@).skip(1),
            )
            &&& final(s).aliases@.skip(1) == old(s).aliases@
            &&& crate::interpreter::same_state_except_aliases(*old(s), *final(s))
            &&& v@ == Sx::Atom("created alias"@)
        }),
        (args@.len() >= 1 && args@[0]@ matches Sx::Atom(nm)) ==> r is Ok,
    decreases fuel, 7int,
{
    if args.len() == 0 {
        return Err(String::from_str("alias requires two arguments"));
    }
    let ghost args0 = args@;
    proof {
        crate::lemma_views_of(args0);
    }
    let mut args = args;
    let from_e = args.remove(0);
    let from = match from_e {
        SExpression::Atom(n) => n,
        _ => {
            return Err(String::from_str("alias requires two arguments"));
        },
    };
    let ghost tail_views = views_of(args0).skip(1);
    let mut words: Vec<Vec<char>> = Vec::new();
    let mut rest = args;
    let mut i: usize = 0;
    proof {
        assert(views_of(args0).skip(1).take(0) =~= Seq::<Sx>::empty());
    }
    while rest.len() > 0
        invariant
            fuel >= 1,
            i + rest@.len() + 1 == args0.len(),
            forall|t: int| 0 <= t < rest@.len() ==> rest@[t] == args0[i + 1 + t],
            tail_views == views_of(args0).skip(1),
            tail_views.len() == args0.len() - 1,
            forall|t: int| 0 <= t < tail_views.len() ==> tail_views[t] == args0[t + 1]@,
            crate::lexer::word_views(words@) == Sx::leaves_concat(tail_views.take(i as int)),
        decreases rest@.len(),
    {
        let ghost rest0 = rest@;
        let a = rest.remove(0);
        proof {
            assert(a == args0[i + 1]);
            assert forall|t: int| 0 <= t < rest@.len() implies rest@[t] == args0[i + 2 + t] by {
                assert(rest@[t] == rest0[t + 1]);
            }
            crate::lemma_leaves_concat_step(tail_views, i as int);
        }
        let mut leaves = a.list();
        let ghost all_leaves = tail_views[i as int].leaves_of();
        let mut k: usize = 0;
        let m = leaves.len();
        while k < m
            invariant
                k <= m,
                m == leaves@.len(),
                m == all_leaves.len(),
                forall|t: int| 0 <= t < m ==> leaves@[t]@ == all_leaves[t],
                crate::lexer::word_views(words@) == Sx::leaves_concat(tail_views.take(i as int))
                    + all_leaves.take(k as int),
            decreases m - k,
        {
            let ghost words0 = words@;
            words.push(crate::clone_chars(&leaves[k]));
            proof {
                assert(all_leaves.take(k + 1 as int) =~= all_leaves.take(k as int).push(
                    all_leaves[k as int],
                ));
                assert forall|t: int|
                    0 <= t < words@.len() implies crate::lexer::word_views(words@)[t] == (
                Sx::leaves_concat(tail_views.take(i as int)) + all_leaves.take(k + 1 as int))[
                t] by {
                    if t < words0.len() {
                        assert(crate::lexer::word_views(words0)[t] == words0[t]@);
                        assert(words@[t] == words0[t]);
                    }
                }
                assert(crate::lexer::word_views(words@) =~= Sx::leaves_concat(
                    tail_views.take(i as int),
                ) + all_leaves.take(k + 1 as int));
            }
            k += 1;
        }
        proof {
            assert(all_leaves.take(m as int) =~= all_leaves);
        }
        i += 1;
    }
    proof {
        assert(tail_views.take(i as int) =~= tail_views);
    }
    let ghost pre = s.aliases@;
    s.aliases.insert(0, (from, words));
    proof {
        assert(final(s).aliases@.skip(1) =~= pre);
    }
    Ok(SExpression::Atom(str_to_chars("created alias")))
}

/// The body after processing `let` binding pairs whose bound values are
/// statically known: each pair `(var val)` substitutes the value into the
/// body, in order; `None` when a pair is not of that shape or a value's
/// outcome is not known here.
pub open spec fn let_subst(st: Interpreter, ps: Seq<Sx>, body: Sx) -> Option<Sx>
    decreases ps.len(),
{
    if ps.len() == 0 {
        Option::Some(body)
    } else {
        match ps[0] {
            Sx::Call(inner) => if inner.len() >= 2 {
                match inner[0] {
                    Sx::Atom(f) => match known_value(st, inner[1]) {
                        Option::Some(kv) => let_subst(st, ps.skip(1), body.subst(f, kv)),
                        Option::None => Option::None,
                    },
                    _ => Option::None,
                }
            } else {
                Option::None
            },
            _ => Option::None,
        }
    }
}

/// Processes `let` binding pairs in order, substituting each evaluated
/// value into the body, then evaluates the fully substituted body.
#[verifier::loop_isolation(false)]
pub fn builtin_let(args: Vec<SExpression>, s: &mut Interpreter, fuel: u64) -> (r: Result<
    SExpression,
    String,
>)
    requires
        fuel >= 1,
    ensures
        final(s).last_ret_code == old(s).last_ret_code,
        !(args@.len() >= 2 && args@[0]@ matches Sx::Call(_)) ==> (r matches Err(m) && m@
            == "let requires two arguments"@ && same_state(*old(s), *final(s))),
        args@.len() >= 2 ==> (args@[0]@ matches Sx::Call(ps) ==> (let_subst(
            *old(s),
            ps,
            args@[1]@,
        ) matches Some(b) ==> crate::interpreter::eval_contract(*old(s), *final(s), b, false, r))),
    decreases fuel, 7int,
{
    if args.len() < 2 {
        return Err(String::from_str("let requires two arguments"));
    }
    let ghost args0 = args@;
    let mut args = args;
    let pairs_e = args.remove(0);
    let mut body = args.remove(0);
    let mut pairs = match pairs_e {
        SExpression::Call(ps) => ps,
        _ => {
            return Err(String::from_str("let requires two arguments"));
        },
    };
    let ghost target = let_subst(*old(s), views_of(pairs@), args0[1]@);
    let mut stop = false;
    while pairs.len() >= 1 && !stop
        invariant
            fuel >= 1,
            s.last_ret_code == old(s).last_ret_code,
            target is Some ==> (!stop && same_state(*old(s), *s) && let_subst(
                *old(s),
                views_of(pairs@),
                body@,
            ) == target),
        decreases pairs@.len(), (if stop {
            0int
        } else {
            1int
        }),
    {
        let ghost vs0 = views_of(pairs@);
        proof {
            lemma_views_of(pairs@);
        }
        let head_is_pair = matches!(&pairs[0], SExpression::Call(_));
        if head_is_pair {
            // a binding pair: (var val)
            let ghost pairs0 = pairs@;
            let pair = pairs.remove(0);
            proof {
                assert(pair@ == vs0[0]);
                lemma_views_of(pairs@);
                assert(pairs0.remove(0) =~= pairs0.skip(1));
                assert forall|t: int| 0 <= t < pairs@.len() implies views_of(pairs@)[t] == vs0[t
                    + 1] by {
                    assert(pairs@[t] == pairs0.skip(1)[t]);
                    assert(pairs0.skip(1)[t] == pairs0[t + 1]);
                    assert(views_of(pairs@)[t] == pairs@[t]@);
                    assert(vs0[t + 1] == pairs0[t + 1]@);
                }
                assert(views_of(pairs@) =~= vs0.skip(1));
            }
            let mut inner = match pair {
                SExpression::Call(p) => p,
                _ => {
                    proof {
                        assert(false);
                    }
                    Vec::new()
                },
            };
            proof {
                lemma_views_of(inner@);
            }
            if inner.len() < 2 {
                proof {
                    if target is Some {
                        assert(vs0[0] matches Sx::Call(iv) && iv.len() >= 2);
                        assert(false);
                    }
                }
                stop = true;
            } else {
                let ghost inner0 = inner@;
                let from_e = inner.remove(0);
                let to_e = inner.remove(0);
                proof {
                    assert(from_e@ == views_of(inner0)[0]);
                    assert(to_e@ == views_of(inner0)[1]) by {
                        assert(to_e == inner0.remove(0)[0]);
                        assert(inner0.remove(0) =~= inner0.skip(1));
                        assert(inner0.skip(1)[0] == inner0[1]);
                    }
                }
                match from_e {
                    SExpression::Atom(n) => {
                        let ghost pre = *s;
                        proof {
                            if target is Some {
                                assert(vs0[0] matches Sx::Call(iv) && known_value(
                                    *old(s),
                                    iv[1],
                                ) is Some);
                                assert(pre == *old(s));
                            }
                        }
                        let to_val = s.eval_expr(to_e, false, fuel - 1)?;
                        proof {
                            if target is Some {
                                assert(to_val@ == known_value(*old(s), views_of(inner0)[1])
                                    ->Some_0);
                                assert(*s == *old(s));
                            }
                        }
                        body = body.replace(&n, to_val);
                    },
                    _ => {
                        proof {
                            if target is Some {
                                assert(vs0[0] matches Sx::Call(iv) && iv[0] matches Sx::Atom(_));
                                assert(false);
                            }
                        }
                        stop = true;
                    },
                }
            }
        } else {
            proof {
                if target is Some {
                    assert(vs0[0] matches Sx::Call(_));
                    assert(pairs@[0]@ == vs0[0]);
                    assert(false);
                }
            }
            // the flat form: var val var val ...
            if pairs.len() < 2 {
                stop = true;
            } else {
                let from_e = pairs.remove(0);
                let to_e = pairs.remove(0);
                match from_e {
                    SExpression::Atom(n) => {
                        let to_val = s.eval_expr(to_e, false, fuel - 1)?;
                        body = body.replace(&n, to_val);
                    },
                    _ => {
                        stop = true;
                    },
                }
            }
        }
    }
    proof {
        if target is Some {
            assert(views_of(pairs@).len() == 0);
            assert(views_of(pairs@) =~= Seq::<Sx>::empty());
            assert(body@ == target->Some_0);
            assert(*s == *old(s));
        }
    }
    s.eval_expr(body, false, fuel - 1)
}

/// Reads an environment variable, as the interpreter's environment has it.
pub fn builtin_getenv(args: Vec<SExpression>, s: &mut Interpreter, fuel: u64) -> (r: Result<
    SExpression,
    String,
>)
    requires
        fuel >= 1,
    ensures
        final(s).last_ret_code == old(s).last_ret_code,
        args@.len() == 0 ==> (r matches Err(m) && m@ == "getenv requires one argument"@
            && same_state(*old(s), *final(s))),
        args@.len() >= 1 ==> (known_chars(*old(s), args@[0]@) matches Some(key) ==> {
            &&& (env_find(old(s).env@, key) matches Some(val) ==> (r matches Ok(v) && v@
                == Sx::Atom(val) && same_state(*old(s), *final(s))))
            &&& (env_find(old(s).env@, key) is None ==> (r matches Err(m) && m@
                == "env var not found"@ && same_state(*old(s), *final(s))))
        }),
    decreases fuel, 7int,
{
    if args.len() == 0 {
        return Err(String::from_str("getenv requires one argument"));
    }
    let ghost args0 = args@;
    let mut args = args;
    let a = args.remove(0);
    let ghost pre = *s;
    let v = s.eval_expr(a, false, fuel - 1)?;
    proof {
        if known_chars(*old(s), args0[0]@) is Some {
            assert(v@ == known_value(*old(s), args0[0]@)->Some_0);
            assert(v@.no_call());
            assert(*s == *old(s));
        }
    }
    if !crate::has_no_call(&v) {
        return Err(String::from_str("getenv argument is not a value"));
    }
    let key = v.ident();
    match crate::interpreter::env_get(&s.env, &key) {
        Some(val) => Ok(SExpression::Atom(clone_chars(val))),
        None => Err(String::from_str("env var not found")),
    }
}

/// Sets an environment variable in the interpreter's environment; spawned
/// commands see it.
pub fn builtin_export(args: Vec<SExpression>, s: &mut Interpreter, fuel: u64) -> (r: Result<
    SExpression,
    String,
>)
    requires
        fuel >= 1,
    ensures
        final(s).last_ret_code == old(s).last_ret_code,
        args@.len() < 2 ==> (r matches Err(m) && m@ == "export requires two arguments"@
            && same_state(*old(s), *final(s))),
        r matches Ok(v) ==> (v@ == Sx::Atom(Seq::<char>::empty())),
        args@.len() >= 2 ==> (known_chars(*old(s), args@[0]@) matches Some(key) ==> (known_chars(
            *old(s),
            args@[1]@,
        ) matches Some(val) ==> (r matches Ok(v) && env_find(final(s).env@, key) == Some(val)
            && final(s).env@.len() == old(s).env@.len() + 1 && final(s).env@.skip(1)
            == old(s).env@ && crate::interpreter::same_state_except_env(*old(s), *final(s))))),
    decreases fuel, 7int,
{
    if args.len() < 2 {
        return Err(String::from_str("export requires two arguments"));
    }
    let ghost args0 = args@;
    let mut args = args;
    let a = args.remove(0);
    let b = args.remove(0);
    let ghost pre = *s;
    let va = s.eval_expr(a, false, fuel - 1)?;
    if !crate::has_no_call(&va) {
        return Err(String::from_str("export variable is not a value"));
    }
    proof {
        if known_chars(*old(s), args0[0]@) is Some {
            assert(va@ == known_value(*old(s), args0[0]@)->Some_0);
            assert(va@.no_call());
            assert(*s == *old(s));
        }
    }
    let ghost mid = *s;
    let vb = s.eval_expr(b, false, fuel - 1)?;
    proof {
        if known_chars(*old(s), args0[0]@) is Some && known_chars(*old(s), args0[1]@) is Some {
            assert(mid == *old(s));
            assert(vb@ == known_value(*old(s), args0[1]@)->Some_0);
            assert(vb@.no_call());
            assert(*s == *old(s));
        }
    }
    if !crate::has_no_call(&vb) {
        return Err(String::from_str("export value is not a value"));
    }
    let key = va.ident();
    let val = vb.ident();
    let ghost env0 = s.env@;
    s.env.insert(0, (key, val));
    proof {
        assert(s.env@.skip(1) =~= env0);
    }
    let empty: Vec<char> = Vec::new();
    proof {
        assert(empty@ =~= Seq::<char>::empty());
    }
    Ok(SExpression::Atom(empty))
}

/// Changes the working directory, to the evaluated argument or to `HOME`.
pub fn builtin_cd(args: Vec<SExpression>, s: &mut Interpreter, fuel: u64) -> (r: Result<
    SExpression,
    String,
>)
    requires
        fuel >= 1,
    ensures
        final(s).last_ret_code == old(s).last_ret_code,
        r matches Ok(v) ==> (v@ == Sx::Atom(Seq::<char>::empty())),
        (args@.len() == 0 && env_find(old(s).env@, "HOME"@) is None) ==> (r matches Err(m) && m@
            == "Failed to change directory"@ && same_state(*old(s), *final(s))),
    decreases fuel, 7int,
{
    let target: Vec<char> = if args.len() > 0 {
        let mut args = args;
        let a = args.remove(0);
        let v = s.eval_expr(a, false, fuel - 1)?;
        if !crate::has_no_call(&v) {
            return Err(String::from_str("Failed to change directory"));
        }
        v.ident()
    } else {
        let home_key = str_to_chars("HOME");
        match crate::interpreter::env_get(&s.env, &home_key) {
            Some(h) => clone_chars(h),
            None => {
                return Err(String::from_str("Failed to change directory"));
            },
        }
    };
    let target_s = chars_to_string(&target);
    match crate::sys::sys_chdir(&target_s) {
        Ok(_) => {
            let empty: Vec<char> = Vec::new();
            proof {
                assert(empty@ =~= Seq::<char>::empty());
            }
            Ok(SExpression::Atom(empty))
        },
        Err(cause) => {
            let prefix = str_to_chars("Failed to change directory: ");
            let cause_chars = crate::text::str_to_chars(cause.as_str());
            let msg = concat_chars(&prefix, &cause_chars);
            Err(chars_to_string(&msg))
        },
    }
}

/// Requests that the shell terminate: raises the exit flag and abandons the
/// surrounding evaluation.
pub fn builtin_exit(args: Vec<SExpression>, s: &mut Interpreter, fuel: u64) -> (r: Result<
    SExpression,
    String,
>)
    requires
        fuel >= 1,
    ensures
        final(s).last_ret_code == old(s).last_ret_code,
        final(s).exit_requested,
        crate::interpreter::same_state_except_exit(*old(s), *final(s)),
        r matches Err(m) && m@ == "exit"@,
    decreases fuel, 7int,
{
    s.exit_requested = true;
    Err(String::from_str("exit"))
}

/// Writes every byte of the buffer to the descriptor, in order. Success and
/// failure rest with the descriptor; nothing more can be promised of the
/// write than the wrappers state.
#[verifier::loop_isolation(false)]
fn write_all(fd: i32, buf: &Vec<u8>) -> (r: Result<(), String>) {
    let n = buf.len();
    let mut written: usize = 0;
    while written < n
        invariant
            written <= n,
        decreases n - written,
    {
        match crate::sys::fd_write(fd, buf, written) {
            Ok(k) => {
                if k == 0 {
                    return Err(String::from_str("write made no progress"));
                }
                written += k;
            },
            Err(m) => {
                return Err(m);
            },
        }
    }
    Ok(())
}

/// Evaluates two arguments to text: the content to write and the file path,
/// each the flattened text of its evaluated argument.
fn content_and_path(args: Vec<SExpression>, s: &mut Interpreter, fuel: u64) -> (r: Result<
    (Vec<char>, String),
    String,
>)
    requires
        fuel >= 1,
        args@.len() >= 2,
    ensures
        final(s).last_ret_code == old(s).last_ret_code,
        known_chars(*old(s), args@[0]@) matches Some(content) ==> (known_chars(
            *old(s),
            args@[1]@,
        ) matches Some(path) ==> (r matches Ok(p) && p.0@ == content && p.1@ == path
            && same_state(*old(s), *final(s)))),
    decreases fuel, 6int,
{
    let ghost args0 = args@;
    let mut args = args;
    let content_e = args.remove(0);
    let file_e = args.remove(0);
    let vc = s.eval_expr(content_e, false, fuel - 1)?;
    proof {
        if known_chars(*old(s), args0[0]@) is Some {
            assert(vc@ == known_value(*old(s), args0[0]@)->Some_0);
            assert(vc@.no_call());
            assert(*s == *old(s));
        }
    }
    if !crate::has_no_call(&vc) {
        return Err(String::from_str("file content is not a value"));
    }
    let ghost mid = *s;
    let vf = s.eval_expr(file_e, false, fuel - 1)?;
    proof {
        if known_chars(*old(s), args0[0]@) is Some && known_chars(*old(s), args0[1]@) is Some {
            assert(mid == *old(s));
            assert(vf@ == known_value(*old(s), args0[1]@)->Some_0);
            assert(vf@.no_call());
            assert(*s == *old(s));
        }
    }
    if !crate::has_no_call(&vf) {
        return Err(String::from_str("file path is not a value"));
    }
    let content_chars = vc.ident();
    let path_chars = vf.ident();
    Ok((content_chars, chars_to_string(&path_chars)))
}

/// Overwrites a file with the evaluated content; the second argument names
/// the file.
pub fn builtin_file_write(args: Vec<SExpression>, s: &mut Interpreter, fuel: u64) -> (r: Result<
    SExpression,
    String,
>)
    requires
        fuel >= 1,
    ensures
        final(s).last_ret_code == old(s).last_ret_code,
        args@.len() < 2 ==> (r matches Err(m) && m@ == "write requires two arguments"@
            && same_state(*old(s), *final(s))),
        r matches Ok(v) ==> (v@ == Sx::Atom(Seq::<char>::empty())),
    decreases fuel, 7int,
{
    if args.len() < 2 {
        return Err(String::from_str("write requires two arguments"));
    }
    let (content_chars, path) = content_and_path(args, s, fuel)?;
    let content_s = chars_to_string(&content_chars);
    let bytes = content_s.as_str().as_bytes_vec();
    let fd = match crate::sys::open_write_trunc(&path) {
        Ok(fd) => fd,
        Err(m) => {
            return Err(m);
        },
    };
    let res = write_all(fd, &bytes);
    crate::sys::fd_close(fd);
    match res {
        Ok(_) => {
            let empty: Vec<char> = Vec::new();
            proof {
                assert(empty@ =~= Seq::<char>::empty());
            }
            Ok(SExpression::Atom(empty))
        },
        Err(m) => Err(m),
    }
}

/// Appends the evaluated content to a file; the second argument names the
/// file.
pub fn builtin_file_append(args: Vec<SExpression>, s: &mut Interpreter, fuel: u64) -> (r: Result<
    SExpression,
    String,
>)
    requires
        fuel >= 1,
    ensures
        final(s).last_ret_code == old(s).last_ret_code,
        args@.len() < 2 ==> (r matches Err(m) && m@ == "append requires two arguments"@
            && same_state(*old(s), *final(s))),
        r matches Ok(v) ==> (v@ == Sx::Atom(Seq::<char>::empty())),
    decreases fuel, 7int,
{
    if args.len() < 2 {
        return Err(String::from_str("append requires two arguments"));
    }
    let (content_chars, path) = content_and_path(args, s, fuel)?;
    let content_s = chars_to_string(&content_chars);
    let bytes = content_s.as_str().as_bytes_vec();
    let fd = match crate::sys::open_append(&path) {
        Ok(fd) => fd,
        Err(m) => {
            return Err(m);
        },
    };
    let res = write_all(fd, &bytes);
    crate::sys::fd_close(fd);
    match res {
        Ok(_) => {
            let empty: Vec<char> = Vec::new();
            proof {
                assert(empty@ =~= Seq::<char>::empty());
            }
            Ok(SExpression::Atom(empty))
        },
        Err(m) => Err(m),
    }
}

/// The largest file the `read` builtin will take in, in bytes.
pub const READ_LIMIT: usize = 67108864;

/// Reads a whole file as one atom of text.
#[verifier::loop_isolation(false)]
pub fn builtin_file_read(args: Vec<SExpression>, s: &mut Interpreter, fuel: u64) -> (r: Result<
    SExpression,
    String,
>)
    requires
        fuel >= 1,
    ensures
        final(s).last_ret_code == old(s).last_ret_code,
        args@.len() == 0 ==> (r matches Err(m) && m@ == "read requires one argument"@ && same_state(
            *old(s),
            *final(s),
        )),
        r matches Ok(v) ==> exists|bytes: Seq<u8>| v@ == Sx::Atom(crate::sys::lossy_chars(bytes)),
    decreases fuel, 7int,
{
    if args.len() == 0 {
        return Err(String::from_str("read requires one argument"));
    }
    let mut args = args;
    let file_e = args.remove(0);
    let vf = s.eval_expr(file_e, false, fuel - 1)?;
    if !crate::has_no_call(&vf) {
        return Err(String::from_str("file path is not a value"));
    }
    let path_chars = vf.ident();
    let path = chars_to_string(&path_chars);
    let fd = match crate::sys::open_read(&path) {
        Ok(fd) => fd,
        Err(m) => {
            return Err(m);
        },
    };
    let mut out: Vec<u8> = Vec::new();
    loop
        invariant
            out@.len() <= READ_LIMIT,
        decreases READ_LIMIT - out@.len(),
    {
        match crate::sys::fd_read_chunk(fd) {
            Ok(chunk) => {
                if chunk.len() == 0 {
                    break ;
                }
                if out.len() > READ_LIMIT - chunk.len() {
                    crate::sys::fd_close(fd);
                    return Err(String::from_str("read: file too large"));
                }
                let mut chunk = chunk;
                out.append(&mut chunk);
            },
            Err(m) => {
                crate::sys::fd_close(fd);
                return Err(m);
            },
        }
    }
    crate::sys::fd_close(fd);
    let text = crate::sys::bytes_to_chars_lossy(&out);
    Ok(SExpression::Atom(text))
}

} // verus!

verus! {

/// Hygiene: two minted parameter names are the same only if they were made
/// from the same original name at the same counter value, so names minted
/// at different counter values can never collide, whatever the functions'
/// parameters were called.
pub proof fn lemma_mint_injective(n1: Seq<char>, i1: int, n2: Seq<char>, i2: int)
    requires
        i1 >= 0,
        i2 >= 0,
        spec_mint(n1, i1) == spec_mint(n2, i2),
    ensures
        n1 == n2,
        i1 == i2,
{
    let d1 = spec_digits(i1);
    let d2 = spec_digits(i2);
    crate::text::lemma_spec_digits(i1);
    crate::text::lemma_spec_digits(i2);
    let s = spec_mint(n1, i1);
    assert(s.len() == 3 + n1.len() + d1.len());
    assert(s.len() == 3 + n2.len() + d2.len());
    assert(s[1 + n1.len() as int] == '#');
    assert(s[1 + n2.len() as int] == '#');
    if d1.len() < d2.len() {
        let q = s.len() as int - 2 - d1.len() as int;
        assert(q == 1 + n1.len() as int);
        assert(s[q] == '#');
        let off = q - 2 - n2.len() as int;
        assert(0 <= off < d2.len());
        assert(s[q] == d2[off]);
        crate::text::lemma_all_digits_index(d2, off);
        assert(false);
    } else if d2.len() < d1.len() {
        let q = s.len() as int - 2 - d2.len() as int;
        assert(q == 1 + n2.len() as int);
        assert(s[q] == '#');
        let off = q - 2 - n1.len() as int;
        assert(0 <= off < d1.len());
        assert(s[q] == d1[off]);
        crate::text::lemma_all_digits_index(d1, off);
        assert(false);
    } else {
        assert(n1.len() == n2.len());
        assert forall|k: int| 0 <= k < n1.len() implies n1[k] == n2[k] by {
            assert(s[1 + k] == n1[k]);
            assert(s[1 + k] == n2[k]);
        }
        assert(n1 =~= n2);
        assert forall|k: int| 0 <= k < d1.len() implies d1[k] == d2[k] by {
            assert(s[2 + n1.len() as int + k] == d1[k]);
            assert(s[2 + n2.len() as int + k] == d2[k]);
        }
        assert(d1 =~= d2);
        crate::text::lemma_spec_digits_injective(i1, i2);
    }
}

} // verus!
