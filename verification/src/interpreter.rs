//! The evaluator: builtin dispatch on the head of a call, user-function
//! application by hygienic substitution, variable lookup, and the fall-back
//! to external command execution with capture for nested calls.
use vstd::prelude::*;
use crate::{Sx, SExpression, views_of, lemma_views_of, clone_chars};
use crate::lexer::AliasTable;
use crate::text::{spec_int_text, spec_lines, concat_chars};

verus! {

/// How deep one evaluation may recurse before it is abandoned; guards the
/// native call stack against unbounded substitution loops.
pub const EVAL_DEPTH: u64 = 512;

/// The interpreter's state: the alias table consulted by the lexer, the
/// global definition and function tables, the counter that mints unique
/// parameter names, the last external command's exit status, the process
/// environment as the language sees it, and the flag raised by `exit`.
pub struct Interpreter {
    pub aliases: AliasTable,
    pub defs: Vec<(Vec<char>, SExpression)>,
    pub funcs: Vec<(Vec<char>, (Vec<Vec<char>>, SExpression))>,
    pub id: usize,
    pub last_ret_code: i32,
    pub env: Vec<(Vec<char>, Vec<char>)>,
    pub exit_requested: bool,
}

/// First-match lookup in the definition table, as the bound value's shape.
pub open spec fn defs_find(ds: Seq<(Vec<char>, SExpression)>, k: Seq<char>) -> Option<Sx>
    decreases ds,
{
    if ds.len() == 0 {
        Option::None
    } else if ds[0].0@ == k {
        Option::Some(ds[0].1@)
    } else {
        defs_find(ds.skip(1), k)
    }
}

/// First-match lookup in the function table: the hygienic parameter names
/// and the rewritten body.
pub open spec fn funcs_find(
    fs: Seq<(Vec<char>, (Vec<Vec<char>>, SExpression))>,
    k: Seq<char>,
) -> Option<(Seq<Seq<char>>, Sx)>
    decreases fs,
{
    if fs.len() == 0 {
        Option::None
    } else if fs[0].0@ == k {
        Option::Some((crate::lexer::word_views(fs[0].1.0@), fs[0].1.1@))
    } else {
        funcs_find(fs.skip(1), k)
    }
}

/// First-match lookup in the environment table.
pub open spec fn env_find(es: Seq<(Vec<char>, Vec<char>)>, k: Seq<char>) -> Option<Seq<char>>
    decreases es,
{
    if es.len() == 0 {
        Option::None
    } else if es[0].0@ == k {
        Option::Some(es[0].1@)
    } else {
        env_find(es.skip(1), k)
    }
}

/// True when the two states agree on every component.
pub open spec fn same_state(a: Interpreter, b: Interpreter) -> bool {
    &&& b.aliases == a.aliases
    &&& b.defs == a.defs
    &&& b.funcs == a.funcs
    &&& b.id == a.id
    &&& b.last_ret_code == a.last_ret_code
    &&& b.env == a.env
    &&& b.exit_requested == a.exit_requested
}

/// What an atom evaluates to: the exit-status pseudo-variable's current
/// value, the bound definition, or the atom itself.
pub open spec fn atom_value(st: Interpreter, s: Seq<char>) -> Sx {
    if s == "$?"@ {
        Sx::Atom(spec_int_text(st.last_ret_code as int))
    } else {
        match defs_find(st.defs@, s) {
            Option::Some(v) => v,
            Option::None => Sx::Atom(s),
        }
    }
}

/// The value an expression evaluates to whenever that is decided by the
/// interpreter state alone: an atom's lookup result, a list itself; a call's
/// outcome is not known here.
pub open spec fn known_value(st: Interpreter, e: Sx) -> Option<Sx> {
    match e {
        Sx::Atom(s) => Option::Some(atom_value(st, s)),
        Sx::List(_) => Option::Some(e),
        Sx::Call(_) => Option::None,
    }
}

/// The flattened text of a known value, when it is call-free.
pub open spec fn known_chars(st: Interpreter, e: Sx) -> Option<Seq<char>> {
    match known_value(st, e) {
        Option::Some(v) => if v.no_call() {
            Option::Some(v.ident_of())
        } else {
            Option::None
        },
        Option::None => Option::None,
    }
}

/// The number a known value denotes, when it denotes one.
pub open spec fn known_num(st: Interpreter, e: Sx) -> Option<i64> {
    match known_chars(st, e) {
        Option::Some(t) => crate::text::spec_to_num(t),
        Option::None => Option::None,
    }
}

/// The stored body after substituting the arguments' statically known
/// values for the hygienic parameter names, position by position; the zip
/// stops at the shorter list, so surplus arguments are dropped and surplus
/// parameters stay as literal symbols. `None` when an argument's outcome is
/// not known here.
pub open spec fn apply_subst(
    st: Interpreter,
    vars: Seq<Seq<char>>,
    args: Seq<SExpression>,
    tree: Sx,
) -> Option<Sx>
    decreases args.len(),
{
    if vars.len() == 0 || args.len() == 0 {
        Option::Some(tree)
    } else {
        match known_value(st, args[0]@) {
            Option::Some(kv) => apply_subst(
                st,
                vars.skip(1),
                args.skip(1),
                tree.subst(vars[0], kv),
            ),
            Option::None => Option::None,
        }
    }
}

/// A list of output lines as a value: one atom per line.
pub open spec fn lines_sx(ls: Seq<Seq<char>>) -> Sx {
    Sx::List(Seq::new(ls.len(), |i: int| Sx::Atom(ls[i])))
}

/// True of a call that falls through to external command execution: a
/// non-empty call whose head names neither a builtin nor a user function.
pub open spec fn external_shape(st: Interpreter, e: Sx) -> bool {
    &&& e matches Sx::Call(es)
    &&& e->Call_0.len() > 0
    &&& e->Call_0[0].no_call()
    &&& !crate::builtins::spec_is_builtin(e->Call_0[0].ident_of())
    &&& funcs_find(st.funcs@, e->Call_0[0].ident_of()) is None
}

/// What every evaluation promises: lists and atoms evaluate without touching
/// the state, to themselves and to their definition respectively; an empty
/// call is rejected; a top-level external command's value is the empty atom;
/// a nested external command's value is a list of output lines.
pub open spec fn eval_contract(
    pre: Interpreter,
    post: Interpreter,
    e: Sx,
    root: bool,
    r: Result<SExpression, String>,
) -> bool {
    &&& (e matches Sx::List(_) ==> (r matches Ok(v) && v@ == e && same_state(pre, post)))
    &&& (e matches Sx::Atom(s) ==> (r matches Ok(v) && v@ == atom_value(pre, s) && same_state(
        pre,
        post,
    )))
    &&& (e matches Sx::Call(es) ==> (es.len() == 0 ==> (r matches Err(m) && m@
        == "Empty Call Expression"@ && same_state(pre, post))))
    &&& ((external_shape(pre, e) && root) ==> (r matches Ok(v) ==> v@ == Sx::Atom(Seq::empty())))
    &&& ((external_shape(pre, e) && !root) ==> (r matches Ok(v) ==> exists|text: Seq<char>|
        v@ == lines_sx(spec_lines(text))))
    &&& (!root ==> post.last_ret_code == pre.last_ret_code)
}

/// Elementwise view equality of two definition tables.
pub open spec fn defs_table_eq(
    a: Seq<(Vec<char>, SExpression)>,
    b: Seq<(Vec<char>, SExpression)>,
) -> bool {
    &&& a.len() == b.len()
    &&& forall|i: int| 0 <= i < a.len() ==> (#[trigger] b[i]).0@ == a[i].0@ && b[i].1@ == a[i].1@
}

/// Elementwise view equality of two function tables.
pub open spec fn funcs_table_eq(
    a: Seq<(Vec<char>, (Vec<Vec<char>>, SExpression))>,
    b: Seq<(Vec<char>, (Vec<Vec<char>>, SExpression))>,
) -> bool {
    &&& a.len() == b.len()
    &&& forall|i: int| 0 <= i < a.len() ==> (#[trigger] b[i]).0@ == a[i].0@
        && crate::lexer::word_views(b[i].1.0@) == crate::lexer::word_views(a[i].1.0@) && b[i].1.1@
        == a[i].1.1@
}

/// Elementwise view equality of two alias tables.
pub open spec fn aliases_table_eq(
    a: Seq<(Vec<char>, Vec<Vec<char>>)>,
    b: Seq<(Vec<char>, Vec<Vec<char>>)>,
) -> bool {
    &&& a.len() == b.len()
    &&& forall|i: int| 0 <= i < a.len() ==> (#[trigger] b[i]).0@ == a[i].0@
        && crate::lexer::word_views(b[i].1@) == crate::lexer::word_views(a[i].1@)
}

/// The three definition tables hold the same content in both states: what a
/// failed top-level evaluation must leave behind.
pub open spec fn tables_unchanged(pre: Interpreter, post: Interpreter) -> bool {
    &&& defs_table_eq(pre.defs@, post.defs@)
    &&& funcs_table_eq(pre.funcs@, post.funcs@)
    &&& aliases_table_eq(pre.aliases@, post.aliases@)
}

/// First-match lookup of a definition.
#[verifier::loop_isolation(false)]
pub fn defs_get<'a>(ds: &'a Vec<(Vec<char>, SExpression)>, k: &Vec<char>) -> (r: Option<
    &'a SExpression,
>)
    ensures
        match r {
            Option::Some(v) => defs_find(ds@, k@) == Option::Some(v@),
            Option::None => defs_find(ds@, k@) is None,
        },
{
    let n = ds.len();
    let mut j: usize = 0;
    proof {
        assert(ds@.skip(0) =~= ds@);
    }
    while j < n
        invariant
            j <= n,
            defs_find(ds@, k@) == defs_find(ds@.skip(j as int), k@),
        decreases n - j,
    {
        proof {
            assert(ds@.skip(j as int)[0] == ds@[j as int]);
            assert(ds@.skip(j as int).skip(1) =~= ds@.skip(j as int + 1));
        }
        if crate::text::chars_eq(&ds[j].0, k) {
            return Some(&ds[j].1);
        }
        j += 1;
    }
    proof {
        assert(ds@.skip(n as int) =~= Seq::<(Vec<char>, SExpression)>::empty());
    }
    None
}

/// First-match lookup of a user function, copied out.
#[verifier::loop_isolation(false)]
pub fn funcs_get_cloned(
    fs: &Vec<(Vec<char>, (Vec<Vec<char>>, SExpression))>,
    k: &Vec<char>,
) -> (r: Option<(Vec<Vec<char>>, SExpression)>)
    ensures
        match r {
            Option::Some(p) => funcs_find(fs@, k@) == Option::Some(
                (crate::lexer::word_views(p.0@), p.1@),
            ),
            Option::None => funcs_find(fs@, k@) is None,
        },
{
    let n = fs.len();
    let mut j: usize = 0;
    proof {
        assert(fs@.skip(0) =~= fs@);
    }
    while j < n
        invariant
            j <= n,
            funcs_find(fs@, k@) == funcs_find(fs@.skip(j as int), k@),
        decreases n - j,
    {
        proof {
            assert(fs@.skip(j as int)[0] == fs@[j as int]);
            assert(fs@.skip(j as int).skip(1) =~= fs@.skip(j as int + 1));
        }
        if crate::text::chars_eq(&fs[j].0, k) {
            let vars = crate::text::clone_words(&fs[j].1.0);
            let body = fs[j].1.1.clone();
            proof {
                assert(crate::lexer::word_views(vars@) =~= crate::lexer::word_views(fs@[j as int].1.0@));
            }
            return Some((vars, body));
        }
        j += 1;
    }
    proof {
        assert(fs@.skip(n as int) =~= Seq::<(Vec<char>, (Vec<Vec<char>>, SExpression))>::empty());
    }
    None
}

/// First-match lookup in the environment.
#[verifier::loop_isolation(false)]
pub fn env_get<'a>(es: &'a Vec<(Vec<char>, Vec<char>)>, k: &Vec<char>) -> (r: Option<
    &'a Vec<char>,
>)
    ensures
        match r {
            Option::Some(v) => env_find(es@, k@) == Option::Some(v@),
            Option::None => env_find(es@, k@) is None,
        },
{
    let n = es.len();
    let mut j: usize = 0;
    proof {
        assert(es@.skip(0) =~= es@);
    }
    while j < n
        invariant
            j <= n,
            env_find(es@, k@) == env_find(es@.skip(j as int), k@),
        decreases n - j,
    {
        proof {
            assert(es@.skip(j as int)[0] == es@[j as int]);
            assert(es@.skip(j as int).skip(1) =~= es@.skip(j as int + 1));
        }
        if crate::text::chars_eq(&es[j].0, k) {
            return Some(&es[j].1);
        }
        j += 1;
    }
    proof {
        assert(es@.skip(n as int) =~= Seq::<(Vec<char>, Vec<char>)>::empty());
    }
    None
}

/// The error text for a command that resolves nowhere.
pub fn not_found_message(name: &Vec<char>) -> (r: String)
    ensures
        r@ == "command not found: "@ + name@,
{
    let prefix = crate::text::str_to_chars("command not found: ");
    let all = concat_chars(&prefix, name);
    crate::text::chars_to_string(&all)
}

/// Copies a definition table; the copy holds the same content.
#[verifier::loop_isolation(false)]
fn clone_defs(ds: &Vec<(Vec<char>, SExpression)>) -> (r: Vec<(Vec<char>, SExpression)>)
    ensures
        defs_table_eq(ds@, r@),
{
    let mut out: Vec<(Vec<char>, SExpression)> = Vec::new();
    let n = ds.len();
    let mut i: usize = 0;
    while i < n
        invariant
            i <= n,
            out@.len() == i,
            forall|j: int| 0 <= j < i ==> (#[trigger] out@[j]).0@ == ds@[j].0@ && out@[j].1@
                == ds@[j].1@,
        decreases n - i,
    {
        out.push((clone_chars(&ds[i].0), ds[i].1.clone()));
        i += 1;
    }
    out
}

/// Copies a function table; the copy holds the same content.
#[verifier::loop_isolation(false)]
fn clone_funcs(fs: &Vec<(Vec<char>, (Vec<Vec<char>>, SExpression))>) -> (r: Vec<
    (Vec<char>, (Vec<Vec<char>>, SExpression)),
>)
    ensures
        funcs_table_eq(fs@, r@),
{
    let mut out: Vec<(Vec<char>, (Vec<Vec<char>>, SExpression))> = Vec::new();
    let n = fs.len();
    let mut i: usize = 0;
    while i < n
        invariant
            i <= n,
            out@.len() == i,
            forall|j: int| 0 <= j < i ==> (#[trigger] out@[j]).0@ == fs@[j].0@
                && crate::lexer::word_views(out@[j].1.0@) == crate::lexer::word_views(fs@[j].1.0@)
                && out@[j].1.1@ == fs@[j].1.1@,
        decreases n - i,
    {
        let vars = crate::text::clone_words(&fs[i].1.0);
        proof {
            assert(crate::lexer::word_views(vars@) =~= crate::lexer::word_views(fs@[i as int].1.0@));
        }
        out.push((clone_chars(&fs[i].0), (vars, fs[i].1.1.clone())));
        i += 1;
    }
    out
}

/// Copies an alias table; the copy holds the same content.
#[verifier::loop_isolation(false)]
fn clone_aliases(al: &AliasTable) -> (r: AliasTable)
    ensures
        aliases_table_eq(al@, r@),
{
    let mut out: AliasTable = Vec::new();
    let n = al.len();
    let mut i: usize = 0;
    while i < n
        invariant
            i <= n,
            out@.len() == i,
            forall|j: int| 0 <= j < i ==> (#[trigger] out@[j]).0@ == al@[j].0@
                && crate::lexer::word_views(out@[j].1@) == crate::lexer::word_views(al@[j].1@),
        decreases n - i,
    {
        let words = crate::text::clone_words(&al[i].1);
        proof {
            assert(crate::lexer::word_views(words@) =~= crate::lexer::word_views(al@[i as int].1@));
        }
        out.push((clone_chars(&al[i].0), words));
        i += 1;
    }
    out
}

impl Interpreter {
    /// A fresh interpreter over the given process environment: no aliases,
    /// definitions or functions yet, counter at zero, last exit status zero.
    pub fn load(env: Vec<(Vec<char>, Vec<char>)>) -> (r: Self)
        ensures
            r.aliases@.len() == 0,
            r.defs@.len() == 0,
            r.funcs@.len() == 0,
            r.id == 0,
            r.last_ret_code == 0,
            r.env == env,
            !r.exit_requested,
    {
        Interpreter {
            aliases: Vec::new(),
            defs: Vec::new(),
            funcs: Vec::new(),
            id: 0,
            last_ret_code: 0,
            env,
            exit_requested: false,
        }
    }

    /// Records a finished top-level command's exit code; a child ended by a
    /// signal has none and leaves the last status in place.
    pub fn record_status(&mut self, code: Option<i32>)
        ensures
            final(self).last_ret_code == match code {
                Some(c) => c,
                None => old(self).last_ret_code,
            },
            final(self).aliases == old(self).aliases,
            final(self).defs == old(self).defs,
            final(self).funcs == old(self).funcs,
            final(self).id == old(self).id,
            final(self).env == old(self).env,
            final(self).exit_requested == old(self).exit_requested,
    {
        if let Some(c) = code {
            self.last_ret_code = c;
        }
    }

    /// Parses one line under the current alias table and evaluates it as the
    /// whole statement. A failed evaluation leaves the definition, function
    /// and alias tables holding what they held before it began.
    pub fn eval(&mut self, cmd: &str) -> (r: Result<SExpression, String>)
        ensures
            match crate::parser::spec_parse_text(cmd@, old(self).aliases@) {
                Option::Some(v) => {
                    &&& (r matches Ok(_) ==> eval_contract(*old(self), *final(self), v, true, r))
                    &&& (r matches Err(_) ==> tables_unchanged(*old(self), *final(self)))
                    &&& ((v matches Sx::Atom(_) || v matches Sx::List(_)) ==> r is Ok)
                    &&& (v matches Sx::Call(es) ==> (es.len() == 0 ==> (r matches Err(m) && m@
                        == "Empty Call Expression"@)))
                },
                Option::None => r is Err && same_state(*old(self), *final(self)),
            },
    {
        let expr = match SExpression::parse(cmd, &self.aliases) {
            Ok(e) => e,
            Err(m) => {
                return Err(m);
            },
        };
        let saved_defs = clone_defs(&self.defs);
        let saved_funcs = clone_funcs(&self.funcs);
        let saved_aliases = clone_aliases(&self.aliases);
        let r = self.eval_expr(expr, true, EVAL_DEPTH);
        if r.is_err() {
            // a failed evaluation commits no partial definitions
            self.defs = saved_defs;
            self.funcs = saved_funcs;
            self.aliases = saved_aliases;
        }
        r
    }

    /// Evaluates one expression: builtin dispatch, user-function application
    /// by substitution, variable lookup, or external command execution.
    /// `root` marks the whole user statement, whose external output is
    /// inherited rather than captured; `fuel` bounds the recursion depth.
    pub fn eval_expr(&mut self, e: SExpression, root: bool, fuel: u64) -> (r: Result<
        SExpression,
        String,
    >)
        ensures
            eval_contract(*old(self), *final(self), e@, root, r),
        decreases fuel, 9int,
    {
        match e {
            SExpression::List(es) => Ok(SExpression::List(es)),
            SExpression::Atom(s) => {
                if crate::text::chars_eq_str(&s, "$?") {
                    let digits = crate::text::int_to_chars(self.last_ret_code as i64);
                    Ok(SExpression::Atom(digits))
                } else {
                    match defs_get(&self.defs, &s) {
                        Some(v) => Ok(v.clone()),
                        None => Ok(SExpression::Atom(s)),
                    }
                }
            },
            SExpression::Call(es) => {
                proof {
                    lemma_views_of(es@);
                }
                if es.len() == 0 {
                    return Err(String::from_str("Empty Call Expression"));
                }
                if fuel == 0 {
                    return Err(String::from_str("evaluation depth limit reached"));
                }
                let mut parts = es;
                let head = parts.remove(0);
                let args = parts;
                if !crate::has_no_call(&head) {
                    return Err(String::from_str("call head is not a value"));
                }
                let func = head.ident();
                match crate::builtins::builtin_lookup(&func) {
                    Some(b) => crate::builtins::dispatch(b, args, self, fuel),
                    None => {
                        match funcs_get_cloned(&self.funcs, &func) {
                            Some((vars, tree)) => self.apply_function(vars, tree, args, fuel),
                            None => self.run_external(func, args, root, fuel),
                        }
                    },
                }
            },
        }
    }

    /// Applies a user function: evaluates the arguments left to right, then
    /// substitutes each hygienic parameter name for its argument in a copy
    /// of the stored body, and evaluates the result. Surplus arguments are
    /// dropped; surplus parameters stay as literal symbols.
    #[verifier::loop_isolation(false)]
    fn apply_function(
        &mut self,
        vars: Vec<Vec<char>>,
        tree: SExpression,
        args: Vec<SExpression>,
        fuel: u64,
    ) -> (r: Result<SExpression, String>)
        requires
            fuel >= 1,
        ensures
            final(self).last_ret_code == old(self).last_ret_code,
            (forall|k: int|
                0 <= k < args@.len() ==> (#[trigger] known_value(*old(self), args@[k]@)) is Some)
                ==> (apply_subst(
                *old(self),
                crate::lexer::word_views(vars@),
                args@,
                tree@,
            ) matches Some(b) ==> eval_contract(*old(self), *final(self), b, false, r)),
        decreases fuel, 8int,
    {
        let ghost args0 = args@;
        let ghost vars_v = crate::lexer::word_views(vars@);
        let ghost tree0 = tree@;
        let total = args.len();
        let mut evaluated: Vec<SExpression> = Vec::new();
        let mut rest = args;
        let mut i: usize = 0;
        while rest.len() > 0
            invariant
                fuel >= 1,
                self.last_ret_code == old(self).last_ret_code,
                total == args0.len(),
                i == evaluated@.len(),
                i + rest@.len() == total,
                forall|t: int| 0 <= t < rest@.len() ==> rest@[t] == args0[i + t],
                (forall|k: int|
                    0 <= k < args0.len() ==> (#[trigger] known_value(*old(self), args0[k]@))
                        is Some) ==> (same_state(*old(self), *self) && (forall|k: int|
                    0 <= k < i ==> (#[trigger] evaluated@[k])@ == known_value(
                        *old(self),
                        args0[k]@,
                    )->Some_0)),
            decreases rest@.len(),
        {
            let ghost rest0 = rest@;
            let ghost pre = *self;
            let a = rest.remove(0);
            proof {
                assert(a == args0[i as int]);
                assert forall|t: int| 0 <= t < rest@.len() implies rest@[t] == args0[i + 1 + t] by {
                    assert(rest@[t] == rest0[t + 1]);
                }
                if forall|k: int|
                    0 <= k < args0.len() ==> (#[trigger] known_value(*old(self), args0[k]@))
                        is Some {
                    assert(known_value(*old(self), args0[i as int]@) is Some);
                    assert(pre == *old(self));
                }
            }
            let v = self.eval_expr(a, false, fuel - 1)?;
            let ghost ev0 = evaluated@;
            evaluated.push(v);
            proof {
                if forall|k: int|
                    0 <= k < args0.len() ==> (#[trigger] known_value(*old(self), args0[k]@))
                        is Some {
                    assert forall|k: int|
                        0 <= k < i + 1 implies (#[trigger] evaluated@[k])@ == known_value(
                        *old(self),
                        args0[k]@,
                    )->Some_0 by {
                        if k < i {
                            assert(evaluated@[k] == ev0[k]);
                        }
                    }
                }
            }
            i += 1;
        }
        let mut tree = tree;
        let n = if vars.len() < evaluated.len() {
            vars.len()
        } else {
            evaluated.len()
        };
        let mut k: usize = 0;
        proof {
            assert(vars_v.skip(0) =~= vars_v);
            assert(args0.skip(0) =~= args0);
        }
        while k < n
            invariant
                n <= vars@.len(),
                n <= evaluated@.len(),
                k <= n,
                (forall|t: int|
                    0 <= t < args0.len() ==> (#[trigger] known_value(*old(self), args0[t]@))
                        is Some) ==> apply_subst(*old(self), vars_v, args0, tree0) == apply_subst(
                    *old(self),
                    vars_v.skip(k as int),
                    args0.skip(k as int),
                    tree@,
                ),
            decreases n - k,
        {
            proof {
                if forall|t: int|
                    0 <= t < args0.len() ==> (#[trigger] known_value(*old(self), args0[t]@))
                        is Some {
                    assert(vars_v.skip(k as int)[0] == vars_v[k as int]);
                    assert(vars_v[k as int] == vars@[k as int]@);
                    assert(args0.skip(k as int)[0] == args0[k as int]);
                    assert(vars_v.skip(k as int).skip(1) =~= vars_v.skip(k as int + 1));
                    assert(args0.skip(k as int).skip(1) =~= args0.skip(k as int + 1));
                    assert(evaluated@[k as int]@ == known_value(
                        *old(self),
                        args0[k as int]@,
                    )->Some_0);
                }
            }
            let sub = evaluated[k].clone();
            tree = tree.replace(&vars[k], sub);
            k += 1;
        }
        proof {
            if forall|t: int|
                0 <= t < args0.len() ==> (#[trigger] known_value(*old(self), args0[t]@)) is Some {
                if n == vars@.len() {
                    assert(vars_v.skip(n as int) =~= Seq::<Seq<char>>::empty());
                } else {
                    assert(args0.skip(n as int) =~= Seq::<SExpression>::empty());
                }
                assert(apply_subst(
                    *old(self),
                    vars_v.skip(n as int),
                    args0.skip(n as int),
                    tree@,
                ) == Some(tree@));
                assert(*self == *old(self));
            }
        }
        self.eval_expr(tree, false, fuel - 1)
    }

    /// Resolves a command name: a name that exists as a path is used
    /// directly (relative to the working directory when bare), otherwise
    /// the `PATH` directories are scanned in order for it.
    #[verifier::loop_isolation(false)]
    pub fn search_path(&self, name: &Vec<char>) -> (r: Option<String>)
        ensures
            r matches Some(p) ==> (p@ == name@ || p@ == seq!['.', '/'] + name@ || (env_find(
                self.env@,
                "PATH"@,
            ) matches Some(pv) && exists|di: int|
                0 <= di < crate::text::spec_split(pv, ':').len() && p@ == crate::text::spec_split(
                    pv,
                    ':',
                )[di] + seq!['/'] + name@)),
    {
        let name_s = crate::text::chars_to_string(name);
        if crate::sys::path_exists(&name_s) {
            let mut has_slash = false;
            let mut i: usize = 0;
            while i < name.len()
                invariant
                    i <= name@.len(),
                decreases name@.len() - i,
            {
                if name[i] == '/' {
                    has_slash = true;
                }
                i += 1;
            }
            if has_slash {
                return Some(name_s);
            }
            let dot = crate::text::str_to_chars("./");
            let rel = concat_chars(&dot, name);
            proof {
                reveal_strlit("./");
                assert(dot@ =~= seq!['.', '/']);
                assert(rel@ == dot@ + name@);
            }
            return Some(crate::text::chars_to_string(&rel));
        }
        let path_key = crate::text::str_to_chars("PATH");
        let path_var = match env_get(&self.env, &path_key) {
            Some(v) => clone_chars(v),
            None => {
                return None;
            },
        };
        let dirs = crate::text::split_chars(&path_var, ':');
        let slash = crate::text::str_to_chars("/");
        let m = dirs.len();
        let mut j: usize = 0;
        while j < m
            invariant
                m == dirs@.len(),
                j <= m,
            decreases m - j,
        {
            let with_slash = concat_chars(&dirs[j], &slash);
            let cand = concat_chars(&with_slash, name);
            let cand_s = crate::text::chars_to_string(&cand);
            if crate::sys::path_exists(&cand_s) {
                proof {
                    reveal_strlit("/");
                    assert(slash@ =~= seq!['/']);
                    assert(with_slash@ == dirs@[j as int]@ + slash@);
                    assert(cand_s@ == (dirs@[j as int]@ + seq!['/']) + name@);
                    assert((dirs@[j as int]@ + seq!['/']) + name@ =~= dirs@[j as int]@ + seq!['/']
                        + name@);
                    assert(dirs@[j as int]@ == crate::text::spec_split(path_var@, ':')[j as int]);
                    assert(env_find(self.env@, "PATH"@) matches Some(pv) && pv == path_var@);
                }
                return Some(cand_s);
            }
            j += 1;
        }
        None
    }

    /// Evaluates command arguments into the plain strings handed to the
    /// child, in order: each statically known argument contributes exactly
    /// its flattened text.
    #[verifier::loop_isolation(false)]
    fn args_to_argv(&mut self, args: Vec<SExpression>, fuel: u64) -> (r: Result<
        Vec<String>,
        String,
    >)
        requires
            fuel >= 1,
        ensures
            final(self).last_ret_code == old(self).last_ret_code,
            (forall|k: int|
                0 <= k < args@.len() ==> (#[trigger] known_chars(*old(self), args@[k]@))
                    is Some) ==> (r matches Ok(a) && a@.len() == args@.len() && (forall|k: int|
                0 <= k < args@.len() ==> (#[trigger] a@[k])@ == known_chars(
                    *old(self),
                    args@[k]@,
                )->Some_0) && same_state(*old(self), *final(self))),
        decreases fuel, 6int,
    {
        let ghost args0 = args@;
        let total = args.len();
        let mut argv: Vec<String> = Vec::new();
        let mut rest = args;
        let mut i: usize = 0;
        while rest.len() > 0
            invariant
                fuel >= 1,
                total == args0.len(),
                i + rest@.len() == args0.len(),
                forall|t: int| 0 <= t < rest@.len() ==> rest@[t] == args0[i + t],
                self.last_ret_code == old(self).last_ret_code,
                argv@.len() == i,
                (forall|k: int|
                    0 <= k < args0.len() ==> (#[trigger] known_chars(*old(self), args0[k]@))
                        is Some) ==> (same_state(*old(self), *self) && (forall|k: int|
                    0 <= k < i ==> (#[trigger] argv@[k])@ == known_chars(
                        *old(self),
                        args0[k]@,
                    )->Some_0)),
            decreases rest@.len(),
        {
            let ghost rest0 = rest@;
            let ghost pre = *self;
            let a = rest.remove(0);
            proof {
                assert(i < args0.len());
                assert(a == args0[i as int]);
                assert forall|t: int| 0 <= t < rest@.len() implies rest@[t] == args0[i + 1 + t] by {
                    assert(rest@[t] == rest0[t + 1]);
                }
                if forall|k: int|
                    0 <= k < args0.len() ==> (#[trigger] known_chars(*old(self), args0[k]@))
                        is Some {
                    assert(known_chars(*old(self), args0[i as int]@) is Some);
                    assert(pre == *old(self));
                }
            }
            let v = self.eval_expr(a, false, fuel - 1)?;
            proof {
                if forall|k: int|
                    0 <= k < args0.len() ==> (#[trigger] known_chars(*old(self), args0[k]@))
                        is Some {
                    assert(known_chars(*old(self), args0[i as int]@) is Some);
                    assert(v@ == known_value(*old(self), args0[i as int]@)->Some_0);
                    assert(v@.no_call());
                }
            }
            if !crate::has_no_call(&v) {
                return Err(String::from_str("command argument is not a value"));
            }
            let chars = v.ident();
            let ghost argv0 = argv@;
            argv.push(crate::text::chars_to_string(&chars));
            proof {
                if forall|k: int|
                    0 <= k < args0.len() ==> (#[trigger] known_chars(*old(self), args0[k]@))
                        is Some {
                    assert forall|k: int|
                        0 <= k < i + 1 implies (#[trigger] argv@[k])@ == known_chars(
                        *old(self),
                        args0[k]@,
                    )->Some_0 by {
                        if k < i {
                            assert(argv@[k] == argv0[k]);
                        }
                    }
                }
            }
            i += 1;
        }
        Ok(argv)
    }

    /// Runs an external command: resolves the name, evaluates the arguments
    /// into plain strings, and executes the child with the interpreter's
    /// environment. The whole statement inherits the shell's output and
    /// records the exit status; a nested call captures its output, yields
    /// one atom per line, and leaves the recorded status alone.
    fn run_external(
        &mut self,
        name: Vec<char>,
        args: Vec<SExpression>,
        root: bool,
        fuel: u64,
    ) -> (r: Result<SExpression, String>)
        requires
            fuel >= 1,
        ensures
            root ==> (r matches Ok(v) ==> v@ == Sx::Atom(Seq::empty())),
            !root ==> (r matches Ok(v) ==> exists|text: Seq<char>| v@ == lines_sx(
                spec_lines(text),
            )),
            !root ==> final(self).last_ret_code == old(self).last_ret_code,
        decreases fuel, 8int,
    {
        let path = match self.search_path(&name) {
            Some(p) => p,
            None => {
                return Err(not_found_message(&name));
            },
        };
        let argv = self.args_to_argv(args, fuel)?;
        let envs = env_pairs(&self.env);
        let ex = crate::sys::cmd_new(&path, &argv);
        let ex = crate::sys::cmd_full_env(&ex, &envs);
        let ex = crate::sys::cmd_unchecked(&ex);
        let ex = if root {
            ex
        } else {
            crate::sys::cmd_stdout_capture(&ex)
        };
        match crate::sys::cmd_run_wait(&ex) {
            Err(m) => Err(m),
            Ok((text, code)) => {
                if root {
                    self.record_status(code);
                    let empty: Vec<char> = Vec::new();
                    proof {
                        assert(empty@ =~= Seq::<char>::empty());
                    }
                    Ok(SExpression::Atom(empty))
                } else {
                    let chars = crate::text::str_to_chars(text.as_str());
                    let lines = crate::text::split_lines(&chars);
                    let mut items: Vec<SExpression> = Vec::new();
                    let m = lines.len();
                    let mut j: usize = 0;
                    let ghost ls = spec_lines(chars@);
                    let mut rest_lines = lines;
                    while j < m
                        invariant
                            j <= m,
                            ls.len() == m,
                            rest_lines@.len() == m - j,
                            forall|t: int| 0 <= t < m - j ==> rest_lines@[t]@ == ls[j + t],
                            items@.len() == j,
                            forall|t: int| 0 <= t < j ==> items@[t]@ == Sx::Atom(ls[t]),
                        decreases m - j,
                    {
                        let line = rest_lines.remove(0);
                        items.push(SExpression::Atom(line));
                        j += 1;
                    }
                    proof {
                        lemma_views_of(items@);
                        assert(views_of(items@) =~= Seq::new(ls.len(), |i: int| Sx::Atom(ls[i])));
                        assert(SExpression::List(items)@ == lines_sx(ls));
                    }
                    Ok(SExpression::List(items))
                }
            },
        }
    }
}

/// The first pair at or after `j` binds its own key.
proof fn lemma_env_find_first(es: Seq<(Vec<char>, Vec<char>)>, j: int)
    requires
        0 <= j < es.len(),
        forall|l: int| 0 <= l < j ==> (#[trigger] es[l]).0@ != es[j].0@,
    ensures
        env_find(es, es[j].0@) == Option::Some(es[j].1@),
    decreases j,
{
    if j == 0 {
    } else {
        assert(es[0].0@ != es[j].0@);
        assert forall|l: int| 0 <= l < j - 1 implies (#[trigger] es.skip(1)[l]).0@ != es.skip(
            1,
        )[j - 1].0@ by {
            assert(es.skip(1)[l] == es[l + 1]);
            assert(es.skip(1)[j - 1] == es[j]);
        }
        lemma_env_find_first(es.skip(1), j - 1);
        assert(es.skip(1)[j - 1] == es[j]);
    }
}

/// True when some listed word equals `k`.
#[verifier::loop_isolation(false)]
fn word_in(ws: &Vec<Vec<char>>, k: &Vec<char>) -> (r: bool)
    ensures
        r == exists|t: int| 0 <= t < ws@.len() && (#[trigger] ws@[t])@ == k@,
{
    let n = ws.len();
    let mut i: usize = 0;
    while i < n
        invariant
            i <= n,
            forall|t: int| 0 <= t < i ==> (#[trigger] ws@[t])@ != k@,
        decreases n - i,
    {
        if crate::text::chars_eq(&ws[i], k) {
            return true;
        }
        i += 1;
    }
    false
}

/// The environment handed to a child process: one pair per variable name,
/// each carrying the value the lookup sees (the newest binding), names
/// pairwise distinct.
#[verifier::loop_isolation(false)]
pub fn env_pairs(env: &Vec<(Vec<char>, Vec<char>)>) -> (r: Vec<(String, String)>)
    ensures
        forall|t: int| 0 <= t < r@.len() ==> env_find(env@, (#[trigger] r@[t]).0@) == Option::Some(
            r@[t].1@,
        ),
        forall|t1: int, t2: int| 0 <= t1 < t2 < r@.len() ==> (#[trigger] r@[t1]).0@ != (
        #[trigger] r@[t2]).0@,
{
    let mut out: Vec<(String, String)> = Vec::new();
    let mut seen: Vec<Vec<char>> = Vec::new();
    let n = env.len();
    let mut i: usize = 0;
    while i < n
        invariant
            i <= n,
            seen@.len() == out@.len(),
            forall|t: int| 0 <= t < out@.len() ==> (#[trigger] seen@[t])@ == out@[t].0@,
            forall|t: int| 0 <= t < out@.len() ==> env_find(env@, (#[trigger] out@[t]).0@)
                == Option::Some(out@[t].1@),
            forall|t1: int, t2: int| 0 <= t1 < t2 < out@.len() ==> (#[trigger] out@[t1]).0@ != (
            #[trigger] out@[t2]).0@,
            forall|j: int| 0 <= j < i ==> exists|t: int|
                0 <= t < seen@.len() && (#[trigger] seen@[t])@ == (#[trigger] env@[j]).0@,
        decreases n - i,
    {
        if !word_in(&seen, &env[i].0) {
            proof {
                assert forall|l: int| 0 <= l < i implies (#[trigger] env@[l]).0@ != env@[
                i as int].0@ by {
                    if env@[l].0@ == env@[i as int].0@ {
                        let t = choose|t: int|
                            0 <= t < seen@.len() && (#[trigger] seen@[t])@ == env@[l].0@;
                        assert((seen@[t])@ == env@[i as int].0@);
                    }
                }
                lemma_env_find_first(env@, i as int);
            }
            let ghost out0 = out@;
            let ghost seen0 = seen@;
            let k = crate::text::chars_to_string(&env[i].0);
            let v = crate::text::chars_to_string(&env[i].1);
            out.push((k, v));
            seen.push(clone_chars(&env[i].0));
            proof {
                assert forall|t: int| 0 <= t < out@.len() implies env_find(
                    env@,
                    (#[trigger] out@[t]).0@,
                ) == Option::Some(out@[t].1@) by {
                    if t < out0.len() {
                        assert(out@[t] == out0[t]);
                    } else {
                        assert(out@[t].0@ == env@[i as int].0@);
                        assert(out@[t].1@ == env@[i as int].1@);
                    }
                }
                assert forall|t1: int, t2: int|
                    0 <= t1 < t2 < out@.len() implies (#[trigger] out@[t1]).0@ != (
                #[trigger] out@[t2]).0@ by {
                    if t2 < out0.len() {
                        assert(out@[t1] == out0[t1]);
                        assert(out@[t2] == out0[t2]);
                    } else {
                        assert(out@[t1] == out0[t1]);
                        assert(out@[t2].0@ == env@[i as int].0@);
                        assert((seen0[t1])@ == out0[t1].0@);
                    }
                }
                assert forall|t: int| 0 <= t < out@.len() implies (#[trigger] seen@[t])@ == out@[
                t].0@ by {
                    if t < out0.len() {
                        assert(seen@[t] == seen0[t]);
                        assert(out@[t] == out0[t]);
                    }
                }
                assert forall|j: int| 0 <= j < i + 1 implies exists|t: int|
                    0 <= t < seen@.len() && (#[trigger] seen@[t])@ == (#[trigger] env@[j]).0@ by {
                    if j < i {
                        let t = choose|t: int|
                            0 <= t < seen0.len() && (#[trigger] seen0[t])@ == env@[j].0@;
                        assert(seen@[t] == seen0[t]);
                        assert((seen@[t])@ == env@[j].0@);
                    } else {
                        assert((seen@[seen@.len() - 1])@ == env@[j].0@);
                    }
                }
            }
        } else {
            proof {
                assert forall|j: int| 0 <= j < i + 1 implies exists|t: int|
                    0 <= t < seen@.len() && (#[trigger] seen@[t])@ == (#[trigger] env@[j]).0@ by {
                    if j == i {
                        let t = choose|t: int|
                            0 <= t < seen@.len() && (#[trigger] seen@[t])@ == env@[i as int].0@;
                        assert((seen@[t])@ == env@[j].0@);
                    }
                }
            }
        }
        i += 1;
    }
    out
}

/// The prompt: the value that the `lishp_prompt` definition evaluates to,
/// flattened to text, or `"> "` when it is absent or fails to evaluate.
pub fn get_prompt(it: &mut Interpreter) -> (r: String) {
    let key = crate::text::str_to_chars("lishp_prompt");
    let bound = match defs_get(&it.defs, &key) {
        Some(e) => e.clone(),
        None => {
            return String::from_str("> ");
        },
    };
    match it.eval_expr(bound, false, EVAL_DEPTH) {
        Ok(v) => {
            if crate::has_no_call(&v) {
                let chars = v.ident();
                crate::text::chars_to_string(&chars)
            } else {
                String::from_str("> ")
            }
        },
        Err(_) => String::from_str("> "),
    }
}

/// Agreement on everything but the definition table.
pub open spec fn same_state_except_defs(a: Interpreter, b: Interpreter) -> bool {
    &&& b.aliases == a.aliases
    &&& b.funcs == a.funcs
    &&& b.id == a.id
    &&& b.last_ret_code == a.last_ret_code
    &&& b.env == a.env
    &&& b.exit_requested == a.exit_requested
}

/// Agreement on everything but the function table and the name counter.
pub open spec fn same_state_except_funcs(a: Interpreter, b: Interpreter) -> bool {
    &&& b.aliases == a.aliases
    &&& b.defs == a.defs
    &&& b.last_ret_code == a.last_ret_code
    &&& b.env == a.env
    &&& b.exit_requested == a.exit_requested
}

/// Agreement on everything but the alias table.
pub open spec fn same_state_except_aliases(a: Interpreter, b: Interpreter) -> bool {
    &&& b.defs == a.defs
    &&& b.funcs == a.funcs
    &&& b.id == a.id
    &&& b.last_ret_code == a.last_ret_code
    &&& b.env == a.env
    &&& b.exit_requested == a.exit_requested
}

/// Agreement on everything but the environment table.
pub open spec fn same_state_except_env(a: Interpreter, b: Interpreter) -> bool {
    &&& b.aliases == a.aliases
    &&& b.defs == a.defs
    &&& b.funcs == a.funcs
    &&& b.id == a.id
    &&& b.last_ret_code == a.last_ret_code
    &&& b.exit_requested == a.exit_requested
}

/// Agreement on everything but the exit flag.
pub open spec fn same_state_except_exit(a: Interpreter, b: Interpreter) -> bool {
    &&& b.aliases == a.aliases
    &&& b.defs == a.defs
    &&& b.funcs == a.funcs
    &&& b.id == a.id
    &&& b.last_ret_code == a.last_ret_code
    &&& b.env == a.env
}

} // verus!
