//! The evaluator and the builtin library.
use lishp::SExpression;
use lishp::interpreter::Interpreter;

fn chars(s: &str) -> Vec<char> {
    s.chars().collect()
}

fn atom(s: &str) -> SExpression {
    SExpression::Atom(chars(s))
}

fn shell() -> Interpreter {
    Interpreter::load(vec![
        (chars("PATH"), chars("/bin:/usr/bin")),
        (chars("HOME"), chars("/tmp")),
    ])
}

#[test]
fn arithmetic_folds() {
    let mut it = shell();
    assert_eq!(it.eval("(+ 1 2 3)").unwrap(), atom("6"));
    assert_eq!(it.eval("(+)").unwrap(), atom("0"));
    assert_eq!(it.eval("(*)").unwrap(), atom("1"));
    assert_eq!(it.eval("(* 2 3 4)").unwrap(), atom("24"));
    assert_eq!(it.eval("(- 10 4)").unwrap(), atom("6"));
    assert_eq!(it.eval("(- 4 10)").unwrap(), atom("-6"));
    assert_eq!(it.eval("(/ 9 2)").unwrap(), atom("4"));
    assert_eq!(it.eval("(% 9 2)").unwrap(), atom("1"));
    assert_eq!(it.eval("(^ 2 10)").unwrap(), atom("1024"));
    assert_eq!(it.eval("(^ 2 0)").unwrap(), atom("1"));
}

#[test]
fn arity_error_for_sub() {
    let mut it = shell();
    assert_eq!(it.eval("(- 1)").unwrap_err(), "sub requires two arguments");
}

#[test]
fn non_numeric_error_for_add() {
    let mut it = shell();
    assert_eq!(it.eval("(+ 1 \"x\")").unwrap_err(), "x is not a number");
}

#[test]
fn division_by_zero_is_an_error() {
    let mut it = shell();
    assert_eq!(it.eval("(/ 1 0)").unwrap_err(), "division by zero");
    assert_eq!(it.eval("(% 1 0)").unwrap_err(), "division by zero");
}

#[test]
fn numeric_overflow_is_an_error() {
    let mut it = shell();
    assert_eq!(
        it.eval("(+ 9223372036854775807 1)").unwrap_err(),
        "numeric overflow"
    );
    assert_eq!(it.eval("(^ 2 64)").unwrap_err(), "numeric overflow");
}

#[test]
fn comparisons() {
    let mut it = shell();
    assert_eq!(it.eval("(< 1 2)").unwrap(), atom("true"));
    assert_eq!(it.eval("(> 1 2)").unwrap(), atom("false"));
    assert_eq!(it.eval("(<= 2 2)").unwrap(), atom("true"));
    assert_eq!(it.eval("(>= 1 2)").unwrap(), atom("false"));
}

#[test]
fn equality_is_structural() {
    let mut it = shell();
    assert_eq!(it.eval("(= 1 1)").unwrap(), atom("true"));
    assert_eq!(it.eval("(= 1 2)").unwrap(), atom("false"));
    assert_eq!(it.eval("(= '(1 2) '(1 2))").unwrap(), atom("true"));
}

#[test]
fn empty_atom_equals_empty_list() {
    let mut it = shell();
    assert_eq!(it.eval("(= \"\" '())").unwrap(), atom("true"));
    assert_eq!(it.eval("(= '() \"\")").unwrap(), atom("true"));
}

#[test]
fn boolean_builtins() {
    let mut it = shell();
    assert_eq!(it.eval("(not \"true\")").unwrap(), atom("false"));
    assert_eq!(it.eval("(not \"false\")").unwrap(), atom("true"));
    assert_eq!(
        it.eval("(not 7)").unwrap_err(),
        "not expects a boolean argument"
    );
    assert_eq!(it.eval("(and \"true\" \"true\")").unwrap(), atom("true"));
    assert_eq!(it.eval("(and \"true\" \"false\")").unwrap(), atom("false"));
    assert_eq!(it.eval("(or \"false\" \"true\")").unwrap(), atom("true"));
    assert_eq!(it.eval("(or)").unwrap(), atom("false"));
    assert_eq!(it.eval("(and)").unwrap(), atom("true"));
}

#[test]
fn if_takes_one_branch_only() {
    let mut it = shell();
    assert_eq!(it.eval("(if \"true\" 1 2)").unwrap(), atom("1"));
    assert_eq!(it.eval("(if \"false\" 1 2)").unwrap(), atom("2"));
}

#[test]
fn if_does_not_evaluate_the_untaken_exit() {
    // the false branch holds (exit); it must not run, so no exit is requested
    let mut it = shell();
    assert_eq!(it.eval("(if \"true\" 1 (exit))").unwrap(), atom("1"));
    assert!(!it.exit_requested);
}

#[test]
fn exit_requests_termination() {
    let mut it = shell();
    assert!(it.eval("(exit)").is_err());
    assert!(it.exit_requested);
}

#[test]
fn sequence_builtins() {
    let mut it = shell();
    assert_eq!(it.eval("(first '(1 2 3))").unwrap(), atom("1"));
    assert_eq!(
        it.eval("(rest '(1 2 3))").unwrap(),
        SExpression::List(vec![atom("2"), atom("3")])
    );
    assert_eq!(it.eval("(first \"abc\")").unwrap(), atom("a"));
    assert_eq!(it.eval("(rest \"abc\")").unwrap(), atom("bc"));
    assert_eq!(
        it.eval("(first '())").unwrap_err(),
        "tried to call first on empty list"
    );
    assert_eq!(
        it.eval("(first \"\")").unwrap_err(),
        "tried to call first on empty string"
    );
    assert_eq!(
        it.eval("(list 1 (+ 1 1))").unwrap(),
        SExpression::List(vec![atom("1"), atom("2")])
    );
    assert_eq!(it.eval("(cons 1 '(2 3))").unwrap(),
        SExpression::List(vec![atom("1"), atom("2"), atom("3")]));
    assert_eq!(it.eval("(cons a \"bc\")").unwrap(), atom("abc"));
    assert_eq!(it.eval("(cons a '())").unwrap(), atom("a"));
    assert_eq!(
        it.eval("(cons \"ab\" \"cd\")").unwrap_err(),
        "cons second argument must be list-like"
    );
}

#[test]
fn def_binds_unevaluated() {
    let mut it = shell();
    assert_eq!(it.eval("(def x (+ 1 2))").unwrap(), atom("defined x"));
    // one substitution step only: the bound call is returned, not re-evaluated
    assert_eq!(
        it.eval("(list x)").unwrap(),
        SExpression::List(vec![SExpression::Call(vec![atom("+"), atom("1"), atom("2")])])
    );
    assert_eq!(it.eval("(def y 5)").unwrap(), atom("defined y"));
    assert_eq!(it.eval("(+ y 1)").unwrap(), atom("6"));
}

#[test]
fn plain_atoms_evaluate_to_themselves() {
    let mut it = shell();
    assert_eq!(it.eval("hello").unwrap_err().contains("command not found"), true);
    assert_eq!(it.eval("(list hello)").unwrap(), SExpression::List(vec![atom("hello")]));
}

#[test]
fn defun_and_call() {
    let mut it = shell();
    assert_eq!(
        it.eval("(defun inc (x) (+ x 1))").unwrap(),
        atom("defined inc")
    );
    assert_eq!(it.eval("(inc 41)").unwrap(), atom("42"));
}

#[test]
fn hygiene_between_functions() {
    // both functions use the parameter name x; substitution must not mix them
    let mut it = shell();
    it.eval("(defun f (x) (+ x 1))").unwrap();
    it.eval("(defun g (x) (f x))").unwrap();
    assert_eq!(it.eval("(g 5)").unwrap(), atom("6"));
}

#[test]
fn surplus_arguments_are_dropped() {
    let mut it = shell();
    it.eval("(defun one (x) x)").unwrap();
    assert_eq!(it.eval("(one 1 2 3)").unwrap(), atom("1"));
}

#[test]
fn let_substitutes_in_order() {
    let mut it = shell();
    assert_eq!(it.eval("(let ((a 2) (b 3)) (+ a b))").unwrap(), atom("5"));
    // the flat binding form is taken too
    assert_eq!(it.eval("(let (a 2 b 3) (+ a b))").unwrap(), atom("5"));
    assert_eq!(
        it.eval("(let 5 6)").unwrap_err(),
        "let requires two arguments"
    );
}

#[test]
fn getenv_and_export() {
    let mut it = shell();
    assert_eq!(it.eval("(getenv HOME)").unwrap(), atom("/tmp"));
    assert_eq!(it.eval("(getenv NO_SUCH_VAR_HERE)").unwrap_err(), "env var not found");
    assert_eq!(it.eval("(export GREETING hello)").unwrap(), atom(""));
    assert_eq!(it.eval("(getenv GREETING)").unwrap(), atom("hello"));
}

#[test]
fn alias_builtin_records_the_mapping() {
    let mut it = shell();
    assert_eq!(it.eval("(alias ll (ls -l))").unwrap(), atom("created alias"));
    assert_eq!(it.aliases.len(), 1);
    let key: String = it.aliases[0].0.iter().collect();
    assert_eq!(key, "ll");
    let words: Vec<String> = it.aliases[0].1.iter().map(|w| w.iter().collect()).collect();
    assert_eq!(words, vec!["ls".to_string(), "-l".to_string()]);
}

#[test]
fn empty_call_is_rejected() {
    let mut it = shell();
    assert_eq!(it.eval("()").unwrap_err(), "Empty Call Expression");
}

#[test]
fn lists_evaluate_to_themselves() {
    let mut it = shell();
    let data = SExpression::List(vec![atom("a"), SExpression::Call(vec![atom("b")]), atom("c")]);
    let again = it.eval_expr(data, true, lishp::interpreter::EVAL_DEPTH).unwrap();
    assert_eq!(
        again,
        SExpression::List(vec![atom("a"), SExpression::Call(vec![atom("b")]), atom("c")])
    );
}

#[test]
fn deep_recursion_is_abandoned_not_crashing() {
    let mut it = shell();
    it.eval("(defun loopy (x) (loopy x))").unwrap();
    assert_eq!(
        it.eval("(loopy 1)").unwrap_err(),
        "evaluation depth limit reached"
    );
}

#[test]
fn failed_evaluation_commits_no_partial_definitions() {
    let mut it = shell();
    // the inner definition succeeds, then the call fails: the table rolls back
    assert!(it.eval("(list (def zz 1) (no_such_command_zz9x))").is_err());
    assert_eq!(it.defs.len(), 0);
    assert_eq!(it.eval("(list zz)").unwrap(), SExpression::List(vec![atom("zz")]));
    // the same holds for functions and aliases
    assert!(it
        .eval("(list (defun ff (x) x) (alias aa (bb)) (no_such_command_zz9x))")
        .is_err());
    assert_eq!(it.funcs.len(), 0);
    assert_eq!(it.aliases.len(), 0);
    // a successful evaluation commits
    it.eval("(def zz 1)").unwrap();
    assert_eq!(it.defs.len(), 1);
}
