//! The external-process subsystem: path resolution, capture for nested
//! calls, status passthrough at top level, and the file builtins.
use lishp::SExpression;
use lishp::interpreter::Interpreter;

fn chars(s: &str) -> Vec<char> {
    s.chars().collect()
}

fn atom(s: &str) -> SExpression {
    SExpression::Atom(chars(s))
}

fn shell() -> Interpreter {
    Interpreter::load(vec![
        (chars("PATH"), chars("/bin:/usr/bin")),
        (chars("HOME"), chars("/tmp")),
    ])
}

#[test]
fn top_level_command_yields_the_empty_atom() {
    let mut it = shell();
    // output goes to the terminal; the value is the empty atom
    assert_eq!(it.eval("(/bin/echo one two)").unwrap(), atom(""));
    assert_eq!(it.last_ret_code, 0);
}

#[test]
fn top_level_command_records_the_exit_status() {
    let mut it = shell();
    it.eval("(/bin/sh -c \"exit 3\")").unwrap();
    assert_eq!(it.last_ret_code, 3);
    // the pseudo-variable reads it back
    assert_eq!(it.eval("(+ $? 0)").unwrap(), atom("3"));
    // a succeeding command resets it
    it.eval("(/bin/sh -c \"exit 0\")").unwrap();
    assert_eq!(it.eval("(+ $? 0)").unwrap(), atom("0"));
}

#[test]
fn nested_command_output_is_captured_as_lines() {
    let mut it = shell();
    let v = it.eval("(list (/bin/sh -c \"echo a; echo b\"))").unwrap();
    assert_eq!(
        v,
        SExpression::List(vec![SExpression::List(vec![atom("a"), atom("b")])])
    );
}

#[test]
fn first_line_of_a_captured_command() {
    let mut it = shell();
    let v = it.eval("(first (/bin/sh -c \"echo a; echo b\"))").unwrap();
    assert_eq!(v, atom("a"));
}

#[test]
fn nested_command_with_no_output_is_the_empty_list() {
    let mut it = shell();
    let v = it.eval("(list (/bin/true))").unwrap();
    assert_eq!(v, SExpression::List(vec![SExpression::List(vec![])]));
}

#[test]
fn command_resolution_uses_the_path() {
    let mut it = shell();
    // `echo` is found through PATH, not as a literal path
    assert_eq!(it.eval("(echo hi)").unwrap(), atom(""));
}

#[test]
fn command_not_found_reports_the_name() {
    let mut it = shell();
    let err = it.eval("(no_such_command_zz9x)").unwrap_err();
    assert_eq!(err, "command not found: no_such_command_zz9x");
}

#[test]
fn exported_variables_reach_the_child() {
    let mut it = shell();
    it.eval("(export LISHP_PROBE marker7)").unwrap();
    let v = it
        .eval("(first (/bin/sh -c \"echo $LISHP_PROBE\"))")
        .unwrap();
    assert_eq!(v, atom("marker7"));
    // re-exporting an existing variable: the child sees the newest binding
    it.eval("(export LISHP_PROBE marker8)").unwrap();
    assert_eq!(it.eval("(getenv LISHP_PROBE)").unwrap(), atom("marker8"));
    let v = it
        .eval("(first (/bin/sh -c \"echo $LISHP_PROBE\"))")
        .unwrap();
    assert_eq!(v, atom("marker8"));
    // a re-exported PATH is honored too
    it.eval("(export HOME /)").unwrap();
    assert_eq!(it.eval("(getenv HOME)").unwrap(), atom("/"));
}

#[test]
fn file_write_read_and_append() {
    let mut it = shell();
    assert_eq!(
        it.eval("(write \"first line\" /tmp/lishp_test_file_a)").unwrap(),
        atom("")
    );
    assert_eq!(
        it.eval("(read /tmp/lishp_test_file_a)").unwrap(),
        atom("first line")
    );
    assert_eq!(
        it.eval("(append \" and more\" /tmp/lishp_test_file_a)").unwrap(),
        atom("")
    );
    assert_eq!(
        it.eval("(read /tmp/lishp_test_file_a)").unwrap(),
        atom("first line and more")
    );
    // overwrite truncates
    it.eval("(write short /tmp/lishp_test_file_a)").unwrap();
    assert_eq!(it.eval("(read /tmp/lishp_test_file_a)").unwrap(), atom("short"));
}

#[test]
fn file_read_of_missing_file_is_an_error() {
    let mut it = shell();
    assert!(it.eval("(read /tmp/lishp_no_such_file_zz9)").is_err());
}

#[test]
fn cd_changes_the_working_directory() {
    let mut it = shell();
    assert_eq!(it.eval("(cd /)").unwrap(), atom(""));
    let v = it.eval("(first (/bin/sh -c pwd))").unwrap();
    assert_eq!(v, atom("/"));
    assert!(it.eval("(cd /no/such/dir/zz9)").is_err());
}

#[test]
fn prompt_comes_from_the_definition() {
    let mut it = shell();
    assert_eq!(lishp::interpreter::get_prompt(&mut it), "> ".to_string());
    it.eval("(def lishp_prompt \"$ \")").unwrap();
    assert_eq!(lishp::interpreter::get_prompt(&mut it), "$ ".to_string());
}
