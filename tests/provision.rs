use openssl_bundle::provision::{env_assignments, split_assignment, CapturedEnv};

fn pair(a: &str, b: &str) -> (String, String) {
    (a.to_string(), b.to_string())
}

#[test]
fn split_keeps_later_equals_in_value() {
    assert_eq!(split_assignment("NAME=VALUE=extra"), Some(pair("NAME", "VALUE=extra")));
}

#[test]
fn split_without_equals_is_none() {
    assert_eq!(split_assignment("no assignment here"), None);
    assert_eq!(split_assignment(""), None);
}

#[test]
fn split_with_empty_name_is_none() {
    assert_eq!(split_assignment("=C:=C:\\Windows"), None);
}

#[test]
fn split_with_empty_value() {
    assert_eq!(split_assignment("EMPTY="), Some(pair("EMPTY", "")));
}

#[test]
fn assignments_in_line_order() {
    let out = "INCLUDE=C:\\inc\nnoise line\nLIB=C:\\lib;D:\\lib\nPATH=a=b\n";
    assert_eq!(
        env_assignments(out),
        vec![pair("INCLUDE", "C:\\inc"), pair("LIB", "C:\\lib;D:\\lib"), pair("PATH", "a=b")]
    );
}

#[test]
fn assignments_strip_crlf() {
    let out = "A=1\r\nB=2\r\n";
    assert_eq!(env_assignments(out), vec![pair("A", "1"), pair("B", "2")]);
}

#[test]
fn assignments_last_line_without_newline() {
    assert_eq!(env_assignments("A=1\nB=2"), vec![pair("A", "1"), pair("B", "2")]);
    assert_eq!(env_assignments("A=x\r"), vec![pair("A", "x\r")]);
}

#[test]
fn assignments_of_empty_output() {
    assert_eq!(env_assignments(""), Vec::<(String, String)>::new());
    assert_eq!(env_assignments("\n\n\r\n"), Vec::<(String, String)>::new());
}

#[test]
fn later_assignment_of_same_name_wins() {
    let applied = env_assignments("X=first\nY=other\nX=second\n");
    let mut env: std::collections::HashMap<String, String> = std::collections::HashMap::new();
    for (k, v) in applied {
        env.insert(k, v);
    }
    assert_eq!(env.get("X").map(|s| s.as_str()), Some("second"));
    assert_eq!(env.get("Y").map(|s| s.as_str()), Some("other"));
    assert_eq!(env.len(), 2);
}

#[test]
fn captured_env_last_line_wins() {
    let mut env = CapturedEnv::new();
    env.apply_output("X=first\nY=other\nX=second\n");
    assert_eq!(env.get("X"), Some("second".to_string()));
    assert_eq!(env.get("Y"), Some("other".to_string()));
    assert_eq!(env.get("Z"), None);
    assert_eq!(env.to_pairs(), vec![pair("X", "second"), pair("Y", "other")]);
}

#[test]
fn captured_env_ignores_lines_without_equals() {
    let mut env = CapturedEnv::new();
    env.apply_output("A=1\n** Visual Studio Developer Command Prompt **\n");
    assert_eq!(env.to_pairs(), vec![pair("A", "1")]);
}

#[test]
fn captured_env_later_output_overwrites() {
    let mut env = CapturedEnv::new();
    env.apply_output("LIB=arm64\nINCLUDE=inc\n");
    env.apply_output("LIB=x64\r\n");
    assert_eq!(env.get("LIB"), Some("x64".to_string()));
    assert_eq!(env.get("INCLUDE"), Some("inc".to_string()));
}

#[test]
fn captured_env_set_replaces() {
    let mut env = CapturedEnv::new();
    env.set("HOST".to_string(), "a".to_string());
    env.set("HOST".to_string(), "b".to_string());
    assert_eq!(env.to_pairs(), vec![pair("HOST", "b")]);
}

#[test]
fn captured_env_value_keeps_equals() {
    let mut env = CapturedEnv::new();
    env.apply_output("NAME=VALUE=extra");
    assert_eq!(env.get("NAME"), Some("VALUE=extra".to_string()));
}

#[test]
fn removing_line_without_equals_changes_nothing() {
    let with = env_assignments("A=1\nNOEQUALS\nB=2\n");
    let without = env_assignments("A=1\nB=2\n");
    assert_eq!(with, without);
    assert_eq!(env_assignments("NOEQUALS\n"), Vec::<(String, String)>::new());
}

#[test]
fn path_set_twice_ends_with_later_value() {
    let mut env = CapturedEnv::new();
    env.apply_output("PATH=a\nPATH=b\n");
    assert_eq!(env.get("PATH"), Some("b".to_string()));
}
