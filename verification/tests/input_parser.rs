use luabster::input_parser::{contains_isolated, contains_keyword, new_line_expected, InputParser};

#[test]
fn sudo_command() {
    let mut sudo_command = "sudo su".to_string();
    let mut scope_level = 0;
    assert!(!contains_keyword(&sudo_command, &mut scope_level));
    assert!(!new_line_expected(&mut sudo_command, &mut scope_level));
    assert_eq!(scope_level, 0);
}

#[test]
fn multiline_command() {
    let mut multiline_command = "sudo su\\".to_string();
    let mut scope_level = 0;

    assert!(!contains_keyword(&multiline_command, &mut scope_level));
    assert!(new_line_expected(&mut multiline_command, &mut scope_level));
}

#[test]
fn trailing_backslash_is_removed() {
    let mut line = "echo a\\".to_string();
    let mut scope = 0;
    assert!(new_line_expected(&mut line, &mut scope));
    assert_eq!(line, "echo a");
}

#[test]
fn isolated_patterns() {
    assert!(contains_isolated("do", "do"));
    assert!(contains_isolated("do x", "do"));
    assert!(!contains_isolated("done", "do"));
    assert!(!contains_isolated("for x in y", " in "));
    assert!(contains_isolated("for x in y", "in"));
    assert!(!contains_isolated("echo doing", "do"));
    assert!(contains_isolated("a do b", "do"));
    assert!(!contains_isolated("", "do"));
}

#[test]
fn blocks_open_and_close() {
    let mut scope = 0;
    assert!(!contains_keyword("for i in 1 2; do", &mut scope));
    assert_eq!(scope, 1);
    let mut line = "echo a".to_string();
    assert!(new_line_expected(&mut line, &mut scope));
    let mut line = "done".to_string();
    assert!(!new_line_expected(&mut line, &mut scope));
    assert_eq!(scope, 0);
    let mut scope = 0;
    assert!(!contains_keyword("fi", &mut scope));
    assert_eq!(scope, 0);
    let mut scope = 3;
    let mut line = "if true".to_string();
    assert!(new_line_expected(&mut line, &mut scope));
    assert_eq!(scope, 4);
}

#[test]
fn get_input_collects_lines() {
    let mut p = InputParser::new("/home/u");
    assert_eq!(p.history_path(), "/home/u/.luabster/.history");
    assert_eq!(p.get_input("  echo a \\  "), None);
    assert_eq!(p.get_input("b"), Some("echo a b".to_string()));
    assert_eq!(p.get_input("if true"), None);
    assert_eq!(p.get_input("then x"), None);
    assert_eq!(p.get_input("fi"), Some("if truethen xfi".to_string()));
    assert_eq!(p.get_input("ls"), Some("ls".to_string()));
}

#[test]
fn check_quit_only_on_exit() {
    let p = InputParser::new("/h");
    assert!(p.check_quit("exit").is_err());
    assert!(matches!(p.check_quit("exit"), Err(luabster::parser::Errors::Exit)));
    assert!(p.check_quit("exit now").is_ok());
    assert!(p.check_quit("").is_ok());
}

#[test]
fn history_load_save_replace() {
    let mut p = InputParser::new("/h");
    p.load_history("c\nb\na", 2);
    let h: Vec<String> = p.history().iter().cloned().collect();
    assert_eq!(h, vec!["c".to_string(), "b".to_string()]);
    assert_eq!(p.history_text(), "c\nb");
    p.replace_last("z");
    assert_eq!(p.history_text(), "z\nb");
    p.load_history(&p.history_text(), 10);
    let h: Vec<String> = p.history().iter().cloned().collect();
    assert_eq!(h, vec!["z".to_string(), "b".to_string()]);
    p.load_history("", 10);
    assert_eq!(p.history().len(), 1);
    let mut q = InputParser::new("/h");
    q.replace_last("only");
    assert_eq!(q.history_text(), "only");
}
