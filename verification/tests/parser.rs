use luabster::parser::{
    cd_target, get_builtin_commands, get_output_file, is_builtin, is_lua_command, job_pid_arg,
    parse_command, parse_input, pipe_wiring, plan_line, run_in_bg, segment_check, split_assignment, split_commands,
    strip_background, Aliases, JobTable, OutputType, ParseError, StdinFrom, StdoutTo,
};

fn strings(v: &[&str]) -> Vec<String> {
    v.iter().map(|s| s.to_string()).collect()
}

#[test]
fn parse_command_splits_on_spaces() {
    assert_eq!(parse_command("ls -l  /tmp").unwrap(), strings(&["ls", "-l", "/tmp"]));
    assert_eq!(parse_command("").unwrap(), Vec::<String>::new());
    assert_eq!(parse_command("   ").unwrap(), Vec::<String>::new());
}

#[test]
fn parse_command_quotes_and_escapes() {
    assert_eq!(
        parse_command("echo 'a b' \"c d\" e\\ f").unwrap(),
        strings(&["echo", "a b", "c d", "e f"])
    );
    assert_eq!(parse_command("a\"b\"c").unwrap(), strings(&["abc"]));
    assert_eq!(parse_command("'it''s'").unwrap(), strings(&["its"]));
}

#[test]
fn parse_command_open_quote_is_an_error() {
    assert_eq!(parse_command("echo 'abc"), Err(ParseError));
    assert_eq!(parse_command("echo \"abc"), Err(ParseError));
    assert_eq!(ParseError.message(), "missing closing quote");
}

#[test]
fn plain_words_round_trip() {
    let words = strings(&["git", "commit", "-m", "msg"]);
    assert_eq!(parse_command(&words.join(" ")).unwrap(), words);
}

#[test]
fn background_marker() {
    assert!(run_in_bg("sleep 10 &"));
    assert!(!run_in_bg("sleep 10"));
    assert!(!run_in_bg(""));
    assert_eq!(strip_background("sleep 10 &"), "sleep 10 ");
}

#[test]
fn lua_commands_start_with_bang() {
    assert!(is_lua_command("!print(1)"));
    assert!(!is_lua_command("print(1)"));
    assert!(!is_lua_command(""));
}

#[test]
fn builtins() {
    assert_eq!(
        get_builtin_commands(),
        vec!["exit", "cd", "fg", "bg", "alias", "source", "export", "eval", "luabster_update"]
    );
    assert!(is_builtin(&strings(&["cd", "/tmp"])));
    assert!(!is_builtin(&strings(&["ls"])));
}

#[test]
fn output_files() {
    match get_output_file("ls > out.txt") {
        OutputType::OverwriteFile(f) => assert_eq!(f, "out.txt"),
        other => panic!("unexpected {:?}", other),
    }
    match get_output_file("ls >> log") {
        OutputType::AppendFile(f) => assert_eq!(f, "log"),
        other => panic!("unexpected {:?}", other),
    }
    match get_output_file("ls > !var") {
        OutputType::NewVariable(f) => assert_eq!(f, "!var"),
        other => panic!("unexpected {:?}", other),
    }
    match get_output_file("ls >> !v") {
        OutputType::AppendVariable(f) => assert_eq!(f, "!v"),
        other => panic!("unexpected {:?}", other),
    }
    assert!(matches!(get_output_file("ls -l"), OutputType::NoOutput));
}

#[test]
fn assignments_split_at_first_equals() {
    assert_eq!(split_assignment("a=b=c"), Some(("a".to_string(), "b=c".to_string())));
    assert_eq!(split_assignment("=x"), Some((String::new(), "x".to_string())));
    assert_eq!(split_assignment("abc"), None);
}

#[test]
fn alias_read_after_write() {
    let mut a = Aliases::new();
    assert!(a.get("ll").is_none());
    a.alias(&strings(&["alias", "ll=ls -l"]));
    assert_eq!(a.get("ll").unwrap(), "ls -l");
    a.alias(&strings(&["alias", "ll=ls -la"]));
    assert_eq!(a.get("ll").unwrap(), "ls -la");
    a.alias(&strings(&["alias", "x=1", "y=2"]));
    assert!(a.get("x").is_none());
    a.alias(&strings(&["alias", "noequals"]));
    assert!(a.get("noequals").is_none());
}

#[test]
fn job_pid_arguments() {
    assert_eq!(job_pid_arg(&strings(&["fg"])), None);
    assert_eq!(job_pid_arg(&strings(&["fg", "42"])), Some(42));
    assert_eq!(job_pid_arg(&strings(&["fg", "x"])), None);
}

#[test]
fn cd_targets() {
    let home = Some("/home/u".to_string());
    assert_eq!(cd_target(&strings(&["cd"]), &home), "/home/u");
    assert_eq!(cd_target(&strings(&["cd", "~"]), &home), "/home/u");
    assert_eq!(cd_target(&strings(&["cd", "~/src"]), &home), "/home/u/src");
    assert_eq!(cd_target(&strings(&["cd", "/tmp"]), &home), "/tmp");
    assert_eq!(cd_target(&strings(&["cd"]), &None), "~");
}

#[test]
fn commands_split_at_semicolons_and_ands() {
    assert_eq!(split_commands("a; b && c"), strings(&["a", " b ", " c"]));
    assert_eq!(split_commands("ls"), strings(&["ls"]));
    assert_eq!(split_commands(""), strings(&[""]));
}

#[test]
fn job_table_tracks_jobs() {
    let mut t = JobTable::new();
    assert_eq!(t.len(), 0);
    assert_eq!(t.get_job_index(None), None);
    t.set_should_wait(true);
    t.add_job(vec![10, 11]);
    assert_eq!(t.get_current_job().unwrap(), &vec![10, 11]);
    t.set_should_wait(false);
    t.add_job(vec![20]);
    assert_eq!(t.len(), 2);
    assert_eq!(t.get_job_index(None), Some(1));
    assert_eq!(t.get_job_index(Some(11)), Some(0));
    assert_eq!(t.get_job_index(Some(20)), Some(1));
    assert_eq!(t.get_job_index(Some(99)), None);
    assert_eq!(t.get_current_job().unwrap(), &vec![10, 11]);
    t.set_should_wait(true);
    t.child_reaped(10);
    assert_eq!(t.job(0).unwrap(), &vec![11]);
    assert!(t.should_wait());
    t.child_reaped(11);
    assert_eq!(t.len(), 1);
    assert_eq!(t.job(0).unwrap(), &vec![20]);
    assert!(t.get_current_job().is_none());
    assert!(!t.should_wait());
}

#[test]
fn reaping_never_leaves_an_empty_job() {
    let mut t = JobTable::new();
    t.add_job(vec![1, 2, 3]);
    t.add_job(vec![4]);
    t.child_reaped(4);
    t.child_reaped(2);
    for i in 0..t.len() {
        assert!(!t.job(i).unwrap().is_empty());
    }
    assert_eq!(t.job(0).unwrap(), &vec![1, 3]);
}

#[test]
fn pipelines_are_read_part_by_part() {
    let a = Aliases::new();
    let p = parse_input(&a, "ls -l | grep x");
    assert_eq!(p.commands, vec![strings(&["ls", "-l"]), strings(&["grep", "x"])]);
    assert_eq!(p.out_file, None);
    assert!(!p.unclosed && !p.empty);

    let p = parse_input(&a, "sort -r > out");
    assert_eq!(p.commands, vec![strings(&["sort", "-r"])]);
    assert_eq!(p.out_file, Some("out".to_string()));

    // The last part is compared with its trimmed self only when written
    // without surrounding spaces; after a `|` and a space the redirection
    // stays among the words.
    let p = parse_input(&a, "ls | grep x > out");
    assert_eq!(p.commands, vec![strings(&["ls"]), strings(&["grep", "x", ">", "out"])]);
    assert_eq!(p.out_file, None);

    let p = parse_input(&a, "!print(1) | cat");
    assert_eq!(p.commands, vec![strings(&["!print(1)"]), strings(&["cat"])]);

    let p = parse_input(&a, "echo 'a | wc");
    assert!(p.unclosed);
    assert!(p.commands.is_empty());

    let p = parse_input(&a, "ls | ");
    assert!(p.empty);
    assert_eq!(p.commands, vec![strings(&["ls"])]);
}

#[test]
fn aliases_expand_in_pipelines() {
    let mut a = Aliases::new();
    a.alias(&strings(&["alias", "ll=ls -l"]));
    let p = parse_input(&a, "ll /tmp");
    assert_eq!(p.commands, vec![strings(&["ls", "-l", "/tmp"])]);
}

#[test]
fn pipeline_wiring() {
    assert_eq!(pipe_wiring(0, 1, false, false), (StdinFrom::Inherit, StdoutTo::Inherit, false));
    assert_eq!(pipe_wiring(0, 1, false, true), (StdinFrom::Inherit, StdoutTo::OutputFile, false));
    assert_eq!(pipe_wiring(0, 3, false, true), (StdinFrom::Unchanged, StdoutTo::Pipe, true));
    assert_eq!(pipe_wiring(1, 3, false, true), (StdinFrom::PreviousOutput, StdoutTo::Pipe, true));
    assert_eq!(pipe_wiring(2, 3, false, false), (StdinFrom::PreviousOutput, StdoutTo::Inherit, false));
    assert_eq!(pipe_wiring(0, 2, true, false), (StdinFrom::Unchanged, StdoutTo::Unchanged, false));
    assert_eq!(pipe_wiring(1, 2, true, false), (StdinFrom::PreviousOutput, StdoutTo::Unchanged, false));
    assert_eq!(pipe_wiring(0, 1, true, true), (StdinFrom::Unchanged, StdoutTo::OutputFile, false));
}

#[test]
fn parse_command_splits_on_any_run_of_blanks() {
    assert_eq!(parse_command("a \t b\n\nc").unwrap(), strings(&["a", "b", "c"]));
    assert_eq!(parse_command("a\rb c").unwrap(), strings(&["a\rb", "c"]));
}

#[test]
fn plan_line_reads_background_marker() {
    assert_eq!(plan_line(""), None);
    assert_eq!(plan_line("sleep 1 &"), Some(true));
    assert_eq!(plan_line("ls"), Some(false));
}

#[test]
fn segment_check_finds_first_missing_program() {
    assert_eq!(segment_check(&vec![true, false, false]), Some(1));
    assert_eq!(segment_check(&vec![false]), Some(0));
    assert_eq!(segment_check(&vec![true]), None);
    assert_eq!(segment_check(&vec![]), None);
}
