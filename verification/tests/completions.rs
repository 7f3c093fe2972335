use luabster::completions::{
    completion_lookup, entry_completion, files_query, get_bash_completions,
    get_command_specific_options, get_common_prefix, get_possibilities, get_possibility_type,
    get_similar_builtin_commands, get_similar_commands, get_string_at, is_command_completion,
    is_file_completion, missing_dir, possibilities_with_home, reverse_tilde_with,
    CompletionLookup, PosibilityType,
};
use luabster::expand::{expand_all, expand_path};

fn strings(v: &[&str]) -> Vec<String> {
    v.iter().map(|s| s.to_string()).collect()
}

#[test]
fn command_or_file_completion() {
    assert!(is_command_completion("", 0));
    assert!(is_command_completion("ls", 2));
    assert!(!is_command_completion("ls -l", 3));
    assert!(is_file_completion("ls ", 3));
    assert!(is_file_completion("ls -l", 5));
    assert!(!is_file_completion("ls", 1));
    assert_eq!(get_possibility_type("ls", 1), PosibilityType::Executable);
    assert_eq!(get_possibility_type("", 0), PosibilityType::Executable);
    assert_eq!(get_possibility_type("cat fi", 6), PosibilityType::File);
}

#[test]
fn text_under_the_cursor() {
    assert_eq!(get_string_at("cat foo", 7), "foo");
    assert_eq!(get_string_at("cat ", 4), " ");
    assert_eq!(get_string_at("cat foo bar", 5), "foo");
    assert_eq!(get_string_at("cat foo", 0), "cat");
    assert_eq!(get_string_at("a  b  ", 5), " ");
    assert_eq!(get_string_at("a b", 2), "b");
}

#[test]
fn escaped_spaces_stay_in_the_word() {
    assert_eq!(get_string_at("cat a\\ b", 8), "a\\ b");
    assert_eq!(get_string_at("ls my\\ long\\ name", 17), "my\\ long\\ name");
}

#[test]
fn common_prefix_sorts_the_candidates() {
    let mut v = strings(&["abd", "abc", "ab"]);
    assert_eq!(get_common_prefix(&mut v), Some("ab".to_string()));
    assert_eq!(v, strings(&["ab", "abc", "abd"]));
    let mut v = strings(&["x", "y"]);
    assert_eq!(get_common_prefix(&mut v), Some(String::new()));
    let mut v = strings(&["same"]);
    assert_eq!(get_common_prefix(&mut v), Some("same".to_string()));
}

#[test]
fn common_prefix_is_a_prefix_of_every_candidate() {
    let candidates = strings(&["cargo", "car", "cart", "carbon"]);
    let mut v = candidates.clone();
    let p = get_common_prefix(&mut v).unwrap();
    assert_eq!(p, "car");
    for c in &candidates {
        assert!(c.starts_with(&p));
    }
}

#[test]
fn builtin_commands_by_prefix() {
    assert_eq!(get_similar_builtin_commands("e"), strings(&["exit", "export", "eval"]));
    assert_eq!(get_similar_builtin_commands("zz"), Vec::<String>::new());
    assert_eq!(get_similar_builtin_commands("").len(), 9);
}

#[test]
fn similar_commands_sorted_and_unique() {
    let found = strings(&["echo", "env", "ls", "exit", "echo"]);
    let (c, d, v) = get_similar_commands("e", &found);
    assert_eq!(c, "e");
    assert_eq!(d, "");
    assert_eq!(v, strings(&["echo", "env", "eval", "exit", "export"]));
    let (_, _, v) = get_similar_commands("l", &found);
    assert_eq!(v, strings(&["ls", "luabster_update"]));
}

#[test]
fn file_queries() {
    let q = files_query(" ", &None);
    assert_eq!(q.full_query, " ");
    assert_eq!(q.orig_dir, ".");
    assert_eq!(q.dir, ".");
    assert_eq!(q.first_char, '.');

    let q = files_query("src/ma", &None);
    assert_eq!(q.full_query, "src/ma");
    assert_eq!(q.orig_dir, "src/");
    assert_eq!(q.dir, "src/");
    assert_eq!(q.first_char, 'm');

    let q = files_query("~/do", &Some("/home/u".to_string()));
    assert_eq!(q.full_query, "/home/u/do");
    assert_eq!(q.orig_dir, "/home/u/");
    assert_eq!(q.first_char, 'd');

    let q = files_query("my\\ dir/f", &None);
    assert_eq!(q.full_query, "my dir/f");
    assert_eq!(q.orig_dir, "my\\ dir/");
    assert_eq!(q.dir, "my dir/");
    assert_eq!(q.first_char, 'f');

    let q = missing_dir(files_query("fo", &None));
    assert_eq!(q.dir, "./");
    assert_eq!(q.orig_dir, "./");
    assert_eq!(q.full_query, "./fo");
    assert_eq!(q.first_char, 'f');
}

#[test]
fn directory_entries_offered() {
    let q = files_query("src/ma", &None);
    assert_eq!(entry_completion(&q, "src/main.rs", "main.rs", Some(false)), Some("main.rs".to_string()));
    assert_eq!(entry_completion(&q, "src/lib.rs", "lib.rs", Some(false)), None);
    assert_eq!(entry_completion(&q, "src/main.rs", "main.rs", None), None);
    assert_eq!(entry_completion(&q, "src/.mar", ".mar", Some(false)), None);

    let q = files_query("src/", &None);
    assert_eq!(q.first_char, ' ');
    assert_eq!(entry_completion(&q, "src/my dir", "my dir", Some(true)), Some("my\\ dir/".to_string()));

    let q = files_query(" ", &None);
    assert_eq!(entry_completion(&q, "./.x", ".x", Some(false)), Some(".x".to_string()));
    assert_eq!(entry_completion(&q, "./a b", "a b", Some(false)), Some("a\\ b".to_string()));
}

#[test]
fn home_written_as_tilde() {
    assert_eq!(reverse_tilde_with("/home/u/x", &Some("/home/u".to_string())), "~/x");
    assert_eq!(reverse_tilde_with("/tmp", &Some("/home/u".to_string())), "/tmp");
    assert_eq!(reverse_tilde_with("/home/u/x", &None), "/home/u/x");
}

#[test]
fn possibilities_offered() {
    let r = possibilities_with_home("cat fo", 6, ("fo".to_string(), String::new(), strings(&["foo"])), &None);
    assert_eq!(r, ("fo".to_string(), String::new(), strings(&["foo"])));

    let r = possibilities_with_home(
        "cat f",
        5,
        ("./f".to_string(), "./".to_string(), strings(&["foo", "far"])),
        &None,
    );
    assert_eq!(r.2, strings(&["far", "foo"]));

    let r = possibilities_with_home(
        "cat f",
        5,
        ("./f".to_string(), "./".to_string(), strings(&["foo2", "foo1"])),
        &None,
    );
    assert_eq!(r.2, strings(&["foo"]));

    let r = possibilities_with_home(
        "cat ~/f",
        7,
        ("/home/u/f".to_string(), "/home/u/".to_string(), strings(&["fa"])),
        &Some("/home/u".to_string()),
    );
    assert_eq!(r.0, "~/f");
    assert_eq!(r.1, "~/");

    let r = get_possibilities("cat fo", 6, ("fo".to_string(), "./".to_string(), strings(&["foo"])));
    assert_eq!(r.0, "fo");
    assert_eq!(r.2, strings(&["foo"]));
}

#[test]
fn which_lookup() {
    match completion_lookup("ls", 2) {
        CompletionLookup::Commands(c) => assert_eq!(c, "ls"),
        CompletionLookup::Files(_) => panic!("expected a command lookup"),
    }
    match completion_lookup("cat fo", 6) {
        CompletionLookup::Files(p) => assert_eq!(p, "fo"),
        CompletionLookup::Commands(_) => panic!("expected a file lookup"),
    }
}

#[test]
fn program_specific_completions_are_empty() {
    assert_eq!(get_bash_completions("x", "cat x", 5), Ok((String::new(), Vec::new())));
    assert_eq!(get_command_specific_options("cat fo", 6), ("fo".to_string(), String::new(), Vec::new()));
}

#[test]
fn plain_paths_are_not_expanded() {
    assert_eq!(expand_path("src/main.rs"), "src/main.rs");
}

#[test]
fn leading_tilde_keeps_the_rest_of_the_path() {
    for e in [expand_all("~/some/dir"), expand_path("~/some/dir")] {
        assert!(e == "~/some/dir" || e.ends_with("/some/dir"));
    }
    assert_eq!(expand_all("~user/x"), "~user/x");
    assert_eq!(expand_path("~user/x"), "~user/x");
    assert_eq!(expand_path("plain/x"), "plain/x");
}
