use luabster::expand::{expand_all, expand_env, expanded_or_same, expansion_command, find_expansion};
use luabster::log::LogLevel;
use luabster::shell::{correction_retry, replace_command, requested_log_level, Retry};

fn strings(v: &[&str]) -> Vec<String> {
    v.iter().map(|s| s.to_string()).collect()
}

#[test]
fn debug_level_from_arguments() {
    assert_eq!(requested_log_level(&strings(&["luabster"])), None);
    assert_eq!(requested_log_level(&strings(&["luabster", "-d", "warn"])), Some(LogLevel::Warn));
    assert_eq!(
        requested_log_level(&strings(&["luabster", "-d", "info", "-d", "ERROR"])),
        Some(LogLevel::Error)
    );
    assert_eq!(requested_log_level(&strings(&["-d", "whatever"])), Some(LogLevel::Info));
}

#[test]
fn corrections_replace_the_program() {
    let mut c = "sl -l; sl".to_string();
    replace_command(&mut c, "sl", "ls");
    assert_eq!(c, "ls -l; ls");
}

#[test]
fn menu_answers() {
    assert_eq!(correction_retry(0, "ls"), Retry::Replace);
    assert_eq!(correction_retry(0, "No solution found"), Retry::Skip);
    assert_eq!(correction_retry(1, "ls"), Retry::Skip);
    assert_eq!(correction_retry(2, "ls"), Retry::Edit);
    assert_eq!(correction_retry(3, "ls"), Retry::Skip);
}

#[test]
fn expansion() {
    assert_eq!(expand_all("plain text"), "plain text");
    assert_eq!(expand_env("~/no/vars"), "~/no/vars");
    assert_eq!(expanded_or_same("a", Some("b".to_string())), "b");
    assert_eq!(expanded_or_same("a", None), "a");
    assert_eq!(find_expansion("echo $(date) x"), Some("$(date)"));
    assert_eq!(find_expansion("echo $(a) $(b)"), Some("$(a)"));
    assert_eq!(find_expansion("echo $(date"), None);
    assert_eq!(find_expansion("echo (x)"), None);
    assert_eq!(expansion_command("$(date)"), "date");
}

#[test]
fn variables_with_defaults_expand() {
    assert_eq!(expand_all("${LUABSTER_NO_SUCH_VARIABLE:-fallback}/x"), "fallback/x");
    assert_eq!(expand_env("a ${LUABSTER_NO_SUCH_VARIABLE:-b} c"), "a b c");
    assert_eq!(luabster::expand::expand_path("${LUABSTER_NO_SUCH_VARIABLE:-/d}/x"), "/d/x");
}
