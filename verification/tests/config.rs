use luabster::config::{
    accepts, build_configs, configure, configure_from, configure_with, parse_color, parse_number, parse_string,
    param_names, parse_toggle, ConfigParam, ConfigType, Configurable, Configuration, ConfigurationLoader,
};
use luabster::input_parser::InputParser;
use luabster::log::LogLevel;
use luabster::lua_parser::{config_key_path, config_text, read_configs, strip_prefix, ConfigNode, LuaScripts};
use luabster::prompt::{git_branch_label, prompt_configs, Prompt};
use luabster::table::StringTable;

fn pairs(v: &[(&str, &str)]) -> Vec<(String, String)> {
    v.iter().map(|(a, b)| (a.to_string(), b.to_string())).collect()
}

#[test]
fn colors() {
    assert!(matches!(parse_color("#ff8000"), Some(ConfigType::Color((255, 128, 0)))));
    assert!(matches!(parse_color("#00FFaa"), Some(ConfigType::Color((0, 255, 170)))));
    assert!(parse_color("#zz").is_none());
    assert!(accepts(&ConfigType::Color((0, 0, 0)), "#123456"));
    assert!(!accepts(&ConfigType::Color((0, 0, 0)), "#12"));
    assert!(accepts(&ConfigType::Number(1), "#12"));
}

#[test]
fn numbers_strings_toggles() {
    assert!(matches!(parse_number("42"), Some(ConfigType::Number(42))));
    assert!(parse_number("x").is_none());
    assert!(matches!(parse_string("abc"), Some(ConfigType::String(s)) if s == "abc"));
    assert!(matches!(parse_toggle("TRUE"), Some(ConfigType::Toggle(true))));
    assert!(matches!(parse_toggle("False"), Some(ConfigType::Toggle(false))));
    assert!(parse_toggle("yes").is_none());
}

#[test]
fn defaults_stand_in_for_unreadable_text() {
    assert!(matches!((1u8, 2u8, 3u8).from_str("#zz"), ConfigType::Color((1, 2, 3))));
    assert!(matches!((1u8, 2u8, 3u8).from_str("#0a0b0c"), ConfigType::Color((10, 11, 12))));
    assert!(matches!(5u32.from_str("x"), ConfigType::Number(5)));
    assert!(matches!(5u32.from_str("7"), ConfigType::Number(7)));
    assert!(matches!(true.from_str("false"), ConfigType::Toggle(false)));
    assert!(matches!(true.from_str("maybe"), ConfigType::Toggle(true)));
    assert!(matches!("d".from_str("given"), ConfigType::String(s) if s == "given"));
    assert!(matches!("d".convert(), ConfigType::String(s) if s == "d"));
}

#[test]
fn configs_take_loaded_text_or_defaults() {
    let params = vec![
        ConfigParam { name: "a".to_string(), default: ConfigType::Number(1) },
        ConfigParam { name: "b".to_string(), default: ConfigType::Toggle(true) },
        ConfigParam { name: "c".to_string(), default: ConfigType::Number(3) },
    ];
    let c = build_configs(&pairs(&[("a", "7"), ("c", "bad"), ("a", "8")]), &params);
    assert!(matches!(c.get("a"), Some(ConfigType::Number(8))));
    assert!(matches!(c.get("b"), Some(ConfigType::Toggle(true))));
    assert!(matches!(c.get("c"), Some(ConfigType::Number(3))));
    assert!(c.get("d").is_none());
}

#[test]
fn configuring_the_shell() {
    let mut prompt = Prompt::new();
    let mut input = InputParser::new("/h");
    let mut scripts = LuaScripts::new();
    assert!(prompt.color("prompt.colors.dir").is_none());
    configure_with(
        &mut prompt,
        &mut input,
        &mut scripts,
        &pairs(&[
            ("prompt.colors.dir", "#010203"),
            ("prompt.show_git", "false"),
            ("input.history.length", "5"),
            ("lua.scripts_dir", "/s"),
        ]),
    );
    assert_eq!(prompt.color("prompt.colors.dir"), Some((1, 2, 3)));
    assert_eq!(prompt.color("prompt.colors.user"), Some((0, 0, 255)));
    assert_eq!(prompt.color("prompt.colors.host"), Some((0, 128, 0)));
    assert_eq!(prompt.color("prompt.colors.git"), Some((255, 0, 0)));
    assert!(!prompt.show_git());
    assert!(prompt.custom_prompt().is_none());
    assert_eq!(input.history_length(), Some(5));
    assert_eq!(scripts.dir(), "/s");
}

struct Fixed(Vec<(String, String)>);

impl ConfigurationLoader for Fixed {
    fn load_config(&self, _params: &Vec<String>) -> Vec<(String, String)> {
        self.0.clone()
    }
}

#[test]
fn configure_refuses_unreadable_colors() {
    let mut prompt = Prompt::new();
    let mut input = InputParser::new("/h");
    let mut scripts = LuaScripts::new();
    let ok = configure(&mut prompt, &mut input, &mut scripts, &Fixed(pairs(&[("prompt.colors.git", "#12")])));
    assert!(!ok);
    assert!(prompt.color("prompt.colors.git").is_none());
    let ok = configure(&mut prompt, &mut input, &mut scripts, &Fixed(pairs(&[("prompt.show_git", "TRUE")])));
    assert!(ok);
    assert!(prompt.show_git());
    assert_eq!(prompt.color("prompt.colors.git"), Some((255, 0, 0)));
    assert_eq!(input.history_length(), Some(1000));
    assert_eq!(scripts.dir(), "${HOME}/.luabster/scripts");
}

#[test]
fn parameters_and_their_defaults() {
    let names: Vec<String> = prompt_configs().into_iter().map(|p| p.name).collect();
    assert_eq!(
        names,
        vec![
            "prompt.show_git",
            "prompt.colors.dir",
            "prompt.colors.user",
            "prompt.colors.host",
            "prompt.colors.git"
        ]
    );
    let names: Vec<String> = InputParser::new("/h").get_configs().into_iter().map(|p| p.name).collect();
    assert_eq!(names, vec!["input.history.length"]);
    let names: Vec<String> = LuaScripts::new().get_configs().into_iter().map(|p| p.name).collect();
    assert_eq!(names, vec!["lua.scripts_dir"]);
}

#[test]
fn prompt_color_lookup() {
    let params = prompt_configs();
    let c = build_configs(&pairs(&[("prompt.colors.dir", "#0000ff")]), &params);
    assert_eq!(Prompt::get_config("prompt.colors.dir", (1, 1, 1), &c), (0, 0, 255));
    assert_eq!(Prompt::get_config("prompt.show_git", (1, 1, 1), &c), (1, 1, 1));
    assert_eq!(Prompt::get_config("missing", (1, 1, 1), &c), (1, 1, 1));
}

#[test]
fn git_branch_labels() {
    assert_eq!(git_branch_label("ref: refs/heads/main\n"), " \u{F09B} main");
    assert_eq!(git_branch_label("0123456789abcdef\n"), " \u{F09B} 0123456");
}

#[test]
fn prompts() {
    let mut prompt = Prompt::new();
    let mut input = InputParser::new("/h");
    let mut scripts = LuaScripts::new();
    configure_with(&mut prompt, &mut input, &mut scripts, &Vec::new());
    assert_eq!(prompt.get_with_host("/home/u", None, None, None, None), "[LUABSTER ] ??? >> ");
    let p = prompt.get_with_host("/home/u", Some("/tmp".to_string()), None, None, None);
    assert!(p.starts_with("[LUABSTER ] "));
    assert!(p.contains("/tmp"));
    assert!(p.ends_with(" >> "));
    let p = prompt.get_with_host(
        "/home/u",
        Some("/home/u/src".to_string()),
        Some("box".to_string()),
        Some("me".to_string()),
        Some("ref: refs/heads/dev\n".to_string()),
    );
    assert!(p.starts_with("["));
    assert!(p.contains("me"));
    assert!(p.contains("box"));
    assert!(p.contains("~/src"));
    assert!(p.contains("dev"));
    assert!(p.ends_with(" \n>> "));
    let p = prompt.get("/home/u", None, None, None);
    assert_eq!(p, "[LUABSTER ] ??? >> ");
}

#[test]
fn lua_helpers() {
    assert_eq!(strip_prefix("!!print(1)"), "print(1)");
    assert_eq!(strip_prefix("x"), "x");
    let (tables, key) = config_key_path("prompt.colors.dir");
    assert_eq!(tables, vec!["prompt".to_string(), "colors".to_string()]);
    assert_eq!(key, "dir");
    let (tables, key) = config_key_path("plain");
    assert!(tables.is_empty());
    assert_eq!(key, "plain");
}

#[test]
fn log_levels() {
    assert_eq!(LogLevel::from_name("DEBUG"), LogLevel::Debug);
    assert_eq!(LogLevel::from_name("Warn"), LogLevel::Warn);
    assert_eq!(LogLevel::from_name("bogus"), LogLevel::Info);
    assert_eq!("fatal".parse::<LogLevel>(), Ok(LogLevel::Fatal));
    assert_eq!(LogLevel::Error.rank(), 3);
    assert!(LogLevel::Error.shown_at(LogLevel::Warn));
    assert!(!LogLevel::Debug.shown_at(LogLevel::Info));
    assert_eq!(LogLevel::Info.name(), "Info ");
    assert_eq!(LogLevel::Fatal.name(), "Fatal");
}

#[test]
fn string_tables() {
    let mut t = StringTable::new();
    assert!(t.get("x").is_none());
    t.insert("x".to_string(), "1".to_string());
    t.insert("y".to_string(), "2".to_string());
    t.insert("x".to_string(), "3".to_string());
    assert_eq!(t.get("x").unwrap(), "3");
    assert_eq!(t.get("y").unwrap(), "2");
}

#[test]
fn configuring_from_loaded_text() {
    let mut prompt = Prompt::new();
    let mut input = InputParser::new("/h");
    let mut scripts = LuaScripts::new();
    assert!(!configure_from(&mut prompt, &mut input, &mut scripts, &pairs(&[("prompt.colors.dir", "#1")])));
    assert!(prompt.color("prompt.colors.dir").is_none());
    assert!(input.history_length().is_none());
    assert!(configure_from(&mut prompt, &mut input, &mut scripts, &pairs(&[("input.history.length", "9")])));
    assert_eq!(input.history_length(), Some(9));
    assert_eq!(prompt.color("prompt.colors.dir"), Some((0, 255, 255)));
}

#[test]
fn param_names_keeps_order_and_repeats() {
    let params = vec![
        ConfigParam { name: "prompt.prompt".to_string(), default: ConfigType::String(String::new()) },
        ConfigParam { name: "lua.scripts_dir".to_string(), default: ConfigType::String("x".to_string()) },
        ConfigParam { name: "prompt.prompt".to_string(), default: ConfigType::Toggle(true) },
    ];
    assert_eq!(param_names(&params), vec!["prompt.prompt", "lua.scripts_dir", "prompt.prompt"]);
    assert_eq!(param_names(&Vec::new()), Vec::<String>::new());
}

#[test]
fn log_level_names_read_back() {
    for l in [LogLevel::Debug, LogLevel::Info, LogLevel::Warn, LogLevel::Error, LogLevel::Fatal] {
        assert_eq!(l.name().trim().parse::<LogLevel>(), Ok(l));
    }
    assert_eq!("WARN".parse::<LogLevel>(), Ok(LogLevel::Warn));
    assert_eq!("bogus".parse::<LogLevel>(), Ok(LogLevel::Info));
}

fn text(s: &str) -> ConfigNode {
    ConfigNode::Text(s.to_string())
}

fn table(entries: Vec<(&str, ConfigNode)>) -> ConfigNode {
    ConfigNode::Table(entries.into_iter().map(|(k, v)| (k.to_string(), v)).collect())
}

#[test]
fn config_text_follows_dotted_names() {
    let root = table(vec![
        ("prompt", table(vec![("prompt", text(">> ")), ("colors", table(vec![("user", text("#ff0000"))]))])),
        ("lua", text("not a table")),
        ("log", table(vec![("level", ConfigNode::Other)])),
    ]);
    assert_eq!(config_text(&root, "prompt.prompt"), Some(">> ".to_string()));
    assert_eq!(config_text(&root, "prompt.colors.user"), Some("#ff0000".to_string()));
    assert_eq!(config_text(&root, "prompt.colors"), None);
    assert_eq!(config_text(&root, "lua.scripts_dir"), None);
    assert_eq!(config_text(&root, "log.level"), None);
    assert_eq!(config_text(&root, "missing.key"), None);
    assert_eq!(config_text(&text("top"), "anything"), None);

    let names = vec!["log.level".to_string(), "prompt.prompt".to_string(), "prompt.colors.user".to_string()];
    assert_eq!(
        read_configs(&root, &names),
        pairs(&[("prompt.prompt", ">> "), ("prompt.colors.user", "#ff0000")])
    );
}

struct Recording(std::cell::RefCell<Vec<String>>);

impl ConfigurationLoader for Recording {
    fn load_config(&self, params: &Vec<String>) -> Vec<(String, String)> {
        *self.0.borrow_mut() = params.clone();
        Vec::new()
    }
}

#[test]
fn configure_asks_for_every_parameter_in_order() {
    let mut prompt = Prompt::new();
    let mut input = InputParser::new("/h");
    let mut scripts = LuaScripts::new();
    let mut expected = param_names(&prompt.get_configs());
    expected.extend(param_names(&input.get_configs()));
    expected.extend(param_names(&scripts.get_configs()));
    let loader = Recording(std::cell::RefCell::new(Vec::new()));
    assert!(configure(&mut prompt, &mut input, &mut scripts, &loader));
    assert_eq!(*loader.0.borrow(), expected);
    assert!(expected.contains(&"lua.scripts_dir".to_string()));
}
