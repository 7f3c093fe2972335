//! The pieces of the Lua side that are plain text: where the scripts live,
//! how a Lua command is written, and how a dotted parameter name leads
//! through the configuration tables.

use vstd::prelude::*;
use crate::config::{lookup, params_view, ConfigParam, ConfigType, ConfigValue, Configs, Configurable};
use crate::text::{chars_of, split_char, split_on, string_of};

verus! {

broadcast use vstd::string::group_string_axioms;

/// Where the Lua scripts are loaded from.
#[derive(Debug)]
pub struct LuaScripts {
    dir: String,
}

pub open spec fn scripts_dir_name() -> Seq<char> {
    "lua.scripts_dir"@
}

pub open spec fn default_scripts_dir() -> Seq<char> {
    "${HOME}/.luabster/scripts"@
}

impl View for LuaScripts {
    type V = Seq<char>;

    closed spec fn view(&self) -> Seq<char> {
        self.dir@
    }
}

impl LuaScripts {
    /// The scripts under the default directory.
    pub fn new() -> (r: Self)
        ensures
            r@ == default_scripts_dir(),
    {
        LuaScripts { dir: "${HOME}/.luabster/scripts".to_owned() }
    }

    /// The directory, before shell expansion.
    pub fn dir(&self) -> (r: &String)
        ensures
            r@ == self@,
    {
        &self.dir
    }
}

impl Clone for LuaScripts {
    fn clone(&self) -> (r: Self)
        ensures
            r@ == self@,
    {
        LuaScripts { dir: self.dir.clone() }
    }
}

impl Configurable for LuaScripts {
    open spec fn spec_params() -> Seq<(Seq<char>, ConfigValue)> {
        seq![(scripts_dir_name(), ConfigValue::String(default_scripts_dir()))]
    }

    open spec fn spec_with_config(v: Seq<char>, configs: Seq<(Seq<char>, ConfigValue)>) -> Seq<char> {
        match lookup(configs, scripts_dir_name()) {
            Some(ConfigValue::String(d)) => d,
            _ => v,
        }
    }

    fn get_configs(&self) -> (r: Vec<ConfigParam>) {
        let r = vec![ConfigParam {
            name: "lua.scripts_dir".to_owned(),
            default: ConfigType::String("${HOME}/.luabster/scripts".to_owned()),
        }];
        assert(params_view(r@) =~= Self::spec_params());
        r
    }

    fn with_config(&mut self, configs: &Configs) {
        if let Some(dir) = configs.get("lua.scripts_dir") {
            match dir {
                ConfigType::String(dir) => self.dir = dir.clone(),
                _ => (),
            }
        }
    }
}

/// `s` without its leading `!` characters.
pub open spec fn trim_bangs(s: Seq<char>) -> Seq<char>
    decreases s.len(),
{
    if s.len() > 0 && s[0] == '!' { trim_bangs(s.drop_first()) } else { s }
}

/// The Lua code of a command written with the `!` prefix.
pub fn strip_prefix(command: &str) -> (r: String)
    ensures
        r@ == trim_bangs(command@),
{
    let cs = chars_of(command);
    let mut a: usize = 0;
    assert(cs@.skip(0) == cs@);
    while a < cs.len() && cs[a] == '!'
        invariant
            a <= cs.len(),
            trim_bangs(cs@.skip(a as int)) == trim_bangs(cs@),
        decreases cs.len() - a,
    {
        assert(cs@.skip(a as int).drop_first() == cs@.skip(a + 1));
        a += 1;
    }
    let mut r: Vec<char> = Vec::new();
    let mut i = a;
    while i < cs.len()
        invariant
            a <= i <= cs.len(),
            r@ == cs@.subrange(a as int, i as int),
        decreases cs.len() - i,
    {
        r.push(cs[i]);
        i += 1;
        assert(cs@.subrange(a as int, i as int) == cs@.subrange(a as int, i - 1).push(cs@[i - 1]));
    }
    assert(r@ == cs@.skip(a as int));
    string_of(&r)
}

/// The tables a dotted parameter name passes through, and the key looked
/// up in the last of them.
pub fn config_key_path(param: &str) -> (r: (Vec<String>, String))
    ensures
        r.0@.map_values(|t: String| t@) == split_on(param@, '.').drop_last(),
        r.1@ == split_on(param@, '.').last(),
{
    let pieces = split_char(&chars_of(param), '.');
    let ghost views = pieces@.map_values(|w: Vec<char>| w@);
    assert(views.len() > 0) by {
        crate::text::lemma_split_nonempty(param@, '.');
    }
    let mut tables: Vec<String> = Vec::new();
    let mut i: usize = 0;
    while i + 1 < pieces.len()
        invariant
            i + 1 <= pieces.len(),
            views == pieces@.map_values(|w: Vec<char>| w@),
            tables@.map_values(|t: String| t@) == views.take(i as int),
        decreases pieces.len() - i,
    {
        let t = string_of(&pieces[i]);
        let ghost before = tables@;
        tables.push(t);
        assert(tables@.map_values(|t: String| t@) == before.map_values(|t: String| t@).push(t@));
        assert(views.take(i + 1) == views.take(i as int).push(views[i as int]));
        i += 1;
    }
    let key = string_of(&pieces[pieces.len() - 1]);
    (tables, key)
}

/// A value of the configuration table, as far as reading settings goes.
pub enum ConfigNode {
    /// A table: its entries under text keys.
    Table(Vec<(String, ConfigNode)>),
    /// A value that reads as text (a string, or a number written out).
    Text(String),
    /// Any other value.
    Other,
}

/// The value of the first entry under `key`.
pub open spec fn entry_of(entries: Seq<(String, ConfigNode)>, key: Seq<char>) -> Option<ConfigNode>
    decreases entries.len(),
{
    if entries.len() == 0 {
        None
    } else if entries[0].0@ == key {
        Some(entries[0].1)
    } else {
        entry_of(entries.drop_first(), key)
    }
}

/// The node reached from `node` through the tables named by `path`; `None`
/// when a name is missing or a value on the way is no table.
pub open spec fn walk(node: ConfigNode, path: Seq<Seq<char>>) -> Option<ConfigNode>
    decreases path.len(),
{
    if path.len() == 0 {
        Some(node)
    } else {
        match node {
            ConfigNode::Table(es) => match entry_of(es@, path[0]) {
                Some(n) => walk(n, path.drop_first()),
                None => None,
            },
            _ => None,
        }
    }
}

/// The text configured for the dotted parameter name `param`: through the
/// tables its leading names give, the text under its last name.
pub open spec fn spec_config_text(root: ConfigNode, param: Seq<char>) -> Option<Seq<char>> {
    let pieces = split_on(param, '.');
    match walk(root, pieces.drop_last()) {
        Some(ConfigNode::Table(es)) => match entry_of(es@, pieces.last()) {
            Some(ConfigNode::Text(t)) => Some(t@),
            _ => None,
        },
        _ => None,
    }
}

fn find_entry<'a>(entries: &'a Vec<(String, ConfigNode)>, key: &str) -> (r: Option<&'a ConfigNode>)
    ensures
        match r {
            Some(n) => entry_of(entries@, key@) == Some(*n),
            None => entry_of(entries@, key@).is_none(),
        },
{
    let k = chars_of(key);
    let mut i: usize = 0;
    assert(entries@.skip(0) == entries@);
    while i < entries.len()
        invariant
            i <= entries.len(),
            k@ == key@,
            entry_of(entries@, key@) == entry_of(entries@.skip(i as int), key@),
        decreases entries.len() - i,
    {
        let ghost rest = entries@.skip(i as int);
        assert(rest[0] == entries@[i as int]);
        assert(rest.drop_first() == entries@.skip(i + 1));
        if crate::text::chars_eq(&chars_of(entries[i].0.as_str()), &k) {
            return Some(&entries[i].1);
        }
        i += 1;
    }
    None
}

/// The text configured for `param` in the configuration table `root`.
pub fn config_text(root: &ConfigNode, param: &str) -> (r: Option<String>)
    ensures
        match r {
            Some(t) => spec_config_text(*root, param@) == Some(t@),
            None => spec_config_text(*root, param@).is_none(),
        },
{
    let (tables, key) = config_key_path(param);
    let ghost pieces = split_on(param@, '.');
    let ghost names = tables@.map_values(|t: String| t@);
    proof {
        crate::text::lemma_split_nonempty(param@, '.');
    }
    let mut cur: &ConfigNode = root;
    let mut i: usize = 0;
    assert(names.skip(0) == names);
    while i < tables.len()
        invariant
            i <= tables.len(),
            names == tables@.map_values(|t: String| t@),
            pieces == split_on(param@, '.'),
            pieces.len() > 0,
            names == pieces.drop_last(),
            walk(*root, names) == walk(*cur, names.skip(i as int)),
        decreases tables.len() - i,
    {
        let ghost rest = names.skip(i as int);
        assert(rest[0] == tables@[i as int]@);
        assert(rest.drop_first() == names.skip(i + 1));
        match cur {
            ConfigNode::Table(es) => match find_entry(es, tables[i].as_str()) {
                Some(n) => {
                    cur = n;
                },
                None => {
                    assert(walk(*root, names) == None::<ConfigNode>);
                    assert(spec_config_text(*root, param@) == None::<Seq<char>>);
                    return None;
                },
            },
            _ => {
                assert(walk(*root, names) == None::<ConfigNode>);
                assert(spec_config_text(*root, param@) == None::<Seq<char>>);
                return None;
            },
        }
        i += 1;
    }
    assert(names.skip(tables.len() as int).len() == 0);
    match cur {
        ConfigNode::Table(es) => match find_entry(es, key.as_str()) {
            Some(ConfigNode::Text(t)) => Some(t.clone()),
            _ => None,
        },
        _ => None,
    }
}

/// The configured text of each parameter found in `root`, in the order of
/// the parameters.
pub open spec fn spec_read_configs(root: ConfigNode, params: Seq<Seq<char>>) -> Seq<(Seq<char>, Seq<char>)>
    decreases params.len(),
{
    if params.len() == 0 {
        Seq::empty()
    } else {
        let before = spec_read_configs(root, params.drop_last());
        match spec_config_text(root, params.last()) {
            Some(t) => before.push((params.last(), t)),
            None => before,
        }
    }
}

/// The configured text of each parameter found in the configuration table.
pub fn read_configs(root: &ConfigNode, params: &Vec<String>) -> (r: Vec<(String, String)>)
    ensures
        r@.map_values(|p: (String, String)| (p.0@, p.1@))
            == spec_read_configs(*root, params@.map_values(|n: String| n@)),
{
    let ghost ps = params@.map_values(|n: String| n@);
    let mut found: Vec<(String, String)> = Vec::new();
    let mut i: usize = 0;
    assert(ps.take(0) =~= Seq::<Seq<char>>::empty());
    while i < params.len()
        invariant
            i <= params.len(),
            ps == params@.map_values(|n: String| n@),
            found@.map_values(|p: (String, String)| (p.0@, p.1@)) == spec_read_configs(*root, ps.take(i as int)),
        decreases params.len() - i,
    {
        let ghost t = ps.take(i + 1);
        assert(t.drop_last() == ps.take(i as int));
        assert(t.last() == params@[i as int]@);
        let ghost before = found@;
        match config_text(root, params[i].as_str()) {
            Some(text) => {
                found.push((params[i].clone(), text));
                assert(found@.map_values(|p: (String, String)| (p.0@, p.1@))
                    =~= before.map_values(|p: (String, String)| (p.0@, p.1@)).push((params@[i as int]@, text@)));
            },
            None => {},
        }
        i += 1;
    }
    assert(ps.take(params.len() as int) == ps);
    found
}

} // verus!
