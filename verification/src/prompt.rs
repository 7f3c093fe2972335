//! The prompt's settings: its colors, an optional custom prompt and whether
//! the git branch is shown.

use vstd::prelude::*;
use colored::Colorize;
use crate::config::{
    lookup, params_view, ConfigParam, ConfigType, ConfigValue, Configs, Configurable,
};
use crate::text::{chars_eq, chars_of, floor_index, prefix_bytes, is_floor_index, is_substring, replace, replace_spec, starts_with, string_of};

verus! {

broadcast use vstd::string::group_string_axioms;

pub type ColorHex = (u8, u8, u8);

/// The colors as a map: a later entry for a name stands over an earlier one.
pub open spec fn color_map(v: Seq<(Seq<char>, ColorHex)>) -> Map<Seq<char>, ColorHex>
    decreases v.len(),
{
    if v.len() == 0 {
        Map::empty()
    } else {
        color_map(v.drop_last()).insert(v.last().0, v.last().1)
    }
}

pub ghost struct PromptView {
    pub colors: Map<Seq<char>, ColorHex>,
    pub custom_prompt: Option<Seq<char>>,
    pub show_git: bool,
}

/// The prompt's settings.
pub struct Prompt {
    colors: Vec<(String, ColorHex)>,
    custom_prompt: Option<String>,
    show_git: bool,
}

pub open spec fn colors_view(v: Seq<(String, ColorHex)>) -> Seq<(Seq<char>, ColorHex)> {
    v.map_values(|e: (String, ColorHex)| (e.0@, e.1))
}

impl View for Prompt {
    type V = PromptView;

    closed spec fn view(&self) -> PromptView {
        PromptView {
            colors: color_map(colors_view(self.colors@)),
            custom_prompt: match self.custom_prompt {
                Some(s) => Some(s@),
                None => None,
            },
            show_git: self.show_git,
        }
    }
}

pub open spec fn dir_color_name() -> Seq<char> { "prompt.colors.dir"@ }
pub open spec fn user_color_name() -> Seq<char> { "prompt.colors.user"@ }
pub open spec fn host_color_name() -> Seq<char> { "prompt.colors.host"@ }
pub open spec fn git_color_name() -> Seq<char> { "prompt.colors.git"@ }
pub open spec fn show_git_name() -> Seq<char> { "prompt.show_git"@ }
pub open spec fn custom_prompt_name() -> Seq<char> { "prompt.custom_prompt"@ }

/// The prompt's parameters and their defaults.
pub open spec fn prompt_params() -> Seq<(Seq<char>, ConfigValue)> {
    seq![
        (show_git_name(), ConfigValue::Toggle(true)),
        (dir_color_name(), ConfigValue::Color((0x00, 0xFF, 0xFF))),
        (user_color_name(), ConfigValue::Color((0x00, 0x00, 0xFF))),
        (host_color_name(), ConfigValue::Color((0x00, 0x80, 0x00))),
        (git_color_name(), ConfigValue::Color((0xFF, 0x00, 0x00))),
    ]
}

/// The color configured for `name`, or `default`.
pub open spec fn spec_get_config(name: Seq<char>, default: ColorHex, configs: Seq<(Seq<char>, ConfigValue)>) -> ColorHex {
    match lookup(configs, name) {
        Some(ConfigValue::Color(c)) => c,
        _ => default,
    }
}

/// The colors after each color parameter of `params` is set to its
/// configured value or its default.
pub open spec fn colors_after(
    colors: Map<Seq<char>, ColorHex>,
    params: Seq<(Seq<char>, ConfigValue)>,
    configs: Seq<(Seq<char>, ConfigValue)>,
) -> Map<Seq<char>, ColorHex>
    decreases params.len(),
{
    if params.len() == 0 {
        colors
    } else {
        let before = colors_after(colors, params.drop_last(), configs);
        match params.last().1 {
            ConfigValue::Color(c) => before.insert(
                params.last().0,
                spec_get_config(params.last().0, c, configs),
            ),
            _ => before,
        }
    }
}

/// What a configuration makes of the prompt's settings.
pub open spec fn spec_prompt_with_config(v: PromptView, configs: Seq<(Seq<char>, ConfigValue)>) -> PromptView {
    let custom = match lookup(configs, custom_prompt_name()) {
        Some(ConfigValue::String(s)) => Some(s),
        _ => v.custom_prompt,
    };
    let show = match lookup(configs, show_git_name()) {
        Some(ConfigValue::Toggle(b)) => b,
        _ => v.show_git,
    };
    PromptView {
        colors: colors_after(v.colors, prompt_params(), configs),
        custom_prompt: custom,
        show_git: show,
    }
}

/// However it is configured, the prompt has all four of its colors, so it
/// can always be drawn.
pub proof fn law_configured_prompt_has_colors(v: PromptView, configs: Seq<(Seq<char>, ConfigValue)>)
    ensures
        ({
            let c = spec_prompt_with_config(v, configs).colors;
            &&& c.contains_key(dir_color_name())
            &&& c.contains_key(user_color_name())
            &&& c.contains_key(host_color_name())
            &&& c.contains_key(git_color_name())
        }),
{
    let ps = prompt_params();
    let p4 = ps.drop_last();
    let p3 = p4.drop_last();
    let p2 = p3.drop_last();
    assert(ps.last().0 == git_color_name());
    assert(p4.last().0 == host_color_name());
    assert(p3.last().0 == user_color_name());
    assert(p2.last().0 == dir_color_name());
    let c2 = colors_after(v.colors, p2, configs);
    let c3 = colors_after(v.colors, p3, configs);
    let c4 = colors_after(v.colors, p4, configs);
    let c5 = colors_after(v.colors, ps, configs);
    assert(c2.contains_key(dir_color_name()));
    assert(c3 == c2.insert(user_color_name(), spec_get_config(user_color_name(), (0x00, 0x00, 0xFF), configs)));
    assert(c4 == c3.insert(host_color_name(), spec_get_config(host_color_name(), (0x00, 0x80, 0x00), configs)));
    assert(c5 == c4.insert(git_color_name(), spec_get_config(git_color_name(), (0xFF, 0x00, 0x00), configs)));
}

/// The prompt's parameters, with their defaults.
pub fn prompt_configs() -> (r: Vec<ConfigParam>)
    ensures
        params_view(r@) == prompt_params(),
{
    let r = vec![
        ConfigParam { name: "prompt.show_git".to_owned(), default: ConfigType::Toggle(true) },
        ConfigParam { name: "prompt.colors.dir".to_owned(), default: ConfigType::Color((0x00, 0xFF, 0xFF)) },
        ConfigParam { name: "prompt.colors.user".to_owned(), default: ConfigType::Color((0x00, 0x00, 0xFF)) },
        ConfigParam { name: "prompt.colors.host".to_owned(), default: ConfigType::Color((0x00, 0x80, 0x00)) },
        ConfigParam { name: "prompt.colors.git".to_owned(), default: ConfigType::Color((0xFF, 0x00, 0x00)) },
    ];
    assert(params_view(r@) =~= prompt_params());
    r
}

/// Setting the entry at the last position named `k` is inserting into the map.
proof fn lemma_color_map_update(v: Seq<(Seq<char>, ColorHex)>, i: int, k: Seq<char>, c: ColorHex)
    requires
        0 <= i < v.len(),
        v[i].0 == k,
        forall|j: int| i < j < v.len() ==> v[j].0 != k,
    ensures
        color_map(v.update(i, (k, c))) == color_map(v).insert(k, c),
    decreases v.len(),
{
    let u = v.update(i, (k, c));
    if i == v.len() - 1 {
        assert(u.drop_last() == v.drop_last());
        assert(color_map(v.drop_last()).insert(k, v.last().1).insert(k, c)
            == color_map(v.drop_last()).insert(k, c));
    } else {
        assert(u.drop_last() == v.drop_last().update(i, (k, c)));
        lemma_color_map_update(v.drop_last(), i, k, c);
        assert(v.last().0 != k);
        assert(color_map(v.drop_last()).insert(k, c).insert(v.last().0, v.last().1)
            == color_map(v.drop_last()).insert(v.last().0, v.last().1).insert(k, c));
    }
}

impl Prompt {
    /// A prompt with no colors, no custom prompt and no git branch.
    pub fn new() -> (r: Self)
        ensures
            r@ == (PromptView { colors: Map::empty(), custom_prompt: None, show_git: false }),
    {
        let r = Prompt { colors: Vec::new(), custom_prompt: None, show_git: false };
        assert(colors_view(r.colors@) == Seq::<(Seq<char>, ColorHex)>::empty());
        r
    }

    /// The color set for `name`.
    pub fn color(&self, name: &str) -> (r: Option<ColorHex>)
        ensures
            r == (if self@.colors.contains_key(name@) { Some(self@.colors[name@]) } else { None }),
    {
        let key = chars_of(name);
        let ghost v = colors_view(self.colors@);
        let mut i = self.colors.len();
        while i > 0
            invariant
                i <= self.colors@.len(),
                key@ == name@,
                v == colors_view(self.colors@),
                forall|j: int| i <= j < v.len() ==> v[j].0 != name@,
            decreases i,
        {
            i -= 1;
            assert(v[i as int] == (self.colors@[i as int].0@, self.colors@[i as int].1));
            let entry_name = chars_of(self.colors[i].0.as_str());
            assert(entry_name@ == v[i as int].0);
            if chars_eq(&entry_name, &key) {
                proof {
                    lemma_color_map_last(v, i as int, name@);
                }
                return Some(self.colors[i].1);
            }
        }
        proof {
            lemma_color_map_absent(v, name@);
        }
        None
    }

    /// Sets the color of `name`.
    fn insert_color(&mut self, name: &str, c: ColorHex)
        ensures
            final(self)@ == (PromptView { colors: old(self)@.colors.insert(name@, c), ..old(self)@ }),
    {
        let key = chars_of(name);
        let ghost before = colors_view(self.colors@);
        let mut i = self.colors.len();
        while i > 0
            invariant
                i <= self.colors@.len(),
                key@ == name@,
                self.colors@ == old(self).colors@,
                self.custom_prompt == old(self).custom_prompt,
                self.show_git == old(self).show_git,
                before == colors_view(self.colors@),
                forall|j: int| i <= j < before.len() ==> before[j].0 != name@,
            decreases i,
        {
            i -= 1;
            assert(before[i as int] == (self.colors@[i as int].0@, self.colors@[i as int].1));
            let entry_name = chars_of(self.colors[i].0.as_str());
            assert(entry_name@ == before[i as int].0);
            if chars_eq(&entry_name, &key) {
                let entry = (name.to_owned(), c);
                self.colors.set(i, entry);
                proof {
                    lemma_color_map_update(before, i as int, name@, c);
                    assert(colors_view(self.colors@) =~= before.update(i as int, (name@, c)));
                }
                return;
            }
        }
        let entry = (name.to_owned(), c);
        self.colors.push(entry);
        assert(colors_view(self.colors@) =~= before.push((name@, c)));
        assert(colors_view(self.colors@).drop_last() == before);
    }

    /// The custom prompt, when one is configured.
    pub fn custom_prompt(&self) -> (r: Option<&String>)
        ensures
            match r {
                Some(s) => self@.custom_prompt == Some(s@),
                None => self@.custom_prompt.is_none(),
            },
    {
        match &self.custom_prompt {
            Some(s) => Some(s),
            None => None,
        }
    }

    /// Whether the git branch is shown.
    pub fn show_git(&self) -> (r: bool)
        ensures
            r == self@.show_git,
    {
        self.show_git
    }

    /// The color configured for `conf`, or `default`.
    pub fn get_config(conf: &str, default: ColorHex, configs: &Configs) -> (r: ColorHex)
        ensures
            r == spec_get_config(conf@, default, configs@),
    {
        match configs.get(conf) {
            Some(ConfigType::Color(c)) => *c,
            _ => default,
        }
    }
}

/// The map holds, for a name, the value of the last entry with that name.
proof fn lemma_color_map_last(v: Seq<(Seq<char>, ColorHex)>, i: int, k: Seq<char>)
    requires
        0 <= i < v.len(),
        v[i].0 == k,
        forall|j: int| i < j < v.len() ==> v[j].0 != k,
    ensures
        color_map(v).contains_key(k),
        color_map(v)[k] == v[i].1,
    decreases v.len(),
{
    if i < v.len() - 1 {
        lemma_color_map_last(v.drop_last(), i, k);
    }
}

proof fn lemma_color_map_absent(v: Seq<(Seq<char>, ColorHex)>, k: Seq<char>)
    requires
        forall|j: int| 0 <= j < v.len() ==> v[j].0 != k,
    ensures
        !color_map(v).contains_key(k),
    decreases v.len(),
{
    if v.len() > 0 {
        lemma_color_map_absent(v.drop_last(), k);
    }
}


impl Configurable for Prompt {
    open spec fn spec_params() -> Seq<(Seq<char>, ConfigValue)> {
        prompt_params()
    }

    open spec fn spec_with_config(v: PromptView, configs: Seq<(Seq<char>, ConfigValue)>) -> PromptView {
        spec_prompt_with_config(v, configs)
    }

    fn get_configs(&self) -> (r: Vec<ConfigParam>) {
        prompt_configs()
    }

    fn with_config(&mut self, configs: &Configs) {
        let ghost start = self@;
        if let Some(p) = configs.get("prompt.custom_prompt") {
            match p {
                ConfigType::String(s) => self.custom_prompt = Some(s.clone()),
                _ => (),
            }
        }
        if let Some(b) = configs.get("prompt.show_git") {
            match b {
                ConfigType::Toggle(b) => self.show_git = *b,
                _ => (),
            }
        }
        let ghost custom = self@.custom_prompt;
        let ghost show = self@.show_git;
        assert(self@.colors == start.colors);
        let params = prompt_configs();
        let ghost ps = params_view(params@);
        let mut i: usize = 0;
        while i < params.len()
            invariant
                i <= params.len(),
                ps == params_view(params@),
                self@.custom_prompt == custom,
                self@.show_git == show,
                self@.colors == colors_after(start.colors, ps.take(i as int), configs@),
            decreases params.len() - i,
        {
            assert(ps.take(i + 1).drop_last() == ps.take(i as int));
            assert(ps[i as int] == (params[i as int].name@, params[i as int].default@));
            match &params[i].default {
                ConfigType::Color(c) => {
                    let color = Self::get_config(params[i].name.as_str(), *c, configs);
                    self.insert_color(params[i].name.as_str(), color);
                },
                _ => (),
            }
            i += 1;
        }
        assert(ps.take(params.len() as int) == ps);
    }
}

/// The label for the git head: the branch named by a `ref:` line, or else
/// the first seven bytes of the commit id, after a branch symbol.
pub open spec fn spec_git_branch_label(head: Seq<char>, k: int) -> Seq<char> {
    let b = if starts_with(head, "ref:"@) {
        replace_spec(replace_spec(head, "ref: refs/heads/"@, ""@), "\n"@, ""@)
    } else {
        head.take(k)
    };
    " \u{F09B} "@ + b
}

/// Whether the label is defined: a head that is no `ref:` line has a
/// character boundary at byte seven.
pub open spec fn git_head_readable(head: Seq<char>) -> bool {
    !starts_with(head, "ref:"@) ==> exists|k: int| #[trigger] is_floor_index(head, 7, k) && prefix_bytes(head, k) == 7
}

/// The label shown for the contents of `.git/HEAD`.
pub fn git_branch_label(head: &str) -> (r: String)
    requires
        git_head_readable(head@),
    ensures
        r@ == spec_git_branch_label(head@, crate::text::floor_pos(head@, 7)),
{
    let cs = chars_of(head);
    let (k, bytes) = floor_index(&cs, 7);
    proof {
        crate::text::lemma_floor_index_unique(head@, 7, k as int, crate::text::floor_pos(head@, 7));
    }
    let b = if crate::text::matches_at(&cs, &chars_of("ref:"), 0) {
        let no_ref = replace(head, "ref: refs/heads/", "");
        replace(no_ref.as_str(), "\n", "")
    } else {
        proof {
            let k2 = choose|k2: int| is_floor_index(head@, 7, k2) && prefix_bytes(head@, k2) == 7;
            crate::text::lemma_floor_index_unique(head@, 7, k as int, k2);
        }
        let mut t: Vec<char> = Vec::new();
        let mut j: usize = 0;
        while j < k
            invariant
                j <= k,
                k <= cs.len(),
                t@ == cs@.take(j as int),
            decreases k - j,
        {
            t.push(cs[j]);
            j += 1;
            assert(cs@.take(j as int) == cs@.take(j - 1).push(cs@[j - 1]));
        }
        string_of(&t)
    };
    let mut label = " \u{F09B} ".to_owned();
    label.append(b.as_str());
    assert(is_floor_index(head@, 7, k as int) && label@ == spec_git_branch_label(head@, k as int));
    label
}

/// The sequence that ends a colored span.
pub open spec fn reset_seq() -> Seq<char> {
    seq!['\u{1b}', '[', '0', 'm']
}

/// `r` is `s` as `paint` may give it: `s` itself, or `s` between a style
/// sequence and the reset sequence (nothing is claimed when `s` holds a
/// reset sequence of its own).
pub open spec fn may_paint(r: Seq<char>, s: Seq<char>) -> bool {
    is_substring(reset_seq(), s) || r == s || exists|style: Seq<char>| r == style + s + reset_seq()
}

/// `colored`'s `custom_color` and `Display`: `s` in the color `c`. Whether
/// colors are written at all, and how (true color or the nearest of the
/// basic colors), depends on the terminal and the environment, so all that
/// is said is that, for text without a reset sequence of its own, the text
/// comes back alone or between a style sequence and the reset sequence.
#[verifier::external_body]
fn paint(s: &str, c: ColorHex) -> (r: String)
    ensures
        may_paint(r@, s@),
{
    s.custom_color(colored::CustomColor::new(c.0, c.1, c.2)).to_string()
}

/// `hostname::get`: the machine's host name as text (lossy), when it can be
/// read. It comes from the system, so nothing is said of it.
#[verifier::external_body]
fn hostname_string() -> (r: Option<String>) {
    match hostname::get() {
        Ok(h) => Some(h.to_string_lossy().to_string()),
        Err(_) => None,
    }
}

/// The label of the git head, or nothing.
pub open spec fn branch_text(git_head: Option<Seq<char>>) -> Seq<char> {
    match git_head {
        Some(h) => spec_git_branch_label(h, crate::text::floor_pos(h, 7)),
        None => Seq::empty(),
    }
}

/// What the prompt may read, given the settings, the home directory, the
/// current directory, the host name, the user name and the git head: the
/// custom prompt when there is one; without a current directory a fixed
/// prompt; without a host name the directory; else user, host, directory
/// (the home directory written `~`) and, when shown, the git branch, each in
/// its color.
pub open spec fn prompt_outcome(
    v: PromptView,
    home_dir: Seq<char>,
    cwd: Option<Seq<char>>,
    host: Option<Seq<char>>,
    user: Option<Seq<char>>,
    git_head: Option<Seq<char>>,
    r: Seq<char>,
) -> bool {
    if v.custom_prompt is Some {
        r == v.custom_prompt.unwrap()
    } else if cwd is None {
        r == "[LUABSTER ] ??? >> "@
    } else if host is None {
        exists|pd: Seq<char>| #[trigger] may_paint(pd, cwd.unwrap()) && r == "[LUABSTER ] "@ + pd + " >> "@
    } else {
        exists|pu: Seq<char>, ph: Seq<char>, pd: Seq<char>, pb: Seq<char>| {
            &&& #[trigger] may_paint(pu, user.unwrap())
            &&& #[trigger] may_paint(ph, host.unwrap())
            &&& #[trigger] may_paint(pd, replace_spec(cwd.unwrap(), home_dir, "~"@))
            &&& #[trigger] may_paint(pb, branch_text(git_head))
            &&& r == "["@ + pu + "@"@ + ph + "] "@ + pd + (if v.show_git { pb } else { Seq::empty() }) + " \n>> "@
        }
    }
}

/// The inputs on which building the prompt does not fail: without a custom
/// prompt all four colors are set, and with a directory and a host name
/// there is a user name and a readable git head, if any.
pub open spec fn prompt_defined(
    v: PromptView,
    cwd: Option<Seq<char>>,
    host: Option<Seq<char>>,
    user: Option<Seq<char>>,
    git_head: Option<Seq<char>>,
) -> bool {
    v.custom_prompt is None ==> {
        &&& v.colors.contains_key(dir_color_name())
        &&& v.colors.contains_key(user_color_name())
        &&& v.colors.contains_key(host_color_name())
        &&& v.colors.contains_key(git_color_name())
        &&& (cwd is Some && host is Some ==> user is Some && match git_head {
            Some(g) => git_head_readable(g),
            None => true,
        })
    }
}

pub open spec fn opt_view(o: Option<String>) -> Option<Seq<char>> {
    match o {
        Some(s) => Some(s@),
        None => None,
    }
}

/// `s` painted, appended to `out`.
fn push_painted(out: &mut Vec<char>, s: &str, c: ColorHex) -> (p: Ghost<Seq<char>>)
    ensures
        may_paint(p@, s@),
        final(out)@ == old(out)@ + p@,
{
    let painted = chars_of(paint(s, c).as_str());
    crate::text::append_chars(out, &painted);
    Ghost(painted@)
}

/// `s` appended to `out`.
fn push_text(out: &mut Vec<char>, s: &str)
    ensures
        final(out)@ == old(out)@ + s@,
{
    crate::text::append_chars(out, &chars_of(s));
}

fn must_color(p: &Prompt, name: &str) -> (r: ColorHex)
    requires
        p@.colors.contains_key(name@),
    ensures
        r == p@.colors[name@],
{
    match p.color(name) {
        Some(c) => c,
        None => {
            assert(false);
            (0, 0, 0)
        },
    }
}

impl Prompt {
    /// The prompt, given the home directory, the current directory, the
    /// host name, the user name and the contents of `.git/HEAD` where they
    /// could be read.
    pub fn get_with_host(
        &self,
        home_dir: &str,
        cwd: Option<String>,
        host: Option<String>,
        user: Option<String>,
        git_head: Option<String>,
    ) -> (r: String)
        requires
            prompt_defined(self@, opt_view(cwd), opt_view(host), opt_view(user), opt_view(git_head)),
        ensures
            prompt_outcome(self@, home_dir@, opt_view(cwd), opt_view(host), opt_view(user), opt_view(git_head), r@),
    {
        if let Some(c) = &self.custom_prompt {
            return c.clone();
        }
        let dir_color = must_color(self, "prompt.colors.dir");
        let git_color = must_color(self, "prompt.colors.git");
        let user_color = must_color(self, "prompt.colors.user");
        let host_color = must_color(self, "prompt.colors.host");
        let d = match cwd {
            Some(d) => d,
            None => {
                let r = "[LUABSTER ] ??? >> ".to_owned();
                    return r;
            },
        };
        let mut out: Vec<char> = Vec::new();
        match host {
            None => {
                push_text(&mut out, "[LUABSTER ] ");
                let Ghost(pd) = push_painted(&mut out, d.as_str(), dir_color);
                push_text(&mut out, " >> ");
                assert(out@ == "[LUABSTER ] "@ + pd + " >> "@);
                let r = string_of(&out);
                assert(may_paint(pd, opt_view(cwd).unwrap()));
                    r
            },
            Some(h) => {
                let u = match user {
                    Some(u) => u,
                    None => {
                        assert(false);
                        String::new()
                    },
                };
                let shown_dir = replace(d.as_str(), home_dir, "~");
                let branch = match &git_head {
                    Some(g) => git_branch_label(g.as_str()),
                    None => String::new(),
                };
                push_text(&mut out, "[");
                let Ghost(pu) = push_painted(&mut out, u.as_str(), user_color);
                push_text(&mut out, "@");
                let Ghost(ph) = push_painted(&mut out, h.as_str(), host_color);
                push_text(&mut out, "] ");
                let Ghost(pd) = push_painted(&mut out, shown_dir.as_str(), dir_color);
                let mut painted_branch: Vec<char> = Vec::new();
                let Ghost(pb) = push_painted(&mut painted_branch, branch.as_str(), git_color);
                if self.show_git {
                    crate::text::append_chars(&mut out, &painted_branch);
                }
                push_text(&mut out, " \n>> ");
                assert(out@ == "["@ + pu + "@"@ + ph + "] "@ + pd + (if self@.show_git { pb } else { Seq::empty() }) + " \n>> "@);
                let r = string_of(&out);
                assert(may_paint(pu, opt_view(user).unwrap()));
                assert(may_paint(ph, opt_view(host).unwrap()));
                assert(may_paint(pd, replace_spec(opt_view(cwd).unwrap(), home_dir@, "~"@)));
                assert(may_paint(pb, branch_text(opt_view(git_head))));
                    r
            },
        }
    }

    /// The prompt, given the home directory and the current directory, the
    /// user name and the contents of `.git/HEAD` where they could be read;
    /// without a custom prompt, the host name is read here. Since the host name may be found, a user
    /// name (and a readable git head, if any) is needed whenever there is a
    /// current directory.
    pub fn get(&self, home_dir: &str, cwd: Option<String>, user: Option<String>, git_head: Option<String>) -> (r: String)
        requires
            prompt_defined(self@, opt_view(cwd), Some(Seq::empty()), opt_view(user), opt_view(git_head)),
        ensures
            exists|host: Option<Seq<char>>| prompt_outcome(self@, home_dir@, opt_view(cwd), host, opt_view(user), opt_view(git_head), r@),
    {
        if let Some(c) = &self.custom_prompt {
            let r = c.clone();
            assert(prompt_outcome(self@, home_dir@, opt_view(cwd), None, opt_view(user), opt_view(git_head), r@));
            return r;
        }
        let host = hostname_string();
        let ghost hv = opt_view(host);
        let r = self.get_with_host(home_dir, cwd, host, user, git_head);
        assert(prompt_outcome(self@, home_dir@, opt_view(cwd), hv, opt_view(user), opt_view(git_head), r@));
        r
    }
}
/// Whether the label of the git head can be made (see `git_head_readable`).
pub fn git_head_is_readable(head: &str) -> (r: bool)
    ensures
        r == git_head_readable(head@),
{
    let cs = chars_of(head);
    if crate::text::matches_at(&cs, &chars_of("ref:"), 0) {
        return true;
    }
    let (k, p) = floor_index(&cs, 7);
    proof {
        if git_head_readable(head@) {
            let k2 = choose|k2: int| #[trigger] is_floor_index(head@, 7, k2) && prefix_bytes(head@, k2) == 7;
            crate::text::lemma_floor_index_unique(head@, 7, k as int, k2);
        }
        if p == 7 {
            assert(is_floor_index(head@, 7, k as int) && prefix_bytes(head@, k as int) == 7);
        }
    }
    p == 7
}

} // verus!
