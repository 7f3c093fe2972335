//! Configuration values, their defaults, and how configured text is read.

use vstd::prelude::*;
use crate::number::{parse_hex_u8, parse_u32, hex_i32_ok, spec_hex_i32_ok, spec_parse_hex_u8, spec_parse_u32};
use crate::input_parser::InputParser;
use crate::lua_parser::LuaScripts;
use crate::prompt::Prompt;
use crate::text::{chars_eq, chars_of};

verus! {

broadcast use vstd::string::group_string_axioms;

/// A configuration value.
#[derive(Debug)]
pub enum ConfigType {
    Color((u8, u8, u8)),
    String(String),
    Number(u32),
    Toggle(bool),
}

/// A configuration value as the contracts see it.
pub ghost enum ConfigValue {
    Color((u8, u8, u8)),
    String(Seq<char>),
    Number(u32),
    Toggle(bool),
}

impl View for ConfigType {
    type V = ConfigValue;

    open spec fn view(&self) -> ConfigValue {
        match self {
            ConfigType::Color(c) => ConfigValue::Color(*c),
            ConfigType::String(s) => ConfigValue::String(s@),
            ConfigType::Number(n) => ConfigValue::Number(*n),
            ConfigType::Toggle(b) => ConfigValue::Toggle(*b),
        }
    }
}

impl Clone for ConfigType {
    fn clone(&self) -> (r: Self)
        ensures
            r@ == self@,
    {
        match self {
            ConfigType::Color(c) => ConfigType::Color(*c),
            ConfigType::String(s) => ConfigType::String(s.clone()),
            ConfigType::Number(n) => ConfigType::Number(*n),
            ConfigType::Toggle(b) => ConfigType::Toggle(*b),
        }
    }
}

/// The name `str::to_lowercase` gives its result: the Unicode lower case of
/// each character.
pub uninterp spec fn lowercase(s: Seq<char>) -> Seq<char>;

/// Every character of `s` is ASCII.
pub open spec fn is_ascii_text(s: Seq<char>) -> bool {
    forall|i: int| 0 <= i < s.len() ==> (#[trigger] s[i] as u32) < 128
}

/// An ASCII upper-case letter as lower case; any other character as it is.
pub open spec fn ascii_lower_char(c: char) -> char {
    if 'A' <= c && c <= 'Z' { ((c as u32) + 32) as char } else { c }
}

/// Each character of `s` through `ascii_lower_char`.
pub open spec fn ascii_lowercase(s: Seq<char>) -> Seq<char> {
    s.map_values(|c: char| ascii_lower_char(c))
}

/// `str::to_lowercase`: the lower-case form of `s` as Unicode defines it
/// (a function of `s` alone), named `lowercase(s)`. For ASCII text, where
/// Unicode's lower case of `A`..`Z` is `a`..`z` and leaves every other
/// character alone, the result is stated character by character; beyond
/// ASCII what each character becomes is left unsaid.
#[verifier::external_body]
pub(crate) fn to_lowercase(s: &str) -> (r: String)
    ensures
        r@ == lowercase(s@),
        is_ascii_text(s@) ==> r@ == ascii_lowercase(s@),
{
    s.to_lowercase()
}

/// Whether `parse_color` is defined on `s`: it looks past a first one-byte
/// character and, when that is a hexadecimal `i32`, reads three two-digit
/// components from it.
pub open spec fn color_defined(s: Seq<char>) -> bool {
    &&& s.len() > 0
    &&& (s[0] as u32) < 0x80
    &&& spec_hex_i32_ok(s.drop_first()) ==> {
        let t = s.drop_first();
        t.len() >= 6 && t[0] != '-'
    }
}

pub open spec fn spec_parse_color(s: Seq<char>) -> Option<ConfigValue> {
    let t = s.drop_first();
    if !spec_hex_i32_ok(t) {
        None
    } else {
        Some(ConfigValue::Color((
            spec_parse_hex_u8(t.subrange(0, 2)).unwrap(),
            spec_parse_hex_u8(t.subrange(2, 4)).unwrap(),
            spec_parse_hex_u8(t.subrange(4, 6)).unwrap(),
        )))
    }
}

pub open spec fn spec_parse_number(s: Seq<char>) -> Option<ConfigValue> {
    match spec_parse_u32(s) {
        Some(n) => Some(ConfigValue::Number(n)),
        None => None,
    }
}

pub open spec fn spec_parse_toggle(s: Seq<char>) -> Option<ConfigValue> {
    if lowercase(s) == "false"@ {
        Some(ConfigValue::Toggle(false))
    } else if lowercase(s) == "true"@ {
        Some(ConfigValue::Toggle(true))
    } else {
        None
    }
}

fn slice_chars(s: &Vec<char>, from: usize, to: usize) -> (r: Vec<char>)
    requires
        from <= to <= s.len(),
    ensures
        r@ == s@.subrange(from as int, to as int),
{
    let mut r: Vec<char> = Vec::new();
    let mut i = from;
    while i < to
        invariant
            from <= i <= to,
            to <= s.len(),
            r@ == s@.subrange(from as int, i as int),
        decreases to - i,
    {
        r.push(s[i]);
        i += 1;
        assert(s@.subrange(from as int, i as int) == s@.subrange(from as int, i - 1).push(s@[i - 1]));
    }
    r
}

proof fn lemma_small_hex(p: Seq<char>)
    requires
        1 <= p.len() <= 2,
        crate::number::all_hex_digits(p),
    ensures
        crate::number::digits_value(p, 16) <= 255,
{
    let last = p.last();
    assert(crate::number::is_hex_digit(p[p.len() - 1]));
    assert(crate::number::digit_value(last) < 16);
    if p.len() == 2 {
        let q = p.drop_last();
        assert(crate::number::is_hex_digit(p[0]));
        assert(q.last() == p[0]);
        assert(q.drop_last().len() == 0);
        assert(crate::number::digits_value(q.drop_last(), 16) == 0);
        assert(crate::number::digits_value(q, 16) == crate::number::digit_value(p[0]));
        assert(crate::number::digit_value(p[0]) < 16);
    } else {
        assert(p.drop_last().len() == 0);
        assert(crate::number::digits_value(p.drop_last(), 16) == 0);
    }
}

proof fn lemma_component_parses(t: Seq<char>, k: int)
    requires
        spec_hex_i32_ok(t),
        t.len() >= 6,
        t[0] != '-',
        k == 0 || k == 2 || k == 4,
    ensures
        spec_parse_hex_u8(t.subrange(k, k + 2)).is_some(),
{
    let p = t.subrange(k, k + 2);
    let d = crate::number::unsigned_digits(t);
    if t[0] == '+' {
        assert(d == t.drop_first());
        assert(crate::number::is_hex_digit(d[k]));
        assert(p[1] == d[k]);
        if k == 0 {
            assert(crate::number::unsigned_digits(p) == p.drop_first());
            assert(p.drop_first() == seq![p[1]]);
            lemma_small_hex(p.drop_first());
        } else {
            assert(crate::number::is_hex_digit(d[k - 1]));
            assert(p[0] == d[k - 1]);
            assert(crate::number::unsigned_digits(p) == p);
            lemma_small_hex(p);
        }
    } else {
        assert(d == t);
        assert(crate::number::is_hex_digit(t[k]));
        assert(crate::number::is_hex_digit(t[k + 1]));
        assert(p[0] == t[k] && p[1] == t[k + 1]);
        assert(crate::number::unsigned_digits(p) == p);
        lemma_small_hex(p);
    }
}

proof fn lemma_hex_value_below(d: Seq<char>)
    requires
        crate::number::all_hex_digits(d),
    ensures
        crate::number::digits_value(d, 16) < vstd::arithmetic::power::pow(16, d.len()),
    decreases d.len(),
{
    if d.len() > 0 {
        let e = d.drop_last();
        assert(crate::number::all_hex_digits(e)) by {
            assert forall|i: int| 0 <= i < e.len() implies crate::number::is_hex_digit(#[trigger] e[i]) by {
                assert(e[i] == d[i]);
            }
        }
        lemma_hex_value_below(e);
        assert(crate::number::is_hex_digit(d[d.len() - 1]));
        let a = crate::number::digits_value(e, 16) as int;
        let b = vstd::arithmetic::power::pow(16, e.len());
        let v = crate::number::digit_value(d.last()) as int;
        assert(v < 16);
        reveal(vstd::arithmetic::power::pow);
        assert(vstd::arithmetic::power::pow(16, d.len()) == 16 * b);
        assert(a * 16 + v < 16 * b) by (nonlinear_arith) requires a < b, 0 <= v < 16;
    } else {
        reveal(vstd::arithmetic::power::pow);
        assert(vstd::arithmetic::power::pow(16, 0) == 1);
    }
}

/// The value of two hexadecimal digits.
pub open spec fn hex_pair(a: char, b: char) -> nat {
    16 * crate::number::digit_value(a) + crate::number::digit_value(b)
}

proof fn lemma_hex_pair(p: Seq<char>)
    requires
        p.len() == 2,
        crate::number::all_hex_digits(p),
    ensures
        spec_parse_hex_u8(p) == Some(hex_pair(p[0], p[1]) as u8),
        hex_pair(p[0], p[1]) <= 255,
{
    assert(crate::number::is_hex_digit(p[0]) && crate::number::is_hex_digit(p[1]));
    assert(crate::number::unsigned_digits(p) == p);
    let q = p.drop_last();
    assert(q.last() == p[0]);
    assert(q.drop_last().len() == 0);
    assert(crate::number::digits_value(q.drop_last(), 16) == 0);
    assert(crate::number::digits_value(q, 16) == crate::number::digit_value(p[0]));
    assert(p.last() == p[1]);
    assert(crate::number::digit_value(p[0]) < 16 && crate::number::digit_value(p[1]) < 16);
}

/// A color is a marker followed by six hexadecimal digits, in either case:
/// each pair of digits, in order, gives red, green and blue.
pub proof fn law_color_hex_digits(m: char, d: Seq<char>)
    requires
        d.len() == 6,
        crate::number::all_hex_digits(d),
    ensures
        spec_parse_color(seq![m] + d) == Some(ConfigValue::Color((
            hex_pair(d[0], d[1]) as u8,
            hex_pair(d[2], d[3]) as u8,
            hex_pair(d[4], d[5]) as u8,
        ))),
{
    let s = seq![m] + d;
    assert(s.drop_first() =~= d);
    assert(crate::number::is_hex_digit(d[0]));
    assert(crate::number::unsigned_digits(d) == d);
    lemma_hex_value_below(d);
    assert(vstd::arithmetic::power::pow(16, 6) == 16777216) by {
        reveal_with_fuel(vstd::arithmetic::power::pow, 7);
    }
    assert(spec_hex_i32_ok(d));
    assert forall|k: int| k == 0 || k == 2 || k == 4 implies crate::number::all_hex_digits(#[trigger] d.subrange(k, k + 2)) by {
        assert forall|i: int| 0 <= i < d.subrange(k, k + 2).len() implies crate::number::is_hex_digit(#[trigger] d.subrange(k, k + 2)[i]) by {
            assert(d.subrange(k, k + 2)[i] == d[k + i]);
        }
    }
    lemma_hex_pair(d.subrange(0, 2));
    lemma_hex_pair(d.subrange(2, 4));
    lemma_hex_pair(d.subrange(4, 6));
}

/// Reads a color written as a marker character followed by six
/// hexadecimal digits, such as `#00ffff`.
pub fn parse_color(s: &str) -> (r: Option<ConfigType>)
    requires
        color_defined(s@),
    ensures
        r.is_some() == spec_parse_color(s@).is_some(),
        r matches Some(c) ==> Some(c@) == spec_parse_color(s@),
{
    let cs = chars_of(s);
    let t = slice_chars(&cs, 1, cs.len());
    assert(t@ == s@.drop_first());
    if !hex_i32_ok(&t) {
        None
    } else {
        proof {
            lemma_component_parses(t@, 0);
            lemma_component_parses(t@, 2);
            lemma_component_parses(t@, 4);
        }
        let a = parse_hex_u8(&slice_chars(&t, 0, 2));
        let b = parse_hex_u8(&slice_chars(&t, 2, 4));
        let c = parse_hex_u8(&slice_chars(&t, 4, 6));
        match (a, b, c) {
            (Some(a), Some(b), Some(c)) => Some(ConfigType::Color((a, b, c))),
            _ => None,
        }
    }
}

/// The text itself, as a string value.
pub fn parse_string(s: &str) -> (r: Option<ConfigType>)
    ensures
        r matches Some(c) && c@ == ConfigValue::String(s@),
{
    Some(ConfigType::String(s.to_owned()))
}

/// A decimal `u32` number.
pub fn parse_number(s: &str) -> (r: Option<ConfigType>)
    ensures
        r.is_some() == spec_parse_number(s@).is_some(),
        r matches Some(c) ==> Some(c@) == spec_parse_number(s@),
{
    match parse_u32(&chars_of(s)) {
        Some(n) => Some(ConfigType::Number(n)),
        None => None,
    }
}

/// `true` or `false`, in any case.
pub fn parse_toggle(s: &str) -> (r: Option<ConfigType>)
    ensures
        r.is_some() == spec_parse_toggle(s@).is_some(),
        r matches Some(c) ==> Some(c@) == spec_parse_toggle(s@),
{
    let l = chars_of(to_lowercase(s).as_str());
    if chars_eq(&l, &chars_of("false")) {
        Some(ConfigType::Toggle(false))
    } else if chars_eq(&l, &chars_of("true")) {
        Some(ConfigType::Toggle(true))
    } else {
        None
    }
}


/// What a default value makes of configured text: the text read as a value
/// of the same kind, or the default where it does not read as one.
pub open spec fn value_from_str(default: ConfigValue, s: Seq<char>) -> ConfigValue {
    match default {
        ConfigValue::String(_) => ConfigValue::String(s),
        ConfigValue::Number(_) => match spec_parse_number(s) {
            Some(v) => v,
            None => default,
        },
        ConfigValue::Color(_) => match spec_parse_color(s) {
            Some(v) => v,
            None => default,
        },
        ConfigValue::Toggle(_) => match spec_parse_toggle(s) {
            Some(v) => v,
            None => default,
        },
    }
}

/// Whether reading `s` for a default is defined (only colors can fail).
pub open spec fn value_from_str_defined(default: ConfigValue, s: Seq<char>) -> bool {
    default is Color ==> color_defined(s)
}

/// A type that can stand as the default of a configuration parameter.
pub trait Configuration {
    spec fn spec_convert(&self) -> ConfigValue;

    /// The value as a configuration value.
    fn convert(&self) -> (r: ConfigType)
        ensures
            r@ == self.spec_convert(),
    ;

    /// Configured text read with this value as the default.
    fn from_str(&self, s: &str) -> (r: ConfigType)
        requires
            value_from_str_defined(self.spec_convert(), s@),
        ensures
            r@ == value_from_str(self.spec_convert(), s@),
    ;
}

/// Whether configured text `s` can be read with `default` as the default.
pub fn accepts(default: &ConfigType, s: &str) -> (b: bool)
    ensures
        b == value_from_str_defined(default@, s@),
{
    match default {
        ConfigType::Color(_) => {
            let cs = chars_of(s);
            if cs.len() == 0 || cs[0] as u32 >= 0x80 {
                return false;
            }
            let t = slice_chars(&cs, 1, cs.len());
            assert(t@ == s@.drop_first());
            if hex_i32_ok(&t) {
                t.len() >= 6 && t[0] != '-'
            } else {
                true
            }
        },
        _ => true,
    }
}

fn read_with_default(default: &ConfigType, s: &str) -> (r: ConfigType)
    requires
        value_from_str_defined(default@, s@),
    ensures
        r@ == value_from_str(default@, s@),
{
    match default {
        ConfigType::String(_) => ConfigType::String(s.to_owned()),
        ConfigType::Number(_) => match parse_number(s) {
            Some(v) => v,
            None => default.clone(),
        },
        ConfigType::Color(_) => match parse_color(s) {
            Some(v) => v,
            None => default.clone(),
        },
        ConfigType::Toggle(_) => match parse_toggle(s) {
            Some(v) => v,
            None => default.clone(),
        },
    }
}

impl Configuration for ConfigType {
    open spec fn spec_convert(&self) -> ConfigValue {
        self@
    }

    fn convert(&self) -> (r: ConfigType) {
        self.clone()
    }

    fn from_str(&self, s: &str) -> (r: ConfigType) {
        read_with_default(self, s)
    }
}

impl<'a> Configuration for &'a str {
    open spec fn spec_convert(&self) -> ConfigValue {
        ConfigValue::String((*self)@)
    }

    fn convert(&self) -> (r: ConfigType) {
        ConfigType::String((*self).to_owned())
    }

    fn from_str(&self, s: &str) -> (r: ConfigType) {
        ConfigType::String(s.to_owned())
    }
}

impl Configuration for u32 {
    open spec fn spec_convert(&self) -> ConfigValue {
        ConfigValue::Number(*self)
    }

    fn convert(&self) -> (r: ConfigType) {
        ConfigType::Number(*self)
    }

    fn from_str(&self, s: &str) -> (r: ConfigType) {
        match parse_number(s) {
            Some(v) => v,
            None => self.convert(),
        }
    }
}

impl Configuration for (u8, u8, u8) {
    open spec fn spec_convert(&self) -> ConfigValue {
        ConfigValue::Color(*self)
    }

    fn convert(&self) -> (r: ConfigType) {
        ConfigType::Color(*self)
    }

    fn from_str(&self, s: &str) -> (r: ConfigType) {
        match parse_color(s) {
            Some(v) => v,
            None => self.convert(),
        }
    }
}

impl Configuration for bool {
    open spec fn spec_convert(&self) -> ConfigValue {
        ConfigValue::Toggle(*self)
    }

    fn convert(&self) -> (r: ConfigType) {
        ConfigType::Toggle(*self)
    }

    fn from_str(&self, s: &str) -> (r: ConfigType) {
        match parse_toggle(s) {
            Some(v) => v,
            None => self.convert(),
        }
    }
}

/// A configuration parameter: its dotted name and its default.
pub struct ConfigParam {
    pub name: String,
    pub default: ConfigType,
}

pub open spec fn params_view(ps: Seq<ConfigParam>) -> Seq<(Seq<char>, ConfigValue)> {
    ps.map_values(|p: ConfigParam| (p.name@, p.default@))
}

/// The value last given to `name`, as a `HashMap` built from the pairs in
/// order would hold it.
pub open spec fn lookup<V>(entries: Seq<(Seq<char>, V)>, name: Seq<char>) -> Option<V>
    decreases entries.len(),
{
    if entries.len() == 0 {
        None
    } else if entries.last().0 == name {
        Some(entries.last().1)
    } else {
        lookup(entries.drop_last(), name)
    }
}

pub open spec fn text_pairs_view(v: Seq<(String, String)>) -> Seq<(Seq<char>, Seq<char>)> {
    v.map_values(|p: (String, String)| (p.0@, p.1@))
}

/// The configuration values, by parameter name.
pub struct Configs {
    entries: Vec<(String, ConfigType)>,
}

impl View for Configs {
    type V = Seq<(Seq<char>, ConfigValue)>;

    closed spec fn view(&self) -> Seq<(Seq<char>, ConfigValue)> {
        self.entries@.map_values(|e: (String, ConfigType)| (e.0@, e.1@))
    }
}

/// The index of the last entry named `name`, if any.
fn find_last<V>(entries: &Vec<(String, V)>, name: &Vec<char>) -> (r: Option<usize>)
    ensures
        match r {
            Some(i) => i < entries@.len() && entries@[i as int].0@ == name@
                && forall|j: int| i < j < entries@.len() ==> entries@[j].0@ != name@,
            None => forall|j: int| 0 <= j < entries@.len() ==> entries@[j].0@ != name@,
        },
{
    let mut i = entries.len();
    while i > 0
        invariant
            i <= entries@.len(),
            forall|j: int| i <= j < entries@.len() ==> entries@[j].0@ != name@,
        decreases i,
    {
        i -= 1;
        if chars_eq(&chars_of(entries[i].0.as_str()), name) {
            return Some(i);
        }
    }
    None
}

proof fn lemma_lookup_last<V, W>(entries: Seq<(String, W)>, f: spec_fn((String, W)) -> (Seq<char>, V), name: Seq<char>, i: int)
    requires
        forall|j: int| 0 <= j < entries.len() ==> (#[trigger] f(entries[j])).0 == entries[j].0@,
        0 <= i < entries.len(),
        entries[i].0@ == name,
        forall|j: int| i < j < entries.len() ==> entries[j].0@ != name,
    ensures
        lookup(entries.map_values(f), name) == Some(f(entries[i]).1),
    decreases entries.len(),
{
    let m = entries.map_values(f);
    assert(m.last() == f(entries.last()));
    if i < entries.len() - 1 {
        assert(m.drop_last() == entries.drop_last().map_values(f));
        lemma_lookup_last(entries.drop_last(), f, name, i);
    }
}

proof fn lemma_lookup_none<V, W>(entries: Seq<(String, W)>, f: spec_fn((String, W)) -> (Seq<char>, V), name: Seq<char>)
    requires
        forall|j: int| 0 <= j < entries.len() ==> (#[trigger] f(entries[j])).0 == entries[j].0@,
        forall|j: int| 0 <= j < entries.len() ==> entries[j].0@ != name,
    ensures
        lookup(entries.map_values(f), name).is_none(),
    decreases entries.len(),
{
    if entries.len() > 0 {
        let m = entries.map_values(f);
        assert(m.last() == f(entries.last()));
        assert(m.drop_last() == entries.drop_last().map_values(f));
        lemma_lookup_none(entries.drop_last(), f, name);
    }
}

impl Configs {
    /// The value of the parameter `name`.
    pub fn get(&self, name: &str) -> (r: Option<&ConfigType>)
        ensures
            match r {
                Some(c) => lookup(self@, name@) == Some(c@),
                None => lookup(self@, name@).is_none(),
            },
    {
        let ghost f: spec_fn((String, ConfigType)) -> (Seq<char>, ConfigValue) = |e: (String, ConfigType)| (e.0@, e.1@);
        proof {
            assert forall|j: int| 0 <= j < self.entries@.len() implies (#[trigger] f(self.entries@[j])).0
                == self.entries@[j].0@ by {}
        }
        match find_last(&self.entries, &chars_of(name)) {
            Some(i) => {
                proof {
                    lemma_lookup_last(self.entries@, f, name@, i as int);
                }
                Some(&self.entries[i].1)
            },
            None => {
                proof {
                    lemma_lookup_none(self.entries@, f, name@);
                }
                None
            },
        }
    }
}

/// The text configured for `name`, as the loader returned it.
fn find_text<'a>(loaded: &'a Vec<(String, String)>, name: &str) -> (r: Option<&'a String>)
    ensures
        match r {
            Some(t) => lookup(text_pairs_view(loaded@), name@) == Some(t@),
            None => lookup(text_pairs_view(loaded@), name@).is_none(),
        },
{
    let ghost f: spec_fn((String, String)) -> (Seq<char>, Seq<char>) = |e: (String, String)| (e.0@, e.1@);
    proof {
        assert forall|j: int| 0 <= j < loaded@.len() implies (#[trigger] f(loaded@[j])).0
            == loaded@[j].0@ by {}
    }
    match find_last(loaded, &chars_of(name)) {
        Some(i) => {
            proof {
                lemma_lookup_last(loaded@, f, name@, i as int);
            }
            Some(&loaded[i].1)
        },
        None => {
            proof {
                lemma_lookup_none(loaded@, f, name@);
            }
            None
        },
    }
}

/// The value of one parameter: the loaded text read with its default, or
/// the default when nothing was loaded for it.
pub open spec fn configured_value(loaded: Seq<(Seq<char>, Seq<char>)>, p: (Seq<char>, ConfigValue)) -> (Seq<char>, ConfigValue) {
    match lookup(loaded, p.0) {
        Some(e) => (p.0, value_from_str(p.1, e)),
        None => (p.0, p.1),
    }
}

/// Every loaded text can be read with its parameter's default.
pub open spec fn loaded_readable(loaded: Seq<(Seq<char>, Seq<char>)>, params: Seq<(Seq<char>, ConfigValue)>) -> bool {
    forall|i: int| 0 <= i < params.len() ==> (#[trigger] lookup(loaded, params[i].0) matches Some(e)
        ==> value_from_str_defined(params[i].1, e))
}

/// The configuration values for `config_params`, from the text loaded for them.
pub fn build_configs(configs: &Vec<(String, String)>, config_params: &Vec<ConfigParam>) -> (r: Configs)
    requires
        loaded_readable(text_pairs_view(configs@), params_view(config_params@)),
    ensures
        r@ == params_view(config_params@).map_values(
            |p: (Seq<char>, ConfigValue)| configured_value(text_pairs_view(configs@), p),
        ),
{
    let ghost loaded = text_pairs_view(configs@);
    let ghost ps = params_view(config_params@);
    let mut entries: Vec<(String, ConfigType)> = Vec::new();
    let mut i: usize = 0;
    while i < config_params.len()
        invariant
            i <= config_params.len(),
            loaded == text_pairs_view(configs@),
            ps == params_view(config_params@),
            loaded_readable(loaded, ps),
            entries@.map_values(|e: (String, ConfigType)| (e.0@, e.1@)) == ps.take(i as int).map_values(
                |p: (Seq<char>, ConfigValue)| configured_value(loaded, p),
            ),
        decreases config_params.len() - i,
    {
        let p = &config_params[i];
        assert(ps[i as int] == (p.name@, p.default@));
        let v = match find_text(configs, p.name.as_str()) {
            Some(e) => {
                assert(lookup(loaded, ps[i as int].0) matches Some(x) ==> value_from_str_defined(ps[i as int].1, x));
                read_with_default(&p.default, e.as_str())
            },
            None => p.default.clone(),
        };
        let name = p.name.clone();
        let ghost before = entries@;
        entries.push((name, v));
        assert(entries@ == before.push((name, v)));
        assert(ps.take(i + 1) == ps.take(i as int).push(ps[i as int]));
        assert(entries@.map_values(|e: (String, ConfigType)| (e.0@, e.1@))
            =~= before.map_values(|e: (String, ConfigType)| (e.0@, e.1@)).push((name@, v@)));
        i += 1;
    }
    assert(ps.take(config_params.len() as int) == ps);
    Configs { entries }
}

/// Something that takes part of its settings from the configuration.
pub trait Configurable: View + Sized {
    /// The parameters it reads, with their defaults.
    spec fn spec_params() -> Seq<(Seq<char>, ConfigValue)>;

    /// What the configuration makes of it.
    spec fn spec_with_config(v: Self::V, configs: Seq<(Seq<char>, ConfigValue)>) -> Self::V;

    fn get_configs(&self) -> (r: Vec<ConfigParam>)
        ensures
            params_view(r@) == Self::spec_params(),
    ;

    fn with_config(&mut self, configs: &Configs)
        ensures
            final(self)@ == Self::spec_with_config(old(self)@, configs@),
    ;
}

/// Reads the text configured for the named parameters, from wherever the
/// configuration is kept.
pub trait ConfigurationLoader {
    /// Whether `loaded` (name and text pairs) may be this loader's answer
    /// to a request for the parameters named `names`. A loader may narrow
    /// it; by default any answer may come.
    open spec fn answers(&self, names: Seq<Seq<char>>, loaded: Seq<(Seq<char>, Seq<char>)>) -> bool {
        true
    }

    /// The text configured for the parameters named in `params`.
    fn load_config(&self, params: &Vec<String>) -> (r: Vec<(String, String)>)
        ensures
            self.answers(params@.map_values(|n: String| n@), text_pairs_view(r@)),
    ;
}

/// The names of all parameters, in order: what the loader is asked for.
pub open spec fn all_param_names() -> Seq<Seq<char>> {
    all_params().map_values(|p: (Seq<char>, ConfigValue)| p.0)
}


/// All parameters, in the order the configurables are asked for them.
pub open spec fn all_params() -> Seq<(Seq<char>, ConfigValue)> {
    <Prompt as Configurable>::spec_params() + <InputParser as Configurable>::spec_params()
        + <LuaScripts as Configurable>::spec_params()
}

/// The configuration values made from the loaded text.
pub open spec fn built_configs(loaded: Seq<(Seq<char>, Seq<char>)>) -> Seq<(Seq<char>, ConfigValue)> {
    all_params().map_values(|p: (Seq<char>, ConfigValue)| configured_value(loaded, p))
}

fn all_config_params(prompt: &Prompt, input: &InputParser, scripts: &LuaScripts) -> (r: Vec<ConfigParam>)
    ensures
        params_view(r@) == all_params(),
{
    let mut all = prompt.get_configs();
    let mut more = input.get_configs();
    let ghost a = all@;
    let ghost b = more@;
    all.append(&mut more);
    assert(params_view(a + b) =~= params_view(a) + params_view(b));
    let mut rest = scripts.get_configs();
    let ghost a2 = all@;
    let ghost c = rest@;
    all.append(&mut rest);
    assert(params_view(a2 + c) =~= params_view(a2) + params_view(c));
    all
}

/// Configures the prompt, the input parser and the Lua scripts from the
/// text loaded for their parameters.
pub fn configure_with(
    prompt: &mut Prompt,
    input: &mut InputParser,
    scripts: &mut LuaScripts,
    loaded: &Vec<(String, String)>,
)
    requires
        loaded_readable(text_pairs_view(loaded@), all_params()),
    ensures
        final(prompt)@ == <Prompt as Configurable>::spec_with_config(old(prompt)@, built_configs(text_pairs_view(loaded@))),
        final(input)@ == <InputParser as Configurable>::spec_with_config(old(input)@, built_configs(text_pairs_view(loaded@))),
        final(scripts)@ == <LuaScripts as Configurable>::spec_with_config(old(scripts)@, built_configs(text_pairs_view(loaded@))),
{
    let params = all_config_params(prompt, input, scripts);
    let configs = build_configs(loaded, &params);
    prompt.with_config(&configs);
    input.with_config(&configs);
    scripts.with_config(&configs);
}

/// Configures the prompt, the input parser and the Lua scripts from the
/// loaded text when every text can be read with its parameter's default
/// (`true`); otherwise (a malformed color) leaves everything as it was and
/// gives `false`.
pub fn configure_from(
    prompt: &mut Prompt,
    input: &mut InputParser,
    scripts: &mut LuaScripts,
    loaded: &Vec<(String, String)>,
) -> (applied: bool)
    ensures
        applied == loaded_readable(text_pairs_view(loaded@), all_params()),
        applied ==> {
            &&& final(prompt)@ == <Prompt as Configurable>::spec_with_config(old(prompt)@, built_configs(text_pairs_view(loaded@)))
            &&& final(input)@ == <InputParser as Configurable>::spec_with_config(old(input)@, built_configs(text_pairs_view(loaded@)))
            &&& final(scripts)@ == <LuaScripts as Configurable>::spec_with_config(old(scripts)@, built_configs(text_pairs_view(loaded@)))
        },
        !applied ==> final(prompt)@ == old(prompt)@ && final(input)@ == old(input)@
            && final(scripts)@ == old(scripts)@,
{
    let params = all_config_params(prompt, input, scripts);
    let ghost lv = text_pairs_view(loaded@);
    let ghost ps = params_view(params@);
    let mut i: usize = 0;
    while i < params.len()
        invariant
            i <= params.len(),
            lv == text_pairs_view(loaded@),
            ps == params_view(params@),
            ps == all_params(),
            forall|j: int| 0 <= j < i ==> (#[trigger] lookup(lv, ps[j].0) matches Some(e)
                ==> value_from_str_defined(ps[j].1, e)),
        decreases params.len() - i,
    {
        assert(ps[i as int] == (params[i as int].name@, params[i as int].default@));
        match find_text(loaded, params[i].name.as_str()) {
            Some(e) => {
                if !accepts(&params[i].default, e.as_str()) {
                    assert(!loaded_readable(lv, all_params())) by {
                        assert(lookup(lv, ps[i as int].0) matches Some(e2) && !value_from_str_defined(ps[i as int].1, e2));
                    }
                    return false;
                }
            },
            None => {},
        }
        i += 1;
    }
    configure_with(prompt, input, scripts, loaded);
    true
}

/// The names of the parameters, in order (repeats kept): what the loader
/// is asked for.
pub fn param_names(params: &Vec<ConfigParam>) -> (r: Vec<String>)
    ensures
        r@.map_values(|n: String| n@) == params_view(params@).map_values(|p: (Seq<char>, ConfigValue)| p.0),
{
    let mut names: Vec<String> = Vec::new();
    let mut i: usize = 0;
    while i < params.len()
        invariant
            i <= params.len(),
            names@.map_values(|n: String| n@)
                == params_view(params@).take(i as int).map_values(|p: (Seq<char>, ConfigValue)| p.0),
        decreases params.len() - i,
    {
        let ghost before = names@;
        names.push(params[i].name.clone());
        assert(names@.map_values(|n: String| n@) =~= before.map_values(|n: String| n@).push(params@[i as int].name@));
        assert(params_view(params@).take(i + 1) =~= params_view(params@).take(i as int).push(
            params_view(params@)[i as int],
        ));
        i += 1;
    }
    assert(params_view(params@).take(params.len() as int) =~= params_view(params@));
    names
}

/// Asks `loader` for the text of every parameter (`all_param_names`, in
/// order) and configures from its answer with `configure_from`.
/// Text that cannot be read with its parameter's default (a malformed
/// color) leaves everything as it was, and the result is `false`.
pub fn configure<T: ConfigurationLoader>(
    prompt: &mut Prompt,
    input: &mut InputParser,
    scripts: &mut LuaScripts,
    loader: &T,
) -> (applied: bool)
    ensures
        exists|loaded: Seq<(Seq<char>, Seq<char>)>| {
            &&& loader.answers(all_param_names(), loaded)
            &&& applied == loaded_readable(loaded, all_params())
            &&& applied ==> final(prompt)@ == <Prompt as Configurable>::spec_with_config(old(prompt)@, built_configs(loaded))
            &&& applied ==> final(input)@ == <InputParser as Configurable>::spec_with_config(old(input)@, built_configs(loaded))
            &&& applied ==> final(scripts)@ == <LuaScripts as Configurable>::spec_with_config(old(scripts)@, built_configs(loaded))
        },
        !applied ==> final(prompt)@ == old(prompt)@ && final(input)@ == old(input)@
            && final(scripts)@ == old(scripts)@,
{
    let params = all_config_params(prompt, input, scripts);
    let names = param_names(&params);
    assert(names@.map_values(|n: String| n@) == all_param_names());
    let loaded = loader.load_config(&names);
    let applied = configure_from(prompt, input, scripts, &loaded);
    let ghost lv = text_pairs_view(loaded@);
    assert(loader.answers(all_param_names(), lv));
    assert(applied == loaded_readable(lv, all_params()));
    applied
}

} // verus!
