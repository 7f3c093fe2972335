//! Reading a command that may continue over several lines, and the input
//! history.

use std::collections::VecDeque;
use vstd::prelude::*;
use crate::config::{lookup, params_view, ConfigParam, ConfigType, ConfigValue, Configs, Configurable};
use crate::parser::Errors;
use crate::text::{
    byte_len, byte_len_below, chars_eq, chars_of, join_on, join_with, lemma_split_join, split_char,
    split_on, trim, trim_chars, contains_chars, find_chars, is_substring, occurs_at, split_whitespace, split_ws,
    starts_with, string_of,
};

verus! {

broadcast use vstd::string::group_string_axioms;

/// Words that open a block: the command goes on until it is closed.
pub open spec fn scope_increase_keywords() -> Seq<Seq<char>> {
    seq!["function"@, "if"@, "case"@, "for"@, "select"@, "while"@, "until"@, "{"@]
}

/// Words that close a block.
pub open spec fn scope_decrease_keywords() -> Seq<Seq<char>> {
    seq!["fi"@, "esac"@, "done"@, "}"@, "end"@]
}

/// Patterns after which the shell expects more input.
pub open spec fn continuation_keywords() -> Seq<Seq<char>> {
    seq!["do"@, " in "@, "time"@, "[["@, "]]"@, "coproc "@]
}

/// `pattern` stands in `input` on its own: either at the start and followed
/// by the end of the line or by a blank (looked up at the position given by
/// the pattern's length in bytes), or elsewhere with a blank on each side.
pub open spec fn spec_contains_isolated(input: Seq<char>, pattern: Seq<char>) -> bool {
    if !is_substring(pattern, input) {
        false
    } else if starts_with(input, pattern) {
        input.len() == pattern.len() || (byte_len(pattern) < input.len()
            && input[byte_len(pattern) as int] == ' ')
    } else {
        is_substring(seq![' '] + pattern + seq![' '], input)
    }
}

/// How many of `ks` are among `words`.
pub open spec fn count_present(words: Seq<Seq<char>>, ks: Seq<Seq<char>>) -> nat
    decreases ks.len(),
{
    if ks.len() == 0 {
        0
    } else {
        count_present(words, ks.drop_last()) + if words.contains(ks.last()) { 1nat } else { 0 }
    }
}

/// The block depth after a line: raised once (saturating) for each opening
/// word on the line, then lowered once (saturating) for each closing word.
pub open spec fn scope_after(input: Seq<char>, level: nat) -> nat {
    let words = split_ws(input);
    let raised = level + count_present(words, scope_increase_keywords());
    let capped = if raised > usize::MAX { usize::MAX as nat } else { raised };
    let dec = count_present(words, scope_decrease_keywords());
    if capped >= dec { (capped - dec) as nat } else { 0 }
}

pub open spec fn spec_contains_keyword(input: Seq<char>) -> bool {
    exists|i: int|
        0 <= i < continuation_keywords().len() && spec_contains_isolated(
            input,
            #[trigger] continuation_keywords()[i],
        )
}

/// A line that opens as many blocks as it closes leaves the block depth
/// as it was (from any depth, zero included, that the opening words do not
/// push past `usize::MAX`); with no trailing backslash and no continuation
/// keyword on it, more input is asked for only when a block was already
/// open.
pub proof fn law_balanced_line_keeps_depth(input: Seq<char>, level: nat)
    requires
        level + count_present(split_ws(input), scope_increase_keywords()) <= usize::MAX,
        count_present(split_ws(input), scope_increase_keywords())
            == count_present(split_ws(input), scope_decrease_keywords()),
    ensures
        scope_after(input, level) == level,
        !(input.len() > 0 && input.last() == '\\') && !spec_contains_keyword(input)
            ==> spec_new_line_expected(input, level) == (input, level, level > 0),
{
}

/// A line with no opening word never raises the block depth, and a line
/// with no closing word never lowers it.
pub proof fn law_depth_moves_with_block_words(input: Seq<char>, level: nat)
    requires
        level <= usize::MAX,
    ensures
        count_present(split_ws(input), scope_increase_keywords()) == 0 ==> scope_after(input, level) <= level,
        count_present(split_ws(input), scope_decrease_keywords()) == 0 ==> scope_after(input, level) >= level,
{
}

/// A line whose only block words are `if` and `fi` opens and closes the
/// same block: the depth after it is the depth before it.
pub proof fn law_if_fi_line_keeps_depth(input: Seq<char>, level: nat)
    requires
        level < usize::MAX,
        split_ws(input).contains("if"@),
        split_ws(input).contains("fi"@),
        forall|i: int| 0 <= i < scope_increase_keywords().len() && scope_increase_keywords()[i] != "if"@
            ==> !split_ws(input).contains(#[trigger] scope_increase_keywords()[i]),
        forall|i: int| 0 <= i < scope_decrease_keywords().len() && scope_decrease_keywords()[i] != "fi"@
            ==> !split_ws(input).contains(#[trigger] scope_decrease_keywords()[i]),
    ensures
        scope_after(input, level) == level,
{
    let w = split_ws(input);
    let inc = scope_increase_keywords();
    let dec = scope_decrease_keywords();
    reveal_strlit("function");
    reveal_strlit("if");
    reveal_strlit("case");
    reveal_strlit("for");
    reveal_strlit("select");
    reveal_strlit("while");
    reveal_strlit("until");
    reveal_strlit("{");
    reveal_strlit("fi");
    reveal_strlit("esac");
    reveal_strlit("done");
    reveal_strlit("}");
    reveal_strlit("end");
    assert forall|i: int| 0 <= i < inc.len() && i != 1 implies !w.contains(#[trigger] inc[i]) by {
        assert(inc[i] != "if"@) by {
            assert(inc[i].len() != 2 || inc[i][0] != 'i' || inc[i][1] != 'f');
        }
    }
    assert forall|i: int| 0 <= i < dec.len() && i != 0 implies !w.contains(#[trigger] dec[i]) by {
        assert(dec[i] != "fi"@) by {
            assert(dec[i].len() != 2 || dec[i][0] != 'f' || dec[i][1] != 'i');
        }
    }
    assert(inc[1] == "if"@);
    assert(dec[0] == "fi"@);
    lemma_count_present_one(w, inc, 1);
    lemma_count_present_one(w, dec, 0);
}

/// When exactly the keyword at `j` is present, one keyword is counted.
proof fn lemma_count_present_one(w: Seq<Seq<char>>, ks: Seq<Seq<char>>, j: int)
    requires
        0 <= j < ks.len(),
        w.contains(ks[j]),
        forall|i: int| 0 <= i < ks.len() && i != j ==> !w.contains(#[trigger] ks[i]),
    ensures
        count_present(w, ks) == 1,
    decreases ks.len(),
{
    if ks.len() - 1 == j {
        lemma_count_present_none(w, ks.drop_last());
    } else {
        assert forall|i: int| 0 <= i < ks.drop_last().len() && i != j implies !w.contains(#[trigger] ks.drop_last()[i]) by {
            assert(ks.drop_last()[i] == ks[i]);
        }
        assert(ks.drop_last()[j] == ks[j]);
        lemma_count_present_one(w, ks.drop_last(), j);
    }
}

proof fn lemma_count_present_none(w: Seq<Seq<char>>, ks: Seq<Seq<char>>)
    requires
        forall|i: int| 0 <= i < ks.len() ==> !w.contains(#[trigger] ks[i]),
    ensures
        count_present(w, ks) == 0,
    decreases ks.len(),
{
    if ks.len() > 0 {
        assert forall|i: int| 0 <= i < ks.drop_last().len() implies !w.contains(#[trigger] ks.drop_last()[i]) by {
            assert(ks.drop_last()[i] == ks[i]);
        }
        lemma_count_present_none(w, ks.drop_last());
    }
}

/// Whether another line is expected after `input`, and what the line
/// becomes: a trailing backslash is removed and always asks for more.
pub open spec fn spec_new_line_expected(input: Seq<char>, level: nat) -> (Seq<char>, nat, bool) {
    if input.len() > 0 && input.last() == '\\' {
        (input.drop_last(), level, true)
    } else {
        let l = scope_after(input, level);
        (input, l, spec_contains_keyword(input) || l > 0)
    }
}

/// Whether `pattern` stands in `input` on its own.
pub fn contains_isolated(input: &str, pattern: &str) -> (r: bool)
    ensures
        r == spec_contains_isolated(input@, pattern@),
{
    let s = chars_of(input);
    let p = chars_of(pattern);
    match find_chars(&s, &p) {
        Some(start) => {
            assert(is_substring(p@, s@));
            if start == 0 {
                if s.len() == p.len() {
                    true
                } else {
                    match byte_len_below(&p, s.len()) {
                        Some(k) => s[k] == ' ',
                        None => false,
                    }
                }
            } else {
                assert(!starts_with(s@, p@));
                let mut q: Vec<char> = Vec::new();
                q.push(' ');
                let mut j: usize = 0;
                while j < p.len()
                    invariant
                        j <= p.len(),
                        q@ == seq![' '] + p@.take(j as int),
                    decreases p.len() - j,
                {
                    q.push(p[j]);
                    j += 1;
                    assert(p@.take(j as int) == p@.take(j - 1).push(p@[j - 1]));
                }
                q.push(' ');
                assert(p@.take(p.len() as int) == p@);
                assert(q@ == seq![' '] + p@ + seq![' ']);
                match find_chars(&s, &q) {
                    Some(_) => true,
                    None => false,
                }
            }
        },
        None => false,
    }
}

/// Adjusts the block depth for the opening and closing words on `input`,
/// and tells whether a continuation keyword stands on it on its own.
pub fn contains_keyword(input: &str, scope_level: &mut usize) -> (r: bool)
    ensures
        *final(scope_level) == scope_after(input@, *old(scope_level) as nat),
        r == spec_contains_keyword(input@),
{
    let cs = chars_of(input);
    let words = split_whitespace(&cs);
    let ghost ws = words@.map_values(|w: Vec<char>| w@);
    let ghost start = *old(scope_level) as nat;
    let inc: [&str; 8] = ["function", "if", "case", "for", "select", "while", "until", "{"];
    let dec: [&str; 5] = ["fi", "esac", "done", "}", "end"];
    let keys: [&str; 6] = ["do", " in ", "time", "[[", "]]", "coproc "];
    assert(inc@.map_values(|k: &str| k@) =~= scope_increase_keywords());
    assert(dec@.map_values(|k: &str| k@) =~= scope_decrease_keywords());
    assert(keys@.map_values(|k: &str| k@) =~= continuation_keywords());

    let mut i: usize = 0;
    while i < 8
        invariant
            i <= 8,
            ws == split_ws(input@),
            ws == words@.map_values(|w: Vec<char>| w@),
            inc@.map_values(|k: &str| k@) == scope_increase_keywords(),
            ({
                let raised = start + count_present(ws, scope_increase_keywords().take(i as int));
                *scope_level as nat == if raised > usize::MAX { usize::MAX as nat } else { raised }
            }),
        decreases 8 - i,
    {
        assert(scope_increase_keywords().take(i + 1).drop_last()
            == scope_increase_keywords().take(i as int));
        let k = chars_of(inc[i]);
        assert(k@ == scope_increase_keywords()[i as int]);
        if contains_chars(&words, &k) {
            if *scope_level < usize::MAX {
                *scope_level = *scope_level + 1;
            }
        }
        i += 1;
    }
    assert(scope_increase_keywords().take(8) == scope_increase_keywords());
    let ghost capped = *scope_level as nat;

    let mut i: usize = 0;
    while i < 5
        invariant
            i <= 5,
            ws == split_ws(input@),
            ws == words@.map_values(|w: Vec<char>| w@),
            dec@.map_values(|k: &str| k@) == scope_decrease_keywords(),
            ({
                let d = count_present(ws, scope_decrease_keywords().take(i as int));
                *scope_level as nat == if capped >= d { (capped - d) as nat } else { 0 }
            }),
        decreases 5 - i,
    {
        assert(scope_decrease_keywords().take(i + 1).drop_last()
            == scope_decrease_keywords().take(i as int));
        let k = chars_of(dec[i]);
        assert(k@ == scope_decrease_keywords()[i as int]);
        if contains_chars(&words, &k) {
            if *scope_level > 0 {
                *scope_level = *scope_level - 1;
            }
        }
        i += 1;
    }
    assert(scope_decrease_keywords().take(5) == scope_decrease_keywords());
    assert(*scope_level as nat == scope_after(input@, start));

    let mut found = false;
    let mut i: usize = 0;
    while i < 6
        invariant
            i <= 6,
            keys@.map_values(|k: &str| k@) == continuation_keywords(),
            found == exists|j: int|
                0 <= j < i && spec_contains_isolated(input@, #[trigger] continuation_keywords()[j]),
        decreases 6 - i,
    {
        assert(keys[i as int]@ == continuation_keywords()[i as int]);
        if contains_isolated(input, keys[i]) {
            found = true;
        }
        i += 1;
    }
    found
}

/// Whether the shell should read another line before running `input`.
/// A trailing backslash is removed from `input` and always asks for more.
pub fn new_line_expected(input: &mut String, scope_level: &mut usize) -> (r: bool)
    ensures
        ({
            let (line, level, more) = spec_new_line_expected(old(input)@, *old(scope_level) as nat);
            &&& final(input)@ == line
            &&& *final(scope_level) as nat == level
            &&& r == more
        }),
{
    let cs = chars_of(input.as_str());
    if cs.len() > 0 && cs[cs.len() - 1] == '\\' {
        let mut shorter = cs;
        shorter.pop();
        *input = string_of(&shorter);
        return true;
    }
    let k = contains_keyword(input.as_str(), scope_level);
    k || *scope_level > 0
}


/// The history as it is read back from the text of the history file: the
/// lines of `content`, at most `max` of them.
pub open spec fn spec_loaded_history(content: Seq<char>, max: usize) -> Seq<Seq<char>> {
    let lines = split_on(content, '\n');
    if lines.len() <= max { lines } else { lines.take(max as int) }
}

/// The history with its newest entry replaced by `rep`.
pub open spec fn spec_replace_last(history: Seq<Seq<char>>, rep: Seq<char>) -> Seq<Seq<char>> {
    seq![rep] + if history.len() > 0 { history.drop_first() } else { history }
}

/// What the shell remembers between lines: the history (newest first), where
/// it is kept, the history length configured, and the command read so far
/// with its block depth.
pub ghost struct InputParserView {
    pub history: Seq<Seq<char>>,
    pub history_path: Seq<char>,
    pub history_length: Option<usize>,
    pub pending: Seq<char>,
    pub scope: nat,
}

/// Reads commands line by line and keeps the input history.
#[derive(Clone)]
pub struct InputParser {
    history: VecDeque<String>,
    history_path: String,
    history_length: Option<usize>,
    pending: String,
    scope: usize,
}

impl View for InputParser {
    type V = InputParserView;

    closed spec fn view(&self) -> InputParserView {
        InputParserView {
            history: self.history@.map_values(|h: String| h@),
            history_path: self.history_path@,
            history_length: self.history_length,
            pending: self.pending@,
            scope: self.scope as nat,
        }
    }
}

impl InputParser {
    /// A parser with an empty history kept under `home_dir`.
    pub fn new(home_dir: &str) -> (r: Self)
        ensures
            r@.history.len() == 0,
            r@.history_path == home_dir@ + "/.luabster/.history"@,
            r@.history_length.is_none(),
            r@.pending.len() == 0,
            r@.scope == 0,
    {
        let mut history_path = home_dir.to_owned();
        history_path.append("/.luabster/.history");
        let r = InputParser {
            history: VecDeque::new(),
            history_path,
            history_length: None,
            pending: String::new(),
            scope: 0,
        };
        assert(r@.history =~= Seq::<Seq<char>>::empty());
        r
    }

    /// Where the history is kept.
    pub fn history_path(&self) -> (r: &String)
        ensures
            r@ == self@.history_path,
    {
        &self.history_path
    }

    /// The history length the configuration asks for, once configured.
    pub fn history_length(&self) -> (r: Option<usize>)
        ensures
            r == self@.history_length,
    {
        self.history_length
    }

    /// Records the configured history length.
    pub fn set_history_length(&mut self, n: usize)
        ensures
            final(self)@ == (InputParserView { history_length: Some(n), ..old(self)@ }),
    {
        self.history_length = Some(n);
    }

    /// The history, newest first.
    pub fn history(&self) -> (r: &VecDeque<String>)
        ensures
            r@.map_values(|h: String| h@) == self@.history,
    {
        &self.history
    }

    /// Replaces the history.
    pub fn set_history(&mut self, history: VecDeque<String>)
        ensures
            final(self)@ == (InputParserView {
                history: history@.map_values(|h: String| h@),
                ..old(self)@
            }),
    {
        self.history = history;
    }

    /// Takes the text of the history file: its lines, at most
    /// `max_history_len` of them, become the history.
    pub fn load_history(&mut self, content: &str, max_history_len: usize)
        ensures
            final(self)@ == (InputParserView {
                history: spec_loaded_history(content@, max_history_len),
                ..old(self)@
            }),
    {
        let lines = split_char(&chars_of(content), '\n');
        let ghost views = lines@.map_values(|w: Vec<char>| w@);
        let n = if lines.len() <= max_history_len { lines.len() } else { max_history_len };
        let mut history: VecDeque<String> = VecDeque::new();
        let mut i: usize = 0;
        while i < n
            invariant
                i <= n,
                n <= lines.len(),
                views == lines@.map_values(|w: Vec<char>| w@),
                history@.map_values(|h: String| h@) == views.take(i as int),
            decreases n - i,
        {
            let ghost before = history@;
            let line = string_of(&lines[i]);
            history.push_back(line);
            assert(history@ == before.push(line));
            assert(history@.map_values(|h: String| h@) == before.map_values(|h: String| h@).push(line@));
            assert(views.take(i + 1) == views.take(i as int).push(views[i as int]));
            i += 1;
        }
        assert(views.take(n as int) == spec_loaded_history(content@, max_history_len));
        self.history = history;
    }

    /// The text of the history file: the entries, newest first, one per line.
    pub fn history_text(&self) -> (r: String)
        ensures
            r@ == join_on(self@.history, '\n'),
    {
        let mut entries: Vec<String> = Vec::new();
        let mut i: usize = 0;
        while i < self.history.len()
            invariant
                i <= self.history@.len(),
                entries@.map_values(|h: String| h@) == self.history@.map_values(|h: String| h@).take(i as int),
            decreases self.history@.len() - i,
        {
            let e = self.history[i].clone();
            let ghost before = entries@;
            entries.push(e);
            assert(entries@.map_values(|h: String| h@) == before.map_values(|h: String| h@).push(e@));
            assert(self.history@.map_values(|h: String| h@).take(i + 1)
                == self.history@.map_values(|h: String| h@).take(i as int).push(self.history@[i as int]@));
            i += 1;
        }
        assert(self.history@.map_values(|h: String| h@).take(self.history@.len() as int)
            == self.history@.map_values(|h: String| h@));
        join_with(&entries, '\n')
    }

    /// Feeds one line typed by the user. The line is trimmed; a trailing
    /// backslash, an open block or a continuation keyword ask for more, and
    /// the result is `None`. Otherwise the whole command is returned and the
    /// parser is ready for the next one.
    pub fn get_input(&mut self, line: &str) -> (r: Option<String>)
        ensures
            ({
                let (l, level, more) = spec_new_line_expected(trim(line@), old(self)@.scope);
                if more {
                    &&& r.is_none()
                    &&& final(self)@ == (InputParserView {
                        pending: old(self)@.pending + l,
                        scope: level,
                        ..old(self)@
                    })
                } else {
                    &&& r matches Some(cmd) && cmd@ == old(self)@.pending + l
                    &&& final(self)@ == (InputParserView {
                        pending: Seq::empty(),
                        scope: 0,
                        ..old(self)@
                    })
                }
            }),
    {
        let mut input = string_of(&trim_chars(&chars_of(line)));
        let mut scope = self.scope;
        let more = new_line_expected(&mut input, &mut scope);
        self.pending.append(input.as_str());
        if more {
            self.scope = scope;
            None
        } else {
            let full = self.pending.clone();
            self.pending = String::new();
            self.scope = 0;
            Some(full)
        }
    }

    /// `Err(Errors::Exit)` exactly when the command is `exit`.
    pub fn check_quit(&self, input: &str) -> (r: Result<(), Errors>)
        ensures
            r.is_err() <==> input@ == "exit"@,
            r matches Err(e) ==> e is Exit,
    {
        if chars_eq(&chars_of(input), &chars_of("exit")) {
            Err(Errors::Exit)
        } else {
            Ok(())
        }
    }

    /// Replaces the newest history entry with `rep`.
    pub fn replace_last(&mut self, rep: &str)
        ensures
            final(self)@ == (InputParserView {
                history: spec_replace_last(old(self)@.history, rep@),
                ..old(self)@
            }),
    {
        let ghost before = self.history@;
        let _ = self.history.pop_front();
        let r = rep.to_owned();
        self.history.push_front(r);
        assert(self.history@.map_values(|h: String| h@) =~= spec_replace_last(
            before.map_values(|h: String| h@),
            rep@,
        ));
    }
}


pub open spec fn history_length_name() -> Seq<char> {
    "input.history.length"@
}

impl Configurable for InputParser {
    open spec fn spec_params() -> Seq<(Seq<char>, ConfigValue)> {
        seq![(history_length_name(), ConfigValue::Number(1000))]
    }

    /// A configured history length is recorded; the history is then read
    /// with that many entries at most.
    open spec fn spec_with_config(v: InputParserView, configs: Seq<(Seq<char>, ConfigValue)>) -> InputParserView {
        match lookup(configs, history_length_name()) {
            Some(ConfigValue::Number(n)) => InputParserView { history_length: Some(n as usize), ..v },
            _ => v,
        }
    }

    fn get_configs(&self) -> (r: Vec<ConfigParam>) {
        let r = vec![ConfigParam {
            name: "input.history.length".to_owned(),
            default: ConfigType::Number(1000),
        }];
        assert(params_view(r@) =~= Self::spec_params());
        r
    }

    fn with_config(&mut self, configs: &Configs) {
        if let Some(c) = configs.get("input.history.length") {
            match c {
                ConfigType::Number(n) => self.set_history_length(*n as usize),
                _ => (),
            }
        }
    }
}

/// The history file gives back what was written to it, when it holds
/// at least one entry, no entry holds a line break, and it fits the
/// configured length.
pub proof fn law_history_round_trip(history: Seq<Seq<char>>, max: usize)
    requires
        history.len() > 0,
        history.len() <= max,
        forall|i: int, j: int|
            0 <= i < history.len() && 0 <= j < history[i].len() ==> #[trigger] history[i][j] != '\n',
    ensures
        spec_loaded_history(join_on(history, '\n'), max) == history,
{
    lemma_split_join(history, '\n', Seq::empty());
    assert(Seq::<Seq<char>>::empty() + history == history);
}

/// A line ending in a backslash always asks for another line, and loses
/// the backslash; the block depth stays as it was.
pub proof fn law_backslash_continues(input: Seq<char>, level: nat)
    requires
        input.len() > 0,
        input.last() == '\\',
    ensures
        spec_new_line_expected(input, level) == (input.drop_last(), level, true),
{
}

} // verus!
