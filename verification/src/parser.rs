//! Command-line words, pipelines, redirections, built-in commands, aliases
//! and the table of running jobs.

use vstd::prelude::*;
use crate::expand::{expand_all, nothing_to_expand};
use crate::number::{parse_u32, spec_parse_u32};
use crate::table::StringTable;
use crate::text::{
    chars_eq, chars_of, contains_chars, find_chars, is_substring, occurs_at, replace, replace_spec,
    is_ws, split_str, split_str_from, split_str_spec, starts_with, string_of, strings_of, trim, trim_chars,
    trim_end, trim_start,
};

verus! {

/// The errors a command line can end in.
#[derive(Clone, Debug)]
pub enum Errors {
    Exit,
    NoProgramFound(String),
    FileOverwriteError,
    FileAppendError,
    PipeFailure,
}

/// A quoted word that is still open when the line ends.
#[derive(Clone, Copy, Debug, PartialEq, Eq, Structural)]
pub struct ParseError;

impl ParseError {
    /// The message that describes this error.
    pub fn message(&self) -> (m: &'static str)
        ensures
            m@ == "missing closing quote"@,
    {
        "missing closing quote"
    }
}

/// Where the tokenizer stands between two characters.
#[derive(Clone, Copy, Debug, PartialEq, Eq, Structural)]
pub enum State {
    /// Within a delimiter.
    Delimiter,
    /// After backslash, but before starting word.
    Backslash,
    /// Within an unquoted word.
    Unquoted,
    /// After backslash in an unquoted word.
    UnquotedBackslash,
    /// Within a single quoted word.
    SingleQuoted,
    /// Within a double quoted word.
    DoubleQuoted,
    /// After backslash inside a double quoted word.
    DoubleQuotedBackslash,
}

/// The tokenizer's whole state: where it stands, the word being built and
/// the words finished so far.
pub ghost struct Lexer {
    pub state: State,
    pub word: Seq<char>,
    pub words: Seq<Seq<char>>,
}

pub open spec fn is_delimiter_char(c: char) -> bool {
    c == '\t' || c == ' ' || c == '\n'
}

pub open spec fn lexer_start() -> Lexer {
    Lexer { state: State::Delimiter, word: Seq::empty(), words: Seq::empty() }
}

/// What one character does to the tokenizer.
pub open spec fn lex_step(l: Lexer, c: char) -> Lexer {
    let keep = |s: State| Lexer { state: s, ..l };
    let grow = |s: State| Lexer { state: s, word: l.word.push(c), ..l };
    match l.state {
        State::Delimiter =>
            if c == '\'' { keep(State::SingleQuoted) }
            else if c == '"' { keep(State::DoubleQuoted) }
            else if c == '\\' { keep(State::Backslash) }
            else if is_delimiter_char(c) { keep(State::Delimiter) }
            else { grow(State::Unquoted) },
        State::Backslash =>
            if c == '\n' { keep(State::Delimiter) } else { grow(State::Unquoted) },
        State::Unquoted =>
            if c == '\'' { keep(State::SingleQuoted) }
            else if c == '"' { keep(State::DoubleQuoted) }
            else if c == '\\' { keep(State::UnquotedBackslash) }
            else if is_delimiter_char(c) {
                Lexer { state: State::Delimiter, word: Seq::empty(), words: l.words.push(l.word) }
            } else { grow(State::Unquoted) },
        State::UnquotedBackslash =>
            if c == '\n' { keep(State::Unquoted) } else { grow(State::Unquoted) },
        State::SingleQuoted =>
            if c == '\'' { keep(State::Unquoted) } else { grow(State::SingleQuoted) },
        State::DoubleQuoted =>
            if c == '"' { keep(State::Unquoted) }
            else if c == '\\' { keep(State::DoubleQuotedBackslash) }
            else { grow(State::DoubleQuoted) },
        State::DoubleQuotedBackslash =>
            if c == '\n' { keep(State::DoubleQuoted) }
            else if c == '$' || c == '`' || c == '"' || c == '\\' { grow(State::DoubleQuoted) }
            else { Lexer { state: State::DoubleQuoted, word: l.word.push('\\').push(c), ..l } },
    }
}

/// The tokenizer after reading all of `cs`, starting from `l`.
pub open spec fn lex_from(l: Lexer, cs: Seq<char>) -> Lexer
    decreases cs.len(),
{
    if cs.len() == 0 { l } else { lex_from(lex_step(l, cs[0]), cs.drop_first()) }
}

/// The words, once the line has ended; `None` inside an open quote.
pub open spec fn lex_finish(l: Lexer) -> Option<Seq<Seq<char>>> {
    match l.state {
        State::Delimiter => Some(l.words),
        State::Backslash | State::UnquotedBackslash => Some(l.words.push(l.word.push('\\'))),
        State::Unquoted => Some(l.words.push(l.word)),
        _ => None,
    }
}

/// The words of a command line under the shell's quoting rules.
pub open spec fn spec_parse_command(cs: Seq<char>) -> Option<Seq<Seq<char>>> {
    lex_finish(lex_from(lexer_start(), cs))
}

pub open spec fn views_of(v: Seq<String>) -> Seq<Seq<char>> {
    v.map_values(|s: String| s@)
}

/// Reading `a` then `b` is reading `a + b`.
pub proof fn lemma_lex_from_concat(l: Lexer, a: Seq<char>, b: Seq<char>)
    ensures
        lex_from(l, a + b) == lex_from(lex_from(l, a), b),
    decreases a.len(),
{
    if a.len() == 0 {
        assert(a + b == b);
    } else {
        assert((a + b).drop_first() == a.drop_first() + b);
        lemma_lex_from_concat(lex_step(l, a[0]), a.drop_first(), b);
    }
}


/// A character that needs no quoting: no blank, quote or backslash.
pub open spec fn is_plain_char(c: char) -> bool {
    !is_delimiter_char(c) && c != '\'' && c != '"' && c != '\\'
}

pub open spec fn is_plain_word(w: Seq<char>) -> bool {
    w.len() > 0 && forall|i: int| 0 <= i < w.len() ==> is_plain_char(#[trigger] w[i])
}

/// Words written one after another, separated by single spaces.
pub open spec fn join_words(ws: Seq<Seq<char>>) -> Seq<char>
    decreases ws.len(),
{
    if ws.len() == 0 {
        Seq::empty()
    } else if ws.len() == 1 {
        ws[0]
    } else {
        join_words(ws.drop_last()).push(' ') + ws.last()
    }
}

proof fn lemma_unquoted_plain(u: Seq<char>, words: Seq<Seq<char>>, w: Seq<char>)
    requires
        forall|i: int| 0 <= i < w.len() ==> is_plain_char(#[trigger] w[i]),
    ensures
        lex_from(Lexer { state: State::Unquoted, word: u, words }, w)
            == (Lexer { state: State::Unquoted, word: u + w, words }),
    decreases w.len(),
{
    if w.len() == 0 {
        assert(u + w == u);
    } else {
        let next = Lexer { state: State::Unquoted, word: u.push(w[0]), words };
        assert(is_plain_char(w[0]));
        assert(lex_step(Lexer { state: State::Unquoted, word: u, words }, w[0]) == next);
        assert forall|i: int| 0 <= i < w.drop_first().len() implies is_plain_char(
            #[trigger] w.drop_first()[i],
        ) by {
            assert(w.drop_first()[i] == w[i + 1]);
        }
        lemma_unquoted_plain(u.push(w[0]), words, w.drop_first());
        assert(u.push(w[0]) + w.drop_first() == u + w);
    }
}

proof fn lemma_delimiter_plain(words: Seq<Seq<char>>, w: Seq<char>)
    requires
        is_plain_word(w),
    ensures
        lex_from(Lexer { state: State::Delimiter, word: Seq::empty(), words }, w)
            == (Lexer { state: State::Unquoted, word: w, words }),
{
    let start = Lexer { state: State::Delimiter, word: Seq::empty(), words };
    assert(is_plain_char(w[0]));
    assert(lex_step(start, w[0]) == (Lexer {
        state: State::Unquoted,
        word: Seq::empty().push(w[0]),
        words,
    }));
    assert forall|i: int| 0 <= i < w.drop_first().len() implies is_plain_char(
        #[trigger] w.drop_first()[i],
    ) by {
        assert(w.drop_first()[i] == w[i + 1]);
    }
    lemma_unquoted_plain(Seq::empty().push(w[0]), words, w.drop_first());
    assert(Seq::empty().push(w[0]) + w.drop_first() == w);
}

proof fn lemma_join_plain(ws: Seq<Seq<char>>)
    requires
        ws.len() > 0,
        forall|i: int| 0 <= i < ws.len() ==> is_plain_word(#[trigger] ws[i]),
    ensures
        lex_from(lexer_start(), join_words(ws))
            == (Lexer { state: State::Unquoted, word: ws.last(), words: ws.drop_last() }),
    decreases ws.len(),
{
    if ws.len() == 1 {
        assert(is_plain_word(ws[0]));
        lemma_delimiter_plain(Seq::empty(), ws[0]);
        assert(ws.drop_last() == Seq::<Seq<char>>::empty());
    } else {
        let d = ws.drop_last();
        assert forall|i: int| 0 <= i < d.len() implies is_plain_word(#[trigger] d[i]) by {
            assert(d[i] == ws[i]);
        }
        lemma_join_plain(d);
        let after = Lexer { state: State::Unquoted, word: d.last(), words: d.drop_last() };
        lemma_lex_from_concat(lexer_start(), join_words(d), seq![' ']);
        assert(join_words(d).push(' ') == join_words(d) + seq![' ']);
        assert(seq![' '].drop_first().len() == 0);
        assert(d.drop_last().push(d.last()) == d);
        let delim = Lexer { state: State::Delimiter, word: Seq::empty(), words: d };
        assert(seq![' '][0] == ' ');
        assert(lex_step(after, ' ') == delim);
        assert(lex_from(delim, seq![' '].drop_first()) == delim);
        assert(lex_from(after, seq![' ']) == delim);
        lemma_lex_from_concat(lexer_start(), join_words(d).push(' '), ws.last());
        assert(is_plain_word(ws[ws.len() - 1]));
        lemma_delimiter_plain(d, ws.last());
    }
}

/// The runs of `s` between spaces, tabs and newlines, after the run `cur`
/// under construction and the runs `acc` already found.
pub open spec fn delim_words_from(s: Seq<char>, cur: Seq<char>, acc: Seq<Seq<char>>) -> Seq<Seq<char>>
    decreases s.len(),
{
    if s.len() == 0 {
        if cur.len() > 0 { acc.push(cur) } else { acc }
    } else if is_delimiter_char(s[0]) {
        delim_words_from(s.drop_first(), Seq::empty(), if cur.len() > 0 { acc.push(cur) } else { acc })
    } else {
        delim_words_from(s.drop_first(), cur.push(s[0]), acc)
    }
}

/// The non-empty runs of `s` between spaces, tabs and newlines.
pub open spec fn delim_words(s: Seq<char>) -> Seq<Seq<char>> {
    delim_words_from(s, Seq::empty(), Seq::empty())
}

/// No quote and no backslash in `s`.
pub open spec fn unquoted_text(s: Seq<char>) -> bool {
    forall|i: int| 0 <= i < s.len() ==> #[trigger] s[i] != '\'' && s[i] != '"' && s[i] != '\\'
}

proof fn lemma_lex_unquoted(l: Lexer, s: Seq<char>)
    requires
        unquoted_text(s),
        (l.state == State::Delimiter && l.word.len() == 0) || (l.state == State::Unquoted && l.word.len() > 0),
    ensures
        lex_finish(lex_from(l, s)) == Some(delim_words_from(s, l.word, l.words)),
    decreases s.len(),
{
    if s.len() > 0 {
        assert(s[0] != '\'' && s[0] != '"' && s[0] != '\\');
        assert forall|i: int| 0 <= i < s.drop_first().len() implies #[trigger] s.drop_first()[i] != '\''
            && s.drop_first()[i] != '"' && s.drop_first()[i] != '\\' by {
            assert(s.drop_first()[i] == s[i + 1]);
        }
        let c = s[0];
        let n = lex_step(l, c);
        if l.state == State::Delimiter {
            assert(l.word =~= Seq::<char>::empty());
        }
        if is_delimiter_char(c) {
            assert(n == Lexer { state: State::Delimiter, word: Seq::empty(), words: if l.word.len() > 0 { l.words.push(l.word) } else { l.words } });
        } else {
            assert(n == Lexer { state: State::Unquoted, word: l.word.push(c), words: l.words });
        }
        lemma_lex_unquoted(n, s.drop_first());
        assert(lex_from(l, s) == lex_from(n, s.drop_first()));
    } else {
        assert(lex_from(l, s) == l);
    }
}

/// A line without quotes and backslashes is read as its runs of
/// characters between spaces, tabs and newlines; empty runs are dropped.
pub proof fn law_parse_command_splits_unquoted(s: Seq<char>)
    requires
        unquoted_text(s),
    ensures
        spec_parse_command(s) == Some(delim_words(s)),
{
    lemma_lex_unquoted(lexer_start(), s);
}

/// No closing quote and no backslash: text that stands for itself between
/// double quotes.
pub open spec fn plain_in_double_quotes(s: Seq<char>) -> bool {
    forall|i: int| 0 <= i < s.len() ==> #[trigger] s[i] != '"' && s[i] != '\\'
}

proof fn lemma_lex_one(l: Lexer, c: char)
    ensures
        lex_from(l, seq![c]) == lex_step(l, c),
{
    assert(seq![c].drop_first() =~= Seq::<char>::empty());
    assert(lex_from(lex_step(l, c), Seq::<char>::empty()) == lex_step(l, c));
}

proof fn lemma_lex_double_quoted_plain(l: Lexer, a: Seq<char>)
    requires
        l.state == State::DoubleQuoted,
        plain_in_double_quotes(a),
    ensures
        lex_from(l, a) == (Lexer { state: State::DoubleQuoted, word: l.word + a, words: l.words }),
    decreases a.len(),
{
    if a.len() == 0 {
        assert(l.word + a =~= l.word);
    } else {
        assert(a[0] != '"' && a[0] != '\\');
        let l2 = lex_step(l, a[0]);
        assert(l2 == Lexer { state: State::DoubleQuoted, word: l.word.push(a[0]), words: l.words });
        assert forall|i: int| 0 <= i < a.drop_first().len() implies #[trigger] a.drop_first()[i] != '"'
            && a.drop_first()[i] != '\\' by {
            assert(a.drop_first()[i] == a[i + 1]);
        }
        lemma_lex_double_quoted_plain(l2, a.drop_first());
        assert(l.word.push(a[0]) + a.drop_first() =~= l.word + a);
    }
}

/// Inside double quotes a backslash before `$`, `` ` ``, `"` or `\` stands
/// for that character alone; before any other character but a newline the
/// backslash is kept. The quoted text is one word.
pub proof fn law_double_quoted_escape(a: Seq<char>, c: char, b: Seq<char>)
    requires
        plain_in_double_quotes(a),
        plain_in_double_quotes(b),
        c != '\n',
    ensures
        (c == '$' || c == '`' || c == '"' || c == '\\') ==> spec_parse_command(
            seq!['"'] + a + seq!['\\', c] + b + seq!['"'],
        ) == Some(seq![a.push(c) + b]),
        !(c == '$' || c == '`' || c == '"' || c == '\\') ==> spec_parse_command(
            seq!['"'] + a + seq!['\\', c] + b + seq!['"'],
        ) == Some(seq![a.push('\\').push(c) + b]),
{
    let q = seq!['"'];
    let e = seq!['\\', c];
    let l0 = lexer_start();
    lemma_lex_one(l0, '"');
    let l1 = lex_from(l0, q);
    assert(l1 == Lexer { state: State::DoubleQuoted, word: Seq::<char>::empty(), words: Seq::<Seq<char>>::empty() });
    lemma_lex_double_quoted_plain(l1, a);
    let l2 = lex_from(l1, a);
    assert(Seq::<char>::empty() + a =~= a);
    assert(e =~= seq!['\\'] + seq![c]);
    lemma_lex_from_concat(l2, seq!['\\'], seq![c]);
    lemma_lex_one(l2, '\\');
    let l2b = lex_from(l2, seq!['\\']);
    lemma_lex_one(l2b, c);
    let l3 = lex_from(l2, e);
    let w = if c == '$' || c == '`' || c == '"' || c == '\\' { a.push(c) } else { a.push('\\').push(c) };
    assert(l3 == Lexer { state: State::DoubleQuoted, word: w, words: Seq::<Seq<char>>::empty() });
    lemma_lex_double_quoted_plain(l3, b);
    let l4 = lex_from(l3, b);
    lemma_lex_one(l4, '"');
    let l5 = lex_from(l4, q);
    assert(l5 == Lexer { state: State::Unquoted, word: w + b, words: Seq::<Seq<char>>::empty() });
    lemma_lex_from_concat(l0, q, a);
    lemma_lex_from_concat(l0, q + a, e);
    lemma_lex_from_concat(l0, q + a + e, b);
    lemma_lex_from_concat(l0, q + a + e + b, q);
    assert(Seq::<Seq<char>>::empty().push(w + b) =~= seq![w + b]);
}

/// No single quote in `s`.
pub open spec fn plain_in_single_quotes(s: Seq<char>) -> bool {
    forall|i: int| 0 <= i < s.len() ==> #[trigger] s[i] != '\''
}

proof fn lemma_lex_single_quoted(l: Lexer, a: Seq<char>)
    requires
        l.state == State::SingleQuoted,
        plain_in_single_quotes(a),
    ensures
        lex_from(l, a) == (Lexer { state: State::SingleQuoted, word: l.word + a, words: l.words }),
    decreases a.len(),
{
    if a.len() == 0 {
        assert(l.word + a =~= l.word);
    } else {
        assert(a[0] != '\'');
        assert forall|i: int| 0 <= i < a.drop_first().len() implies #[trigger] a.drop_first()[i] != '\'' by {
            assert(a.drop_first()[i] == a[i + 1]);
        }
        lemma_lex_single_quoted(lex_step(l, a[0]), a.drop_first());
        assert(l.word.push(a[0]) + a.drop_first() =~= l.word + a);
    }
}

proof fn lemma_lex_unquoted_word(l: Lexer, a: Seq<char>)
    requires
        l.state == State::Unquoted,
        forall|i: int| 0 <= i < a.len() ==> is_plain_char(#[trigger] a[i]),
    ensures
        lex_from(l, a) == (Lexer { state: State::Unquoted, word: l.word + a, words: l.words }),
    decreases a.len(),
{
    if a.len() == 0 {
        assert(l.word + a =~= l.word);
    } else {
        assert(is_plain_char(a[0]));
        assert forall|i: int| 0 <= i < a.drop_first().len() implies is_plain_char(#[trigger] a.drop_first()[i]) by {
            assert(a.drop_first()[i] == a[i + 1]);
        }
        lemma_lex_unquoted_word(lex_step(l, a[0]), a.drop_first());
        assert(l.word.push(a[0]) + a.drop_first() =~= l.word + a);
    }
}

/// Between single quotes every character stands for itself, backslashes
/// and double quotes included: the quoted text is one word.
pub proof fn law_single_quoted_literal(a: Seq<char>)
    requires
        plain_in_single_quotes(a),
    ensures
        spec_parse_command(seq!['\''] + a + seq!['\'']) == Some(seq![a]),
{
    let q = seq!['\''];
    let l0 = lexer_start();
    lemma_lex_one(l0, '\'');
    let l1 = lex_from(l0, q);
    lemma_lex_single_quoted(l1, a);
    assert(Seq::<char>::empty() + a =~= a);
    let l2 = lex_from(l1, a);
    lemma_lex_one(l2, '\'');
    lemma_lex_from_concat(l0, q, a);
    lemma_lex_from_concat(l0, q + a, q);
    assert(Seq::<Seq<char>>::empty().push(a) =~= seq![a]);
}

/// A quote that is opened and never closed leaves the line unreadable.
pub proof fn law_unclosed_quote(a: Seq<char>)
    requires
        plain_in_double_quotes(a),
        plain_in_single_quotes(a),
    ensures
        spec_parse_command(seq!['"'] + a).is_none(),
        spec_parse_command(seq!['\''] + a).is_none(),
{
    let l0 = lexer_start();
    lemma_lex_one(l0, '"');
    lemma_lex_double_quoted_plain(lex_from(l0, seq!['"']), a);
    lemma_lex_from_concat(l0, seq!['"'], a);
    lemma_lex_one(l0, '\'');
    lemma_lex_single_quoted(lex_from(l0, seq!['\'']), a);
    lemma_lex_from_concat(l0, seq!['\''], a);
}

/// Outside quotes a backslash makes the next character (but a newline)
/// part of the word, blanks and quotes included: `x\ y` is the one word
/// `x y`; a backslash before a newline joins the two lines.
pub proof fn law_unquoted_escape(x: Seq<char>, c: char, y: Seq<char>)
    requires
        is_plain_word(x),
        forall|i: int| 0 <= i < y.len() ==> is_plain_char(#[trigger] y[i]),
    ensures
        c != '\n' ==> spec_parse_command(x + seq!['\\', c] + y) == Some(seq![x.push(c) + y]),
        c == '\n' ==> spec_parse_command(x + seq!['\\', c] + y) == Some(seq![x + y]),
{
    let l0 = lexer_start();
    let x0 = seq![x[0]];
    assert(x =~= x0 + x.drop_first());
    lemma_lex_one(l0, x[0]);
    let l1 = lex_from(l0, x0);
    assert(l1 == Lexer { state: State::Unquoted, word: x0, words: Seq::<Seq<char>>::empty() });
    assert forall|i: int| 0 <= i < x.drop_first().len() implies is_plain_char(#[trigger] x.drop_first()[i]) by {
        assert(x.drop_first()[i] == x[i + 1]);
    }
    lemma_lex_unquoted_word(l1, x.drop_first());
    lemma_lex_from_concat(l0, x0, x.drop_first());
    let l2 = lex_from(l0, x);
    assert(l2 == Lexer { state: State::Unquoted, word: x, words: Seq::<Seq<char>>::empty() });
    assert(seq!['\\', c] =~= seq!['\\'] + seq![c]);
    lemma_lex_from_concat(l2, seq!['\\'], seq![c]);
    lemma_lex_one(l2, '\\');
    lemma_lex_one(lex_from(l2, seq!['\\']), c);
    let l3 = lex_from(l2, seq!['\\', c]);
    let w = if c != '\n' { x.push(c) } else { x };
    assert(l3 == Lexer { state: State::Unquoted, word: w, words: Seq::<Seq<char>>::empty() });
    lemma_lex_unquoted_word(l3, y);
    lemma_lex_from_concat(l0, x, seq!['\\', c]);
    lemma_lex_from_concat(l0, x + seq!['\\', c], y);
    assert(Seq::<Seq<char>>::empty().push(w + y) =~= seq![w + y]);
}

/// Words that need no quoting, written with single spaces between
/// them, are read back as exactly those words.
pub proof fn law_parse_command_plain_words(ws: Seq<Seq<char>>)
    requires
        forall|i: int| 0 <= i < ws.len() ==> is_plain_word(#[trigger] ws[i]),
    ensures
        spec_parse_command(join_words(ws)) == Some(ws),
{
    if ws.len() == 0 {
        assert(join_words(ws).len() == 0);
    } else {
        lemma_join_plain(ws);
        assert(ws.drop_last().push(ws.last()) == ws);
    }
}

/// Splits a command line into words, with single quotes, double quotes and
/// backslash escapes as a POSIX shell reads them.
pub fn parse_command(command: &str) -> (res: Result<Vec<String>, ParseError>)
    ensures
        match res {
            Ok(ws) => spec_parse_command(command@) == Some(views_of(ws@)),
            Err(_) => spec_parse_command(command@).is_none(),
        },
{
    let cs = chars_of(command);
    let mut words: Vec<String> = Vec::new();
    let mut word: Vec<char> = Vec::new();
    let mut state = State::Delimiter;
    let mut i: usize = 0;
    assert(cs@.skip(0) == cs@);
    assert(views_of(words@) == Seq::<Seq<char>>::empty());
    while i < cs.len()
        invariant
            i <= cs.len(),
            cs@ == command@,
            lex_from(Lexer { state, word: word@, words: views_of(words@) }, cs@.skip(i as int))
                == lex_from(lexer_start(), cs@),
        decreases cs.len() - i,
    {
        let c = cs[i];
        let ghost before = Lexer { state, word: word@, words: views_of(words@) };
        let ghost rest = cs@.skip(i as int);
        assert(rest[0] == c);
        assert(rest.drop_first() == cs@.skip(i + 1));
        state = match state {
            State::Delimiter => {
                if c == '\'' { State::SingleQuoted }
                else if c == '"' { State::DoubleQuoted }
                else if c == '\\' { State::Backslash }
                else if c == '\t' || c == ' ' || c == '\n' { State::Delimiter }
                else { word.push(c); State::Unquoted }
            },
            State::Backslash => {
                if c == '\n' { State::Delimiter } else { word.push(c); State::Unquoted }
            },
            State::Unquoted => {
                if c == '\'' { State::SingleQuoted }
                else if c == '"' { State::DoubleQuoted }
                else if c == '\\' { State::UnquotedBackslash }
                else if c == '\t' || c == ' ' || c == '\n' {
                    let w = string_of(&word);
                    words.push(w);
                    word = Vec::new();
                    assert(views_of(words@) == before.words.push(before.word));
                    State::Delimiter
                } else { word.push(c); State::Unquoted }
            },
            State::UnquotedBackslash => {
                if c == '\n' { State::Unquoted } else { word.push(c); State::Unquoted }
            },
            State::SingleQuoted => {
                if c == '\'' { State::Unquoted } else { word.push(c); State::SingleQuoted }
            },
            State::DoubleQuoted => {
                if c == '"' { State::Unquoted }
                else if c == '\\' { State::DoubleQuotedBackslash }
                else { word.push(c); State::DoubleQuoted }
            },
            State::DoubleQuotedBackslash => {
                if c == '\n' { State::DoubleQuoted }
                else if c == '$' || c == '`' || c == '"' || c == '\\' {
                    word.push(c);
                    State::DoubleQuoted
                } else {
                    word.push('\\');
                    word.push(c);
                    State::DoubleQuoted
                }
            },
        };
        assert(Lexer { state, word: word@, words: views_of(words@) } == lex_step(before, c));
        i += 1;
    }
    assert(cs@.skip(i as int).len() == 0);
    match state {
        State::Delimiter => Ok(words),
        State::Backslash | State::UnquotedBackslash => {
            word.push('\\');
            let w = string_of(&word);
            words.push(w);
            assert(views_of(words@) == views_of(words@.drop_last()).push(w@));
            Ok(words)
        },
        State::Unquoted => {
            let w = string_of(&word);
            words.push(w);
            assert(views_of(words@) == views_of(words@.drop_last()).push(w@));
            Ok(words)
        },
        _ => Err(ParseError),
    }
}


/// The built-in commands, in the order the shell binds them.
pub open spec fn builtin_names() -> Seq<Seq<char>> {
    seq!["exit"@, "cd"@, "fg"@, "bg"@, "alias"@, "source"@, "export"@, "eval"@, "luabster_update"@]
}

/// The names of the built-in commands.
pub fn get_builtin_commands() -> (r: Vec<&'static str>)
    ensures
        r@.map_values(|n: &str| n@) == builtin_names(),
{
    let r = vec!["exit", "cd", "fg", "bg", "alias", "source", "export", "eval", "luabster_update"];
    assert(r@.map_values(|n: &str| n@) =~= builtin_names());
    r
}

/// Whether the command's program is a built-in command.
pub fn is_builtin(command: &Vec<String>) -> (r: bool)
    requires
        command@.len() > 0,
    ensures
        r == builtin_names().contains(command@[0]@),
{
    let names = get_builtin_commands();
    let program = chars_of(command[0].as_str());
    let mut i: usize = 0;
    while i < names.len()
        invariant
            i <= names.len(),
            names@.map_values(|n: &str| n@) == builtin_names(),
            program@ == command@[0]@,
            forall|j: int| 0 <= j < i ==> builtin_names()[j] != program@,
        decreases names.len() - i,
    {
        assert(names@[i as int]@ == builtin_names()[i as int]);
        if chars_eq(&chars_of(names[i]), &program) {
            return true;
        }
        i += 1;
    }
    false
}

/// A command line ending in `&` runs in the background.
pub fn run_in_bg(command: &str) -> (r: bool)
    ensures
        r == (command@.len() > 0 && command@.last() == '&'),
{
    let cs = chars_of(command);
    cs.len() > 0 && cs[cs.len() - 1] == '&'
}

/// The command line without its last character, as `String::pop` leaves it.
pub fn strip_background(command: &str) -> (r: String)
    ensures
        r@ == if command@.len() > 0 { command@.drop_last() } else { command@ },
{
    let mut cs = chars_of(command);
    cs.pop();
    string_of(&cs)
}

/// A command written with the `!` prefix is Lua code.
pub fn is_lua_command(command: &str) -> (r: bool)
    ensures
        r == starts_with(command@, "!"@),
{
    crate::text::matches_at(&chars_of(command), &chars_of("!"), 0)
}

/// Where the output of a command line goes.
#[derive(Debug)]
pub enum OutputType {
    NoOutput,
    OverwriteFile(String),
    AppendFile(String),
    NewVariable(String),
    AppendVariable(String),
}

/// The characters of `s` that are `c`.
pub open spec fn only_char(s: Seq<char>, c: char) -> Seq<char>
    decreases s.len(),
{
    if s.len() == 0 {
        Seq::empty()
    } else if s.last() == c {
        only_char(s.drop_last(), c).push(c)
    } else {
        only_char(s.drop_last(), c)
    }
}

/// Whether `get_output_file` is defined: when the line holds `>`
/// characters, the run of all of them, taken as one pattern, occurs in it.
pub open spec fn output_file_defined(command: Seq<char>) -> bool {
    let redir = only_char(command, '>');
    redir.len() > 0 ==> split_str_spec(command, redir).len() > 1
}

/// The output named on a command line: the text after the first run of
/// as many `>` as the line holds, up to the next such run, trimmed. Two `>`
/// append, any other number overwrites; a name with the `!` prefix is a
/// Lua variable, anything else a file.
pub open spec fn spec_output_file(command: Seq<char>) -> Option<(Seq<char>, bool, bool)> {
    let redir = only_char(command, '>');
    if redir.len() == 0 {
        None
    } else {
        let name = trim(split_str_spec(command, redir)[1]);
        Some((name, redir.len() == 2, starts_with(name, "!"@)))
    }
}

/// Where the output of `command` goes.
pub fn get_output_file(command: &str) -> (r: OutputType)
    requires
        output_file_defined(command@),
    ensures
        match spec_output_file(command@) {
            None => r is NoOutput,
            Some((name, append, lua)) => match r {
                OutputType::AppendVariable(n) => append && lua && n@ == name,
                OutputType::NewVariable(n) => !append && lua && n@ == name,
                OutputType::AppendFile(n) => append && !lua && n@ == name,
                OutputType::OverwriteFile(n) => !append && !lua && n@ == name,
                OutputType::NoOutput => false,
            },
        },
{
    let cs = chars_of(command);
    let mut redir: Vec<char> = Vec::new();
    let mut i: usize = 0;
    while i < cs.len()
        invariant
            i <= cs.len(),
            cs@ == command@,
            redir@ == only_char(cs@.take(i as int), '>'),
        decreases cs.len() - i,
    {
        assert(cs@.take(i + 1).drop_last() == cs@.take(i as int));
        if cs[i] == '>' {
            redir.push('>');
        }
        i += 1;
    }
    assert(cs@.take(cs.len() as int) == cs@);
    if redir.len() > 0 {
        let pieces = split_str(&cs, &redir);
        let name_chars = trim_chars(&pieces[1]);
        let out_name = string_of(&name_chars);
        let lua = is_lua_command(out_name.as_str());
        if lua {
            if redir.len() == 2 {
                OutputType::AppendVariable(out_name)
            } else {
                OutputType::NewVariable(out_name)
            }
        } else {
            if redir.len() == 2 {
                OutputType::AppendFile(out_name)
            } else {
                OutputType::OverwriteFile(out_name)
            }
        }
    } else {
        OutputType::NoOutput
    }
}

/// Whether reading the output of `command` is defined (see
/// `output_file_defined`).
pub fn output_file_is_defined(command: &str) -> (r: bool)
    ensures
        r == output_file_defined(command@),
{
    let cs = chars_of(command);
    let mut redir: Vec<char> = Vec::new();
    let mut i: usize = 0;
    while i < cs.len()
        invariant
            i <= cs.len(),
            cs@ == command@,
            redir@ == only_char(cs@.take(i as int), '>'),
        decreases cs.len() - i,
    {
        assert(cs@.take(i + 1).drop_last() == cs@.take(i as int));
        if cs[i] == '>' {
            redir.push('>');
        }
        i += 1;
    }
    assert(cs@.take(cs.len() as int) == cs@);
    redir.len() == 0 || split_str(&cs, &redir).len() > 1
}

/// The text before and after the first `=` of `arg`.
pub open spec fn spec_split_assignment(arg: Seq<char>) -> Option<(Seq<char>, Seq<char>)> {
    if !arg.contains('=') {
        None
    } else {
        let i = choose|i: int| 0 <= i < arg.len() && arg[i] == '=' && forall|j: int| 0 <= j < i ==> arg[j] != '=';
        Some((arg.take(i), arg.skip(i + 1)))
    }
}

/// Splits `name=value` at its first `=`.
pub fn split_assignment(arg: &str) -> (r: Option<(String, String)>)
    ensures
        match spec_split_assignment(arg@) {
            Some((n, v)) => r matches Some(p) && p.0@ == n && p.1@ == v,
            None => r.is_none(),
        },
{
    let cs = chars_of(arg);
    let mut i: usize = 0;
    while i < cs.len()
        invariant
            i <= cs.len(),
            cs@ == arg@,
            forall|j: int| 0 <= j < i ==> cs@[j] != '=',
        decreases cs.len() - i,
    {
        if cs[i] == '=' {
            let ghost k = choose|k: int| 0 <= k < arg@.len() && arg@[k] == '=' && forall|j: int| 0 <= j < k ==> arg@[j] != '=';
            assert(k == i) by {
                if k < i {
                    assert(cs@[k] != '=');
                } else if k > i {
                    assert(arg@[i as int] == '=');
                }
            }
            let mut name: Vec<char> = Vec::new();
            let mut j: usize = 0;
            while j < i
                invariant
                    j <= i,
                    i < cs.len(),
                    name@ == cs@.take(j as int),
                decreases i - j,
            {
                name.push(cs[j]);
                j += 1;
                assert(cs@.take(j as int) == cs@.take(j - 1).push(cs@[j - 1]));
            }
            let mut value: Vec<char> = Vec::new();
            let mut j: usize = i + 1;
            while j < cs.len()
                invariant
                    i + 1 <= j <= cs.len(),
                    value@ == cs@.subrange(i + 1, j as int),
                decreases cs.len() - j,
            {
                value.push(cs[j]);
                j += 1;
                assert(cs@.subrange(i + 1, j as int) == cs@.subrange(i + 1, j - 1).push(cs@[j - 1]));
            }
            return Some((string_of(&name), string_of(&value)));
        }
        i += 1;
    }
    None
}

/// The aliases the shell knows, by name.
pub struct Aliases {
    table: StringTable,
}

impl View for Aliases {
    type V = Map<Seq<char>, Seq<char>>;

    closed spec fn view(&self) -> Map<Seq<char>, Seq<char>> {
        self.table@
    }
}

/// What `alias` does with its arguments: with exactly one argument that
/// holds `=`, the text before the first `=` becomes an alias for the text
/// after it.
pub open spec fn spec_alias(aliases: Map<Seq<char>, Seq<char>>, command: Seq<Seq<char>>) -> Map<Seq<char>, Seq<char>> {
    if command.len() != 2 {
        aliases
    } else {
        match spec_split_assignment(command[1]) {
            Some((name, cmd)) => aliases.insert(name, cmd),
            None => aliases,
        }
    }
}

impl Aliases {
    pub fn new() -> (r: Self)
        ensures
            r@ == Map::<Seq<char>, Seq<char>>::empty(),
    {
        Aliases { table: StringTable::new() }
    }

    /// The command `name` stands for.
    pub fn get(&self, name: &str) -> (r: Option<&String>)
        ensures
            match r {
                Some(v) => self@.contains_key(name@) && self@[name@] == v@,
                None => !self@.contains_key(name@),
            },
    {
        self.table.get(name)
    }

    /// The built-in `alias name=command`.
    pub fn alias(&mut self, command: &Vec<String>)
        ensures
            final(self)@ == spec_alias(old(self)@, command@.map_values(|a: String| a@)),
    {
        if command.len() != 2 {
            return;
        }
        match split_assignment(command[1].as_str()) {
            Some((name, cmd)) => self.table.insert(name, cmd),
            None => {},
        }
    }
}

/// After `alias name=command`, `name` stands for `command`, whatever
/// it stood for before.
pub proof fn law_alias_read_after_write(aliases: Map<Seq<char>, Seq<char>>, program: Seq<char>, name: Seq<char>, cmd: Seq<char>)
    requires
        !name.contains('='),
    ensures
        ({
            let after = spec_alias(aliases, seq![program, name + seq!['='] + cmd]);
            after.contains_key(name) && after[name] == cmd
        }),
{
    let arg = name + seq!['='] + cmd;
    let i = name.len() as int;
    assert(arg[i] == '=');
    assert(arg.contains('='));
    let k = choose|k: int| 0 <= k < arg.len() && arg[k] == '=' && forall|j: int| 0 <= j < k ==> arg[j] != '=';
    assert(k == i) by {
        if k < i {
            assert(arg[k] == name[k]);
        } else if k > i {
            assert(arg[i] == '=');
        }
    }
    assert(arg.take(i) == name);
    assert(arg.skip(i + 1) == cmd);
    assert(seq![program, arg][1] == arg);
}

/// The pid named by `fg` or `bg`: none without an argument, else the first
/// argument read as a `u32` when it is one.
pub fn job_pid_arg(command: &Vec<String>) -> (r: Option<u32>)
    requires
        command@.len() >= 1,
    ensures
        r == if command@.len() == 1 { None } else { spec_parse_u32(command@[1]@) },
{
    if command.len() == 1 {
        None
    } else {
        parse_u32(&chars_of(command[1].as_str()))
    }
}

/// The directory `cd` changes to: the first argument, or the home directory
/// for `~` or no argument; in any other argument `~` stands for the home
/// directory. With `~` and no home directory known, `~` itself.
pub open spec fn spec_cd_target(command: Seq<Seq<char>>, home: Option<Seq<char>>) -> Seq<char> {
    let dir = if command.len() > 1 { command[1] } else { "~"@ };
    if dir == "~"@ {
        match home {
            Some(h) => h,
            None => dir,
        }
    } else {
        replace_spec(dir, "~"@, home.unwrap())
    }
}

/// Whether `cd` is defined: an argument other than `~` needs the home directory.
pub open spec fn cd_defined(command: Seq<Seq<char>>, home: Option<Seq<char>>) -> bool {
    let dir = if command.len() > 1 { command[1] } else { "~"@ };
    dir != "~"@ ==> home.is_some()
}

/// The directory `cd` changes to, given the home directory.
pub fn cd_target(command: &Vec<String>, home: &Option<String>) -> (r: String)
    requires
        cd_defined(command@.map_values(|a: String| a@), match home { Some(h) => Some(h@), None => None }),
    ensures
        r@ == spec_cd_target(command@.map_values(|a: String| a@), match home { Some(h) => Some(h@), None => None }),
{
    let ghost args = command@.map_values(|a: String| a@);
    let dir: String = if command.len() > 1 { command[1].clone() } else { "~".to_owned() };
    assert(dir@ == if args.len() > 1 { args[1] } else { "~"@ });
    if chars_eq(&chars_of(dir.as_str()), &chars_of("~")) {
        match home {
            Some(h) => h.clone(),
            None => dir,
        }
    } else {
        match home {
            Some(h) => replace(dir.as_str(), "~", h.as_str()),
            None => dir,
        }
    }
}

/// The commands of a line: the blocks between `;`, each cut at `&&`.
pub open spec fn spec_split_commands(line: Seq<char>) -> Seq<Seq<char>> {
    split_str_spec(line, ";"@).map_values(|b: Seq<char>| split_str_spec(b, "&&"@)).flatten()
}

/// The commands of a line, in the order they run.
pub fn split_commands(line: &str) -> (r: Vec<String>)
    ensures
        r@.map_values(|c: String| c@) == spec_split_commands(line@),
{
    proof {
        reveal_strlit(";");
        reveal_strlit("&&");
    }
    let blocks = split_str(&chars_of(line), &chars_of(";"));
    let ghost bv = blocks@.map_values(|w: Vec<char>| w@);
    let ghost per = bv.map_values(|b: Seq<char>| split_str_spec(b, "&&"@));
    let and = chars_of("&&");
    let mut out: Vec<String> = Vec::new();
    let mut i: usize = 0;
    assert(per.take(0).flatten() == Seq::<Seq<char>>::empty());
    while i < blocks.len()
        invariant
            i <= blocks.len(),
            and@ == "&&"@,
            and@.len() == 2,
            bv == blocks@.map_values(|w: Vec<char>| w@),
            per == bv.map_values(|b: Seq<char>| split_str_spec(b, "&&"@)),
            out@.map_values(|c: String| c@) == per.take(i as int).flatten(),
        decreases blocks.len() - i,
    {
        let cmds = strings_of(&split_str(&blocks[i], &and));
        let ghost before = out@;
        let mut more = cmds;
        let ghost mv = more@;
        out.append(&mut more);
        proof {
            assert(out@.map_values(|c: String| c@) =~= before.map_values(|c: String| c@) + mv.map_values(|c: String| c@));
            assert(per.take(i + 1) == per.take(i as int).push(per[i as int]));
            per.take(i as int).lemma_flatten_push(per[i as int]);
        }
        i += 1;
    }
    assert(per.take(blocks.len() as int) == per);
    out
}


/// What a line asks for before its commands run: nothing for an empty
/// line (`None`), else whether it runs in the background, which it does
/// when it ends in `&`.
pub fn plan_line(command: &str) -> (r: Option<bool>)
    ensures
        command@.len() == 0 <==> r is None,
        r matches Some(b) ==> b == (command@.last() == '&'),
{
    if chars_of(command).len() == 0 {
        None
    } else {
        Some(run_in_bg(command))
    }
}

/// The first program of a pipeline that could not be found, given for each
/// program whether it was found; `None` when all were.
pub fn segment_check(valid: &Vec<bool>) -> (r: Option<usize>)
    ensures
        r is None <==> forall|i: int| 0 <= i < valid@.len() ==> valid@[i],
        r matches Some(i) ==> i < valid@.len() && !valid@[i as int] && forall|j: int| 0 <= j < i ==> valid@[j],
{
    let mut i: usize = 0;
    while i < valid.len()
        invariant
            i <= valid.len(),
            forall|j: int| 0 <= j < i ==> valid@[j],
        decreases valid.len() - i,
    {
        if !valid[i] {
            return Some(i);
        }
        i += 1;
    }
    None
}

/// Where a child of a pipeline reads from.
#[derive(Clone, Copy, Debug, PartialEq, Eq, Structural)]
pub enum StdinFrom {
    /// As it was set up when the child was made.
    Unchanged,
    /// The shell's own input.
    Inherit,
    /// The output of the child before it.
    PreviousOutput,
}

/// Where a child of a pipeline writes to.
#[derive(Clone, Copy, Debug, PartialEq, Eq, Structural)]
pub enum StdoutTo {
    /// As it was set up when the child was made.
    Unchanged,
    /// A new pipe, read by the next child.
    Pipe,
    /// The shell's own output.
    Inherit,
    /// The output file or variable named on the line.
    OutputFile,
}

/// How the child at `i` of `n` is wired: each child but the first reads
/// what the one before it wrote; each program but the last writes into a
/// pipe (with its errors on the shell's error output); the last writes to
/// the output named on the line, or else a program writes to the shell's
/// output and takes the shell's input when it is alone. A Lua child keeps
/// the pipes it was made with, but for those.
pub open spec fn spec_wiring(i: usize, n: usize, lua: bool, has_output: bool) -> (StdinFrom, StdoutTo, bool) {
    let last = i + 1 == n;
    let stdin = if i > 0 {
        StdinFrom::PreviousOutput
    } else if last && !lua {
        StdinFrom::Inherit
    } else {
        StdinFrom::Unchanged
    };
    if !last {
        if lua { (stdin, StdoutTo::Unchanged, false) } else { (stdin, StdoutTo::Pipe, true) }
    } else if has_output {
        (stdin, StdoutTo::OutputFile, false)
    } else if lua {
        (stdin, StdoutTo::Unchanged, false)
    } else {
        (stdin, StdoutTo::Inherit, false)
    }
}

/// How to wire the child at `i` of a pipeline of `n`: its input, its
/// output, and whether its errors go to the shell's error output.
pub fn pipe_wiring(i: usize, n: usize, lua: bool, has_output: bool) -> (r: (StdinFrom, StdoutTo, bool))
    requires
        i < n,
    ensures
        r == spec_wiring(i, n, lua, has_output),
{
    let last = i + 1 == n;
    let stdin = if i > 0 {
        StdinFrom::PreviousOutput
    } else if last && !lua {
        StdinFrom::Inherit
    } else {
        StdinFrom::Unchanged
    };
    if !last {
        if lua { (stdin, StdoutTo::Unchanged, false) } else { (stdin, StdoutTo::Pipe, true) }
    } else if has_output {
        (stdin, StdoutTo::OutputFile, false)
    } else if lua {
        (stdin, StdoutTo::Unchanged, false)
    } else {
        (stdin, StdoutTo::Inherit, false)
    }
}

/// In a pipeline, every child but the first reads the output of the one
/// before it, and every program but the last writes into a pipe.
pub proof fn law_pipeline_chains(n: usize, i: usize, lua: bool, has_output: bool)
    requires
        i < n,
    ensures
        i > 0 ==> spec_wiring(i, n, lua, has_output).0 == StdinFrom::PreviousOutput,
        i + 1 < n && !lua ==> spec_wiring(i, n, lua, has_output).1 == StdoutTo::Pipe,
        i + 1 == n && has_output ==> spec_wiring(i, n, lua, has_output).1 == StdoutTo::OutputFile,
{
}

/// The jobs the shell started (each the pids of its processes), the job
/// in the foreground, and whether the shell waits for it.
pub ghost struct JobsView {
    pub jobs: Seq<Seq<i32>>,
    pub cur_job: Option<usize>,
    pub should_wait: bool,
}

/// The table of running jobs.
pub struct JobTable {
    jobs: Vec<Vec<i32>>,
    cur_job: Option<usize>,
    should_wait: bool,
}

pub open spec fn jobs_view(v: Seq<Vec<i32>>) -> Seq<Seq<i32>> {
    v.map_values(|j: Vec<i32>| j@)
}

/// The first job that holds a process whose pid, read as a `u32`, is `pid`.
pub open spec fn is_first_job_with(jobs: Seq<Seq<i32>>, pid: u32, i: int) -> bool {
    &&& 0 <= i < jobs.len()
    &&& exists|p: int| 0 <= p < jobs[i].len() && jobs[i][p] as u32 == pid
    &&& forall|j: int, p: int| 0 <= j < i && 0 <= p < jobs[j].len() ==> jobs[j][p] as u32 != pid
}

/// The first job that holds the process `pid`, and its place in it.
pub open spec fn is_reaped_at(jobs: Seq<Seq<i32>>, pid: i32, i: int, p: int) -> bool {
    &&& 0 <= i < jobs.len()
    &&& 0 <= p < jobs[i].len()
    &&& jobs[i][p] == pid
    &&& forall|q: int| 0 <= q < p ==> jobs[i][q] != pid
    &&& forall|j: int| 0 <= j < i ==> !jobs[j].contains(pid)
}

/// `Vec::swap_remove`: the last element takes the place of the one removed.
pub open spec fn swap_removed<T>(s: Seq<T>, i: int) -> Seq<T> {
    s.update(i, s.last()).drop_last()
}

/// The table after the process `pid`, at place `p` of job `i`, has ended:
/// it leaves its job; a job left empty leaves the table, and when it was
/// the foreground job the shell stops waiting.
pub open spec fn spec_child_reaped(v: JobsView, i: int, p: int) -> JobsView {
    let job = swap_removed(v.jobs[i], p);
    if job.len() == 0 {
        let ends_current = v.cur_job == Some(i as usize);
        JobsView {
            jobs: swap_removed(v.jobs.update(i, job), i),
            cur_job: if ends_current { None } else { v.cur_job },
            should_wait: if ends_current { false } else { v.should_wait },
        }
    } else {
        JobsView { jobs: v.jobs.update(i, job), ..v }
    }
}

/// Reaping a process never changes whether the shell waits, unless the
/// process was the last one of the foreground job: then the shell stops
/// waiting and no job is in the foreground.
pub proof fn law_reaping_keeps_waiting(v: JobsView, pid: i32, i: int, p: int)
    requires
        is_reaped_at(v.jobs, pid, i, p),
    ensures
        v.cur_job != Some(i as usize) ==> spec_child_reaped(v, i, p).should_wait == v.should_wait
            && spec_child_reaped(v, i, p).cur_job == v.cur_job,
        v.jobs[i].len() > 1 ==> spec_child_reaped(v, i, p).should_wait == v.should_wait,
        v.cur_job == Some(i as usize) && v.jobs[i].len() == 1 ==> !spec_child_reaped(v, i, p).should_wait
            && spec_child_reaped(v, i, p).cur_job == None::<usize>,
        v.jobs[i].len() > 1 ==> {
            &&& spec_child_reaped(v, i, p).jobs.len() == v.jobs.len()
            &&& spec_child_reaped(v, i, p).jobs[i].len() == v.jobs[i].len() - 1
            &&& forall|j: int| 0 <= j < v.jobs.len() && j != i ==> #[trigger] spec_child_reaped(v, i, p).jobs[j] == v.jobs[j]
        },
        v.jobs[i].len() == 1 ==> spec_child_reaped(v, i, p).jobs.len() == v.jobs.len() - 1,
{
}

/// Every job still has a process.
pub open spec fn no_empty_jobs(jobs: Seq<Seq<i32>>) -> bool {
    forall|j: int| 0 <= j < jobs.len() ==> (#[trigger] jobs[j]).len() > 0
}

/// When the process that ended was the last of its job, the job leaves the
/// table: no job is ever left without processes.
pub proof fn law_reaping_leaves_no_empty_job(v: JobsView, pid: i32, i: int, p: int)
    requires
        no_empty_jobs(v.jobs),
        is_reaped_at(v.jobs, pid, i, p),
    ensures
        no_empty_jobs(spec_child_reaped(v, i, p).jobs),
{
    let job = swap_removed(v.jobs[i], p);
    let r = spec_child_reaped(v, i, p);
    if job.len() == 0 {
        let u = v.jobs.update(i, job);
        assert forall|j: int| 0 <= j < r.jobs.len() implies (#[trigger] r.jobs[j]).len() > 0 by {
            if j == i {
                assert(r.jobs[j] == u.last());
                assert(u.last() == v.jobs[v.jobs.len() - 1]);
            } else {
                assert(r.jobs[j] == v.jobs[j]);
            }
        }
    } else {
        assert forall|j: int| 0 <= j < r.jobs.len() implies (#[trigger] r.jobs[j]).len() > 0 by {
            if j != i {
                assert(r.jobs[j] == v.jobs[j]);
            }
        }
    }
}

impl View for JobTable {
    type V = JobsView;

    closed spec fn view(&self) -> JobsView {
        JobsView { jobs: jobs_view(self.jobs@), cur_job: self.cur_job, should_wait: self.should_wait }
    }
}

fn contains_pid(job: &Vec<i32>, pid: i32) -> (r: Option<usize>)
    ensures
        match r {
            Some(p) => p < job@.len() && job@[p as int] == pid && forall|q: int| 0 <= q < p ==> job@[q] != pid,
            None => !job@.contains(pid),
        },
{
    let mut p: usize = 0;
    while p < job.len()
        invariant
            p <= job.len(),
            forall|q: int| 0 <= q < p ==> job@[q] != pid,
        decreases job.len() - p,
    {
        if job[p] == pid {
            return Some(p);
        }
        p += 1;
    }
    None
}

impl JobTable {
    /// No jobs, none in the foreground, not waiting.
    pub fn new() -> (r: Self)
        ensures
            r@ == (JobsView { jobs: Seq::empty(), cur_job: None, should_wait: false }),
    {
        let r = JobTable { jobs: Vec::new(), cur_job: None, should_wait: false };
        assert(jobs_view(r.jobs@) == Seq::<Seq<i32>>::empty());
        r
    }

    /// Whether the shell waits for the foreground job.
    pub fn should_wait(&self) -> (r: bool)
        ensures
            r == self@.should_wait,
    {
        self.should_wait
    }

    pub fn set_should_wait(&mut self, wait: bool)
        ensures
            final(self)@ == (JobsView { should_wait: wait, ..old(self)@ }),
    {
        self.should_wait = wait;
    }

    /// The job in the foreground, if any.
    pub fn current(&self) -> (r: Option<usize>)
        ensures
            r == self@.cur_job,
    {
        self.cur_job
    }

    /// Puts job `job` in the foreground, or none.
    pub fn set_current(&mut self, job: Option<usize>)
        ensures
            final(self)@ == (JobsView { cur_job: job, ..old(self)@ }),
    {
        self.cur_job = job;
    }

    /// The number of jobs.
    pub fn len(&self) -> (r: usize)
        ensures
            r == self@.jobs.len(),
    {
        self.jobs.len()
    }

    /// Adds a started job; when the shell waits, it becomes the foreground job.
    pub fn add_job(&mut self, children: Vec<i32>)
        ensures
            final(self)@.jobs == old(self)@.jobs.push(children@),
            final(self)@.should_wait == old(self)@.should_wait,
            final(self)@.cur_job == if old(self)@.should_wait {
                Some(old(self)@.jobs.len() as usize)
            } else {
                old(self)@.cur_job
            },
    {
        let ghost before = self.jobs@;
        let ghost c = children@;
        self.jobs.push(children);
        assert(jobs_view(self.jobs@) =~= jobs_view(before).push(c));
        if self.should_wait {
            self.cur_job = Some(self.jobs.len() - 1);
        }
    }

    /// The processes of job `idx`.
    pub fn job(&self, idx: usize) -> (r: Option<&Vec<i32>>)
        ensures
            match r {
                Some(j) => idx < self@.jobs.len() && j@ == self@.jobs[idx as int],
                None => idx >= self@.jobs.len(),
            },
    {
        if idx < self.jobs.len() {
            Some(&self.jobs[idx])
        } else {
            None
        }
    }

    /// The processes of the foreground job.
    pub fn get_current_job(&self) -> (r: Option<&Vec<i32>>)
        requires
            self@.cur_job matches Some(i) ==> i < self@.jobs.len(),
        ensures
            match self@.cur_job {
                Some(i) => r matches Some(j) && j@ == self@.jobs[i as int],
                None => r.is_none(),
            },
    {
        match self.cur_job {
            Some(idx) => Some(&self.jobs[idx]),
            None => None,
        }
    }

    /// The job `fg` and `bg` act on: the newest without a pid, else the
    /// first that holds a process with that pid.
    pub fn get_job_index(&self, pid: Option<u32>) -> (r: Option<usize>)
        ensures
            match pid {
                None => r == if self@.jobs.len() == 0 { None } else { Some((self@.jobs.len() - 1) as usize) },
                Some(p) => match r {
                    Some(i) => is_first_job_with(self@.jobs, p, i as int),
                    None => forall|j: int, q: int| 0 <= j < self@.jobs.len() && 0 <= q < self@.jobs[j].len()
                        ==> self@.jobs[j][q] as u32 != p,
                },
            },
    {
        let ghost jv = jobs_view(self.jobs@);
        match pid {
            None => {
                if self.jobs.len() == 0 {
                    None
                } else {
                    Some(self.jobs.len() - 1)
                }
            },
            Some(target) => {
                let mut index: usize = 0;
                while index < self.jobs.len()
                    invariant
                        pid == Some(target),
                        index <= self.jobs@.len(),
                        jv == jobs_view(self.jobs@),
                        forall|j: int, q: int| 0 <= j < index && 0 <= q < jv[j].len() ==> jv[j][q] as u32 != target,
                    decreases self.jobs@.len() - index,
                {
                    let children = &self.jobs[index];
                    assert(jv[index as int] == children@);
                    let mut q: usize = 0;
                    while q < children.len()
                        invariant
                            pid == Some(target),
                            index < self.jobs@.len(),
                            jv == jobs_view(self.jobs@),
                            jv[index as int] == children@,
                            forall|j: int, q: int| 0 <= j < index && 0 <= q < jv[j].len() ==> jv[j][q] as u32 != target,
                            q <= children@.len(),
                            forall|r: int| 0 <= r < q ==> children@[r] as u32 != target,
                        decreases children@.len() - q,
                    {
                        if children[q] as u32 == target {
                            assert(jv[index as int][q as int] as u32 == target);
                            assert(is_first_job_with(jv, target, index as int));
                            return Some(index);
                        }
                        q += 1;
                    }
                    index += 1;
                }
                None
            },
        }
    }

    /// Records that the process `pid` has ended.
    pub fn child_reaped(&mut self, pid: i32)
        requires
            exists|i: int| 0 <= i < old(self)@.jobs.len() && #[trigger] old(self)@.jobs[i].contains(pid),
        ensures
            exists|i: int, p: int| is_reaped_at(old(self)@.jobs, pid, i, p)
                && final(self)@ == spec_child_reaped(old(self)@, i, p),
    {
        let ghost v = self@;
        let mut i: usize = 0;
        while i < self.jobs.len()
            invariant
                i <= self.jobs@.len(),
                v == self@,
                v == old(self)@,
                forall|j: int| 0 <= j < i ==> !v.jobs[j].contains(pid),
            decreases self.jobs@.len() - i,
        {
            assert(v.jobs[i as int] == self.jobs@[i as int]@);
            match contains_pid(&self.jobs[i], pid) {
                Some(p) => {
                    let mut job = self.jobs[i].clone();
                    assert(job@ == v.jobs[i as int]);
                    assert(is_reaped_at(v.jobs, pid, i as int, p as int));
                    let _ = job.swap_remove(p);
                    let empty = job.len() == 0;
                    let ghost job_v = job@;
                    self.jobs.set(i, job);
                    assert(jobs_view(self.jobs@) =~= v.jobs.update(i as int, job_v));
                    if empty {
                        let ghost before = self.jobs@;
                        let _ = self.jobs.swap_remove(i);
                        assert(jobs_view(self.jobs@) =~= swap_removed(jobs_view(before), i as int));
                        if self.cur_job == Some(i) {
                            self.cur_job = None;
                            self.should_wait = false;
                        }
                    }
                    assert(self@ == spec_child_reaped(v, i as int, p as int));
                    assert(is_reaped_at(old(self)@.jobs, pid, i as int, p as int)
                        && self@ == spec_child_reaped(old(self)@, i as int, p as int));
                    return;
                },
                None => {},
            }
            i += 1;
        }
        assert(false);
    }
}


/// What one part of a pipeline becomes, as the contracts see it.
pub ghost enum SegmentView {
    /// Lua code, kept whole.
    Lua(Seq<char>),
    /// A program and its arguments, and the output file it names.
    Command(Seq<Seq<char>>, Option<Seq<char>>),
    /// Nothing left to run (no words, or only a redirection).
    Empty,
    /// An open quote.
    Unclosed,
}

/// What one part of a pipeline becomes.
pub enum Segment {
    Lua(String),
    Command(Vec<String>, Option<String>),
    Empty,
    Unclosed,
}

pub open spec fn strings_view(v: Seq<String>) -> Seq<Seq<char>> {
    v.map_values(|s: String| s@)
}

impl View for Segment {
    type V = SegmentView;

    open spec fn view(&self) -> SegmentView {
        match self {
            Segment::Lua(t) => SegmentView::Lua(t@),
            Segment::Command(c, o) => SegmentView::Command(
                strings_view(c@),
                match o {
                    Some(f) => Some(f@),
                    None => None,
                },
            ),
            Segment::Empty => SegmentView::Empty,
            Segment::Unclosed => SegmentView::Unclosed,
        }
    }
}

/// `ex` is what expansion may have made of the words `toks`: one word each,
/// and a word with nothing to expand unchanged.
pub open spec fn expansion_of(toks: Seq<Seq<char>>, ex: Seq<Seq<char>>) -> bool {
    &&& ex.len() == toks.len()
    &&& forall|i: int| 0 <= i < toks.len() && nothing_to_expand(#[trigger] toks[i]) ==> ex[i] == toks[i]
}

/// The expanded words of a part: a final `> file` or `>> file` on the part
/// that ends the line names the output; the first word, when it is an
/// alias that reads as words, is replaced by them.
pub open spec fn finish_segment(ex: Seq<Seq<char>>, ends_line: bool, aliases: Map<Seq<char>, Seq<char>>) -> SegmentView {
    let redirected = ends_line && ex.len() > 1 && (ex[ex.len() - 2] == ">"@ || ex[ex.len() - 2] == ">>"@);
    let cmd = if redirected { ex.take(ex.len() - 2) } else { ex };
    let out = if redirected { Some(ex.last()) } else { None };
    if cmd.len() == 0 {
        SegmentView::Empty
    } else if aliases.contains_key(cmd[0]) && spec_parse_command(aliases[cmd[0]]).is_some() {
        SegmentView::Command(spec_parse_command(aliases[cmd[0]]).unwrap() + cmd.drop_first(), out)
    } else {
        SegmentView::Command(cmd, out)
    }
}

/// `r` is what the words `toks` become after they expand to `ex`.
pub open spec fn expanded_to(toks: Seq<Seq<char>>, ex: Seq<Seq<char>>, ends_line: bool, aliases: Map<Seq<char>, Seq<char>>, r: SegmentView) -> bool {
    expansion_of(toks, ex) && r == finish_segment(ex, ends_line, aliases)
}

/// What a trimmed part `t` of a pipeline may become, whatever expansion gives.
pub open spec fn segment_result(t: Seq<char>, ends_line: bool, aliases: Map<Seq<char>, Seq<char>>, r: SegmentView) -> bool {
    if starts_with(t, "!"@) {
        r == SegmentView::Lua(t)
    } else if spec_parse_command(t).is_none() {
        r == SegmentView::Unclosed
    } else {
        exists|ex: Seq<Seq<char>>| #[trigger] expanded_to(spec_parse_command(t).unwrap(), ex, ends_line, aliases, r)
    }
}

proof fn lemma_segment_result(
    t: Seq<char>,
    ends_line: bool,
    aliases: Map<Seq<char>, Seq<char>>,
    toks: Seq<Seq<char>>,
    ex: Seq<Seq<char>>,
    r: SegmentView,
)
    requires
        !starts_with(t, "!"@),
        spec_parse_command(t) == Some(toks),
        expanded_to(toks, ex, ends_line, aliases, r),
    ensures
        segment_result(t, ends_line, aliases, r),
{
    assert(spec_parse_command(t).unwrap() == toks);
    assert(expanded_to(spec_parse_command(t).unwrap(), ex, ends_line, aliases, r));
    assert(exists|ex2: Seq<Seq<char>>| #[trigger] expanded_to(spec_parse_command(t).unwrap(), ex2, ends_line, aliases, r));
}

proof fn lemma_join_first(ws: Seq<Seq<char>>)
    requires
        ws.len() > 0,
        ws[0].len() > 0,
    ensures
        join_words(ws).len() > 0,
        join_words(ws)[0] == ws[0][0],
    decreases ws.len(),
{
    if ws.len() > 1 {
        assert(ws.drop_last()[0] == ws[0]);
        lemma_join_first(ws.drop_last());
    }
}

proof fn lemma_plain_segment(toks: Seq<Seq<char>>, ends_line: bool, aliases: Map<Seq<char>, Seq<char>>, r: SegmentView)
    requires
        toks.len() > 0,
        forall|i: int| 0 <= i < toks.len() ==> is_plain_word(#[trigger] toks[i]) && nothing_to_expand(toks[i]),
        toks[0][0] != '!',
        segment_result(join_words(toks), ends_line, aliases, r),
    ensures
        r == finish_segment(toks, ends_line, aliases),
{
    reveal_strlit("!");
    let t = join_words(toks);
    law_parse_command_plain_words(toks);
    lemma_join_first(toks);
    assert(!starts_with(t, "!"@)) by {
        if starts_with(t, "!"@) {
            assert(t.subrange(0, 1)[0] == t[0]);
        }
    }
    let ex = choose|ex: Seq<Seq<char>>| #[trigger] expanded_to(spec_parse_command(t).unwrap(), ex, ends_line, aliases, r);
    assert(expanded_to(toks, ex, ends_line, aliases, r));
    assert(ex =~= toks) by {
        assert forall|i: int| 0 <= i < toks.len() implies ex[i] == toks[i] by {
            assert(nothing_to_expand(toks[i]));
        }
    }
}

/// A first word that is an alias, whose text reads as words, is replaced
/// by those words; the other words follow unchanged.
pub proof fn law_alias_expands(
    ws: Seq<Seq<char>>,
    ends_line: bool,
    aliases: Map<Seq<char>, Seq<char>>,
    aw: Seq<Seq<char>>,
    r: SegmentView,
)
    requires
        ws.len() > 0,
        forall|i: int| 0 <= i < ws.len() ==> is_plain_word(#[trigger] ws[i]) && nothing_to_expand(ws[i]),
        ws[0][0] != '!',
        ws.len() >= 2 ==> ws[ws.len() - 2] != ">"@ && ws[ws.len() - 2] != ">>"@,
        aliases.contains_key(ws[0]),
        spec_parse_command(aliases[ws[0]]) == Some(aw),
        segment_result(join_words(ws), ends_line, aliases, r),
    ensures
        r == SegmentView::Command(aw + ws.drop_first(), None),
{
    lemma_plain_segment(ws, ends_line, aliases, r);
}

/// On a part that does not end the line, `> f` is no redirection: the
/// words stay as they are and no output is named.
pub proof fn law_no_redirect_inside_pipeline(
    ws: Seq<Seq<char>>,
    op: Seq<char>,
    f: Seq<char>,
    aliases: Map<Seq<char>, Seq<char>>,
    r: SegmentView,
)
    requires
        ws.len() > 0,
        forall|i: int| 0 <= i < ws.len() ==> is_plain_word(#[trigger] ws[i]) && nothing_to_expand(ws[i]),
        is_plain_word(f),
        nothing_to_expand(f),
        op == ">"@ || op == ">>"@,
        ws[0][0] != '!',
        !aliases.contains_key(ws[0]),
        segment_result(join_words(ws + seq![op, f]), false, aliases, r),
    ensures
        r == SegmentView::Command(ws + seq![op, f], None),
{
    reveal_strlit(">");
    reveal_strlit(">>");
    let toks = ws + seq![op, f];
    assert forall|i: int| 0 <= i < toks.len() implies is_plain_word(#[trigger] toks[i]) && nothing_to_expand(toks[i]) by {
        if i < ws.len() {
            assert(toks[i] == ws[i]);
        } else if i == ws.len() {
            assert(toks[i] == op);
        } else {
            assert(toks[i] == f);
        }
    }
    assert(toks[0] == ws[0]);
    lemma_plain_segment(toks, false, aliases, r);
}

/// On the part that ends the line, plain words followed by `> f` or
/// `>> f` are read as the command made of those words, with its output
/// going to `f`: the redirection is taken off the words.
pub proof fn law_redirect_at_line_end(
    ws: Seq<Seq<char>>,
    op: Seq<char>,
    f: Seq<char>,
    aliases: Map<Seq<char>, Seq<char>>,
    r: SegmentView,
)
    requires
        ws.len() > 0,
        forall|i: int| 0 <= i < ws.len() ==> is_plain_word(#[trigger] ws[i]) && nothing_to_expand(ws[i]),
        is_plain_word(f),
        nothing_to_expand(f),
        op == ">"@ || op == ">>"@,
        ws[0][0] != '!',
        !aliases.contains_key(ws[0]),
        segment_result(join_words(ws + seq![op, f]), true, aliases, r),
    ensures
        r == SegmentView::Command(ws, Some(f)),
{
    reveal_strlit(">");
    reveal_strlit(">>");
    reveal_strlit("!");
    let toks = ws + seq![op, f];
    let t = join_words(toks);
    assert forall|i: int| 0 <= i < toks.len() implies is_plain_word(#[trigger] toks[i]) && nothing_to_expand(toks[i]) by {
        if i < ws.len() {
            assert(toks[i] == ws[i]);
        } else if i == ws.len() {
            assert(toks[i] == op);
        } else {
            assert(toks[i] == f);
        }
    }
    law_parse_command_plain_words(toks);
    assert(toks[0] == ws[0]);
    lemma_join_first(toks);
    assert(!starts_with(t, "!"@)) by {
        if starts_with(t, "!"@) {
            assert(t.subrange(0, 1)[0] == t[0]);
        }
    }
    let ex = choose|ex: Seq<Seq<char>>| #[trigger] expanded_to(spec_parse_command(t).unwrap(), ex, true, aliases, r);
    assert(expanded_to(toks, ex, true, aliases, r));
    assert(ex =~= toks) by {
        assert forall|i: int| 0 <= i < toks.len() implies ex[i] == toks[i] by {
            assert(nothing_to_expand(toks[i]));
        }
    }
    assert(toks[toks.len() - 2] == op);
    assert(toks.take(toks.len() - 2) =~= ws);
    assert(toks.last() == f);
}

fn is_word(w: &String, lit: &str) -> (r: bool)
    ensures
        r == (w@ == lit@),
{
    chars_eq(&chars_of(w.as_str()), &chars_of(lit))
}

/// Reads one trimmed part of a pipeline.
pub fn parse_segment(aliases: &Aliases, t: &str, ends_line: bool) -> (r: Segment)
    ensures
        segment_result(t@, ends_line, aliases@, r@),
{
    if is_lua_command(t) {
        return Segment::Lua(t.to_owned());
    }
    match parse_command(t) {
        Err(_) => Segment::Unclosed,
        Ok(toks) => {
            let mut cmd: Vec<String> = Vec::new();
            let mut i: usize = 0;
            while i < toks.len()
                invariant
                    i <= toks.len(),
                    cmd@.len() == i,
                    forall|j: int| 0 <= j < i && nothing_to_expand(#[trigger] toks@[j]@) ==> cmd@[j]@ == toks@[j]@,
                decreases toks.len() - i,
            {
                let e = expand_all(toks[i].as_str());
                cmd.push(e);
                i += 1;
            }
            let ghost ex = strings_view(cmd@);
            assert(expansion_of(views_of(toks@), ex)) by {
                assert forall|j: int| 0 <= j < toks@.len() && nothing_to_expand(#[trigger] views_of(toks@)[j])
                    implies ex[j] == views_of(toks@)[j] by {
                    assert(views_of(toks@)[j] == toks@[j]@);
                }
            }
            let mut out: Option<String> = None;
            let n = cmd.len();
            let ghost fin = finish_segment(ex, ends_line, aliases@);
            assert(spec_parse_command(t@) == Some(views_of(toks@)));
            if ends_line && n > 1 && (is_word(&cmd[n - 2], ">") || is_word(&cmd[n - 2], ">>")) {
                assert(ex[n - 2] == cmd@[n - 2]@);
                let last = cmd[n - 1].clone();
                assert(last@ == ex.last());
                out = Some(last);
                cmd.truncate(n - 2);
                assert(strings_view(cmd@) =~= ex.take(ex.len() - 2));
            } else {
                assert(ends_line && n > 1 ==> ex[n - 2] == cmd@[n - 2]@);
            }
            let ghost cv = strings_view(cmd@);
            if cmd.len() == 0 {
                assert(fin == SegmentView::Empty);
                assert(expanded_to(views_of(toks@), ex, ends_line, aliases@, Segment::Empty@));
                proof {
                    lemma_segment_result(t@, ends_line, aliases@, views_of(toks@), ex, Segment::Empty@);
                }
                return Segment::Empty;
            }
            assert(cv[0] == cmd@[0]@);
            let r = match aliases.get(cmd[0].as_str()) {
                Some(a) => {
                    match parse_command(a.as_str()) {
                        Ok(exp) => {
                            let mut full = exp;
                            let mut j: usize = 1;
                            let ghost base = full@;
                            while j < cmd.len()
                                invariant
                                    1 <= j <= cmd@.len(),
                                    full@ == base + cmd@.subrange(1, j as int),
                                decreases cmd@.len() - j,
                            {
                                full.push(cmd[j].clone());
                                j += 1;
                                assert(cmd@.subrange(1, j as int) == cmd@.subrange(1, j - 1).push(cmd@[j - 1]));
                            }
                            assert(strings_view(full@) =~= strings_view(base) + cv.drop_first());
                            Segment::Command(full, out)
                        },
                        Err(_) => Segment::Command(cmd, out),
                    }
                },
                None => Segment::Command(cmd, out),
            };
            assert(r@ == fin);
            assert(expanded_to(views_of(toks@), ex, ends_line, aliases@, r@));
            proof {
                lemma_segment_result(t@, ends_line, aliases@, views_of(toks@), ex, r@);
            }
            r
        },
    }
}

/// A line read as a pipeline: the commands to run, the output file named
/// at its end, and how the reading stopped.
pub struct ParsedInput {
    pub commands: Vec<Vec<String>>,
    pub out_file: Option<String>,
    /// A part had an open quote; reading stopped there.
    pub unclosed: bool,
    /// A part had nothing to run; reading stopped there.
    pub empty: bool,
}

pub ghost struct ParsedView {
    pub commands: Seq<Seq<Seq<char>>>,
    pub out_file: Option<Seq<char>>,
    pub unclosed: bool,
    pub empty: bool,
}

impl View for ParsedInput {
    type V = ParsedView;

    open spec fn view(&self) -> ParsedView {
        ParsedView {
            commands: self.commands@.map_values(|c: Vec<String>| strings_view(c@)),
            out_file: match self.out_file {
                Some(f) => Some(f@),
                None => None,
            },
            unclosed: self.unclosed,
            empty: self.empty,
        }
    }
}

/// The pipeline made of the parts' results, read in order up to the first
/// part with an open quote or nothing to run.
pub open spec fn collect_segments(rs: Seq<SegmentView>) -> ParsedView
    decreases rs.len(),
{
    if rs.len() == 0 {
        ParsedView { commands: Seq::empty(), out_file: None, unclosed: false, empty: false }
    } else {
        let before = collect_segments(rs.drop_last());
        if before.unclosed || before.empty {
            before
        } else {
            match rs.last() {
                SegmentView::Lua(t) => ParsedView { commands: before.commands.push(seq![t]), ..before },
                SegmentView::Command(c, o) => ParsedView {
                    commands: before.commands.push(c),
                    out_file: if o.is_some() { o } else { before.out_file },
                    ..before
                },
                SegmentView::Empty => ParsedView { empty: true, ..before },
                SegmentView::Unclosed => ParsedView { unclosed: true, ..before },
            }
        }
    }
}

/// `r` is the pipeline read from the parts `segs` whose results are `rs`.
pub open spec fn parsed_by(segs: Seq<Seq<char>>, aliases: Map<Seq<char>, Seq<char>>, rs: Seq<SegmentView>, r: ParsedView) -> bool {
    &&& rs.len() <= segs.len()
    &&& forall|i: int| 0 <= i < rs.len() ==> segment_result(
        trim(#[trigger] segs[i]),
        trim(segs[i]) == segs.last(),
        aliases,
        rs[i],
    )
    &&& r == collect_segments(rs)
    &&& (rs.len() < segs.len() ==> r.unclosed || r.empty)
}

proof fn lemma_split_bar_absent(s: Seq<char>, cur: Seq<char>, acc: Seq<Seq<char>>)
    requires
        !s.contains('|'),
    ensures
        split_str_from(s, "|"@, cur, acc) == acc.push(cur + s),
    decreases s.len(),
{
    reveal_strlit("|");
    if s.len() == 0 {
        assert(cur + s =~= cur);
    } else {
        assert(s[0] != '|');
        assert(!starts_with(s, "|"@)) by {
            if starts_with(s, "|"@) {
                assert(s.subrange(0, 1)[0] == s[0]);
            }
        }
        assert(!s.drop_first().contains('|')) by {
            if s.drop_first().contains('|') {
                let k = choose|k: int| 0 <= k < s.drop_first().len() && s.drop_first()[k] == '|';
                assert(s[k + 1] == '|');
            }
        }
        lemma_split_bar_absent(s.drop_first(), cur.push(s[0]), acc);
        assert(cur.push(s[0]) + s.drop_first() =~= cur + s);
    }
}

proof fn lemma_join_chars(ws: Seq<Seq<char>>, i: int)
    requires
        0 <= i < join_words(ws).len(),
    ensures
        join_words(ws)[i] == ' ' || exists|j: int, k: int| 0 <= j < ws.len() && 0 <= k < ws[j].len()
            && #[trigger] ws[j][k] == join_words(ws)[i],
    decreases ws.len(),
{
    if ws.len() == 1 {
        assert(ws[0][i] == join_words(ws)[i]);
    } else if ws.len() > 1 {
        let front = join_words(ws.drop_last()).push(' ');
        if i < front.len() - 1 {
            lemma_join_chars(ws.drop_last(), i);
            if join_words(ws)[i] != ' ' {
                let (j, k) = choose|j: int, k: int| 0 <= j < ws.drop_last().len() && 0 <= k < ws.drop_last()[j].len()
                    && #[trigger] ws.drop_last()[j][k] == join_words(ws.drop_last())[i];
                assert(ws[j][k] == join_words(ws)[i]);
            }
        } else if i >= front.len() {
            assert(ws[ws.len() - 1][i - front.len()] == join_words(ws)[i]);
        }
    }
}

proof fn lemma_join_last(ws: Seq<Seq<char>>)
    requires
        ws.len() > 0,
        ws.last().len() > 0,
    ensures
        join_words(ws).len() > 0,
        join_words(ws).last() == ws.last().last(),
{
}

/// A whole line of plain words ending in `> f` or `>> f`, with no `|` and
/// no white space inside the words, is read (as `parse_input` reads it) as
/// the one command made of those words, whose output goes to `f`.
pub proof fn law_line_redirect(
    line: Seq<char>,
    ws: Seq<Seq<char>>,
    op: Seq<char>,
    f: Seq<char>,
    aliases: Map<Seq<char>, Seq<char>>,
    r: ParsedView,
)
    requires
        ws.len() > 0,
        forall|i: int| 0 <= i < ws.len() ==> is_plain_word(#[trigger] ws[i]) && nothing_to_expand(ws[i]),
        forall|i: int, k: int| 0 <= i < ws.len() && 0 <= k < ws[i].len() ==> !is_ws(#[trigger] ws[i][k]) && ws[i][k] != '|',
        is_plain_word(f),
        nothing_to_expand(f),
        forall|k: int| 0 <= k < f.len() ==> !is_ws(#[trigger] f[k]) && f[k] != '|',
        op == ">"@ || op == ">>"@,
        ws[0][0] != '!',
        !aliases.contains_key(ws[0]),
        line == join_words(ws + seq![op, f]),
        exists|rs: Seq<SegmentView>| #[trigger] parsed_by(split_str_spec(line, "|"@), aliases, rs, r),
    ensures
        r.commands == seq![ws],
        r.out_file == Some(f),
        !r.unclosed && !r.empty,
{
    reveal_strlit(">");
    reveal_strlit(">>");
    let toks = ws + seq![op, f];
    let t = join_words(toks);
    assert forall|i: int| 0 <= i < t.len() implies t[i] != '|' && (t[i] == ' ' || !is_ws(t[i])) by {
        lemma_join_chars(toks, i);
        if t[i] != ' ' {
            let (j, k) = choose|j: int, k: int| 0 <= j < toks.len() && 0 <= k < toks[j].len()
                && #[trigger] toks[j][k] == t[i];
            if j < ws.len() {
                assert(toks[j] == ws[j]);
            } else if j == ws.len() {
                assert(toks[j] == op);
            } else {
                assert(toks[j] == f);
            }
        }
    }
    assert(!t.contains('|'));
    lemma_split_bar_absent(t, Seq::empty(), Seq::empty());
    let segs = split_str_spec(t, "|"@);
    assert(Seq::<char>::empty() + t =~= t);
    assert(segs == seq![t]);
    assert(toks[0] == ws[0]);
    lemma_join_first(toks);
    assert(toks.last() == f);
    lemma_join_last(toks);
    assert(!is_ws(t[0])) by {
        assert(t[0] == ws[0][0]);
    }
    assert(!is_ws(t.last())) by {
        assert(t.last() == f[f.len() - 1]);
    }
    assert(trim_start(t) == t);
    assert(trim(t) == t);
    let rs = choose|rs: Seq<SegmentView>| #[trigger] parsed_by(segs, aliases, rs, r);
    if rs.len() == 0 {
        assert(collect_segments(rs) == ParsedView { commands: Seq::empty(), out_file: None, unclosed: false, empty: false });
    }
    assert(rs.len() == 1);
    assert(segment_result(trim(segs[0]), trim(segs[0]) == segs.last(), aliases, rs[0]));
    law_redirect_at_line_end(ws, op, f, aliases, rs[0]);
    assert(rs.drop_last() =~= Seq::<SegmentView>::empty());
    let none = ParsedView { commands: Seq::empty(), out_file: None, unclosed: false, empty: false };
    assert(collect_segments(rs.drop_last()) == none);
    assert(rs.last() == SegmentView::Command(ws, Some(f)));
    assert(r == collect_segments(rs));
    assert(r == ParsedView { commands: none.commands.push(ws), out_file: Some(f), ..none });
    assert(Seq::<Seq<Seq<char>>>::empty().push(ws) =~= seq![ws]);
}

/// Reads a line as a pipeline: the parts between `|`, each trimmed; a part
/// ends the line when, trimmed, it equals the last part as written.
pub fn parse_input(aliases: &Aliases, command: &str) -> (r: ParsedInput)
    ensures
        exists|rs: Seq<SegmentView>| #[trigger] parsed_by(split_str_spec(command@, "|"@), aliases@, rs, r@),
{
    proof {
        reveal_strlit("|");
    }
    let pieces = split_str(&chars_of(command), &chars_of("|"));
    let ghost segs = pieces@.map_values(|w: Vec<char>| w@);
    proof {
        crate::text::lemma_split_str_nonempty(command@, "|"@);
    }
    let last = pieces[pieces.len() - 1].clone();
    assert(last@ == segs.last());
    let mut r = ParsedInput { commands: Vec::new(), out_file: None, unclosed: false, empty: false };
    let ghost mut rs: Seq<SegmentView> = Seq::empty();
    assert(r@.commands =~= Seq::<Seq<Seq<char>>>::empty());
    let mut i: usize = 0;
    while i < pieces.len()
        invariant
            i <= pieces.len(),
            segs == pieces@.map_values(|w: Vec<char>| w@),
            segs == split_str_spec(command@, "|"@),
            segs.len() > 0,
            last@ == segs.last(),
            rs.len() == i,
            forall|j: int| 0 <= j < i ==> segment_result(
                trim(#[trigger] segs[j]),
                trim(segs[j]) == segs.last(),
                aliases@,
                rs[j],
            ),
            r@ == collect_segments(rs),
            !r@.unclosed && !r@.empty,
        decreases pieces.len() - i,
    {
        let t = trim_chars(&pieces[i]);
        assert(segs[i as int] == pieces@[i as int]@);
        let ends_line = chars_eq(&t, &last);
        let ts = string_of(&t);
        let seg = parse_segment(aliases, ts.as_str(), ends_line);
        let ghost sv = seg@;
        let ghost old_rs = rs;
        proof {
            rs = rs.push(sv);
        }
        assert(rs.drop_last() =~= old_rs);
        assert(rs.last() == sv);
        match seg {
            Segment::Lua(t) => {
                let ghost before = r.commands@;
                let ghost tv = t@;
                let one = vec![t];
                assert(strings_view(one@) =~= seq![tv]);
                r.commands.push(one);
                assert(r.commands@ == before.push(one));
                assert(r@.commands =~= collect_segments(rs.drop_last()).commands.push(seq![tv]));
            },
            Segment::Command(c, o) => {
                let ghost before = r.commands@;
                let ghost cv = strings_view(c@);
                r.commands.push(c);
                assert(r.commands@ == before.push(c));
                assert(r@.commands =~= collect_segments(rs.drop_last()).commands.push(cv));
                if o.is_some() {
                    r.out_file = o;
                }
            },
            Segment::Empty => {
                r.empty = true;
                assert(r@ == collect_segments(rs));
                assert(parsed_by(segs, aliases@, rs, r@));
                return r;
            },
            Segment::Unclosed => {
                r.unclosed = true;
                assert(r@ == collect_segments(rs));
                assert(parsed_by(segs, aliases@, rs, r@));
                return r;
            },
        }
        assert(r@ == collect_segments(rs));
        i += 1;
    }
    assert(parsed_by(segs, aliases@, rs, r@));
    r
}

} // verus!
