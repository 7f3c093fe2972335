//! Tab completion: the word under the cursor, the kind of completion it
//! asks for, the candidates that fit, and what is finally offered.
//! Listing directories is left to the caller, who hands the names in.

use vstd::prelude::*;
use vstd::relations::sorted_by;
use crate::text::{
    boundary_pos, byte_len, byte_len_below, byte_len_mod, chars_of, ends_with, find_chars,
    floor_index, floor_pos, is_boundary, is_substring, lemma_byte_len_push,
    lemma_floor_at_boundary, lemma_floor_exists, lemma_floor_index_unique, prefix_bytes,
    replace, replace_spec, slice_string, split_whitespace, split_ws, starts_with,
    str_starts_with, string_of,
};
use crate::order::{
    common_prefix, common_prefix_of, dedup_sorted, is_prefix, lemma_common_prefix_is_prefix,
    lemma_lex_total_ordering, lemma_prefix_between, lex_le, lex_order, sort_strings,
    strictly_sorted, views,
};
use crate::parser::{builtin_names, get_builtin_commands};

verus! {

broadcast use vstd::string::group_string_axioms;

/// What kind of completion the cursor asks for.
#[derive(Clone, Copy, Debug, PartialEq, Eq, Structural)]
pub enum PosibilityType {
    Executable,
    File,
    ProgramSpecific,
}

/// The line is empty or has a first word.
pub open spec fn has_first_word(s: Seq<char>) -> bool {
    s.len() == 0 || split_ws(s).len() > 0
}

/// The cursor is within the first word: a program name is completed.
pub open spec fn spec_is_command_completion(s: Seq<char>, cursor_pos: u16) -> bool {
    s.len() == 0 || byte_len(split_ws(s)[0]) >= cursor_pos
}

/// The line ends in a space, or the cursor is past the first word.
pub open spec fn spec_is_file_completion(s: Seq<char>, cursor_pos: u16) -> bool {
    ends_with(s, seq![' ']) || byte_len(split_ws(s)[0]) < cursor_pos
}

pub open spec fn spec_possibility_type(s: Seq<char>, cursor_pos: u16) -> PosibilityType {
    if spec_is_command_completion(s, cursor_pos) {
        PosibilityType::Executable
    } else if spec_is_file_completion(s, cursor_pos) {
        PosibilityType::File
    } else {
        PosibilityType::ProgramSpecific
    }
}

/// Whether `s` ends in a space.
fn ends_in_space(s: &Vec<char>) -> (r: bool)
    ensures
        r == ends_with(s@, seq![' ']),
{
    if s.len() == 0 {
        return false;
    }
    let last = s[s.len() - 1];
    proof {
        let sub = s@.subrange(s@.len() - 1, s@.len() as int);
        assert(sub.len() == 1 && sub[0] == last);
        if last == ' ' {
            assert(sub =~= seq![' ']);
        } else {
            assert(sub[0] != seq![' '][0]);
        }
    }
    last == ' '
}

/// Whether the first word of `s` takes at least `cursor_pos` bytes.
fn first_word_reaches(s: &Vec<char>, cursor_pos: u16) -> (r: bool)
    requires
        split_ws(s@).len() > 0,
    ensures
        r == (byte_len(split_ws(s@)[0]) >= cursor_pos),
{
    let words = split_whitespace(s);
    assert(words@.map_values(|w: Vec<char>| w@)[0] == words@[0]@);
    match byte_len_below(&words[0], cursor_pos as usize) {
        Some(_) => false,
        None => true,
    }
}

/// Whether the cursor is within the first word.
pub fn is_command_completion(string: &str, cursor_pos: u16) -> (r: bool)
    requires
        has_first_word(string@),
    ensures
        r == spec_is_command_completion(string@, cursor_pos),
{
    let s = chars_of(string);
    s.len() == 0 || first_word_reaches(&s, cursor_pos)
}

/// Whether the line ends in a space or the cursor is past the first word.
pub fn is_file_completion(string: &str, cursor_pos: u16) -> (r: bool)
    requires
        ends_with(string@, seq![' ']) || split_ws(string@).len() > 0,
    ensures
        r == spec_is_file_completion(string@, cursor_pos),
{
    let s = chars_of(string);
    ends_in_space(&s) || !first_word_reaches(&s, cursor_pos)
}

/// The kind of completion the cursor position asks for.
pub fn get_possibility_type(string: &str, cursor_pos: u16) -> (r: PosibilityType)
    requires
        has_first_word(string@),
    ensures
        r == spec_possibility_type(string@, cursor_pos),
{
    if is_command_completion(string, cursor_pos) {
        PosibilityType::Executable
    } else if is_file_completion(string, cursor_pos) {
        PosibilityType::File
    } else {
        PosibilityType::ProgramSpecific
    }
}

/// A backslash before a space: an escaped space in a path.
pub open spec fn escaped_space() -> Seq<char> {
    seq!['\\', ' ']
}

/// The byte offset `str::floor_char_boundary(j)` gives.
pub open spec fn floor_b(s: Seq<char>, j: int) -> int {
    prefix_bytes(s, floor_pos(s, j)) as int
}

/// Walking back from byte `idx` to the last unescaped space: each step
/// moves to the character boundary before the previous byte, and stops
/// where the character at that number (counted in characters) is a space
/// and the one at the boundary before it is not a backslash, or at byte 1.
pub open spec fn backtrack(s: Seq<char>, idx: int) -> int
    decreases idx,
{
    if idx > 1 {
        let i2 = floor_b(s, idx - 1);
        if i2 < idx {
            if s[i2] == ' ' && s[floor_b(s, i2 - 1)] != '\\' {
                i2
            } else {
                backtrack(s, i2)
            }
        } else {
            idx
        }
    } else {
        idx
    }
}

/// The walk back never reads before the start nor past the last character.
pub open spec fn backtrack_ok(s: Seq<char>, idx: int) -> bool
    decreases idx,
{
    if idx > 1 {
        let i2 = floor_b(s, idx - 1);
        &&& 1 <= i2 < s.len()
        &&& i2 < idx
        &&& (s[i2] == ' ' && s[floor_b(s, i2 - 1)] != '\\' || backtrack_ok(s, i2))
    } else {
        true
    }
}

/// The first word whose end, counted in bytes over the words alone and
/// kept to 16 bits, is at or past the cursor; a space when there is none.
pub open spec fn word_at(words: Seq<Seq<char>>, cursor_pos: u16, len: nat) -> Seq<char>
    decreases words.len(),
{
    if words.len() == 0 {
        seq![' ']
    } else if cursor_pos as nat <= (len + byte_len(words[0])) % 0x10000 {
        words[0]
    } else {
        word_at(words.drop_first(), cursor_pos, len + byte_len(words[0]))
    }
}

/// The cursor stands at the end of the line (its byte length kept to 16 bits).
pub open spec fn cursor_at_end(s: Seq<char>, cursor_pos: u16) -> bool {
    cursor_pos as nat == byte_len(s) % 0x10000
}

/// The text the completion replaces: at the end of the line, a space after
/// a trailing space, else the last word, or when the line holds an escaped
/// space, everything after the last unescaped space; elsewhere the word the
/// cursor is in.
pub open spec fn spec_string_at(s: Seq<char>, cursor_pos: u16) -> Seq<char> {
    if cursor_at_end(s, cursor_pos) {
        if ends_with(s, seq![' ']) {
            seq![' ']
        } else if !is_substring(escaped_space(), s) {
            split_ws(s).last()
        } else {
            let i = backtrack(s, cursor_pos - 1);
            s.subrange(boundary_pos(s, i + 1), boundary_pos(s, cursor_pos as int))
        }
    } else {
        word_at(split_ws(s), cursor_pos, 0)
    }
}

/// The inputs on which finding the text under the cursor does not fail:
/// a last word to take, or a walk back that stays in the line and ends on
/// character boundaries.
pub open spec fn string_at_defined(s: Seq<char>, cursor_pos: u16) -> bool {
    cursor_at_end(s, cursor_pos) && !ends_with(s, seq![' ']) ==> if !is_substring(
        escaped_space(),
        s,
    ) {
        split_ws(s).len() > 0
    } else {
        &&& cursor_pos >= 1
        &&& backtrack_ok(s, cursor_pos - 1)
        &&& backtrack(s, cursor_pos - 1) + 1 <= cursor_pos
        &&& is_boundary(s, backtrack(s, cursor_pos - 1) + 1)
        &&& is_boundary(s, cursor_pos as int)
    }
}

/// The byte offset of the character boundary at or before `n`, with the
/// proof that it is `floor_b`.
fn floor_byte(s: &Vec<char>, n: usize) -> (r: usize)
    ensures
        r == floor_b(s@, n as int),
        r <= n,
{
    let (k, p) = floor_index(s, n);
    proof {
        lemma_floor_index_unique(s@, n as int, k as int, floor_pos(s@, n as int));
    }
    p
}

/// The character position of the boundary at byte `b`.
fn boundary_index(s: &Vec<char>, b: usize) -> (r: usize)
    requires
        is_boundary(s@, b as int),
    ensures
        r == boundary_pos(s@, b as int),
        r <= s@.len(),
{
    let (k, _) = floor_index(s, b);
    proof {
        lemma_floor_at_boundary(s@, b as int, k as int);
    }
    k
}

/// The text under the cursor that a completion replaces.
pub fn get_string_at(string: &str, cursor_pos: u16) -> (r: String)
    requires
        string_at_defined(string@, cursor_pos),
    ensures
        r@ == spec_string_at(string@, cursor_pos),
{
    let s = chars_of(string);
    let len16 = byte_len_mod(&s);
    if cursor_pos as usize == len16 {
        if ends_in_space(&s) {
            return string_of(&vec![' ']);
        }
        let esc: Vec<char> = vec!['\\', ' '];
        assert(esc@ == escaped_space());
        if find_chars(&s, &esc).is_none() {
            let words = split_whitespace(&s);
            assert(words@.map_values(|w: Vec<char>| w@)[words.len() - 1] == words@[words.len() - 1]@);
            return string_of(&words[words.len() - 1]);
        }
        let ghost start = cursor_pos - 1;
        let mut idx: usize = (cursor_pos - 1) as usize;
        let mut done = false;
        while idx > 1 && !done
            invariant
                s@ == string@,
                idx <= start,
                start < 0x10000,
                done ==> backtrack(s@, start) == idx,
                !done ==> backtrack(s@, start) == backtrack(s@, idx as int),
                !done ==> backtrack_ok(s@, idx as int),
            decreases idx,
        {
            let i2 = floor_byte(&s, idx - 1);
            let prev = floor_byte(&s, i2 - 1);
            proof {
                lemma_floor_exists(s@, i2 - 1);
            }
            if s[i2] == ' ' && s[prev] != '\\' {
                done = true;
            }
            idx = i2;
        }
        let from = boundary_index(&s, idx + 1);
        let to = boundary_index(&s, cursor_pos as usize);
        proof {
            if from > to {
                crate::text::lemma_prefix_bytes_monotone(s@, to as int, from as int);
            }
        }
        return slice_string(&s, from, to);
    }
    let words = split_whitespace(&s);
    let ghost ws = words@.map_values(|w: Vec<char>| w@);
    let mut len16: usize = 0;
    let ghost mut total: nat = 0;
    let mut i: usize = 0;
    assert(ws.skip(0) == ws);
    while i < words.len()
        invariant
            i <= words.len(),
            ws == words@.map_values(|w: Vec<char>| w@),
            ws == split_ws(string@),
            !cursor_at_end(string@, cursor_pos),
            len16 == total % 0x10000,
            word_at(ws, cursor_pos, 0) == word_at(ws.skip(i as int), cursor_pos, total),
        decreases words.len() - i,
    {
        let ghost rest = ws.skip(i as int);
        assert(rest[0] == words@[i as int]@);
        assert(rest.drop_first() == ws.skip(i + 1));
        let w16 = byte_len_mod(&words[i]);
        let sum = (len16 + w16) % 0x10000;
        proof {
            vstd::arithmetic::div_mod::lemma_add_mod_noop(total as int, byte_len(words@[i as int]@) as int, 0x10000);
        }
        assert(sum == (total + byte_len(rest[0])) % 0x10000);
        if (cursor_pos as usize) <= sum {
            assert(word_at(rest, cursor_pos, total) == rest[0]);
            return string_of(&words[i]);
        }
        len16 = sum;
        proof {
            total = total + byte_len(words@[i as int]@);
        }
        i += 1;
    }
    string_of(&vec![' '])
}

/// The names in `ws` that begin with `p`, in order.
pub open spec fn keep_prefixed(ws: Seq<Seq<char>>, p: Seq<char>) -> Seq<Seq<char>>
    decreases ws.len(),
{
    if ws.len() == 0 {
        Seq::empty()
    } else {
        let rest = keep_prefixed(ws.drop_last(), p);
        if starts_with(ws.last(), p) {
            rest.push(ws.last())
        } else {
            rest
        }
    }
}

pub proof fn lemma_keep_prefixed_contains(ws: Seq<Seq<char>>, p: Seq<char>, x: Seq<char>)
    ensures
        keep_prefixed(ws, p).contains(x) <==> ws.contains(x) && starts_with(x, p),
    decreases ws.len(),
{
    if ws.len() > 0 {
        lemma_keep_prefixed_contains(ws.drop_last(), p, x);
        let rest = keep_prefixed(ws.drop_last(), p);
        assert(ws == ws.drop_last().push(ws.last()));
        if ws.contains(x) && x != ws.last() {
            let i = choose|i: int| 0 <= i < ws.len() && ws[i] == x;
            assert(ws.drop_last()[i] == x);
        }
        if ws.drop_last().contains(x) {
            let i = choose|i: int| 0 <= i < ws.drop_last().len() && ws.drop_last()[i] == x;
            assert(ws[i] == x);
        }
        if starts_with(ws.last(), p) {
            assert(rest.push(ws.last())[rest.len() as int] == ws.last());
            if rest.contains(x) {
                let i = choose|i: int| 0 <= i < rest.len() && rest[i] == x;
                assert(rest.push(ws.last())[i] == x);
            }
            if rest.push(ws.last()).contains(x) && x != ws.last() {
                let i = choose|i: int| 0 <= i < rest.push(ws.last()).len() && rest.push(ws.last())[i] == x;
                assert(rest[i] == x);
            }
        }
    }
}

/// The strings of `names` that begin with `prefix`, in order.
fn keep_with_prefix(names: &Vec<String>, prefix: &str) -> (r: Vec<String>)
    ensures
        views(r@) == keep_prefixed(views(names@), prefix@),
{
    let mut out: Vec<String> = Vec::new();
    let mut i: usize = 0;
    assert(views(names@).take(0) =~= Seq::<Seq<char>>::empty());
    while i < names.len()
        invariant
            i <= names.len(),
            views(out@) == keep_prefixed(views(names@).take(i as int), prefix@),
        decreases names.len() - i,
    {
        let ghost t = views(names@).take(i + 1);
        assert(t.drop_last() == views(names@).take(i as int));
        assert(t.last() == names@[i as int]@);
        if str_starts_with(names[i].as_str(), prefix) {
            let ghost before = views(out@);
            out.push(names[i].clone());
            assert(views(out@) == before.push(names@[i as int]@));
        }
        i += 1;
    }
    assert(views(names@).take(names.len() as int) == views(names@));
    out
}

/// The built-in commands whose names begin with `command`.
pub fn get_similar_builtin_commands(command: &str) -> (r: Vec<String>)
    ensures
        views(r@) == keep_prefixed(builtin_names(), command@),
{
    let names = get_builtin_commands();
    let mut owned: Vec<String> = Vec::new();
    let mut i: usize = 0;
    while i < names.len()
        invariant
            i <= names.len(),
            names@.map_values(|n: &str| n@) == builtin_names(),
            views(owned@) == builtin_names().take(i as int),
        decreases names.len() - i,
    {
        let ghost before = views(owned@);
        owned.push(names[i].to_owned());
        assert(views(owned@) == before.push(names@[i as int]@));
        assert(builtin_names().take(i + 1) == builtin_names().take(i as int).push(builtin_names()[i as int]));
        i += 1;
    }
    assert(builtin_names().take(names.len() as int) == builtin_names());
    keep_with_prefix(&owned, command)
}

/// The commands that can complete `command`: built-in commands and the
/// names found in the directories searched (`found`), those that begin
/// with `command`, sorted and each listed once. The text to complete is
/// `command` itself and no directory part goes before the candidates.
pub fn get_similar_commands(command: &str, found: &Vec<String>) -> (r: (String, String, Vec<String>))
    ensures
        r.0@ == command@,
        r.1@ == Seq::<char>::empty(),
        strictly_sorted(views(r.2@)),
        forall|x: Seq<char>| #[trigger] views(r.2@).contains(x) <==> (builtin_names().contains(x)
            || views(found@).contains(x)) && starts_with(x, command@),
{
    let mut similar = get_similar_builtin_commands(command);
    let mut from_dirs = keep_with_prefix(found, command);
    let ghost a = views(similar@);
    let ghost b = views(from_dirs@);
    similar.append(&mut from_dirs);
    assert(views(similar@) == a + b);
    let ghost all = views(similar@);
    sort_strings(&mut similar);
    proof {
        lemma_lex_total_ordering();
        all.lemma_sort_by_ensures(lex_order());
    }
    let r = dedup_sorted(&similar);
    proof {
        assert forall|x: Seq<char>| #[trigger] views(r@).contains(x) <==> (builtin_names().contains(x)
            || views(found@).contains(x)) && starts_with(x, command@) by {
            lemma_keep_prefixed_contains(builtin_names(), command@, x);
            lemma_keep_prefixed_contains(views(found@), command@, x);
            broadcast use vstd::seq_lib::group_to_multiset_ensures;
            assert(all.sort_by(lex_order()).contains(x) <==> all.contains(x)) by {
                assert(all.to_multiset().count(x) == all.sort_by(lex_order()).to_multiset().count(x));
            }
            if all.contains(x) {
                let i = choose|i: int| 0 <= i < all.len() && all[i] == x;
                if i < a.len() {
                    assert(a[i] == x);
                } else {
                    assert(b[i - a.len()] == x);
                }
            }
            if a.contains(x) {
                let i = choose|i: int| 0 <= i < a.len() && a[i] == x;
                assert(all[i] == x);
            }
            if b.contains(x) {
                let i = choose|i: int| 0 <= i < b.len() && b[i] == x;
                assert(all[a.len() + i] == x);
            }
        }
    }
    (command.to_owned(), String::new(), r)
}

/// Where a file completion looks and what it matches: the query that entry
/// paths must begin with, the directory to list (escaped spaces undone),
/// the directory as typed, and the first character of the file name typed
/// so far (a space when none).
pub struct FilesQuery {
    pub full_query: String,
    pub dir: String,
    pub orig_dir: String,
    pub first_char: char,
}

/// The position of the last `/` in `s`, or -1.
pub open spec fn last_slash(s: Seq<char>) -> int
    decreases s.len(),
{
    if s.len() == 0 {
        -1
    } else if s.last() == '/' {
        s.len() - 1
    } else {
        last_slash(s.drop_last())
    }
}

/// Escaped spaces written as plain spaces.
pub open spec fn unescape_spaces(s: Seq<char>) -> Seq<char> {
    replace_spec(s, escaped_space(), seq![' '])
}

/// The path searched: every `~` replaced by the home directory when the
/// path begins with `~`, the current directory for a lone space.
pub open spec fn query_path(path: Seq<char>, home: Seq<char>) -> Seq<char> {
    if starts_with(path, seq!['~']) {
        replace_spec(path, seq!['~'], home)
    } else if path == seq![' '] {
        seq!['.']
    } else {
        path
    }
}

/// The directory part: up to and with the last `/`, or all of it.
pub open spec fn dir_part(p: Seq<char>) -> Seq<char> {
    if last_slash(p) >= 0 { p.take(last_slash(p) + 1) } else { p }
}

/// The first character after the last `/` (of the whole path when there is
/// none), or a space.
pub open spec fn name_first_char(p: Seq<char>) -> char {
    let rest = if last_slash(p) >= 0 { p.skip(last_slash(p) + 1) } else { p };
    if rest.len() > 0 { rest[0] } else { ' ' }
}

pub open spec fn query_full(path: Seq<char>, home: Seq<char>) -> Seq<char> {
    if starts_with(path, seq!['~']) { query_path(path, home) } else { unescape_spaces(path) }
}

pub proof fn lemma_last_slash_range(s: Seq<char>)
    ensures
        -1 <= last_slash(s) < s.len(),
        last_slash(s) >= 0 ==> s[last_slash(s)] == '/',
    decreases s.len(),
{
    if s.len() > 0 && s.last() != '/' {
        lemma_last_slash_range(s.drop_last());
    }
}

fn last_slash_of(s: &Vec<char>) -> (r: Option<usize>)
    ensures
        match r {
            Some(m) => last_slash(s@) == m as int && m < s.len(),
            None => last_slash(s@) == -1,
        },
{
    let mut i: usize = s.len();
    assert(s@.take(s.len() as int) == s@);
    while i > 0
        invariant
            i <= s.len(),
            last_slash(s@) == last_slash(s@.take(i as int)),
        decreases i,
    {
        let ghost t = s@.take(i as int);
        assert(t.drop_last() == s@.take(i - 1));
        assert(t.last() == s@[i - 1]);
        if s[i - 1] == '/' {
            return Some(i - 1);
        }
        i -= 1;
    }
    assert(s@.take(0) =~= Seq::<char>::empty());
    None
}

/// The string with the characters `v`.
fn text(v: Vec<char>) -> (r: String)
    ensures
        r@ == v@,
{
    string_of(&v)
}

/// Where to look for files completing `path`, given the home directory.
pub fn files_query(path: &str, home: &Option<String>) -> (q: FilesQuery)
    requires
        starts_with(path@, seq!['~']) ==> home.is_some(),
    ensures
        ({
            let h = match home { Some(h) => h@, None => Seq::<char>::empty() };
            let p = query_path(path@, h);
            &&& q.full_query@ == query_full(path@, h)
            &&& q.orig_dir@ == dir_part(p)
            &&& q.dir@ == unescape_spaces(dir_part(p))
            &&& q.first_char == name_first_char(p)
        }),
{
    let esc = text(vec!['\\', ' ']);
    let space = text(vec![' ']);
    let tilde = text(vec!['~']);
    assert(esc@ == escaped_space() && space@ == seq![' '] && tilde@ == seq!['~']);
    let ghost h = match home { Some(h) => h@, None => Seq::<char>::empty() };
    let unescaped = replace(path, esc.as_str(), space.as_str());
    let pc = chars_of(path);
    let starts_tilde = pc.len() > 0 && pc[0] == '~';
    proof {
        if pc@.len() > 0 {
            let sub = pc@.subrange(0, 1);
            assert(sub =~= seq![pc@[0]]);
            if pc@[0] == '~' {
                assert(sub =~= seq!['~']);
            } else {
                assert(sub[0] != seq!['~'][0]);
            }
        }
        assert(starts_tilde == starts_with(path@, seq!['~']));
    }
    let is_space = pc.len() == 1 && pc[0] == ' ';
    assert(is_space == (path@ == seq![' '])) by {
        if path@ == seq![' '] {
            assert(pc@[0] == ' ');
        }
        if is_space {
            assert(pc@ =~= seq![' ']);
        }
    }
    let (p, full_query) = if starts_tilde {
        let h: &String = match home {
            Some(h) => h,
            None => {
                assert(false);
                return FilesQuery { full_query: String::new(), dir: String::new(), orig_dir: String::new(), first_char: ' ' };
            },
        };
        let p = replace(path, tilde.as_str(), h.as_str());
        let o = p.clone();
        (p, o)
    } else if is_space {
        (text(vec!['.']), unescaped)
    } else {
        (path.to_owned(), unescaped)
    };
    assert(p@ == query_path(path@, h));
    assert(full_query@ == query_full(path@, h));
    let chars = chars_of(p.as_str());
    proof {
        lemma_last_slash_range(chars@);
    }
    let (dir_chars, first_char) = match last_slash_of(&chars) {
        Some(m) => {
            let d = slice_string(&chars, 0, m + 1);
            let fc = if m + 1 < chars.len() { chars[m + 1] } else { ' ' };
            proof {
                assert(d@ =~= chars@.take(m + 1));
                if m + 1 < chars.len() {
                    assert(chars@.skip(m + 1)[0] == chars@[m + 1]);
                }
            }
            (d, fc)
        },
        None => {
            let fc = if chars.len() > 0 { chars[0] } else { ' ' };
            (p.clone(), fc)
        },
    };
    assert(dir_chars@ == dir_part(p@));
    assert(first_char == name_first_char(p@));
    let dir = replace(dir_chars.as_str(), esc.as_str(), space.as_str());
    FilesQuery { full_query, dir, orig_dir: dir_chars, first_char }
}

/// The query retried in the current directory, when the directory typed
/// does not exist.
pub fn missing_dir(q: FilesQuery) -> (r: FilesQuery)
    ensures
        r.dir@ == seq!['.', '/'],
        r.orig_dir@ == seq!['.', '/'],
        r.full_query@ == seq!['.', '/'] + q.full_query@,
        r.first_char == q.first_char,
{
    let mut oq = text(vec!['.', '/']);
    let rest = chars_of(q.full_query.as_str());
    let mut i: usize = 0;
    while i < rest.len()
        invariant
            i <= rest.len(),
            oq@ == seq!['.', '/'] + rest@.take(i as int),
        decreases rest.len() - i,
    {
        crate::text::push_char(&mut oq, rest[i]);
        assert(rest@.take(i + 1) == rest@.take(i as int).push(rest@[i as int]));
        i += 1;
    }
    assert(rest@.take(rest.len() as int) == rest@);
    FilesQuery { full_query: oq, dir: text(vec!['.', '/']), orig_dir: text(vec!['.', '/']), first_char: q.first_char }
}

/// What a directory entry offers: nothing for a hidden file unless a dot
/// was typed, nothing unless its path begins with the query (or the query
/// is a lone space) and its type could be read; else its name, with `/`
/// after a directory and spaces escaped.
pub open spec fn spec_entry_completion(
    first_char: char,
    full_query: Seq<char>,
    f_path: Seq<char>,
    f_name: Seq<char>,
    is_dir: Option<bool>,
) -> Option<Seq<char>> {
    if starts_with(f_name, seq!['.']) && first_char != '.' {
        None
    } else if full_query == seq![' '] || starts_with(f_path, full_query) {
        match is_dir {
            Some(d) => Some(replace_spec(if d { f_name.push('/') } else { f_name }, seq![' '], escaped_space())),
            None => None,
        }
    } else {
        None
    }
}

/// The completion a directory entry offers for the query, if any.
pub fn entry_completion(q: &FilesQuery, f_path: &str, f_name: &str, is_dir: Option<bool>) -> (r: Option<String>)
    ensures
        match r {
            Some(t) => spec_entry_completion(q.first_char, q.full_query@, f_path@, f_name@, is_dir) == Some(t@),
            None => spec_entry_completion(q.first_char, q.full_query@, f_path@, f_name@, is_dir) is None,
        },
{
    let dot = text(vec!['.']);
    assert(dot@ == seq!['.']);
    let hidden = str_starts_with(f_name, dot.as_str());
    if hidden && q.first_char != '.' {
        return None;
    }
    let space = text(vec![' ']);
    let lone: Vec<char> = vec![' '];
    assert(lone@ == seq![' ']);
    let lone_space = crate::text::chars_eq(&chars_of(q.full_query.as_str()), &lone);
    let matches = lone_space || str_starts_with(f_path, q.full_query.as_str());
    assert(matches == (q.full_query@ == seq![' '] || starts_with(f_path@, q.full_query@)));
    if matches {
        match is_dir {
            Some(d) => {
                let mut name = f_name.to_owned();
                if d {
                    crate::text::push_char(&mut name, '/');
                }
                let ghost named = name@;
                assert(named == if d { f_name@.push('/') } else { f_name@ });
                let esc = text(vec!['\\', ' ']);
                assert(esc@ == escaped_space());
                assert(space@ == seq![' ']);
                let r = replace(name.as_str(), space.as_str(), esc.as_str());
                Some(r)
            },
            None => None,
        }
    } else {
        None
    }
}

/// Sorts the candidates and gives their longest common prefix: that of the
/// first and the last in order.
pub fn get_common_prefix(replacements: &mut Vec<String>) -> (r: Option<String>)
    requires
        old(replacements).len() > 0,
    ensures
        views(final(replacements)@) == views(old(replacements)@).sort_by(lex_order()),
        final(replacements).len() == old(replacements).len(),
        match r {
            Some(p) => p@ == common_prefix(
                views(final(replacements)@)[0],
                views(final(replacements)@).last(),
            ),
            None => false,
        },
{
    let ghost before = views(replacements@);
    sort_strings(replacements);
    proof {
        lemma_lex_total_ordering();
        before.lemma_sort_by_ensures(lex_order());
        broadcast use vstd::seq_lib::group_to_multiset_ensures;
        assert(before.to_multiset().len() == before.sort_by(lex_order()).to_multiset().len());
        assert(before.len() == before.sort_by(lex_order()).len());
    }
    let first = &replacements[0];
    let last = &replacements[replacements.len() - 1];
    Some(common_prefix_of(first.as_str(), last.as_str()))
}

/// The common prefix of the candidates, once sorted, is a prefix of every
/// one of them.
pub proof fn law_common_prefix_shared(v: Seq<Seq<char>>)
    requires
        v.len() > 0,
    ensures
        ({
            let s = v.sort_by(lex_order());
            forall|x: Seq<char>| v.contains(x) ==> #[trigger] is_prefix(common_prefix(s[0], s.last()), x)
        }),
{
    let s = v.sort_by(lex_order());
    lemma_lex_total_ordering();
    v.lemma_sort_by_ensures(lex_order());
    broadcast use vstd::seq_lib::group_to_multiset_ensures;
    assert(v.to_multiset().len() == s.to_multiset().len());
    assert(s.len() == v.len());
    lemma_common_prefix_is_prefix(s[0], s.last());
    assert forall|x: Seq<char>| v.contains(x) implies #[trigger] is_prefix(common_prefix(s[0], s.last()), x) by {
        assert(v.to_multiset().count(x) > 0);
        assert(s.contains(x));
        let i = choose|i: int| 0 <= i < s.len() && s[i] == x;
        if i > 0 {
            assert(lex_order()(s[0], s[i]));
        } else {
            crate::order::lemma_lex_reflexive(x);
        }
        if i < s.len() - 1 {
            assert(lex_order()(s[i], s[s.len() - 1]));
        } else {
            crate::order::lemma_lex_reflexive(x);
        }
        lemma_prefix_between(common_prefix(s[0], s.last()), s[0], x, s.last());
    }
}

/// The part of the text to complete after the directory part `cmd`.
pub open spec fn completed_suffix(to_complete: Seq<char>, cmd: Seq<char>) -> Seq<char> {
    to_complete.skip(boundary_pos(to_complete, byte_len(cmd) as int))
}

/// The candidates offered: with more than one, they are sorted and, when
/// their common prefix differs from what was typed after the directory
/// part, replaced by that prefix alone.
pub open spec fn settled(to_complete: Seq<char>, cmd: Seq<char>, reps: Seq<Seq<char>>) -> Seq<Seq<char>> {
    if reps.len() > 1 {
        let sorted = reps.sort_by(lex_order());
        let cp = common_prefix(sorted[0], sorted.last());
        if cp != completed_suffix(to_complete, cmd) {
            seq![cp]
        } else {
            sorted
        }
    } else {
        reps
    }
}

/// `s` with the home directory written as `~`.
pub open spec fn spec_reverse_tilde(s: Seq<char>, home: Option<Seq<char>>) -> Seq<char> {
    match home {
        Some(h) => replace_spec(s, h, seq!['~']),
        None => s,
    }
}

/// `s` with each occurrence of the home directory written as `~`.
pub fn reverse_tilde_with(s: &str, home: &Option<String>) -> (r: String)
    ensures
        r@ == spec_reverse_tilde(s@, match home { Some(h) => Some(h@), None => None }),
{
    let t = text(vec!['~']);
    assert(t@ == seq!['~']);
    match home {
        Some(h) => replace(s, h.as_str(), t.as_str()),
        None => s.to_owned(),
    }
}

/// `home::home_dir`: the current user's home directory written out as text
/// (`Path::display`), when one can be found. It comes from the environment
/// and the user database, so nothing is said of it.
#[verifier::external_body]
fn home_dir_string() -> (r: Option<String>) {
    match home::home_dir() {
        Some(p) => Some(p.display().to_string()),
        None => None,
    }
}

/// `s` with the current user's home directory written as `~`.
pub fn reverse_tilde(s: &str) -> (r: String)
    ensures
        r@ == s@ || exists|h: Seq<char>| r@ == replace_spec(s@, h, seq!['~']),
{
    let home = home_dir_string();
    let r = reverse_tilde_with(s, &home);
    proof {
        if let Some(h) = home {
            assert(r@ == replace_spec(s@, h@, seq!['~']));
        }
    }
    r
}

/// The inputs on which settling the candidates does not fail: with more
/// than one, the directory part ends on a character boundary of the text.
pub open spec fn found_defined(found: (String, String, Vec<String>)) -> bool {
    found.2.len() > 1 ==> is_boundary(found.0@, byte_len(found.1@) as int) && byte_len(found.1@) < usize::MAX
}

/// The candidates offered, as `settled` says.
fn settle(to_complete: &String, cmd: &String, replacements: Vec<String>) -> (r: Vec<String>)
    requires
        replacements.len() > 1 ==> is_boundary(to_complete@, byte_len(cmd@) as int) && byte_len(cmd@) < usize::MAX,
    ensures
        views(r@) == settled(to_complete@, cmd@, views(replacements@)),
{
    let mut replacements = replacements;
    if replacements.len() > 1 {
        let ghost before = views(replacements@);
        let cp = match get_common_prefix(&mut replacements) {
            Some(p) => p,
            None => return replacements,
        };
        let tc = chars_of(to_complete.as_str());
        let n = match byte_len_below(&chars_of(cmd.as_str()), usize::MAX) {
            Some(n) => n,
            None => return replacements,
        };
        let (k, _) = floor_index(&tc, n);
        proof {
            lemma_floor_at_boundary(tc@, n as int, k as int);
        }
        let suffix = slice_string(&tc, k, tc.len());
        if !crate::text::chars_eq(&chars_of(cp.as_str()), &chars_of(suffix.as_str())) {
            let mut one: Vec<String> = Vec::new();
            one.push(cp);
            return one;
        }
    }
    replacements
}

/// What completing the word under the cursor offers, given what the lookup
/// found (the text completed, the directory part before each candidate, the
/// candidates) and the home directory: the text to replace, the directory
/// part with the home directory written as `~`, and the candidates.
pub fn possibilities_with_home(
    string: &str,
    cursor_pos: u16,
    found: (String, String, Vec<String>),
    home: &Option<String>,
) -> (r: (String, String, Vec<String>))
    requires
        string_at_defined(string@, cursor_pos),
        found_defined(found),
    ensures
        r.0@ == spec_string_at(string@, cursor_pos),
        r.1@ == spec_reverse_tilde(found.1@, match home { Some(h) => Some(h@), None => None }),
        views(r.2@) == settled(found.0@, found.1@, views(found.2@)),
{
    let to_replace = get_string_at(string, cursor_pos);
    let (to_complete, cmd, replacements) = found;
    let offered = settle(&to_complete, &cmd, replacements);
    (to_replace, reverse_tilde_with(cmd.as_str(), home), offered)
}

/// What completing the word under the cursor offers, given what the lookup
/// found; the directory part is shown with the user's home directory as `~`.
pub fn get_possibilities(string: &str, cursor_pos: u16, found: (String, String, Vec<String>)) -> (r: (
    String,
    String,
    Vec<String>,
))
    requires
        string_at_defined(string@, cursor_pos),
        found_defined(found),
    ensures
        r.0@ == spec_string_at(string@, cursor_pos),
        r.1@ == found.1@ || exists|h: Seq<char>| r.1@ == replace_spec(found.1@, h, seq!['~']),
        views(r.2@) == settled(found.0@, found.1@, views(found.2@)),
{
    let to_replace = get_string_at(string, cursor_pos);
    let (to_complete, cmd, replacements) = found;
    let offered = settle(&to_complete, &cmd, replacements);
    (to_replace, reverse_tilde(cmd.as_str()), offered)
}

/// The lookup a completion makes: the commands that begin with the line,
/// or the files that complete the text under the cursor.
pub enum CompletionLookup {
    Commands(String),
    Files(String),
}

/// Which lookup completing at the cursor makes, and with what text.
pub fn completion_lookup(string: &str, cursor_pos: u16) -> (r: CompletionLookup)
    requires
        has_first_word(string@),
        string_at_defined(string@, cursor_pos),
    ensures
        match r {
            CompletionLookup::Commands(c) => spec_possibility_type(string@, cursor_pos)
                == PosibilityType::Executable && c@ == string@,
            CompletionLookup::Files(p) => spec_possibility_type(string@, cursor_pos)
                != PosibilityType::Executable && p@ == spec_string_at(string@, cursor_pos),
        },
{
    match get_possibility_type(string, cursor_pos) {
        PosibilityType::Executable => CompletionLookup::Commands(string.to_owned()),
        _ => CompletionLookup::Files(get_string_at(string, cursor_pos)),
    }
}

/// Completions a program defines for its own arguments, from the bash
/// completion scripts: none are read yet, so there are none.
pub fn get_bash_completions(_to_complete: &str, _string: &str, _cursor_pos: u16) -> (r: Result<
    (String, Vec<String>),
    (),
>)
    ensures
        match r {
            Ok(found) => found.0@ == Seq::<char>::empty() && found.1@.len() == 0,
            Err(_) => false,
        },
{
    Ok((String::new(), Vec::new()))
}

/// The program's own completions for the text under the cursor: the text,
/// with the directory part and candidates the bash completions give.
pub fn get_command_specific_options(string: &str, cursor_pos: u16) -> (r: (String, String, Vec<String>))
    requires
        string_at_defined(string@, cursor_pos),
    ensures
        r.0@ == spec_string_at(string@, cursor_pos),
        r.1@ == Seq::<char>::empty(),
        r.2@.len() == 0,
{
    let to_complete = get_string_at(string, cursor_pos);
    match get_bash_completions(to_complete.as_str(), string, cursor_pos) {
        Ok((command, completions)) => (to_complete, command, completions),
        Err(_) => (to_complete, String::new(), Vec::new()),
    }
}

/// Whether the line is empty or has a first word.
pub fn has_first_word_exec(string: &str) -> (r: bool)
    ensures
        r == has_first_word(string@),
{
    let s = chars_of(string);
    s.len() == 0 || split_whitespace(&s).len() > 0
}

/// Whether byte `b` is a character boundary of `s`.
fn is_boundary_at(s: &Vec<char>, b: usize) -> (r: bool)
    ensures
        r == is_boundary(s@, b as int),
{
    let (k, p) = floor_index(s, b);
    proof {
        if is_boundary(s@, b as int) {
            lemma_floor_at_boundary(s@, b as int, k as int);
        }
        if p == b {
            assert(0 <= k <= s@.len() && prefix_bytes(s@, k as int) == b);
        }
    }
    p == b
}

/// Whether finding the text under the cursor is defined (see
/// `string_at_defined`).
pub fn string_at_is_defined(string: &str, cursor_pos: u16) -> (r: bool)
    ensures
        r == string_at_defined(string@, cursor_pos),
{
    let s = chars_of(string);
    let len16 = byte_len_mod(&s);
    if cursor_pos as usize != len16 || ends_in_space(&s) {
        return true;
    }
    let esc: Vec<char> = vec!['\\', ' '];
    assert(esc@ == escaped_space());
    if find_chars(&s, &esc).is_none() {
        return split_whitespace(&s).len() > 0;
    }
    if cursor_pos < 1 {
        return false;
    }
    let ghost start = cursor_pos - 1;
    let mut idx: usize = (cursor_pos - 1) as usize;
    let mut done = false;
    while idx > 1 && !done
        invariant
            s@ == string@,
            idx <= start,
            start < 0x10000,
            start == cursor_pos - 1,
            cursor_at_end(string@, cursor_pos),
            !ends_with(string@, seq![' ']),
            is_substring(escaped_space(), string@),
            done ==> backtrack_ok(s@, start) && backtrack(s@, start) == idx,
            !done ==> backtrack(s@, start) == backtrack(s@, idx as int),
            !done ==> (backtrack_ok(s@, start) == backtrack_ok(s@, idx as int)),
        decreases idx,
    {
        let i2 = floor_byte(&s, idx - 1);
        if i2 < 1 || i2 >= s.len() {
            return false;
        }
        let prev = floor_byte(&s, i2 - 1);
        if s[i2] == ' ' && s[prev] != '\\' {
            done = true;
        }
        idx = i2;
    }
    idx + 1 <= cursor_pos as usize && is_boundary_at(&s, idx + 1) && is_boundary_at(&s, cursor_pos as usize)
}

/// Whether settling what the lookup found is defined (see `found_defined`).
pub fn found_is_defined(found: &(String, String, Vec<String>)) -> (r: bool)
    ensures
        r == found_defined(*found),
{
    if found.2.len() <= 1 {
        return true;
    }
    match byte_len_below(&chars_of(found.1.as_str()), usize::MAX) {
        Some(n) => is_boundary_at(&chars_of(found.0.as_str()), n),
        None => false,
    }
}

} // verus!
