//! The decisions of the terminal line editor and of the choice menu: what a
//! key does to the line, the cursor and the history. Drawing and reading
//! keys are left to the caller.

use std::collections::VecDeque;
use vstd::prelude::*;
use crate::text::{
    boundary_pos, byte_len, byte_len_below, ceil_index, ceil_pos, char_width, chars_of,
    floor_index, floor_pos, is_boundary, is_floor_index, lemma_byte_len_prefix,
    lemma_ceil_index_unique, lemma_encode_concat, lemma_floor_index_unique,
    lemma_prefix_bytes_monotone, prefix_bytes, width, string_of, replace_chars, replace_spec,
    join_on,
};
use crate::number::{is_digit, digit_value, char_is_digit, char_digit_value};
use crate::order::views;

verus! {

broadcast use vstd::string::group_string_axioms;

/// A key the editor reacts to.
#[derive(Clone, Copy, Debug, PartialEq, Eq, Structural)]
pub enum Key {
    Char(char),
    Backspace,
    Left,
    Right,
    Enter,
    Delete,
    Home,
    End,
    Up,
    Down,
    Tab,
    Other,
}

/// What the caller does after a key.
#[derive(Clone, Copy, Debug, PartialEq, Eq, Structural)]
pub enum EditAction {
    /// Draw the line and read the next key.
    Continue,
    /// The line is complete.
    Done,
    /// Look up completions for the line and hand them to `apply_completion`.
    Complete,
}

/// `*lhs += rhs` unless that passes `upper_bound`.
pub fn sat_add(lhs: &mut u16, rhs: u16, upper_bound: u16)
    requires
        *old(lhs) + rhs <= u16::MAX,
    ensures
        *final(lhs) == if *old(lhs) + rhs > upper_bound { *old(lhs) } else { (*old(lhs) + rhs) as u16 },
{
    *lhs += if (*lhs + rhs) > upper_bound { 0 } else { rhs }
}

/// `*lhs += rhs` unless that passes `upper_bound`.
pub fn sat_add_usize(lhs: &mut usize, rhs: usize, upper_bound: usize)
    requires
        *old(lhs) + rhs <= usize::MAX,
    ensures
        *final(lhs) == if *old(lhs) + rhs > upper_bound { *old(lhs) } else { (*old(lhs) + rhs) as usize },
{
    *lhs += if (*lhs + rhs) > upper_bound { 0 } else { rhs }
}

/// Inserting a character adds its bytes.
proof fn lemma_byte_len_insert(s: Seq<char>, k: int, c: char)
    requires
        0 <= k <= s.len(),
    ensures
        byte_len(s.insert(k, c)) == byte_len(s) + width(c),
{
    assert(s.insert(k, c) == s.take(k) + (seq![c] + s.skip(k)));
    lemma_encode_concat(s.take(k), seq![c] + s.skip(k));
    lemma_encode_concat(seq![c], s.skip(k));
    lemma_encode_concat(s.take(k), s.skip(k));
    assert(s.take(k) + s.skip(k) == s);
}

/// Removing a character takes its bytes away.
proof fn lemma_byte_len_remove(s: Seq<char>, k: int)
    requires
        0 <= k < s.len(),
    ensures
        byte_len(s.remove(k)) + width(s[k]) == byte_len(s),
{
    assert(s == s.take(k) + (seq![s[k]] + s.skip(k + 1)));
    assert(s.remove(k) == s.take(k) + s.skip(k + 1));
    lemma_encode_concat(s.take(k), seq![s[k]] + s.skip(k + 1));
    lemma_encode_concat(seq![s[k]], s.skip(k + 1));
    lemma_encode_concat(s.take(k), s.skip(k + 1));
}

/// Inserts `c` into the line at byte offset `internal_pos`, moved back to
/// the character boundary at or before it; gives the offset where `c` went.
pub fn insert_byte_aligned(buffer: &mut Vec<char>, c: char, internal_pos: u16) -> (r: u16)
    ensures
        final(buffer)@ == old(buffer)@.insert(floor_pos(old(buffer)@, internal_pos as int), c),
        r == prefix_bytes(old(buffer)@, floor_pos(old(buffer)@, internal_pos as int)),
{
    let (k, p) = floor_index(buffer, internal_pos as usize);
    proof {
        lemma_floor_index_unique(old(buffer)@, internal_pos as int, k as int, floor_pos(old(buffer)@, internal_pos as int));
    }
    buffer.insert(k, c);
    p as u16
}

/// The editor as the contracts see it: the line, the cursor as a byte
/// offset and as a screen column, the history with the line being edited
/// in front, the place in the history, and whether the next drawing clears
/// everything below the prompt.
pub ghost struct EditorView {
    pub buffer: Seq<char>,
    pub internal: u16,
    pub visual: u16,
    pub history: Seq<Seq<char>>,
    pub history_index: usize,
    pub clear_all: bool,
}

pub open spec fn history_view(h: Seq<String>) -> Seq<Seq<char>> {
    h.map_values(|s: String| s@)
}

/// The line editor.
pub struct LineEditor {
    buffer: Vec<char>,
    blen: usize,
    internal: u16,
    visual: u16,
    history: VecDeque<String>,
    history_index: usize,
    clear_all: bool,
}

impl View for LineEditor {
    type V = EditorView;

    closed spec fn view(&self) -> EditorView {
        EditorView {
            buffer: self.buffer@,
            internal: self.internal,
            visual: self.visual,
            history: history_view(self.history@),
            history_index: self.history_index,
            clear_all: self.clear_all,
        }
    }
}

/// What a key does to the line and the cursor, before the history is
/// brought up to date.
pub open spec fn edit(v: EditorView, key: Key) -> EditorView {
    let b = v.buffer;
    let l16 = byte_len(b) as u16;
    let v = EditorView { clear_all: false, ..v };
    match key {
        Key::Char(c) => {
            let k = floor_pos(b, v.internal as int);
            EditorView {
                buffer: b.insert(k, c),
                internal: (prefix_bytes(b, k) + width(c)) as u16,
                visual: (v.visual + 1) as u16,
                clear_all: true,
                ..v
            }
        },
        Key::Backspace => if v.internal > 0 {
            let j = floor_pos(b, v.internal - 1);
            EditorView {
                buffer: b.remove(j),
                internal: if v.internal >= width(b[j]) { (v.internal - width(b[j])) as u16 } else { 0 },
                visual: if v.visual >= 1 { (v.visual - 1) as u16 } else { 0 },
                ..v
            }
        } else {
            v
        },
        Key::Left => EditorView {
            internal: prefix_bytes(b, floor_pos(b, if v.internal >= 1 { v.internal - 1 } else { 0 })) as u16,
            visual: if v.visual >= 1 { (v.visual - 1) as u16 } else { 0 },
            ..v
        },
        Key::Right => {
            let i1 = if v.internal + 1 > l16 { v.internal as int } else { v.internal + 1 };
            EditorView {
                internal: prefix_bytes(b, ceil_pos(b, i1)) as u16,
                visual: if v.visual + 1 > l16 { v.visual } else { (v.visual + 1) as u16 },
                ..v
            }
        },
        Key::Delete => if byte_len(b) > 0 && v.internal < l16 {
            EditorView { buffer: b.remove(boundary_pos(b, v.internal as int)), ..v }
        } else {
            v
        },
        Key::Home => EditorView { internal: 0, visual: 0, ..v },
        Key::End => EditorView { internal: l16, visual: l16, ..v },
        Key::Up => {
            let idx = if v.history_index + 1 > v.history.len() - 1 { v.history_index } else { (v.history_index + 1) as usize };
            let h = v.history[idx as int];
            EditorView {
                buffer: h,
                visual: h.len() as u16,
                internal: byte_len(h) as u16,
                history_index: idx,
                ..v
            }
        },
        Key::Down => {
            let idx = if v.history_index >= 1 { (v.history_index - 1) as usize } else { 0 };
            let h = v.history[idx as int];
            EditorView {
                buffer: h,
                visual: h.len() as u16,
                internal: byte_len(h) as u16,
                history_index: idx,
                ..v
            }
        },
        _ => v,
    }
}

/// The newest history entry follows the line while the history is not
/// being browsed.
pub open spec fn sync_history(v: EditorView) -> EditorView {
    if v.history_index == 0 && v.history.len() > 0 {
        EditorView { history: v.history.update(0, v.buffer), ..v }
    } else {
        v
    }
}

/// What a key does: `Enter` ends the line, `Tab` asks for completions,
/// any other key edits the line.
pub open spec fn spec_step(v: EditorView, key: Key) -> (EditorView, EditAction) {
    match key {
        Key::Enter => (v, EditAction::Done),
        Key::Tab => (EditorView { clear_all: false, ..v }, EditAction::Complete),
        _ => (sync_history(edit(v, key)), EditAction::Continue),
    }
}

/// Keys on which the editor does not fail: no cursor counter passes
/// `u16::MAX`, no removal or history lookup falls outside the line or the
/// history, and the line stays addressable.
pub open spec fn step_defined(v: EditorView, key: Key) -> bool {
    let b = v.buffer;
    match key {
        Key::Char(c) => {
            &&& prefix_bytes(b, floor_pos(b, v.internal as int)) + width(c) <= u16::MAX
            &&& v.visual < u16::MAX
            &&& byte_len(b) + width(c) <= usize::MAX
        },
        Key::Backspace => v.internal > 0 ==> v.internal <= byte_len(b),
        Key::Right => v.internal < u16::MAX && v.visual < u16::MAX,
        Key::Delete => (byte_len(b) > 0 && v.internal < (byte_len(b) as u16)) ==> is_boundary(b, v.internal as int),
        Key::Up => {
            let idx = if v.history_index + 1 > v.history.len() - 1 { v.history_index as int } else { v.history_index + 1 };
            &&& v.history.len() >= 1
            &&& v.history_index < usize::MAX
            &&& idx < v.history.len()
            &&& byte_len(v.history[idx]) < usize::MAX
        },
        Key::Down => {
            let idx = if v.history_index >= 1 { v.history_index - 1 } else { 0 };
            &&& idx < v.history.len()
            &&& byte_len(v.history[idx]) < usize::MAX
        },
        _ => true,
    }
}

/// The line after taking a completion: `from` replaced by `to` throughout,
/// the cursor at the end.
pub open spec fn completed(v: EditorView, from: Seq<char>, to: Seq<char>) -> EditorView {
    let b = replace_spec(v.buffer, from, to);
    EditorView { buffer: b, internal: byte_len(b) as u16, visual: byte_len(b) as u16, clear_all: false, ..v }
}

/// The history has an entry for the line, the place in it is an entry, and
/// while the history is not being browsed its newest entry is the line.
pub open spec fn front_tracks_line(v: EditorView) -> bool {
    &&& v.history.len() >= 1
    &&& v.history_index < v.history.len()
    &&& v.history_index == 0 ==> v.history[0] == v.buffer
}

/// Backspace with the cursor just after the `c`-th character (`c > 0`)
/// removes that character and nothing else: the line becomes the text
/// before it followed by the text after the cursor, unchanged, and the
/// cursor moves to where the removed character began.
pub proof fn law_backspace_removes_before_cursor(v: EditorView, c: int)
    requires
        0 < c <= v.buffer.len(),
        v.internal == prefix_bytes(v.buffer, c),
    ensures
        spec_step(v, Key::Backspace).0.buffer == v.buffer.take(c - 1) + v.buffer.skip(c),
        spec_step(v, Key::Backspace).0.internal == prefix_bytes(v.buffer, c - 1),
        spec_step(v, Key::Backspace).1 == EditAction::Continue,
{
    let b = v.buffer;
    lemma_prefix_bytes_monotone(b, c - 1, c);
    assert(is_floor_index(b, v.internal - 1, c - 1));
    lemma_floor_index_unique(b, v.internal - 1, c - 1, floor_pos(b, v.internal - 1));
    assert(b.take(c) == b.take(c - 1).push(b[c - 1]));
    crate::text::lemma_byte_len_push(b.take(c - 1), b[c - 1]);
    assert(b.remove(c - 1) =~= b.take(c - 1) + b.skip(c));
}

/// With the cursor just after the `c`-th character, a typed character is
/// inserted at the cursor and the cursor moves past it; `Delete` removes
/// the character after the cursor and nothing else; `Left` and `Right`
/// move the cursor by one character, leaving the line as it is.
pub proof fn law_keys_at_cursor(v: EditorView, c: int, ch: char)
    requires
        0 <= c <= v.buffer.len(),
        v.internal == prefix_bytes(v.buffer, c),
        byte_len(v.buffer) <= u16::MAX,
    ensures
        step_defined(v, Key::Char(ch)) ==> {
            &&& spec_step(v, Key::Char(ch)).0.buffer == v.buffer.take(c) + seq![ch] + v.buffer.skip(c)
            &&& spec_step(v, Key::Char(ch)).0.internal == prefix_bytes(v.buffer, c) + width(ch)
        },
        c < v.buffer.len() ==> spec_step(v, Key::Delete).0.buffer == v.buffer.take(c) + v.buffer.skip(c + 1),
        c > 0 ==> spec_step(v, Key::Left).0.internal == prefix_bytes(v.buffer, c - 1)
            && spec_step(v, Key::Left).0.buffer == v.buffer,
        c < v.buffer.len() ==> spec_step(v, Key::Right).0.internal == prefix_bytes(v.buffer, c + 1)
            && spec_step(v, Key::Right).0.buffer == v.buffer,
{
    let b = v.buffer;
    let n = v.internal as int;
    assert(b.take(b.len() as int) =~= b);
    if c < b.len() {
        lemma_prefix_bytes_monotone(b, c, c + 1);
        lemma_prefix_bytes_monotone(b, c + 1, b.len() as int);
    }
    // The character typed goes in at the cursor.
    assert(is_floor_index(b, n, c));
    lemma_floor_index_unique(b, n, c, floor_pos(b, n));
    assert(b.insert(c, ch) =~= b.take(c) + seq![ch] + b.skip(c));
    // Delete removes the character that starts at the cursor.
    if c < b.len() {
        let k = boundary_pos(b, n);
        assert(0 <= c <= b.len() && prefix_bytes(b, c) == n);
        assert(0 <= k <= b.len() && prefix_bytes(b, k) == n);
        if k < c {
            lemma_prefix_bytes_monotone(b, k, c);
        } else if c < k {
            lemma_prefix_bytes_monotone(b, c, k);
        }
        assert(b.remove(c) =~= b.take(c) + b.skip(c + 1));
        // Right lands on the next boundary.
        assert(crate::text::is_ceil_index(b, n + 1, c + 1));
        lemma_ceil_index_unique(b, n + 1, c + 1, ceil_pos(b, n + 1));
    }
    if c > 0 {
        lemma_prefix_bytes_monotone(b, c - 1, c);
        assert(is_floor_index(b, n - 1, c - 1));
        lemma_floor_index_unique(b, n - 1, c - 1, floor_pos(b, n - 1));
        lemma_prefix_bytes_monotone(b, c - 1, b.len() as int);
    }
}

/// Every key keeps the newest history entry following the line while the
/// history is not being browsed.
pub proof fn law_step_keeps_front(v: EditorView, key: Key)
    requires
        front_tracks_line(v),
        step_defined(v, key),
    ensures
        front_tracks_line(spec_step(v, key).0),
{
    let e = edit(v, key);
    assert(e.history == v.history);
    assert(e.history_index < e.history.len());
}

impl LineEditor {
    /// The editor is consistent: the cached byte length is the line's.
    pub closed spec fn wf(&self) -> bool {
        self.blen == byte_len(self.buffer@)
    }

    /// Starts editing `start_string` (or an empty line), with the cursor at
    /// its end; the line goes in front of the history.
    pub fn start(start_string: Option<&str>, history: VecDeque<String>) -> (r: Self)
        requires
            match start_string {
                Some(s) => byte_len(s@) < usize::MAX,
                None => true,
            },
        ensures
            r.wf(),
            ({
                let s = match start_string { Some(s) => s@, None => Seq::<char>::empty() };
                r@ == (EditorView {
                    buffer: s,
                    internal: byte_len(s) as u16,
                    visual: byte_len(s) as u16,
                    history: seq![s] + history_view(history@),
                    history_index: 0,
                    clear_all: false,
                })
            }),
    {
        let s: String = match start_string {
            Some(s) => s.to_owned(),
            None => String::new(),
        };
        let buffer = chars_of(s.as_str());
        let blen = match byte_len_below(&buffer, usize::MAX) {
            Some(n) => n,
            None => {
                assert(false);
                0
            },
        };
        let mut history = history;
        let ghost before = history@;
        history.push_front(s);
        assert(history_view(history@) =~= seq![buffer@] + history_view(before));
        LineEditor {
            buffer,
            blen,
            internal: blen as u16,
            visual: blen as u16,
            history,
            history_index: 0,
            clear_all: false,
        }
    }

    /// The line as it stands.
    pub fn text(&self) -> (r: String)
        ensures
            r@ == self@.buffer,
    {
        string_of(&self.buffer)
    }

    /// The cursor's screen column.
    pub fn visual(&self) -> (r: u16)
        ensures
            r == self@.visual,
    {
        self.visual
    }

    /// The cursor's byte offset in the line.
    pub fn internal(&self) -> (r: u16)
        ensures
            r == self@.internal,
    {
        self.internal
    }

    /// Whether the next drawing clears everything below the prompt.
    pub fn clear_all(&self) -> (r: bool)
        ensures
            r == self@.clear_all,
    {
        self.clear_all
    }

    fn sync(&mut self)
        requires
            old(self).wf(),
        ensures
            final(self).wf(),
            final(self)@ == sync_history(old(self)@),
    {
        if self.history_index == 0 && self.history.len() > 0 {
            let ghost before = self.history@;
            let _ = self.history.pop_front();
            self.history.push_front(string_of(&self.buffer));
            assert(history_view(self.history@) =~= history_view(before).update(0, self.buffer@));
        }
    }

    fn load_entry(&mut self, idx: usize)
        requires
            old(self).wf(),
            idx < old(self)@.history.len(),
            byte_len(old(self)@.history[idx as int]) < usize::MAX,
        ensures
            final(self).wf(),
            ({
                let h = old(self)@.history[idx as int];
                final(self)@ == (EditorView {
                    buffer: h,
                    visual: h.len() as u16,
                    internal: byte_len(h) as u16,
                    history_index: idx,
                    ..old(self)@
                })
            }),
    {
        let h = chars_of(self.history[idx].as_str());
        assert(h@ == history_view(self.history@)[idx as int]);
        let n = match byte_len_below(&h, usize::MAX) {
            Some(n) => n,
            None => {
                assert(false);
                0
            },
        };
        self.visual = h.len() as u16;
        self.internal = n as u16;
        self.buffer = h;
        self.blen = n;
        self.history_index = idx;
    }

    /// Reacts to one key.
    pub fn step(&mut self, key: Key) -> (action: EditAction)
        requires
            old(self).wf(),
            step_defined(old(self)@, key),
        ensures
            final(self).wf(),
            (final(self)@, action) == spec_step(old(self)@, key),
    {
        let ghost v = self@;
        match key {
            Key::Enter => return EditAction::Done,
            Key::Tab => {
                self.clear_all = false;
                return EditAction::Complete;
            },
            _ => {},
        }
        self.clear_all = false;
        match key {
            Key::Char(c) => {
                let ghost k = floor_pos(v.buffer, v.internal as int);
                let p = insert_byte_aligned(&mut self.buffer, c, self.internal);
                proof {
                    crate::text::lemma_floor_exists(v.buffer, v.internal as int);
                    lemma_byte_len_insert(v.buffer, k, c);
                }
                let w = char_width(c);
                self.blen = self.blen + w;
                self.internal = p + w as u16;
                self.visual = self.visual + 1;
                self.clear_all = true;
            },
            Key::Backspace => {
                if self.internal > 0 {
                    let (j, _) = floor_index(&self.buffer, (self.internal - 1) as usize);
                    proof {
                        lemma_floor_index_unique(v.buffer, v.internal - 1, j as int, floor_pos(v.buffer, v.internal - 1));
                        lemma_byte_len_prefix(v.buffer, j as int);
                        if j as int == v.buffer.len() {
                            assert(v.buffer.take(j as int) == v.buffer);
                        }
                        lemma_byte_len_remove(v.buffer, j as int);
                    }
                    let removed = self.buffer.remove(j);
                    let w = char_width(removed);
                    self.blen = self.blen - w;
                    self.internal = if self.internal >= w as u16 { self.internal - w as u16 } else { 0 };
                    self.visual = if self.visual >= 1 { self.visual - 1 } else { 0 };
                }
            },
            Key::Left => {
                let target = if self.internal >= 1 { self.internal - 1 } else { 0 };
                let (k, p) = floor_index(&self.buffer, target as usize);
                proof {
                    lemma_floor_index_unique(v.buffer, target as int, k as int, floor_pos(v.buffer, target as int));
                }
                self.internal = p as u16;
                self.visual = if self.visual >= 1 { self.visual - 1 } else { 0 };
            },
            Key::Right => {
                let l16 = self.blen as u16;
                let mut i1 = self.internal;
                sat_add(&mut i1, 1, l16);
                let (k, p) = ceil_index(&self.buffer, i1 as usize);
                proof {
                    lemma_ceil_index_unique(v.buffer, i1 as int, k as int, ceil_pos(v.buffer, i1 as int));
                }
                self.internal = p as u16;
                let mut vis = self.visual;
                sat_add(&mut vis, 1, l16);
                self.visual = vis;
            },
            Key::Delete => {
                if self.blen > 0 && self.internal < (self.blen as u16) {
                    let (k, p) = floor_index(&self.buffer, self.internal as usize);
                    proof {
                        let b = boundary_pos(v.buffer, v.internal as int);
                        assert(0 <= b <= v.buffer.len() && prefix_bytes(v.buffer, b) == v.internal);
                        if b < v.buffer.len() {
                            lemma_prefix_bytes_monotone(v.buffer, b, b + 1);
                        }
                        assert(is_floor_index(v.buffer, v.internal as int, b));
                        lemma_floor_index_unique(v.buffer, v.internal as int, k as int, b);
                        if b == v.buffer.len() {
                            assert(v.buffer.take(b) == v.buffer);
                        }
                    }
                    let removed = self.buffer.remove(k);
                    proof {
                        lemma_byte_len_remove(v.buffer, k as int);
                    }
                    let w = char_width(removed);
                    self.blen = self.blen - w;
                }
            },
            Key::Home => {
                self.internal = 0;
                self.visual = 0;
            },
            Key::End => {
                self.internal = self.blen as u16;
                self.visual = self.blen as u16;
            },
            Key::Up => {
                let mut idx = self.history_index;
                sat_add_usize(&mut idx, 1, self.history.len() - 1);
                self.load_entry(idx);
                self.clear_all = false;
            },
            Key::Down => {
                let idx = if self.history_index >= 1 { self.history_index - 1 } else { 0 };
                self.load_entry(idx);
                self.clear_all = false;
            },
            _ => {},
        }
        assert(self@ == edit(v, key));
        self.sync();
        EditAction::Continue
    }
    /// Whether the editor can react to `key` (see `step_defined`).
    pub fn step_is_defined(&self, key: Key) -> (r: bool)
        requires
            self.wf(),
        ensures
            r == step_defined(self@, key),
    {
        let ghost v = self@;
        match key {
            Key::Char(c) => {
                let (k, p) = floor_index(&self.buffer, self.internal as usize);
                proof {
                    lemma_floor_index_unique(v.buffer, v.internal as int, k as int, floor_pos(v.buffer, v.internal as int));
                }
                let w = char_width(c);
                p + w <= 0xffff && self.visual < 0xffff && w <= usize::MAX - self.blen
            },
            Key::Backspace => !(self.internal > 0) || self.internal as usize <= self.blen,
            Key::Right => self.internal < 0xffff && self.visual < 0xffff,
            Key::Delete => {
                if self.blen > 0 && self.internal < (self.blen as u16) {
                    let (k, p) = floor_index(&self.buffer, self.internal as usize);
                    proof {
                        if is_boundary(v.buffer, v.internal as int) {
                            crate::text::lemma_floor_at_boundary(v.buffer, v.internal as int, k as int);
                        }
                        if p == self.internal as usize {
                            assert(0 <= k <= v.buffer.len() && prefix_bytes(v.buffer, k as int) == v.internal);
                        }
                    }
                    p == self.internal as usize
                } else {
                    true
                }
            },
            Key::Up => {
                if self.history.len() < 1 || self.history_index == usize::MAX {
                    return false;
                }
                let mut idx = self.history_index;
                sat_add_usize(&mut idx, 1, self.history.len() - 1);
                if idx >= self.history.len() {
                    return false;
                }
                let h = chars_of(self.history[idx].as_str());
                assert(h@ == v.history[idx as int]);
                byte_len_below(&h, usize::MAX).is_some()
            },
            Key::Down => {
                let idx = if self.history_index >= 1 { self.history_index - 1 } else { 0 };
                if idx >= self.history.len() {
                    return false;
                }
                let h = chars_of(self.history[idx].as_str());
                assert(h@ == v.history[idx as int]);
                byte_len_below(&h, usize::MAX).is_some()
            },
            _ => true,
        }
    }

    /// Takes the one candidate offered: every occurrence of `to_replace` in
    /// the line becomes `prefix` followed by `completion`, and the cursor
    /// goes to the end of the line.
    pub fn apply_completion(&mut self, to_replace: &str, prefix: &str, completion: &str)
        requires
            old(self).wf(),
            byte_len(replace_spec(old(self)@.buffer, to_replace@, prefix@ + completion@)) < usize::MAX,
        ensures
            final(self).wf(),
            final(self)@ == sync_history(completed(old(self)@, to_replace@, prefix@ + completion@)),
            front_tracks_line(old(self)@) ==> front_tracks_line(final(self)@),
    {
        let mut to: Vec<char> = chars_of(prefix);
        let rest = chars_of(completion);
        let mut i: usize = 0;
        let ghost p = to@;
        while i < rest.len()
            invariant
                i <= rest.len(),
                to@ == p + rest@.take(i as int),
            decreases rest.len() - i,
        {
            to.push(rest[i]);
            assert(rest@.take(i + 1) == rest@.take(i as int).push(rest@[i as int]));
            i += 1;
        }
        assert(rest@.take(rest.len() as int) == rest@);
        let b = replace_chars(&self.buffer, &chars_of(to_replace), &to);
        let n = match byte_len_below(&b, usize::MAX) {
            Some(n) => n,
            None => {
                assert(false);
                0
            },
        };
        self.buffer = b;
        self.blen = n;
        self.visual = n as u16;
        self.internal = n as u16;
        self.clear_all = false;
        self.sync();
    }

    /// Ends editing: gives the line, and the history with the line as its
    /// newest entry in place of the one added when editing started.
    pub fn finish(self) -> (r: (String, VecDeque<String>))
        ensures
            r.0@ == self@.buffer,
            history_view(r.1@) == if self@.history.len() > 0 {
                self@.history.update(0, self@.buffer)
            } else {
                seq![self@.buffer]
            },
    {
        let line = string_of(&self.buffer);
        let mut history = self.history;
        let ghost before = history@;
        let _ = history.pop_front();
        history.push_front(line.clone());
        assert(history_view(history@) =~= if before.len() > 0 {
            history_view(before).update(0, self@.buffer)
        } else {
            seq![self@.buffer]
        });
        (line, history)
    }
}

/// What a key does in the choice menu, from the highlighted option and the
/// number of options: `Up` and `Down` move the highlight within the options,
/// `Enter` takes the highlighted one, a digit below the number of options
/// (kept to 32 bits) takes that option, other keys do nothing.
pub open spec fn spec_choice_step(choice: usize, n_options: usize, key: Key) -> (usize, Option<usize>) {
    match key {
        Key::Up => (if choice >= 1 { (choice - 1) as usize } else { 0 }, None),
        Key::Down => (if choice + 1 > n_options - 1 { choice } else { (choice + 1) as usize }, None),
        Key::Enter => (choice, Some(choice)),
        Key::Char(c) => if is_digit(c) && digit_value(c) < (n_options as u32) {
            (choice, Some(digit_value(c) as usize))
        } else {
            (choice, None)
        },
        _ => (choice, None),
    }
}

/// The highlight stays on one of the options, and an option taken is one
/// of them.
pub proof fn law_choice_stays_in_range(choice: usize, n_options: usize, key: Key)
    requires
        choice < n_options,
    ensures
        spec_choice_step(choice, n_options, key).0 < n_options,
        match spec_choice_step(choice, n_options, key).1 {
            Some(d) => d < n_options,
            None => true,
        },
{
    assert((n_options as u32) <= n_options) by (bit_vector);
}

/// Reacts to one key in the choice menu: the new highlight, and the option
/// taken, if one is.
pub fn choice_step(choice: usize, n_options: usize, key: Key) -> (r: (usize, Option<usize>))
    requires
        key == Key::Down ==> n_options >= 1 && choice < usize::MAX,
    ensures
        r == spec_choice_step(choice, n_options, key),
{
    match key {
        Key::Up => (if choice >= 1 { choice - 1 } else { 0 }, None),
        Key::Down => {
            let mut c = choice;
            sat_add_usize(&mut c, 1, n_options - 1);
            (c, None)
        },
        Key::Enter => (choice, Some(choice)),
        Key::Char(ch) => {
            if char_is_digit(ch) {
                let d = char_digit_value(ch);
                if d < n_options as u32 {
                    return (choice, Some(d as usize));
                }
            }
            (choice, None)
        },
        _ => (choice, None),
    }
}

/// How many candidates fit on a row of `screen_width` columns when the
/// longest takes `max_str_len`: as many as fit side by side, one fewer when
/// the two spaces between them would not fit too.
pub open spec fn spec_max_options_per_line(max_str_len: usize, screen_width: u16) -> usize {
    if max_str_len == 0 {
        0
    } else {
        let m = screen_width / (max_str_len as u16);
        if m + 2 * (m - 1) > screen_width { (m - 1) as usize } else { m as usize }
    }
}

/// The widths on which counting the candidates per row does not fail: the
/// longest is not a multiple of 2^16 wide, at least one fits on a row, and
/// the row width with its separators stays within 16 bits.
pub open spec fn max_options_defined(max_str_len: usize, screen_width: u16) -> bool {
    max_str_len != 0 ==> {
        &&& (max_str_len as u16) != 0
        &&& screen_width / (max_str_len as u16) >= 1
        &&& 3 * (screen_width / (max_str_len as u16)) - 2 <= u16::MAX
    }
}

/// How many candidates go on one row.
pub fn get_max_options_per_line(max_str_len: usize, screen_width: u16) -> (r: usize)
    requires
        max_options_defined(max_str_len, screen_width),
    ensures
        r == spec_max_options_per_line(max_str_len, screen_width),
{
    if max_str_len == 0 {
        return 0;
    }
    let max_options_per_line = screen_width / (max_str_len as u16);
    let total_width = max_options_per_line + 2 * (max_options_per_line - 1);
    if total_width > screen_width {
        (max_options_per_line - 1) as usize
    } else {
        max_options_per_line as usize
    }
}

/// The screen cell of the cursor `cursor_pos` columns after the start of
/// the line, on a screen `screen_width` columns wide.
pub fn calc_cursor_screen_pos(start_position: (u16, u16), cursor_pos: u16, screen_width: u16) -> (r: (u16, u16))
    requires
        screen_width > 0,
        start_position.0 + cursor_pos <= u16::MAX,
        start_position.1 + (start_position.0 + cursor_pos) / (screen_width as int) <= u16::MAX,
    ensures
        r.0 == (start_position.0 + cursor_pos) % (screen_width as int),
        r.1 == start_position.1 + (start_position.0 + cursor_pos) / (screen_width as int),
{
    let start_offset = start_position.0;
    let cursor_col = (start_offset + cursor_pos) % screen_width;
    let cursor_row = start_position.1 + (start_offset + cursor_pos) / screen_width;
    (cursor_col, cursor_row)
}

/// The longest byte length among the candidates, 0 for none.
pub open spec fn max_byte_len(s: Seq<Seq<char>>) -> nat
    decreases s.len(),
{
    if s.len() == 0 {
        0
    } else {
        let m = max_byte_len(s.drop_last());
        if byte_len(s.last()) > m { byte_len(s.last()) } else { m }
    }
}

/// The byte length of the longest candidate.
pub fn longest_option(strings: &Vec<String>) -> (r: usize)
    requires
        forall|i: int| 0 <= i < strings.len() ==> byte_len(#[trigger] views(strings@)[i]) < usize::MAX,
    ensures
        r == max_byte_len(views(strings@)),
{
    let mut m: usize = 0;
    let mut i: usize = 0;
    assert(views(strings@).take(0) =~= Seq::<Seq<char>>::empty());
    while i < strings.len()
        invariant
            i <= strings.len(),
            forall|i: int| 0 <= i < strings.len() ==> byte_len(#[trigger] views(strings@)[i]) < usize::MAX,
            m == max_byte_len(views(strings@).take(i as int)),
        decreases strings.len() - i,
    {
        let ghost t = views(strings@).take(i + 1);
        assert(t.drop_last() == views(strings@).take(i as int));
        assert(t.last() == views(strings@)[i as int]);
        let n = match byte_len_below(&chars_of(strings[i].as_str()), usize::MAX) {
            Some(n) => n,
            None => {
                assert(false);
                0
            },
        };
        if n > m {
            m = n;
        }
        i += 1;
    }
    assert(views(strings@).take(strings.len() as int) == views(strings@));
    m
}

/// The pieces written one after another, two spaces apart.
pub open spec fn join_spaced(ws: Seq<Seq<char>>) -> Seq<char>
    decreases ws.len(),
{
    if ws.len() == 0 {
        Seq::empty()
    } else if ws.len() == 1 {
        ws[0]
    } else {
        ws[0] + seq![' ', ' '] + join_spaced(ws.drop_first())
    }
}

/// The rows showing the candidates: `per_line` to a row, in order, two
/// spaces apart; the last row holds what is left.
pub open spec fn rows_spec(s: Seq<Seq<char>>, per_line: nat) -> Seq<Seq<char>>
    decreases s.len(),
{
    if s.len() == 0 || per_line == 0 {
        Seq::empty()
    } else if s.len() <= per_line {
        seq![join_spaced(s)]
    } else {
        seq![join_spaced(s.take(per_line as int))] + rows_spec(s.skip(per_line as int), per_line)
    }
}

/// The longest byte length is that of some candidate, and no candidate is
/// longer.
pub proof fn law_longest_is_max(s: Seq<Seq<char>>)
    ensures
        forall|i: int| 0 <= i < s.len() ==> byte_len(#[trigger] s[i]) <= max_byte_len(s),
        s.len() > 0 ==> exists|i: int| 0 <= i < s.len() && byte_len(#[trigger] s[i]) == max_byte_len(s),
    decreases s.len(),
{
    if s.len() > 0 {
        let d = s.drop_last();
        law_longest_is_max(d);
        assert forall|i: int| 0 <= i < s.len() implies byte_len(#[trigger] s[i]) <= max_byte_len(s) by {
            if i < d.len() {
                assert(s[i] == d[i]);
            }
        }
        if byte_len(s.last()) > max_byte_len(d) || d.len() == 0 {
            assert(byte_len(s[s.len() - 1]) == max_byte_len(s));
        } else {
            let i = choose|i: int| 0 <= i < d.len() && byte_len(#[trigger] d[i]) == max_byte_len(d);
            assert(s[i] == d[i]);
        }
    }
}

proof fn lemma_row_start(j: int, m: int, k: int)
    requires
        k > 0,
        0 <= j,
        m >= 0,
        j < (m + k - 1) / k,
    ensures
        j * k < m,
{
    let q = (m + k - 1) / k;
    vstd::arithmetic::div_mod::lemma_fundamental_div_mod(m + k - 1, k);
    vstd::arithmetic::div_mod::lemma_mod_bound(m + k - 1, k);
    assert(q * k <= m + k - 1) by (nonlinear_arith) requires m + k - 1 == k * q + (m + k - 1) % k, (m + k - 1) % k >= 0;
    assert(j * k < m) by (nonlinear_arith) requires k > 0, j + 1 <= q, q * k <= m + k - 1;
}

/// With `k` candidates to a row, there are as many rows as `k` goes into
/// the number of candidates, rounded up; row `i` shows the candidates from
/// `i * k` on, up to `k` of them, in order.
pub proof fn law_rows_layout(s: Seq<Seq<char>>, k: nat)
    requires
        k > 0,
    ensures
        rows_spec(s, k).len() == (s.len() + k - 1) / (k as int),
        forall|i: int| 0 <= i < rows_spec(s, k).len() ==> #[trigger] rows_spec(s, k)[i] == join_spaced(
            s.subrange(i * k, if (i + 1) * k <= s.len() { (i + 1) * k } else { s.len() as int }),
        ),
    decreases s.len(),
{
    let n = s.len() as int;
    let kk = k as int;
    if n == 0 {
        assert((n + kk - 1) / kk == 0) by (nonlinear_arith) requires n == 0, kk > 0;
    } else if n <= kk {
        assert((n + kk - 1) / kk == 1) by (nonlinear_arith) requires 0 < n <= kk;
        assert(s.subrange(0, n) =~= s);
        assert(0 * kk == 0 && 1 * kk == kk);
    } else {
        let rest = s.skip(kk);
        law_rows_layout(rest, k);
        vstd::arithmetic::div_mod::lemma_div_plus_one((n - kk) + kk - 1, kk);
        assert(kk + ((n - kk) + kk - 1) == n + kk - 1);
        let rs = rows_spec(s, k);
        assert forall|i: int| 0 <= i < rs.len() implies #[trigger] rs[i] == join_spaced(
            s.subrange(i * k, if (i + 1) * k <= s.len() { (i + 1) * k } else { s.len() as int }),
        ) by {
            if i == 0 {
                assert(s.subrange(0, kk) =~= s.take(kk));
                assert(0 * kk == 0 && 1 * kk == kk);
            } else {
                let j = i - 1;
                assert(rs[i] == rows_spec(rest, k)[j]);
                assert(i * kk == j * kk + kk) by (nonlinear_arith) requires j == i - 1;
                assert((i + 1) * kk == (j + 1) * kk + kk) by (nonlinear_arith) requires j == i - 1;
                lemma_row_start(j, rest.len() as int, kk);
                assert(0 <= j * kk) by (nonlinear_arith) requires 0 <= j, kk > 0;
                let hi = if (j + 1) * k <= rest.len() { (j + 1) * k } else { rest.len() as int };
                assert(rest.subrange(j * k, hi) =~= s.subrange(
                    i * k,
                    if (i + 1) * k <= s.len() { (i + 1) * k } else { s.len() as int },
                ));
            }
        }
    }
}

/// The candidates `s[from..to]` joined, two spaces apart.
fn join_range(s: &Vec<String>, from: usize, to: usize) -> (r: Vec<char>)
    requires
        from < to <= s.len(),
    ensures
        r@ == join_spaced(views(s@).subrange(from as int, to as int)),
    decreases to - from,
{
    let head = chars_of(s[from].as_str());
    if from + 1 == to {
        assert(views(s@).subrange(from as int, to as int) =~= seq![views(s@)[from as int]]);
        return head;
    }
    let tail = join_range(s, from + 1, to);
    let mut out = head;
    out.push(' ');
    out.push(' ');
    let mut i: usize = 0;
    let ghost base = out@;
    while i < tail.len()
        invariant
            i <= tail.len(),
            out@ == base + tail@.take(i as int),
        decreases tail.len() - i,
    {
        out.push(tail[i]);
        assert(tail@.take(i + 1) == tail@.take(i as int).push(tail@[i as int]));
        i += 1;
    }
    assert(tail@.take(tail.len() as int) == tail@);
    let ghost sub = views(s@).subrange(from as int, to as int);
    assert(sub[0] == views(s@)[from as int]);
    assert(sub.drop_first() == views(s@).subrange(from + 1, to as int));
    assert(base == sub[0] + seq![' ', ' ']);
    out
}

/// The rows that show the candidates, `per_line` to a row.
pub fn possibility_rows(strings: &Vec<String>, per_line: usize) -> (r: Vec<String>)
    requires
        per_line > 0,
    ensures
        views(r@) == rows_spec(views(strings@), per_line as nat),
{
    let mut rows: Vec<String> = Vec::new();
    let mut i: usize = 0;
    let ghost all = views(strings@);
    assert(all.skip(0) == all);
    assert(views(rows@) + rows_spec(all.skip(0), per_line as nat) == rows_spec(all, per_line as nat));
    while i < strings.len()
        invariant
            i <= strings.len(),
            per_line > 0,
            all == views(strings@),
            views(rows@) + rows_spec(all.skip(i as int), per_line as nat) == rows_spec(all, per_line as nat),
        decreases strings.len() - i,
    {
        let end = if strings.len() - i <= per_line { strings.len() } else { i + per_line };
        let row = join_range(strings, i, end);
        let ghost rest = all.skip(i as int);
        let ghost before = views(rows@);
        rows.push(string_of(&row));
        assert(views(rows@) == before.push(row@));
        if end == strings.len() {
            assert(rest =~= all.subrange(i as int, end as int));
            assert(rows_spec(rest, per_line as nat) == seq![row@]);
            assert(all.skip(end as int).len() == 0);
            assert(rows_spec(all.skip(end as int), per_line as nat) =~= Seq::<Seq<char>>::empty());
            assert(before.push(row@) + Seq::<Seq<char>>::empty() == before + seq![row@]);
        } else {
            assert(rest.take(per_line as int) =~= all.subrange(i as int, end as int));
            assert(rest.skip(per_line as int) =~= all.skip(end as int));
            assert(before.push(row@) + rows_spec(all.skip(end as int), per_line as nat)
                == before + (seq![row@] + rows_spec(all.skip(end as int), per_line as nat)));
        }
        i = end;
    }
    assert(rows_spec(all.skip(i as int), per_line as nat) =~= Seq::<Seq<char>>::empty());
    assert(views(rows@) + Seq::<Seq<char>>::empty() == views(rows@));
    rows
}

/// How many lines the prompt moves up to make room for `n_rows` rows of
/// candidates: none unless the cursor is on the last line of the terminal,
/// else one more than the rows.
pub fn lines_to_shift(n_rows: usize, cursor_row: u16, terminal_height: u16) -> (r: u16)
    requires
        terminal_height >= 1,
        cursor_row == terminal_height - 1 ==> n_rows + 1 <= cursor_row,
    ensures
        r == if cursor_row == terminal_height - 1 { (n_rows + 1) as u16 } else { 0 },
{
    if cursor_row == terminal_height - 1 {
        (n_rows + 1) as u16
    } else {
        0
    }
}

} // verus!
