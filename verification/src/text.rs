//! Character-level helpers shared by the shell: conversions between `str`
//! and character vectors, Unicode whitespace, searching and replacing.

use vstd::prelude::*;
use vstd::utf8::{encode_scalar, encode_utf8};

verus! {

broadcast use vstd::string::group_string_axioms;

/// The characters of `s`, in order.
pub fn chars_of(s: &str) -> (v: Vec<char>)
    ensures
        v@ == s@,
{
    let mut v: Vec<char> = Vec::new();
    for c in it: s.chars()
        invariant
            it.seq() == s@,
            v@ == it.seq().take(it.index() as int),
    {
        v.push(c);
    }
    v
}

/// `String::push`: appends one character.
#[verifier::external_body]
pub(crate) fn push_char(s: &mut String, c: char)
    ensures
        final(s)@ == old(s)@.push(c),
{
    s.push(c);
}

/// The string made of the characters `v`.
pub fn string_of(v: &Vec<char>) -> (s: String)
    ensures
        s@ == v@,
{
    let mut s = String::new();
    let mut i: usize = 0;
    while i < v.len()
        invariant
            i <= v.len(),
            s@ == v@.take(i as int),
        decreases v.len() - i,
    {
        push_char(&mut s, v[i]);
        i += 1;
        assert(v@.take(i as int) == v@.take((i - 1) as int).push(v@[i - 1]));
    }
    assert(v@.take(v.len() as int) == v@);
    s
}


/// Unicode `White_Space`, the property `char::is_whitespace` follows.
pub open spec fn is_ws(c: char) -> bool {
    let u = c as u32;
    (0x09 <= u && u <= 0x0D) || u == 0x20 || u == 0x85 || u == 0xA0 || u == 0x1680
        || (0x2000 <= u && u <= 0x200A) || u == 0x2028 || u == 0x2029 || u == 0x202F
        || u == 0x205F || u == 0x3000
}

/// Whether `c` is Unicode white space.
pub fn is_whitespace(c: char) -> (b: bool)
    ensures
        b == is_ws(c),
{
    let u = c as u32;
    (0x09 <= u && u <= 0x0D) || u == 0x20 || u == 0x85 || u == 0xA0 || u == 0x1680
        || (0x2000 <= u && u <= 0x200A) || u == 0x2028 || u == 0x2029 || u == 0x202F
        || u == 0x205F || u == 0x3000
}

/// The words of `s` after the word `cur` under construction and the words
/// `acc` already found: the maximal runs of characters that are not white space.
pub open spec fn ws_words_from(s: Seq<char>, cur: Seq<char>, acc: Seq<Seq<char>>) -> Seq<Seq<char>>
    decreases s.len(),
{
    if s.len() == 0 {
        if cur.len() > 0 { acc.push(cur) } else { acc }
    } else if is_ws(s[0]) {
        ws_words_from(s.drop_first(), Seq::empty(), if cur.len() > 0 { acc.push(cur) } else { acc })
    } else {
        ws_words_from(s.drop_first(), cur.push(s[0]), acc)
    }
}

/// `str::split_whitespace`: the maximal runs of non-white-space characters.
pub open spec fn split_ws(s: Seq<char>) -> Seq<Seq<char>> {
    ws_words_from(s, Seq::empty(), Seq::empty())
}

/// The words of `s`, as `str::split_whitespace` finds them.
pub fn split_whitespace(s: &Vec<char>) -> (words: Vec<Vec<char>>)
    ensures
        words@.map_values(|w: Vec<char>| w@) == split_ws(s@),
{
    let mut words: Vec<Vec<char>> = Vec::new();
    let mut cur: Vec<char> = Vec::new();
    let mut i: usize = 0;
    assert(s@.skip(0) == s@);
    assert(words@.map_values(|w: Vec<char>| w@) == Seq::<Seq<char>>::empty());
    while i < s.len()
        invariant
            i <= s.len(),
            ws_words_from(s@.skip(i as int), cur@, words@.map_values(|w: Vec<char>| w@))
                == split_ws(s@),
        decreases s.len() - i,
    {
        let ghost rest = s@.skip(i as int);
        assert(rest[0] == s@[i as int]);
        assert(rest.drop_first() == s@.skip(i + 1));
        let c = s[i];
        if is_whitespace(c) {
            if cur.len() > 0 {
                let ghost old_words = words@.map_values(|w: Vec<char>| w@);
                let w = cur;
                words.push(w);
                assert(words@.map_values(|w: Vec<char>| w@) == old_words.push(w@));
                cur = Vec::new();
            } else {
                cur = Vec::new();
            }
        } else {
            cur.push(c);
        }
        i += 1;
    }
    if cur.len() > 0 {
        let ghost old_words = words@.map_values(|w: Vec<char>| w@);
        let w = cur;
        words.push(w);
        assert(words@.map_values(|w: Vec<char>| w@) == old_words.push(w@));
    }
    words
}

/// Whether two character sequences are equal.
pub fn chars_eq(a: &Vec<char>, b: &Vec<char>) -> (r: bool)
    ensures
        r == (a@ == b@),
{
    if a.len() != b.len() {
        return false;
    }
    let mut i: usize = 0;
    while i < a.len()
        invariant
            i <= a.len(),
            a.len() == b.len(),
            forall|j: int| 0 <= j < i ==> a@[j] == b@[j],
        decreases a.len() - i,
    {
        if a[i] != b[i] {
            return false;
        }
        i += 1;
    }
    assert(a@ =~= b@);
    true
}

/// Whether `words` holds `w`.
pub fn contains_chars(words: &Vec<Vec<char>>, w: &Vec<char>) -> (r: bool)
    ensures
        r == words@.map_values(|x: Vec<char>| x@).contains(w@),
{
    let ghost views = words@.map_values(|x: Vec<char>| x@);
    let mut i: usize = 0;
    while i < words.len()
        invariant
            i <= words.len(),
            views == words@.map_values(|x: Vec<char>| x@),
            forall|j: int| 0 <= j < i ==> views[j] != w@,
        decreases words.len() - i,
    {
        if chars_eq(&words[i], w) {
            assert(views[i as int] == w@);
            return true;
        }
        i += 1;
    }
    assert forall|j: int| 0 <= j < views.len() implies views[j] != w@ by {}
    false
}

/// `p` stands in `s` at position `i`.
pub open spec fn occurs_at(s: Seq<char>, p: Seq<char>, i: int) -> bool {
    0 <= i && i + p.len() <= s.len() && s.subrange(i, i + p.len()) == p
}

/// `p` stands somewhere in `s`.
pub open spec fn is_substring(p: Seq<char>, s: Seq<char>) -> bool {
    exists|i: int| occurs_at(s, p, i)
}

pub open spec fn starts_with(s: Seq<char>, p: Seq<char>) -> bool {
    occurs_at(s, p, 0)
}

pub open spec fn ends_with(s: Seq<char>, p: Seq<char>) -> bool {
    occurs_at(s, p, s.len() - p.len())
}

/// Whether `p` stands in `s` at position `i`.
pub fn matches_at(s: &Vec<char>, p: &Vec<char>, i: usize) -> (r: bool)
    ensures
        r == occurs_at(s@, p@, i as int),
{
    if i > s.len() || p.len() > s.len() - i {
        return false;
    }
    let mut j: usize = 0;
    while j < p.len()
        invariant
            j <= p.len(),
            i + p.len() <= s.len(),
            forall|k: int| 0 <= k < j ==> s@[i + k] == p@[k],
        decreases p.len() - j,
    {
        if s[i + j] != p[j] {
            assert(s@.subrange(i as int, i + p.len())[j as int] != p@[j as int]);
            return false;
        }
        j += 1;
    }
    assert(s@.subrange(i as int, i + p.len()) =~= p@);
    true
}

/// The first position at which `p` stands in `s`, as `str::find` gives it
/// (counted in characters).
pub fn find_chars(s: &Vec<char>, p: &Vec<char>) -> (r: Option<usize>)
    ensures
        match r {
            Some(i) => occurs_at(s@, p@, i as int) && forall|j: int|
                0 <= j < i ==> !occurs_at(s@, p@, j),
            None => !is_substring(p@, s@),
        },
{
    let mut i: usize = 0;
    while i <= s.len()
        invariant
            i <= s.len() + 1,
            forall|j: int| 0 <= j < i ==> !occurs_at(s@, p@, j),
        decreases s.len() + 1 - i,
    {
        if matches_at(s, p, i) {
            return Some(i);
        }
        if i == s.len() {
            assert forall|j: int| !occurs_at(s@, p@, j) by {
                if 0 <= j && j + p@.len() <= s@.len() {
                    assert(j <= i);
                }
            }
            return None;
        }
        i += 1;
    }
    None
}


/// The number of bytes of the UTF-8 encoding of `s`, as `str::len` counts.
pub open spec fn byte_len(s: Seq<char>) -> nat {
    encode_utf8(s).len()
}

/// Encoding a concatenation encodes each part.
pub proof fn lemma_encode_concat(a: Seq<char>, b: Seq<char>)
    ensures
        encode_utf8(a + b) == encode_utf8(a) + encode_utf8(b),
    decreases a.len(),
{
    if a.len() == 0 {
        assert(a + b == b);
        assert(encode_utf8(a) + encode_utf8(b) == encode_utf8(b));
    } else {
        assert((a + b).drop_first() == a.drop_first() + b);
        assert((a + b)[0] == a[0]);
        lemma_encode_concat(a.drop_first(), b);
        assert(encode_utf8(a + b) == encode_scalar(a[0] as u32) + encode_utf8(a.drop_first() + b));
    }
}

/// The byte length of a sequence grown by one character.
pub proof fn lemma_byte_len_push(s: Seq<char>, c: char)
    ensures
        byte_len(s.push(c)) == byte_len(s) + byte_len(seq![c]),
{
    lemma_encode_concat(s, seq![c]);
    assert(s.push(c) == s + seq![c]);
}

/// The number of bytes `c` takes in UTF-8, as `char::len_utf8` gives it.
pub fn char_width(c: char) -> (w: usize)
    ensures
        w == byte_len(seq![c]),
        1 <= w <= 4,
{
    proof {
        vstd::utf8::char_is_scalar(c);
        assert(seq![c].drop_first().len() == 0);
        assert(encode_utf8(seq![c]) == encode_scalar(c as u32) + encode_utf8(seq![c].drop_first()));
    }
    let u = c as u32;
    if u < 0x80 {
        1
    } else if u < 0x800 {
        2
    } else if u < 0x10000 {
        3
    } else {
        4
    }
}

/// The byte length of `s` when it is below `bound`, else `None`.
pub fn byte_len_below(s: &Vec<char>, bound: usize) -> (r: Option<usize>)
    ensures
        match r {
            Some(n) => n == byte_len(s@) && n < bound,
            None => byte_len(s@) >= bound,
        },
{
    if bound == 0 {
        return None;
    }
    let mut n: usize = 0;
    let mut i: usize = 0;
    assert(s@.take(0) == Seq::<char>::empty());
    assert(encode_utf8(Seq::<char>::empty()).len() == 0);
    while i < s.len()
        invariant
            i <= s.len(),
            n == byte_len(s@.take(i as int)),
            n < bound,
        decreases s.len() - i,
    {
        let w = char_width(s[i]);
        proof {
            lemma_byte_len_push(s@.take(i as int), s@[i as int]);
            assert(s@.take(i + 1) == s@.take(i as int).push(s@[i as int]));
        }
        if w >= bound - n {
            proof {
                lemma_byte_len_prefix(s@, i + 1);
            }
            return None;
        }
        n = n + w;
        i += 1;
    }
    assert(s@.take(s.len() as int) == s@);
    Some(n)
}

/// A prefix never takes more bytes than the whole.
pub proof fn lemma_byte_len_prefix(s: Seq<char>, k: int)
    requires
        0 <= k <= s.len(),
    ensures
        byte_len(s.take(k)) <= byte_len(s),
{
    lemma_encode_concat(s.take(k), s.skip(k));
    assert(s.take(k) + s.skip(k) == s);
}


/// `s` without its leading white space.
pub open spec fn trim_start(s: Seq<char>) -> Seq<char>
    decreases s.len(),
{
    if s.len() > 0 && is_ws(s[0]) { trim_start(s.drop_first()) } else { s }
}

/// `s` without its trailing white space.
pub open spec fn trim_end(s: Seq<char>) -> Seq<char>
    decreases s.len(),
{
    if s.len() > 0 && is_ws(s.last()) { trim_end(s.drop_last()) } else { s }
}

/// `str::trim`: without leading and trailing white space.
pub open spec fn trim(s: Seq<char>) -> Seq<char> {
    trim_end(trim_start(s))
}

/// The characters of `s` without leading and trailing white space.
pub fn trim_chars(s: &Vec<char>) -> (r: Vec<char>)
    ensures
        r@ == trim(s@),
{
    let mut a: usize = 0;
    assert(s@.skip(0) == s@);
    while a < s.len() && is_whitespace(s[a])
        invariant
            a <= s.len(),
            trim_start(s@.skip(a as int)) == trim_start(s@),
        decreases s.len() - a,
    {
        assert(s@.skip(a as int).drop_first() == s@.skip(a + 1));
        a += 1;
    }
    let mut b: usize = s.len();
    let ghost t = s@.skip(a as int);
    assert(trim_start(s@) == t);
    assert(t.take(t.len() as int) == t);
    while b > a && is_whitespace(s[b - 1])
        invariant
            a <= b <= s.len(),
            t == s@.skip(a as int),
            trim_end(t.take(b - a)) == trim_end(t),
        decreases b,
    {
        assert(t.take(b - a).drop_last() == t.take(b - 1 - a));
        b -= 1;
    }
    let mut r: Vec<char> = Vec::new();
    let mut i: usize = a;
    while i < b
        invariant
            a <= i <= b,
            b <= s.len(),
            r@ == s@.subrange(a as int, i as int),
        decreases b - i,
    {
        r.push(s[i]);
        i += 1;
        assert(s@.subrange(a as int, i as int) == s@.subrange(a as int, i - 1).push(s@[i - 1]));
    }
    assert(r@ == t.take(b - a));
    r
}

/// The pieces of `s` after the piece `cur` under construction and the
/// pieces `acc` already cut, cutting at each `sep`.
pub open spec fn split_from(s: Seq<char>, sep: char, cur: Seq<char>, acc: Seq<Seq<char>>) -> Seq<Seq<char>>
    decreases s.len(),
{
    if s.len() == 0 {
        acc.push(cur)
    } else if s[0] == sep {
        split_from(s.drop_first(), sep, Seq::empty(), acc.push(cur))
    } else {
        split_from(s.drop_first(), sep, cur.push(s[0]), acc)
    }
}

/// `str::split` at a character: always at least one piece.
pub open spec fn split_on(s: Seq<char>, sep: char) -> Seq<Seq<char>> {
    split_from(s, sep, Seq::empty(), Seq::empty())
}

/// The pieces of `s` between occurrences of `sep`.
pub fn split_char(s: &Vec<char>, sep: char) -> (pieces: Vec<Vec<char>>)
    ensures
        pieces@.map_values(|w: Vec<char>| w@) == split_on(s@, sep),
{
    let mut pieces: Vec<Vec<char>> = Vec::new();
    let mut cur: Vec<char> = Vec::new();
    let mut i: usize = 0;
    assert(s@.skip(0) == s@);
    assert(pieces@.map_values(|w: Vec<char>| w@) == Seq::<Seq<char>>::empty());
    while i < s.len()
        invariant
            i <= s.len(),
            split_from(s@.skip(i as int), sep, cur@, pieces@.map_values(|w: Vec<char>| w@))
                == split_on(s@, sep),
        decreases s.len() - i,
    {
        let ghost rest = s@.skip(i as int);
        assert(rest[0] == s@[i as int]);
        assert(rest.drop_first() == s@.skip(i + 1));
        if s[i] == sep {
            let ghost old_pieces = pieces@.map_values(|w: Vec<char>| w@);
            let w = cur;
            pieces.push(w);
            assert(pieces@.map_values(|w: Vec<char>| w@) == old_pieces.push(w@));
            cur = Vec::new();
        } else {
            cur.push(s[i]);
        }
        i += 1;
    }
    let ghost old_pieces = pieces@.map_values(|w: Vec<char>| w@);
    let w = cur;
    pieces.push(w);
    assert(pieces@.map_values(|w: Vec<char>| w@) == old_pieces.push(w@));
    pieces
}

/// Pieces written one after another with `sep` between them.
pub open spec fn join_on(ws: Seq<Seq<char>>, sep: char) -> Seq<char>
    decreases ws.len(),
{
    if ws.len() == 0 {
        Seq::empty()
    } else if ws.len() == 1 {
        ws[0]
    } else {
        ws[0].push(sep) + join_on(ws.drop_first(), sep)
    }
}

/// The strings `ws` joined with `sep` between them.
pub fn join_with(ws: &Vec<String>, sep: char) -> (r: String)
    ensures
        r@ == join_on(ws@.map_values(|w: String| w@), sep),
{
    let ghost views = ws@.map_values(|w: String| w@);
    let mut r = String::new();
    if ws.len() == 0 {
        return r;
    }
    let mut i: usize = ws.len() - 1;
    let mut tail: Vec<char> = chars_of(ws[i].as_str());
    assert(views.skip(i as int) == seq![views[i as int]]);
    assert(join_on(views.skip(i as int), sep) == views[i as int]);
    while i > 0
        invariant
            i < ws.len(),
            views == ws@.map_values(|w: String| w@),
            tail@ == join_on(views.skip(i as int), sep),
        decreases i,
    {
        i -= 1;
        let head = chars_of(ws[i].as_str());
        let mut next: Vec<char> = head;
        next.push(sep);
        let mut j: usize = 0;
        let ghost base = next@;
        while j < tail.len()
            invariant
                j <= tail.len(),
                next@ == base + tail@.take(j as int),
            decreases tail.len() - j,
        {
            next.push(tail[j]);
            j += 1;
            assert(tail@.take(j as int) == tail@.take(j - 1).push(tail@[j - 1]));
        }
        assert(tail@.take(tail.len() as int) == tail@);
        assert(views.skip(i as int).drop_first() == views.skip(i + 1));
        assert(views.skip(i as int)[0] == views[i as int]);
        tail = next;
    }
    assert(views.skip(0) == views);
    string_of(&tail)
}

/// Splitting text joined from pieces without the separator gives back the
/// pieces, after those already cut.
pub proof fn lemma_split_join(ws: Seq<Seq<char>>, sep: char, acc: Seq<Seq<char>>)
    requires
        ws.len() > 0,
        forall|i: int, j: int| 0 <= i < ws.len() && 0 <= j < ws[i].len() ==> #[trigger] ws[i][j] != sep,
    ensures
        split_from(join_on(ws, sep), sep, Seq::empty(), acc) == acc + ws,
    decreases ws.len(),
{
    if ws.len() == 1 {
        assert(Seq::<char>::empty() + ws[0] == ws[0]);
        assert(acc + ws == acc.push(ws[0]));
        lemma_split_prefix(ws[0], Seq::empty(), sep, Seq::empty(), acc);
        assert(ws[0] + Seq::<char>::empty() == ws[0]);
    } else {
        let rest = ws.drop_first();
        assert forall|i: int, j: int| 0 <= i < rest.len() && 0 <= j < rest[i].len() implies #[trigger] rest[i][j] != sep by {
            assert(rest[i] == ws[i + 1]);
        }
        lemma_split_join(rest, sep, acc.push(ws[0]));
        let tail = join_on(rest, sep);
        assert(ws[0].push(sep) + tail == ws[0] + (seq![sep] + tail));
        lemma_split_prefix(ws[0], seq![sep] + tail, sep, Seq::empty(), acc);
        assert(Seq::<char>::empty() + ws[0] == ws[0]);
        assert((seq![sep] + tail)[0] == sep);
        assert((seq![sep] + tail).drop_first() == tail);
        assert(acc.push(ws[0]) + rest == acc + ws);
    }
}

/// Reading a piece without the separator only grows the current piece.
proof fn lemma_split_prefix(w: Seq<char>, b: Seq<char>, sep: char, cur: Seq<char>, acc: Seq<Seq<char>>)
    requires
        forall|j: int| 0 <= j < w.len() ==> #[trigger] w[j] != sep,
    ensures
        split_from(w + b, sep, cur, acc) == split_from(b, sep, cur + w, acc),
    decreases w.len(),
{
    if w.len() == 0 {
        assert(w + b == b);
        assert(cur + w == cur);
    } else {
        assert((w + b)[0] == w[0]);
        assert((w + b).drop_first() == w.drop_first() + b);
        assert forall|j: int| 0 <= j < w.drop_first().len() implies #[trigger] w.drop_first()[j] != sep by {
            assert(w.drop_first()[j] == w[j + 1]);
        }
        lemma_split_prefix(w.drop_first(), b, sep, cur.push(w[0]), acc);
        assert(cur.push(w[0]) + w.drop_first() == cur + w);
    }
}


/// `str::replace`: every non-overlapping occurrence of `from`, found from
/// the left, becomes `to`; an empty `from` stands before every character
/// and at the end.
pub open spec fn replace_spec(s: Seq<char>, from: Seq<char>, to: Seq<char>) -> Seq<char>
    decreases s.len(),
{
    if from.len() == 0 {
        if s.len() == 0 { to } else { to + seq![s[0]] + replace_spec(s.drop_first(), from, to) }
    } else if s.len() == 0 {
        Seq::empty()
    } else if starts_with(s, from) {
        to + replace_spec(s.skip(from.len() as int), from, to)
    } else {
        seq![s[0]] + replace_spec(s.drop_first(), from, to)
    }
}

pub fn append_chars(out: &mut Vec<char>, more: &Vec<char>)
    ensures
        final(out)@ == old(out)@ + more@,
{
    let mut j: usize = 0;
    let ghost base = out@;
    while j < more.len()
        invariant
            j <= more.len(),
            out@ == base + more@.take(j as int),
        decreases more.len() - j,
    {
        out.push(more[j]);
        j += 1;
        assert(more@.take(j as int) == more@.take(j - 1).push(more@[j - 1]));
    }
    assert(more@.take(more.len() as int) == more@);
}

/// `s` with `from` replaced by `to`, as `str::replace` does it.
pub fn replace_chars(s: &Vec<char>, from: &Vec<char>, to: &Vec<char>) -> (r: Vec<char>)
    ensures
        r@ == replace_spec(s@, from@, to@),
{
    let mut out: Vec<char> = Vec::new();
    let mut i: usize = 0;
    assert(s@.skip(0) == s@);
    while i < s.len()
        invariant
            i <= s.len(),
            out@ + replace_spec(s@.skip(i as int), from@, to@) == replace_spec(s@, from@, to@),
        decreases s.len() - i,
    {
        let ghost rest = s@.skip(i as int);
        assert(rest[0] == s@[i as int]);
        assert(rest.drop_first() == s@.skip(i + 1));
        if from.len() == 0 {
            let ghost before = out@;
            append_chars(&mut out, to);
            out.push(s[i]);
            assert(out@ == before + (to@ + seq![s@[i as int]]));
            assert(before + (to@ + seq![s@[i as int]]) + replace_spec(s@.skip(i + 1), from@, to@)
                == before + (to@ + seq![s@[i as int]] + replace_spec(s@.skip(i + 1), from@, to@)));
            i += 1;
        } else if matches_at(s, from, i) {
            assert(starts_with(rest, from@)) by {
                assert(rest.subrange(0, from@.len() as int) == s@.subrange(i as int, i + from@.len()));
            }
            assert(rest.skip(from@.len() as int) == s@.skip(i + from@.len()));
            let ghost before = out@;
            append_chars(&mut out, to);
            assert(before + to@ + replace_spec(s@.skip(i + from@.len()), from@, to@)
                == before + (to@ + replace_spec(s@.skip(i + from@.len()), from@, to@)));
            i += from.len();
        } else {
            assert(!starts_with(rest, from@)) by {
                if starts_with(rest, from@) {
                    assert(rest.subrange(0, from@.len() as int) == s@.subrange(i as int, i + from@.len()));
                }
            }
            let ghost before = out@;
            out.push(s[i]);
            assert(before.push(s@[i as int]) + replace_spec(s@.skip(i + 1), from@, to@)
                == before + (seq![s@[i as int]] + replace_spec(s@.skip(i + 1), from@, to@)));
            i += 1;
        }
    }
    let ghost rest = s@.skip(i as int);
    assert(rest.len() == 0);
    if from.len() == 0 {
        let ghost before = out@;
        append_chars(&mut out, to);
    } else {
        assert(out@ + Seq::<char>::empty() == out@);
    }
    out
}

/// `s` with `from` replaced by `to`, as `str::replace` does it.
pub fn replace(s: &str, from: &str, to: &str) -> (r: String)
    ensures
        r@ == replace_spec(s@, from@, to@),
{
    string_of(&replace_chars(&chars_of(s), &chars_of(from), &chars_of(to)))
}

/// The bytes taken by the first `k` characters of `s`.
pub open spec fn prefix_bytes(s: Seq<char>, k: int) -> nat {
    byte_len(s.take(k))
}

/// `k` is the last character position whose byte offset is at most `n`:
/// the byte offset `str::floor_char_boundary(n)` gives.
pub open spec fn is_floor_index(s: Seq<char>, n: int, k: int) -> bool {
    &&& 0 <= k <= s.len()
    &&& prefix_bytes(s, k) <= n
    &&& (k == s.len() || prefix_bytes(s, k + 1) > n)
}

/// `k` is the first character position whose byte offset is at least `n`,
/// or the end: the byte offset `str::ceil_char_boundary(n)` gives.
pub open spec fn is_ceil_index(s: Seq<char>, n: int, k: int) -> bool {
    &&& 0 <= k <= s.len()
    &&& (prefix_bytes(s, k) >= n || k == s.len())
    &&& (k == 0 || prefix_bytes(s, k - 1) < n)
}

/// Byte offsets grow with the character position.
pub proof fn lemma_prefix_bytes_monotone(s: Seq<char>, a: int, b: int)
    requires
        0 <= a <= b <= s.len(),
    ensures
        prefix_bytes(s, a) <= prefix_bytes(s, b),
        a < b ==> prefix_bytes(s, a) < prefix_bytes(s, b),
    decreases b - a,
{
    if a < b {
        lemma_prefix_bytes_monotone(s, a, b - 1);
        lemma_byte_len_push(s.take(b - 1), s[b - 1]);
        assert(s.take(b) == s.take(b - 1).push(s[b - 1]));
        assert(encode_utf8(seq![s[b - 1]]).len() > 0) by {
            assert(seq![s[b - 1]].len() > 0);
        }
    }
}

/// The character position and byte offset of `str::floor_char_boundary(n)`.
pub fn floor_index(s: &Vec<char>, n: usize) -> (r: (usize, usize))
    ensures
        is_floor_index(s@, n as int, r.0 as int),
        r.1 == prefix_bytes(s@, r.0 as int),
{
    let mut k: usize = 0;
    let mut b: usize = 0;
    assert(s@.take(0) == Seq::<char>::empty());
    assert(encode_utf8(Seq::<char>::empty()).len() == 0);
    while k < s.len()
        invariant
            k <= s.len(),
            b == prefix_bytes(s@, k as int),
            b <= n,
        decreases s.len() - k,
    {
        let w = char_width(s[k]);
        proof {
            lemma_byte_len_push(s@.take(k as int), s@[k as int]);
            assert(s@.take(k + 1) == s@.take(k as int).push(s@[k as int]));
        }
        if w > n - b {
            return (k, b);
        }
        b = b + w;
        k += 1;
    }
    (k, b)
}

/// The character position and byte offset of `str::ceil_char_boundary(n)`.
pub fn ceil_index(s: &Vec<char>, n: usize) -> (r: (usize, usize))
    requires
        byte_len(s@) <= usize::MAX,
    ensures
        is_ceil_index(s@, n as int, r.0 as int),
        r.1 == prefix_bytes(s@, r.0 as int),
{
    let (k, b) = floor_index(s, n);
    if b == n || k == s.len() {
        proof {
            if k > 0 {
                lemma_prefix_bytes_monotone(s@, k - 1, k as int);
            }
        }
        (k, b)
    } else {
        let w = char_width(s[k]);
        proof {
            lemma_byte_len_push(s@.take(k as int), s@[k as int]);
            assert(s@.take(k + 1) == s@.take(k as int).push(s@[k as int]));
            lemma_byte_len_prefix(s@, k + 1);
        }
        (k + 1, b + w)
    }
}


/// There is one floor position for each byte offset.
pub proof fn lemma_floor_index_unique(s: Seq<char>, n: int, a: int, b: int)
    requires
        is_floor_index(s, n, a),
        is_floor_index(s, n, b),
    ensures
        a == b,
{
    if a < b {
        lemma_prefix_bytes_monotone(s, a + 1, b);
    } else if b < a {
        lemma_prefix_bytes_monotone(s, b + 1, a);
    }
}


/// Splitting always gives at least one piece.
pub proof fn lemma_split_nonempty(s: Seq<char>, sep: char)
    ensures
        split_on(s, sep).len() > 0,
{
    lemma_split_from_grows(s, sep, Seq::empty(), Seq::empty());
}

proof fn lemma_split_from_grows(s: Seq<char>, sep: char, cur: Seq<char>, acc: Seq<Seq<char>>)
    ensures
        split_from(s, sep, cur, acc).len() > acc.len(),
    decreases s.len(),
{
    if s.len() > 0 {
        if s[0] == sep {
            lemma_split_from_grows(s.drop_first(), sep, Seq::empty(), acc.push(cur));
        } else {
            lemma_split_from_grows(s.drop_first(), sep, cur.push(s[0]), acc);
        }
    }
}


/// The pieces of `s` after the piece `cur` under construction and the
/// pieces `acc` already cut, cutting at each occurrence of `pat` found from
/// the left.
pub open spec fn split_str_from(s: Seq<char>, pat: Seq<char>, cur: Seq<char>, acc: Seq<Seq<char>>) -> Seq<Seq<char>>
    recommends
        pat.len() > 0,
    decreases s.len(),
{
    if s.len() == 0 || pat.len() == 0 {
        acc.push(cur + s)
    } else if starts_with(s, pat) {
        split_str_from(s.skip(pat.len() as int), pat, Seq::empty(), acc.push(cur))
    } else {
        split_str_from(s.drop_first(), pat, cur.push(s[0]), acc)
    }
}

/// `str::split` at a non-empty pattern.
pub open spec fn split_str_spec(s: Seq<char>, pat: Seq<char>) -> Seq<Seq<char>> {
    split_str_from(s, pat, Seq::empty(), Seq::empty())
}

/// The pieces of `s` between the occurrences of `pat`.
pub fn split_str(s: &Vec<char>, pat: &Vec<char>) -> (pieces: Vec<Vec<char>>)
    requires
        pat@.len() > 0,
    ensures
        pieces@.map_values(|w: Vec<char>| w@) == split_str_spec(s@, pat@),
{
    let mut pieces: Vec<Vec<char>> = Vec::new();
    let mut cur: Vec<char> = Vec::new();
    let mut i: usize = 0;
    assert(s@.skip(0) == s@);
    assert(pieces@.map_values(|w: Vec<char>| w@) == Seq::<Seq<char>>::empty());
    while i < s.len()
        invariant
            i <= s.len(),
            pat@.len() > 0,
            split_str_from(s@.skip(i as int), pat@, cur@, pieces@.map_values(|w: Vec<char>| w@))
                == split_str_spec(s@, pat@),
        decreases s.len() - i,
    {
        let ghost rest = s@.skip(i as int);
        assert(rest[0] == s@[i as int]);
        assert(rest.drop_first() == s@.skip(i + 1));
        if matches_at(s, pat, i) {
            assert(starts_with(rest, pat@)) by {
                assert(rest.subrange(0, pat@.len() as int) == s@.subrange(i as int, i + pat@.len()));
            }
            assert(rest.skip(pat@.len() as int) == s@.skip(i + pat@.len()));
            let ghost old_pieces = pieces@.map_values(|w: Vec<char>| w@);
            let w = cur;
            pieces.push(w);
            assert(pieces@.map_values(|w: Vec<char>| w@) == old_pieces.push(w@));
            cur = Vec::new();
            i += pat.len();
        } else {
            assert(!starts_with(rest, pat@)) by {
                if starts_with(rest, pat@) {
                    assert(rest.subrange(0, pat@.len() as int) == s@.subrange(i as int, i + pat@.len()));
                }
            }
            cur.push(s[i]);
            i += 1;
        }
    }
    assert(s@.skip(i as int).len() == 0);
    assert(cur@ + s@.skip(i as int) == cur@);
    let ghost old_pieces = pieces@.map_values(|w: Vec<char>| w@);
    let w = cur;
    pieces.push(w);
    assert(pieces@.map_values(|w: Vec<char>| w@) == old_pieces.push(w@));
    pieces
}

/// Character vectors as strings.
pub fn strings_of(v: &Vec<Vec<char>>) -> (r: Vec<String>)
    ensures
        r@.map_values(|w: String| w@) == v@.map_values(|w: Vec<char>| w@),
{
    let mut r: Vec<String> = Vec::new();
    let mut i: usize = 0;
    while i < v.len()
        invariant
            i <= v.len(),
            r@.map_values(|w: String| w@) == v@.map_values(|w: Vec<char>| w@).take(i as int),
        decreases v.len() - i,
    {
        let s = string_of(&v[i]);
        let ghost before = r@;
        r.push(s);
        assert(r@.map_values(|w: String| w@) == before.map_values(|w: String| w@).push(s@));
        assert(v@.map_values(|w: Vec<char>| w@).take(i + 1)
            == v@.map_values(|w: Vec<char>| w@).take(i as int).push(v@[i as int]@));
        i += 1;
    }
    assert(v@.map_values(|w: Vec<char>| w@).take(v.len() as int) == v@.map_values(|w: Vec<char>| w@));
    r
}


/// Splitting at a pattern always gives at least one piece.
pub proof fn lemma_split_str_nonempty(s: Seq<char>, pat: Seq<char>)
    ensures
        split_str_spec(s, pat).len() > 0,
{
    lemma_split_str_from_grows(s, pat, Seq::empty(), Seq::empty());
}

proof fn lemma_split_str_from_grows(s: Seq<char>, pat: Seq<char>, cur: Seq<char>, acc: Seq<Seq<char>>)
    ensures
        split_str_from(s, pat, cur, acc).len() > acc.len(),
    decreases s.len(),
{
    if s.len() > 0 && pat.len() > 0 {
        if starts_with(s, pat) {
            lemma_split_str_from_grows(s.skip(pat.len() as int), pat, Seq::empty(), acc.push(cur));
        } else {
            lemma_split_str_from_grows(s.drop_first(), pat, cur.push(s[0]), acc);
        }
    }
}

/// The character position of the boundary at or before byte `i`
/// (`str::floor_char_boundary`).
pub open spec fn floor_pos(s: Seq<char>, i: int) -> int {
    choose|k: int| is_floor_index(s, i, k)
}

/// The character position of the boundary at or after byte `i`
/// (`str::ceil_char_boundary`).
pub open spec fn ceil_pos(s: Seq<char>, i: int) -> int {
    choose|k: int| is_ceil_index(s, i, k)
}

/// Byte `i` is a character boundary of `s`.
pub open spec fn is_boundary(s: Seq<char>, i: int) -> bool {
    exists|k: int| 0 <= k <= s.len() && #[trigger] prefix_bytes(s, k) == i
}

/// The character position at byte boundary `i`.
pub open spec fn boundary_pos(s: Seq<char>, i: int) -> int {
    choose|k: int| 0 <= k <= s.len() && #[trigger] prefix_bytes(s, k) == i
}

pub open spec fn width(c: char) -> nat {
    byte_len(seq![c])
}

pub proof fn lemma_ceil_index_unique(s: Seq<char>, n: int, a: int, b: int)
    requires
        is_ceil_index(s, n, a),
        is_ceil_index(s, n, b),
    ensures
        a == b,
{
    if a < b {
        lemma_prefix_bytes_monotone(s, a, b - 1);
    } else if b < a {
        lemma_prefix_bytes_monotone(s, b, a - 1);
    }
}




/// Every non-negative byte offset has a floor index, at or before it.
pub proof fn lemma_floor_exists(s: Seq<char>, n: int)
    requires
        0 <= n,
    ensures
        is_floor_index(s, n, floor_pos(s, n)),
        prefix_bytes(s, floor_pos(s, n)) <= n,
{
    assert(s.take(0) =~= Seq::<char>::empty());
    let k = lemma_floor_witness(s, n, 0);
    assert(is_floor_index(s, n, k));
}

proof fn lemma_floor_witness(s: Seq<char>, n: int, k: int) -> (w: int)
    requires
        0 <= k <= s.len(),
        prefix_bytes(s, k) <= n,
    ensures
        is_floor_index(s, n, w),
    decreases s.len() - k,
{
    if k < s.len() && prefix_bytes(s, k + 1) <= n {
        lemma_floor_witness(s, n, k + 1)
    } else {
        k
    }
}

/// At a character boundary the floor index is the boundary's own position.
pub proof fn lemma_floor_at_boundary(s: Seq<char>, b: int, k: int)
    requires
        is_boundary(s, b),
        is_floor_index(s, b, k),
    ensures
        prefix_bytes(s, k) == b,
        k == boundary_pos(s, b),
{
    let j = boundary_pos(s, b);
    if j < s.len() {
        lemma_prefix_bytes_monotone(s, j, j + 1);
    }
    assert(is_floor_index(s, b, j));
    lemma_floor_index_unique(s, b, k, j);
}

/// The byte length of `s` modulo 2^16, what `str::len() as u16` keeps.
pub fn byte_len_mod(s: &Vec<char>) -> (r: usize)
    ensures
        r == byte_len(s@) % 0x10000,
{
    let mut n: usize = 0;
    let mut i: usize = 0;
    assert(s@.take(0) =~= Seq::<char>::empty());
    while i < s.len()
        invariant
            i <= s.len(),
            n == byte_len(s@.take(i as int)) % 0x10000,
        decreases s.len() - i,
    {
        let w = char_width(s[i]);
        proof {
            lemma_byte_len_push(s@.take(i as int), s@[i as int]);
            assert(s@.take(i + 1) == s@.take(i as int).push(s@[i as int]));
            vstd::arithmetic::div_mod::lemma_add_mod_noop(byte_len(s@.take(i as int)) as int, w as int, 0x10000);
            vstd::arithmetic::div_mod::lemma_small_mod(w as nat, 0x10000);
        }
        n = (n + w) % 0x10000;
        i += 1;
    }
    assert(s@.take(s.len() as int) == s@);
    n
}

/// The string of the characters `s[from..to]`.
pub fn slice_string(s: &Vec<char>, from: usize, to: usize) -> (r: String)
    requires
        from <= to <= s.len(),
    ensures
        r@ == s@.subrange(from as int, to as int),
{
    let mut out = String::new();
    let mut i: usize = from;
    while i < to
        invariant
            from <= i <= to <= s.len(),
            out@ == s@.subrange(from as int, i as int),
        decreases to - i,
    {
        push_char(&mut out, s[i]);
        assert(s@.subrange(from as int, i + 1) == s@.subrange(from as int, i as int).push(s@[i as int]));
        i += 1;
    }
    out
}

/// Whether `s` begins with `p`.
pub fn str_starts_with(s: &str, p: &str) -> (r: bool)
    ensures
        r == starts_with(s@, p@),
{
    matches_at(&chars_of(s), &chars_of(p), 0)
}

} // verus!
