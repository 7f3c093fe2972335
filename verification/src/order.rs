//! Ordering strings by their characters, sorting and deduplicating string
//! lists, and the common prefix of two strings.

use vstd::prelude::*;
use vstd::relations::{sorted_by, total_ordering};
use vstd::seq_lib::lemma_sorted_unique;
use crate::text::chars_of;

verus! {

broadcast use vstd::string::group_string_axioms;

/// `a` comes no later than `b` in dictionary order of code points, which is
/// the byte order of their UTF-8 encodings (the order of `str`).
pub open spec fn lex_le(a: Seq<char>, b: Seq<char>) -> bool
    decreases a.len(),
{
    if a.len() == 0 {
        true
    } else if b.len() == 0 {
        false
    } else if a[0] != b[0] {
        a[0] < b[0]
    } else {
        lex_le(a.drop_first(), b.drop_first())
    }
}

/// `lex_le` as a relation, for `sort_by` and `sorted_by`.
pub open spec fn lex_order() -> spec_fn(Seq<char>, Seq<char>) -> bool {
    |a: Seq<char>, b: Seq<char>| lex_le(a, b)
}

/// The characters of each string.
pub open spec fn views(v: Seq<String>) -> Seq<Seq<char>> {
    v.map_values(|s: String| s@)
}

/// Each element comes strictly before the next.
pub open spec fn strictly_sorted(s: Seq<Seq<char>>) -> bool {
    forall|i: int, j: int| 0 <= i < j < s.len() ==> lex_le(#[trigger] s[i], #[trigger] s[j]) && s[i] != s[j]
}

/// The longest common prefix of `a` and `b`.
pub open spec fn common_prefix(a: Seq<char>, b: Seq<char>) -> Seq<char>
    decreases a.len(),
{
    if a.len() == 0 || b.len() == 0 || a[0] != b[0] {
        Seq::empty()
    } else {
        seq![a[0]] + common_prefix(a.drop_first(), b.drop_first())
    }
}

pub open spec fn is_prefix(p: Seq<char>, s: Seq<char>) -> bool {
    p.len() <= s.len() && s.take(p.len() as int) == p
}

pub proof fn lemma_lex_reflexive(a: Seq<char>)
    ensures
        lex_le(a, a),
    decreases a.len(),
{
    if a.len() > 0 {
        lemma_lex_reflexive(a.drop_first());
    }
}

pub proof fn lemma_lex_antisymmetric(a: Seq<char>, b: Seq<char>)
    requires
        lex_le(a, b),
        lex_le(b, a),
    ensures
        a == b,
    decreases a.len(),
{
    if a.len() > 0 {
        lemma_lex_antisymmetric(a.drop_first(), b.drop_first());
        assert(a == seq![a[0]] + a.drop_first());
        assert(b == seq![b[0]] + b.drop_first());
    } else {
        assert(b.len() == 0);
        assert(a =~= b);
    }
}

pub proof fn lemma_lex_transitive(a: Seq<char>, b: Seq<char>, c: Seq<char>)
    requires
        lex_le(a, b),
        lex_le(b, c),
    ensures
        lex_le(a, c),
    decreases a.len(),
{
    if a.len() > 0 && b.len() > 0 && c.len() > 0 && a[0] == b[0] && b[0] == c[0] {
        lemma_lex_transitive(a.drop_first(), b.drop_first(), c.drop_first());
    }
}

pub proof fn lemma_lex_total(a: Seq<char>, b: Seq<char>)
    ensures
        lex_le(a, b) || lex_le(b, a),
    decreases a.len(),
{
    if a.len() > 0 && b.len() > 0 && a[0] == b[0] {
        lemma_lex_total(a.drop_first(), b.drop_first());
    }
}

/// Dictionary order is a total order.
pub proof fn lemma_lex_total_ordering()
    ensures
        total_ordering(lex_order()),
{
    let r = lex_order();
    assert forall|x: Seq<char>| #[trigger] r(x, x) by {
        lemma_lex_reflexive(x);
    }
    assert forall|x: Seq<char>, y: Seq<char>| #[trigger] r(x, y) && #[trigger] r(y, x) implies x == y by {
        lemma_lex_antisymmetric(x, y);
    }
    assert forall|x: Seq<char>, y: Seq<char>, z: Seq<char>| #[trigger] r(x, y) && #[trigger] r(y, z) implies r(x, z) by {
        lemma_lex_transitive(x, y, z);
    }
    assert forall|x: Seq<char>, y: Seq<char>| #[trigger] r(x, y) || #[trigger] r(y, x) by {
        lemma_lex_total(x, y);
    }
}

/// Whether `a` comes no later than `b`.
pub fn chars_le(a: &Vec<char>, b: &Vec<char>) -> (r: bool)
    ensures
        r == lex_le(a@, b@),
{
    let mut i: usize = 0;
    assert(a@.skip(0) == a@ && b@.skip(0) == b@);
    while i < a.len()
        invariant
            i <= a.len(),
            i <= b.len(),
            lex_le(a@, b@) == lex_le(a@.skip(i as int), b@.skip(i as int)),
        decreases a.len() - i,
    {
        let ghost x = a@.skip(i as int);
        let ghost y = b@.skip(i as int);
        if i == b.len() {
            return false;
        }
        assert(x[0] == a@[i as int] && y[0] == b@[i as int]);
        if a[i] != b[i] {
            return a[i] < b[i];
        }
        assert(x.drop_first() == a@.skip(i + 1));
        assert(y.drop_first() == b@.skip(i + 1));
        i += 1;
    }
    true
}

/// Whether the string `a` comes no later than `b`.
pub fn str_le(a: &str, b: &str) -> (r: bool)
    ensures
        r == lex_le(a@, b@),
{
    chars_le(&chars_of(a), &chars_of(b))
}

/// Putting `x` after every element no later than it, and before the rest,
/// keeps a sorted sequence sorted.
proof fn lemma_insert_sorted(s: Seq<Seq<char>>, j: int, x: Seq<char>)
    requires
        sorted_by(s, lex_order()),
        0 <= j <= s.len(),
        forall|k: int| 0 <= k < j ==> lex_le(#[trigger] s[k], x),
        j < s.len() ==> !lex_le(s[j], x),
    ensures
        sorted_by(s.insert(j, x), lex_order()),
{
    lemma_lex_total_ordering();
    let t = s.insert(j, x);
    if j < s.len() {
        lemma_lex_total(s[j], x);
    }
    assert forall|a: int, b: int| 0 <= a < b < t.len() implies #[trigger] lex_order()(t[a], t[b]) by {
        if b < j {
            assert(t[a] == s[a] && t[b] == s[b]);
        } else if b == j {
            assert(t[a] == s[a]);
        } else if a == j {
            assert(t[b] == s[b - 1]);
            if b - 1 > j {
                assert(lex_order()(s[j], s[b - 1]));
                lemma_lex_transitive(x, s[j], s[b - 1]);
            }
        } else if a < j {
            assert(t[a] == s[a] && t[b] == s[b - 1]);
        } else {
            assert(t[a] == s[a - 1] && t[b] == s[b - 1]);
        }
    }
}

proof fn lemma_insert_multiset(s: Seq<Seq<char>>, j: int, x: Seq<char>)
    requires
        0 <= j <= s.len(),
    ensures
        s.insert(j, x).to_multiset() == s.to_multiset().insert(x),
{
    broadcast use vstd::seq_lib::group_to_multiset_ensures;
    broadcast use vstd::multiset::group_multiset_axioms;

    let t = s.insert(j, x);
    assert(t.remove(j) == s);
    assert(t.to_multiset().count(x) > 0) by {
        assert(t[j] == x);
        assert(t.contains(x));
    }
    assert(s.to_multiset() == t.to_multiset().remove(x));
    assert(t.to_multiset() =~= s.to_multiset().insert(x));
}

/// Sorts the strings in dictionary order, as `slice::sort` does.
pub fn sort_strings(v: &mut Vec<String>)
    ensures
        views(final(v)@) == views(old(v)@).sort_by(lex_order()),
{
    broadcast use vstd::seq_lib::group_to_multiset_ensures;

    let mut out: Vec<String> = Vec::new();
    let mut i: usize = 0;
    assert(views(v@).take(0) =~= Seq::<Seq<char>>::empty());
    while i < v.len()
        invariant
            i <= v.len(),
            sorted_by(views(out@), lex_order()),
            views(out@).to_multiset() == views(v@).take(i as int).to_multiset(),
        decreases v.len() - i,
    {
        let s = v[i].clone();
        let mut j: usize = 0;
        while j < out.len()
            invariant
                j <= out.len(),
                forall|k: int| 0 <= k < j ==> lex_le(#[trigger] views(out@)[k], s@),
            ensures
                j <= out.len(),
                forall|k: int| 0 <= k < j ==> lex_le(#[trigger] views(out@)[k], s@),
                j < out.len() ==> !lex_le(views(out@)[j as int], s@),
            decreases out.len() - j,
        {
            if !str_le(out[j].as_str(), s.as_str()) {
                break;
            }
            j += 1;
        }
        let ghost before = views(out@);
        proof {
            lemma_insert_sorted(before, j as int, s@);
            lemma_insert_multiset(before, j as int, s@);
            assert(views(v@).take(i + 1) == views(v@).take(i as int).push(s@));
            vstd::seq_lib::to_multiset_build(views(v@).take(i as int), s@);
        }
        out.insert(j, s);
        assert(views(out@) == before.insert(j as int, s@));
        assert(views(out@).to_multiset() == views(v@).take(i + 1).to_multiset());
        i += 1;
    }
    assert(views(v@).take(v.len() as int) == views(v@));
    proof {
        lemma_lex_total_ordering();
        views(v@).lemma_sort_by_ensures(lex_order());
        lemma_sorted_unique(views(out@), views(v@).sort_by(lex_order()), lex_order());
    }
    *v = out;
}

/// Drops each string equal to the one before it, as `Vec::dedup` does on a
/// sorted list: what is left is strictly sorted and holds the same strings.
pub fn dedup_sorted(v: &Vec<String>) -> (r: Vec<String>)
    requires
        sorted_by(views(v@), lex_order()),
    ensures
        strictly_sorted(views(r@)),
        forall|x: Seq<char>| views(r@).contains(x) <==> views(v@).contains(x),
{
    let mut out: Vec<String> = Vec::new();
    let mut i: usize = 0;
    while i < v.len()
        invariant
            i <= v.len(),
            sorted_by(views(v@), lex_order()),
            strictly_sorted(views(out@)),
            i == 0 <==> out.len() == 0,
            i > 0 ==> views(out@).last() == views(v@)[i - 1],
            forall|x: Seq<char>| views(out@).contains(x) <==> views(v@).take(i as int).contains(x),
        decreases v.len() - i,
    {
        let ghost before = views(out@);
        let ghost vv = views(v@);
        let ghost t0 = vv.take(i as int);
        let ghost t1 = vv.take(i + 1);
        proof {
            assert(t1 == t0.push(vv[i as int]));
        }
        if out.len() == 0 || !chars_eq_str(out[out.len() - 1].as_str(), v[i].as_str()) {
            out.push(v[i].clone());
            assert(views(out@) == before.push(vv[i as int]));
            assert forall|a: int, b: int| 0 <= a < b < views(out@).len() implies
                lex_le(#[trigger] views(out@)[a], #[trigger] views(out@)[b]) && views(out@)[a] != views(out@)[b] by {
                if b == before.len() {
                    assert(i > 0);
                    if a < before.len() - 1 {
                        assert(lex_le(before[a], before.last()) && before[a] != before.last());
                        assert(lex_order()(vv[i - 1], vv[i as int]));
                        lemma_lex_transitive(before[a], before.last(), vv[i as int]);
                        if before[a] == vv[i as int] {
                            lemma_lex_antisymmetric(before[a], before.last());
                        }
                    } else {
                        assert(lex_order()(vv[i - 1], vv[i as int]));
                    }
                } else {
                    assert(views(out@)[a] == before[a] && views(out@)[b] == before[b]);
                }
            }
            assert forall|x: Seq<char>| views(out@).contains(x) implies t1.contains(x) by {
                let k = choose|k: int| #![auto] 0 <= k < views(out@).len() && views(out@)[k] == x;
                if k < before.len() {
                    assert(before[k] == x);
                    assert(before.contains(x));
                    assert(t0.contains(x));
                    let m = choose|m: int| #![auto] 0 <= m < t0.len() && t0[m] == x;
                    assert(t1[m] == x);
                } else {
                    assert(t1[i as int] == x);
                }
            }
            assert forall|x: Seq<char>| t1.contains(x) implies views(out@).contains(x) by {
                let k = choose|k: int| #![auto] 0 <= k < t1.len() && t1[k] == x;
                if k < i {
                    assert(t0[k] == x);
                    assert(t0.contains(x));
                    assert(before.contains(x));
                    let m = choose|m: int| #![auto] 0 <= m < before.len() && before[m] == x;
                    assert(views(out@)[m] == x);
                } else {
                    assert(views(out@)[before.len() as int] == x);
                }
            }
        } else {
            assert forall|x: Seq<char>| views(out@).contains(x) implies t1.contains(x) by {
                assert(t0.contains(x));
                let m = choose|m: int| #![auto] 0 <= m < t0.len() && t0[m] == x;
                assert(t1[m] == x);
            }
            assert forall|x: Seq<char>| t1.contains(x) implies views(out@).contains(x) by {
                let k = choose|k: int| #![auto] 0 <= k < t1.len() && t1[k] == x;
                if k < i {
                    assert(t0[k] == x);
                    assert(t0.contains(x));
                } else {
                    assert(views(out@)[views(out@).len() - 1] == x);
                }
            }
        }
        i += 1;
    }
    assert(views(v@).take(v.len() as int) == views(v@));
    out
}

/// Whether two strings hold the same characters.
fn chars_eq_str(a: &str, b: &str) -> (r: bool)
    ensures
        r == (a@ == b@),
{
    crate::text::chars_eq(&chars_of(a), &chars_of(b))
}

/// The longest common prefix of `a` and `b`.
pub fn common_prefix_of(a: &str, b: &str) -> (r: String)
    ensures
        r@ == common_prefix(a@, b@),
{
    let x = chars_of(a);
    let y = chars_of(b);
    let mut out: Vec<char> = Vec::new();
    let mut i: usize = 0;
    assert(x@.skip(0) == x@ && y@.skip(0) == y@ && x@.take(0) == out@);
    while i < x.len() && i < y.len()
        invariant
            x@ == a@,
            y@ == b@,
            i <= x.len(),
            i <= y.len(),
            out@ == x@.take(i as int),
            common_prefix(x@, y@) == out@ + common_prefix(x@.skip(i as int), y@.skip(i as int)),
        decreases x.len() - i,
    {
        let ghost xs = x@.skip(i as int);
        let ghost ys = y@.skip(i as int);
        assert(xs[0] == x@[i as int] && ys[0] == y@[i as int]);
        if x[i] != y[i] {
            assert(common_prefix(xs, ys) == Seq::<char>::empty());
            assert(out@ + Seq::<char>::empty() == out@);
            assert(common_prefix(x@, y@) == out@);
            return crate::text::string_of(&out);
        }
        assert(xs.drop_first() == x@.skip(i + 1));
        assert(ys.drop_first() == y@.skip(i + 1));
        out.push(x[i]);
        assert(out@ + common_prefix(x@.skip(i + 1), y@.skip(i + 1))
            == x@.take(i as int) + (seq![x@[i as int]] + common_prefix(xs.drop_first(), ys.drop_first())));
        assert(x@.take(i + 1) == x@.take(i as int).push(x@[i as int]));
        i += 1;
    }
    assert(common_prefix(x@.skip(i as int), y@.skip(i as int)) == Seq::<char>::empty());
    assert(out@ + Seq::<char>::empty() == out@);
    crate::text::string_of(&out)
}

/// A common prefix of `a` and `c` is a prefix of everything between them.
pub proof fn lemma_prefix_between(p: Seq<char>, a: Seq<char>, x: Seq<char>, c: Seq<char>)
    requires
        is_prefix(p, a),
        is_prefix(p, c),
        lex_le(a, x),
        lex_le(x, c),
    ensures
        is_prefix(p, x),
    decreases p.len(),
{
    if p.len() > 0 {
        assert(a[0] == p[0] && c[0] == p[0]);
        assert(x.len() > 0);
        assert(x[0] == p[0]);
        assert(is_prefix(p.drop_first(), a.drop_first())) by {
            assert(a.drop_first().take(p.len() - 1) == a.take(p.len() as int).drop_first());
        }
        assert(is_prefix(p.drop_first(), c.drop_first())) by {
            assert(c.drop_first().take(p.len() - 1) == c.take(p.len() as int).drop_first());
        }
        lemma_prefix_between(p.drop_first(), a.drop_first(), x.drop_first(), c.drop_first());
        assert(x.take(p.len() as int) == seq![x[0]] + x.drop_first().take(p.len() - 1));
        assert(p == seq![p[0]] + p.drop_first());
        assert(x.take(p.len() as int) =~= p);
    } else {
        assert(x.take(0) =~= p);
    }
}

/// The common prefix of two strings is a prefix of each.
pub proof fn lemma_common_prefix_is_prefix(a: Seq<char>, b: Seq<char>)
    ensures
        is_prefix(common_prefix(a, b), a),
        is_prefix(common_prefix(a, b), b),
    decreases a.len(),
{
    if a.len() > 0 && b.len() > 0 && a[0] == b[0] {
        lemma_common_prefix_is_prefix(a.drop_first(), b.drop_first());
        let p = common_prefix(a.drop_first(), b.drop_first());
        assert(a.take(p.len() + 1int) == seq![a[0]] + a.drop_first().take(p.len() as int));
        assert(b.take(p.len() + 1int) == seq![b[0]] + b.drop_first().take(p.len() as int));
    } else {
        assert(a.take(0) =~= Seq::<char>::empty());
        assert(b.take(0) =~= Seq::<char>::empty());
    }
}

/// Dictionary order: a string comes before every longer string it begins,
/// and after a common beginning the first differing character decides.
pub proof fn law_lex_first_difference(p: Seq<char>, a: Seq<char>, b: Seq<char>)
    ensures
        lex_le(p, p + a),
        a.len() > 0 ==> !lex_le(p + a, p),
        a.len() > 0 && b.len() > 0 && a[0] != b[0] ==> lex_le(p + a, p + b) == (a[0] < b[0]),
    decreases p.len(),
{
    if p.len() > 0 {
        assert((p + a)[0] == p[0]);
        assert((p + b)[0] == p[0]);
        assert((p + a).drop_first() =~= p.drop_first() + a);
        assert((p + b).drop_first() =~= p.drop_first() + b);
        law_lex_first_difference(p.drop_first(), a, b);
    } else {
        assert(p + a =~= a);
        assert(p + b =~= b);
    }
}

/// The common prefix of `a` and `b` begins both, and no longer one does:
/// where both go on past it, they differ right after it.
pub proof fn law_common_prefix_longest(a: Seq<char>, b: Seq<char>)
    ensures
        is_prefix(common_prefix(a, b), a),
        is_prefix(common_prefix(a, b), b),
        common_prefix(a, b).len() < a.len() && common_prefix(a, b).len() < b.len()
            ==> a[common_prefix(a, b).len() as int] != b[common_prefix(a, b).len() as int],
    decreases a.len(),
{
    lemma_common_prefix_is_prefix(a, b);
    if a.len() > 0 && b.len() > 0 && a[0] == b[0] {
        law_common_prefix_longest(a.drop_first(), b.drop_first());
        let n = common_prefix(a.drop_first(), b.drop_first()).len();
        if n < a.drop_first().len() && n < b.drop_first().len() {
            assert(a[n as int + 1] == a.drop_first()[n as int]);
            assert(b[n as int + 1] == b.drop_first()[n as int]);
        }
    }
}

} // verus!
