//! Shell expansion: environment variables and `~`, and finding the
//! `$( ... )` command substitutions in a line.

use vstd::prelude::*;
use crate::text::{chars_of, find_chars, is_substring, occurs_at, string_of};

verus! {

broadcast use vstd::string::group_string_axioms;

/// Text that expansion leaves alone: no `$` anywhere and no leading `~`.
pub open spec fn nothing_to_expand(s: Seq<char>) -> bool {
    !s.contains('$') && !(s.len() > 0 && s[0] == '~')
}

pub open spec fn nothing_to_expand_env(s: Seq<char>) -> bool {
    !s.contains('$')
}

/// `shellexpand::full`: expands `$NAME`, `${NAME}` and `${NAME:-default}`
/// from the process environment, then a leading `~` (alone or before `/`)
/// to the home directory; `None` when a variable without a default is unset.
/// Text without `$` is only tilde-expanded, as `shellexpand::tilde` does it
/// (`tilde_outcome`); what variable expansion gives depends on the
/// environment and is left unsaid.
#[verifier::external_body]
fn shellexpand_full(s: &str) -> (r: Option<String>)
    ensures
        !s@.contains('$') ==> r.is_some() && tilde_outcome(s@, r.unwrap()@),
{
    shellexpand::full(s).ok().map(|c| c.into_owned())
}

/// `shellexpand::env`: expands `$NAME`, `${NAME}` and `${NAME:-default}`
/// from the process environment; `None` when a variable without a default
/// is unset. Text without `$` comes back unchanged; what the expansion
/// gives otherwise depends on the environment and is left unsaid.
#[verifier::external_body]
fn shellexpand_env(s: &str) -> (r: Option<String>)
    ensures
        nothing_to_expand_env(s@) ==> r.is_some() && r.unwrap()@ == s@,
{
    shellexpand::env(s).ok().map(|c| c.into_owned())
}

/// A leading `~` that `shellexpand::tilde` expands: alone, or before `/`.
pub open spec fn tilde_applies(s: Seq<char>) -> bool {
    s.len() > 0 && s[0] == '~' && (s.len() == 1 || s[1] == '/')
}

/// `t` is the end of `r`.
pub open spec fn ends_with(r: Seq<char>, t: Seq<char>) -> bool {
    t.len() <= r.len() && r.subrange(r.len() - t.len(), r.len() as int) == t
}

/// What tilde expansion may make of `s`: where a leading `~` applies, `s`
/// itself (no home directory known) or text that ends with what followed
/// the `~`; otherwise `s` itself.
pub open spec fn tilde_outcome(s: Seq<char>, r: Seq<char>) -> bool {
    if tilde_applies(s) {
        r == s || ends_with(r, s.skip(1))
    } else {
        r == s
    }
}

/// `shellexpand::tilde`: a leading `~` (alone or before `/`) becomes the
/// home directory when one is known; any other text comes back unchanged.
/// Where it expands, the result ends with what followed the `~`; the home
/// directory itself comes from the environment and is left unsaid.
#[verifier::external_body]
fn shellexpand_tilde(s: &str) -> (r: String)
    ensures
        tilde_outcome(s@, r@),
{
    shellexpand::tilde(s).into_owned()
}

proof fn lemma_ends_with_trans(a: Seq<char>, b: Seq<char>, c: Seq<char>)
    requires
        ends_with(a, b),
        ends_with(b, c),
    ensures
        ends_with(a, c),
{
    assert(a.subrange(a.len() - c.len(), a.len() as int) =~= b.subrange(b.len() - c.len(), b.len() as int)) by {
        assert forall|i: int| 0 <= i < c.len() implies #[trigger] a.subrange(a.len() - c.len(), a.len() as int)[i]
            == b.subrange(b.len() - c.len(), b.len() as int)[i] by {
            assert(a[a.len() - c.len() + i] == a.subrange(a.len() - b.len(), a.len() as int)[b.len() - c.len() + i]);
        }
    }
}

/// The expansion, or the text itself where expansion failed.
pub fn expanded_or_same(s: &str, expanded: Option<String>) -> (r: String)
    ensures
        match expanded {
            Some(t) => r@ == t@,
            None => r@ == s@,
        },
{
    match expanded {
        Some(t) => t,
        None => s.to_owned(),
    }
}

/// Expands variables and `~` in `s`; where a variable cannot be expanded
/// the text stays as it was.
pub fn expand_all(s: &str) -> (r: String)
    ensures
        nothing_to_expand(s@) ==> r@ == s@,
        !s@.contains('$') ==> tilde_outcome(s@, r@),
{
    expanded_or_same(s, shellexpand_full(s))
}

/// The path a file completion looks under: `s` with variables and `~`
/// expanded, and a leading `~` expanded once more.
pub fn expand_path(s: &str) -> (r: String)
    ensures
        nothing_to_expand(s@) ==> r@ == s@,
        !s@.contains('$') ==> tilde_outcome(s@, r@),
{
    let e = expand_all(s);
    let r = shellexpand_tilde(e.as_str());
    proof {
        if !s@.contains('$') && tilde_applies(s@) && e@ != s@ && r@ != e@ {
            let t = s@.skip(1);
            // `e` ends with `t`, and `t` is empty or begins with `/`, so a `~`
            // at the start of `e` lies before `t`.
            if e@.len() == t.len() {
                assert(e@.subrange(0, e@.len() as int) =~= e@);
                assert(t.len() > 0 ==> t[0] == '/');
            }
            assert(e@.skip(1).subrange(e@.skip(1).len() - t.len(), e@.skip(1).len() as int)
                =~= e@.subrange(e@.len() - t.len(), e@.len() as int));
            lemma_ends_with_trans(r@, e@.skip(1), t);
        }
    }
    r
}

/// Expands variables in `s`; where a variable cannot be expanded the text
/// stays as it was.
pub fn expand_env(s: &str) -> (r: String)
    ensures
        nothing_to_expand_env(s@) ==> r@ == s@,
{
    expanded_or_same(s, shellexpand_env(s))
}

/// `i` is the first position of `$(` in `s`.
pub open spec fn first_open_at(s: Seq<char>, i: int) -> bool {
    occurs_at(s, "$("@, i) && forall|j: int| 0 <= j < i ==> !occurs_at(s, "$("@, j)
}

/// The first command substitution runs from position `i`, the first `$(`,
/// to position `k`, the first `)` after it.
pub open spec fn expansion_at(s: Seq<char>, i: int, k: int) -> bool {
    &&& first_open_at(s, i)
    &&& i <= k < s.len()
    &&& s[k] == ')'
    &&& forall|j: int| i <= j < k ==> s[j] != ')'
}

/// No `$(` is followed by a `)`.
pub open spec fn no_expansion(s: Seq<char>) -> bool {
    forall|i: int| first_open_at(s, i) ==> forall|j: int| i <= j < s.len() ==> s[j] != ')'
}

/// The first `$( ... )` in `s`: from the first `$(` to the first `)` after it.
pub fn find_expansion(s: &str) -> (r: Option<&str>)
    ensures
        match r {
            Some(e) => exists|i: int, k: int| expansion_at(s@, i, k) && e@ == s@.subrange(i, k + 1),
            None => no_expansion(s@),
        },
{
    let cs = chars_of(s);
    let open = chars_of("$(");
    match find_chars(&cs, &open) {
        Some(i) => {
            let mut k: usize = i;
            while k < cs.len()
                invariant
                    i <= k <= cs.len(),
                    cs@ == s@,
                    first_open_at(s@, i as int),
                    forall|j: int| i <= j < k ==> cs@[j] != ')',
                decreases cs.len() - k,
            {
                if cs[k] == ')' {
                    let e = s.substring_char(i, k + 1);
                    assert(expansion_at(s@, i as int, k as int));
                    return Some(e);
                }
                k += 1;
            }
            assert forall|i2: int| first_open_at(s@, i2) implies forall|j: int| i2 <= j < s@.len() ==> s@[j] != ')' by {
                assert(i2 == i);
            }
            None
        },
        None => None,
    }
}

/// The command inside a substitution `$( ... )`.
pub fn expansion_command(e: &str) -> (r: String)
    requires
        e@.len() >= 3,
    ensures
        r@ == e@.subrange(2, e@.len() - 1),
{
    let cs = chars_of(e);
    let mut r: Vec<char> = Vec::new();
    let mut i: usize = 2;
    while i < cs.len() - 1
        invariant
            2 <= i <= cs.len() - 1,
            cs@ == e@,
            r@ == cs@.subrange(2, i as int),
        decreases cs.len() - 1 - i,
    {
        r.push(cs[i]);
        i += 1;
        assert(cs@.subrange(2, i as int) == cs@.subrange(2, i - 1).push(cs@[i - 1]));
    }
    string_of(&r)
}

} // verus!
