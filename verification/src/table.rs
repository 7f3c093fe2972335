//! A small map from names to values kept as a vector of pairs, where a
//! later pair for a name stands over an earlier one.

use vstd::prelude::*;
use crate::text::{chars_eq, chars_of};

verus! {

broadcast use vstd::string::group_string_axioms;

/// The pairs as a map: a later pair for a name stands over an earlier one.
pub open spec fn table_map<V>(v: Seq<(Seq<char>, V)>) -> Map<Seq<char>, V>
    decreases v.len(),
{
    if v.len() == 0 {
        Map::empty()
    } else {
        table_map(v.drop_last()).insert(v.last().0, v.last().1)
    }
}

/// The map holds, for a name, the value of the last pair with that name.
pub proof fn lemma_table_last<V>(v: Seq<(Seq<char>, V)>, i: int, k: Seq<char>)
    requires
        0 <= i < v.len(),
        v[i].0 == k,
        forall|j: int| i < j < v.len() ==> v[j].0 != k,
    ensures
        table_map(v).contains_key(k),
        table_map(v)[k] == v[i].1,
    decreases v.len(),
{
    if i < v.len() - 1 {
        lemma_table_last(v.drop_last(), i, k);
    }
}

/// A name without a pair is not in the map.
pub proof fn lemma_table_absent<V>(v: Seq<(Seq<char>, V)>, k: Seq<char>)
    requires
        forall|j: int| 0 <= j < v.len() ==> v[j].0 != k,
    ensures
        !table_map(v).contains_key(k),
    decreases v.len(),
{
    if v.len() > 0 {
        lemma_table_absent(v.drop_last(), k);
    }
}

/// Setting the last pair named `k` is inserting into the map.
pub proof fn lemma_table_update<V>(v: Seq<(Seq<char>, V)>, i: int, k: Seq<char>, c: V)
    requires
        0 <= i < v.len(),
        v[i].0 == k,
        forall|j: int| i < j < v.len() ==> v[j].0 != k,
    ensures
        table_map(v.update(i, (k, c))) == table_map(v).insert(k, c),
    decreases v.len(),
{
    let u = v.update(i, (k, c));
    if i == v.len() - 1 {
        assert(u.drop_last() == v.drop_last());
        assert(table_map(v.drop_last()).insert(k, v.last().1).insert(k, c)
            == table_map(v.drop_last()).insert(k, c));
    } else {
        assert(u.drop_last() == v.drop_last().update(i, (k, c)));
        lemma_table_update(v.drop_last(), i, k, c);
        assert(table_map(v.drop_last()).insert(k, c).insert(v.last().0, v.last().1)
            == table_map(v.drop_last()).insert(v.last().0, v.last().1).insert(k, c));
    }
}

pub open spec fn names_view(v: Seq<(String, String)>) -> Seq<(Seq<char>, Seq<char>)> {
    v.map_values(|e: (String, String)| (e.0@, e.1@))
}

/// Text values by name.
pub struct StringTable {
    entries: Vec<(String, String)>,
}

impl View for StringTable {
    type V = Map<Seq<char>, Seq<char>>;

    closed spec fn view(&self) -> Map<Seq<char>, Seq<char>> {
        table_map(names_view(self.entries@))
    }
}

impl StringTable {
    pub fn new() -> (r: Self)
        ensures
            r@ == Map::<Seq<char>, Seq<char>>::empty(),
    {
        let r = StringTable { entries: Vec::new() };
        assert(names_view(r.entries@) == Seq::<(Seq<char>, Seq<char>)>::empty());
        r
    }

    fn find_last(&self, key: &Vec<char>) -> (r: Option<usize>)
        ensures
            match r {
                Some(i) => i < self.entries@.len() && names_view(self.entries@)[i as int].0 == key@
                    && forall|j: int| i < j < self.entries@.len() ==> names_view(self.entries@)[j].0 != key@,
                None => forall|j: int| 0 <= j < self.entries@.len() ==> names_view(self.entries@)[j].0 != key@,
            },
    {
        let ghost v = names_view(self.entries@);
        let mut i = self.entries.len();
        while i > 0
            invariant
                i <= self.entries@.len(),
                v == names_view(self.entries@),
                forall|j: int| i <= j < v.len() ==> v[j].0 != key@,
            decreases i,
        {
            i -= 1;
            assert(v[i as int] == (self.entries@[i as int].0@, self.entries@[i as int].1@));
            let name = chars_of(self.entries[i].0.as_str());
            if chars_eq(&name, key) {
                return Some(i);
            }
        }
        None
    }

    /// The value of `name`.
    pub fn get(&self, name: &str) -> (r: Option<&String>)
        ensures
            match r {
                Some(v) => self@.contains_key(name@) && self@[name@] == v@,
                None => !self@.contains_key(name@),
            },
    {
        match self.find_last(&chars_of(name)) {
            Some(i) => {
                proof {
                    lemma_table_last(names_view(self.entries@), i as int, name@);
                }
                Some(&self.entries[i].1)
            },
            None => {
                proof {
                    lemma_table_absent(names_view(self.entries@), name@);
                }
                None
            },
        }
    }

    /// Sets `name` to `value`.
    pub fn insert(&mut self, name: String, value: String)
        ensures
            final(self)@ == old(self)@.insert(name@, value@),
    {
        let ghost before = names_view(self.entries@);
        let key = chars_of(name.as_str());
        match self.find_last(&key) {
            Some(i) => {
                let ghost k = name@;
                let ghost val = value@;
                self.entries.set(i, (name, value));
                proof {
                    lemma_table_update(before, i as int, k, val);
                    assert(names_view(self.entries@) =~= before.update(i as int, (k, val)));
                }
            },
            None => {
                let ghost k = name@;
                let ghost val = value@;
                self.entries.push((name, value));
                assert(names_view(self.entries@) =~= before.push((k, val)));
                assert(names_view(self.entries@).drop_last() == before);
            },
        }
    }
}

} // verus!
