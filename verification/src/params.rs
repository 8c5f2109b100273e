//! Parameter mappings: from a key to one value, or to the values that were
//! given for it, in the order in which they came.
//!
//! Both mappings keep their keys in the order in which each was first
//! inserted. That order is what `entries` shows, and a key occurs in it
//! once.

use crate::text::str_eq;
use vstd::prelude::*;

verus! {

/// True when no two pairs have the same key.
pub open spec fn distinct_keys<V>(pairs: Seq<(Seq<char>, V)>) -> bool {
    forall|i: int, j: int| 0 <= i < j < pairs.len() ==> pairs[i].0 != pairs[j].0
}

/// True when some pair has the key `key`.
pub open spec fn has_key<V>(pairs: Seq<(Seq<char>, V)>, key: Seq<char>) -> bool {
    exists|i: int| 0 <= i < pairs.len() && pairs[i].0 == key
}

/// The mapping that a list of pairs stands for. Where a key occurs more
/// than once, the last pair with it counts.
pub open spec fn to_map<V>(pairs: Seq<(Seq<char>, V)>) -> Map<Seq<char>, V>
    decreases pairs.len(),
{
    if pairs.len() == 0 {
        Map::empty()
    } else {
        to_map(pairs.drop_last()).insert(pairs.last().0, pairs.last().1)
    }
}

/// The values that `map` has for `key`: none where the key is absent.
pub open spec fn values_for(map: Map<Seq<char>, Seq<Seq<char>>>, key: Seq<char>) -> Seq<
    Seq<char>,
> {
    if map.contains_key(key) {
        map[key]
    } else {
        Seq::empty()
    }
}

/// The texts of a list of strings.
pub open spec fn texts(strings: Seq<String>) -> Seq<Seq<char>> {
    strings.map_values(|s: String| s@)
}

/// The keys and values of a list of string pairs, as texts.
pub open spec fn text_pairs(raw: Seq<(String, String)>) -> Seq<(Seq<char>, Seq<char>)> {
    raw.map_values(|e: (String, String)| (e.0@, e.1@))
}

/// What a stored list of keys and value lists holds, as texts.
pub closed spec fn multi_pairs(raw: Seq<(String, Vec<String>)>) -> Seq<
    (Seq<char>, Seq<Seq<char>>),
> {
    raw.map_values(|e: (String, Vec<String>)| (e.0@, texts(e.1@)))
}

/// A mapping from a key to one value.
#[derive(Debug)]
pub struct Params {
    entries: Vec<(String, String)>,
}

impl View for Params {
    type V = Map<Seq<char>, Seq<char>>;

    open spec fn view(&self) -> Map<Seq<char>, Seq<char>> {
        to_map(self.entries())
    }
}

impl Params {
    /// The pairs of the mapping, in the order in which their keys were
    /// first inserted.
    pub closed spec fn entries(&self) -> Seq<(Seq<char>, Seq<char>)> {
        text_pairs(self.entries@)
    }

    #[verifier::type_invariant]
    spec fn keys_are_distinct(&self) -> bool {
        distinct_keys(self.entries())
    }

    /// The empty mapping.
    pub fn new() -> (params: Self)
        ensures
            params.entries() == Seq::<(Seq<char>, Seq<char>)>::empty(),
            params@ == Map::<Seq<char>, Seq<char>>::empty(),
    {
        let entries: Vec<(String, String)> = Vec::new();
        assert(text_pairs(entries@) =~= Seq::empty());
        Params { entries }
    }

    /// The number of keys. No key is counted twice.
    pub fn len(&self) -> (n: usize)
        ensures
            n == self.entries().len(),
            distinct_keys(self.entries()),
    {
        proof {
            use_type_invariant(self);
        }
        self.entries.len()
    }

    /// The pair at position `index` of `entries`, if there is one.
    pub fn entry(&self, index: usize) -> (pair: Option<(&String, &String)>)
        ensures
            match pair {
                Some((key, value)) => index < self.entries().len() && (key@, value@)
                    == self.entries()[index as int],
                None => index >= self.entries().len(),
            },
    {
        if index < self.entries.len() {
            let e = &self.entries[index];
            Some((&e.0, &e.1))
        } else {
            None
        }
    }

    /// The value for `key`, if the mapping has one.
    pub fn get(&self, key: &str) -> (value: Option<&String>)
        ensures
            match value {
                Some(v) => self@.contains_key(key@) && self@[key@] == v@,
                None => !self@.contains_key(key@),
            },
    {
        proof {
            use_type_invariant(self);
            lemma_to_map_keys(self.entries(), key@);
        }
        match position(&self.entries, key) {
            Some(i) => {
                proof {
                    lemma_to_map_value(self.entries(), i as int);
                }
                Some(&self.entries[i].1)
            },
            None => {
                assert forall|i: int| 0 <= i < self.entries().len() implies self.entries()[i].0
                    != key@ by {
                    assert(self.entries()[i].0 == self.entries@[i].0@);
                }
                None
            },
        }
    }

    /// Sets the value for `key`. A value that the key had before is
    /// replaced, and the key keeps its place; a new key goes to the end.
    pub fn insert(&mut self, key: String, value: String)
        ensures
            final(self)@ == old(self)@.insert(key@, value@),
            has_key(old(self).entries(), key@) ==> exists|i: int|
                {
                    &&& 0 <= i < old(self).entries().len()
                    &&& old(self).entries()[i].0 == key@
                    &&& final(self).entries() == old(self).entries().update(i, (key@, value@))
                },
            !has_key(old(self).entries(), key@) ==> final(self).entries()
                == old(self).entries().push((key@, value@)),
    {
        proof {
            use_type_invariant(&*self);
        }
        let ghost before = self.entries();
        let mut entries: Vec<(String, String)> = Vec::new();
        std::mem::swap(&mut entries, &mut self.entries);
        assert(text_pairs(entries@) == before);
        match position(&entries, &key) {
            Some(i) => {
                entries[i].1 = value;
                proof {
                    assert(before[i as int].0 == key@);
                    assert(text_pairs(entries@) =~= before.update(i as int, (key@, value@)));
                    lemma_to_map_update(before, i as int, value@);
                }
            },
            None => {
                proof {
                    assert forall|i: int| 0 <= i < before.len() implies before[i].0 != key@ by {
                        assert(before[i].0 == entries@[i].0@);
                    }
                    lemma_distinct_push(before, key@, value@);
                }
                entries.push((key, value));
                proof {
                    assert(text_pairs(entries@) =~= before.push((key@, value@)));
                    assert(text_pairs(entries@).drop_last() =~= before);
                }
            },
        }
        self.entries = entries;
    }
}

/// A mapping from a key to the values given for it, in the order in which
/// they were given.
#[derive(Debug)]
pub struct MultiParams {
    entries: Vec<(String, Vec<String>)>,
}

impl View for MultiParams {
    type V = Map<Seq<char>, Seq<Seq<char>>>;

    open spec fn view(&self) -> Map<Seq<char>, Seq<Seq<char>>> {
        to_map(self.entries())
    }
}

impl MultiParams {
    /// The keys with their values, in the order in which the keys were
    /// first inserted.
    pub closed spec fn entries(&self) -> Seq<(Seq<char>, Seq<Seq<char>>)> {
        multi_pairs(self.entries@)
    }

    #[verifier::type_invariant]
    spec fn keys_are_distinct(&self) -> bool {
        distinct_keys(self.entries())
    }

    /// The empty mapping.
    pub fn new() -> (params: Self)
        ensures
            params.entries() == Seq::<(Seq<char>, Seq<Seq<char>>)>::empty(),
            params@ == Map::<Seq<char>, Seq<Seq<char>>>::empty(),
    {
        let entries: Vec<(String, Vec<String>)> = Vec::new();
        assert(multi_pairs(entries@) =~= Seq::empty());
        MultiParams { entries }
    }

    /// The number of keys. No key is counted twice.
    pub fn len(&self) -> (n: usize)
        ensures
            n == self.entries().len(),
            distinct_keys(self.entries()),
    {
        proof {
            use_type_invariant(self);
        }
        self.entries.len()
    }

    /// The key and its values at position `index` of `entries`, if there is
    /// one.
    pub fn entry(&self, index: usize) -> (pair: Option<(&String, &Vec<String>)>)
        ensures
            match pair {
                Some((key, values)) => index < self.entries().len() && (key@, texts(values@))
                    == self.entries()[index as int],
                None => index >= self.entries().len(),
            },
    {
        if index < self.entries.len() {
            let e = &self.entries[index];
            Some((&e.0, &e.1))
        } else {
            None
        }
    }

    /// The values for `key`, if the mapping has the key.
    pub fn get(&self, key: &str) -> (values: Option<&Vec<String>>)
        ensures
            match values {
                Some(v) => self@.contains_key(key@) && self@[key@] == texts(v@),
                None => !self@.contains_key(key@),
            },
    {
        proof {
            use_type_invariant(self);
            lemma_to_map_keys(self.entries(), key@);
        }
        match position(&self.entries, key) {
            Some(i) => {
                proof {
                    lemma_to_map_value(self.entries(), i as int);
                }
                Some(&self.entries[i].1)
            },
            None => {
                assert forall|i: int| 0 <= i < self.entries().len() implies self.entries()[i].0
                    != key@ by {
                    assert(self.entries()[i].0 == self.entries@[i].0@);
                }
                None
            },
        }
    }

    /// Adds `value` behind the values that `key` has. A new key goes to the
    /// end, with `value` as its only value.
    pub fn append(&mut self, key: String, value: String)
        ensures
            final(self)@ == old(self)@.insert(key@, values_for(old(self)@, key@).push(value@)),
            has_key(old(self).entries(), key@) ==> exists|i: int|
                {
                    &&& 0 <= i < old(self).entries().len()
                    &&& old(self).entries()[i].0 == key@
                    &&& final(self).entries() == old(self).entries().update(
                        i,
                        (key@, old(self).entries()[i].1.push(value@)),
                    )
                },
            !has_key(old(self).entries(), key@) ==> final(self).entries()
                == old(self).entries().push((key@, seq![value@])),
    {
        proof {
            use_type_invariant(&*self);
            lemma_to_map_keys(self.entries(), key@);
        }
        let ghost before = self.entries();
        let mut entries: Vec<(String, Vec<String>)> = Vec::new();
        std::mem::swap(&mut entries, &mut self.entries);
        assert(multi_pairs(entries@) == before);
        match position(&entries, &key) {
            Some(i) => {
                let ghost had = entries@[i as int].1@;
                entries[i].1.push(value);
                proof {
                    let now = before[i as int].1.push(value@);
                    assert(before[i as int].0 == key@);
                    assert(texts(had.push(value)) =~= texts(had).push(value@));
                    assert(multi_pairs(entries@) =~= before.update(i as int, (key@, now)));
                    lemma_to_map_value(before, i as int);
                    lemma_to_map_update(before, i as int, now);
                }
            },
            None => {
                proof {
                    assert forall|i: int| 0 <= i < before.len() implies before[i].0 != key@ by {
                        assert(before[i].0 == entries@[i].0@);
                    }
                    lemma_distinct_push(before, key@, seq![value@]);
                }
                let ghost text = value@;
                let mut values: Vec<String> = Vec::new();
                values.push(value);
                entries.push((key, values));
                proof {
                    assert(texts(values@) =~= seq![text]);
                    assert(multi_pairs(entries@) =~= before.push((key@, seq![text])));
                    assert(multi_pairs(entries@).drop_last() =~= before);
                    assert(Seq::<Seq<char>>::empty().push(text) =~= seq![text]);
                }
            },
        }
        self.entries = entries;
    }
}

/// The position of `key` among the keys, if it is there.
fn position<V>(entries: &Vec<(String, V)>, key: &str) -> (at: Option<usize>)
    ensures
        match at {
            Some(i) => i < entries.len() && entries[i as int].0@ == key@,
            None => forall|i: int| 0 <= i < entries.len() ==> entries[i].0@ != key@,
        },
{
    let mut i: usize = 0;
    while i < entries.len()
        invariant
            i <= entries.len(),
            forall|j: int| 0 <= j < i ==> entries[j].0@ != key@,
        decreases entries.len() - i,
    {
        if str_eq(entries[i].0.as_str(), key) {
            return Some(i);
        }
        i += 1;
    }
    None
}

/// The keys of a mapping are the keys of its pairs.
pub proof fn lemma_to_map_keys<V>(pairs: Seq<(Seq<char>, V)>, key: Seq<char>)
    ensures
        to_map(pairs).contains_key(key) <==> has_key(pairs, key),
    decreases pairs.len(),
{
    if pairs.len() > 0 {
        let front = pairs.drop_last();
        lemma_to_map_keys(front, key);
        if has_key(front, key) {
            let i = choose|i: int| 0 <= i < front.len() && front[i].0 == key;
            assert(pairs[i].0 == key);
        }
        if pairs.last().0 == key {
            assert(pairs[pairs.len() - 1].0 == key);
        }
        if has_key(pairs, key) && pairs.last().0 != key {
            let i = choose|i: int| 0 <= i < pairs.len() && pairs[i].0 == key;
            assert(front[i].0 == key);
        }
    }
}

/// Where keys are distinct, each pair's key maps to that pair's value.
pub proof fn lemma_to_map_value<V>(pairs: Seq<(Seq<char>, V)>, i: int)
    requires
        distinct_keys(pairs),
        0 <= i < pairs.len(),
    ensures
        to_map(pairs).contains_key(pairs[i].0),
        to_map(pairs)[pairs[i].0] == pairs[i].1,
    decreases pairs.len(),
{
    if i < pairs.len() - 1 {
        lemma_to_map_value(pairs.drop_last(), i);
    }
}

/// Where keys are distinct, giving one pair a new value changes the mapping
/// at that pair's key and nowhere else, and the keys stay distinct.
pub proof fn lemma_to_map_update<V>(pairs: Seq<(Seq<char>, V)>, i: int, value: V)
    requires
        distinct_keys(pairs),
        0 <= i < pairs.len(),
    ensures
        distinct_keys(pairs.update(i, (pairs[i].0, value))),
        to_map(pairs.update(i, (pairs[i].0, value))) == to_map(pairs).insert(pairs[i].0, value),
    decreases pairs.len(),
{
    let changed = pairs.update(i, (pairs[i].0, value));
    if i < pairs.len() - 1 {
        lemma_to_map_update(pairs.drop_last(), i, value);
        assert(changed.drop_last() =~= pairs.drop_last().update(i, (pairs[i].0, value)));
        assert(to_map(changed) =~= to_map(pairs).insert(pairs[i].0, value));
    } else {
        assert(changed.drop_last() =~= pairs.drop_last());
        assert(to_map(changed) =~= to_map(pairs).insert(pairs[i].0, value));
    }
}

/// A pair with a new key can be added at the end: the keys stay distinct.
pub proof fn lemma_distinct_push<V>(pairs: Seq<(Seq<char>, V)>, key: Seq<char>, value: V)
    requires
        distinct_keys(pairs),
        !has_key(pairs, key),
    ensures
        distinct_keys(pairs.push((key, value))),
{
    let longer = pairs.push((key, value));
    assert forall|i: int, j: int| 0 <= i < j < longer.len() implies longer[i].0 != longer[j].0 by {
        if j == pairs.len() {
            assert(pairs[i].0 != key);
        }
    }
}

} // verus!
