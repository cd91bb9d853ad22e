//! Tag sets: small maps from text keys to text values, kept as a list of
//! entries whose keys are pairwise different.

use vstd::prelude::*;

verus! {

/// Whether no two entries of the list have the same key.
pub open spec fn distinct_keys(e: Seq<(Seq<char>, Seq<char>)>) -> bool {
    forall|i: int, j: int|
        0 <= i < e.len() && 0 <= j < e.len() && i != j ==> (#[trigger] e[i]).0 != (#[trigger] e[j]).0
}

/// Whether some entry of the list has the key `k`.
pub open spec fn has_key(e: Seq<(Seq<char>, Seq<char>)>, k: Seq<char>) -> bool {
    exists|i: int| 0 <= i < e.len() && (#[trigger] e[i]).0 == k
}

/// The place of an entry with key `k`.
pub open spec fn key_index(e: Seq<(Seq<char>, Seq<char>)>, k: Seq<char>) -> int {
    choose|i: int| 0 <= i < e.len() && (#[trigger] e[i]).0 == k
}

/// The map that a list of entries stands for.
pub open spec fn entries_map(e: Seq<(Seq<char>, Seq<char>)>) -> Map<Seq<char>, Seq<char>> {
    Map::new(|k: Seq<char>| has_key(e, k), |k: Seq<char>| e[key_index(e, k)].1)
}

/// In a list with distinct keys every entry is what the map holds for its
/// key.
pub proof fn lemma_entry_in_map(e: Seq<(Seq<char>, Seq<char>)>, i: int)
    requires
        distinct_keys(e),
        0 <= i < e.len(),
    ensures
        entries_map(e).contains_key(e[i].0),
        entries_map(e)[e[i].0] == e[i].1,
{
    let k = e[i].0;
    assert(has_key(e, k));
    let j = key_index(e, k);
    assert(e[j].0 == e[i].0);
}

/// Appending an entry with a fresh key inserts it into the map.
pub proof fn lemma_entries_push(e: Seq<(Seq<char>, Seq<char>)>, k: Seq<char>, v: Seq<char>)
    requires
        distinct_keys(e),
        !has_key(e, k),
    ensures
        distinct_keys(e.push((k, v))),
        entries_map(e.push((k, v))) == entries_map(e).insert(k, v),
{
    let f = e.push((k, v));
    assert(distinct_keys(f)) by {
        assert forall|i: int, j: int| 0 <= i < f.len() && 0 <= j < f.len() && i != j implies (
        #[trigger] f[i]).0 != (#[trigger] f[j]).0 by {
            if i < e.len() && j < e.len() {
                assert(e[i].0 != e[j].0);
            } else if i < e.len() {
                assert(e[i].0 != k);
            } else {
                assert(e[j].0 != k);
            }
        }
    }
    assert forall|x: Seq<char>| has_key(f, x) <==> (has_key(e, x) || x == k) by {
        if has_key(e, x) {
            let i = key_index(e, x);
            assert(f[i].0 == x);
        }
        if x == k {
            assert(f[e.len() as int].0 == x);
        }
        if has_key(f, x) {
            let i = key_index(f, x);
            if i < e.len() {
                assert(e[i].0 == x);
            }
        }
    }
    assert forall|x: Seq<char>| has_key(f, x) implies #[trigger] entries_map(f)[x] == entries_map(
        e,
    ).insert(k, v)[x] by {
        let i = key_index(f, x);
        lemma_entry_in_map(f, i);
        if i < e.len() {
            assert(e[i] == f[i]);
            lemma_entry_in_map(e, i);
        }
    }
    assert(entries_map(f) =~= entries_map(e).insert(k, v));
}

/// Replacing the value of an entry replaces it in the map.
pub proof fn lemma_entries_update(e: Seq<(Seq<char>, Seq<char>)>, i: int, v: Seq<char>)
    requires
        distinct_keys(e),
        0 <= i < e.len(),
    ensures
        distinct_keys(e.update(i, (e[i].0, v))),
        entries_map(e.update(i, (e[i].0, v))) == entries_map(e).insert(e[i].0, v),
{
    let k = e[i].0;
    let f = e.update(i, (k, v));
    assert forall|j: int| 0 <= j < e.len() implies (#[trigger] f[j]).0 == e[j].0 by {}
    assert(distinct_keys(f)) by {
        assert forall|a: int, b: int| 0 <= a < f.len() && 0 <= b < f.len() && a != b implies (
        #[trigger] f[a]).0 != (#[trigger] f[b]).0 by {
            assert(e[a].0 != e[b].0);
        }
    }
    assert forall|x: Seq<char>| has_key(f, x) <==> has_key(e, x) by {
        if has_key(e, x) {
            let j = key_index(e, x);
            assert(f[j].0 == x);
        }
        if has_key(f, x) {
            let j = key_index(f, x);
            assert(e[j].0 == x);
        }
    }
    assert(has_key(e, k));
    assert forall|x: Seq<char>| has_key(f, x) implies #[trigger] entries_map(f)[x] == entries_map(
        e,
    ).insert(k, v)[x] by {
        let j = key_index(f, x);
        lemma_entry_in_map(f, j);
        if j != i {
            assert(e[j] == f[j]);
            lemma_entry_in_map(e, j);
        }
    }
    assert(entries_map(f) =~= entries_map(e).insert(k, v));
}

/// The entries of a list of pairs of strings, each string taken by its view.
pub open spec fn pairs_view(v: Seq<(String, String)>) -> Seq<(Seq<char>, Seq<char>)> {
    Seq::new(v.len(), |i: int| (v[i].0@, v[i].1@))
}

/// A tag set: a map from keys to values.
#[derive(Debug)]
pub struct Tags {
    entries: Vec<(String, String)>,
}

impl View for Tags {
    type V = Map<Seq<char>, Seq<char>>;

    open spec fn view(&self) -> Map<Seq<char>, Seq<char>> {
        entries_map(self.entries_view())
    }
}

impl Tags {
    /// The entries in the order in which their keys were first inserted.
    pub closed spec fn entries_view(&self) -> Seq<(Seq<char>, Seq<char>)> {
        pairs_view(self.entries@)
    }

    #[verifier::type_invariant]
    closed spec fn keys_are_distinct(&self) -> bool {
        distinct_keys(self.entries_view())
    }

    /// The empty tag set.
    pub fn new() -> (tags: Tags)
        ensures
            tags@ == Map::<Seq<char>, Seq<char>>::empty(),
            tags.entries_view().len() == 0,
    {
        let tags = Tags { entries: Vec::new() };
        assert(tags@ =~= Map::<Seq<char>, Seq<char>>::empty());
        tags
    }

    /// The number of entries.
    pub fn len(&self) -> (n: usize)
        ensures
            n == self.entries_view().len(),
            distinct_keys(self.entries_view()),
            self@ == entries_map(self.entries_view()),
    {
        proof {
            use_type_invariant(self);
        }
        self.entries.len()
    }

    /// The key of entry number `i`.
    pub fn key_at(&self, i: usize) -> (key: &String)
        requires
            i < self.entries_view().len(),
        ensures
            key@ == self.entries_view()[i as int].0,
            self@.contains_key(key@),
    {
        proof {
            use_type_invariant(self);
            lemma_entry_in_map(self.entries_view(), i as int);
        }
        &self.entries[i].0
    }

    /// The value of entry number `i`.
    pub fn value_at(&self, i: usize) -> (value: &String)
        requires
            i < self.entries_view().len(),
        ensures
            value@ == self.entries_view()[i as int].1,
            self@.contains_key(self.entries_view()[i as int].0),
            self@[self.entries_view()[i as int].0] == value@,
    {
        proof {
            use_type_invariant(self);
            lemma_entry_in_map(self.entries_view(), i as int);
        }
        &self.entries[i].1
    }

    /// The place of the entry with the given key, if there is one.
    fn position(&self, key: &String) -> (at: Option<usize>)
        ensures
            match at {
                Some(i) => i < self.entries_view().len() && self.entries_view()[i as int].0
                    == key@,
                None => !has_key(self.entries_view(), key@),
            },
    {
        let mut i: usize = 0;
        while i < self.entries.len()
            invariant
                i <= self.entries@.len(),
                forall|j: int| 0 <= j < i ==> (#[trigger] self.entries_view()[j]).0 != key@,
            decreases self.entries@.len() - i,
        {
            if self.entries[i].0 == *key {
                return Some(i);
            }
            i += 1;
        }
        None
    }

    /// Whether the tag set has the key.
    pub fn contains_key(&self, key: &String) -> (found: bool)
        ensures
            found == self@.contains_key(key@),
    {
        self.position(key).is_some()
    }

    /// The value of the key, if the tag set has it.
    pub fn get(&self, key: &String) -> (value: Option<&String>)
        ensures
            match value {
                Some(v) => self@.contains_key(key@) && self@[key@] == v@,
                None => !self@.contains_key(key@),
            },
    {
        match self.position(key) {
            Some(i) => {
                proof {
                    use_type_invariant(self);
                    lemma_entry_in_map(self.entries_view(), i as int);
                }
                Some(&self.entries[i].1)
            },
            None => None,
        }
    }

    /// Sets the value of the key, replacing the value it had, if any. A key
    /// that is new becomes the last entry; one that is not keeps its place.
    pub fn insert(&mut self, key: String, value: String)
        ensures
            final(self)@ == old(self)@.insert(key@, value@),
            final(self).entries_view() == if has_key(old(self).entries_view(), key@) {
                old(self).entries_view().update(
                    key_index(old(self).entries_view(), key@),
                    (key@, value@),
                )
            } else {
                old(self).entries_view().push((key@, value@))
            },
    {
        proof {
            use_type_invariant(&*self);
        }
        let ghost e = self.entries_view();
        let at = self.position(&key);
        proof {
            if at is Some {
                assert(e[key_index(e, key@)].0 == e[at.unwrap() as int].0);
            }
        }
        let mut entries: Vec<(String, String)> = Vec::new();
        std::mem::swap(&mut self.entries, &mut entries);
        match at {
            Some(i) => {
                entries[i] = (key, value);
                proof {
                    lemma_entries_update(e, i as int, value@);
                    assert(pairs_view(entries@) =~= e.update(i as int, (e[i as int].0, value@)));
                }
            },
            None => {
                entries.push((key, value));
                proof {
                    lemma_entries_push(e, key@, value@);
                    assert(pairs_view(entries@) =~= e.push((key@, value@)));
                }
            },
        }
        std::mem::swap(&mut self.entries, &mut entries);
    }

    /// A copy of the tag set.
    pub fn duplicate(&self) -> (copy: Tags)
        ensures
            copy@ == self@,
            copy.entries_view() == self.entries_view(),
    {
        proof {
            use_type_invariant(self);
        }
        let mut entries: Vec<(String, String)> = Vec::new();
        let mut i: usize = 0;
        while i < self.entries.len()
            invariant
                i <= self.entries@.len(),
                entries@.len() == i,
                forall|j: int|
                    0 <= j < i ==> (#[trigger] entries@[j]).0@ == self.entries@[j].0@
                        && entries@[j].1@ == self.entries@[j].1@,
            decreases self.entries@.len() - i,
        {
            entries.push((self.entries[i].0.clone(), self.entries[i].1.clone()));
            i += 1;
        }
        assert(pairs_view(entries@) =~= self.entries_view());
        Tags { entries }
    }
}

} // verus!
