//! A finite map from text to text, kept as a list of entries in which no key
//! stands twice.

use crate::text::same_text;
use vstd::prelude::*;

verus! {

/// What has been disclosed so far, by the identity that disclosed it.
#[derive(Debug)]
pub struct RevealedMap {
    entries: Vec<(String, String)>,
}

/// No key stands at two places of `entries`.
pub open spec fn distinct_keys(entries: Seq<(String, String)>) -> bool {
    forall|i: int, j: int|
        0 <= i < j < entries.len() ==> (#[trigger] entries[i]).0@ != (#[trigger] entries[j]).0@
}

/// `key` stands at place `i` of `entries`.
pub open spec fn key_at(entries: Seq<(String, String)>, key: Seq<char>, i: int) -> bool {
    0 <= i < entries.len() && entries[i].0@ == key
}

/// The map that a list of entries stands for.
pub open spec fn entries_map(entries: Seq<(String, String)>) -> Map<Seq<char>, Seq<char>> {
    Map::new(
        |key: Seq<char>| exists|i: int| key_at(entries, key, i),
        |key: Seq<char>| entries[choose|i: int| key_at(entries, key, i)].1@,
    )
}

proof fn lemma_entry_is_mapped(entries: Seq<(String, String)>, i: int)
    requires
        distinct_keys(entries),
        0 <= i < entries.len(),
    ensures
        entries_map(entries).contains_key(entries[i].0@),
        entries_map(entries)[entries[i].0@] == entries[i].1@,
{
    let key = entries[i].0@;
    assert(key_at(entries, key, i));
    let j = choose|j: int| key_at(entries, key, j);
    assert(key_at(entries, key, j));
    assert(j == i);
}

proof fn lemma_push_inserts(entries: Seq<(String, String)>, entry: (String, String))
    requires
        distinct_keys(entries),
        !entries_map(entries).contains_key(entry.0@),
    ensures
        distinct_keys(entries.push(entry)),
        entries_map(entries.push(entry)) == entries_map(entries).insert(entry.0@, entry.1@),
{
    let grown = entries.push(entry);
    assert forall|i: int, j: int| 0 <= i < j < grown.len() implies (#[trigger] grown[i]).0@ != (
    #[trigger] grown[j]).0@ by {
        if j == entries.len() {
            assert(key_at(entries, entries[i].0@, i));
        } else {
            assert(entries[i].0@ != entries[j].0@);
        }
    }
    let before = entries_map(entries);
    let after = entries_map(grown);
    let wanted = before.insert(entry.0@, entry.1@);
    assert forall|key: Seq<char>| after.contains_key(key) <==> wanted.contains_key(key) by {
        if after.contains_key(key) {
            let i = choose|i: int| key_at(grown, key, i);
            if i < entries.len() {
                assert(key_at(entries, key, i));
            }
        }
        if wanted.contains_key(key) {
            if key == entry.0@ {
                assert(key_at(grown, key, entries.len() as int));
            } else {
                let i = choose|i: int| key_at(entries, key, i);
                assert(key_at(grown, key, i));
            }
        }
    }
    assert forall|key: Seq<char>| after.contains_key(key) implies after[key] == wanted[key] by {
        let i = choose|i: int| key_at(grown, key, i);
        lemma_entry_is_mapped(grown, i);
        if i < entries.len() {
            lemma_entry_is_mapped(entries, i);
        }
    }
    assert(after =~= wanted);
}

proof fn lemma_update_inserts(entries: Seq<(String, String)>, at: int, entry: (String, String))
    requires
        distinct_keys(entries),
        0 <= at < entries.len(),
        entries[at].0@ == entry.0@,
    ensures
        distinct_keys(entries.update(at, entry)),
        entries_map(entries.update(at, entry)) == entries_map(entries).insert(entry.0@, entry.1@),
{
    let changed = entries.update(at, entry);
    assert forall|i: int, j: int| 0 <= i < j < changed.len() implies (#[trigger] changed[i]).0@
        != (#[trigger] changed[j]).0@ by {
        assert(entries[i].0@ != entries[j].0@);
    }
    let before = entries_map(entries);
    let after = entries_map(changed);
    let wanted = before.insert(entry.0@, entry.1@);
    assert forall|key: Seq<char>| after.contains_key(key) <==> wanted.contains_key(key) by {
        if after.contains_key(key) {
            let i = choose|i: int| key_at(changed, key, i);
            assert(key_at(entries, key, i));
        }
        if wanted.contains_key(key) {
            if key == entry.0@ {
                assert(key_at(changed, key, at));
            } else {
                let i = choose|i: int| key_at(entries, key, i);
                assert(key_at(changed, key, i));
            }
        }
    }
    assert forall|key: Seq<char>| after.contains_key(key) implies after[key] == wanted[key] by {
        let i = choose|i: int| key_at(changed, key, i);
        lemma_entry_is_mapped(changed, i);
        lemma_entry_is_mapped(entries, i);
    }
    assert(after =~= wanted);
}

impl View for RevealedMap {
    type V = Map<Seq<char>, Seq<char>>;

    closed spec fn view(&self) -> Map<Seq<char>, Seq<char>> {
        entries_map(self.entries@)
    }
}

impl RevealedMap {
    #[verifier::type_invariant]
    spec fn well_formed(self) -> bool {
        distinct_keys(self.entries@)
    }

    /// The empty map.
    pub fn new() -> (map: Self)
        ensures
            map@ == Map::<Seq<char>, Seq<char>>::empty(),
    {
        let map = RevealedMap { entries: Vec::new() };
        proof {
            assert(map@ =~= Map::<Seq<char>, Seq<char>>::empty());
        }
        map
    }

    /// The place of `key` among the entries, if it has one.
    fn position(&self, key: &str) -> (place: Option<usize>)
        ensures
            match place {
                Some(i) => key_at(self.entries@, key@, i as int),
                None => !self@.contains_key(key@),
            },
    {
        let n: usize = self.entries.len();
        let mut i: usize = 0;
        while i < n
            invariant
                n == self.entries@.len(),
                i <= n,
                forall|t: int| 0 <= t < i ==> !key_at(self.entries@, key@, t),
            decreases n - i,
        {
            if same_text(self.entries[i].0.as_str(), key) {
                return Some(i);
            }
            i += 1;
        }
        None
    }

    /// Whether nothing has been disclosed.
    pub fn is_empty(&self) -> (empty: bool)
        ensures
            empty == (self@ == Map::<Seq<char>, Seq<char>>::empty()),
    {
        let empty = self.entries.len() == 0;
        proof {
            if empty {
                assert(self@ =~= Map::<Seq<char>, Seq<char>>::empty());
            } else {
                assert(key_at(self.entries@, self.entries@[0].0@, 0));
                assert(self@.contains_key(self.entries@[0].0@));
            }
        }
        empty
    }

    /// Whether `key` has a value.
    pub fn contains_key(&self, key: &str) -> (found: bool)
        ensures
            found == self@.contains_key(key@),
    {
        self.position(key).is_some()
    }

    /// The value of `key`, if it has one.
    pub fn get(&self, key: &str) -> (value: Option<&String>)
        ensures
            match value {
                Some(text) => self@.contains_key(key@) && text@ == self@[key@],
                None => !self@.contains_key(key@),
            },
    {
        match self.position(key) {
            Some(i) => {
                proof {
                    use_type_invariant(self);
                    lemma_entry_is_mapped(self.entries@, i as int);
                }
                Some(&self.entries[i].1)
            },
            None => None,
        }
    }

    /// Gives `key` the value `value`, in place of the one it had, if any.
    pub fn insert(&mut self, key: String, value: String)
        ensures
            final(self)@ == old(self)@.insert(key@, value@),
    {
        proof {
            use_type_invariant(&*self);
        }
        let place = self.position(key.as_str());
        let mut taken = RevealedMap { entries: Vec::new() };
        core::mem::swap(self, &mut taken);
        let mut entries = taken.entries;
        match place {
            Some(i) => {
                proof {
                    lemma_update_inserts(entries@, i as int, (key, value));
                }
                entries[i] = (key, value);
            },
            None => {
                proof {
                    lemma_push_inserts(entries@, (key, value));
                }
                entries.push((key, value));
            },
        }
        *self = RevealedMap { entries };
    }

    /// The entries, each key once, in the order in which the keys came.
    pub fn to_vec(&self) -> (entries: Vec<(String, String)>)
        ensures
            distinct_keys(entries@),
            entries_map(entries@) == self@,
    {
        proof {
            use_type_invariant(self);
        }
        let n: usize = self.entries.len();
        let mut entries: Vec<(String, String)> = Vec::new();
        let mut i: usize = 0;
        while i < n
            invariant
                n == self.entries@.len(),
                i <= n,
                entries@ == self.entries@.take(i as int),
            decreases n - i,
        {
            let key = self.entries[i].0.clone();
            let value = self.entries[i].1.clone();
            entries.push((key, value));
            proof {
                assert(entries@ =~= self.entries@.take(i + 1));
            }
            i += 1;
        }
        proof {
            assert(self.entries@.take(n as int) =~= self.entries@);
        }
        entries
    }

    /// Whether every value is `value`; so it is where there is none.
    pub fn all_values_are(&self, value: &str) -> (all: bool)
        ensures
            all == forall|key: Seq<char>| self@.contains_key(key) ==> self@[key] == value@,
    {
        proof {
            use_type_invariant(self);
        }
        let n: usize = self.entries.len();
        let mut i: usize = 0;
        while i < n
            invariant
                n == self.entries@.len(),
                i <= n,
                distinct_keys(self.entries@),
                forall|t: int| 0 <= t < i ==> (#[trigger] self.entries@[t]).1@ == value@,
            decreases n - i,
        {
            if !same_text(self.entries[i].1.as_str(), value) {
                proof {
                    lemma_entry_is_mapped(self.entries@, i as int);
                    let key = self.entries@[i as int].0@;
                    assert(self@.contains_key(key) && self@[key] != value@);
                }
                return false;
            }
            i += 1;
        }
        proof {
            assert forall|key: Seq<char>| self@.contains_key(key) implies self@[key] == value@ by {
                let t = choose|t: int| key_at(self.entries@, key, t);
                lemma_entry_is_mapped(self.entries@, t);
            }
        }
        true
    }
}

impl Clone for RevealedMap {
    fn clone(&self) -> (copy: Self)
        ensures
            copy@ == self@,
    {
        let entries = self.to_vec();
        RevealedMap { entries }
    }
}

} // verus!
