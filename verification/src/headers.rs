//! Header fields: a mapping from name to value that remembers the order in
//! which the names first came.

use crate::text::str_eq;
use vstd::prelude::*;
use vstd::set_lib::lemma_subset_equality;
use vstd::std_specs::cmp::PartialEqSpecImpl;
use vstd::string::StringExecFns;

verus! {

/// Header fields as mathematics: pairs of name and value, in order.
pub type Entries = Seq<(Seq<char>, Seq<char>)>;

/// No name stands twice.
pub open spec fn keys_unique(e: Entries) -> bool {
    forall|i: int, j: int| 0 <= i < j < e.len() ==> e[i].0 != e[j].0
}

/// Some entry has the name `key`.
pub open spec fn holds_key(e: Entries, key: Seq<char>) -> bool {
    exists|i: int| 0 <= i < e.len() && e[i].0 == key
}

/// The place of an entry named `key`, where there is one.
pub open spec fn index_of_key(e: Entries, key: Seq<char>) -> int {
    choose|i: int| 0 <= i < e.len() && e[i].0 == key
}

/// The value that stands under `key`.
pub open spec fn value_of(e: Entries, key: Seq<char>) -> Option<Seq<char>> {
    if holds_key(e, key) {
        Some(e[index_of_key(e, key)].1)
    } else {
        None
    }
}

/// `e` after `value` was written under `key`: an entry of that name keeps
/// its place and takes the new value; a new name goes to the end.
pub open spec fn with_entry(e: Entries, key: Seq<char>, value: Seq<char>) -> Entries {
    if holds_key(e, key) {
        e.update(index_of_key(e, key), (key, value))
    } else {
        e.push((key, value))
    }
}

/// The mapping that `e` stands for, order forgotten.
pub open spec fn as_map(e: Entries) -> Map<Seq<char>, Seq<char>> {
    Map::new(|k: Seq<char>| holds_key(e, k), |k: Seq<char>| e[index_of_key(e, k)].1)
}

/// Writing an entry keeps the names unique.
pub proof fn lemma_with_entry_unique(e: Entries, key: Seq<char>, value: Seq<char>)
    requires
        keys_unique(e),
    ensures
        keys_unique(with_entry(e, key, value)),
{
}

/// Writing an entry is `insert` on the mapping: the last write wins, and
/// the other names keep their values.
pub proof fn lemma_with_entry_map(e: Entries, key: Seq<char>, value: Seq<char>)
    requires
        keys_unique(e),
    ensures
        as_map(with_entry(e, key, value)) == as_map(e).insert(key, value),
        value_of(with_entry(e, key, value), key) == Some(value),
        forall|other: Seq<char>|
            other != key ==> value_of(with_entry(e, key, value), other) == value_of(e, other),
{
    let w = with_entry(e, key, value);
    lemma_with_entry_unique(e, key, value);
    let at = if holds_key(e, key) {
        index_of_key(e, key)
    } else {
        e.len() as int
    };
    assert(w[at] == (key, value));
    assert(holds_key(w, key));
    assert forall|other: Seq<char>| other != key implies value_of(w, other) == value_of(
        e,
        other,
    ) by {
        if holds_key(e, other) {
            let i = index_of_key(e, other);
            assert(w[i] == e[i]);
            assert(holds_key(w, other));
            assert(index_of_key(w, other) == i);
        } else if holds_key(w, other) {
            let i = index_of_key(w, other);
            assert(e[i].0 == other);
        }
    }
    assert forall|k: Seq<char>| holds_key(w, k) <==> (k == key || holds_key(e, k)) by {
        if holds_key(e, k) && k != key {
            let i = index_of_key(e, k);
            assert(w[i] == e[i]);
        }
        if holds_key(w, k) && k != key {
            let i = index_of_key(w, k);
            assert(e[i].0 == k);
        }
    }
    assert(as_map(w) =~= as_map(e).insert(key, value));
}

/// With unique names, the mapping has as many names as there are entries.
pub proof fn lemma_map_len(e: Entries)
    requires
        keys_unique(e),
    ensures
        as_map(e).dom().finite(),
        as_map(e).dom().len() == e.len(),
    decreases e.len(),
{
    if e.len() == 0 {
        assert(as_map(e).dom() =~= Set::empty());
    } else {
        let front = e.drop_last();
        let last = e.last();
        lemma_map_len(front);
        assert(!holds_key(front, last.0)) by {
            if holds_key(front, last.0) {
                let i = index_of_key(front, last.0);
                assert(e[i].0 == e[e.len() - 1].0);
            }
        }
        assert forall|k: Seq<char>| holds_key(e, k) <==> (k == last.0 || holds_key(front, k)) by {
            if holds_key(front, k) {
                let i = index_of_key(front, k);
                assert(e[i] == front[i]);
            }
            if holds_key(e, k) && k != last.0 {
                let i = index_of_key(e, k);
                assert(front[i].0 == k);
            }
            if k == last.0 {
                assert(e[e.len() - 1].0 == k);
            }
        }
        assert(as_map(e).dom() =~= as_map(front).dom().insert(last.0));
    }
}

/// What a vector of owned pairs holds.
spec fn model(pairs: Seq<(String, String)>) -> Entries {
    Seq::new(pairs.len(), |i: int| (pairs[i].0@, pairs[i].1@))
}

/// Header fields. No name stands twice; a second write under a name
/// replaces the value and leaves the entry where it was.
#[derive(Debug)]
pub struct Headers {
    entries: Vec<(String, String)>,
}

impl View for Headers {
    type V = Map<Seq<char>, Seq<char>>;

    /// The mapping from name to value.
    open spec fn view(&self) -> Map<Seq<char>, Seq<char>> {
        as_map(self.entries())
    }
}

impl Headers {
    /// The entries in the order in which their names first came.
    pub closed spec fn entries(&self) -> Entries {
        model(self.entries@)
    }

    #[verifier::type_invariant]
    spec fn names_stand_once(&self) -> bool {
        keys_unique(self.entries())
    }

    /// No header fields.
    pub fn new() -> (headers: Headers)
        ensures
            headers.entries() == Entries::empty(),
            headers@ == Map::<Seq<char>, Seq<char>>::empty(),
    {
        let headers = Headers { entries: Vec::new() };
        assert(headers.entries() == Entries::empty());
        assert(headers@ == Map::<Seq<char>, Seq<char>>::empty());
        headers
    }

    /// The number of entries.
    pub fn len(&self) -> (n: usize)
        ensures
            n == self.entries().len(),
            keys_unique(self.entries()),
    {
        proof {
            use_type_invariant(self);
        }
        self.entries.len()
    }

    fn position(&self, key: &str) -> (at: Option<usize>)
        ensures
            keys_unique(self.entries()),
            match at {
                Some(i) => holds_key(self.entries(), key@) && i == index_of_key(
                    self.entries(),
                    key@,
                ) && i < self.entries().len(),
                None => !holds_key(self.entries(), key@),
            },
    {
        proof {
            use_type_invariant(self);
        }
        let mut i: usize = 0;
        while i < self.entries.len()
            invariant
                i <= self.entries@.len(),
                keys_unique(self.entries()),
                forall|j: int| 0 <= j < i ==> self.entries()[j].0 != key@,
            decreases self.entries@.len() - i,
        {
            if str_eq(self.entries[i].0.as_str(), key) {
                assert(self.entries()[i as int].0 == key@);
                return Some(i);
            }
            i = i + 1;
        }
        None
    }

    /// The value that stands under `key`.
    pub fn get(&self, key: &str) -> (value: Option<&str>)
        ensures
            value is Some <==> self@.dom().contains(key@),
            value matches Some(v) ==> v@ == self@[key@],
            value_of(self.entries(), key@) == (match value {
                Some(v) => Some(v@),
                None => None,
            }),
    {
        match self.position(key) {
            Some(i) => Some(self.entries[i].1.as_str()),
            None => None,
        }
    }

    /// The name and the value of the entry at place `i`.
    pub fn entry(&self, i: usize) -> (pair: (&str, &str))
        requires
            i < self.entries().len(),
        ensures
            (pair.0@, pair.1@) == self.entries()[i as int],
    {
        (self.entries[i].0.as_str(), self.entries[i].1.as_str())
    }

    /// Writes `value` under `key`. A name that is there already keeps its
    /// place and takes the new value; a new name goes to the end.
    pub fn insert_owned(&mut self, key: String, value: String)
        ensures
            final(self).entries() == with_entry(old(self).entries(), key@, value@),
            final(self)@ == old(self)@.insert(key@, value@),
    {
        let at = self.position(key.as_str());
        proof {
            lemma_with_entry_unique(self.entries(), key@, value@);
            lemma_with_entry_map(self.entries(), key@, value@);
        }
        let mut entries: Vec<(String, String)> = Vec::new();
        core::mem::swap(&mut self.entries, &mut entries);
        match at {
            Some(i) => {
                entries[i] = (key, value);
            },
            None => {
                entries.push((key, value));
            },
        }
        assert(model(entries@) == with_entry(old(self).entries(), key@, value@));
        self.entries = entries;
    }

    /// Writes `value` under `key`, as `insert_owned` does.
    pub fn insert(&mut self, key: &str, value: &str)
        ensures
            final(self).entries() == with_entry(old(self).entries(), key@, value@),
            final(self)@ == old(self)@.insert(key@, value@),
    {
        self.insert_owned(String::from_str(key), String::from_str(value));
    }
}

impl PartialEq for Headers {
    /// Whether both stand for the same mapping, whatever the order.
    fn eq(&self, other: &Headers) -> (same: bool) {
        proof {
            use_type_invariant(self);
            use_type_invariant(other);
            lemma_map_len(self.entries());
            lemma_map_len(other.entries());
        }
        if self.entries.len() != other.entries.len() {
            return false;
        }
        let mut i: usize = 0;
        while i < self.entries.len()
            invariant
                i <= self.entries@.len(),
                keys_unique(self.entries()),
                forall|j: int|
                    0 <= j < i ==> value_of(other.entries(), self.entries()[j].0) == Some(
                        self.entries()[j].1,
                    ),
            decreases self.entries@.len() - i,
        {
            let ghost key = self.entries()[i as int].0;
            assert(holds_key(self.entries(), key) && index_of_key(self.entries(), key) == i);
            match other.get(self.entries[i].0.as_str()) {
                Some(value) => {
                    if !str_eq(value, self.entries[i].1.as_str()) {
                        assert(self@[key] != other@[key]);
                        return false;
                    }
                },
                None => {
                    assert(self@.dom().contains(key) && !other@.dom().contains(key));
                    return false;
                },
            }
            i = i + 1;
        }
        proof {
            let a = self.entries();
            let b = other.entries();
            assert forall|k: Seq<char>| self@.dom().contains(k) implies other@.dom().contains(k)
                && other@[k] == self@[k] by {
                let j = index_of_key(a, k);
                assert(value_of(b, a[j].0) == Some(a[j].1));
            }
            assert(self@.dom().subset_of(other@.dom()));
            lemma_subset_equality(self@.dom(), other@.dom());
            assert(self@ =~= other@);
        }
        true
    }
}

impl PartialEqSpecImpl for Headers {
    open spec fn obeys_eq_spec() -> bool {
        true
    }

    /// Equal header fields stand for the same mapping.
    open spec fn eq_spec(&self, other: &Headers) -> bool {
        self@ == other@
    }
}

impl Clone for Headers {
    /// A copy with the same entries in the same order.
    fn clone(&self) -> (copy: Headers)
        ensures
            copy.entries() == self.entries(),
    {
        proof {
            use_type_invariant(self);
        }
        let mut entries: Vec<(String, String)> = Vec::new();
        let mut i: usize = 0;
        while i < self.entries.len()
            invariant
                i <= self.entries@.len(),
                entries@.len() == i,
                forall|j: int|
                    0 <= j < i ==> entries@[j].0@ == self.entries@[j].0@ && entries@[j].1@
                        == self.entries@[j].1@,
            decreases self.entries@.len() - i,
        {
            entries.push((self.entries[i].0.clone(), self.entries[i].1.clone()));
            i = i + 1;
        }
        assert(model(entries@) == self.entries());
        Headers { entries }
    }
}

} // verus!
