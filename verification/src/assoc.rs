//! Small maps that keep their entries in the order in which the keys came.
//!
//! The keys are strings and colours. vstd specifies the hash maps of the
//! standard library only for keys that obey its key model, which it grants
//! to the primitive integers and `bool`, so nothing could be proved of a
//! hash map with these keys. The entries are kept in a vector instead, and
//! what a hash map would give, one value for each key, is the invariant of
//! the list.

use vstd::prelude::*;

verus! {

/// A key of an [`AssocList`]: something that can be compared and copied.
pub trait Key: Sized {
    /// What two keys have in common if and only if they are the same key.
    type Id;

    /// The identity of the key.
    spec fn id(&self) -> Self::Id;

    /// Returns whether the two are the same key.
    fn same(&self, other: &Self) -> (r: bool)
        ensures
            r == (self.id() == other.id()),
    ;

    /// Returns a copy of the key.
    fn copy(&self) -> (r: Self)
        ensures
            r == *self,
    ;
}

impl Key for String {
    type Id = Seq<char>;

    open spec fn id(&self) -> Seq<char> {
        self@
    }

    fn same(&self, other: &String) -> (r: bool) {
        *self == *other
    }

    fn copy(&self) -> (r: String) {
        self.clone()
    }
}

/// Whether `at` is the first position of `entries` that holds `key`.
pub open spec fn is_first<I, V>(entries: Seq<(I, V)>, key: I, at: int) -> bool {
    &&& 0 <= at < entries.len()
    &&& entries[at].0 == key
    &&& forall|j: int| 0 <= j < at ==> (#[trigger] entries[j]).0 != key
}

/// Whether some entry holds `key`.
pub open spec fn spec_has<I, V>(entries: Seq<(I, V)>, key: I) -> bool {
    exists|at: int| is_first(entries, key, at)
}

/// The first position that holds `key`.
pub open spec fn spec_position<I, V>(entries: Seq<(I, V)>, key: I) -> int {
    choose|at: int| is_first(entries, key, at)
}

/// The value under `key`, if there is one.
pub open spec fn spec_get<I, V>(entries: Seq<(I, V)>, key: I) -> Option<V> {
    if spec_has(entries, key) {
        Some(entries[spec_position(entries, key)].1)
    } else {
        None
    }
}

/// The entries after `value` has been put under `key`: in place of the value
/// that was there, or at the end if the key is new.
pub open spec fn spec_put<I, V>(entries: Seq<(I, V)>, key: I, value: V) -> Seq<(I, V)> {
    if spec_has(entries, key) {
        entries.update(spec_position(entries, key), (key, value))
    } else {
        entries.push((key, value))
    }
}

/// The first position that holds a key is the only one that is first.
pub proof fn lemma_first_is_unique<I, V>(entries: Seq<(I, V)>, key: I, at: int)
    requires
        is_first(entries, key, at),
    ensures
        spec_has(entries, key),
        spec_position(entries, key) == at,
{
    let chosen = spec_position(entries, key);
    assert(is_first(entries, key, chosen));
    if chosen < at {
        assert(entries[chosen].0 != key);
    }
    if at < chosen {
        assert(entries[at].0 != key);
    }
}

/// Map from keys to values that keeps the order in which the keys came.
pub struct AssocList<K: Key, V> {
    /// The entries, in the order in which their keys came.
    pub entries: Vec<(K, V)>,
}

impl<K: Key, V> AssocList<K, V> {
    /// The entries, each key by its identity.
    pub open spec fn view(&self) -> Seq<(K::Id, V)> {
        Seq::new(self.entries@.len(), |i: int| (self.entries@[i].0.id(), self.entries@[i].1))
    }

    /// Creates an empty map.
    pub fn new() -> (map: AssocList<K, V>)
        ensures
            map@ == Seq::<(K::Id, V)>::empty(),
    {
        let map = AssocList { entries: Vec::new() };
        assert(map@ =~= Seq::<(K::Id, V)>::empty());
        map
    }

    /// Returns the number of entries.
    pub fn len(&self) -> (n: usize)
        ensures
            n == self@.len(),
    {
        self.entries.len()
    }

    /// Returns the first position that holds `key`, if there is one.
    pub fn position(&self, key: &K) -> (at: Option<usize>)
        ensures
            match at {
                Some(at) => is_first(self@, key.id(), at as int),
                None => !spec_has(self@, key.id()),
            },
    {
        let mut i: usize = 0;
        while i < self.entries.len()
            invariant
                i <= self.entries.len(),
                forall|j: int| 0 <= j < i ==> (#[trigger] self@[j]).0 != key.id(),
            decreases self.entries.len() - i,
        {
            if self.entries[i].0.same(key) {
                return Some(i);
            }
            i += 1;
        }
        proof {
            if spec_has(self@, key.id()) {
                let at = spec_position(self@, key.id());
                assert(is_first(self@, key.id(), at));
                assert(self@[at].0 != key.id());
            }
        }
        None
    }

    /// Returns the value under `key`, if there is one.
    pub fn get(&self, key: &K) -> (value: Option<&V>)
        ensures
            match value {
                Some(value) => spec_get(self@, key.id()) == Some(*value),
                None => spec_get(self@, key.id()) is None,
            },
    {
        match self.position(key) {
            Some(at) => {
                proof {
                    lemma_first_is_unique(self@, key.id(), at as int);
                }
                Some(&self.entries[at].1)
            },
            None => None,
        }
    }

    /// Puts `value` under `key`: in place of the value that was there, which
    /// is returned, or at the end if the key is new.
    pub fn insert(&mut self, key: K, value: V) -> (previous: Option<V>)
        ensures
            final(self)@ == spec_put(old(self)@, key.id(), value),
            previous == spec_get(old(self)@, key.id()),
    {
        match self.position(&key) {
            Some(at) => {
                proof {
                    lemma_first_is_unique(self@, key.id(), at as int);
                }
                let previous = self.entries.remove(at);
                self.entries.insert(at, (key, value));
                assert(self@ =~= spec_put(old(self)@, key.id(), value));
                Some(previous.1)
            },
            None => {
                self.entries.push((key, value));
                assert(self@ =~= spec_put(old(self)@, key.id(), value));
                None
            },
        }
    }
}

} // verus!
