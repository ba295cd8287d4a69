//! A map from strings, in which no key occurs twice.

use crate::text;
use vstd::prelude::*;

verus! {

/// Values by name. The entries stand in the order in which their keys came in.
pub struct StringMap<T> {
    entries: Vec<(String, T)>,
}

spec fn at<T>(entries: Seq<(String, T)>, key: Seq<char>, i: int) -> bool {
    0 <= i < entries.len() && entries[i].0@ == key
}

spec fn distinct<T>(entries: Seq<(String, T)>) -> bool {
    forall|i: int, j: int|
        0 <= i < j < entries.len() ==> (#[trigger] entries[i]).0@ != (#[trigger] entries[j]).0@
}

spec fn contents<T: DeepView>(entries: Seq<(String, T)>) -> Map<Seq<char>, T::V> {
    Map::new(
        |key: Seq<char>| exists|i: int| at(entries, key, i),
        |key: Seq<char>| entries[choose|i: int| at(entries, key, i)].1.deep_view(),
    )
}

proof fn lemma_at<T: DeepView>(entries: Seq<(String, T)>, i: int)
    requires
        distinct(entries),
        0 <= i < entries.len(),
    ensures
        contents(entries).contains_key(entries[i].0@),
        contents(entries)[entries[i].0@] == entries[i].1.deep_view(),
{
    let key = entries[i].0@;
    assert(at(entries, key, i));
    let j = choose|j: int| at(entries, key, j);
    assert(at(entries, key, j));
    assert(entries[i].0@ == entries[j].0@);
}

proof fn lemma_push<T: DeepView>(entries: Seq<(String, T)>, entry: (String, T))
    requires
        distinct(entries),
        !contents(entries).contains_key(entry.0@),
    ensures
        distinct(entries.push(entry)),
        contents(entries.push(entry)) == contents(entries).insert(entry.0@, entry.1.deep_view()),
{
    let all = entries.push(entry);
    assert forall|i: int| 0 <= i < entries.len() implies entries[i].0@ != entry.0@ by {
        lemma_at(entries, i);
    }
    assert(distinct(all));
    let grown = contents(entries).insert(entry.0@, entry.1.deep_view());
    assert forall|key: Seq<char>| #[trigger]
        contents(all).contains_key(key) == grown.contains_key(key) && (grown.contains_key(key)
            ==> contents(all)[key] == grown[key]) by {
        if contents(all).contains_key(key) {
            let i = choose|i: int| at(all, key, i);
            lemma_at(all, i);
            if i < entries.len() {
                lemma_at(entries, i);
            }
        } else if contents(entries).contains_key(key) {
            let i = choose|i: int| at(entries, key, i);
            assert(at(all, key, i));
        } else {
            assert(at(all, entry.0@, entries.len() as int));
        }
    }
    assert(contents(all) =~= grown);
}

proof fn lemma_remove<T: DeepView>(entries: Seq<(String, T)>, n: int)
    requires
        distinct(entries),
        0 <= n < entries.len(),
    ensures
        distinct(entries.remove(n)),
        contents(entries.remove(n)) == contents(entries).remove(entries[n].0@),
{
    let rest = entries.remove(n);
    assert forall|i: int| 0 <= i < rest.len() implies #[trigger] rest[i] == entries[if i < n {
        i
    } else {
        i + 1
    }] by {}
    assert(distinct(rest));
    let shrunk = contents(entries).remove(entries[n].0@);
    assert forall|key: Seq<char>| #[trigger]
        contents(rest).contains_key(key) == shrunk.contains_key(key) && (shrunk.contains_key(key)
            ==> contents(rest)[key] == shrunk[key]) by {
        if contents(rest).contains_key(key) {
            let i = choose|i: int| at(rest, key, i);
            let j = if i < n {
                i
            } else {
                i + 1
            };
            assert(rest[i] == entries[j]);
            lemma_at(rest, i);
            lemma_at(entries, j);
        } else if shrunk.contains_key(key) {
            let j = choose|j: int| at(entries, key, j);
            let i = if j < n {
                j
            } else {
                j - 1
            };
            assert(rest[i] == entries[j]);
            assert(at(rest, key, i));
        }
    }
    assert(contents(rest) =~= shrunk);
}

proof fn lemma_update<T: DeepView>(entries: Seq<(String, T)>, n: int, entry: (String, T))
    requires
        distinct(entries),
        at(entries, entry.0@, n),
    ensures
        distinct(entries.update(n, entry)),
        contents(entries.update(n, entry)) == contents(entries).insert(
            entry.0@,
            entry.1.deep_view(),
        ),
{
    let all = entries.update(n, entry);
    assert(distinct(all));
    let changed = contents(entries).insert(entry.0@, entry.1.deep_view());
    assert forall|key: Seq<char>| #[trigger]
        contents(all).contains_key(key) == changed.contains_key(key) && (changed.contains_key(key)
            ==> contents(all)[key] == changed[key]) by {
        assert(forall|i: int| at(all, key, i) == at(entries, key, i));
        if contents(all).contains_key(key) {
            let i = choose|i: int| at(all, key, i);
            assert(at(entries, key, i));
            lemma_at(all, i);
            lemma_at(entries, i);
        } else if key == entry.0@ {
            assert(at(all, key, n));
        } else if contents(entries).contains_key(key) {
            let i = choose|i: int| at(entries, key, i);
            assert(at(all, key, i));
        }
    }
    assert(contents(all) =~= changed);
}

proof fn lemma_keys<T: DeepView>(entries: Seq<(String, T)>)
    requires
        distinct(entries),
    ensures
        entries.map_values(|e: (String, T)| e.0@).no_duplicates(),
        forall|key: Seq<char>| #[trigger]
            contents(entries).contains_key(key) <==> entries.map_values(
                |e: (String, T)| e.0@,
            ).contains(key),
{
    let keys = entries.map_values(|e: (String, T)| e.0@);
    assert forall|key: Seq<char>| #[trigger]
        contents(entries).contains_key(key) <==> keys.contains(key) by {
        if contents(entries).contains_key(key) {
            let i = choose|i: int| at(entries, key, i);
            assert(keys[i] == key);
        }
        if keys.contains(key) {
            let i = choose|i: int| 0 <= i < keys.len() && keys[i] == key;
            assert(at(entries, key, i));
        }
    }
}

proof fn lemma_finite<T: DeepView>(entries: Seq<(String, T)>)
    requires
        distinct(entries),
    ensures
        contents(entries).dom().finite(),
        contents(entries).len() == entries.len(),
    decreases entries.len(),
{
    if entries.len() == 0 {
        assert(contents(entries).dom() =~= Set::empty());
    } else {
        let n = entries.len() - 1;
        lemma_remove(entries, n);
        lemma_finite(entries.remove(n));
        lemma_at(entries, n);
        assert(contents(entries).dom() =~= contents(entries.remove(n)).dom().insert(
            entries[n].0@,
        ));
    }
}

impl<T: DeepView> View for StringMap<T> {
    type V = Map<Seq<char>, T::V>;

    closed spec fn view(&self) -> Map<Seq<char>, T::V> {
        contents(self.entries@)
    }
}

impl<T> StringMap<T> {
    #[verifier::type_invariant]
    spec fn no_key_twice(self) -> bool {
        distinct(self.entries@)
    }
}

impl<T: DeepView> StringMap<T> {
    /// The keys, in the order in which the entries stand.
    pub closed spec fn key_list(self) -> Seq<Seq<char>> {
        self.entries@.map_values(|e: (String, T)| e.0@)
    }

    /// An empty map.
    pub fn new() -> (r: StringMap<T>)
        ensures
            r@ == Map::<Seq<char>, T::V>::empty(),
            r.key_list().len() == 0,
    {
        let r = StringMap { entries: Vec::new() };
        assert(r@ =~= Map::<Seq<char>, T::V>::empty());
        r
    }

    fn position(&self, key: &str) -> (r: Option<usize>)
        ensures
            match r {
                Some(i) => at(self.entries@, key@, i as int),
                None => !self@.contains_key(key@),
            },
    {
        let mut i: usize = 0;
        while i < self.entries.len()
            invariant
                i <= self.entries.len(),
                forall|j: int| 0 <= j < i ==> self.entries@[j].0@ != key@,
            decreases self.entries.len() - i,
        {
            if text::same_text(self.entries[i].0.as_str(), key) {
                return Some(i);
            }
            i += 1;
        }
        assert(forall|j: int| !at(self.entries@, key@, j));
        None
    }

    /// The value that has the given key.
    pub fn get(&self, key: &str) -> (r: Option<&T>)
        ensures
            match r {
                Some(value) => self@.contains_key(key@) && self@[key@] == value.deep_view(),
                None => !self@.contains_key(key@),
            },
    {
        proof {
            use_type_invariant(self);
        }
        match self.position(key) {
            Some(i) => {
                proof {
                    lemma_at(self.entries@, i as int);
                }
                Some(&self.entries[i].1)
            },
            None => None,
        }
    }

    /// Takes out the entry that has the given key, and says whether there was one.
    pub fn remove(&mut self, key: &str) -> (r: bool)
        ensures
            r == old(self)@.contains_key(key@),
            final(self)@ == old(self)@.remove(key@),
    {
        proof {
            use_type_invariant(&*self);
        }
        match self.position(key) {
            Some(i) => {
                let mut entries: Vec<(String, T)> = Vec::new();
                std::mem::swap(&mut entries, &mut self.entries);
                proof {
                    lemma_at(entries@, i as int);
                    lemma_remove(entries@, i as int);
                }
                let _ = entries.remove(i);
                self.entries = entries;
                true
            },
            None => {
                assert(self@.remove(key@) =~= self@);
                false
            },
        }
    }

    /// Puts a value under a key, in place of the one that was there.
    pub fn insert(&mut self, key: String, value: T)
        ensures
            final(self)@ == old(self)@.insert(key@, value.deep_view()),
    {
        proof {
            use_type_invariant(&*self);
        }
        let place = self.position(key.as_str());
        let mut entries: Vec<(String, T)> = Vec::new();
        std::mem::swap(&mut entries, &mut self.entries);
        match place {
            Some(i) => {
                proof {
                    lemma_update(entries@, i as int, (key, value));
                }
                entries.set(i, (key, value));
            },
            None => {
                proof {
                    lemma_push(entries@, (key, value));
                }
                entries.push((key, value));
            },
        }
        self.entries = entries;
    }

    /// The number of entries.
    pub fn len(&self) -> (r: usize)
        ensures
            r == self@.len(),
            r == self.key_list().len(),
            self@.dom().finite(),
            self.key_list().no_duplicates(),
            forall|key: Seq<char>| #[trigger]
                self@.contains_key(key) <==> self.key_list().contains(key),
    {
        proof {
            use_type_invariant(self);
            lemma_keys(self.entries@);
            lemma_finite(self.entries@);
        }
        self.entries.len()
    }

    /// The entry at a place in the order of the entries.
    pub fn entry(&self, i: usize) -> (r: (&str, &T))
        requires
            i < self.key_list().len(),
        ensures
            r.0@ == self.key_list()[i as int],
            self@.contains_key(r.0@),
            self@[r.0@] == r.1.deep_view(),
    {
        proof {
            use_type_invariant(self);
            lemma_at(self.entries@, i as int);
        }
        (self.entries[i].0.as_str(), &self.entries[i].1)
    }
}

} // verus!
