use vstd::prelude::*;
use vstd::string::*;

use crate::error::Error;
use crate::value::{spells, Model, Value};

verus! {

broadcast use vstd::std_specs::vec::group_vec_axioms, vstd::seq::group_seq_axioms;

/// The state of one imported file: still being read and parsed, or done
/// with its value.
pub enum Slot {
    Loading,
    Ready(Value),
}

/// The mathematical form of the cache: for each canonical path, `None`
/// while its import is in flight, else the model of its value.
pub type CacheModel = Map<Seq<char>, Option<Model>>;

/// What a lookup of `path` gives: `None` where the caller is to load it,
/// else the value to use, which is nil while the path is still in flight.
pub open spec fn begin_result(m: CacheModel, path: Seq<char>) -> Option<Model> {
    if m.contains_key(path) {
        match m[path] {
            Some(v) => Some(v),
            None => Some(Model::Nil),
        }
    } else {
        None
    }
}

/// The cache after a lookup of `path`: unchanged where the path is known,
/// else with the path marked in flight.
pub open spec fn begin_state(m: CacheModel, path: Seq<char>) -> CacheModel {
    if m.contains_key(path) {
        m
    } else {
        m.insert(path, None)
    }
}

/// A lookup of a path whose import is in flight gives nil, and so a file
/// that imports itself, directly or through others, sees nil there rather
/// than recursing.
pub proof fn lemma_cycle_gives_nil(m: CacheModel, path: Seq<char>)
    requires
        !m.contains_key(path),
    ensures
        begin_result(begin_state(m, path), path) == Some(Model::Nil),
        begin_state(begin_state(m, path), path) == begin_state(m, path),
{
}

/// Once a path's import is done, every lookup of it gives its value and
/// leaves the cache as it was, so two imports of one file get equal values,
/// each a copy of its own.
pub proof fn lemma_lookups_repeat(m: CacheModel, path: Seq<char>, v: Model)
    ensures
        begin_result(m.insert(path, Some(v)), path) == Some(v),
        begin_state(m.insert(path, Some(v)), path) == m.insert(path, Some(v)),
        begin_result(begin_state(m.insert(path, Some(v)), path), path) == Some(v),
{
}

/// The value an import gives: the parsed value, or nil where reading
/// (`None`) or parsing the file failed.
pub fn import_value(loaded: Option<Result<Value, Error>>) -> (r: Value)
    ensures
        r@ == match loaded {
            Some(Ok(v)) => v@,
            _ => Model::Nil,
        },
{
    match loaded {
        Some(Ok(v)) => v,
        _ => Value::Nil,
    }
}

/// The imports of one engine, keyed by canonical path. Entries are never
/// removed.
pub struct ImportCache {
    entries: Vec<(String, Slot)>,
}

impl ImportCache {
    /// Paths are unique among the entries.
    pub closed spec fn wf(&self) -> bool {
        forall|i: int, j: int|
            0 <= i < j < self.entries@.len() ==> self.entries@[i].0@ != self.entries@[j].0@
    }

    pub closed spec fn view(&self) -> CacheModel {
        Map::new(
            |k: Seq<char>| exists|i: int| 0 <= i < self.entries@.len() && #[trigger] self.entries@[i].0@ == k,
            |k: Seq<char>| {
                let i = choose|i: int| 0 <= i < self.entries@.len() && #[trigger] self.entries@[i].0@ == k;
                match self.entries@[i].1 {
                    Slot::Loading => None,
                    Slot::Ready(v) => Some(v@),
                }
            },
        )
    }

    /// An empty cache.
    pub fn new() -> (r: ImportCache)
        ensures
            r.wf(),
            r@ == Map::<Seq<char>, Option<Model>>::empty(),
    {
        let r = ImportCache { entries: Vec::new() };
        assert(r@ =~= Map::<Seq<char>, Option<Model>>::empty());
        r
    }

    fn find(&self, path: &str) -> (r: Option<usize>)
        requires
            self.wf(),
        ensures
            match r {
                Some(i) => i < self.entries@.len() && self.entries@[i as int].0@ == path@,
                None => !self@.contains_key(path@),
            },
    {
        let mut i: usize = 0;
        while i < self.entries.len()
            invariant
                i <= self.entries@.len(),
                forall|j: int| 0 <= j < i ==> self.entries@[j].0@ != path@,
            decreases self.entries@.len() - i,
        {
            if spells(self.entries[i].0.as_str(), path) {
                return Some(i);
            }
            i = i + 1;
        }
        None
    }

    /// Looks `path` up. Where it is known, gives a copy of its value, or nil
    /// while its import is in flight. Where it is not, marks it in flight and
    /// gives `None`: the caller reads and parses the file, then calls
    /// [`ImportCache::finish`].
    pub fn begin(&mut self, path: &str) -> (r: Option<Value>)
        requires
            old(self).wf(),
        ensures
            final(self).wf(),
            final(self)@ == begin_state(old(self)@, path@),
            match begin_result(old(self)@, path@) {
                Some(v) => r is Some && r->Some_0@ == v,
                None => r is None,
            },
    {
        match self.find(path) {
            Some(i) => {
                proof {
                    assert(self@.contains_key(path@));
                    let j = choose|j: int| 0 <= j < self.entries@.len() && #[trigger] self.entries@[j].0@ == path@;
                    assert(j == i);
                }
                match &self.entries[i].1 {
                    Slot::Loading => Some(Value::Nil),
                    Slot::Ready(v) => Some(v.duplicate()),
                }
            },
            None => {
                let ghost before = self@;
                self.entries.push((String::from_str(path), Slot::Loading));
                proof {
                    let n = self.entries@.len() - 1;
                    assert(self.entries@[n].0@ == path@);
                    assert forall|k: Seq<char>| #[trigger] self@.contains_key(k) == before.insert(path@, None).contains_key(k) by {
                        if before.contains_key(k) {
                            let j = choose|j: int| 0 <= j < old(self).entries@.len() && #[trigger] old(self).entries@[j].0@ == k;
                            assert(self.entries@[j] == old(self).entries@[j]);
                        }
                        if self@.contains_key(k) && k != path@ {
                            let j = choose|j: int| 0 <= j < self.entries@.len() && #[trigger] self.entries@[j].0@ == k;
                            assert(j < n);
                        }
                    }
                    assert forall|k: Seq<char>| #[trigger] self@.contains_key(k) implies self@[k] == before.insert(path@, None)[k] by {
                        let j = choose|j: int| 0 <= j < self.entries@.len() && #[trigger] self.entries@[j].0@ == k;
                        if k != path@ {
                            let j0 = choose|j: int| 0 <= j < n && #[trigger] self.entries@[j].0@ == k;
                            assert(j == j0);
                        } else {
                            assert(j == n);
                        }
                    }
                    assert(self@ =~= before.insert(path@, None));
                }
                None
            },
        }
    }

    /// Records the value of an import of `path` that [`ImportCache::begin`]
    /// put in flight.
    pub fn finish(&mut self, path: &str, value: Value)
        requires
            old(self).wf(),
        ensures
            final(self).wf(),
            final(self)@ == old(self)@.insert(path@, Some(value@)),
    {
        let ghost before = self@;
        let ghost v = value@;
        match self.find(path) {
            Some(i) => {
                self.entries.set(i, (String::from_str(path), Slot::Ready(value)));
                proof {
                    assert forall|k: Seq<char>| #[trigger] self@.contains_key(k) == before.insert(path@, Some(v)).contains_key(k) by {
                        if before.contains_key(k) && k != path@ {
                            let j = choose|j: int| 0 <= j < self.entries@.len() && #[trigger] old(self).entries@[j].0@ == k;
                            assert(self.entries@[j].0@ == k);
                        }
                        if k == path@ {
                            assert(self.entries@[i as int].0@ == k);
                        }
                        if self@.contains_key(k) && k != path@ {
                            let j = choose|j: int| 0 <= j < self.entries@.len() && #[trigger] self.entries@[j].0@ == k;
                            assert(old(self).entries@[j].0@ == k);
                        }
                    }
                    assert forall|k: Seq<char>| #[trigger] self@.contains_key(k) implies self@[k] == before.insert(path@, Some(v))[k] by {
                        let j = choose|j: int| 0 <= j < self.entries@.len() && #[trigger] self.entries@[j].0@ == k;
                        if k != path@ {
                            assert(j != i);
                            assert(old(self).entries@[j].0@ == k);
                            let j0 = choose|j: int| 0 <= j < old(self).entries@.len() && #[trigger] old(self).entries@[j].0@ == k;
                            assert(j == j0);
                        } else {
                            assert(j == i);
                        }
                    }
                    assert(self@ =~= before.insert(path@, Some(v)));
                }
            },
            None => {
                self.entries.push((String::from_str(path), Slot::Ready(value)));
                proof {
                    let n = self.entries@.len() - 1;
                    assert(self.entries@[n].0@ == path@);
                    assert forall|k: Seq<char>| #[trigger] self@.contains_key(k) == before.insert(path@, Some(v)).contains_key(k) by {
                        if before.contains_key(k) {
                            let j = choose|j: int| 0 <= j < old(self).entries@.len() && #[trigger] old(self).entries@[j].0@ == k;
                            assert(self.entries@[j] == old(self).entries@[j]);
                        }
                        if self@.contains_key(k) && k != path@ {
                            let j = choose|j: int| 0 <= j < self.entries@.len() && #[trigger] self.entries@[j].0@ == k;
                            assert(j < n);
                        }
                    }
                    assert forall|k: Seq<char>| #[trigger] self@.contains_key(k) implies self@[k] == before.insert(path@, Some(v))[k] by {
                        let j = choose|j: int| 0 <= j < self.entries@.len() && #[trigger] self.entries@[j].0@ == k;
                        if k != path@ {
                            let j0 = choose|j: int| 0 <= j < n && #[trigger] self.entries@[j].0@ == k;
                            assert(j == j0);
                        } else {
                            assert(j == n);
                        }
                    }
                    assert(self@ =~= before.insert(path@, Some(v)));
                }
            },
        }
    }
}

} // verus!
