//! A bounded cache of open files, least recently used out first.

use crate::file::{WhisperFile, WhisperFileView};
use lru_cache::LruCache;
use std::hash::{BuildHasher, Hash};
use vstd::prelude::*;

verus! {

/// `lru_cache::LruCache`, taken as it is: nothing inside it is visible here.
#[verifier::external_type_specification]
#[verifier::external_body]
#[verifier::reject_recursive_types(K)]
#[verifier::reject_recursive_types(V)]
#[verifier::reject_recursive_types(S)]
pub struct ExLruCache<K: Eq + Hash, V, S: BuildHasher>(LruCache<K, V, S>);

/// What an `LruCache` of files holds: each path with its file, the least recently
/// used first.
pub uninterp spec fn lru_entries(c: LruCache<String, WhisperFile>) -> Seq<
    (Seq<char>, WhisperFileView),
>;

/// The capacity that an `LruCache` of files was made with.
pub uninterp spec fn lru_capacity(c: LruCache<String, WhisperFile>) -> nat;

/// Whether `entries` has an entry for `path`.
pub open spec fn holds(entries: Seq<(Seq<char>, WhisperFileView)>, path: Seq<char>) -> bool {
    exists|i: int| 0 <= i < entries.len() && (#[trigger] entries[i]).0 == path
}

/// Where the entry for `path` stands in `entries`, if there is one.
pub open spec fn place_of(entries: Seq<(Seq<char>, WhisperFileView)>, path: Seq<char>) -> int {
    choose|i: int| 0 <= i < entries.len() && (#[trigger] entries[i]).0 == path
}

/// `entries` without the entry for `path`.
pub open spec fn without(entries: Seq<(Seq<char>, WhisperFileView)>, path: Seq<char>) -> Seq<
    (Seq<char>, WhisperFileView),
> {
    if holds(entries, path) {
        entries.remove(place_of(entries, path))
    } else {
        entries
    }
}

/// No path has two entries.
pub open spec fn distinct_paths(entries: Seq<(Seq<char>, WhisperFileView)>) -> bool {
    forall|i: int, j: int|
        0 <= i < j < entries.len() ==> (#[trigger] entries[i]).0 != (#[trigger] entries[j]).0
}

/// `lru_cache::LruCache::new`: an empty cache of the given capacity.
#[verifier::external_body]
fn lru_new(capacity: usize) -> (c: LruCache<String, WhisperFile>)
    ensures
        lru_entries(c).len() == 0,
        lru_capacity(c) == capacity,
{
    LruCache::new(capacity)
}

/// `lru_cache::LruCache::len`: how many entries the cache holds.
#[verifier::external_body]
fn lru_len(c: &LruCache<String, WhisperFile>) -> (n: usize)
    ensures
        n == lru_entries(*c).len(),
{
    c.len()
}

/// `lru_cache::LruCache::capacity`: the capacity that the cache was made with.
#[verifier::external_body]
fn lru_limit(c: &LruCache<String, WhisperFile>) -> (n: usize)
    ensures
        n == lru_capacity(*c),
{
    c.capacity()
}

/// `lru_cache::LruCache::get_mut`: the file kept for `path`, to read or change;
/// the entry becomes the most recently used one. With no entry for `path` the
/// cache stays as it is. The call does not panic.
#[verifier::external_body]
fn lru_get_mut<'a>(c: &'a mut LruCache<String, WhisperFile>, path: &str) -> (r: Option<
    &'a mut WhisperFile,
>)
    ensures
        lru_capacity(*final(c)) == lru_capacity(*old(c)),
        match r {
            Some(file) => {
                &&& holds(lru_entries(*old(c)), path@)
                &&& file@ == lru_entries(*old(c))[place_of(lru_entries(*old(c)), path@)].1
                &&& lru_entries(*final(c)) == without(lru_entries(*old(c)), path@).push(
                    (path@, final(file)@),
                )
            },
            None => !holds(lru_entries(*old(c)), path@) && lru_entries(*final(c)) == lru_entries(
                *old(c),
            ),
        },
    no_unwind
{
    c.get_mut(path)
}

/// `lru_cache::LruCache::remove`: takes the entry for `path` out of the cache and
/// hands back its file; the other entries keep their order. With no entry for
/// `path` the cache stays as it is. The call does not panic.
#[verifier::external_body]
fn lru_remove(c: &mut LruCache<String, WhisperFile>, path: &str) -> (r: Option<WhisperFile>)
    ensures
        lru_capacity(*final(c)) == lru_capacity(*old(c)),
        lru_entries(*final(c)) == without(lru_entries(*old(c)), path@),
        match r {
            Some(file) => {
                &&& holds(lru_entries(*old(c)), path@)
                &&& file@ == lru_entries(*old(c))[place_of(lru_entries(*old(c)), path@)].1
            },
            None => !holds(lru_entries(*old(c)), path@),
        },
    no_unwind
{
    c.remove(path)
}

/// `lru_cache::LruCache::remove_lru`: takes the least recently used entry out of
/// the cache and hands it back; `None` from an empty cache. The call does not
/// panic.
#[verifier::external_body]
fn lru_remove_lru(c: &mut LruCache<String, WhisperFile>) -> (r: Option<(String, WhisperFile)>)
    ensures
        lru_capacity(*final(c)) == lru_capacity(*old(c)),
        match r {
            Some(entry) => {
                &&& lru_entries(*old(c)).len() > 0
                &&& (entry.0@, entry.1@) == lru_entries(*old(c))[0]
                &&& lru_entries(*final(c)) == lru_entries(*old(c)).drop_first()
            },
            None => lru_entries(*old(c)).len() == 0 && lru_entries(*final(c)).len() == 0,
        },
    no_unwind
{
    c.remove_lru()
}

/// `lru_cache::LruCache::insert` of a path that has no entry, into a cache with
/// room left: the new entry becomes the most recently used one, and no entry
/// leaves. The call does not panic.
#[verifier::external_body]
fn lru_insert(c: &mut LruCache<String, WhisperFile>, path: String, file: WhisperFile)
    requires
        !holds(lru_entries(*old(c)), path@),
        lru_entries(*old(c)).len() < lru_capacity(*old(c)),
    ensures
        lru_capacity(*final(c)) == lru_capacity(*old(c)),
        lru_entries(*final(c)) == lru_entries(*old(c)).push((path@, file@)),
    no_unwind
{
    c.insert(path, file);
}

/// The entries of a cache of capacity `capacity` after `file` was admitted under
/// `path`, and the entry that had to leave for it, if any.
///
/// A cache without capacity keeps nothing, and the file leaves at once. A file
/// already kept under the path leaves for the new one. Otherwise, when the cache
/// is full, the least recently used entry leaves. The admitted file is the most
/// recently used entry.
pub open spec fn admitted(
    entries: Seq<(Seq<char>, WhisperFileView)>,
    capacity: nat,
    path: Seq<char>,
    file: WhisperFileView,
) -> (Seq<(Seq<char>, WhisperFileView)>, Option<(Seq<char>, WhisperFileView)>) {
    if capacity == 0 {
        (entries, Some((path, file)))
    } else if holds(entries, path) {
        (without(entries, path).push((path, file)), Some(entries[place_of(entries, path)]))
    } else if entries.len() >= capacity {
        (entries.drop_first().push((path, file)), Some(entries[0]))
    } else {
        (entries.push((path, file)), None)
    }
}

/// The entries after the one for `path` was used: it is now the most recently used.
pub open spec fn refreshed(entries: Seq<(Seq<char>, WhisperFileView)>, path: Seq<char>) -> Seq<
    (Seq<char>, WhisperFileView),
> {
    if holds(entries, path) {
        without(entries, path).push(entries[place_of(entries, path)])
    } else {
        entries
    }
}

/// Taking an entry out leaves no path with two entries, and none for that path.
pub proof fn lemma_without(entries: Seq<(Seq<char>, WhisperFileView)>, path: Seq<char>)
    requires
        distinct_paths(entries),
    ensures
        distinct_paths(without(entries, path)),
        !holds(without(entries, path), path),
        without(entries, path).len() == if holds(entries, path) {
            entries.len() - 1
        } else {
            entries.len() as int
        },
        forall|other: Seq<char>|
            other != path ==> (holds(without(entries, path), other) <==> holds(entries, other)),
{
    let rest = without(entries, path);
    if holds(entries, path) {
        let at = place_of(entries, path);
        assert forall|i: int| 0 <= i < rest.len() implies #[trigger] rest[i] == entries[if i
            < at {
            i
        } else {
            i + 1
        }] by {}
        assert forall|other: Seq<char>| other != path implies (holds(rest, other) <==> holds(
            entries,
            other,
        )) by {
            if holds(entries, other) {
                let k = place_of(entries, other);
                let i = if k < at {
                    k
                } else {
                    k - 1
                };
                assert(rest[i].0 == other);
            }
            if holds(rest, other) {
                let i = place_of(rest, other);
                let k = if i < at {
                    i
                } else {
                    i + 1
                };
                assert(entries[k].0 == other);
            }
        }
        if holds(rest, path) {
            let i = place_of(rest, path);
            let k = if i < at {
                i
            } else {
                i + 1
            };
            assert(entries[k].0 == path);
            assert(entries[at].0 == path);
        }
    } else {
        assert forall|other: Seq<char>| other != path implies (holds(rest, other) <==> holds(
            entries,
            other,
        )) by {}
    }
}

/// Admitting a file keeps the cache within its capacity and its paths distinct,
/// and the file is then the most recently used entry, unless the cache keeps
/// nothing.
pub proof fn lemma_admitted(
    entries: Seq<(Seq<char>, WhisperFileView)>,
    capacity: nat,
    path: Seq<char>,
    file: WhisperFileView,
)
    requires
        distinct_paths(entries),
        entries.len() <= capacity,
    ensures
        distinct_paths(admitted(entries, capacity, path, file).0),
        admitted(entries, capacity, path, file).0.len() <= capacity,
        capacity > 0 ==> admitted(entries, capacity, path, file).0.last() == (path, file),
{
    let after = admitted(entries, capacity, path, file).0;
    if capacity > 0 {
        lemma_without(entries, path);
        let kept = if holds(entries, path) {
            without(entries, path)
        } else if entries.len() >= capacity {
            entries.drop_first()
        } else {
            entries
        };
        assert(after == kept.push((path, file)));
        assert forall|i: int| 0 <= i < kept.len() implies (#[trigger] kept[i]).0 != path by {
            if holds(entries, path) {
                if kept[i].0 == path {
                    assert(holds(kept, path));
                }
            } else if entries.len() >= capacity {
                assert(kept[i] == entries[i + 1]);
            } else {
                assert(kept[i] == entries[i]);
            }
        }
        assert forall|i: int, j: int| 0 <= i < j < kept.len() implies (#[trigger] kept[i]).0 != (
        #[trigger] kept[j]).0 by {
            if !holds(entries, path) && entries.len() >= capacity {
                assert(kept[i] == entries[i + 1]);
                assert(kept[j] == entries[j + 1]);
            }
        }
    }
}

/// A full cache makes room for a new path by letting its least recently used
/// entry go, and no other.
pub proof fn lemma_full_cache_evicts_oldest(
    entries: Seq<(Seq<char>, WhisperFileView)>,
    capacity: nat,
    path: Seq<char>,
    file: WhisperFileView,
)
    requires
        distinct_paths(entries),
        capacity > 0,
        entries.len() == capacity,
        !holds(entries, path),
    ensures
        admitted(entries, capacity, path, file).1 == Some(entries[0]),
        admitted(entries, capacity, path, file).0 == entries.drop_first().push((path, file)),
        admitted(entries, capacity, path, file).0.len() == capacity,
        !holds(admitted(entries, capacity, path, file).0, entries[0].0),
        forall|i: int|
            1 <= i < entries.len() ==> holds(
                admitted(entries, capacity, path, file).0,
                (#[trigger] entries[i]).0,
            ),
{
    let after = admitted(entries, capacity, path, file).0;
    assert forall|i: int| 1 <= i < entries.len() implies holds(
        after,
        (#[trigger] entries[i]).0,
    ) by {
        assert(after[i - 1] == entries[i]);
    }
    if holds(after, entries[0].0) {
        let k = place_of(after, entries[0].0);
        if k < entries.len() - 1 {
            assert(after[k] == entries[k + 1]);
        } else {
            assert(after[k].0 == path);
            assert(entries[0].0 == path);
        }
    }
}

/// An entry that was just used outlives the next admission into a full cache of
/// more than one entry: what leaves is the entry that was oldest but for it.
pub proof fn lemma_use_protects(
    entries: Seq<(Seq<char>, WhisperFileView)>,
    capacity: nat,
    used: Seq<char>,
    path: Seq<char>,
    file: WhisperFileView,
)
    requires
        distinct_paths(entries),
        capacity > 1,
        entries.len() == capacity,
        holds(entries, used),
        !holds(entries, path),
    ensures
        holds(admitted(refreshed(entries, used), capacity, path, file).0, used),
        admitted(refreshed(entries, used), capacity, path, file).1 == Some(
            if entries[0].0 == used {
                entries[1]
            } else {
                entries[0]
            },
        ),
{
    lemma_without(entries, used);
    let at = place_of(entries, used);
    let rest = without(entries, used);
    let fresh = refreshed(entries, used);
    assert(fresh == rest.push(entries[at]));
    assert(!holds(fresh, path)) by {
        if holds(fresh, path) {
            let k = place_of(fresh, path);
            if k < rest.len() {
                assert(holds(rest, path));
            } else {
                assert(entries[at].0 == path);
            }
        }
    }
    let after = admitted(fresh, capacity, path, file).0;
    assert(after == fresh.drop_first().push((path, file)));
    assert(after[capacity - 2] == entries[at]);
    assert(fresh[0] == rest[0]);
    if at == 0 {
        assert(rest[0] == entries[1]);
        assert(entries[0].0 == used);
    } else {
        assert(rest[0] == entries[0]);
        assert(entries[0].0 != entries[at].0);
    }
}

/// Open files by path, at most as many as the capacity that the cache was made
/// with. When room is needed the least recently used file leaves.
pub struct WhisperCache {
    files: LruCache<String, WhisperFile>,
}

impl View for WhisperCache {
    type V = Seq<(Seq<char>, WhisperFileView)>;

    closed spec fn view(&self) -> Seq<(Seq<char>, WhisperFileView)> {
        lru_entries(self.files)
    }
}

impl WhisperCache {
    /// How many files the cache can hold.
    pub closed spec fn spec_capacity(&self) -> nat {
        lru_capacity(self.files)
    }

    #[verifier::type_invariant]
    pub open spec fn wf(&self) -> bool {
        &&& distinct_paths(self@)
        &&& self@.len() <= self.spec_capacity()
    }

    /// An empty cache that can hold `capacity` files.
    pub fn new(capacity: usize) -> (cache: WhisperCache)
        ensures
            cache@.len() == 0,
            cache.spec_capacity() == capacity,
    {
        WhisperCache { files: lru_new(capacity) }
    }

    /// How many files the cache can hold.
    pub fn capacity(&self) -> (n: usize)
        ensures
            n == self.spec_capacity(),
    {
        lru_limit(&self.files)
    }

    /// How many files the cache holds.
    pub fn len(&self) -> (n: usize)
        ensures
            n == self@.len(),
            n <= self.spec_capacity(),
    {
        proof {
            use_type_invariant(self);
        }
        lru_len(&self.files)
    }

    /// The file kept for `path`, to read or write; it becomes the most recently
    /// used one. `None`, and no change, when no file is kept for `path`.
    pub fn get(&mut self, path: &str) -> (r: Option<&mut WhisperFile>)
        ensures
            final(self).spec_capacity() == old(self).spec_capacity(),
            match r {
                Some(file) => {
                    &&& holds(old(self)@, path@)
                    &&& file@ == old(self)@[place_of(old(self)@, path@)].1
                    &&& final(self)@ == without(old(self)@, path@).push((path@, final(file)@))
                },
                None => !holds(old(self)@, path@) && final(self)@ == old(self)@,
            },
    {
        proof {
            use_type_invariant(&*self);
            lemma_without(self@, path@);
        }
        lru_get_mut(&mut self.files, path)
    }

    /// Takes the file kept for `path` out of the cache; `None`, and no change, when
    /// there is none.
    pub fn remove(&mut self, path: &str) -> (r: Option<WhisperFile>)
        ensures
            final(self).spec_capacity() == old(self).spec_capacity(),
            final(self)@ == without(old(self)@, path@),
            match r {
                Some(file) => {
                    &&& holds(old(self)@, path@)
                    &&& file@ == old(self)@[place_of(old(self)@, path@)].1
                },
                None => !holds(old(self)@, path@),
            },
    {
        proof {
            use_type_invariant(&*self);
            lemma_without(self@, path@);
        }
        lru_remove(&mut self.files, path)
    }

    /// Admits `file` under `path` as the most recently used entry, and hands back
    /// the entry that had to leave for it, so that the caller can close it: the
    /// file kept under the same path before, or else, from a full cache, the
    /// least recently used entry. The entry leaves before the file is admitted.
    pub fn insert(&mut self, path: String, file: WhisperFile) -> (evicted: Option<
        (String, WhisperFile),
    >)
        ensures
            final(self).spec_capacity() == old(self).spec_capacity(),
            final(self)@ == admitted(old(self)@, old(self).spec_capacity(), path@, file@).0,
            match evicted {
                Some(entry) => Some((entry.0@, entry.1@)) == admitted(
                    old(self)@,
                    old(self).spec_capacity(),
                    path@,
                    file@,
                ).1,
                None => admitted(old(self)@, old(self).spec_capacity(), path@, file@).1 is None,
            },
    {
        proof {
            use_type_invariant(&*self);
            lemma_without(self@, path@);
        }
        let capacity = lru_limit(&self.files);
        if capacity == 0 {
            return Some((path, file));
        }
        let evicted = match lru_remove(&mut self.files, path.as_str()) {
            Some(old) => Some((path.clone(), old)),
            None => {
                if lru_len(&self.files) >= capacity {
                    lru_remove_lru(&mut self.files)
                } else {
                    None
                }
            },
        };
        lru_insert(&mut self.files, path, file);
        evicted
    }
}

} // verus!
