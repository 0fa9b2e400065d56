//! Bounded caches keyed by file path: parsed containers and directory
//! scan results. Both use the same deliberately simple eviction policy:
//! when an insertion of a new key would exceed the capacity, the whole
//! cache is cleared first.

use vstd::prelude::*;

use crate::types::StiFile;

verus! {

/// A bounded path-keyed cache of parsed containers with clear-all
/// eviction. Callers that persist a new version of a file must call
/// [`StiCache::invalidate`] to prevent stale reads.
pub struct StiCache {
    entries: Vec<(String, StiFile)>,
    capacity: usize,
}

impl StiCache {
    /// The cached entries, in insertion order.
    pub closed spec fn entries(&self) -> Seq<(String, StiFile)> {
        self.entries@
    }

    /// The capacity the cache was created with.
    pub closed spec fn capacity(&self) -> usize {
        self.capacity
    }

    /// Whether a key is present.
    pub open spec fn spec_contains(&self, key: Seq<char>) -> bool {
        exists|i: int| 0 <= i < self.entries().len() && self.entries()[i].0@ == key
    }

    /// Well-formedness: keys are distinct.
    pub open spec fn wf(&self) -> bool {
        forall|i: int, j: int|
            0 <= i < j < self.entries().len() ==> self.entries()[i].0@ != self.entries()[j].0@
    }

    /// An empty cache of the given capacity.
    pub fn new(capacity: usize) -> (r: Self)
        ensures
            r.wf(),
            r.entries().len() == 0,
            r.capacity() == capacity,
    {
        StiCache { entries: Vec::new(), capacity }
    }

    /// Number of cached entries.
    pub fn len(&self) -> (r: usize)
        ensures
            r == self.entries().len(),
    {
        self.entries.len()
    }

    /// Returns a copy of the container cached under `path`, if any.
    pub fn lookup(&self, path: &String) -> (r: Option<StiFile>)
        ensures
            match r {
                Some(f) => exists|i: int|
                    0 <= i < self.entries().len() && self.entries()[i].0@ == path@ && f@
                        == self.entries()[i].1@,
                None => !self.spec_contains(path@),
            },
    {
        let mut i: usize = 0;
        while i < self.entries.len()
            invariant
                i <= self.entries@.len(),
                forall|j: int| 0 <= j < i ==> self.entries@[j].0@ != path@,
            decreases self.entries@.len() - i,
        {
            if self.entries[i].0 == *path {
                let f = self.entries[i].1.clone();
                proof {
                    assert(0 <= i < self.entries().len() && self.entries()[i as int].0@ == path@
                        && f@ == self.entries()[i as int].1@);
                }
                return Some(f);
            }
            i = i + 1;
        }
        None
    }

    /// Index of `path` among the entries, if present.
    fn find(&self, path: &String) -> (r: Option<usize>)
        ensures
            match r {
                Some(i) => (i as int) < self.entries().len() && self.entries()[i as int].0@
                    == path@,
                None => !self.spec_contains(path@),
            },
    {
        let mut i: usize = 0;
        while i < self.entries.len()
            invariant
                i <= self.entries@.len(),
                forall|j: int| 0 <= j < i ==> self.entries@[j].0@ != path@,
            decreases self.entries@.len() - i,
        {
            if self.entries[i].0 == *path {
                return Some(i);
            }
            i = i + 1;
        }
        None
    }

    /// Caches `file` under `path`. An existing entry for the key is
    /// replaced; a new key that would exceed the capacity clears the
    /// whole cache first.
    pub fn insert(&mut self, path: String, file: StiFile)
        requires
            old(self).wf(),
        ensures
            final(self).wf(),
            final(self).capacity() == old(self).capacity(),
            final(self).spec_contains(path@),
            old(self).spec_contains(path@) ==> exists|i: int|
                0 <= i < old(self).entries().len() && old(self).entries()[i].0@ == path@
                    && final(self).entries() == old(self).entries().remove(i).push((path, file)),
            !old(self).spec_contains(path@) && old(self).entries().len() < old(self).capacity()
                ==> final(self).entries() == old(self).entries().push((path, file)),
            !old(self).spec_contains(path@) && old(self).entries().len() >= old(self).capacity()
                ==> final(self).entries() == seq![(path, file)],
    {
        match self.find(&path) {
            Some(i) => {
                self.entries.remove(i);
                self.entries.push((path, file));
                proof {
                    assert forall|a: int, b: int|
                        0 <= a < b < self.entries@.len() implies self.entries@[a].0@
                        != self.entries@[b].0@ by {
                        assert(old(self).wf());
                    }
                    assert(self.entries@[self.entries@.len() - 1].0@ == path@);
                }
            },
            None => {
                if self.entries.len() >= self.capacity {
                    self.entries = Vec::new();
                }
                self.entries.push((path, file));
                proof {
                    assert(self.entries@[self.entries@.len() - 1].0@ == path@);
                }
            },
        }
    }

    /// Removes the entry for `path`, if any; the other entries are kept.
    pub fn invalidate(&mut self, path: &String)
        requires
            old(self).wf(),
        ensures
            final(self).wf(),
            final(self).capacity() == old(self).capacity(),
            !final(self).spec_contains(path@),
            old(self).spec_contains(path@) ==> exists|i: int|
                0 <= i < old(self).entries().len() && old(self).entries()[i].0@ == path@
                    && final(self).entries() == old(self).entries().remove(i),
            !old(self).spec_contains(path@) ==> final(self).entries() == old(self).entries(),
    {
        match self.find(path) {
            Some(i) => {
                self.entries.remove(i);
                proof {
                    assert forall|j: int|
                        0 <= j < self.entries@.len() implies self.entries@[j].0@ != path@ by {
                        assert(old(self).wf());
                        if j < i {
                            assert(self.entries@[j] == old(self).entries()[j]);
                        } else {
                            assert(self.entries@[j] == old(self).entries()[j + 1]);
                        }
                    }
                }
            },
            None => {},
        }
    }

    /// Empties the cache.
    pub fn clear(&mut self)
        ensures
            final(self).wf(),
            final(self).capacity() == old(self).capacity(),
            final(self).entries().len() == 0,
    {
        self.entries = Vec::new();
    }
}

/// A bounded path-keyed cache of directory-scan results ("contains STI
/// files"), with the same clear-all eviction policy.
pub struct DirectoryCache {
    entries: Vec<(String, bool)>,
    capacity: usize,
}

impl DirectoryCache {
    /// The cached entries, in insertion order.
    pub closed spec fn entries(&self) -> Seq<(String, bool)> {
        self.entries@
    }

    /// The capacity the cache was created with.
    pub closed spec fn capacity(&self) -> usize {
        self.capacity
    }

    /// Whether a key is present.
    pub open spec fn spec_contains(&self, key: Seq<char>) -> bool {
        exists|i: int| 0 <= i < self.entries().len() && self.entries()[i].0@ == key
    }

    /// Well-formedness: keys are distinct.
    pub open spec fn wf(&self) -> bool {
        forall|i: int, j: int|
            0 <= i < j < self.entries().len() ==> self.entries()[i].0@ != self.entries()[j].0@
    }

    /// An empty cache of the given capacity.
    pub fn new(capacity: usize) -> (r: Self)
        ensures
            r.wf(),
            r.entries().len() == 0,
            r.capacity() == capacity,
    {
        DirectoryCache { entries: Vec::new(), capacity }
    }

    /// Number of cached entries.
    pub fn len(&self) -> (r: usize)
        ensures
            r == self.entries().len(),
    {
        self.entries.len()
    }

    /// Returns the cached result for `path`, if any.
    pub fn lookup(&self, path: &String) -> (r: Option<bool>)
        ensures
            match r {
                Some(b) => exists|i: int|
                    0 <= i < self.entries().len() && self.entries()[i].0@ == path@ && b
                        == self.entries()[i].1,
                None => !self.spec_contains(path@),
            },
    {
        let mut i: usize = 0;
        while i < self.entries.len()
            invariant
                i <= self.entries@.len(),
                forall|j: int| 0 <= j < i ==> self.entries@[j].0@ != path@,
            decreases self.entries@.len() - i,
        {
            if self.entries[i].0 == *path {
                let b = self.entries[i].1;
                proof {
                    assert(0 <= i < self.entries().len() && self.entries()[i as int].0@ == path@
                        && b == self.entries()[i as int].1);
                }
                return Some(b);
            }
            i = i + 1;
        }
        None
    }

    /// Index of `path` among the entries, if present.
    fn find(&self, path: &String) -> (r: Option<usize>)
        ensures
            match r {
                Some(i) => (i as int) < self.entries().len() && self.entries()[i as int].0@
                    == path@,
                None => !self.spec_contains(path@),
            },
    {
        let mut i: usize = 0;
        while i < self.entries.len()
            invariant
                i <= self.entries@.len(),
                forall|j: int| 0 <= j < i ==> self.entries@[j].0@ != path@,
            decreases self.entries@.len() - i,
        {
            if self.entries[i].0 == *path {
                return Some(i);
            }
            i = i + 1;
        }
        None
    }

    /// Caches `result` under `path`. An existing entry for the key is
    /// replaced; a new key that would exceed the capacity clears the
    /// whole cache first.
    pub fn insert(&mut self, path: String, result: bool)
        requires
            old(self).wf(),
        ensures
            final(self).wf(),
            final(self).capacity() == old(self).capacity(),
            final(self).spec_contains(path@),
            old(self).spec_contains(path@) ==> exists|i: int|
                0 <= i < old(self).entries().len() && old(self).entries()[i].0@ == path@
                    && final(self).entries() == old(self).entries().remove(i).push(
                    (path, result),
                ),
            !old(self).spec_contains(path@) && old(self).entries().len() < old(self).capacity()
                ==> final(self).entries() == old(self).entries().push((path, result)),
            !old(self).spec_contains(path@) && old(self).entries().len() >= old(self).capacity()
                ==> final(self).entries() == seq![(path, result)],
    {
        match self.find(&path) {
            Some(i) => {
                self.entries.remove(i);
                self.entries.push((path, result));
                proof {
                    assert forall|a: int, b: int|
                        0 <= a < b < self.entries@.len() implies self.entries@[a].0@
                        != self.entries@[b].0@ by {
                        assert(old(self).wf());
                    }
                    assert(self.entries@[self.entries@.len() - 1].0@ == path@);
                }
            },
            None => {
                if self.entries.len() >= self.capacity {
                    self.entries = Vec::new();
                }
                self.entries.push((path, result));
                proof {
                    assert(self.entries@[self.entries@.len() - 1].0@ == path@);
                }
            },
        }
    }

    /// Removes the entry for `path`, if any; the other entries are kept.
    pub fn invalidate(&mut self, path: &String)
        requires
            old(self).wf(),
        ensures
            final(self).wf(),
            final(self).capacity() == old(self).capacity(),
            !final(self).spec_contains(path@),
            old(self).spec_contains(path@) ==> exists|i: int|
                0 <= i < old(self).entries().len() && old(self).entries()[i].0@ == path@
                    && final(self).entries() == old(self).entries().remove(i),
            !old(self).spec_contains(path@) ==> final(self).entries() == old(self).entries(),
    {
        match self.find(path) {
            Some(i) => {
                self.entries.remove(i);
                proof {
                    assert forall|j: int|
                        0 <= j < self.entries@.len() implies self.entries@[j].0@ != path@ by {
                        assert(old(self).wf());
                        if j < i {
                            assert(self.entries@[j] == old(self).entries()[j]);
                        } else {
                            assert(self.entries@[j] == old(self).entries()[j + 1]);
                        }
                    }
                }
            },
            None => {},
        }
    }

    /// Empties the cache.
    pub fn clear(&mut self)
        ensures
            final(self).wf(),
            final(self).capacity() == old(self).capacity(),
            final(self).entries().len() == 0,
    {
        self.entries = Vec::new();
    }
}

} // verus!
