use vstd::prelude::*;
use crate::error::{fails_with, GodataError, GodataErrorType};

verus! {

/// One open project: its cache key, the shared handle to it, and how many
/// callers hold that handle.
pub struct CacheEntry<H> {
    pub key: String,
    pub handle: H,
    pub count: usize,
}

/// The cache of open projects. A project is opened at most once; each load
/// takes a share of its handle and each drop gives one back, and the last
/// drop hands the handle out of the cache, to be closed.
pub struct ProjectManager<H> {
    pub entries: Vec<CacheEntry<H>>,
}

/// The cache key of a project: `collection/name`.
pub open spec fn key_spec(name: Seq<char>, collection: Seq<char>) -> Seq<char> {
    collection + seq!['/'] + name
}

pub fn project_key(name: &str, collection: &str) -> (r: String)
    ensures
        r@ == key_spec(name@, collection@),
{
    let mut k = String::from_str(collection);
    k.append("/");
    k.append(name);
    proof {
        reveal_strlit("/");
    }
    k
}

/// Index of the entry under `key`, or -1.
pub open spec fn entry_index<H>(e: Seq<CacheEntry<H>>, key: Seq<char>) -> int
    decreases e.len(),
{
    if e.len() == 0 {
        -1
    } else if e.last().key@ == key {
        e.len() - 1
    } else {
        entry_index(e.drop_last(), key)
    }
}

pub proof fn lemma_entry_index<H>(e: Seq<CacheEntry<H>>, key: Seq<char>)
    ensures
        -1 <= entry_index(e, key) < e.len(),
        entry_index(e, key) >= 0 ==> e[entry_index(e, key)].key@ == key,
        entry_index(e, key) < 0 ==> forall|j: int| 0 <= j < e.len() ==> (#[trigger] e[j]).key@ != key,
        forall|j: int|
            0 <= j < e.len() && (#[trigger] e[j]).key@ == key && (forall|m: int|
                0 <= m < e.len() && m != j ==> e[m].key@ != e[j].key@) ==> entry_index(e, key) == j,
    decreases e.len(),
{
    if e.len() > 0 {
        lemma_entry_index(e.drop_last(), key);
        assert forall|j: int| 0 <= j < e.len() - 1 implies e.drop_last()[j] == e[j] by {}
        assert forall|j: int|
            0 <= j < e.len() && (#[trigger] e[j]).key@ == key && (forall|m: int|
                0 <= m < e.len() && m != j ==> e[m].key@ != e[j].key@) implies entry_index(e, key)
            == j by {
            if j < e.len() - 1 {
                assert(e.drop_last()[j] == e[j]);
                assert forall|m: int|
                    0 <= m < e.drop_last().len() && m != j implies e.drop_last()[m].key@
                    != e.drop_last()[j].key@ by {
                    assert(e.drop_last()[m] == e[m]);
                }
            }
        }
    }
}

impl<H> ProjectManager<H> {
    /// Keys are distinct and every cached project is held at least once.
    pub open spec fn inv(&self) -> bool {
        &&& forall|i: int, j: int|
            0 <= i < self.entries@.len() && 0 <= j < self.entries@.len() && i != j
                ==> self.entries@[i].key@ != self.entries@[j].key@
        &&& forall|i: int| 0 <= i < self.entries@.len() ==> (#[trigger] self.entries@[i]).count >= 1
    }

    /// How many callers hold the project under `key`; 0 when it is not cached.
    pub open spec fn count_of(&self, key: Seq<char>) -> nat {
        let i = entry_index(self.entries@, key);
        if i < 0 {
            0
        } else {
            self.entries@[i].count as nat
        }
    }

    /// The handle cached under `key`, if the project is cached.
    pub open spec fn handle_of(&self, key: Seq<char>) -> Option<H> {
        let i = entry_index(self.entries@, key);
        if i < 0 {
            None
        } else {
            Some(self.entries@[i].handle)
        }
    }

    /// `next` is this cache with the count under `key` changed to `c`: no other
    /// count changes, every other entry keeps its handle, and the entry under
    /// `key`, if it stays, keeps its handle too.
    pub open spec fn with_count(&self, next: &Self, key: Seq<char>, c: nat) -> bool {
        &&& next.count_of(key) == c
        &&& forall|k: Seq<char>| k != key ==> #[trigger] next.count_of(k) == self.count_of(k)
        &&& forall|k: Seq<char>| k != key ==> #[trigger] next.handle_of(k) == self.handle_of(k)
        &&& (c > 0 && self.count_of(key) > 0) ==> next.handle_of(key) == self.handle_of(key)
        &&& c == 0 ==> next.handle_of(key) is None
    }

    pub fn new() -> (r: ProjectManager<H>)
        ensures
            r.inv(),
            forall|k: Seq<char>| #[trigger] r.count_of(k) == 0,
    {
        ProjectManager { entries: Vec::new() }
    }

    fn find(&self, key: &String) -> (r: Option<usize>)
        ensures
            match r {
                Some(i) => i == entry_index(self.entries@, key@) && i < self.entries@.len(),
                None => entry_index(self.entries@, key@) < 0,
            },
    {
        let mut i: usize = self.entries.len();
        assert(self.entries@.subrange(0, i as int) =~= self.entries@);
        while i > 0
            invariant
                i <= self.entries@.len(),
                entry_index(self.entries@, key@) == entry_index(
                    self.entries@.subrange(0, i as int),
                    key@,
                ),
            decreases i,
        {
            let j = i - 1;
            proof {
                assert(self.entries@.subrange(0, i as int).drop_last() =~= self.entries@.subrange(
                    0,
                    j as int,
                ));
            }
            let same: bool = self.entries[j].key == *key;
            if same {
                return Some(j);
            }
            i = j;
        }
        None
    }

    /// How many callers hold the project.
    pub fn ref_count(&self, name: &str, collection: &str) -> (r: usize)
        ensures
            r == self.count_of(key_spec(name@, collection@)),
    {
        let key = project_key(name, collection);
        match self.find(&key) {
            Some(i) => self.entries[i].count,
            None => 0,
        }
    }

    proof fn lemma_update_count(&self, next: &Self, i: int, c: usize)
        requires
            self.inv(),
            0 <= i < self.entries@.len(),
            c >= 1,
            next.entries@ == self.entries@.update(
                i,
                CacheEntry { key: self.entries@[i].key, handle: self.entries@[i].handle, count: c },
            ),
        ensures
            next.inv(),
            self.with_count(next, self.entries@[i].key@, c as nat),
    {
        let key = self.entries@[i].key@;
        lemma_entry_index(self.entries@, key);
        lemma_entry_index(next.entries@, key);
        assert(next.entries@[i].key@ == key);
        assert forall|m: int| 0 <= m < next.entries@.len() && m != i implies next.entries@[m].key@
            != next.entries@[i].key@ by {
            assert(next.entries@[m] == self.entries@[m]);
        }
        assert(entry_index(self.entries@, key) == i);
        assert(entry_index(next.entries@, key) == i);
        assert forall|k: Seq<char>|
            #![trigger next.count_of(k)]
            #![trigger next.handle_of(k)]
            k != key implies next.count_of(k) == self.count_of(k) && next.handle_of(k)
                == self.handle_of(k) by {
            lemma_entry_index(self.entries@, k);
            lemma_entry_index(next.entries@, k);
            let a = entry_index(self.entries@, k);
            let b = entry_index(next.entries@, k);
            if a >= 0 {
                assert(next.entries@[a].key@ == k);
            }
            if b >= 0 {
                assert(self.entries@[b].key@ == k);
            }
        }
    }

    /// A cache hit takes one more share of the handle; a miss changes nothing
    /// and tells the caller to open the project and cache it.
    pub fn load_project(&mut self, name: &str, collection: &str) -> (r: Option<&H>)
        requires
            old(self).inv(),
            old(self).count_of(key_spec(name@, collection@)) < usize::MAX,
        ensures
            final(self).inv(),
            ({
                let k = key_spec(name@, collection@);
                let c = old(self).count_of(k);
                if c == 0 {
                    r is None && *final(self) == *old(self)
                } else {
                    r matches Some(h) && old(self).handle_of(k) == Some(*h) && old(self).with_count(
                        final(self),
                        k,
                        c + 1,
                    )
                }
            }),
    {
        let key = project_key(name, collection);
        match self.find(&key) {
            None => None,
            Some(i) => {
                let ghost before = *self;
                proof {
                    lemma_entry_index(self.entries@, key@);
                }
                let c = self.entries[i].count + 1;
                let old_entry = self.entries.remove(i);
                self.entries.insert(i, CacheEntry { key: old_entry.key, handle: old_entry.handle, count: c });
                proof {
                    assert(self.entries@ =~= before.entries@.update(
                        i as int,
                        CacheEntry { key: before.entries@[i as int].key, handle: before.entries@[i as int].handle, count: c },
                    ));
                    before.lemma_update_count(self, i as int, c);
                }
                Some(&self.entries[i].handle)
            },
        }
    }

    /// Caches a freshly opened project, held once; refused when the project is
    /// cached already.
    pub fn cache_project(&mut self, name: &str, collection: &str, handle: H) -> (r: Result<(), GodataError>)
        requires
            old(self).inv(),
        ensures
            final(self).inv(),
            ({
                let k = key_spec(name@, collection@);
                if old(self).count_of(k) > 0 {
                    fails_with(r, GodataErrorType::AlreadyExists) && *final(self) == *old(self)
                } else {
                    r is Ok && old(self).with_count(final(self), k, 1) && final(self).handle_of(k)
                        == Some(handle)
                }
            }),
    {
        let key = project_key(name, collection);
        proof {
            lemma_entry_index(self.entries@, key@);
        }
        match self.find(&key) {
            Some(_) => Err(GodataError::new(
                GodataErrorType::AlreadyExists,
                String::from_str("the project is open already"),
            )),
            None => {
                let ghost before = self.entries@;
                self.entries.push(CacheEntry { key, handle, count: 1 });
                proof {
                    let e = self.entries@;
                    let n = before.len() as int;
                    assert(e.drop_last() =~= before);
                    assert(entry_index(e, key@) == n);
                    assert(self.handle_of(key@) == Some(handle));
                    assert forall|k: Seq<char>|
                        #![trigger self.count_of(k)]
                        #![trigger self.handle_of(k)]
                        k != key@ implies self.count_of(k) == old(self).count_of(k)
                            && self.handle_of(k) == old(self).handle_of(k) by {
                        assert(entry_index(e, k) == entry_index(before, k));
                        lemma_entry_index(before, k);
                        if entry_index(before, k) >= 0 {
                            assert(e[entry_index(before, k)] == before[entry_index(before, k)]);
                        }
                    }
                    assert forall|i: int, j: int|
                        0 <= i < e.len() && 0 <= j < e.len() && i != j implies e[i].key@
                        != e[j].key@ by {
                        if i < n && j < n {
                            assert(e[i] == before[i]);
                            assert(e[j] == before[j]);
                        } else if i < n {
                            assert(e[i] == before[i]);
                        } else {
                            assert(e[j] == before[j]);
                        }
                    }
                    assert forall|i: int| 0 <= i < e.len() implies (#[trigger] e[i]).count >= 1 by {
                        if i < n {
                            assert(e[i] == before[i]);
                        }
                    }
                }
                Ok(())
            },
        }
    }

    /// Takes the entry at `i` out of the cache.
    fn take(&mut self, i: usize) -> (r: H)
        requires
            old(self).inv(),
            i < old(self).entries@.len(),
        ensures
            final(self).inv(),
            old(self).with_count(final(self), old(self).entries@[i as int].key@, 0),
    {
        let ghost before = self.entries@;
        let ghost key = before[i as int].key@;
        let e = self.entries.remove(i);
        proof {
            let after = self.entries@;
            assert(after =~= before.remove(i as int));
            lemma_entry_index(before, key);
            lemma_entry_index(after, key);
            if entry_index(after, key) >= 0 {
                let b = entry_index(after, key);
                let b1 = if b < i { b } else { b + 1 };
                assert(after[b] == before[b1]);
            }
            assert forall|k: Seq<char>|
                #![trigger self.count_of(k)]
                #![trigger self.handle_of(k)]
                k != key implies self.count_of(k) == old(self).count_of(k) && self.handle_of(k)
                    == old(self).handle_of(k) by {
                lemma_entry_index(before, k);
                lemma_entry_index(after, k);
                let a = entry_index(before, k);
                let b = entry_index(after, k);
                if a >= 0 {
                    let a2 = if a < i { a } else { a - 1 };
                    assert(after[a2] == before[a]);
                    assert forall|m: int| 0 <= m < after.len() && m != a2 implies after[m].key@
                        != after[a2].key@ by {
                        let m1 = if m < i { m } else { m + 1 };
                        assert(after[m] == before[m1]);
                    }
                }
                if b >= 0 {
                    let b1 = if b < i { b } else { b + 1 };
                    assert(after[b] == before[b1]);
                }
            }
            assert forall|x: int, y: int|
                0 <= x < after.len() && 0 <= y < after.len() && x != y implies after[x].key@
                != after[y].key@ by {
                let x1 = if x < i { x } else { x + 1 };
                let y1 = if y < i { y } else { y + 1 };
                assert(after[x] == before[x1]);
                assert(after[y] == before[y1]);
            }
            assert forall|x: int| 0 <= x < after.len() implies (#[trigger] after[x]).count >= 1 by {
                let x1 = if x < i { x } else { x + 1 };
                assert(after[x] == before[x1]);
            }
        }
        e.handle
    }

    /// Gives one share of the project back. The last share takes the project
    /// out of the cache and hands its handle back, to be closed; refused for a
    /// project that is not cached.
    pub fn drop_project(&mut self, name: &str, collection: &str) -> (r: Result<Option<H>, GodataError>)
        requires
            old(self).inv(),
        ensures
            final(self).inv(),
            ({
                let k = key_spec(name@, collection@);
                let c = old(self).count_of(k);
                if c == 0 {
                    fails_with(r, GodataErrorType::NotFound) && *final(self) == *old(self)
                } else if c == 1 {
                    r matches Ok(Some(_)) && old(self).with_count(final(self), k, 0)
                } else {
                    r matches Ok(None) && old(self).with_count(final(self), k, (c - 1) as nat)
                }
            }),
    {
        let key = project_key(name, collection);
        proof {
            lemma_entry_index(self.entries@, key@);
        }
        match self.find(&key) {
            None => Err(GodataError::new(
                GodataErrorType::NotFound,
                String::from_str("the project is not open"),
            )),
            Some(i) => {
                if self.entries[i].count == 1 {
                    let h = self.take(i);
                    Ok(Some(h))
                } else {
                    let ghost before = *self;
                    let c = self.entries[i].count - 1;
                    let old_entry = self.entries.remove(i);
                    self.entries.insert(
                        i,
                        CacheEntry { key: old_entry.key, handle: old_entry.handle, count: c },
                    );
                    proof {
                        assert(self.entries@ =~= before.entries@.update(
                            i as int,
                            CacheEntry { key: before.entries@[i as int].key, handle: before.entries@[i as int].handle, count: c },
                        ));
                        before.lemma_update_count(self, i as int, c);
                    }
                    Ok(None)
                }
            },
        }
    }

    /// Takes the project out of the cache whatever its count, so that it can be
    /// closed before it is deleted.
    pub fn evict(&mut self, name: &str, collection: &str) -> (r: Option<H>)
        requires
            old(self).inv(),
        ensures
            final(self).inv(),
            r is Some == (old(self).count_of(key_spec(name@, collection@)) > 0),
            old(self).with_count(final(self), key_spec(name@, collection@), 0),
    {
        let key = project_key(name, collection);
        proof {
            lemma_entry_index(self.entries@, key@);
        }
        match self.find(&key) {
            None => None,
            Some(i) => Some(self.take(i)),
        }
    }
}

/// A project loaded twice and dropped once stays cached, under the handle it
/// was cached with; dropped a second time, it leaves the cache.
pub proof fn lemma_reference_counting<H>(
    m0: ProjectManager<H>,
    m1: ProjectManager<H>,
    m2: ProjectManager<H>,
    m3: ProjectManager<H>,
    m4: ProjectManager<H>,
    k: Seq<char>,
)
    requires
        m0.count_of(k) == 0,
        m0.with_count(&m1, k, m0.count_of(k) + 1),
        m1.with_count(&m2, k, m1.count_of(k) + 1),
        m2.count_of(k) >= 1,
        m2.with_count(&m3, k, (m2.count_of(k) - 1) as nat),
        m3.count_of(k) >= 1,
        m3.with_count(&m4, k, (m3.count_of(k) - 1) as nat),
    ensures
        m3.count_of(k) == 1,
        m3.handle_of(k) == m1.handle_of(k),
        m4.count_of(k) == 0,
        m4.handle_of(k) is None,
{
}

} // verus!
