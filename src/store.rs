//! The local key-value storage of a node.
use vstd::prelude::*;
use crate::error::{Error, Result};
use crate::ring::copy_bytes;
use crate::{Key, Value, ValueVersion, Version};

verus! {

/// What a store holds: for each key, its value and version.
pub type Contents = Map<Seq<u8>, (Seq<u8>, i64)>;

/// The version that a plain write of `key` gets: `0` for a new key, one more
/// than the stored version otherwise (held at the largest version).
pub open spec fn next_version(c: Contents, key: Seq<u8>) -> i64 {
    if !c.contains_key(key) {
        0
    } else if c[key].1 < 0 {
        0
    } else if c[key].1 == i64::MAX {
        i64::MAX
    } else {
        (c[key].1 + 1) as i64
    }
}

/// What a lookup of `key` in `c` reports.
pub open spec fn lookup(c: Contents, key: Seq<u8>, r: Option<ValueVersion>) -> bool {
    match r {
        Some(vv) => c.contains_key(key) && c[key] == (vv.0@, vv.1),
        None => !c.contains_key(key),
    }
}

/// A key-value backend for one node.
pub trait Store {
    /// The store's internal invariant.
    spec fn wf(&self) -> bool;

    spec fn contents(&self) -> Contents;

    /// Every call on this store succeeds.
    spec fn reliable(&self) -> bool;

    /// Stores `val` under `key` with the next version of that key.
    fn put(&mut self, key: Key, val: Value) -> (r: Result<Version>)
        requires
            old(self).wf(),
        ensures
            final(self).wf(),
            final(self).reliable() == old(self).reliable(),
            old(self).reliable() ==> r is Ok,
            r is Ok ==> r->Ok_0 == next_version(old(self).contents(), key.0@),
            r is Ok ==> final(self).contents() == old(self).contents().insert(key.0@, (val@, r->Ok_0)),
            r is Err ==> final(self).contents() == old(self).contents(),
    ;

    /// Stores `val` under `key` with the given version.
    fn put_versioned(&mut self, key: Key, val: Value, version: Version) -> (r: Result<Version>)
        requires
            old(self).wf(),
        ensures
            final(self).wf(),
            final(self).reliable() == old(self).reliable(),
            old(self).reliable() ==> r is Ok,
            r is Ok ==> r->Ok_0 == version,
            r is Ok ==> final(self).contents() == old(self).contents().insert(key.0@, (val@, version)),
            r is Err ==> final(self).contents() == old(self).contents(),
    ;

    /// The value and version stored under `key`, if any.
    fn get(&self, key: &Key) -> (r: Result<Option<ValueVersion>>)
        requires
            self.wf(),
        ensures
            self.reliable() ==> r is Ok,
            r is Ok ==> lookup(self.contents(), key.0@, r->Ok_0),
    ;

    /// Removes `key`, handing back what was stored under it.
    fn delete(&mut self, key: &Key) -> (r: Result<Option<ValueVersion>>)
        requires
            old(self).wf(),
        ensures
            final(self).wf(),
            final(self).reliable() == old(self).reliable(),
            old(self).reliable() ==> r is Ok,
            r is Ok ==> lookup(old(self).contents(), key.0@, r->Ok_0),
            r is Ok ==> final(self).contents() == old(self).contents().remove(key.0@),
            r is Err ==> final(self).contents() == old(self).contents(),
    ;
}

/// Whether two byte strings are equal.
pub fn bytes_eq(a: &Vec<u8>, b: &Vec<u8>) -> (r: bool)
    ensures
        r == (a@ == b@),
{
    if a.len() != b.len() {
        return false;
    }
    let mut i: usize = 0;
    while i < a.len()
        invariant
            a@.len() == b@.len(),
            i <= a@.len(),
            forall|j: int| 0 <= j < i ==> a@[j] == b@[j],
        decreases a@.len() - i,
    {
        if a[i] != b[i] {
            return false;
        }
        i = i + 1;
    }
    assert(a@ =~= b@);
    true
}

/// A store held in memory, as a list of entries with distinct keys.
pub struct MemStore {
    entries: Vec<(Key, ValueVersion)>,
}

/// The contents described by a list of entries.
pub open spec fn contents_of(s: Seq<(Key, ValueVersion)>) -> Contents
    decreases s.len(),
{
    if s.len() == 0 {
        Map::empty()
    } else {
        let e = s.last();
        contents_of(s.drop_last()).insert(e.0.0@, (e.1.0@, e.1.1))
    }
}

/// No two entries share a key.
pub open spec fn distinct_keys(s: Seq<(Key, ValueVersion)>) -> bool {
    forall|i: int, j: int| 0 <= i < j < s.len() ==> s[i].0.0@ != s[j].0.0@
}

proof fn lemma_contents_of(s: Seq<(Key, ValueVersion)>)
    requires
        distinct_keys(s),
    ensures
        forall|k: Seq<u8>| #[trigger] contents_of(s).contains_key(k) <==> exists|i: int| 0 <= i < s.len() && s[i].0.0@ == k,
        forall|i: int| 0 <= i < s.len() ==> contents_of(s)[#[trigger] s[i].0.0@] == (s[i].1.0@, s[i].1.1),
    decreases s.len(),
{
    if s.len() > 0 {
        let t = s.drop_last();
        assert(distinct_keys(t));
        lemma_contents_of(t);
        assert forall|k: Seq<u8>| #[trigger] contents_of(s).contains_key(k) <==> exists|i: int| 0 <= i < s.len() && s[i].0.0@ == k by {
            if contents_of(s).contains_key(k) && k != s.last().0.0@ {
                assert(contents_of(t).contains_key(k));
                let i = choose|i: int| 0 <= i < t.len() && t[i].0.0@ == k;
                assert(s[i] == t[i]);
                assert(0 <= i < s.len() && s[i].0.0@ == k);
            }
            if contents_of(s).contains_key(k) && k == s.last().0.0@ {
                assert(s[s.len() - 1].0.0@ == k);
            }
            if exists|i: int| 0 <= i < s.len() && s[i].0.0@ == k {
                let i = choose|i: int| 0 <= i < s.len() && s[i].0.0@ == k;
                if i < t.len() {
                    assert(t[i] == s[i]);
                    assert(contents_of(t).contains_key(k));
                }
            }
        }
        assert forall|i: int| 0 <= i < s.len() implies contents_of(s)[#[trigger] s[i].0.0@] == (s[i].1.0@, s[i].1.1) by {
            if i < t.len() {
                assert(t[i] == s[i]);
            }
        }
    }
}

proof fn lemma_contents_update(s: Seq<(Key, ValueVersion)>, i: int, e: (Key, ValueVersion))
    requires
        distinct_keys(s),
        0 <= i < s.len(),
        s[i].0.0@ == e.0.0@,
    ensures
        distinct_keys(s.update(i, e)),
        contents_of(s.update(i, e)) == contents_of(s).insert(e.0.0@, (e.1.0@, e.1.1)),
{
    let u = s.update(i, e);
    assert(distinct_keys(u));
    lemma_contents_of(s);
    lemma_contents_of(u);
    let m = contents_of(s).insert(e.0.0@, (e.1.0@, e.1.1));
    assert forall|k: Seq<u8>| contents_of(u).contains_key(k) <==> m.contains_key(k) by {
        if contents_of(u).contains_key(k) {
            let j = choose|j: int| 0 <= j < u.len() && u[j].0.0@ == k;
            if j != i {
                assert(u[j] == s[j]);
                assert(contents_of(s).contains_key(s[j].0.0@));
            }
        }
        if m.contains_key(k) && k != e.0.0@ {
            assert(contents_of(s).contains_key(k));
            let j = choose|j: int| 0 <= j < s.len() && s[j].0.0@ == k;
            assert(u[j] == s[j]);
            assert(contents_of(u).contains_key(u[j].0.0@));
        }
        if k == e.0.0@ {
            assert(u[i].0.0@ == k);
            assert(contents_of(u).contains_key(u[i].0.0@));
        }
    }
    assert forall|k: Seq<u8>| #[trigger] contents_of(u).contains_key(k) implies contents_of(u)[k] == m[k] by {
        let j = choose|j: int| 0 <= j < u.len() && u[j].0.0@ == k;
        assert(contents_of(u)[u[j].0.0@] == (u[j].1.0@, u[j].1.1));
        if j != i {
            assert(contents_of(s)[s[j].0.0@] == (s[j].1.0@, s[j].1.1));
        }
    }
    assert(contents_of(u) =~= m);
}

proof fn lemma_contents_push(s: Seq<(Key, ValueVersion)>, e: (Key, ValueVersion))
    requires
        distinct_keys(s),
        !contents_of(s).contains_key(e.0.0@),
    ensures
        distinct_keys(s.push(e)),
        contents_of(s.push(e)) == contents_of(s).insert(e.0.0@, (e.1.0@, e.1.1)),
{
    lemma_contents_of(s);
    assert(s.push(e).drop_last() =~= s);
    assert forall|i: int, j: int| 0 <= i < j < s.push(e).len() implies s.push(e)[i].0.0@ != s.push(e)[j].0.0@ by {
        if j == s.len() {
            assert(s.push(e)[i] == s[i]);
        }
    }
}

proof fn lemma_contents_remove(s: Seq<(Key, ValueVersion)>, i: int)
    requires
        distinct_keys(s),
        0 <= i < s.len(),
    ensures
        distinct_keys(s.remove(i)),
        contents_of(s.remove(i)) == contents_of(s).remove(s[i].0.0@),
{
    let u = s.remove(i);
    let k0 = s[i].0.0@;
    assert forall|a: int, b: int| 0 <= a < b < u.len() implies u[a].0.0@ != u[b].0.0@ by {
        let a2 = if a < i { a } else { a + 1 };
        let b2 = if b < i { b } else { b + 1 };
        assert(u[a] == s[a2] && u[b] == s[b2]);
    }
    lemma_contents_of(s);
    lemma_contents_of(u);
    let m = contents_of(s).remove(k0);
    assert forall|k: Seq<u8>| contents_of(u).contains_key(k) <==> m.contains_key(k) by {
        if contents_of(u).contains_key(k) {
            let j = choose|j: int| 0 <= j < u.len() && u[j].0.0@ == k;
            let j2 = if j < i { j } else { j + 1 };
            assert(u[j] == s[j2]);
            assert(contents_of(s).contains_key(s[j2].0.0@));
        }
        if m.contains_key(k) {
            let j = choose|j: int| 0 <= j < s.len() && s[j].0.0@ == k;
            let j2 = if j < i { j } else { j - 1 };
            assert(u[j2] == s[j]);
            assert(contents_of(u).contains_key(u[j2].0.0@));
        }
    }
    assert forall|k: Seq<u8>| #[trigger] contents_of(u).contains_key(k) implies contents_of(u)[k] == m[k] by {
        let j = choose|j: int| 0 <= j < u.len() && u[j].0.0@ == k;
        let j2 = if j < i { j } else { j + 1 };
        assert(u[j] == s[j2]);
        assert(contents_of(u)[u[j].0.0@] == (u[j].1.0@, u[j].1.1));
        assert(contents_of(s)[s[j2].0.0@] == (s[j2].1.0@, s[j2].1.1));
    }
    assert(contents_of(u) =~= m);
}

impl MemStore {
    pub fn new() -> (r: Self)
        ensures
            r.wf(),
            r.contents() == Contents::empty(),
    {
        MemStore { entries: Vec::new() }
    }

    /// The index of the entry for `key`, if there is one.
    fn position(&self, key: &Key) -> (r: Option<usize>)
        requires
            self.wf(),
        ensures
            match r {
                Some(i) => i < self.entries@.len() && self.entries@[i as int].0.0@ == key.0@,
                None => !self.contents().contains_key(key.0@),
            },
    {
        proof {
            lemma_contents_of(self.entries@);
        }
        let mut i: usize = 0;
        while i < self.entries.len()
            invariant
                i <= self.entries@.len(),
                forall|j: int| 0 <= j < i ==> self.entries@[j].0.0@ != key.0@,
            decreases self.entries@.len() - i,
        {
            if bytes_eq(&self.entries[i].0.0, &key.0) {
                return Some(i);
            }
            i = i + 1;
        }
        None
    }

    fn store(&mut self, key: Key, val: Value, version: Version)
        requires
            old(self).wf(),
        ensures
            final(self).wf(),
            final(self).contents() == old(self).contents().insert(key.0@, (val@, version)),
    {
        let ghost k = key.0@;
        let ghost v = val@;
        match self.position(&key) {
            Some(i) => {
                proof {
                    lemma_contents_update(self.entries@, i as int, (key, (val, version)));
                }
                self.entries.set(i, (key, (val, version)));
            },
            None => {
                proof {
                    lemma_contents_push(self.entries@, (key, (val, version)));
                }
                self.entries.push((key, (val, version)));
            },
        }
    }
}

impl Store for MemStore {
    closed spec fn wf(&self) -> bool {
        distinct_keys(self.entries@)
    }

    closed spec fn contents(&self) -> Contents {
        contents_of(self.entries@)
    }

    open spec fn reliable(&self) -> bool {
        true
    }

    fn put(&mut self, key: Key, val: Value) -> (r: Result<Version>) {
        proof {
            lemma_contents_of(self.entries@);
        }
        let version: i64 = match self.position(&key) {
            Some(i) => {
                let v = self.entries[i].1.1;
                if v < 0 {
                    0
                } else if v == i64::MAX {
                    i64::MAX
                } else {
                    v + 1
                }
            },
            None => 0,
        };
        self.store(key, val, version);
        Ok(version)
    }

    fn put_versioned(&mut self, key: Key, val: Value, version: Version) -> (r: Result<Version>) {
        self.store(key, val, version);
        Ok(version)
    }

    fn get(&self, key: &Key) -> (r: Result<Option<ValueVersion>>) {
        proof {
            lemma_contents_of(self.entries@);
        }
        match self.position(key) {
            Some(i) => {
                let e = &self.entries[i];
                Ok(Some((copy_bytes(e.1.0.as_slice()), e.1.1)))
            },
            None => Ok(None),
        }
    }

    fn delete(&mut self, key: &Key) -> (r: Result<Option<ValueVersion>>) {
        proof {
            lemma_contents_of(self.entries@);
        }
        match self.position(key) {
            Some(i) => {
                proof {
                    lemma_contents_remove(self.entries@, i as int);
                }
                let e = self.entries.remove(i);
                Ok(Some(e.1))
            },
            None => Ok(None),
        }
    }
}

} // verus!
