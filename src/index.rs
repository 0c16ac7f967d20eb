//! The in-memory key index: key to the location of its latest record.

use vstd::prelude::*;


verus! {

/// Where a record lies: its segment, its first byte, and its length in bytes.
#[derive(Debug, Clone, Copy, PartialEq, Eq, Structural)]
pub struct LogMeta {
    pub file_id: u32,
    pub offset: u64,
    pub len: usize,
}

impl LogMeta {
    pub fn new(file_id: u32, offset: u64, len: usize) -> (r: LogMeta)
        ensures
            r == (LogMeta { file_id, offset, len }),
    {
        LogMeta { file_id, offset, len }
    }

    pub fn len(&self) -> (r: usize)
        ensures
            r == self.len,
    {
        self.len
    }

    /// The first byte past the record.
    pub open spec fn end(self) -> int {
        self.offset + self.len
    }
}

/// The key index: for each stored key, where its latest record lies.
/// `insert` and `remove` give back the length of the record they replace.
pub struct KvsIndex {
    entries: Vec<(String, LogMeta)>,
    m: Ghost<Map<Seq<char>, LogMeta>>,
}

impl View for KvsIndex {
    type V = Map<Seq<char>, LogMeta>;

    closed spec fn view(&self) -> Map<Seq<char>, LogMeta> {
        self.m@
    }
}

impl KvsIndex {
    /// The entries hold each key once and agree with the map.
    pub closed spec fn wf(&self) -> bool {
        &&& forall|i: int|
            0 <= i < self.entries@.len() ==> #[trigger] self.m@.contains_key(
                self.entries@[i].0@,
            ) && self.m@[self.entries@[i].0@] == self.entries@[i].1
        &&& forall|k: Seq<char>|
            #[trigger] self.m@.contains_key(k) ==> exists|i: int|
                0 <= i < self.entries@.len() && #[trigger] self.entries@[i].0@ == k
        &&& forall|i: int, j: int|
            0 <= i < self.entries@.len() && 0 <= j < self.entries@.len() && i != j
                ==> self.entries@[i].0@ != self.entries@[j].0@
    }

    /// The number of entries.
    pub closed spec fn spec_len(&self) -> nat {
        self.entries@.len()
    }

    /// The key and location of entry `i`.
    pub closed spec fn spec_entry(&self, i: int) -> (Seq<char>, LogMeta) {
        (self.entries@[i].0@, self.entries@[i].1)
    }

    /// Every key of the map is one of the entries, and each entry is in the map.
    pub proof fn lemma_entries(&self)
        requires
            self.wf(),
        ensures
            forall|i: int|
                0 <= i < self.spec_len() ==> #[trigger] self@.contains_key(self.spec_entry(i).0)
                    && self@[self.spec_entry(i).0] == self.spec_entry(i).1,
            forall|k: Seq<char>|
                #[trigger] self@.contains_key(k) ==> exists|i: int|
                    0 <= i < self.spec_len() && #[trigger] self.spec_entry(i).0 == k,
            forall|i: int, j: int|
                0 <= i < self.spec_len() && 0 <= j < self.spec_len() && i != j
                    ==> self.spec_entry(i).0 != self.spec_entry(j).0,
    {
        assert forall|k: Seq<char>| #[trigger] self@.contains_key(k) implies exists|i: int|
            0 <= i < self.spec_len() && #[trigger] self.spec_entry(i).0 == k by {
            let i = choose|i: int| 0 <= i < self.entries@.len() && #[trigger] self.entries@[i].0@ == k;
            assert(self.spec_entry(i).0 == k);
        }
    }

    pub fn new() -> (r: KvsIndex)
        ensures
            r.wf(),
            r@ == Map::<Seq<char>, LogMeta>::empty(),
    {
        KvsIndex { entries: Vec::new(), m: Ghost(Map::empty()) }
    }

    pub fn len(&self) -> (r: usize)
        requires
            self.wf(),
        ensures
            r == self.spec_len(),
            r == self@.dom().len(),
    {
        proof {
            self.lemma_len();
        }
        self.entries.len()
    }

    proof fn lemma_len(&self)
        requires
            self.wf(),
        ensures
            self@.dom().finite(),
            self@.dom().len() == self.spec_len(),
        decreases self.entries@.len(),
    {
        let keys = self.entries@.map_values(|e: (String, LogMeta)| e.0@);
        assert(keys.no_duplicates()) by {
            assert forall|i: int, j: int|
                0 <= i < keys.len() && 0 <= j < keys.len() && i != j implies keys[i]
                != keys[j] by {}
        }
        assert(keys.to_set() =~= self@.dom()) by {
            assert forall|k: Seq<char>| keys.to_set().contains(k) <==> self@.dom().contains(k) by {
                if self@.dom().contains(k) {
                    assert(self.m@.contains_key(k));
                    let i = choose|i: int|
                        0 <= i < self.entries@.len() && #[trigger] self.entries@[i].0@ == k;
                    assert(keys[i] == k);
                }
                if keys.to_set().contains(k) {
                    let i = choose|i: int| 0 <= i < keys.len() && keys[i] == k;
                    assert(self.m@.contains_key(self.entries@[i].0@));
                }
            }
        }
        keys.unique_seq_to_set();
    }

    /// The key and location of entry `i`.
    pub fn entry(&self, i: usize) -> (r: (&String, LogMeta))
        requires
            i < self.spec_len(),
        ensures
            (r.0@, r.1) == self.spec_entry(i as int),
    {
        (&self.entries[i].0, self.entries[i].1)
    }

    fn find(&self, key: &String) -> (r: Option<usize>)
        requires
            self.wf(),
        ensures
            match r {
                Some(i) => i < self.entries@.len() && self.entries@[i as int].0@ == key@,
                None => !self@.contains_key(key@),
            },
    {
        let mut i: usize = 0;
        while i < self.entries.len()
            invariant
                self.wf(),
                0 <= i <= self.entries@.len(),
                forall|j: int| 0 <= j < i ==> self.entries@[j].0@ != key@,
            decreases self.entries.len() - i,
        {
            if self.entries[i].0 == *key {
                return Some(i);
            }
            i = i + 1;
        }
        None
    }

    pub fn contains_key(&self, key: &String) -> (r: bool)
        requires
            self.wf(),
        ensures
            r == self@.contains_key(key@),
    {
        self.find(key).is_some()
    }

    pub fn get(&self, key: &String) -> (r: Option<LogMeta>)
        requires
            self.wf(),
        ensures
            match r {
                Some(m) => self@.contains_key(key@) && self@[key@] == m,
                None => !self@.contains_key(key@),
            },
    {
        match self.find(key) {
            Some(i) => {
                assert(self.m@.contains_key(self.entries@[i as int].0@));
                Some(self.entries[i].1)
            },
            None => None,
        }
    }

    /// Points `key` at `meta`; gives the length of the record it pointed at
    /// before, or 0.
    pub fn insert(&mut self, key: String, meta: LogMeta) -> (r: usize)
        requires
            old(self).wf(),
        ensures
            final(self).wf(),
            final(self)@ == old(self)@.insert(key@, meta),
            r == (if old(self)@.contains_key(key@) {
                old(self)@[key@].len
            } else {
                0
            }),
    {
        match self.find(&key) {
            Some(i) => {
                let prev = self.entries[i].1.len;
                let ghost k = key@;
                self.entries.set(i, (key, meta));
                self.m = Ghost(self.m@.insert(k, meta));
                assert forall|j: int| 0 <= j < self.entries@.len() implies #[trigger] self.m@.contains_key(
                    self.entries@[j].0@,
                ) && self.m@[self.entries@[j].0@] == self.entries@[j].1 by {
                    if j != i {
                        assert(old(self).m@.contains_key(old(self).entries@[j].0@));
                        assert(self.entries@[j] == old(self).entries@[j]);
                    }
                }
                assert forall|a: int, b: int|
                    0 <= a < self.entries@.len() && 0 <= b < self.entries@.len() && a
                        != b implies self.entries@[a].0@ != self.entries@[b].0@ by {
                    assert(self.entries@[a].0@ == old(self).entries@[a].0@);
                    assert(self.entries@[b].0@ == old(self).entries@[b].0@);
                }
                assert forall|k2: Seq<char>| #[trigger] self.m@.contains_key(k2) implies exists|
                    j: int,
                | 0 <= j < self.entries@.len() && #[trigger] self.entries@[j].0@ == k2 by {
                    if k2 != k {
                        let j = choose|j: int|
                            0 <= j < old(self).entries@.len() && #[trigger] old(
                                self,
                            ).entries@[j].0@ == k2;
                        assert(self.entries@[j].0@ == k2);
                    } else {
                        assert(self.entries@[i as int].0@ == k2);
                    }
                }
                prev
            },
            None => {
                let ghost k = key@;
                self.entries.push((key, meta));
                self.m = Ghost(self.m@.insert(k, meta));
                let ghost n = old(self).entries@.len() as int;
                assert forall|j: int| 0 <= j < n implies old(self).entries@[j].0@ != k by {
                    assert(old(self).m@.contains_key(old(self).entries@[j].0@));
                }
                assert forall|j: int| 0 <= j < self.entries@.len() implies #[trigger] self.m@.contains_key(
                    self.entries@[j].0@,
                ) && self.m@[self.entries@[j].0@] == self.entries@[j].1 by {
                    if j != n {
                        assert(old(self).m@.contains_key(old(self).entries@[j].0@));
                        assert(self.entries@[j] == old(self).entries@[j]);
                    }
                }
                assert forall|a: int, b: int|
                    0 <= a < self.entries@.len() && 0 <= b < self.entries@.len() && a
                        != b implies self.entries@[a].0@ != self.entries@[b].0@ by {
                    if a != n && b != n {
                        assert(self.entries@[a] == old(self).entries@[a]);
                        assert(self.entries@[b] == old(self).entries@[b]);
                    } else if a != n {
                        assert(self.entries@[a] == old(self).entries@[a]);
                    } else {
                        assert(self.entries@[b] == old(self).entries@[b]);
                    }
                }
                assert forall|k2: Seq<char>| #[trigger] self.m@.contains_key(k2) implies exists|
                    j: int,
                | 0 <= j < self.entries@.len() && #[trigger] self.entries@[j].0@ == k2 by {
                    if k2 != k {
                        let j = choose|j: int|
                            0 <= j < old(self).entries@.len() && #[trigger] old(
                                self,
                            ).entries@[j].0@ == k2;
                        assert(self.entries@[j].0@ == k2);
                    } else {
                        assert(self.entries@[self.entries@.len() - 1].0@ == k2);
                    }
                }
                0
            },
        }
    }

    /// Drops `key`; gives the length of the record it pointed at, or 0 for a
    /// key that is not there.
    pub fn remove(&mut self, key: &String) -> (r: usize)
        requires
            old(self).wf(),
        ensures
            final(self).wf(),
            final(self)@ == old(self)@.remove(key@),
            r == (if old(self)@.contains_key(key@) {
                old(self)@[key@].len
            } else {
                0
            }),
    {
        match self.find(key) {
            Some(i) => {
                let ghost k = key@;
                let ghost olde = self.entries@;
                assert(self.m@.contains_key(self.entries@[i as int].0@));
                let (_, meta) = self.entries.swap_remove(i);
                self.m = Ghost(self.m@.remove(k));
                assert forall|j: int| 0 <= j < self.entries@.len() implies #[trigger] self.m@.contains_key(
                    self.entries@[j].0@,
                ) && self.m@[self.entries@[j].0@] == self.entries@[j].1 by {
                    if j == i {
                        assert(self.entries@[j] == olde[olde.len() - 1]);
                    } else {
                        assert(self.entries@[j] == olde[j]);
                    }
                }
                assert forall|k2: Seq<char>| #[trigger] self.m@.contains_key(k2) implies exists|
                    j: int,
                | 0 <= j < self.entries@.len() && #[trigger] self.entries@[j].0@ == k2 by {
                    let j = choose|j: int|
                        0 <= j < olde.len() && #[trigger] old(self).entries@[j].0@ == k2;
                    if j == olde.len() - 1 {
                        assert(self.entries@[i as int].0@ == k2);
                    } else {
                        assert(self.entries@[j].0@ == k2);
                    }
                }
                assert forall|a: int, b: int|
                    0 <= a < self.entries@.len() && 0 <= b < self.entries@.len() && a
                        != b implies self.entries@[a].0@ != self.entries@[b].0@ by {
                    let oa = if a == i {
                        olde.len() - 1
                    } else {
                        a
                    };
                    let ob = if b == i {
                        olde.len() - 1
                    } else {
                        b
                    };
                    assert(self.entries@[a] == olde[oa]);
                    assert(self.entries@[b] == olde[ob]);
                }
                meta.len
            },
            None => {
                assert(self.m@.remove(key@) =~= self.m@);
                0
            },
        }
    }
}

} // verus!
