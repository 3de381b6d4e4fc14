//! The in-memory index: each key maps to the location — (segment number,
//! byte offset) — of its most recent `Put` record.  The index is rebuilt
//! from the log on every open and is never persisted; durability comes
//! from the log alone.

use vstd::prelude::*;

verus! {

/// One index entry.
pub struct IndexEntry {
    pub key: String,
    pub file_num: u64,
    pub offset: u64,
}

/// The mapping from key to the location of the latest `Put` for it.
/// Absence of a key means the key was never set or its last record is a
/// `Rm` tombstone.
pub struct KvIndex {
    entries: Vec<IndexEntry>,
}

/// The map an entry list denotes, later entries winning.
pub open spec fn entries_map(s: Seq<(Seq<char>, u64, u64)>) -> Map<Seq<char>, (u64, u64)>
    decreases s.len(),
{
    if s.len() == 0 {
        Map::<Seq<char>, (u64, u64)>::empty()
    } else {
        entries_map(s.drop_last()).insert(s.last().0, (s.last().1, s.last().2))
    }
}

/// No key occurs twice.
pub open spec fn keys_distinct(s: Seq<(Seq<char>, u64, u64)>) -> bool {
    forall|i: int, j: int| 0 <= i < j < s.len() ==> s[i].0 != s[j].0
}

/// A key on no entry is absent from the denoted map.
pub proof fn lemma_entries_map_absent(s: Seq<(Seq<char>, u64, u64)>, k: Seq<char>)
    requires
        forall|j: int| 0 <= j < s.len() ==> s[j].0 != k,
    ensures
        !entries_map(s).contains_key(k),
    decreases s.len(),
{
    if s.len() > 0 {
        lemma_entries_map_absent(s.drop_last(), k);
    }
}

/// With distinct keys, each entry is bound in the denoted map.
pub proof fn lemma_entries_map_hit(s: Seq<(Seq<char>, u64, u64)>, i: int)
    requires
        keys_distinct(s),
        0 <= i < s.len(),
    ensures
        entries_map(s).contains_key(s[i].0),
        entries_map(s)[s[i].0] == (s[i].1, s[i].2),
    decreases s.len(),
{
    if i < s.len() - 1 {
        lemma_entries_map_hit(s.drop_last(), i);
        assert(s.last().0 != s[i].0);
    }
}

/// Replacing entry `i`'s location realises `insert` on the map.
pub proof fn lemma_entries_map_set(s: Seq<(Seq<char>, u64, u64)>, i: int, f: u64, o: u64)
    requires
        keys_distinct(s),
        0 <= i < s.len(),
    ensures
        entries_map(s.update(i, (s[i].0, f, o))) == entries_map(s).insert(s[i].0, (f, o)),
    decreases s.len(),
{
    let u = s.update(i, (s[i].0, f, o));
    if i == s.len() - 1 {
        assert(u.drop_last() =~= s.drop_last());
        assert(u.last() == (s[i].0, f, o));
        assert(entries_map(s.drop_last()).insert(s[i].0, (f, o)) =~= entries_map(
            s.drop_last(),
        ).insert(s.last().0, (s.last().1, s.last().2)).insert(s[i].0, (f, o)));
    } else {
        assert(u.drop_last() =~= s.drop_last().update(i, (s[i].0, f, o)));
        assert(u.last() == s.last());
        lemma_entries_map_set(s.drop_last(), i, f, o);
        assert(s.last().0 != s[i].0);
        assert(entries_map(s.drop_last()).insert(s[i].0, (f, o)).insert(
            s.last().0,
            (s.last().1, s.last().2),
        ) =~= entries_map(s.drop_last()).insert(s.last().0, (s.last().1, s.last().2)).insert(
            s[i].0,
            (f, o),
        ));
    }
}

/// Deleting entry `i` realises `remove` on the map.
pub proof fn lemma_entries_map_del(s: Seq<(Seq<char>, u64, u64)>, i: int)
    requires
        keys_distinct(s),
        0 <= i < s.len(),
    ensures
        entries_map(s.remove(i)) == entries_map(s).remove(s[i].0),
    decreases s.len(),
{
    let r = s.remove(i);
    if i == s.len() - 1 {
        assert(r =~= s.drop_last());
        lemma_entries_map_absent_distinct(s.drop_last(), s[i].0, i);
        assert(entries_map(s.drop_last()) =~= entries_map(s.drop_last()).insert(
            s.last().0,
            (s.last().1, s.last().2),
        ).remove(s[i].0));
    } else {
        assert(r.drop_last() =~= s.drop_last().remove(i));
        assert(r.last() == s.last());
        lemma_entries_map_del(s.drop_last(), i);
        assert(s.last().0 != s[i].0);
        assert(entries_map(s.drop_last()).remove(s[i].0).insert(
            s.last().0,
            (s.last().1, s.last().2),
        ) =~= entries_map(s.drop_last()).insert(s.last().0, (s.last().1, s.last().2)).remove(
            s[i].0,
        ));
    }
}

/// Helper: entry `i`'s key occurs nowhere among the first `i` entries.
proof fn lemma_entries_map_absent_distinct(t: Seq<(Seq<char>, u64, u64)>, k: Seq<char>, i: int)
    requires
        forall|j: int| 0 <= j < t.len() && j < i ==> t[j].0 != k,
        t.len() <= i,
    ensures
        !entries_map(t).contains_key(k),
{
    lemma_entries_map_absent(t, k);
}

impl View for KvIndex {
    type V = Map<Seq<char>, (u64, u64)>;

    closed spec fn view(&self) -> Map<Seq<char>, (u64, u64)> {
        entries_map(self.entries_view())
    }
}

impl KvIndex {
    /// The entries as (key, segment number, offset) triples, in storage
    /// order.
    pub closed spec fn entries_view(self) -> Seq<(Seq<char>, u64, u64)> {
        self.entries@.map_values(|e: IndexEntry| (e.key@, e.file_num, e.offset))
    }

    /// Each key is held by at most one entry, so every entry is
    /// authoritative for its key.
    pub open spec fn wf(self) -> bool {
        keys_distinct(self.entries_view())
    }

    /// The denoted map is exactly the fold of the entries.
    pub proof fn lemma_view_is_entries(self)
        ensures
            self@ == entries_map(self.entries_view()),
    {
    }

    /// An empty index.
    pub fn new() -> (idx: KvIndex)
        ensures
            idx.wf(),
            idx@ == Map::<Seq<char>, (u64, u64)>::empty(),
            idx.entries_view() == Seq::<(Seq<char>, u64, u64)>::empty(),
    {
        let idx = KvIndex { entries: Vec::new() };
        proof {
            assert(idx.entries_view() =~= Seq::<(Seq<char>, u64, u64)>::empty());
        }
        idx
    }

    /// How many keys the index holds.
    pub fn num_entries(&self) -> (n: usize)
        ensures
            n == self.entries_view().len(),
    {
        self.entries.len()
    }

    /// The i-th entry, as a fresh copy of its key and location.
    pub fn entry_at(&self, i: usize) -> (r: (String, u64, u64))
        requires
            i < self.entries_view().len(),
        ensures
            (r.0@, r.1, r.2) == self.entries_view()[i as int],
    {
        let e = &self.entries[i];
        (e.key.clone(), e.file_num, e.offset)
    }

    /// The position of the entry holding `key`, if any.
    fn find(&self, key: &String) -> (r: Option<usize>)
        ensures
            match r {
                Some(i) => i < self.entries_view().len() && self.entries_view()[i as int].0
                    == key@,
                None => forall|j: int| 0 <= j < self.entries_view().len()
                    ==> self.entries_view()[j].0 != key@,
            },
    {
        let n = self.entries.len();
        let mut i: usize = 0;
        while i < n
            invariant
                i <= n,
                n == self.entries@.len(),
                forall|j: int| 0 <= j < i ==> self.entries_view()[j].0 != key@,
            decreases n - i,
        {
            if self.entries[i].key == *key {
                proof {
                    assert(self.entries_view()[i as int].0 == self.entries@[i as int].key@);
                }
                return Some(i);
            }
            i += 1;
        }
        None
    }

    /// Look a key up.
    pub fn get(&self, key: &String) -> (r: Option<(u64, u64)>)
        requires
            self.wf(),
        ensures
            match r {
                Some(loc) => self@.contains_key(key@) && self@[key@] == loc,
                None => !self@.contains_key(key@),
            },
    {
        match self.find(key) {
            Some(i) => {
                proof {
                    lemma_entries_map_hit(self.entries_view(), i as int);
                }
                Some((self.entries[i].file_num, self.entries[i].offset))
            }
            None => {
                proof {
                    lemma_entries_map_absent(self.entries_view(), key@);
                }
                None
            }
        }
    }

    /// Insert or overwrite the location for a key.
    pub fn insert(&mut self, key: String, file_num: u64, offset: u64)
        requires
            old(self).wf(),
        ensures
            final(self).wf(),
            final(self)@ == old(self)@.insert(key@, (file_num, offset)),
    {
        let ghost pre = *old(self);
        let ghost kview = key@;
        match self.find(&key) {
            Some(i) => {
                self.entries[i] = IndexEntry { key, file_num, offset };
                proof {
                    assert forall|j: int| 0 <= j < self.entries@.len() implies
                        self.entries_view()[j] == pre.entries_view().update(
                        i as int,
                        (kview, file_num, offset),
                    )[j] by {
                        assert(self.entries_view()[j] == (
                            self.entries@[j].key@,
                            self.entries@[j].file_num,
                            self.entries@[j].offset,
                        ));
                    }
                    assert(self.entries_view() =~= pre.entries_view().update(
                        i as int,
                        (kview, file_num, offset),
                    ));
                    lemma_entries_map_set(pre.entries_view(), i as int, file_num, offset);
                    assert(kview == pre.entries_view()[i as int].0);
                    assert(self@ == pre@.insert(kview, (file_num, offset)));
                    assert forall|a: int, b: int| 0 <= a < b < self.entries_view().len()
                        implies self.entries_view()[a].0 != self.entries_view()[b].0 by {
                        assert(self.entries_view()[a].0 == pre.entries_view()[a].0);
                        assert(self.entries_view()[b].0 == pre.entries_view()[b].0);
                    }
                }
            }
            None => {
                let ghost n = self.entries@.len();
                self.entries.push(IndexEntry { key, file_num, offset });
                proof {
                    assert(self.entries_view().len() == n + 1);
                    assert(self.entries_view()[n as int] == (kview, file_num, offset));
                    assert forall|j: int| 0 <= j < n implies self.entries_view()[j]
                        == pre.entries_view()[j] by {
                        assert(self.entries@[j] == pre.entries@[j]);
                    }
                    assert(self.entries_view().drop_last() =~= pre.entries_view());
                    assert(self.entries_view().last() == (kview, file_num, offset));
                    assert(self@ == pre@.insert(kview, (file_num, offset)));
                    assert forall|a: int, b: int| 0 <= a < b < self.entries_view().len()
                        implies self.entries_view()[a].0 != self.entries_view()[b].0 by {
                        assert(self.entries_view()[a] == pre.entries_view()[a]);
                        if b < n {
                            assert(self.entries_view()[b] == pre.entries_view()[b]);
                            assert(pre.entries_view()[a].0 != pre.entries_view()[b].0);
                        } else {
                            assert(self.entries_view()[b] == (kview, file_num, offset));
                            assert(pre.entries_view()[a].0 != kview);
                        }
                    }
                }
            }
        }
    }

    /// Drop a key's entry, if any.
    pub fn remove(&mut self, key: &String)
        requires
            old(self).wf(),
        ensures
            final(self).wf(),
            final(self)@ == old(self)@.remove(key@),
    {
        let ghost pre = *old(self);
        match self.find(key) {
            Some(i) => {
                self.entries.remove(i);
                proof {
                    assert forall|j: int| 0 <= j < self.entries@.len() implies
                        self.entries_view()[j] == pre.entries_view().remove(i as int)[j] by {
                        assert(self.entries_view()[j] == (
                            self.entries@[j].key@,
                            self.entries@[j].file_num,
                            self.entries@[j].offset,
                        ));
                        let pj: int = if j < i { j } else { j + 1 };
                        assert(self.entries@[j] == pre.entries@[pj]);
                    }
                    assert(self.entries_view() =~= pre.entries_view().remove(i as int));
                    lemma_entries_map_del(pre.entries_view(), i as int);
                    assert(key@ == pre.entries_view()[i as int].0);
                    assert(self@ == pre@.remove(key@));
                    assert forall|a: int, b: int| 0 <= a < b < self.entries_view().len()
                        implies self.entries_view()[a].0 != self.entries_view()[b].0 by {
                        let pa: int = if a < i { a } else { a + 1 };
                        let pb: int = if b < i { b } else { b + 1 };
                        assert(self.entries_view()[a] == pre.entries_view()[pa]);
                        assert(self.entries_view()[b] == pre.entries_view()[pb]);
                    }
                }
            }
            None => {
                proof {
                    lemma_entries_map_absent(pre.entries_view(), key@);
                    assert(pre@.remove(key@) =~= pre@);
                }
            }
        }
    }
}

} // verus!
