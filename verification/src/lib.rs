//! An embedded, single-writer key-value store backed by an append-only
//! command log, split across size-bounded segment files.  String keys map to
//! string values; every mutation is one encoded command appended to the
//! current writable segment, and the in-memory index is rebuilt on open by
//! replaying every segment in creation order.  The log is the single source
//! of truth: durability comes from it, never from the index.

pub mod cmd;
pub mod codec;
pub mod index;
pub mod segment;
pub mod storage;

use vstd::prelude::*;

use cmd::{CmdView, KvStoreCmd, KvStoreSet, KvStoreRm};
use codec::{cmd_valid, encode_cmd, encoded_len};
use index::KvIndex;
use segment::{Segment, SegView, seg_wf, seg_records, lemma_seg_torn_tail};
use storage::{
    KvStoreArchive, LiveEntry, apply_record, entry_loc, index_valid, lemma_locs_of_empty,
    lemma_locs_of_insert, lemma_locs_of_remove, lemma_log_index_valid, lemma_replay_records_snoc,
    lemma_replay_segs_congruent, locs_of, log_index, log_kv, log_locs, replay_records,
    replay_segs, seg_nums_ascending, vals_of, views_of,
};

verus! {

/// The failures the store can surface.
#[derive(Clone, Copy, Debug, PartialEq, Eq, Structural)]
pub enum KvError {
    /// A file-system read or write failed.
    IoFailure,
    /// Bytes at a location the index vouched for did not decode as the
    /// expected record: torn state reached through a bug, or tampering.
    CorruptRecord,
    /// A location named a segment the archive does not hold: an internal
    /// consistency violation.
    UnknownSegment,
    /// `remove` was asked to drop a key that is not present.
    KeyNotFound,
}

/// The store: an in-memory index over an on-disk command log.  Observable
/// state is a map from key to value; every mutation appends one record
/// before the index learns of it.
pub struct KvStore {
    /// Key → location of its latest `Put`, rebuilt from the log on open.
    pub index: KvIndex,
    /// The ordered segments of the log and the write target.
    pub archive: KvStoreArchive,
}

impl View for KvStore {
    type V = Map<Seq<char>, Seq<char>>;

    /// What the store observably holds: the mapping the log replays to.
    open spec fn view(&self) -> Map<Seq<char>, Seq<char>> {
        log_kv(self.archive@)
    }
}

impl KvStore {
    /// The index is exactly the location part of the replayed log, so a
    /// lookup and a replay can never disagree.
    pub open spec fn wf(self) -> bool {
        &&& self.archive.wf()
        &&& self.index.wf()
        &&& self.index@ == log_locs(self.archive@)
    }

    /// Open a store from its segment files, read in creation order as the
    /// manifest lists them.  The index is rebuilt by one linear replay;
    /// torn trailing records are ignored.  Segment numbers that do not
    /// strictly increase mean the on-disk state is corrupt.
    pub fn open(segments: Vec<Segment>) -> (r: Result<KvStore, KvError>)
        ensures
            match r {
                Ok(store) => {
                    &&& store.wf()
                    &&& seg_nums_ascending(views_of(segments@))
                    &&& store@ == log_kv(views_of(segments@))
                },
                Err(e) => e == KvError::CorruptRecord && !seg_nums_ascending(
                    views_of(segments@),
                ),
            },
    {
        let archive = match KvStoreArchive::open(segments) {
            Ok(a) => a,
            Err(e) => {
                return Err(e);
            }
        };
        let index = match archive.generate_index() {
            Ok(idx) => idx,
            Err(e) => {
                proof {
                    assert(false);
                }
                return Err(e);
            }
        };
        Ok(KvStore { index, archive })
    }

    /// Add a key/value pair.  If the key already exists, the value stored
    /// for it is overwritten.  The record is appended before the index is
    /// updated.
    pub fn set(&mut self, key: String, value: String) -> (r: Result<(), KvError>)
        requires
            old(self).wf(),
        ensures
            final(self).wf(),
            r is Ok,
            final(self)@ == old(self)@.insert(key@, value@),
    {
        let ghost pre_archive = self.archive@;
        let ghost kview = key@;
        let ghost vview = value@;
        let cmd = KvStoreCmd::Put(KvStoreSet { key: key.clone(), val: value });
        let (f, o) = match self.archive.write_cmd(cmd) {
            Ok(x) => x,
            Err(e) => {
                proof {
                    assert(false);
                }
                return Err(e);
            }
        };
        self.index.insert(key, f, o);
        proof {
            lemma_locs_of_insert(
                log_index(pre_archive),
                kview,
                LiveEntry { file_num: f, offset: o, val: vview },
            );
        }
        Ok(())
    }

    /// Get the value for a key.  An absent key yields `None`, not an
    /// error.  A hit resolves the index's location through the archive.
    pub fn get(&mut self, key: String) -> (r: Result<Option<String>, KvError>)
        requires
            old(self).wf(),
        ensures
            *final(self) == *old(self),
            r matches Ok(v) && match v {
                Some(s) => old(self)@.contains_key(key@) && s@ == old(self)@[key@],
                None => !old(self)@.contains_key(key@),
            },
    {
        match self.index.get(&key) {
            Some((f, o)) => {
                proof {
                    self.archive.lemma_bounded();
                    lemma_log_index_valid(self.archive@);
                    assert(log_index(self.archive@).contains_key(key@));
                    assert(entry_loc(log_index(self.archive@)[key@]) == (f, o));
                }
                match self.archive.read_value_from_filenum_at_offset(f, o) {
                    Ok(v) => Ok(Some(v)),
                    Err(e) => {
                        proof {
                            assert(false);
                        }
                        Err(e)
                    }
                }
            }
            None => Ok(None),
        }
    }

    /// Remove a key/value pair.  Removing a key that is not present is a
    /// caller error, `KeyNotFound` — unlike replay, which must ignore
    /// such tombstones for idempotent recovery.  On success the tombstone
    /// is appended before the index entry is dropped.
    pub fn remove(&mut self, key: String) -> (r: Result<(), KvError>)
        requires
            old(self).wf(),
        ensures
            final(self).wf(),
            old(self)@.contains_key(key@) ==> r is Ok && final(self)@ == old(self)@.remove(
                key@,
            ),
            !old(self)@.contains_key(key@) ==> r == Err::<(), KvError>(KvError::KeyNotFound)
                && *final(self) == *old(self),
    {
        let ghost pre_archive = self.archive@;
        let ghost kview = key@;
        match self.index.get(&key) {
            None => Err(KvError::KeyNotFound),
            Some(_) => {
                let cmd = KvStoreCmd::Rm(KvStoreRm { key: key.clone() });
                let (f, o) = match self.archive.write_cmd(cmd) {
                    Ok(x) => x,
                    Err(e) => {
                        proof {
                            assert(false);
                        }
                        return Err(e);
                    }
                };
                self.index.remove(&key);
                proof {
                    lemma_locs_of_remove(log_index(pre_archive), kview);
                }
                Ok(())
            }
        }
    }

    /// Reclaim the space of superseded and tombstoned records: rewrite
    /// only the live keys into a fresh sealed segment, point the index at
    /// it, begin a new writable segment, and retire everything older.
    /// The observable mapping is unchanged.  When segment numbers are
    /// nearly exhausted, compaction declines and changes nothing — space
    /// is simply not reclaimed.
    pub fn compact(&mut self) -> (r: Result<(), KvError>)
        requires
            old(self).wf(),
        ensures
            final(self).wf(),
            r is Ok,
            final(self)@ == old(self)@,
            old(self).archive.last_num() < u64::MAX - 1 ==> {
                &&& final(self).archive@.len() == 2
                &&& seg_records(final(self).archive@[0].data, 0).len() == old(
                    self,
                ).index.entries_view().len()
                &&& final(self).archive@[1].data == Seq::<u8>::empty()
            },
    {
        let ghost pre = *old(self);
        let last = self.archive.last_file_num();
        if last >= u64::MAX - 1 {
            return Ok(());
        }
        let comp_num = last + 1;
        let fresh_num = last + 2;
        let mut comp = Segment::new(comp_num);
        let mut new_index = KvIndex::new();
        let ghost mut gm = Map::<Seq<char>, LiveEntry>::empty();
        let ghost ev = self.index.entries_view();
        proof {
            lemma_locs_of_empty();
            self.archive.lemma_bounded();
            lemma_log_index_valid(self.archive@);
        }
        let n = self.index.num_entries();
        let mut i: usize = 0;
        while i < n
            invariant
                *self == pre,
                pre.wf(),
                index_valid(pre.archive@),
                i <= n,
                n == ev.len(),
                ev == pre.index.entries_view(),
                comp.wf(),
                comp@.file_num == comp_num,
                new_index.wf(),
                new_index@ == locs_of(gm),
                replay_records(Map::<Seq<char>, LiveEntry>::empty(), comp_num, comp.records())
                    == gm,
                comp.records().len() == i,
                forall|j: int| 0 <= j < i ==> {
                    &&& gm.contains_key((#[trigger] ev[j]).0)
                    &&& pre@.contains_key(ev[j].0)
                    &&& gm[ev[j].0].val == pre@[ev[j].0]
                },
                forall|k: Seq<char>| #[trigger] gm.contains_key(k) ==> exists|j: int|
                    0 <= j < i && ev[j].0 == k,
            decreases n - i,
        {
            let (key, f, o) = self.index.entry_at(i);
            let ghost kview = key@;
            proof {
                index::lemma_entries_map_hit(ev, i as int);
                pre.index.lemma_view_is_entries();
                assert(ev[i as int] == (kview, f, o));
                assert(pre.index@[kview] == (f, o));
                assert(log_locs(pre.archive@).contains_key(kview));
                assert(log_index(pre.archive@).contains_key(kview));
                assert(entry_loc(log_index(pre.archive@)[kview]) == (f, o));
                assert(pre@.contains_key(kview));
                assert(pre@[kview] == log_index(pre.archive@)[kview].val);
            }
            let val = match self.archive.read_value_from_filenum_at_offset(f, o) {
                Ok(v) => v,
                Err(e) => {
                    proof {
                        assert(false);
                    }
                    return Err(e);
                }
            };
            let key2 = key.clone();
            let cmd = KvStoreCmd::Put(KvStoreSet { key, val });
            let ghost gmb = gm;
            let ghost recs_before = comp.records();
            let off = comp.append(&cmd);
            proof {
                lemma_replay_records_snoc(
                    Map::<Seq<char>, LiveEntry>::empty(),
                    comp_num,
                    recs_before,
                    (off as int, cmd@),
                );
                gm = gm.insert(
                    kview,
                    LiveEntry { file_num: comp_num, offset: off, val: pre@[kview] },
                );
                assert(apply_record(gmb, comp_num, (off as int, cmd@)) == gm);
            }
            new_index.insert(key2, comp_num, off);
            proof {
                lemma_locs_of_insert(
                    gmb,
                    kview,
                    LiveEntry { file_num: comp_num, offset: off, val: pre@[kview] },
                );
                assert forall|j: int| 0 <= j < i + 1 implies {
                    &&& gm.contains_key((#[trigger] ev[j]).0)
                    &&& pre@.contains_key(ev[j].0)
                    &&& gm[ev[j].0].val == pre@[ev[j].0]
                } by {
                    if j < i {
                        assert(ev[j].0 != kview);
                    }
                }
                assert forall|k: Seq<char>| #[trigger] gm.contains_key(k) implies exists|j: int|
                    0 <= j < i + 1 && ev[j].0 == k by {
                    if k == kview {
                        assert(0 <= i < i + 1 && ev[i as int].0 == k);
                    } else {
                        assert(gmb.contains_key(k));
                        let j = choose|j: int| 0 <= j < i && ev[j].0 == k;
                        assert(0 <= j < i + 1 && ev[j].0 == k);
                    }
                }
            }
            i += 1;
        }
        let fresh = Segment::new(fresh_num);
        let ghost compv = comp@;
        let ghost freshv = fresh@;
        self.archive.replace_segments(comp, fresh);
        self.index = new_index;
        proof {
            let segs = seq![compv, freshv];
            assert(segs.drop_first() =~= seq![freshv]);
            assert(seq![freshv].drop_first() =~= Seq::<SegView>::empty());
            assert(seg_records(freshv.data, 0) =~= Seq::<(int, CmdView)>::empty());
            assert(log_index(segs) == replay_segs(
                replay_records(
                    Map::<Seq<char>, LiveEntry>::empty(),
                    comp_num,
                    seg_records(compv.data, 0),
                ),
                segs.drop_first(),
            ));
            assert(replay_records(
                Map::<Seq<char>, LiveEntry>::empty(),
                comp_num,
                seg_records(compv.data, 0),
            ) == gm);
            assert(replay_records(gm, freshv.file_num, seg_records(freshv.data, 0)) == gm);
            assert(replay_segs(gm, Seq::<SegView>::empty()) == gm);
            assert(log_index(segs) == gm);
            assert(self.archive@ == segs);
            assert forall|k: Seq<char>| #[trigger] vals_of(gm).contains_key(k) implies
                pre@.contains_key(k) && vals_of(gm)[k] == pre@[k] by {
                assert(gm.contains_key(k));
                let j = choose|j: int| 0 <= j < n && ev[j].0 == k;
                assert(gm.contains_key(ev[j].0) && pre@.contains_key(ev[j].0)
                    && gm[ev[j].0].val == pre@[ev[j].0]);
            }
            assert forall|k: Seq<char>| #[trigger] pre@.contains_key(k) implies vals_of(
                gm,
            ).contains_key(k) by {
                if !gm.contains_key(k) {
                    assert(log_index(pre.archive@).contains_key(k));
                    assert(log_locs(pre.archive@).contains_key(k));
                    assert(pre.index@.contains_key(k));
                    pre.index.lemma_view_is_entries();
                    if forall|j: int| 0 <= j < ev.len() ==> (#[trigger] ev[j]).0 != k {
                        index::lemma_entries_map_absent(ev, k);
                        assert(false);
                    } else {
                        let j = choose|j: int| 0 <= j < ev.len() && (#[trigger] ev[j]).0 == k;
                        assert(gm.contains_key(ev[j].0));
                        assert(false);
                    }
                }
            }
            assert(vals_of(gm) =~= pre@);
            assert(self@ == vals_of(gm));
        }
        Ok(())
    }
}

/// Rebuilding from the log is faithful: the mapping that replaying a
/// well-formed store's segments yields — which `open` computes and hands
/// to the reopened store — is exactly the store's observable mapping, and
/// `open` accepts those segments.
pub proof fn lemma_reopen_round_trip(store: KvStore, segments: Vec<Segment>)
    requires
        store.wf(),
        views_of(segments@) == store.archive@,
    ensures
        seg_nums_ascending(views_of(segments@)),
        log_kv(views_of(segments@)) == store@,
{
}

/// The last writer wins: writing `a` then `b` under one key leaves `b`,
/// and a lookup of that key reads `b`.  With `set`'s and `get`'s
/// contracts this is exactly: set(k, a); set(k, b); get(k) yields `b`.
pub proof fn lemma_last_writer_wins(
    m: Map<Seq<char>, Seq<char>>,
    k: Seq<char>,
    a: Seq<char>,
    b: Seq<char>,
)
    ensures
        m.insert(k, a).insert(k, b) == m.insert(k, b),
        m.insert(k, b).contains_key(k),
        m.insert(k, b)[k] == b,
{
    assert(m.insert(k, a).insert(k, b) =~= m.insert(k, b));
}

/// A tombstone hides the key: after writing and then removing it, a
/// lookup finds nothing.  With `remove`'s contract, a second `remove`
/// then fails with `KeyNotFound`.
pub proof fn lemma_tombstone(m: Map<Seq<char>, Seq<char>>, k: Seq<char>, a: Seq<char>)
    ensures
        !m.insert(k, a).remove(k).contains_key(k),
{
}

/// Crash-tail tolerance: a well-formed log whose writable segment gained
/// a strict prefix of one record — the torn trailing write a crash can
/// leave — replays to exactly the mapping of the untouched log.
pub proof fn lemma_crash_tail_tolerance(segs: Seq<SegView>, c: CmdView, j: int)
    requires
        segs.len() >= 1,
        seg_wf(segs.last().data),
        cmd_valid(c),
        0 <= j < encoded_len(c),
    ensures
        ({
            let last = segs.len() - 1;
            let torn = SegView {
                file_num: segs.last().file_num,
                data: segs.last().data + encode_cmd(c).take(j),
            };
            log_kv(segs.update(last, torn)) == log_kv(segs)
        }),
{
    let last = segs.len() - 1;
    let torn = SegView {
        file_num: segs.last().file_num,
        data: segs.last().data + encode_cmd(c).take(j),
    };
    let upd = segs.update(last, torn);
    lemma_seg_torn_tail(segs.last().data, c, j);
    assert forall|i: int| 0 <= i < upd.len() implies #[trigger] upd[i].file_num == segs[
        i
    ].file_num && seg_records(upd[i].data, 0) == seg_records(segs[i].data, 0) by {
        if i < last {
            assert(upd[i] == segs[i]);
        } else {
            assert(upd[i] == torn);
            assert(segs[i] == segs.last());
        }
    }
    lemma_replay_segs_congruent(Map::<Seq<char>, LiveEntry>::empty(), upd, segs);
}

} // verus!
