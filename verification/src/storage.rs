//! The archive: the ordered collection of segments, the write target, and
//! the replay semantics that give the whole log its meaning.
//!
//! Replaying every segment in creation order, and every record within a
//! segment in file order, folds the log into a map from key to the live
//! entry for it: the location and value of the latest `Put`, unless a later
//! `Rm` tombstoned the key.  That map is what the engine's index mirrors
//! and what `get` answers from.

use vstd::prelude::*;
use crate::cmd::{CmdView, KvStoreCmd};
use crate::codec::{
    encode_cmd, encoded_len, try_decode, lemma_decode_is_encoding, encode_command,
    decode_command_at,
};
use crate::segment::{Segment, SegView, seg_records, seg_stop, seg_wf};
use crate::index::KvIndex;
use crate::KvError;

verus! {

/// Identifies one segment, archive-wide.
pub type FileNum = u64;

/// A byte position inside one segment file.
pub type FileOffset = u64;

/// The writable segment is sealed and a fresh one is begun once a record
/// would push it past this many bytes.
pub const MAX_SEGMENT_BYTES: u64 = 1000;

/// The live entry replay keeps for a key: where its latest `Put` sits and
/// what value that record carries.
pub struct LiveEntry {
    pub file_num: u64,
    pub offset: u64,
    pub val: Seq<char>,
}

/// One replay step: a `Put` claims the key with its own location and
/// value; a `Rm` tombstones it.
pub open spec fn apply_record(
    m: Map<Seq<char>, LiveEntry>,
    f: u64,
    rec: (int, CmdView),
) -> Map<Seq<char>, LiveEntry> {
    match rec.1 {
        CmdView::Put { key, val } => m.insert(
            key,
            LiveEntry { file_num: f, offset: rec.0 as u64, val },
        ),
        CmdView::Rm { key } => m.remove(key),
    }
}

/// Replay the records of one segment, in file order.
pub open spec fn replay_records(
    m: Map<Seq<char>, LiveEntry>,
    f: u64,
    recs: Seq<(int, CmdView)>,
) -> Map<Seq<char>, LiveEntry>
    decreases recs.len(),
{
    if recs.len() == 0 {
        m
    } else {
        replay_records(apply_record(m, f, recs[0]), f, recs.drop_first())
    }
}

/// Replay whole segments, in creation order.
pub open spec fn replay_segs(m: Map<Seq<char>, LiveEntry>, segs: Seq<SegView>) -> Map<
    Seq<char>,
    LiveEntry,
>
    decreases segs.len(),
{
    if segs.len() == 0 {
        m
    } else {
        replay_segs(
            replay_records(m, segs[0].file_num, seg_records(segs[0].data, 0)),
            segs.drop_first(),
        )
    }
}

/// The single linear pass that is the whole recovery procedure: the live
/// entry for every key, from replaying the full log.
pub open spec fn log_index(segs: Seq<SegView>) -> Map<Seq<char>, LiveEntry> {
    replay_segs(Map::<Seq<char>, LiveEntry>::empty(), segs)
}

/// A live entry's location.
pub open spec fn entry_loc(e: LiveEntry) -> (u64, u64) {
    (e.file_num, e.offset)
}

/// The key→location map the index must equal.
pub open spec fn log_locs(segs: Seq<SegView>) -> Map<Seq<char>, (u64, u64)> {
    log_index(segs).map_values(|e: LiveEntry| entry_loc(e))
}

/// The observable key→value mapping of the store.
pub open spec fn log_kv(segs: Seq<SegView>) -> Map<Seq<char>, Seq<char>> {
    log_index(segs).map_values(|e: LiveEntry| e.val)
}

/// Every segment's byte image fits the machine: offsets fit a `u64`.
pub open spec fn segs_bounded(segs: Seq<SegView>) -> bool {
    forall|i: int| 0 <= i < segs.len() ==> #[trigger] segs[i].data.len() <= u64::MAX
}

/// Segment numbers strictly increase in creation order.
pub open spec fn seg_nums_ascending(segs: Seq<SegView>) -> bool {
    forall|i: int, j: int| 0 <= i < j < segs.len() ==> segs[i].file_num < segs[j].file_num
}

/// Whether some segment carries the given number.
pub open spec fn has_seg(segs: Seq<SegView>, f: u64) -> bool {
    exists|i: int| 0 <= i < segs.len() && segs[i].file_num == f
}

/// The position of the segment carrying `f`.
pub open spec fn seg_pos(segs: Seq<SegView>, f: u64) -> int {
    choose|i: int| 0 <= i < segs.len() && segs[i].file_num == f
}

/// The bytes of the segment carrying `f`.
pub open spec fn seg_data_of(segs: Seq<SegView>, f: u64) -> Seq<u8> {
    segs[seg_pos(segs, f)].data
}

/// The record found by decoding the segment `f` at `o`, if any.
pub open spec fn cmd_at(segs: Seq<SegView>, f: u64, o: u64) -> Option<CmdView> {
    if has_seg(segs, f) {
        match try_decode(seg_data_of(segs, f), o as int) {
            Some((c, end)) => Some(c),
            None => None,
        }
    } else {
        None
    }
}

/// A live entry is backed by the log: its location decodes to a `Put` of
/// exactly its key and value.
pub open spec fn entry_valid(segs: Seq<SegView>, k: Seq<char>, e: LiveEntry) -> bool {
    &&& has_seg(segs, e.file_num)
    &&& cmd_at(segs, e.file_num, e.offset) == Some(CmdView::Put { key: k, val: e.val })
}

/// Every live entry of the replayed log is backed by the log.
pub open spec fn index_valid(segs: Seq<SegView>) -> bool {
    forall|k: Seq<char>| #[trigger] log_index(segs).contains_key(k) ==> entry_valid(
        segs,
        k,
        log_index(segs)[k],
    )
}

/// With ascending numbers, at most one segment carries a number.
pub proof fn lemma_seg_pos_unique(segs: Seq<SegView>, f: u64)
    requires
        seg_nums_ascending(segs),
        has_seg(segs, f),
    ensures
        0 <= seg_pos(segs, f) < segs.len(),
        segs[seg_pos(segs, f)].file_num == f,
        forall|i: int| 0 <= i < segs.len() && segs[i].file_num == f ==> i == seg_pos(segs, f),
{
    let p = seg_pos(segs, f);
    assert(0 <= p < segs.len() && segs[p].file_num == f);
    assert forall|i: int| 0 <= i < segs.len() && segs[i].file_num == f implies i == p by {
        if i < p {
            assert(segs[i].file_num < segs[p].file_num);
        } else if i > p {
            assert(segs[p].file_num < segs[i].file_num);
        }
    }
}

pub proof fn lemma_replay_records_snoc(
    m: Map<Seq<char>, LiveEntry>,
    f: u64,
    recs: Seq<(int, CmdView)>,
    rec: (int, CmdView),
)
    ensures
        replay_records(m, f, recs.push(rec)) == apply_record(replay_records(m, f, recs), f, rec),
    decreases recs.len(),
{
    if recs.len() == 0 {
        assert(recs.push(rec)[0] == rec);
        assert(recs.push(rec).drop_first() =~= Seq::<(int, CmdView)>::empty());
        assert(replay_records(m, f, recs.push(rec)) == replay_records(
            apply_record(m, f, rec),
            f,
            Seq::<(int, CmdView)>::empty(),
        ));
        assert(replay_records(m, f, recs) == m);
    } else {
        assert(recs.push(rec)[0] == recs[0]);
        assert(recs.push(rec).drop_first() =~= recs.drop_first().push(rec));
        assert(replay_records(m, f, recs.push(rec)) == replay_records(
            apply_record(m, f, recs[0]),
            f,
            recs.drop_first().push(rec),
        ));
        lemma_replay_records_snoc(apply_record(m, f, recs[0]), f, recs.drop_first(), rec);
    }
}

pub proof fn lemma_replay_records_cons(
    m: Map<Seq<char>, LiveEntry>,
    f: u64,
    rec: (int, CmdView),
    rest: Seq<(int, CmdView)>,
)
    ensures
        replay_records(m, f, seq![rec] + rest) == replay_records(apply_record(m, f, rec), f, rest),
{
    let whole = seq![rec] + rest;
    assert(whole[0] == rec);
    assert(whole.drop_first() =~= rest);
}

pub proof fn lemma_replay_segs_snoc(m: Map<Seq<char>, LiveEntry>, segs: Seq<SegView>, s: SegView)
    ensures
        replay_segs(m, segs.push(s)) == replay_records(
            replay_segs(m, segs),
            s.file_num,
            seg_records(s.data, 0),
        ),
    decreases segs.len(),
{
    if segs.len() == 0 {
        assert(segs.push(s)[0] == s);
        assert(segs.push(s).drop_first() =~= Seq::<SegView>::empty());
        assert(replay_segs(m, segs.push(s)) == replay_segs(
            replay_records(m, s.file_num, seg_records(s.data, 0)),
            Seq::<SegView>::empty(),
        ));
        assert(replay_segs(m, segs) == m);
    } else {
        assert(segs.push(s)[0] == segs[0]);
        assert(segs.push(s).drop_first() =~= segs.drop_first().push(s));
        assert(replay_segs(m, segs.push(s)) == replay_segs(
            replay_records(m, segs[0].file_num, seg_records(segs[0].data, 0)),
            segs.drop_first().push(s),
        ));
        lemma_replay_segs_snoc(
            replay_records(m, segs[0].file_num, seg_records(segs[0].data, 0)),
            segs.drop_first(),
            s,
        );
    }
}

/// Every record the greedy scan reports decodes at its reported offset.
pub proof fn lemma_seg_records_decode(data: Seq<u8>, off: int)
    ensures
        forall|idx: int| 0 <= idx < seg_records(data, off).len() ==> {
            let rec = #[trigger] seg_records(data, off)[idx];
            &&& 0 <= rec.0 <= data.len()
            &&& try_decode(data, rec.0) matches Some((c, end)) && c == rec.1
        },
    decreases data.len() - off,
{
    if 0 <= off <= data.len() {
        match try_decode(data, off) {
            Some((c, end)) => {
                lemma_decode_is_encoding(data, off);
                if off < end && end <= data.len() {
                    lemma_seg_records_decode(data, end);
                    assert forall|idx: int| 0 <= idx < seg_records(data, off).len() implies {
                        let rec = #[trigger] seg_records(data, off)[idx];
                        &&& 0 <= rec.0 <= data.len()
                        &&& try_decode(data, rec.0) matches Some((c2, e2)) && c2 == rec.1
                    } by {
                        if idx == 0 {
                            assert(seg_records(data, off)[0] == (off, c));
                        } else {
                            assert(seg_records(data, off)[idx] == seg_records(data, end)[idx - 1]);
                        }
                    }
                }
            }
            None => {}
        }
    }
}

/// Replaying records that decode in segment `f` keeps every live entry
/// backed by the log.
proof fn lemma_replay_records_valid(
    segs: Seq<SegView>,
    f: u64,
    data: Seq<u8>,
    m: Map<Seq<char>, LiveEntry>,
    recs: Seq<(int, CmdView)>,
)
    requires
        seg_nums_ascending(segs),
        has_seg(segs, f),
        seg_data_of(segs, f) == data,
        data.len() <= u64::MAX,
        forall|k: Seq<char>| #[trigger] m.contains_key(k) ==> entry_valid(segs, k, m[k]),
        forall|idx: int| 0 <= idx < recs.len() ==> {
            let rec = #[trigger] recs[idx];
            &&& 0 <= rec.0 <= data.len()
            &&& try_decode(data, rec.0) matches Some((c, end)) && c == rec.1
        },
    ensures
        forall|k: Seq<char>| #[trigger] replay_records(m, f, recs).contains_key(k)
            ==> entry_valid(segs, k, replay_records(m, f, recs)[k]),
    decreases recs.len(),
{
    if recs.len() > 0 {
        let rec = recs[0];
        let m1 = apply_record(m, f, rec);
        assert(replay_records(m, f, recs) == replay_records(m1, f, recs.drop_first()));
        assert forall|k: Seq<char>| #[trigger] m1.contains_key(k) implies entry_valid(
            segs,
            k,
            m1[k],
        ) by {
            match rec.1 {
                CmdView::Put { key, val } => {
                    if k == key {
                        assert(m1[k] == LiveEntry { file_num: f, offset: rec.0 as u64, val });
                        assert(cmd_at(segs, f, rec.0 as u64) == Some(
                            CmdView::Put { key, val },
                        ));
                    }
                }
                CmdView::Rm { key } => {}
            }
        }
        assert forall|idx: int| 0 <= idx < recs.drop_first().len() implies {
            let r2 = #[trigger] recs.drop_first()[idx];
            &&& 0 <= r2.0 <= data.len()
            &&& try_decode(data, r2.0) matches Some((c, end)) && c == r2.1
        } by {
            assert(recs.drop_first()[idx] == recs[idx + 1]);
        }
        lemma_replay_records_valid(segs, f, data, m1, recs.drop_first());
    }
}

/// The heart of recovery: every entry of the replayed log is backed by a
/// decodable `Put` record in the segment it names.
pub proof fn lemma_log_index_valid(segs: Seq<SegView>)
    requires
        seg_nums_ascending(segs),
        segs_bounded(segs),
    ensures
        index_valid(segs),
    decreases segs.len(),
{
    if segs.len() == 0 {
    } else {
        let init = segs.drop_last();
        let s = segs.last();
        assert(segs_bounded(init)) by {
            assert forall|i: int| 0 <= i < init.len() implies #[trigger] init[i].data.len()
                <= u64::MAX by {
                assert(init[i] == segs[i]);
            }
        }
        lemma_log_index_valid(init);
        lemma_replay_segs_snoc(Map::<Seq<char>, LiveEntry>::empty(), init, s);
        assert(init.push(s) =~= segs);
        assert(log_index(segs) == replay_records(
            log_index(init),
            s.file_num,
            seg_records(s.data, 0),
        ));
        assert forall|k: Seq<char>| #[trigger] log_index(init).contains_key(k) implies
            entry_valid(segs, k, log_index(init)[k]) by {
            let e = log_index(init)[k];
            assert(entry_valid(init, k, e));
            lemma_seg_pos_unique(init, e.file_num);
            let p = seg_pos(init, e.file_num);
            assert(segs[p] == init[p]);
            assert(has_seg(segs, e.file_num));
            lemma_seg_pos_unique(segs, e.file_num);
            assert(seg_pos(segs, e.file_num) == p);
            assert(seg_data_of(segs, e.file_num) == seg_data_of(init, e.file_num));
        }
        lemma_seg_records_decode(s.data, 0);
        assert(has_seg(segs, s.file_num)) by {
            assert(segs[segs.len() - 1].file_num == s.file_num);
        }
        lemma_seg_pos_unique(segs, s.file_num);
        assert(seg_data_of(segs, s.file_num) == s.data) by {
            assert(segs[segs.len() - 1].file_num == s.file_num);
            assert(seg_pos(segs, s.file_num) == segs.len() - 1);
        }
        lemma_replay_records_valid(
            segs,
            s.file_num,
            s.data,
            log_index(init),
            seg_records(s.data, 0),
        );
    }
}

/// The location part of a live-entry map.
pub open spec fn locs_of(m: Map<Seq<char>, LiveEntry>) -> Map<Seq<char>, (u64, u64)> {
    m.map_values(|e: LiveEntry| entry_loc(e))
}

/// The value part of a live-entry map.
pub open spec fn vals_of(m: Map<Seq<char>, LiveEntry>) -> Map<Seq<char>, Seq<char>> {
    m.map_values(|e: LiveEntry| e.val)
}

pub proof fn lemma_locs_of_insert(m: Map<Seq<char>, LiveEntry>, k: Seq<char>, e: LiveEntry)
    ensures
        locs_of(m.insert(k, e)) == locs_of(m).insert(k, entry_loc(e)),
        vals_of(m.insert(k, e)) == vals_of(m).insert(k, e.val),
{
    assert(locs_of(m.insert(k, e)) =~= locs_of(m).insert(k, entry_loc(e)));
    assert(vals_of(m.insert(k, e)) =~= vals_of(m).insert(k, e.val));
}

pub proof fn lemma_locs_of_remove(m: Map<Seq<char>, LiveEntry>, k: Seq<char>)
    ensures
        locs_of(m.remove(k)) == locs_of(m).remove(k),
        vals_of(m.remove(k)) == vals_of(m).remove(k),
{
    assert(locs_of(m.remove(k)) =~= locs_of(m).remove(k));
    assert(vals_of(m.remove(k)) =~= vals_of(m).remove(k));
}

pub proof fn lemma_locs_of_empty()
    ensures
        locs_of(Map::<Seq<char>, LiveEntry>::empty()) == Map::<Seq<char>, (u64, u64)>::empty(),
        vals_of(Map::<Seq<char>, LiveEntry>::empty()) == Map::<Seq<char>, Seq<char>>::empty(),
{
    assert(locs_of(Map::<Seq<char>, LiveEntry>::empty()) =~= Map::<
        Seq<char>,
        (u64, u64),
    >::empty());
    assert(vals_of(Map::<Seq<char>, LiveEntry>::empty()) =~= Map::<
        Seq<char>,
        Seq<char>,
    >::empty());
}

/// Replay looks only at each segment's number and records.
pub proof fn lemma_replay_segs_congruent(
    m: Map<Seq<char>, LiveEntry>,
    a: Seq<SegView>,
    b: Seq<SegView>,
)
    requires
        a.len() == b.len(),
        forall|i: int| 0 <= i < a.len() ==> #[trigger] a[i].file_num == b[i].file_num
            && seg_records(a[i].data, 0) == seg_records(b[i].data, 0),
    ensures
        replay_segs(m, a) == replay_segs(m, b),
    decreases a.len(),
{
    if a.len() > 0 {
        assert(a[0].file_num == b[0].file_num);
        assert forall|i: int| 0 <= i < a.drop_first().len() implies #[trigger] a.drop_first()[
            i
        ].file_num == b.drop_first()[i].file_num && seg_records(a.drop_first()[i].data, 0)
            == seg_records(b.drop_first()[i].data, 0) by {
            assert(a.drop_first()[i] == a[i + 1]);
            assert(b.drop_first()[i] == b[i + 1]);
        }
        lemma_replay_segs_congruent(
            replay_records(m, a[0].file_num, seg_records(a[0].data, 0)),
            a.drop_first(),
            b.drop_first(),
        );
    }
}

/// Strictly ascending follows from each adjacent pair being ordered.
pub proof fn lemma_adjacent_ascending(segs: Seq<SegView>)
    requires
        forall|j: int| 0 <= j < segs.len() - 1 ==> #[trigger] segs[j].file_num < segs[
            j + 1
        ].file_num,
    ensures
        seg_nums_ascending(segs),
{
    assert forall|i: int, j: int| 0 <= i < j < segs.len() implies segs[i].file_num < segs[
        j
    ].file_num by {
        lemma_ascending_chain(segs, i, j);
    }
}

proof fn lemma_ascending_chain(segs: Seq<SegView>, i: int, j: int)
    requires
        forall|k: int| 0 <= k < segs.len() - 1 ==> #[trigger] segs[k].file_num < segs[
            k + 1
        ].file_num,
        0 <= i < j < segs.len(),
    ensures
        segs[i].file_num < segs[j].file_num,
    decreases j - i,
{
    if j == i + 1 {
        assert(segs[i].file_num < segs[i + 1].file_num);
    } else {
        lemma_ascending_chain(segs, i, j - 1);
        assert(segs[j - 1].file_num < segs[j].file_num);
    }
}

/// The views of a vector of segments.
pub open spec fn views_of(v: Seq<Segment>) -> Seq<SegView> {
    v.map_values(|s: Segment| s@)
}

/// Owns the ordered set of segments and the write target: reads records
/// by location, appends to the writable segment, and rolls over to a new
/// segment when the size threshold is crossed.
pub struct KvStoreArchive {
    segments: Vec<Segment>,
}

impl View for KvStoreArchive {
    type V = Seq<SegView>;

    closed spec fn view(&self) -> Seq<SegView> {
        views_of(self.segments@)
    }
}

impl KvStoreArchive {
    /// There is always exactly one writable segment — the last; numbers
    /// strictly increase in creation order; and every segment is a
    /// finished log (no bytes trail the last complete record).
    pub open spec fn wf(self) -> bool {
        &&& self@.len() >= 1
        &&& seg_nums_ascending(self@)
        &&& forall|i: int| 0 <= i < self@.len() ==> seg_wf(#[trigger] self@[i].data)
    }

    /// The number of the writable segment.
    pub open spec fn last_num(self) -> u64 {
        self@.last().file_num
    }

    /// Real segments fit in memory, so every offset fits a `u64`.
    pub proof fn lemma_bounded(self)
        ensures
            segs_bounded(self@),
    {
        assert forall|i: int| 0 <= i < self@.len() implies #[trigger] self@[i].data.len()
            <= u64::MAX by {
            assert(self@[i].data == self.segments@[i].data@);
            assert(self.segments@[i].data.len() == self.segments@[i].data@.len());
        }
    }

    /// The segments in creation order, for persistence and inspection.
    pub fn segments(&self) -> (r: &Vec<Segment>)
        ensures
            views_of(r@) == self@,
    {
        &self.segments
    }

    /// The number of the writable segment.
    pub fn last_file_num(&self) -> (f: u64)
        requires
            self.wf(),
        ensures
            f == self.last_num(),
    {
        self.segments[self.segments.len() - 1].file_num
    }

    /// Assemble an archive from segment files read in creation order, as
    /// the manifest lists them.  Torn trailing bytes in any segment are
    /// cut off, which leaves replay untouched.  A list whose numbers do
    /// not strictly increase is corrupt on-disk state.  With no segments
    /// at all a fresh empty segment numbered 0 is begun.
    pub fn open(segments: Vec<Segment>) -> (r: Result<KvStoreArchive, KvError>)
        ensures
            match r {
                Ok(a) => {
                    &&& a.wf()
                    &&& seg_nums_ascending(views_of(segments@))
                    &&& log_index(a@) == log_index(views_of(segments@))
                    &&& (segments@.len() == 0 ==> a@.len() == 1 && a.last_num() == 0)
                    &&& (segments@.len() > 0 ==> a@.len() == segments@.len() && forall|i: int|
                        0 <= i < segments@.len() ==> #[trigger] a@[i].file_num == segments@[
                            i
                        ]@.file_num)
                },
                Err(e) => e == KvError::CorruptRecord && !seg_nums_ascending(
                    views_of(segments@),
                ),
            },
    {
        let ghost input = views_of(segments@);
        let n = segments.len();
        if n == 0 {
            let mut v: Vec<Segment> = Vec::new();
            v.push(Segment::new(0));
            let a = KvStoreArchive { segments: v };
            proof {
                assert(a@.len() == 1);
                assert(a@[0].data =~= Seq::<u8>::empty());
                assert(try_decode(a@[0].data, 0) is None);
                assert(seg_records(a@[0].data, 0) =~= Seq::<(int, CmdView)>::empty());
                assert(seg_stop(a@[0].data, 0) == 0);
                assert(a@.drop_first() =~= Seq::<SegView>::empty());
                assert(replay_records(
                    Map::<Seq<char>, LiveEntry>::empty(),
                    a@[0].file_num,
                    Seq::<(int, CmdView)>::empty(),
                ) == Map::<Seq<char>, LiveEntry>::empty());
                assert(replay_segs(Map::<Seq<char>, LiveEntry>::empty(), Seq::<SegView>::empty())
                    == Map::<Seq<char>, LiveEntry>::empty());
                assert(log_index(a@) == replay_segs(
                    replay_records(
                        Map::<Seq<char>, LiveEntry>::empty(),
                        a@[0].file_num,
                        seg_records(a@[0].data, 0),
                    ),
                    a@.drop_first(),
                ));
                assert(log_index(a@) == Map::<Seq<char>, LiveEntry>::empty());
                assert(input =~= Seq::<SegView>::empty());
                assert(log_index(input) == Map::<Seq<char>, LiveEntry>::empty());
            }
            return Ok(a);
        }
        let mut i: usize = 1;
        while i < n
            invariant
                1 <= i <= n,
                n == segments@.len(),
                input == views_of(segments@),
                forall|j: int| 0 <= j < i - 1 ==> #[trigger] input[j].file_num < input[
                    j + 1
                ].file_num,
            decreases n - i,
        {
            if segments[i - 1].file_num >= segments[i].file_num {
                proof {
                    assert(input[i - 1].file_num >= input[i as int].file_num);
                    assert(!seg_nums_ascending(input));
                }
                return Err(KvError::CorruptRecord);
            }
            proof {
                assert(input[i - 1].file_num < input[i as int].file_num);
            }
            i += 1;
        }
        proof {
            lemma_adjacent_ascending(input);
        }
        let mut src = segments;
        let mut out: Vec<Segment> = Vec::new();
        while src.len() > 0
            invariant
                out@.len() + src@.len() == n,
                n == input.len(),
                forall|k: int| 0 <= k < src@.len() ==> #[trigger] src@[k]@ == input[
                    out@.len() + k
                ],
                forall|k: int| 0 <= k < out@.len() ==> {
                    &&& (#[trigger] out@[k]@).file_num == input[k].file_num
                    &&& seg_wf(out@[k]@.data)
                    &&& seg_records(out@[k]@.data, 0) == seg_records(input[k].data, 0)
                },
            decreases src@.len(),
        {
            let ghost done = out@.len();
            let ghost pre_src = src@;
            let ghost pre_out = out@;
            let mut s = src.remove(0);
            s.trim_tail();
            out.push(s);
            proof {
                assert(s@.file_num == pre_src[0]@.file_num);
                assert(pre_src[0]@ == input[done as int]);
                assert(out@[done as int] == s);
                assert forall|k: int| 0 <= k < src@.len() implies #[trigger] src@[k]@ == input[
                    out@.len() + k
                ] by {
                    assert(src@[k] == pre_src[k + 1]);
                    assert(pre_src[k + 1]@ == input[done + 1 + k]);
                }
                assert forall|k: int| 0 <= k < out@.len() implies {
                    &&& (#[trigger] out@[k]@).file_num == input[k].file_num
                    &&& seg_wf(out@[k]@.data)
                    &&& seg_records(out@[k]@.data, 0) == seg_records(input[k].data, 0)
                } by {
                    if k < done {
                        assert(out@[k] == pre_out[k]);
                    } else {
                        assert(out@[k] == s);
                    }
                }
            }
        }
        let a = KvStoreArchive { segments: out };
        proof {
            assert(a@.len() == n);
            assert forall|x: int, y: int| 0 <= x < y < a@.len() implies a@[x].file_num < a@[
                y
            ].file_num by {
                assert(a@[x].file_num == input[x].file_num);
                assert(a@[y].file_num == input[y].file_num);
            }
            assert forall|k: int| 0 <= k < a@.len() implies #[trigger] a@[k].file_num == input[
                k
            ].file_num && seg_records(a@[k].data, 0) == seg_records(input[k].data, 0)
                && seg_wf(a@[k].data) by {
                assert(a@[k] == out@[k]@);
            }
            lemma_replay_segs_congruent(Map::<Seq<char>, LiveEntry>::empty(), a@, input);
            assert forall|k: int| 0 <= k < segments@.len() implies #[trigger] a@[k].file_num
                == segments@[k]@.file_num by {
                assert(input[k] == segments@[k]@);
            }
        }
        Ok(a)
    }

    /// Swap in the two segments compaction built: its sealed output and a
    /// fresh writable segment.  The caller retires every earlier segment
    /// by dropping it; durability ordering is the persistence layer's
    /// duty.
    pub fn replace_segments(&mut self, first: Segment, second: Segment)
        requires
            first.wf(),
            second.wf(),
            first@.file_num < second@.file_num,
        ensures
            final(self).wf(),
            final(self)@ == seq![first@, second@],
    {
        let ghost fv = first@;
        let ghost sv = second@;
        let mut v: Vec<Segment> = Vec::new();
        v.push(first);
        v.push(second);
        self.segments = v;
        proof {
            assert(self@ =~= seq![fv, sv]);
        }
    }

    /// Whether a record of `rec_len` bytes would push a segment of
    /// `seg_len` bytes past the rollover threshold.
    pub open spec fn needs_rollover(seg_len: int, rec_len: int) -> bool {
        seg_len + rec_len > MAX_SEGMENT_BYTES
    }

    /// Append one command to the log, durably: the record goes to the
    /// writable segment, unless it would cross `MAX_SEGMENT_BYTES`, in
    /// which case that segment is sealed and a fresh one with the next
    /// number takes the record at offset 0.  The returned location names
    /// the segment that physically holds the record, and every location
    /// handed out earlier still reads the same record.
    pub fn write_cmd(&mut self, cmd: KvStoreCmd) -> (r: Result<(FileNum, FileOffset), KvError>)
        requires
            old(self).wf(),
        ensures
            final(self).wf(),
            r is Ok,
            r matches Ok((f, o)) ==> {
                let rolled = Self::needs_rollover(
                    old(self)@.last().data.len() as int,
                    encoded_len(cmd@),
                ) && old(self).last_num() < u64::MAX;
                &&& log_index(final(self)@) == apply_record(
                    log_index(old(self)@),
                    f,
                    (o as int, cmd@),
                )
                &&& cmd_at(final(self)@, f, o) == Some(cmd@)
                &&& f == final(self).last_num()
                &&& forall|f2: u64, o2: u64| #[trigger] cmd_at(old(self)@, f2, o2) is Some
                    ==> cmd_at(final(self)@, f2, o2) == cmd_at(old(self)@, f2, o2)
                &&& (rolled ==> f == old(self).last_num() + 1 && o == 0 && final(self)@.len()
                    == old(self)@.len() + 1)
                &&& (!rolled ==> f == old(self).last_num() && o == old(
                    self,
                )@.last().data.len() && final(self)@.len() == old(self)@.len())
            },
    {
        let ghost prev = self@;
        let n = self.segments.len();
        let enc = encode_command(&cmd);
        let elen = enc.len() as u64;
        let last_size = self.segments[n - 1].size();
        let last_num = self.segments[n - 1].file_num;
        proof {
            assert(prev.last() == self.segments@[n - 1]@);
            assert(elen == encoded_len(cmd@));
        }
        let roll = (elen > MAX_SEGMENT_BYTES || last_size > MAX_SEGMENT_BYTES - elen)
            && last_num < u64::MAX;
        let ghost init = prev.drop_last();
        if roll {
            let newf = last_num + 1;
            let mut s = Segment::new(newf);
            let off = s.append(&cmd);
            self.segments.push(s);
            proof {
                assert(self@ =~= prev.push(s@));
                lemma_replay_segs_snoc(Map::<Seq<char>, LiveEntry>::empty(), prev, s@);
                assert(s.records() =~= Seq::<(int, CmdView)>::empty().push((0int, cmd@)));
                lemma_replay_records_snoc(
                    log_index(prev),
                    newf,
                    Seq::<(int, CmdView)>::empty(),
                    (0int, cmd@),
                );
                assert(log_index(self@) == apply_record(log_index(prev), newf, (0int, cmd@)));
                assert forall|i: int| 0 <= i < prev.len() implies #[trigger] prev[i].file_num
                    <= last_num by {
                    if i < prev.len() - 1 {
                        assert(prev[i].file_num < prev[prev.len() - 1].file_num);
                    }
                }
                assert forall|x: int, y: int| 0 <= x < y < self@.len() implies self@[
                    x
                ].file_num < self@[y].file_num by {
                    if y < self@.len() - 1 {
                        assert(self@[x] == prev[x] && self@[y] == prev[y]);
                    } else {
                        assert(self@[x] == prev[x]);
                    }
                }
                assert forall|i: int| 0 <= i < self@.len() implies seg_wf(
                    #[trigger] self@[i].data,
                ) by {
                    if i < self@.len() - 1 {
                        assert(self@[i] == prev[i]);
                    }
                }
                assert(has_seg(self@, newf)) by {
                    assert(self@[self@.len() - 1].file_num == newf);
                }
                lemma_seg_pos_unique(self@, newf);
                assert(seg_pos(self@, newf) == self@.len() - 1);
                assert(cmd_at(self@, newf, 0) == Some(cmd@));
                assert forall|f2: u64, o2: u64| #[trigger] cmd_at(prev, f2, o2) is Some
                    implies cmd_at(self@, f2, o2) == cmd_at(prev, f2, o2) by {
                    lemma_seg_pos_unique(prev, f2);
                    let p = seg_pos(prev, f2);
                    assert(self@[p] == prev[p]);
                    assert(has_seg(self@, f2));
                    lemma_seg_pos_unique(self@, f2);
                    assert(seg_pos(self@, f2) == p);
                }
            }
            Ok((newf, off))
        } else {
            let mut s = match self.segments.pop() {
                Some(x) => x,
                None => {
                    proof {
                        assert(false);
                    }
                    return Err(KvError::UnknownSegment);
                }
            };
            proof {
                assert(s@ == prev.last());
            }
            let off = s.append(&cmd);
            let f = s.file_num;
            let ghost snew = s@;
            self.segments.push(s);
            proof {
                assert(f == last_num);
                assert(self@ =~= init.push(snew));
                assert(prev =~= init.push(prev.last()));
                lemma_replay_segs_snoc(Map::<Seq<char>, LiveEntry>::empty(), init, snew);
                lemma_replay_segs_snoc(Map::<Seq<char>, LiveEntry>::empty(), init, prev.last());
                lemma_replay_records_snoc(
                    log_index(init),
                    f,
                    seg_records(prev.last().data, 0),
                    (off as int, cmd@),
                );
                assert(log_index(self@) == apply_record(
                    log_index(prev),
                    f,
                    (off as int, cmd@),
                ));
                assert forall|x: int, y: int| 0 <= x < y < self@.len() implies self@[
                    x
                ].file_num < self@[y].file_num by {
                    assert(self@[x].file_num == prev[x].file_num);
                    assert(self@[y].file_num == prev[y].file_num);
                }
                assert forall|i: int| 0 <= i < self@.len() implies seg_wf(
                    #[trigger] self@[i].data,
                ) by {
                    if i < self@.len() - 1 {
                        assert(self@[i] == prev[i]);
                    }
                }
                assert(has_seg(self@, f)) by {
                    assert(self@[self@.len() - 1].file_num == f);
                }
                lemma_seg_pos_unique(self@, f);
                assert(seg_pos(self@, f) == self@.len() - 1);
                assert(cmd_at(self@, f, off) == Some(cmd@));
                assert forall|f2: u64, o2: u64| #[trigger] cmd_at(prev, f2, o2) is Some
                    implies cmd_at(self@, f2, o2) == cmd_at(prev, f2, o2) by {
                    lemma_seg_pos_unique(prev, f2);
                    let p = seg_pos(prev, f2);
                    assert(has_seg(self@, f2)) by {
                        assert(self@[p].file_num == f2);
                    }
                    lemma_seg_pos_unique(self@, f2);
                    assert(seg_pos(self@, f2) == p);
                    if p < self@.len() - 1 {
                        assert(self@[p] == prev[p]);
                    } else {
                        crate::segment::lemma_decode_extend(
                            prev.last().data,
                            encode_cmd(cmd@),
                            o2 as int,
                        );
                    }
                }
            }
            Ok((f, off))
        }
    }

    /// Read the value stored by the `Put` record at the given location.
    /// `UnknownSegment` when no segment carries that number — an internal
    /// consistency violation, since every location the index holds came
    /// from this archive.  `CorruptRecord` when the bytes there are not a
    /// `Put` record.
    pub fn read_value_from_filenum_at_offset(
        &self,
        file_num: FileNum,
        offset: FileOffset,
    ) -> (r: Result<String, KvError>)
        requires
            self.wf(),
        ensures
            !has_seg(self@, file_num) ==> r == Err::<String, KvError>(KvError::UnknownSegment),
            has_seg(self@, file_num) ==> match cmd_at(self@, file_num, offset) {
                Some(CmdView::Put { key, val }) => r matches Ok(v) && v@ == val,
                Some(CmdView::Rm { .. }) => r == Err::<String, KvError>(KvError::CorruptRecord),
                None => r == Err::<String, KvError>(KvError::CorruptRecord),
            },
    {
        let n = self.segments.len();
        let mut i: usize = 0;
        while i < n
            invariant
                self.wf(),
                i <= n,
                n == self@.len(),
                forall|j: int| 0 <= j < i ==> #[trigger] self@[j].file_num != file_num,
            decreases n - i,
        {
            if self.segments[i].file_num == file_num {
                proof {
                    assert(self@[i as int].file_num == file_num);
                    lemma_seg_pos_unique(self@, file_num);
                    assert(seg_pos(self@, file_num) == i as int);
                    assert(seg_data_of(self@, file_num) == self@[i as int].data);
                }
                match self.segments[i].read_at(offset) {
                    Ok(cmd) => {
                        match cmd {
                            KvStoreCmd::Put(p) => {
                                return Ok(p.val);
                            }
                            KvStoreCmd::Rm(_) => {
                                return Err(KvError::CorruptRecord);
                            }
                        }
                    }
                    Err(_) => {
                        return Err(KvError::CorruptRecord);
                    }
                }
            }
            proof {
                assert(self@[i as int].file_num != file_num);
            }
            i += 1;
        }
        proof {
            assert(!has_seg(self@, file_num));
        }
        Err(KvError::UnknownSegment)
    }

    /// Rebuild the in-memory index with one linear pass: replay every
    /// segment in creation order, later records winning, `Rm` records
    /// deleting.  A `Rm` for an absent key has no effect, and a truncated
    /// trailing record ends a segment's scan cleanly.
    pub fn generate_index(&self) -> (r: Result<KvIndex, KvError>)
        requires
            self.wf(),
        ensures
            r matches Ok(idx) && idx.wf() && idx@ == log_locs(self@),
    {
        let mut idx = KvIndex::new();
        let ghost mut gm = Map::<Seq<char>, LiveEntry>::empty();
        proof {
            lemma_locs_of_empty();
            assert(self@.take(0) =~= Seq::<SegView>::empty());
        }
        let nsegs = self.segments.len();
        let mut i: usize = 0;
        while i < nsegs
            invariant
                self.wf(),
                i <= nsegs,
                nsegs == self@.len(),
                idx.wf(),
                idx@ == locs_of(gm),
                gm == replay_segs(Map::<Seq<char>, LiveEntry>::empty(), self@.take(i as int)),
            decreases nsegs - i,
        {
            let seg = &self.segments[i];
            let ghost f = seg.file_num;
            let ghost data = seg.data@;
            let ghost gm0 = gm;
            proof {
                assert(self@[i as int] == seg@);
                assert(seg.data.len() == data.len());
            }
            let mut pos: u64 = 0;
            loop
                invariant
                    idx.wf(),
                    idx@ == locs_of(gm),
                    0 <= pos as int <= data.len(),
                    data.len() <= usize::MAX,
                    data == seg.data@,
                    f == seg.file_num,
                    replay_records(gm, f, seg_records(data, pos as int)) == replay_records(
                        gm0,
                        f,
                        seg_records(data, 0),
                    ),
                ensures
                    idx.wf(),
                    idx@ == locs_of(gm),
                    gm == replay_records(gm0, f, seg_records(data, 0)),
                decreases data.len() - pos as int,
            {
                match decode_command_at(&seg.data, pos) {
                    Some((cmd, end)) => {
                        let ghost c = cmd@;
                        let ghost gmb = gm;
                        proof {
                            lemma_decode_is_encoding(data, pos as int);
                            assert(seg_records(data, pos as int) =~= seq![
                                ((pos as int), c),
                            ] + seg_records(data, end as int));
                            lemma_replay_records_cons(
                                gm,
                                f,
                                (pos as int, c),
                                seg_records(data, end as int),
                            );
                            gm = apply_record(gm, f, (pos as int, c));
                        }
                        match cmd {
                            KvStoreCmd::Put(p) => {
                                idx.insert(p.key, seg.file_num, pos);
                                proof {
                                    lemma_locs_of_insert(
                                        gmb,
                                        c.key(),
                                        LiveEntry { file_num: f, offset: pos, val: c->Put_val },
                                    );
                                }
                            }
                            KvStoreCmd::Rm(rm) => {
                                idx.remove(&rm.key);
                                proof {
                                    lemma_locs_of_remove(gmb, c.key());
                                }
                            }
                        }
                        pos = end;
                    }
                    None => {
                        proof {
                            assert(seg_records(data, pos as int) =~= Seq::<
                                (int, CmdView),
                            >::empty());
                        }
                        break;
                    }
                }
            }
            proof {
                lemma_replay_segs_snoc(
                    Map::<Seq<char>, LiveEntry>::empty(),
                    self@.take(i as int),
                    self@[i as int],
                );
                assert(self@.take(i as int).push(self@[i as int]) =~= self@.take(i + 1));
                assert(seg@ == self@[i as int]);
            }
            i += 1;
        }
        proof {
            assert(self@.take(nsegs as int) =~= self@);
        }
        Ok(idx)
    }
}

} // verus!
