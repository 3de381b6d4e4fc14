//! One append-only segment file and the sequential scan over its records.
//!
//! A segment holds the byte image of a sequence of encoded commands.  The
//! greedy scan `seg_records` decodes from offset 0 and stops cleanly at the
//! first offset where no complete record can be decoded, so a truncated
//! trailing write (a crash mid-append) ends the scan instead of failing it.

use vstd::prelude::*;
use crate::cmd::{CmdView, KvStoreCmd};
use crate::codec::{
    cmd_valid, encode_cmd, encoded_len, try_decode, decode_command_at, encode_command,
    lemma_decode_is_encoding, lemma_decode_of_encode, lemma_decode_prefix_fails, lemma_encode_len,
    push_bytes,
};
use crate::KvError;

verus! {

/// The offset where the greedy scan, started at `off`, stops: the first
/// offset at which no complete record decodes.
pub open spec fn seg_stop(data: Seq<u8>, off: int) -> int
    decreases data.len() - off,
{
    if 0 <= off <= data.len() {
        match try_decode(data, off) {
            Some((c, end)) => if off < end && end <= data.len() {
                seg_stop(data, end)
            } else {
                off
            },
            None => off,
        }
    } else {
        off
    }
}

/// The records the greedy scan finds from `off` on: (start offset, command)
/// pairs in file order.
pub open spec fn seg_records(data: Seq<u8>, off: int) -> Seq<(int, CmdView)>
    decreases data.len() - off,
{
    if 0 <= off <= data.len() {
        match try_decode(data, off) {
            Some((c, end)) => if off < end && end <= data.len() {
                seq![(off, c)] + seg_records(data, end)
            } else {
                Seq::<(int, CmdView)>::empty()
            },
            None => Seq::<(int, CmdView)>::empty(),
        }
    } else {
        Seq::<(int, CmdView)>::empty()
    }
}

/// A segment is finished when the scan consumes every byte: nothing
/// trails the last complete record.  Appends always happen at the end of
/// a finished segment, so records never sit after garbage.
pub open spec fn seg_wf(data: Seq<u8>) -> bool {
    seg_stop(data, 0) == data.len()
}

pub proof fn lemma_seg_stop_bounds(data: Seq<u8>, off: int)
    requires
        0 <= off <= data.len(),
    ensures
        off <= seg_stop(data, off) <= data.len(),
    decreases data.len() - off,
{
    match try_decode(data, off) {
        Some((c, end)) => {
            lemma_decode_is_encoding(data, off);
            if off < end && end <= data.len() {
                lemma_seg_stop_bounds(data, end);
            }
        }
        None => {}
    }
}

/// Decoding is local: a record that decodes keeps decoding, unchanged,
/// after bytes are appended to the data.
pub proof fn lemma_decode_extend(data: Seq<u8>, ext: Seq<u8>, off: int)
    requires
        try_decode(data, off) is Some,
    ensures
        try_decode(data + ext, off) == try_decode(data, off),
{
    lemma_decode_is_encoding(data, off);
    let (c, end) = try_decode(data, off).unwrap();
    assert((data + ext).subrange(off, end) =~= data.subrange(off, end));
    lemma_decode_of_encode(c, data + ext, off);
}

/// Scanning extended data first yields the old records, then continues at
/// the old end.
pub proof fn lemma_seg_extend_from(data: Seq<u8>, ext: Seq<u8>, off: int)
    requires
        0 <= off <= data.len(),
        seg_stop(data, off) == data.len(),
    ensures
        seg_records(data + ext, off) == seg_records(data, off) + seg_records(
            data + ext,
            data.len() as int,
        ),
        seg_stop(data + ext, off) == seg_stop(data + ext, data.len() as int),
    decreases data.len() - off,
{
    match try_decode(data, off) {
        Some((c, end)) => {
            lemma_decode_is_encoding(data, off);
            lemma_decode_extend(data, ext, off);
            lemma_seg_extend_from(data, ext, end);
            assert(seq![(off, c)] + (seg_records(data, end) + seg_records(
                data + ext,
                data.len() as int,
            )) =~= (seq![(off, c)] + seg_records(data, end)) + seg_records(
                data + ext,
                data.len() as int,
            ));
        }
        None => {
            assert(seg_stop(data, off) == off);
            assert(off == data.len());
            assert(seg_records(data, off) =~= Seq::<(int, CmdView)>::empty());
            assert(Seq::<(int, CmdView)>::empty() + seg_records(data + ext, data.len() as int)
                =~= seg_records(data + ext, data.len() as int));
        }
    }
}

/// Appending one record to a finished segment: the scan gains exactly that
/// record, at the old end, and the segment stays finished.
pub proof fn lemma_seg_append_record(data: Seq<u8>, c: CmdView)
    requires
        seg_wf(data),
        cmd_valid(c),
    ensures
        seg_wf(data + encode_cmd(c)),
        seg_records(data + encode_cmd(c), 0) == seg_records(data, 0).push(
            (data.len() as int, c),
        ),
        try_decode(data + encode_cmd(c), data.len() as int) == Some(
            (c, data.len() + encoded_len(c)),
        ),
{
    let ext = encode_cmd(c);
    let full = data + ext;
    let dl = data.len() as int;
    lemma_encode_len(c);
    assert(full.subrange(dl, dl + encoded_len(c)) =~= ext);
    lemma_decode_of_encode(c, full, dl);
    assert(try_decode(full, dl) == Some((c, dl + encoded_len(c))));
    assert(try_decode(full, full.len() as int) is None);
    assert(seg_records(full, dl) == seq![(dl, c)] + seg_records(full, full.len() as int));
    assert(seg_records(full, full.len() as int) =~= Seq::<(int, CmdView)>::empty());
    assert(seg_stop(full, full.len() as int) == full.len());
    assert(seg_stop(full, dl) == full.len());
    lemma_seg_extend_from(data, ext, 0);
    assert(seg_records(full, 0) =~= seg_records(data, 0).push((dl, c)));
}

/// Crash-tail tolerance: a strict prefix of one record's encoding, left at
/// the end of a finished segment by a torn write, adds no record and moves
/// the stop offset nowhere.
pub proof fn lemma_seg_torn_tail(data: Seq<u8>, c: CmdView, j: int)
    requires
        seg_wf(data),
        cmd_valid(c),
        0 <= j < encoded_len(c),
    ensures
        seg_records(data + encode_cmd(c).take(j), 0) == seg_records(data, 0),
        seg_stop(data + encode_cmd(c).take(j), 0) == data.len(),
{
    let ext = encode_cmd(c).take(j);
    let full = data + ext;
    let dl = data.len() as int;
    lemma_encode_len(c);
    assert(full.subrange(dl, full.len() as int) =~= ext);
    lemma_decode_prefix_fails(c, full, dl);
    assert(seg_records(full, dl) =~= Seq::<(int, CmdView)>::empty());
    assert(seg_stop(full, dl) == dl);
    lemma_seg_extend_from(data, ext, 0);
    assert(seg_records(data, 0) + Seq::<(int, CmdView)>::empty() =~= seg_records(data, 0));
}

/// Cutting a segment at its stop offset keeps every record and leaves a
/// finished segment: the scan never looked past the stop.
pub proof fn lemma_seg_truncate_from(data: Seq<u8>, off: int, stop: int)
    requires
        0 <= off <= data.len(),
        seg_stop(data, off) == stop,
        stop <= data.len(),
    ensures
        seg_records(data.take(stop), off) == seg_records(data, off),
        seg_stop(data.take(stop), off) == stop,
    decreases data.len() - off,
{
    lemma_seg_stop_bounds(data, off);
    let t = data.take(stop);
    match try_decode(data, off) {
        Some((c, end)) => {
            lemma_decode_is_encoding(data, off);
            lemma_seg_stop_bounds(data, end);
            assert(seg_stop(data, end) == stop);
            assert(end <= stop);
            assert(t.subrange(off, end) =~= data.subrange(off, end));
            lemma_decode_of_encode(c, t, off);
            lemma_seg_truncate_from(data, end, stop);
        }
        None => {
            assert(stop == off);
            assert(try_decode(t, off) is None);
        }
    }
}

/// One segment file: a numbered, append-only byte log of encoded commands.
#[derive(Clone, Debug)]
pub struct Segment {
    /// The archive-wide number the segment's file is named after.
    pub file_num: u64,
    /// The segment file's byte contents.
    pub data: Vec<u8>,
}

/// Mathematical form of a segment.
pub struct SegView {
    pub file_num: u64,
    pub data: Seq<u8>,
}

impl View for Segment {
    type V = SegView;

    open spec fn view(&self) -> SegView {
        SegView { file_num: self.file_num, data: self.data@ }
    }
}

impl Segment {
    /// A segment is well formed when its byte image is a finished log.
    pub open spec fn wf(self) -> bool {
        seg_wf(self@.data)
    }

    /// The records this segment holds, in file order.
    pub open spec fn records(self) -> Seq<(int, CmdView)> {
        seg_records(self@.data, 0)
    }

    /// A fresh, empty segment with the given number.
    pub fn new(file_num: u64) -> (s: Segment)
        ensures
            s@.file_num == file_num,
            s@.data == Seq::<u8>::empty(),
            s.wf(),
            s.records() == Seq::<(int, CmdView)>::empty(),
    {
        let s = Segment { file_num, data: Vec::new() };
        proof {
            assert(try_decode(s@.data, 0) is None);
            assert(s.records() =~= Seq::<(int, CmdView)>::empty());
        }
        s
    }

    /// Current file length in bytes, for rollover threshold checks.
    pub fn size(&self) -> (n: u64)
        ensures
            n == self@.data.len(),
    {
        self.data.len() as u64
    }

    /// Serialize `cmd` and write it at the end; the returned offset is the
    /// exact start of the record, sufficient to decode it again.
    pub fn append(&mut self, cmd: &KvStoreCmd) -> (off: u64)
        requires
            old(self).wf(),
        ensures
            final(self).wf(),
            final(self)@.file_num == old(self)@.file_num,
            off == old(self)@.data.len(),
            final(self)@.data == old(self)@.data + encode_cmd(cmd@),
            cmd_valid(cmd@),
            final(self).records() == old(self).records().push((off as int, cmd@)),
            try_decode(final(self)@.data, off as int) == Some(
                (cmd@, old(self)@.data.len() + encoded_len(cmd@)),
            ),
    {
        let off = self.data.len();
        let enc = encode_command(cmd);
        push_bytes(&mut self.data, &enc);
        proof {
            lemma_seg_append_record(old(self)@.data, cmd@);
        }
        off as u64
    }

    /// The offset where the sequential scan of this segment stops: the
    /// end of the last complete record.
    pub fn scan_stop(&self) -> (stop: usize)
        ensures
            stop as int == seg_stop(self@.data, 0),
            0 <= stop <= self@.data.len(),
    {
        let mut pos: u64 = 0;
        proof {
            lemma_seg_stop_bounds(self@.data, 0);
            assert(self.data.len() == self@.data.len());
        }
        loop
            invariant
                0 <= pos as int <= self@.data.len(),
                self@.data.len() <= usize::MAX,
                seg_stop(self@.data, pos as int) == seg_stop(self@.data, 0),
            decreases self@.data.len() - pos as int,
        {
            match decode_command_at(&self.data, pos) {
                Some((_cmd, end)) => {
                    proof {
                        lemma_decode_is_encoding(self@.data, pos as int);
                    }
                    pos = end;
                }
                None => {
                    proof {
                        assert(seg_stop(self@.data, pos as int) == pos as int);
                    }
                    return pos as usize;
                }
            }
        }
    }

    /// Cut off any torn trailing bytes a crash mid-append left behind:
    /// scan to the stop offset and truncate there.  Every complete record
    /// is kept, and the segment is a finished log afterwards.
    pub fn trim_tail(&mut self)
        ensures
            final(self).wf(),
            final(self)@.file_num == old(self)@.file_num,
            final(self).records() == old(self).records(),
            final(self)@.data == old(self)@.data.take(seg_stop(old(self)@.data, 0)),
    {
        let ghost pre = self@.data;
        let stop = self.scan_stop();
        proof {
            lemma_seg_stop_bounds(pre, 0);
        }
        self.data.truncate(stop);
        proof {
            assert(self@.data =~= pre.take(seg_stop(pre, 0)));
            lemma_seg_truncate_from(pre, 0, stop as int);
        }
    }

    /// Decode exactly one record at `offset`.  Fails with `CorruptRecord`
    /// when no complete record starts there, which never happens for
    /// offsets obtained from the index or from sequential iteration.
    pub fn read_at(&self, offset: u64) -> (r: Result<KvStoreCmd, KvError>)
        ensures
            match r {
                Ok(cmd) => try_decode(self@.data, offset as int) matches Some((c, _))
                    && c == cmd@,
                Err(e) => e == KvError::CorruptRecord && try_decode(
                    self@.data,
                    offset as int,
                ) is None,
            },
    {
        match decode_command_at(&self.data, offset) {
            Some((cmd, _end)) => Ok(cmd),
            None => Err(KvError::CorruptRecord),
        }
    }
}

/// A restartable sequential scan over the commands of one segment's bytes.
/// It owns its own cursor, independent of any writer's append position.
pub struct KvStoreFileCommandIterator {
    data: Vec<u8>,
    pos: u64,
}

impl KvStoreFileCommandIterator {
    /// The bytes being scanned.
    pub closed spec fn bytes(self) -> Seq<u8> {
        self.data@
    }

    /// The current scan offset.
    pub closed spec fn cursor(self) -> int {
        self.pos as int
    }

    /// Start a scan at the beginning of the given segment bytes.
    pub fn new(data: Vec<u8>) -> (it: KvStoreFileCommandIterator)
        ensures
            it.bytes() == data@,
            it.cursor() == 0,
    {
        KvStoreFileCommandIterator { data, pos: 0 }
    }

    /// The offset the next record would be decoded from.
    pub fn position(&self) -> (p: u64)
        ensures
            p as int == self.cursor(),
    {
        self.pos
    }

    /// Decode the record at the cursor and advance past it, or signal the
    /// end of the sequence when no further complete record can be decoded
    /// there — a truncated trailing record ends the scan cleanly.
    pub fn next(&mut self) -> (r: Option<KvStoreCmd>)
        ensures
            final(self).bytes() == old(self).bytes(),
            match r {
                Some(cmd) => try_decode(old(self).bytes(), old(self).cursor()) matches Some(
                    (c, end),
                ) && c == cmd@ && final(self).cursor() == end,
                None => try_decode(old(self).bytes(), old(self).cursor()) is None
                    && final(self).cursor() == old(self).cursor(),
            },
    {
        match decode_command_at(&self.data, self.pos) {
            Some((cmd, end)) => {
                self.pos = end;
                Some(cmd)
            }
            None => None,
        }
    }
}

} // verus!
