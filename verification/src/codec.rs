//! The on-disk record format.
//!
//! Each command is stored as one self-describing binary record:
//!
//! ```text
//! Put:  tag 0u8 | key length (u64 LE) | key chars | val length (u64 LE) | val chars
//! Rm:   tag 1u8 | key length (u64 LE) | key chars
//! ```
//!
//! Every character is written as its Unicode scalar value in four
//! little-endian bytes, so a record's total size is determined by its
//! header fields alone.  That makes decoding from an arbitrary offset
//! unambiguous and lets a truncated trailing record be recognised as
//! "insufficient bytes" rather than misread as a different valid record.

use vstd::prelude::*;
use vstd::bytes::{
    spec_u32_to_le_bytes, spec_u32_from_le_bytes, spec_u64_to_le_bytes, spec_u64_from_le_bytes,
    lemma_auto_spec_u32_to_from_le_bytes, lemma_auto_spec_u64_to_from_le_bytes, u32_from_le_bytes,
    u32_to_le_bytes, u64_from_le_bytes, u64_to_le_bytes,
};
use vstd::slice::slice_subrange;
use vstd::string::StrSliceExecFns;
use crate::cmd::{CmdView, KvStoreCmd, KvStoreSet, KvStoreRm};

verus! {

/// Tag byte that starts an encoded `Put` record.
pub const TAG_PUT: u8 = 0;

/// Tag byte that starts an encoded `Rm` record.
pub const TAG_RM: u8 = 1;

/// Code points that are Unicode scalar values, i.e. exactly the values a
/// `char` can carry: everything up to `char::MAX` except the surrogates.
pub open spec fn scalar_fits_char(u: u32) -> bool {
    u < 0xD800 || (0xE000 <= u && u <= 0x10FFFF)
}

/// The four little-endian bytes of one character's scalar value.
pub open spec fn char_bytes(c: char) -> Seq<u8> {
    spec_u32_to_le_bytes(c as u32)
}

/// The byte image of a character sequence: four bytes per character.
pub open spec fn chars_bytes(s: Seq<char>) -> Seq<u8>
    decreases s.len(),
{
    if s.len() <= 0 {
        Seq::empty()
    } else {
        char_bytes(s[0]) + chars_bytes(s.drop_first())
    }
}

/// Whether a command's strings fit the encoding's 64-bit length fields.
/// Every command built from real `String`s satisfies this.
pub open spec fn cmd_valid(c: CmdView) -> bool {
    match c {
        CmdView::Put { key, val } => key.len() <= u64::MAX && val.len() <= u64::MAX,
        CmdView::Rm { key } => key.len() <= u64::MAX,
    }
}

/// The full byte image of one command record.
pub open spec fn encode_cmd(c: CmdView) -> Seq<u8> {
    match c {
        CmdView::Put { key, val } => seq![TAG_PUT] + spec_u64_to_le_bytes(key.len() as u64)
            + chars_bytes(key) + spec_u64_to_le_bytes(val.len() as u64) + chars_bytes(val),
        CmdView::Rm { key } => seq![TAG_RM] + spec_u64_to_le_bytes(key.len() as u64)
            + chars_bytes(key),
    }
}

/// The size of a command's record, computable from the command alone.
pub open spec fn encoded_len(c: CmdView) -> int {
    match c {
        CmdView::Put { key, val } => 17 + 4 * key.len() as int + 4 * val.len() as int,
        CmdView::Rm { key } => 9 + 4 * key.len() as int,
    }
}

pub proof fn lemma_chars_bytes_len(s: Seq<char>)
    ensures
        chars_bytes(s).len() == 4 * s.len(),
    decreases s.len(),
{
    lemma_auto_spec_u32_to_from_le_bytes();
    if s.len() > 0 {
        lemma_chars_bytes_len(s.drop_first());
    }
}

pub proof fn lemma_encode_len(c: CmdView)
    ensures
        encode_cmd(c).len() == encoded_len(c),
{
    lemma_auto_spec_u64_to_from_le_bytes();
    match c {
        CmdView::Put { key, val } => {
            lemma_chars_bytes_len(key);
            lemma_chars_bytes_len(val);
        }
        CmdView::Rm { key } => {
            lemma_chars_bytes_len(key);
        }
    }
}

/// Appending one character appends its four bytes.
pub proof fn lemma_chars_bytes_snoc(t: Seq<char>, c: char)
    ensures
        chars_bytes(t.push(c)) == chars_bytes(t) + char_bytes(c),
    decreases t.len(),
{
    assert(t.push(c)[0] == if t.len() == 0 { c } else { t[0] });
    if t.len() == 0 {
        assert(t.push(c).drop_first() =~= Seq::<char>::empty());
        assert(chars_bytes(t.push(c)) == char_bytes(c) + chars_bytes(Seq::<char>::empty()));
        assert(chars_bytes(t.push(c)) =~= chars_bytes(t) + char_bytes(c));
    } else {
        assert(t.push(c).drop_first() =~= t.drop_first().push(c));
        lemma_chars_bytes_snoc(t.drop_first(), c);
        assert(chars_bytes(t.push(c)) =~= chars_bytes(t) + char_bytes(c));
    }
}

/// Decode `n` characters, four bytes each, starting at `off`.  `None` when
/// some four-byte group is not a Unicode scalar value.  Callers check the
/// byte range up front.
pub open spec fn decode_chars(data: Seq<u8>, off: int, n: int) -> Option<Seq<char>>
    decreases n,
{
    if n <= 0 {
        Some(Seq::<char>::empty())
    } else {
        let u = spec_u32_from_le_bytes(data.subrange(off, off + 4));
        if scalar_fits_char(u) {
            match decode_chars(data, off + 4, n - 1) {
                Some(rest) => Some(seq![u as char] + rest),
                None => None,
            }
        } else {
            None
        }
    }
}

/// A length field read as a mathematical integer.
pub open spec fn read_u64(data: Seq<u8>, off: int) -> int {
    spec_u64_from_le_bytes(data.subrange(off, off + 8)) as int
}

/// Decode exactly one record starting at `off`.  `Some((cmd, end))` means
/// the bytes `off..end` are the record of `cmd`; `None` means no complete
/// well-formed record starts there, whether for want of bytes (a truncated
/// trailing write) or because the bytes are malformed.
pub open spec fn try_decode(data: Seq<u8>, off: int) -> Option<(CmdView, int)> {
    if off < 0 || off + 9 > data.len() {
        None
    } else {
        let tag = data[off];
        let klen = read_u64(data, off + 1);
        if tag == TAG_PUT {
            if off + 17 + 4 * klen > data.len() {
                None
            } else {
                let vlen = read_u64(data, off + 9 + 4 * klen);
                let end = off + 17 + 4 * klen + 4 * vlen;
                if end > data.len() {
                    None
                } else {
                    match decode_chars(data, off + 9, klen) {
                        Some(k) => match decode_chars(data, off + 17 + 4 * klen, vlen) {
                            Some(v) => Some((CmdView::Put { key: k, val: v }, end)),
                            None => None,
                        },
                        None => None,
                    }
                }
            }
        } else if tag == TAG_RM {
            let end = off + 9 + 4 * klen;
            if end > data.len() {
                None
            } else {
                match decode_chars(data, off + 9, klen) {
                    Some(k) => Some((CmdView::Rm { key: k }, end)),
                    None => None,
                }
            }
        } else {
            None
        }
    }
}

/// Characters decoded from a range are exactly the characters whose byte
/// image that range is.
pub proof fn lemma_decode_chars_props(data: Seq<u8>, off: int, n: int)
    requires
        decode_chars(data, off, n) is Some,
        0 <= off,
        0 <= n,
        off + 4 * n <= data.len(),
    ensures
        decode_chars(data, off, n).unwrap().len() == n,
        chars_bytes(decode_chars(data, off, n).unwrap()) == data.subrange(off, off + 4 * n),
    decreases n,
{
    lemma_auto_spec_u32_to_from_le_bytes();
    if n <= 0 {
        assert(chars_bytes(decode_chars(data, off, n).unwrap()) =~= data.subrange(off, off));
    } else {
        let u = spec_u32_from_le_bytes(data.subrange(off, off + 4));
        let s = decode_chars(data, off, n).unwrap();
        let rest = decode_chars(data, off + 4, n - 1).unwrap();
        lemma_decode_chars_props(data, off + 4, n - 1);
        assert(s == seq![u as char] + rest);
        assert(s[0] == u as char);
        assert(s.drop_first() =~= rest);
        assert((u as char) as u32 == u);
        assert(char_bytes(u as char) == data.subrange(off, off + 4));
        assert(chars_bytes(s) == data.subrange(off, off + 4) + data.subrange(off + 4, off + 4 * n));
        assert(chars_bytes(s) =~= data.subrange(off, off + 4 * n));
    }
}

/// The byte image of a character sequence decodes back to that sequence,
/// wherever it sits.
pub proof fn lemma_decode_chars_of_encoding(s: Seq<char>, data: Seq<u8>, off: int)
    requires
        0 <= off,
        off + 4 * s.len() <= data.len(),
        data.subrange(off, off + 4 * s.len()) == chars_bytes(s),
    ensures
        decode_chars(data, off, s.len() as int) == Some(s),
    decreases s.len(),
{
    lemma_auto_spec_u32_to_from_le_bytes();
    if s.len() == 0 {
        assert(decode_chars(data, off, 0) == Some(Seq::<char>::empty()));
        assert(s =~= Seq::<char>::empty());
    } else {
        let rest = s.drop_first();
        lemma_chars_bytes_len(rest);
        assert(data.subrange(off, off + 4) =~= chars_bytes(s).subrange(0, 4));
        assert(chars_bytes(s).subrange(0, 4) =~= char_bytes(s[0]));
        let u = spec_u32_from_le_bytes(data.subrange(off, off + 4));
        assert(spec_u32_to_le_bytes(s[0] as u32).len() == 4);
        assert(data.subrange(off, off + 4) == char_bytes(s[0]));
        assert(char_bytes(s[0]) == spec_u32_to_le_bytes(s[0] as u32));
        assert(spec_u32_from_le_bytes(spec_u32_to_le_bytes(s[0] as u32)) == s[0] as u32);
        assert(u == s[0] as u32);
        vstd::utf8::char_is_scalar(s[0]);
        assert(scalar_fits_char(u));
        vstd::utf8::char_u32_cast(s[0], u);
        assert(u as char == s[0]);
        assert(data.subrange(off + 4, off + 4 + 4 * rest.len()) =~= chars_bytes(rest)) by {
            assert(forall|i: int| 0 <= i < 4 * rest.len()
                ==> data.subrange(off + 4, off + 4 + 4 * rest.len())[i]
                    == #[trigger] chars_bytes(s)[i + 4]);
            assert(forall|i: int| 0 <= i < 4 * rest.len()
                ==> #[trigger] chars_bytes(rest)[i] == chars_bytes(s)[i + 4]);
        }
        lemma_decode_chars_of_encoding(rest, data, off + 4);
        assert(seq![u as char] + rest =~= s);
    }
}

/// A record's encoding decodes to that record at whatever offset it sits,
/// whatever bytes surround it.
pub proof fn lemma_decode_of_encode(c: CmdView, data: Seq<u8>, off: int)
    requires
        cmd_valid(c),
        0 <= off,
        off + encoded_len(c) <= data.len(),
        data.subrange(off, off + encoded_len(c)) == encode_cmd(c),
    ensures
        try_decode(data, off) == Some((c, off + encoded_len(c))),
{
    lemma_auto_spec_u64_to_from_le_bytes();
    lemma_encode_len(c);
    let enc = encode_cmd(c);
    let elen = encoded_len(c);
    assert forall|i: int| 0 <= i < elen implies data[off + i] == enc[i] by {
        assert(data.subrange(off, off + elen)[i] == enc[i]);
    }
    match c {
        CmdView::Put { key, val } => {
            lemma_chars_bytes_len(key);
            lemma_chars_bytes_len(val);
            let kl = key.len() as int;
            let vl = val.len() as int;
            let kf = spec_u64_to_le_bytes(key.len() as u64);
            let vf = spec_u64_to_le_bytes(val.len() as u64);
            assert(data[off] == enc[0]);
            assert(enc[0] == TAG_PUT);
            assert(data.subrange(off + 1, off + 9) =~= kf) by {
                assert forall|i: int| 0 <= i < 8 implies data.subrange(off + 1, off + 9)[i]
                    == kf[i] by {
                    assert(data[off + 1 + i] == enc[1 + i]);
                }
            }
            assert(read_u64(data, off + 1) == kl);
            assert(data.subrange(off + 9, off + 9 + 4 * kl) =~= chars_bytes(key)) by {
                assert forall|i: int| 0 <= i < 4 * kl implies data.subrange(
                    off + 9,
                    off + 9 + 4 * kl,
                )[i] == chars_bytes(key)[i] by {
                    assert(data[off + 9 + i] == enc[9 + i]);
                }
            }
            lemma_decode_chars_of_encoding(key, data, off + 9);
            assert(data.subrange(off + 9 + 4 * kl, off + 17 + 4 * kl) =~= vf) by {
                assert forall|i: int| 0 <= i < 8 implies data.subrange(
                    off + 9 + 4 * kl,
                    off + 17 + 4 * kl,
                )[i] == vf[i] by {
                    assert(data[off + 9 + 4 * kl + i] == enc[9 + 4 * kl + i]);
                }
            }
            assert(read_u64(data, off + 9 + 4 * kl) == vl);
            assert(data.subrange(off + 17 + 4 * kl, off + 17 + 4 * kl + 4 * vl) =~= chars_bytes(
                val,
            )) by {
                assert forall|i: int| 0 <= i < 4 * vl implies data.subrange(
                    off + 17 + 4 * kl,
                    off + 17 + 4 * kl + 4 * vl,
                )[i] == chars_bytes(val)[i] by {
                    assert(data[off + 17 + 4 * kl + i] == enc[17 + 4 * kl + i]);
                }
            }
            lemma_decode_chars_of_encoding(val, data, off + 17 + 4 * kl);
        }
        CmdView::Rm { key } => {
            lemma_chars_bytes_len(key);
            let kl = key.len() as int;
            let kf = spec_u64_to_le_bytes(key.len() as u64);
            assert(data[off] == enc[0]);
            assert(enc[0] == TAG_RM);
            assert(data.subrange(off + 1, off + 9) =~= kf) by {
                assert forall|i: int| 0 <= i < 8 implies data.subrange(off + 1, off + 9)[i]
                    == kf[i] by {
                    assert(data[off + 1 + i] == enc[1 + i]);
                }
            }
            assert(read_u64(data, off + 1) == kl);
            assert(data.subrange(off + 9, off + 9 + 4 * kl) =~= chars_bytes(key)) by {
                assert forall|i: int| 0 <= i < 4 * kl implies data.subrange(
                    off + 9,
                    off + 9 + 4 * kl,
                )[i] == chars_bytes(key)[i] by {
                    assert(data[off + 9 + i] == enc[9 + i]);
                }
            }
            lemma_decode_chars_of_encoding(key, data, off + 9);
        }
    }
}

/// A successful decode reads back exactly one record's encoding: the
/// record is well formed, occupies the bytes `off..end`, and no other
/// bytes matter.
pub proof fn lemma_decode_is_encoding(data: Seq<u8>, off: int)
    requires
        try_decode(data, off) is Some,
    ensures
        ({
            let (c, end) = try_decode(data, off).unwrap();
            &&& cmd_valid(c)
            &&& off + 9 <= end <= data.len()
            &&& end - off == encoded_len(c)
            &&& data.subrange(off, end) == encode_cmd(c)
        }),
{
    lemma_auto_spec_u64_to_from_le_bytes();
    let (c, end) = try_decode(data, off).unwrap();
    let tag = data[off];
    let klen = read_u64(data, off + 1);
    if tag == TAG_PUT {
        let vlen = read_u64(data, off + 9 + 4 * klen);
        let key = decode_chars(data, off + 9, klen).unwrap();
        let val = decode_chars(data, off + 17 + 4 * klen, vlen).unwrap();
        lemma_decode_chars_props(data, off + 9, klen);
        lemma_decode_chars_props(data, off + 17 + 4 * klen, vlen);
        assert(c == CmdView::Put { key, val });
        assert(key.len() == klen && val.len() == vlen);
        lemma_encode_len(c);
        let enc = encode_cmd(c);
        assert(data.subrange(off, end) =~= enc) by {
            assert(enc == seq![TAG_PUT] + spec_u64_to_le_bytes(key.len() as u64)
                + chars_bytes(key) + spec_u64_to_le_bytes(val.len() as u64) + chars_bytes(val));
            assert(spec_u64_to_le_bytes(key.len() as u64) =~= data.subrange(off + 1, off + 9));
            assert(chars_bytes(key) == data.subrange(off + 9, off + 9 + 4 * klen));
            assert(spec_u64_to_le_bytes(val.len() as u64) =~= data.subrange(
                off + 9 + 4 * klen,
                off + 17 + 4 * klen,
            ));
            assert(chars_bytes(val) == data.subrange(off + 17 + 4 * klen, end));
        }
    } else {
        let key = decode_chars(data, off + 9, klen).unwrap();
        lemma_decode_chars_props(data, off + 9, klen);
        assert(c == CmdView::Rm { key });
        assert(key.len() == klen);
        lemma_encode_len(c);
        let enc = encode_cmd(c);
        assert(data.subrange(off, end) =~= enc) by {
            assert(enc == seq![TAG_RM] + spec_u64_to_le_bytes(key.len() as u64)
                + chars_bytes(key));
            assert(spec_u64_to_le_bytes(key.len() as u64) =~= data.subrange(off + 1, off + 9));
            assert(chars_bytes(key) == data.subrange(off + 9, off + 9 + 4 * klen));
        }
    }
}

/// A strict prefix of a record's encoding, standing at the end of the
/// data, never decodes: the truncated tail left by a torn write is
/// recognised as incomplete.
pub proof fn lemma_decode_prefix_fails(c: CmdView, data: Seq<u8>, off: int)
    requires
        cmd_valid(c),
        0 <= off <= data.len(),
        data.len() - off < encoded_len(c),
        data.subrange(off, data.len() as int) == encode_cmd(c).take(data.len() - off),
    ensures
        try_decode(data, off) is None,
{
    lemma_auto_spec_u64_to_from_le_bytes();
    lemma_encode_len(c);
    let avail = data.len() - off;
    let enc = encode_cmd(c);
    assert forall|i: int| 0 <= i < avail implies data[off + i] == enc[i] by {
        assert(data.subrange(off, data.len() as int)[i] == encode_cmd(c).take(avail)[i]);
    }
    if avail < 9 {
    } else {
        assert(data[off] == enc[0]);
        assert(data.subrange(off + 1, off + 9) =~= enc.subrange(1, 9));
        match c {
            CmdView::Put { key, val } => {
                lemma_chars_bytes_len(key);
                lemma_chars_bytes_len(val);
                let kl = key.len() as int;
                assert(enc.subrange(1, 9) =~= spec_u64_to_le_bytes(key.len() as u64));
                assert(read_u64(data, off + 1) == kl);
                if off + 17 + 4 * kl > data.len() {
                } else {
                    assert(data.subrange(off + 9 + 4 * kl, off + 17 + 4 * kl) =~= enc.subrange(
                        9 + 4 * kl,
                        17 + 4 * kl,
                    ));
                    assert(enc.subrange(9 + 4 * kl, 17 + 4 * kl) =~= spec_u64_to_le_bytes(
                        val.len() as u64,
                    ));
                    assert(read_u64(data, off + 9 + 4 * kl) == val.len() as int);
                    assert(off + 17 + 4 * kl + 4 * val.len() > data.len());
                }
            }
            CmdView::Rm { key } => {
                lemma_chars_bytes_len(key);
                assert(enc.subrange(1, 9) =~= spec_u64_to_le_bytes(key.len() as u64));
                assert(read_u64(data, off + 1) == key.len() as int);
                assert(off + 9 + 4 * key.len() > data.len());
            }
        }
    }
}

/// Relies on char::from_u32: `Some` exactly for Unicode scalar values
/// (everything up to `char::MAX` except the surrogate range), returning
/// the character with that code point.
#[verifier::external_body]
fn char_from_u32(u: u32) -> (r: Option<char>)
    ensures
        r matches Some(c) ==> c as u32 == u,
        scalar_fits_char(u) ==> r is Some,
{
    char::from_u32(u)
}

/// Relies on String::push: appends the given character at the end.
#[verifier::external_body]
fn push_char(s: &mut String, c: char)
    ensures
        final(s)@ == old(s)@.push(c),
{
    s.push(c);
}

/// Append every byte of `b` to `out`.
pub(crate) fn push_bytes(out: &mut Vec<u8>, b: &Vec<u8>)
    ensures
        final(out)@ == old(out)@ + b@,
{
    let ghost orig = out@;
    let mut i: usize = 0;
    while i < b.len()
        invariant
            i <= b.len(),
            out@ == orig + b@.take(i as int),
        decreases b.len() - i,
    {
        out.push(b[i]);
        proof {
            assert(orig + b@.take(i as int) + seq![b@[i as int]] =~= orig + b@.take(i + 1));
        }
        i += 1;
    }
    proof {
        assert(orig + b@.take(b@.len() as int) =~= orig + b@);
    }
}

/// Append the eight little-endian bytes of `x` to `out`.
fn push_u64(out: &mut Vec<u8>, x: u64)
    ensures
        final(out)@ == old(out)@ + spec_u64_to_le_bytes(x),
{
    let b = u64_to_le_bytes(x);
    push_bytes(out, &b);
}

/// Append the byte image of `s`'s characters to `out`.
fn push_chars(out: &mut Vec<u8>, s: &str)
    ensures
        final(out)@ == old(out)@ + chars_bytes(s@),
{
    let ghost orig = out@;
    let n = s.unicode_len();
    let mut i: usize = 0;
    while i < n
        invariant
            i <= n,
            n == s@.len(),
            out@ == orig + chars_bytes(s@.take(i as int)),
        decreases n - i,
    {
        let c = s.get_char(i);
        let b = u32_to_le_bytes(c as u32);
        push_bytes(out, &b);
        proof {
            lemma_chars_bytes_snoc(s@.take(i as int), c);
            assert(s@.take(i as int).push(c) =~= s@.take(i + 1));
        }
        i += 1;
    }
    proof {
        assert(s@.take(n as int) =~= s@);
    }
}

/// Serialize one command into the byte record the log stores for it.
pub fn encode_command(cmd: &KvStoreCmd) -> (out: Vec<u8>)
    ensures
        out@ == encode_cmd(cmd@),
        cmd_valid(cmd@),
        out@.len() == encoded_len(cmd@),
{
    let mut out: Vec<u8> = Vec::new();
    match cmd {
        KvStoreCmd::Put(s) => {
            out.push(TAG_PUT);
            let klen = s.key.as_str().unicode_len();
            push_u64(&mut out, klen as u64);
            push_chars(&mut out, s.key.as_str());
            let vlen = s.val.as_str().unicode_len();
            push_u64(&mut out, vlen as u64);
            push_chars(&mut out, s.val.as_str());
            proof {
                assert(out@ =~= encode_cmd(cmd@));
            }
        }
        KvStoreCmd::Rm(r) => {
            out.push(TAG_RM);
            let klen = r.key.as_str().unicode_len();
            push_u64(&mut out, klen as u64);
            push_chars(&mut out, r.key.as_str());
            proof {
                assert(out@ =~= encode_cmd(cmd@));
            }
        }
    }
    proof {
        lemma_encode_len(cmd@);
    }
    out
}

fn read_u32_at(data: &Vec<u8>, off: usize) -> (x: u32)
    requires
        off + 4 <= data.len(),
    ensures
        x == spec_u32_from_le_bytes(data@.subrange(off as int, off as int + 4)),
{
    let s = slice_subrange(data.as_slice(), off, off + 4);
    u32_from_le_bytes(s)
}

fn read_u64_at(data: &Vec<u8>, off: usize) -> (x: u64)
    requires
        off + 8 <= data.len(),
    ensures
        x == spec_u64_from_le_bytes(data@.subrange(off as int, off as int + 8)),
{
    let s = slice_subrange(data.as_slice(), off, off + 8);
    u64_from_le_bytes(s)
}

/// Decode `n` characters of four bytes each starting at `off`.
fn decode_chars_exec(data: &Vec<u8>, off: usize, n: usize) -> (r: Option<String>)
    requires
        off + 4 * n <= data.len(),
    ensures
        match r {
            Some(s) => decode_chars(data@, off as int, n as int) == Some(s@),
            None => decode_chars(data@, off as int, n as int) is None,
        },
{
    let mut s = String::new();
    let mut i: usize = 0;
    while i < n
        invariant
            i <= n,
            off + 4 * n <= data.len(),
            decode_chars(data@, off as int, n as int) == (match decode_chars(
                data@,
                off as int + 4 * i,
                n as int - i,
            ) {
                Some(rest) => Some(s@ + rest),
                None => None::<Seq<char>>,
            }),
        decreases n - i,
    {
        let u = read_u32_at(data, off + 4 * i);
        match char_from_u32(u) {
            Some(c) => {
                proof {
                    vstd::utf8::char_is_scalar(c);
                    vstd::utf8::char_u32_cast(c, u);
                    let rest_off = off as int + 4 * i;
                    assert(decode_chars(data@, rest_off, n as int - i) == (
                    match decode_chars(data@, rest_off + 4, n as int - (i + 1)) {
                        Some(rest) => Some(seq![u as char] + rest),
                        None => None::<Seq<char>>,
                    }));
                }
                let ghost s_old = s@;
                push_char(&mut s, c);
                proof {
                    assert forall|rest: Seq<char>| true implies s_old + (seq![u as char] + rest)
                        =~= s@ + rest by {
                        assert(s@ =~= s_old.push(c));
                    }
                }
                i += 1;
            }
            None => {
                proof {
                    assert(!scalar_fits_char(u));
                }
                return None;
            }
        }
    }
    proof {
        assert(decode_chars(data@, off as int + 4 * n, 0) == Some(Seq::<char>::empty()));
        assert(s@ + Seq::<char>::empty() =~= s@);
    }
    Some(s)
}

/// Decode one record at `off`, returning the command and the offset just
/// past it, or `None` when no complete well-formed record starts there.
pub fn decode_command_at(data: &Vec<u8>, off: u64) -> (r: Option<(KvStoreCmd, u64)>)
    ensures
        match r {
            Some((cmd, end)) => try_decode(data@, off as int) == Some((cmd@, end as int)),
            None => try_decode(data@, off as int) is None,
        },
{
    let len = data.len();
    if off >= len as u64 || len - (off as usize) < 9 {
        return None;
    }
    let offu = off as usize;
    let tag = data[offu];
    let klen64 = read_u64_at(data, offu + 1);
    if tag == TAG_PUT {
        let rem = len - offu - 9;
        if rem < 8 {
            proof {
                assert(off + 17 + 4 * read_u64(data@, off as int + 1) > data@.len());
            }
            return None;
        }
        let keyroom = rem - 8;
        if klen64 > (keyroom / 4) as u64 {
            proof {
                assert(4 * klen64 > keyroom) by (nonlinear_arith)
                    requires klen64 > keyroom as u64 / 4;
            }
            return None;
        }
        let klen = klen64 as usize;
        proof {
            assert(4 * klen <= keyroom) by (nonlinear_arith)
                requires klen <= keyroom / 4;
        }
        let vlen_off = offu + 9 + 4 * klen;
        let vlen64 = read_u64_at(data, vlen_off);
        let valroom = len - vlen_off - 8;
        if vlen64 > (valroom / 4) as u64 {
            proof {
                assert(4 * vlen64 > valroom) by (nonlinear_arith)
                    requires vlen64 > valroom as u64 / 4;
            }
            return None;
        }
        let vlen = vlen64 as usize;
        proof {
            assert(4 * vlen <= valroom) by (nonlinear_arith)
                requires vlen <= valroom / 4;
        }
        let key = match decode_chars_exec(data, offu + 9, klen) {
            Some(k) => k,
            None => {
                return None;
            }
        };
        let val = match decode_chars_exec(data, vlen_off + 8, vlen) {
            Some(v) => v,
            None => {
                return None;
            }
        };
        let end = vlen_off + 8 + 4 * vlen;
        Some((KvStoreCmd::Put(KvStoreSet { key, val }), end as u64))
    } else if tag == TAG_RM {
        let rem = len - offu - 9;
        if klen64 > (rem / 4) as u64 {
            proof {
                assert(4 * klen64 > rem) by (nonlinear_arith)
                    requires klen64 > rem as u64 / 4;
            }
            return None;
        }
        let klen = klen64 as usize;
        proof {
            assert(4 * klen <= rem) by (nonlinear_arith)
                requires klen <= rem / 4;
        }
        let key = match decode_chars_exec(data, offu + 9, klen) {
            Some(k) => k,
            None => {
                return None;
            }
        };
        let end = offu + 9 + 4 * klen;
        Some((KvStoreCmd::Rm(KvStoreRm { key }), end as u64))
    } else {
        None
    }
}

} // verus!
