//! The record format: round trips, prefix safety, and the sequential
//! command scan.

use kvs::cmd::{KvStoreCmd, KvStoreSet, KvStoreRm};
use kvs::codec::{decode_command_at, encode_command};
use kvs::segment::{KvStoreFileCommandIterator, Segment};

fn put(key: &str, val: &str) -> KvStoreCmd {
    KvStoreCmd::Put(KvStoreSet { key: key.to_string(), val: val.to_string() })
}

fn rm(key: &str) -> KvStoreCmd {
    KvStoreCmd::Rm(KvStoreRm { key: key.to_string() })
}

fn assert_cmd_eq(a: &KvStoreCmd, b: &KvStoreCmd) {
    match (a, b) {
        (KvStoreCmd::Put(x), KvStoreCmd::Put(y)) => {
            assert_eq!(x.key, y.key);
            assert_eq!(x.val, y.val);
        }
        (KvStoreCmd::Rm(x), KvStoreCmd::Rm(y)) => {
            assert_eq!(x.key, y.key);
        }
        _ => panic!("command variants differ"),
    }
}

#[test]
fn encode_decode_round_trip() {
    for cmd in [
        put("key", "value"),
        put("", ""),
        put("k", ""),
        put("", "v"),
        put("héllo wörld", "✓ 🎈 émoji"),
        rm("key"),
        rm(""),
        rm("🔑"),
    ] {
        let bytes = encode_command(&cmd);
        let (decoded, end) = decode_command_at(&bytes, 0).expect("a full record must decode");
        assert_cmd_eq(&decoded, &cmd);
        assert_eq!(end as usize, bytes.len(), "decode must consume exactly the record");
    }
}

#[test]
fn exact_record_layout() {
    // Put "a" -> "b": tag 0, key length 1, 'a' as four LE bytes,
    // val length 1, 'b' as four LE bytes.
    let bytes = encode_command(&put("a", "b"));
    let expected: Vec<u8> = vec![
        0, // tag
        1, 0, 0, 0, 0, 0, 0, 0, // key length
        0x61, 0, 0, 0, // 'a'
        1, 0, 0, 0, 0, 0, 0, 0, // val length
        0x62, 0, 0, 0, // 'b'
    ];
    assert_eq!(bytes, expected);
    // Rm "a": tag 1, key length 1, 'a'.
    let bytes = encode_command(&rm("a"));
    let expected: Vec<u8> = vec![1, 1, 0, 0, 0, 0, 0, 0, 0, 0x61, 0, 0, 0];
    assert_eq!(bytes, expected);
}

#[test]
fn decoding_any_strict_prefix_fails() {
    for cmd in [put("key", "some value"), rm("another key")] {
        let bytes = encode_command(&cmd);
        for cut in 0..bytes.len() {
            let prefix: Vec<u8> = bytes[..cut].to_vec();
            assert!(
                decode_command_at(&prefix, 0).is_none(),
                "a {}-byte prefix of a {}-byte record must not decode",
                cut,
                bytes.len(),
            );
        }
    }
}

#[test]
fn decoding_bad_bytes_fails() {
    // An unknown tag.
    let bad_tag: Vec<u8> = vec![7, 0, 0, 0, 0, 0, 0, 0, 0, 0, 0, 0, 0];
    assert!(decode_command_at(&bad_tag, 0).is_none());
    // A four-byte group that is no Unicode scalar value (a surrogate).
    let mut bad_char: Vec<u8> = vec![1, 1, 0, 0, 0, 0, 0, 0, 0];
    bad_char.extend_from_slice(&0xD800u32.to_le_bytes());
    assert!(decode_command_at(&bad_char, 0).is_none());
    // A length field promising more bytes than there are.
    let short: Vec<u8> = vec![1, 0xFF, 0xFF, 0, 0, 0, 0, 0, 0, 0x61, 0, 0, 0];
    assert!(decode_command_at(&short, 0).is_none());
}

#[test]
fn decode_at_interior_offset() {
    let first = encode_command(&put("a", "1"));
    let second = encode_command(&rm("b"));
    let mut data = first.clone();
    data.extend_from_slice(&second);
    let (c1, end1) = decode_command_at(&data, 0).unwrap();
    assert_cmd_eq(&c1, &put("a", "1"));
    assert_eq!(end1 as usize, first.len());
    let (c2, end2) = decode_command_at(&data, end1).unwrap();
    assert_cmd_eq(&c2, &rm("b"));
    assert_eq!(end2 as usize, data.len());
}

#[test]
fn iterator_walks_records_in_order_and_stops_at_tail() {
    let mut data: Vec<u8> = Vec::new();
    let cmds = [put("a", "1"), put("b", "2"), rm("a")];
    for cmd in &cmds {
        data.extend_from_slice(&encode_command(cmd));
    }
    // A torn trailing write must end the scan, not fail it.
    let torn = encode_command(&put("c", "3"));
    data.extend_from_slice(&torn[..torn.len() / 2]);

    let mut it = KvStoreFileCommandIterator::new(data);
    assert_eq!(it.position(), 0);
    for cmd in &cmds {
        let got = it.next().expect("a complete record must be scanned");
        assert_cmd_eq(&got, cmd);
    }
    assert!(it.next().is_none());
    assert!(it.next().is_none());
}

#[test]
fn segment_append_then_read_at() {
    let mut seg = Segment::new(0);
    assert_eq!(seg.size(), 0);
    let o1 = seg.append(&put("x", "first"));
    let o2 = seg.append(&put("y", "second"));
    assert_eq!(o1, 0);
    assert!(o2 > 0);
    let c1 = seg.read_at(o1).unwrap();
    assert_cmd_eq(&c1, &put("x", "first"));
    let c2 = seg.read_at(o2).unwrap();
    assert_cmd_eq(&c2, &put("y", "second"));
    assert_eq!(seg.size() as usize, seg.data.len());
}

#[test]
fn trim_tail_cuts_only_the_torn_bytes() {
    let mut seg = Segment::new(0);
    seg.append(&put("a", "1"));
    seg.append(&rm("b"));
    let intact = seg.data.len();
    let torn = encode_command(&put("c", "3"));
    seg.data.extend_from_slice(&torn[..torn.len() - 1]);
    seg.trim_tail();
    assert_eq!(seg.data.len(), intact);
    let c = seg.read_at(0).unwrap();
    assert_cmd_eq(&c, &put("a", "1"));
}
