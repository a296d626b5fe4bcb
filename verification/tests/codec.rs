//! Tests of the varint coding, the tag codec and the internal-key codec.

use core::cmp::Ordering;
use cobbledb::cmp::{Cmp, DefaultCmp};
use cobbledb::coding::{decode_varint, encode_varint};
use cobbledb::defines::KvError;
use cobbledb::key_types::{build_memtable_key, cmp_memtable_key, parse_memtable_key, parse_tag,
    MsgType, QueryKey};

#[test]
fn varint_small_values() {
    assert_eq!(encode_varint(0), vec![0u8]);
    assert_eq!(encode_varint(1), vec![1u8]);
    assert_eq!(encode_varint(127), vec![127u8]);
}

#[test]
fn varint_multi_byte_values() {
    assert_eq!(encode_varint(128), vec![0x80u8, 0x01]);
    assert_eq!(encode_varint(300), vec![0xacu8, 0x02]);
    assert_eq!(encode_varint(16384), vec![0x80u8, 0x80, 0x01]);
}

#[test]
fn varint_decode_round_trip() {
    for n in [0usize, 1, 127, 128, 255, 300, 16383, 16384, 1 << 28, usize::MAX] {
        let bytes = encode_varint(n);
        let got = decode_varint(&bytes, 0);
        assert_eq!(got, Some((n, bytes.len())));
    }
}

#[test]
fn varint_decode_ignores_trailing_bytes() {
    let mut bytes = encode_varint(300);
    bytes.push(0xff);
    bytes.push(0x00);
    assert_eq!(decode_varint(&bytes, 0), Some((300, 2)));
}

#[test]
fn varint_decode_truncated_is_none() {
    // A continuation bit with nothing after it.
    assert_eq!(decode_varint(&[0x80u8], 0), None);
    assert_eq!(decode_varint(&[0xffu8, 0x80], 0), None);
    assert_eq!(decode_varint(&[], 0), None);
}

#[test]
fn varint_decode_redundant_zero_group_is_none() {
    // 0x80 0x00 would be value zero written in two bytes: not canonical.
    assert_eq!(decode_varint(&[0x80u8, 0x00], 0), None);
}

#[test]
fn tag_pack_unpack_identity() {
    // unpack(pack(s, t)) == (t, s): pack by encoding a full key, then
    // read the tag back through decode.
    let (k, t, s) = parse_memtable_key(&build_memtable_key(b"k", MsgType::CbMsgDel, 7)).unwrap();
    assert_eq!(k, b"k".to_vec());
    assert_eq!(t, MsgType::CbMsgDel);
    assert_eq!(s, 7);
    let max_seq: u64 = (1u64 << 56) - 1;
    let (_, t2, s2) =
        parse_memtable_key(&build_memtable_key(b"k", MsgType::CbMsgInsert, max_seq)).unwrap();
    assert_eq!(t2, MsgType::CbMsgInsert);
    assert_eq!(s2, max_seq);
}

#[test]
fn parse_tag_variants() {
    assert_eq!(parse_tag((5 << 8) | 1), (MsgType::CbMsgInsert, 5));
    assert_eq!(parse_tag((7 << 8) | 0), (MsgType::CbMsgDel, 7));
    // Lenient decode: an unknown type byte reads as an insertion.
    assert_eq!(parse_tag((9 << 8) | 2), (MsgType::CbMsgInsert, 9));
}

#[test]
fn encode_exact_bytes() {
    // keysize = 3 + 8 = 11; tag = (5 << 8) | 1 little-endian.
    let enc = build_memtable_key(b"foo", MsgType::CbMsgInsert, 5);
    assert_eq!(
        enc,
        vec![0x0bu8, b'f', b'o', b'o', 0x01, 0x05, 0x00, 0x00, 0x00, 0x00, 0x00, 0x00]
    );
}

#[test]
fn encode_length_invariant() {
    // len(encode(k, t, s)) == varint_len(len(k) + 8) + len(k) + 8.
    let small = build_memtable_key(b"foo", MsgType::CbMsgInsert, 5);
    assert_eq!(small.len(), 1 + 3 + 8);
    let empty = build_memtable_key(b"", MsgType::CbMsgDel, 1);
    assert_eq!(empty.len(), 1 + 0 + 8);
    // 121 key bytes push the internal length to 129: a two-byte varint.
    let big_key = vec![b'x'; 121];
    let big = build_memtable_key(&big_key, MsgType::CbMsgInsert, 5);
    assert_eq!(big.len(), 2 + 121 + 8);
}

#[test]
fn scenario_encode_then_decode() {
    let enc = build_memtable_key(b"foo", MsgType::CbMsgInsert, 5);
    let (k, t, s) = parse_memtable_key(&enc).unwrap();
    assert_eq!(k, b"foo".to_vec());
    assert_eq!(t, MsgType::CbMsgInsert);
    assert_eq!(s, 5);
}

#[test]
fn round_trip_various_inputs() {
    let cases: Vec<(&[u8], MsgType, u64)> = vec![
        (b"", MsgType::CbMsgDel, 0),
        (b"a", MsgType::CbMsgInsert, 1),
        (b"some longer user key with spaces", MsgType::CbMsgDel, 123456789),
        (&[0u8, 255, 1, 128], MsgType::CbMsgInsert, (1u64 << 56) - 1),
    ];
    for (k, t, s) in cases {
        let enc = build_memtable_key(k, t, s);
        let (dk, dt, ds) = parse_memtable_key(&enc).unwrap();
        assert_eq!(dk, k.to_vec());
        assert_eq!(dt, t);
        assert_eq!(ds, s);
    }
}

#[test]
fn scenario_malformed_length_prefix() {
    // The prefix claims 11 bytes of key + tag, but only one byte follows.
    let bytes = [0x0bu8, b'f'];
    assert_eq!(parse_memtable_key(&bytes), Err(KvError::MalformedKey));
}

#[test]
fn malformed_variants() {
    // Empty buffer.
    assert_eq!(parse_memtable_key(&[]), Err(KvError::MalformedKey));
    // Truncated varint.
    assert_eq!(parse_memtable_key(&[0x80u8]), Err(KvError::MalformedKey));
    // Length prefix under 8: too small to hold a tag.
    assert_eq!(
        parse_memtable_key(&[0x05u8, 1, 2, 3, 4, 5]),
        Err(KvError::MalformedKey)
    );
    // Buffer longer than the prefix claims.
    let mut enc = build_memtable_key(b"foo", MsgType::CbMsgInsert, 5);
    enc.push(0x00);
    assert_eq!(parse_memtable_key(&enc), Err(KvError::MalformedKey));
}

#[test]
fn default_cmp_orders_bytewise() {
    let c = DefaultCmp;
    assert_eq!(c.cmp(b"abc", b"abd"), Ordering::Less);
    assert_eq!(c.cmp(b"abd", b"abc"), Ordering::Greater);
    assert_eq!(c.cmp(b"abc", b"abc"), Ordering::Equal);
    // A proper prefix sorts before its extensions.
    assert_eq!(c.cmp(b"ab", b"abc"), Ordering::Less);
    assert_eq!(c.cmp(b"abc", b"ab"), Ordering::Greater);
    assert_eq!(c.cmp(b"", b""), Ordering::Equal);
}

#[test]
fn default_cmp_id_is_stable() {
    assert_eq!(DefaultCmp.id(), "CobbleDB.BytewiseComparator");
}

#[test]
fn ordering_same_key_newer_first() {
    // compare(encode(k, Insert, s1), encode(k, Insert, s2)) with s1 < s2
    // yields Greater: the newer record sorts first.
    let a = build_memtable_key(b"key", MsgType::CbMsgInsert, 1);
    let b = build_memtable_key(b"key", MsgType::CbMsgInsert, 2);
    assert_eq!(cmp_memtable_key(&DefaultCmp, &a, &b), Ordering::Greater);
    assert_eq!(cmp_memtable_key(&DefaultCmp, &b, &a), Ordering::Less);
    assert_eq!(cmp_memtable_key(&DefaultCmp, &a, &a), Ordering::Equal);
}

#[test]
fn ordering_different_keys_delegates() {
    // The comparator says "a" < "b", so every record of "a" sorts below
    // every record of "b", whatever the sequence numbers and types.
    let a = build_memtable_key(b"a", MsgType::CbMsgInsert, 900);
    let b = build_memtable_key(b"b", MsgType::CbMsgDel, 3);
    assert_eq!(cmp_memtable_key(&DefaultCmp, &a, &b), Ordering::Less);
    assert_eq!(cmp_memtable_key(&DefaultCmp, &b, &a), Ordering::Greater);
}

#[test]
fn query_key_views() {
    let q = QueryKey::new_raw(b"foo", 5, MsgType::CbMsgInsert);
    assert_eq!(
        q.memtable_key(),
        &[0x0bu8, b'f', b'o', b'o', 0x01, 0x05, 0x00, 0x00, 0x00, 0x00, 0x00, 0x00]
    );
    assert_eq!(q.client_key(), b"foo");
    assert_eq!(
        q.internal_key(),
        &[b'f', b'o', b'o', 0x01, 0x05, 0x00, 0x00, 0x00, 0x00, 0x00, 0x00]
    );
}

#[test]
fn query_key_defaults_to_insert() {
    let q = QueryKey::new(b"foo", 5);
    let raw = QueryKey::new_raw(b"foo", 5, MsgType::CbMsgInsert);
    assert_eq!(q.memtable_key(), raw.memtable_key());
}
