//! Key operations of the store: the internal-key codec (varint length
//! framing + user key + packed tag), the query-key builder, and the
//! internal-key comparator that orders encoded keys.

use core::cmp::Ordering;
use crate::cmp::{lex_cmp, lemma_lex_cmp_eq, lemma_lex_cmp_flip, lemma_lex_cmp_trans, Cmp,
    DefaultCmp};
use crate::coding::{decode_varint, encode_varint, lemma_varint_decode_encode, varint_decode,
    varint_len, varint_seq};
use crate::defines::{KvError, MSN};
use vstd::bytes::{lemma_auto_spec_u64_to_from_le_bytes, spec_u64_from_le_bytes,
    spec_u64_to_le_bytes, u64_from_le_bytes, u64_to_le_bytes};
use vstd::prelude::*;
use vstd::slice::{slice_subrange, slice_to_vec};

verus! {

/// The mutation types a record can carry.
#[derive(Debug, Clone, Copy, PartialEq, Eq, Structural)]
pub enum MsgType {
    CbMsgDel,
    CbMsgInsert,
}

/// The single byte a mutation type is stored as.
pub open spec fn msg_type_byte(t: MsgType) -> u8 {
    match t {
        MsgType::CbMsgDel => 0,
        MsgType::CbMsgInsert => 1,
    }
}

/// The 8-byte tag: the sequence number in the upper 56 bits, the mutation
/// type byte in the lower 8. A sequence number of 2^56 or more would
/// silently spill into the type byte, so packing assumes it fits.
pub open spec fn pack_tag(msn: u64, t: MsgType) -> u64 {
    (msn << 8) | (msg_type_byte(t) as u64)
}

/// The sequence number a tag carries.
pub open spec fn tag_seq_num(tag: u64) -> u64 {
    tag >> 8
}

/// The mutation type a tag carries: byte 0 is a deletion and anything
/// else decodes as an insertion (an inherited leniency of the format).
pub open spec fn tag_msg_type(tag: u64) -> MsgType {
    if tag & 0xff == 0 {
        MsgType::CbMsgDel
    } else {
        MsgType::CbMsgInsert
    }
}

/// The full encoded memtable key:
/// `[varint(len(key) + 8)][key bytes][tag: 8 bytes little-endian]`.
pub open spec fn memtable_key_seq(k: Seq<u8>, t: MsgType, msn: u64) -> Seq<u8> {
    varint_seq(k.len() + 8) + k + spec_u64_to_le_bytes(pack_tag(msn, t))
}

/// The varint prefix of `s` as (value, byte count); (0, 0) when none.
pub open spec fn mk_varint(s: Seq<u8>) -> (nat, nat) {
    match varint_decode(s) {
        Some(p) => p,
        None => (0, 0),
    }
}

/// A well-formed memtable key: a varint length prefix of value `l >= 8`
/// whose claimed extent matches the buffer exactly.
pub open spec fn wf_memtable_key(s: Seq<u8>) -> bool {
    &&& varint_decode(s) is Some
    &&& mk_varint(s).0 >= 8
    &&& s.len() == mk_varint(s).1 + mk_varint(s).0
}

/// Where the user key starts inside a well-formed memtable key.
pub open spec fn mk_key_offset(s: Seq<u8>) -> nat {
    mk_varint(s).1
}

/// The user-key bytes of a well-formed memtable key.
pub open spec fn mk_user_key(s: Seq<u8>) -> Seq<u8> {
    s.subrange(mk_key_offset(s) as int, s.len() - 8)
}

/// The tag of a well-formed memtable key: its trailing 8 bytes.
pub open spec fn mk_tag(s: Seq<u8>) -> u64 {
    spec_u64_from_le_bytes(s.subrange(s.len() - 8, s.len() as int))
}

/// The internal key (user key + tag) of a well-formed memtable key.
pub open spec fn mk_internal_key(s: Seq<u8>) -> Seq<u8> {
    s.skip(mk_key_offset(s) as int)
}

/// Tag packing loses nothing: unpacking recovers the exact sequence
/// number (when it fits 56 bits) and mutation type.
pub proof fn lemma_tag_pack_unpack(msn: u64, t: MsgType)
    requires
        msn < 0x100000000000000,
    ensures
        tag_seq_num(pack_tag(msn, t)) == msn,
        tag_msg_type(pack_tag(msn, t)) == t,
{
    let b = msg_type_byte(t) as u64;
    assert(b == 0 || b == 1);
    assert(((msn << 8) | b) >> 8 == msn && ((msn << 8) | b) & 0xff == b) by (bit_vector)
        requires
            msn < 0x100000000000000u64 && (b == 0u64 || b == 1u64),
    ;
}

/// Larger sequence numbers make numerically larger tags, whatever the
/// mutation types involved.
pub proof fn lemma_tag_order(s1: u64, s2: u64, t1: MsgType, t2: MsgType)
    requires
        s1 < s2 < 0x100000000000000,
    ensures
        pack_tag(s1, t1) < pack_tag(s2, t2),
{
    let b1 = msg_type_byte(t1) as u64;
    let b2 = msg_type_byte(t2) as u64;
    assert(((s1 << 8) | b1) < ((s2 << 8) | b2)) by (bit_vector)
        requires
            s1 < s2 < 0x100000000000000u64 && b1 < 256u64 && b2 < 256u64,
    ;
}

/// Decoding an encoded memtable key recovers its exact parts: the
/// round-trip law of the codec, at the byte level.
pub proof fn lemma_memtable_key_parts(k: Seq<u8>, t: MsgType, msn: u64)
    ensures
        wf_memtable_key(memtable_key_seq(k, t, msn)),
        mk_key_offset(memtable_key_seq(k, t, msn)) == varint_len(k.len() + 8),
        mk_user_key(memtable_key_seq(k, t, msn)) == k,
        mk_tag(memtable_key_seq(k, t, msn)) == pack_tag(msn, t),
{
    let tagbytes = spec_u64_to_le_bytes(pack_tag(msn, t));
    let enc = memtable_key_seq(k, t, msn);
    lemma_auto_spec_u64_to_from_le_bytes();
    assert(tagbytes.len() == 8);
    assert(enc =~= varint_seq(k.len() + 8) + (k + tagbytes));
    lemma_varint_decode_encode(k.len() + 8, k + tagbytes);
    let c = varint_len(k.len() + 8);
    assert(enc.len() == c + (k.len() + 8));
    assert(mk_user_key(enc) =~= k);
    assert(enc.subrange(enc.len() - 8, enc.len() as int) =~= tagbytes);
}

/// The full round-trip law: decoding what `memtable_key_seq` built yields
/// the user key, mutation type and sequence number that went in.
pub proof fn lemma_round_trip(k: Seq<u8>, t: MsgType, msn: u64)
    requires
        msn < 0x100000000000000,
    ensures
        wf_memtable_key(memtable_key_seq(k, t, msn)),
        mk_user_key(memtable_key_seq(k, t, msn)) == k,
        tag_msg_type(mk_tag(memtable_key_seq(k, t, msn))) == t,
        tag_seq_num(mk_tag(memtable_key_seq(k, t, msn))) == msn,
{
    lemma_memtable_key_parts(k, t, msn);
    lemma_tag_pack_unpack(msn, t);
}

/// The length law: an encoded memtable key is exactly the varint prefix
/// plus the user key plus the 8 tag bytes.
pub proof fn lemma_encode_length(k: Seq<u8>, t: MsgType, msn: u64)
    ensures
        memtable_key_seq(k, t, msn).len() == varint_len(k.len() + 8) + k.len() + 8,
{
    lemma_auto_spec_u64_to_from_le_bytes();
}

/// Parse a tag into (type, MSN).
pub fn parse_tag(tag: u64) -> (r: (MsgType, u64))
    ensures
        r.0 == tag_msg_type(tag),
        r.1 == tag_seq_num(tag),
{
    let msn = tag >> 8;
    let mt = tag & 0xff;
    if mt == 0 {
        (MsgType::CbMsgDel, msn)
    } else {
        (MsgType::CbMsgInsert, msn)
    }
}

/// Pack a sequence number and a mutation type into an 8-byte tag.
fn pack_tag_val(msn: u64, t: MsgType) -> (r: u64)
    ensures
        r == pack_tag(msn, t),
{
    let b: u64 = match t {
        MsgType::CbMsgDel => 0,
        MsgType::CbMsgInsert => 1,
    };
    (msn << 8) | b
}

/// Encode a memtable key:
/// `[keysize: varint, key bytes, tag: u64 little-endian]`.
pub fn build_memtable_key(key: &[u8], mt: MsgType, msn: MSN) -> (r: Vec<u8>)
    requires
        key@.len() + 8 <= usize::MAX,
    ensures
        r@ == memtable_key_seq(key@, mt, msn),
        wf_memtable_key(r@),
{
    proof {
        lemma_memtable_key_parts(key@, mt, msn);
    }
    let keysize: usize = key.len() + 8;
    let mut buf = encode_varint(keysize);
    buf.extend_from_slice(key);
    let mut tagbytes = u64_to_le_bytes(pack_tag_val(msn, mt));
    proof {
        lemma_auto_spec_u64_to_from_le_bytes();
    }
    buf.append(&mut tagbytes);
    proof {
        assert(buf@ =~= memtable_key_seq(key@, mt, msn));
    }
    buf
}

/// Decode a memtable key into its user key, mutation type and sequence
/// number. Fails with `MalformedKey` exactly when the bytes are not a
/// well-formed memtable key: a truncated varint, a length prefix under 8,
/// or a claimed extent that disagrees with the buffer's size.
pub fn parse_memtable_key(buf: &[u8]) -> (r: Result<(Vec<u8>, MsgType, u64), KvError>)
    ensures
        r is Ok <==> wf_memtable_key(buf@),
        match r {
            Ok((k, t, msn)) => {
                &&& k@ == mk_user_key(buf@)
                &&& t == tag_msg_type(mk_tag(buf@))
                &&& msn == tag_seq_num(mk_tag(buf@))
            },
            Err(e) => e == KvError::MalformedKey,
        },
{
    let n = buf.len();
    match decode_varint(buf, 0) {
        None => {
            proof {
                assert(buf@.skip(0) =~= buf@);
            }
            Err(KvError::MalformedKey)
        },
        Some((l, c)) => {
            proof {
                assert(buf@.skip(0) =~= buf@);
            }
            if l < 8 || l != n - c {
                Err(KvError::MalformedKey)
            } else {
                let uk = slice_to_vec(slice_subrange(buf, c, n - 8));
                let tag = u64_from_le_bytes(slice_subrange(buf, n - 8, n));
                let (t, msn) = parse_tag(tag);
                Ok((uk, t, msn))
            }
        },
    }
}

/// The user-key bytes of a well-formed memtable key, as a sub-slice.
pub fn mt_user_key<'a>(k: &'a [u8]) -> (r: &'a [u8])
    requires
        wf_memtable_key(k@),
    ensures
        r@ == mk_user_key(k@),
{
    let n = k.len();
    match decode_varint(k, 0) {
        Some((l, c)) => {
            proof {
                assert(k@.skip(0) =~= k@);
            }
            slice_subrange(k, c, n - 8)
        },
        None => {
            proof {
                assert(k@.skip(0) =~= k@);
                assert(false);
            }
            vstd::pervasive::unreached()
        },
    }
}

/// The tag of a well-formed memtable key, read from its trailing 8 bytes.
pub fn mt_tag(k: &[u8]) -> (r: u64)
    requires
        wf_memtable_key(k@),
    ensures
        r == mk_tag(k@),
{
    u64_from_le_bytes(slice_subrange(k, k.len() - 8, k.len()))
}

/// How an internal-key comparator built on `c` orders two well-formed
/// memtable keys: by user key under `c`, ties broken by descending
/// sequence number, so that the newer record sorts first.
pub open spec fn ikc_ordering<C: Cmp>(c: &C, a: Seq<u8>, b: Seq<u8>) -> Ordering {
    let o = c.cmp_spec(mk_user_key(a), mk_user_key(b));
    if o == Ordering::Equal {
        let sa = tag_seq_num(mk_tag(a));
        let sb = tag_seq_num(mk_tag(b));
        if sb < sa {
            Ordering::Less
        } else if sb > sa {
            Ordering::Greater
        } else {
            Ordering::Equal
        }
    } else {
        o
    }
}

/// Comparison function for memtable keys: user keys first, under the
/// supplied comparator; equal user keys order by descending sequence
/// number.
pub fn cmp_memtable_key<C: Cmp>(ucmp: &C, a: &[u8], b: &[u8]) -> (r: Ordering)
    requires
        wf_memtable_key(a@),
        wf_memtable_key(b@),
    ensures
        r == ikc_ordering(ucmp, a@, b@),
{
    let clientkey_a = mt_user_key(a);
    let clientkey_b = mt_user_key(b);
    match ucmp.cmp(clientkey_a, clientkey_b) {
        Ordering::Less => Ordering::Less,
        Ordering::Greater => Ordering::Greater,
        Ordering::Equal => {
            let (_ta, aseq) = parse_tag(mt_tag(a));
            let (_tb, bseq) = parse_tag(mt_tag(b));
            if bseq < aseq {
                Ordering::Less
            } else if bseq > aseq {
                Ordering::Greater
            } else {
                Ordering::Equal
            }
        },
    }
}

/// The ordering law for one user key: of two records with the same user
/// key, the one with the larger sequence number sorts first.
pub proof fn lemma_order_same_key_newer_first(k: Seq<u8>, s1: u64, s2: u64)
    requires
        s1 < s2,
        s2 < 0x100000000000000,
    ensures
        ikc_ordering(
            &DefaultCmp,
            memtable_key_seq(k, MsgType::CbMsgInsert, s1),
            memtable_key_seq(k, MsgType::CbMsgInsert, s2),
        ) == Ordering::Greater,
{
    lemma_round_trip(k, MsgType::CbMsgInsert, s1);
    lemma_round_trip(k, MsgType::CbMsgInsert, s2);
    lemma_lex_cmp_eq(k, k);
}

/// The delegation law: when the active comparator orders user key `a`
/// below user key `b`, every record of `a` orders below every record of
/// `b`, whatever their sequence numbers and types.
pub proof fn lemma_order_delegates_to_comparator<C: Cmp>(
    c: &C,
    a: Seq<u8>,
    b: Seq<u8>,
    t1: MsgType,
    t2: MsgType,
    s1: u64,
    s2: u64,
)
    requires
        c.cmp_spec(a, b) == Ordering::Less,
    ensures
        ikc_ordering(c, memtable_key_seq(a, t1, s1), memtable_key_seq(b, t2, s2))
            == Ordering::Less,
{
    lemma_memtable_key_parts(a, t1, s1);
    lemma_memtable_key_parts(b, t2, s2);
}

/// The default internal-key ordering the table uses: `ikc_ordering` over
/// the byte-wise comparator.
pub open spec fn default_ikc(a: Seq<u8>, b: Seq<u8>) -> Ordering {
    ikc_ordering(&DefaultCmp, a, b)
}

/// Swapping the arguments of the default internal-key ordering swaps
/// `Less` and `Greater`.
pub proof fn lemma_default_ikc_flip(a: Seq<u8>, b: Seq<u8>)
    ensures
        default_ikc(a, b) == Ordering::Less <==> default_ikc(b, a) == Ordering::Greater,
        default_ikc(a, b) == Ordering::Equal <==> default_ikc(b, a) == Ordering::Equal,
{
    lemma_lex_cmp_flip(mk_user_key(a), mk_user_key(b));
}

/// Two keys the default internal-key ordering calls equal agree on user
/// key and sequence number.
pub proof fn lemma_default_ikc_equal(a: Seq<u8>, b: Seq<u8>)
    requires
        default_ikc(a, b) == Ordering::Equal,
    ensures
        mk_user_key(a) == mk_user_key(b),
        tag_seq_num(mk_tag(a)) == tag_seq_num(mk_tag(b)),
{
    lemma_lex_cmp_eq(mk_user_key(a), mk_user_key(b));
}

/// The default internal-key ordering is transitive in `Less`.
pub proof fn lemma_default_ikc_trans(a: Seq<u8>, b: Seq<u8>, c: Seq<u8>)
    requires
        default_ikc(a, b) == Ordering::Less,
        default_ikc(b, c) == Ordering::Less,
    ensures
        default_ikc(a, c) == Ordering::Less,
{
    let ua = mk_user_key(a);
    let ub = mk_user_key(b);
    let uc = mk_user_key(c);
    if lex_cmp(ua, ub) == Ordering::Equal {
        lemma_lex_cmp_eq(ua, ub);
    }
    if lex_cmp(ub, uc) == Ordering::Equal {
        lemma_lex_cmp_eq(ub, uc);
    }
    if lex_cmp(ua, ub) == Ordering::Less && lex_cmp(ub, uc) == Ordering::Less {
        lemma_lex_cmp_trans(ua, ub, uc);
    }
}

/// A key equal (under the default internal-key ordering) to another
/// orders the same way against any third key.
pub proof fn lemma_default_ikc_congruent(a: Seq<u8>, b: Seq<u8>, c: Seq<u8>)
    requires
        default_ikc(a, b) == Ordering::Equal,
    ensures
        default_ikc(a, c) == default_ikc(b, c),
        default_ikc(c, a) == default_ikc(c, b),
{
    lemma_default_ikc_equal(a, b);
}

/// A QueryKey contains [keylen, key, tag], where
/// keylen = len(key) + len(tag); it exposes three views into the one
/// underlying buffer without re-parsing.
#[derive(Clone, Debug)]
pub struct QueryKey {
    key: Vec<u8>,
    key_offset: usize,
}

impl View for QueryKey {
    type V = Seq<u8>;

    closed spec fn view(&self) -> Seq<u8> {
        self.key@
    }
}

impl QueryKey {
    /// The buffer is a well-formed memtable key and the recorded offset
    /// is where its user key starts.
    pub closed spec fn wf(self) -> bool {
        &&& wf_memtable_key(self.key@)
        &&& self.key_offset == mk_key_offset(self.key@)
    }

    /// A well-formed query key wraps a well-formed memtable key.
    pub proof fn lemma_wf(self)
        requires
            self.wf(),
        ensures
            wf_memtable_key(self@),
    {
    }

    /// Build a query key for a lookup: the mutation type defaults to an
    /// insertion, whose tag sorts at or before any record of the same
    /// user key and sequence number.
    pub fn new(k: &[u8], msn: MSN) -> (q: QueryKey)
        requires
            k@.len() + 8 <= usize::MAX,
        ensures
            q.wf(),
            q@ == memtable_key_seq(k@, MsgType::CbMsgInsert, msn),
    {
        QueryKey::new_raw(k, msn, MsgType::CbMsgInsert)
    }

    /// Build a query key with an explicit mutation type.
    pub fn new_raw(k: &[u8], msn: MSN, t: MsgType) -> (q: QueryKey)
        requires
            k@.len() + 8 <= usize::MAX,
        ensures
            q.wf(),
            q@ == memtable_key_seq(k@, t, msn),
    {
        let key = build_memtable_key(k, t, msn);
        proof {
            lemma_memtable_key_parts(k@, t, msn);
        }
        match decode_varint(key.as_slice(), 0) {
            Some((_l, c)) => {
                proof {
                    assert(key@.skip(0) =~= key@);
                }
                QueryKey { key, key_offset: c }
            },
            None => {
                proof {
                    assert(key@.skip(0) =~= key@);
                    assert(false);
                }
                vstd::pervasive::unreached()
            },
        }
    }

    /// The full encoded bytes, suitable as a table key.
    pub fn memtable_key(&self) -> (r: &[u8])
        ensures
            r@ == self@,
    {
        self.key.as_slice()
    }

    /// The bare user key.
    pub fn client_key(&self) -> (r: &[u8])
        requires
            self.wf(),
        ensures
            r@ == mk_user_key(self@),
    {
        slice_subrange(self.key.as_slice(), self.key_offset, self.key.len() - 8)
    }

    /// The internal key: user key + tag.
    pub fn internal_key(&self) -> (r: &[u8])
        requires
            self.wf(),
        ensures
            r@ == mk_internal_key(self@),
    {
        let r = slice_subrange(self.key.as_slice(), self.key_offset, self.key.len());
        proof {
            assert(r@ =~= mk_internal_key(self@));
        }
        r
    }
}

} // verus!
