//! The ordered in-memory table: a mapping from encoded memtable keys to
//! value payloads, kept sorted by the internal-key comparator over the
//! default byte-wise user-key comparator. Routing the table's own sort
//! order through that comparator (rather than comparing raw encoded
//! bytes) is a deliberate contract: ascending iteration yields, within
//! one user key, newest-to-oldest version order.

use core::cmp::Ordering;
use crate::cmp::{Cmp, DefaultCmp};
use crate::defines::{KvError, MSN};
use crate::key_types::{build_memtable_key, cmp_memtable_key, default_ikc,
    lemma_default_ikc_congruent, lemma_default_ikc_equal, lemma_default_ikc_flip,
    lemma_default_ikc_trans, lemma_memtable_key_parts, lemma_round_trip, memtable_key_seq,
    mk_tag, mk_user_key, mt_tag, mt_user_key, parse_tag, tag_msg_type,
    tag_seq_num, wf_memtable_key, MsgType, QueryKey};
use vstd::bytes::u64_from_le_bytes;
use vstd::prelude::*;
use vstd::slice::{slice_subrange, slice_to_vec};

verus! {

/// One stored record as the specification sees it:
/// (encoded memtable key, value payload).
pub type EntryView = (Seq<u8>, Seq<u8>);

/// Every key of the table is a well-formed memtable key.
pub open spec fn table_keys_wf(t: Seq<EntryView>) -> bool {
    forall|i: int| 0 <= i < t.len() ==> wf_memtable_key((#[trigger] t[i]).0)
}

/// The table is strictly sorted by the default internal-key ordering:
/// user keys ascending byte-wise, ties by descending sequence number.
pub open spec fn table_sorted(t: Seq<EntryView>) -> bool {
    forall|i: int, j: int|
        0 <= i < j < t.len() ==> default_ikc((#[trigger] t[i]).0, (#[trigger] t[j]).0)
            == Ordering::Less
}

/// The table already stores a record of this user key under this
/// sequence number.
pub open spec fn table_has_version(t: Seq<EntryView>, uk: Seq<u8>, msn: u64) -> bool {
    exists|i: int|
        0 <= i < t.len() && mk_user_key((#[trigger] t[i]).0) == uk && tag_seq_num(
            mk_tag(t[i].0),
        ) == msn
}

/// The first record, in table order, whose user key is `uk` and whose
/// sequence number is visible at snapshot `snap`. Because the table
/// sorts equal user keys by descending sequence number, this is the
/// newest visible version.
pub open spec fn find_visible(t: Seq<EntryView>, uk: Seq<u8>, snap: u64) -> Option<EntryView>
    decreases t.len(),
{
    if t.len() == 0 {
        None
    } else if mk_user_key(t[0].0) == uk && tag_seq_num(mk_tag(t[0].0)) <= snap {
        Some(t[0])
    } else {
        find_visible(t.skip(1), uk, snap)
    }
}

/// In a sorted table, the first visible record of a user key is its
/// newest visible version: no other visible record of that key carries a
/// larger sequence number, and a `None` means no record of that key is
/// visible at all. This is what lets a lookup stop at its first match.
pub proof fn lemma_find_visible_newest(t: Seq<EntryView>, uk: Seq<u8>, snap: u64)
    requires
        table_keys_wf(t),
        table_sorted(t),
    ensures
        match find_visible(t, uk, snap) {
            Some(e) => {
                &&& mk_user_key(e.0) == uk
                &&& tag_seq_num(mk_tag(e.0)) <= snap
                &&& forall|i: int|
                    0 <= i < t.len() && mk_user_key((#[trigger] t[i]).0) == uk && tag_seq_num(
                        mk_tag(t[i].0),
                    ) <= snap ==> tag_seq_num(mk_tag(t[i].0)) <= tag_seq_num(mk_tag(e.0))
            },
            None => forall|i: int|
                0 <= i < t.len() ==> !(mk_user_key((#[trigger] t[i]).0) == uk && tag_seq_num(
                    mk_tag(t[i].0),
                ) <= snap),
        },
    decreases t.len(),
{
    if t.len() == 0 {
    } else if mk_user_key(t[0].0) == uk && tag_seq_num(mk_tag(t[0].0)) <= snap {
        let e = t[0];
        assert forall|i: int|
            0 <= i < t.len() && mk_user_key((#[trigger] t[i]).0) == uk && tag_seq_num(
                mk_tag(t[i].0),
            ) <= snap implies tag_seq_num(mk_tag(t[i].0)) <= tag_seq_num(mk_tag(e.0)) by {
            if i > 0 {
                // Equal user keys: the sort order puts larger sequence
                // numbers first, so the record at i is older.
                assert(default_ikc(t[0].0, t[i].0) == Ordering::Less);
                crate::cmp::lemma_lex_cmp_eq(mk_user_key(t[0].0), mk_user_key(t[i].0));
            }
        }
    } else {
        let rest = t.skip(1);
        assert forall|i: int, j: int| 0 <= i < j < rest.len() implies default_ikc(
            (#[trigger] rest[i]).0,
            (#[trigger] rest[j]).0,
        ) == Ordering::Less by {
            assert(rest[i] == t[i + 1] && rest[j] == t[j + 1]);
        }
        assert forall|i: int| 0 <= i < rest.len() implies wf_memtable_key(
            (#[trigger] rest[i]).0,
        ) by {
            assert(rest[i] == t[i + 1]);
        }
        lemma_find_visible_newest(rest, uk, snap);
        match find_visible(t, uk, snap) {
            Some(e) => {
                assert forall|i: int|
                    0 <= i < t.len() && mk_user_key((#[trigger] t[i]).0) == uk && tag_seq_num(
                        mk_tag(t[i].0),
                    ) <= snap implies tag_seq_num(mk_tag(t[i].0)) <= tag_seq_num(mk_tag(e.0)) by {
                    assert(i > 0);
                    assert(t[i] == rest[i - 1]);
                }
            },
            None => {
                assert forall|i: int| 0 <= i < t.len() implies !(mk_user_key(
                    (#[trigger] t[i]).0,
                ) == uk && tag_seq_num(mk_tag(t[i].0)) <= snap) by {
                    if i > 0 {
                        assert(t[i] == rest[i - 1]);
                    }
                }
            },
        }
    }
}

/// Inserting a version absent from the table compares `Equal` to no
/// stored key, so such a put grows the table by exactly one record:
/// the insertion-count law.
pub proof fn lemma_fresh_version_not_equal(t: Seq<EntryView>, uk: Seq<u8>, mt: MsgType, msn: u64)
    requires
        msn < 0x100000000000000,
        !table_has_version(t, uk, msn),
    ensures
        forall|i: int|
            0 <= i < t.len() ==> default_ikc((#[trigger] t[i]).0, memtable_key_seq(uk, mt, msn))
                != Ordering::Equal,
{
    let mk = memtable_key_seq(uk, mt, msn);
    lemma_round_trip(uk, mt, msn);
    assert forall|i: int| 0 <= i < t.len() implies default_ikc((#[trigger] t[i]).0, mk)
        != Ordering::Equal by {
        if default_ikc(t[i].0, mk) == Ordering::Equal {
            lemma_default_ikc_equal(t[i].0, mk);
        }
    }
}

/// The memtable: the write buffer of the engine's memory component.
/// Exclusively owned by one writer context; created empty, filled by
/// `put`, read by `get` and `iter`.
pub struct MemTable {
    entries: Vec<(Vec<u8>, Vec<u8>)>,
}

impl View for MemTable {
    type V = Seq<EntryView>;

    closed spec fn view(&self) -> Seq<EntryView> {
        self.entries@.map_values(|p: (Vec<u8>, Vec<u8>)| (p.0@, p.1@))
    }
}

impl MemTable {
    /// The table's invariant: well-formed keys, strictly sorted.
    pub open spec fn wf(self) -> bool {
        &&& table_keys_wf(self@)
        &&& table_sorted(self@)
    }

    /// An empty table.
    pub fn new() -> (t: MemTable)
        ensures
            t.wf(),
            t@ == Seq::<EntryView>::empty(),
    {
        let t = MemTable { entries: Vec::new() };
        proof {
            assert(t@ =~= Seq::<EntryView>::empty());
        }
        t
    }

    /// Number of stored records; multiple versions of one user key
    /// count separately.
    pub fn len(&self) -> (n: usize)
        ensures
            n == self@.len(),
    {
        self.entries.len()
    }

    /// Memory-footprint accounting is required by higher layers but
    /// intentionally deferred: it reports `Unimplemented`, distinct from
    /// any bad-input error, so callers can branch on "unsupported".
    pub fn mem_foot_print(&self) -> (r: Result<usize, KvError>)
        ensures
            r == Err::<usize, KvError>(KvError::Unimplemented),
    {
        Err(KvError::Unimplemented)
    }

    /// Insert a record. The key is encoded with its tag and placed at
    /// its sorted position; a record comparing equal (same user key and
    /// sequence number — a caller contract violation if it happens) is
    /// replaced.
    #[verifier::rlimit(50)]
    pub fn put(&mut self, msn: MSN, mt: MsgType, key: &[u8], value: &[u8])
        requires
            old(self).wf(),
            key@.len() + 8 <= usize::MAX,
        ensures
            final(self).wf(),
            ({
                let mk = memtable_key_seq(key@, mt, msn);
                if exists|i: int|
                    0 <= i < old(self)@.len() && default_ikc((#[trigger] old(self)@[i]).0, mk)
                        == Ordering::Equal {
                    exists|i: int|
                        0 <= i < old(self)@.len() && default_ikc(
                            (#[trigger] old(self)@[i]).0,
                            mk,
                        ) == Ordering::Equal && final(self)@ == old(self)@.update(
                            i,
                            (mk, value@),
                        )
                } else {
                    &&& final(self)@.len() == old(self)@.len() + 1
                    &&& exists|i: int|
                        0 <= i <= old(self)@.len() && final(self)@ == old(self)@.insert(
                            i,
                            (mk, value@),
                        )
                }
            }),
    {
        let mk = build_memtable_key(key, mt, msn);
        proof {
            lemma_memtable_key_parts(key@, mt, msn);
        }
        let ghost mkv = mk@;
        let ghost t0 = self@;
        let n = self.entries.len();
        let mut i: usize = 0;
        let mut eq_found = false;
        loop
            invariant_except_break
                !eq_found,
            invariant
                self == old(self),
                self.wf(),
                n == self@.len(),
                0 <= i <= n,
                mk@ == mkv,
                wf_memtable_key(mkv),
                forall|j: int|
                    0 <= j < i ==> default_ikc((#[trigger] self@[j]).0, mkv) == Ordering::Less,
            ensures
                eq_found ==> i < n && default_ikc(self@[i as int].0, mkv) == Ordering::Equal,
                !eq_found ==> i == n || default_ikc(self@[i as int].0, mkv) == Ordering::Greater,
            decreases n - i,
        {
            if i >= n {
                break ;
            }
            let e = &self.entries[i];
            proof {
                assert(e.0@ == self@[i as int].0);
                assert(wf_memtable_key(self@[i as int].0));
            }
            let o = cmp_memtable_key(&DefaultCmp, e.0.as_slice(), mk.as_slice());
            match o {
                Ordering::Less => {
                    i = i + 1;
                },
                Ordering::Equal => {
                    eq_found = true;
                    break ;
                },
                Ordering::Greater => {
                    break ;
                },
            }
        }
        proof {
            if eq_found {
                assert(default_ikc(self@[i as int].0, mkv) == Ordering::Equal);
                assert forall|j: int| i < j < n implies default_ikc(
                    mkv,
                    (#[trigger] self@[j]).0,
                ) == Ordering::Less by {
                    lemma_default_ikc_congruent(self@[i as int].0, mkv, self@[j].0);
                }
            } else {
                assert(i == n || default_ikc(self@[i as int].0, mkv) == Ordering::Greater);
                if i < n {
                    lemma_default_ikc_flip(self@[i as int].0, mkv);
                }
                assert forall|j: int| i <= j < n implies default_ikc(
                    mkv,
                    (#[trigger] self@[j]).0,
                ) == Ordering::Less by {
                    lemma_default_ikc_flip(self@[i as int].0, mkv);
                    if j > i {
                        lemma_default_ikc_trans(mkv, self@[i as int].0, self@[j].0);
                    }
                }
                assert forall|j: int| 0 <= j < n implies default_ikc(
                    (#[trigger] t0[j]).0,
                    mkv,
                ) != Ordering::Equal by {
                    if j >= i {
                        lemma_default_ikc_flip(mkv, t0[j].0);
                    }
                }
            }
        }
        let v = slice_to_vec(value);
        if eq_found {
            self.entries.remove(i);
            self.entries.insert(i, (mk, v));
            proof {
                assert(self@ =~= t0.update(i as int, (mkv, value@)));
                assert(table_keys_wf(self@));
                assert forall|p: int, q: int| 0 <= p < q < self@.len() implies default_ikc(
                    (#[trigger] self@[p]).0,
                    (#[trigger] self@[q]).0,
                ) == Ordering::Less by {
                    if p == i {
                        assert(default_ikc(mkv, t0[q].0) == Ordering::Less);
                    } else if q == i {
                        assert(default_ikc(t0[p].0, mkv) == Ordering::Less);
                    } else {
                        assert(default_ikc(t0[p].0, t0[q].0) == Ordering::Less);
                    }
                }
                assert((i as int) < t0.len() && default_ikc(t0[i as int].0, mkv)
                    == Ordering::Equal && self@ == t0.update(i as int, (mkv, value@)));
            }
        } else {
            self.entries.insert(i, (mk, v));
            proof {
                assert(self@ =~= t0.insert(i as int, (mkv, value@)));
                assert(table_keys_wf(self@));
                assert forall|p: int, q: int| 0 <= p < q < self@.len() implies default_ikc(
                    (#[trigger] self@[p]).0,
                    (#[trigger] self@[q]).0,
                ) == Ordering::Less by {
                    let pi = if p < i { p } else { p - 1 };
                    let qi = if q <= i { q } else { q - 1 };
                    if p == i {
                        assert(self@[q] == t0[q - 1]);
                        assert(default_ikc(mkv, t0[q - 1].0) == Ordering::Less);
                    } else if q == i {
                        assert(self@[p] == t0[p]);
                        assert(default_ikc(t0[p].0, mkv) == Ordering::Less);
                    } else {
                        assert(self@[p] == t0[pi]);
                        assert(self@[q] == t0[qi]);
                        assert(default_ikc(t0[pi].0, t0[qi].0) == Ordering::Less);
                    }
                }
                assert((i as int) <= t0.len() && self@ == t0.insert(i as int, (mkv, value@)));
            }
        }
    }

    /// Point lookup: position at the first record, in table order, whose
    /// user key equals the query's and whose sequence number is visible
    /// at the query's snapshot. A deletion there reports
    /// `(None, true)` — a tombstone hit that hides all older versions; an
    /// insertion reports `(Some(value), false)`; no visible record
    /// reports `(None, false)`.
    pub fn get(&self, key: &QueryKey) -> (r: (Option<Vec<u8>>, bool))
        requires
            self.wf(),
            key.wf(),
        ensures
            match find_visible(self@, mk_user_key(key@), tag_seq_num(mk_tag(key@))) {
                None => r.0 is None && r.1 == false,
                Some(e) => {
                    if tag_msg_type(mk_tag(e.0)) == MsgType::CbMsgDel {
                        r.0 is None && r.1 == true
                    } else {
                        &&& r.1 == false
                        &&& match r.0 {
                            Some(v) => v@ == e.1,
                            None => false,
                        }
                    }
                },
            },
    {
        proof {
            key.lemma_wf();
        }
        let qk = key.client_key();
        let ik = key.internal_key();
        proof {
            assert(ik@.len() >= 8);
            assert(ik@.subrange(ik@.len() - 8, ik@.len() as int) =~= key@.subrange(
                key@.len() - 8,
                key@.len() as int,
            ));
        }
        let tag = u64_from_le_bytes(slice_subrange(ik, ik.len() - 8, ik.len()));
        let (_qt, snap) = parse_tag(tag);
        let ghost uk = mk_user_key(key@);
        let n = self.entries.len();
        let mut i: usize = 0;
        proof {
            assert(self@.skip(0) =~= self@);
        }
        loop
            invariant
                self.wf(),
                key.wf(),
                n == self@.len(),
                0 <= i <= n,
                qk@ == uk,
                uk == mk_user_key(key@),
                snap == tag_seq_num(mk_tag(key@)),
                find_visible(self@, uk, snap) == find_visible(self@.skip(i as int), uk, snap),
            decreases n - i,
        {
            let ghost rest = self@.skip(i as int);
            if i >= n {
                proof {
                    assert(rest =~= Seq::<EntryView>::empty());
                }
                return (None, false);
            }
            let e = &self.entries[i];
            proof {
                assert(e.0@ == self@[i as int].0);
                assert(wf_memtable_key(self@[i as int].0));
                assert(rest[0] == self@[i as int]);
                assert(rest.skip(1) =~= self@.skip(i as int + 1));
            }
            let euk = mt_user_key(e.0.as_slice());
            let same = match DefaultCmp.cmp(euk, qk) {
                Ordering::Equal => true,
                _ => false,
            };
            proof {
                crate::cmp::lemma_lex_cmp_eq(euk@, qk@);
            }
            let (et, eseq) = parse_tag(mt_tag(e.0.as_slice()));
            if same && eseq <= snap {
                match et {
                    MsgType::CbMsgDel => {
                        return (None, true);
                    },
                    MsgType::CbMsgInsert => {
                        return (Some(slice_to_vec(e.1.as_slice())), false);
                    },
                }
            }
            i = i + 1;
        }
    }

    /// The stored records, in table order, for range scans and an
    /// eventual flush: each entry is (encoded memtable key, value).
    pub fn iter(&self) -> (r: &Vec<(Vec<u8>, Vec<u8>)>)
        ensures
            r@.len() == self@.len(),
            forall|i: int|
                0 <= i < r@.len() ==> (#[trigger] r@[i]).0@ == self@[i].0 && r@[i].1@
                    == self@[i].1,
    {
        &self.entries
    }
}

} // verus!
