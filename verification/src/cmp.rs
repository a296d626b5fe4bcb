//! The pluggable byte-sequence ordering every other component delegates to.

use core::cmp::Ordering;
use vstd::prelude::*;

verus! {

/// A total, deterministic ordering over byte sequences, with a stable
/// textual identifier that tags persisted data with the ordering rule
/// that produced it.
pub trait Cmp: Sized {
    /// What this comparator's `cmp` returns, as a mathematical function
    /// of the two byte sequences.
    spec fn cmp_spec(&self, a: Seq<u8>, b: Seq<u8>) -> Ordering;

    /// Compare two byte arrays.
    fn cmp(&self, a: &[u8], b: &[u8]) -> (r: Ordering)
        ensures
            r == self.cmp_spec(a@, b@),
    ;

    /// An id for a comparator, stable across process runs: a reader must
    /// use the same comparator that wrote the data.
    fn id(&self) -> &'static str;
}

/// Byte-lexicographic order: the first differing byte decides; a proper
/// prefix sorts before any of its extensions.
pub open spec fn lex_cmp(a: Seq<u8>, b: Seq<u8>) -> Ordering
    decreases a.len(),
{
    if a.len() == 0 && b.len() == 0 {
        Ordering::Equal
    } else if a.len() == 0 {
        Ordering::Less
    } else if b.len() == 0 {
        Ordering::Greater
    } else if a[0] < b[0] {
        Ordering::Less
    } else if a[0] > b[0] {
        Ordering::Greater
    } else {
        lex_cmp(a.skip(1), b.skip(1))
    }
}

/// `lex_cmp` reports `Equal` exactly on equal sequences.
pub proof fn lemma_lex_cmp_eq(a: Seq<u8>, b: Seq<u8>)
    ensures
        lex_cmp(a, b) == Ordering::Equal <==> a == b,
    decreases a.len(),
{
    if a.len() != 0 && b.len() != 0 && a[0] == b[0] {
        lemma_lex_cmp_eq(a.skip(1), b.skip(1));
        if a.skip(1) == b.skip(1) {
            assert(a.len() == b.len());
            assert forall|i: int| 0 <= i < a.len() implies a[i] == b[i] by {
                if i > 0 {
                    assert(a[i] == a.skip(1)[i - 1]);
                    assert(b[i] == b.skip(1)[i - 1]);
                }
            }
            assert(a =~= b);
        }
        if a == b {
            assert(a.skip(1) =~= b.skip(1));
        }
    } else {
        if a.len() == 0 && b.len() == 0 {
            assert(a =~= b);
        }
    }
}

/// Swapping the arguments of `lex_cmp` swaps `Less` and `Greater`.
pub proof fn lemma_lex_cmp_flip(a: Seq<u8>, b: Seq<u8>)
    ensures
        lex_cmp(a, b) == Ordering::Less <==> lex_cmp(b, a) == Ordering::Greater,
        lex_cmp(a, b) == Ordering::Equal <==> lex_cmp(b, a) == Ordering::Equal,
    decreases a.len(),
{
    if a.len() != 0 && b.len() != 0 && a[0] == b[0] {
        lemma_lex_cmp_flip(a.skip(1), b.skip(1));
    }
}

/// `lex_cmp` is transitive in `Less`.
pub proof fn lemma_lex_cmp_trans(a: Seq<u8>, b: Seq<u8>, c: Seq<u8>)
    requires
        lex_cmp(a, b) == Ordering::Less,
        lex_cmp(b, c) == Ordering::Less,
    ensures
        lex_cmp(a, c) == Ordering::Less,
    decreases a.len(),
{
    if a.len() == 0 {
        assert(c.len() != 0);
    } else {
        // a is nonempty, so b and c are nonempty too.
        if a[0] == b[0] && b[0] == c[0] {
            lemma_lex_cmp_trans(a.skip(1), b.skip(1), c.skip(1));
        }
    }
}

/// The default byte-wise comparator.
#[derive(Clone)]
pub struct DefaultCmp;

impl Cmp for DefaultCmp {
    open spec fn cmp_spec(&self, a: Seq<u8>, b: Seq<u8>) -> Ordering {
        lex_cmp(a, b)
    }

    fn cmp(&self, a: &[u8], b: &[u8]) -> (r: Ordering)
        ensures
            r == lex_cmp(a@, b@),
    {
        let mut i: usize = 0;
        proof {
            assert(a@.skip(0) =~= a@);
            assert(b@.skip(0) =~= b@);
        }
        loop
            invariant
                i <= a@.len(),
                i <= b@.len(),
                lex_cmp(a@, b@) == lex_cmp(a@.skip(i as int), b@.skip(i as int)),
            decreases a@.len() - i,
        {
            let ghost sa = a@.skip(i as int);
            let ghost sb = b@.skip(i as int);
            if i >= a.len() && i >= b.len() {
                proof {
                    assert(sa =~= Seq::<u8>::empty());
                    assert(sb =~= Seq::<u8>::empty());
                }
                return Ordering::Equal;
            }
            if i >= a.len() {
                proof {
                    assert(sa =~= Seq::<u8>::empty());
                    assert(sb.len() != 0);
                }
                return Ordering::Less;
            }
            if i >= b.len() {
                proof {
                    assert(sb =~= Seq::<u8>::empty());
                    assert(sa.len() != 0);
                }
                return Ordering::Greater;
            }
            let x: u8 = a[i];
            let y: u8 = b[i];
            proof {
                assert(sa[0] == a@[i as int]);
                assert(sb[0] == b@[i as int]);
                assert(sa.skip(1) =~= a@.skip(i as int + 1));
                assert(sb.skip(1) =~= b@.skip(i as int + 1));
            }
            if x < y {
                return Ordering::Less;
            }
            if x > y {
                return Ordering::Greater;
            }
            i = i + 1;
        }
    }

    fn id(&self) -> (r: &'static str)
        ensures
            r@ == "CobbleDB.BytewiseComparator"@,
    {
        "CobbleDB.BytewiseComparator"
    }
}

} // verus!
