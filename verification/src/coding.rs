//! Variable-length unsigned integer coding (7 payload bits per byte, the
//! continuation bit set on all but the last byte), used to frame the
//! internal-key length inside an encoded memtable key.

use vstd::arithmetic::div_mod::lemma_fundamental_div_mod;
use vstd::arithmetic::mul::lemma_mul_inequality;
use vstd::arithmetic::mul::lemma_mul_is_distributive_add;
use vstd::arithmetic::power::pow;
use vstd::prelude::*;

verus! {

/// `pow` unrolled one step, for the base this codec works in.
proof fn lemma_pow128_succ(e: nat)
    ensures
        pow(128, e + 1) == 128 * pow(128, e),
{
    vstd::arithmetic::power::lemma_pow1(128);
    vstd::arithmetic::power::lemma_pow_adds(128, 1, e);
}

/// The canonical varint byte string for `n`: little-endian groups of
/// 7 bits, every byte but the last carrying the continuation bit.
pub open spec fn varint_seq(n: nat) -> Seq<u8>
    decreases n,
{
    if n < 128 {
        seq![n as u8]
    } else {
        seq![(n % 128 + 128) as u8] + varint_seq(n / 128)
    }
}

/// Number of bytes the varint coding of `n` occupies.
pub open spec fn varint_len(n: nat) -> nat {
    varint_seq(n).len()
}

/// Reading a varint from the front of `s`: the decoded value and the
/// number of bytes consumed, or `None` when no canonical varint starts
/// `s` (the buffer ends before a terminator byte, or the coding has a
/// redundant trailing zero group).
pub open spec fn varint_decode(s: Seq<u8>) -> Option<(nat, nat)>
    decreases s.len(),
{
    if s.len() == 0 {
        None
    } else if s[0] < 128 {
        Some((s[0] as nat, 1))
    } else {
        match varint_decode(s.skip(1)) {
            Some((m, c)) => if m == 0 {
                None
            } else {
                Some((((s[0] - 128) + 128 * m) as nat, (c + 1) as nat))
            },
            None => None,
        }
    }
}

/// Decoding undoes coding: a buffer that starts with `varint_seq(n)`
/// decodes to `n`, whatever follows.
pub proof fn lemma_varint_decode_encode(n: nat, rest: Seq<u8>)
    ensures
        varint_decode(varint_seq(n) + rest) == Some((n, varint_len(n))),
    decreases n,
{
    let s = varint_seq(n) + rest;
    if n < 128 {
        assert(s[0] == n as u8);
    } else {
        lemma_varint_decode_encode(n / 128, rest);
        assert(s.skip(1) =~= varint_seq(n / 128) + rest);
        assert(s[0] == (n % 128 + 128) as u8);
        assert(n / 128 >= 1);
        assert((s[0] - 128) + 128 * (n / 128) == n % 128 + 128 * (n / 128));
        lemma_fundamental_div_mod(n as int, 128);
    }
}

/// A successful decode pins the consumed prefix down: it is exactly the
/// canonical coding of the decoded value.
pub proof fn lemma_varint_decode_sound(s: Seq<u8>)
    ensures
        match varint_decode(s) {
            Some((n, c)) => {
                &&& 1 <= c <= s.len()
                &&& c == varint_len(n)
                &&& s.subrange(0, c as int) == varint_seq(n)
            },
            None => true,
        },
    decreases s.len(),
{
    match varint_decode(s) {
        Some((n, c)) => {
            if s[0] < 128 {
                assert(s.subrange(0, 1) =~= seq![s[0]]);
                assert(varint_seq(n) == seq![n as u8]);
            } else {
                lemma_varint_decode_sound(s.skip(1));
                let (m, c2) = varint_decode(s.skip(1)).unwrap();
                assert(m >= 1);
                assert(n == (s[0] - 128) + 128 * m);
                assert(n >= 128) by {
                    lemma_mul_inequality(1, m as int, 128);
                }
                lemma_fundamental_div_mod(n as int, 128);
                assert(n % 128 == s[0] - 128 && n / 128 == m as int) by {
                    vstd::arithmetic::div_mod::lemma_fundamental_div_mod_converse(
                        n as int,
                        128,
                        m as int,
                        (s[0] - 128) as int,
                    );
                }
                assert(varint_seq(n) == seq![(n % 128 + 128) as u8] + varint_seq(n / 128));
                assert(s.subrange(0, c as int) =~= seq![s[0]] + s.skip(1).subrange(
                    0,
                    c2 as int,
                ));
            }
        },
        None => {},
    }
}

/// Canonical varints grow with their length: a coding of `c >= 2` bytes
/// holds a value of at least `128^(c-1)`.
pub proof fn lemma_varint_decode_min(s: Seq<u8>)
    ensures
        match varint_decode(s) {
            Some((n, c)) => c >= 2 ==> n >= pow(128, (c - 1) as nat),
            None => true,
        },
    decreases s.len(),
{
    match varint_decode(s) {
        Some((n, c)) => {
            if c >= 2 {
                lemma_varint_decode_min(s.skip(1));
                let (m, c2) = varint_decode(s.skip(1)).unwrap();
                assert(m >= 1);
                if c2 >= 2 {
                    assert(m >= pow(128, (c2 - 1) as nat));
                    assert(128 * m >= 128 * pow(128, (c2 - 1) as nat)) by {
                        lemma_mul_inequality(
                            pow(128, (c2 - 1) as nat) as int,
                            m as int,
                            128,
                        );
                    }
                    assert(pow(128, (c - 1) as nat) == 128 * pow(128, (c2 - 1) as nat)) by {
                        lemma_pow128_succ((c2 - 1) as nat);
                    }
                } else {
                    assert(pow(128, 1) == 128) by {
                        vstd::arithmetic::power::lemma_pow1(128);
                    }
                    assert(n >= 128) by {
                        lemma_mul_inequality(1, m as int, 128);
                    }
                }
            }
        },
        None => {},
    }
}

/// What one loop step of the iterative decoder adds around the decode of
/// the remaining suffix: `value` and `mult` summarize the continuation
/// bytes consumed so far, `k` counts them.
pub open spec fn varint_step(value: nat, mult: nat, k: nat, inner: Option<(nat, nat)>) -> Option<
    (nat, nat),
> {
    match inner {
        Some((m, c)) => if k == 0 || m >= 1 {
            Some((value + mult * m, k + c))
        } else {
            None
        },
        None => None,
    }
}

/// Write the varint coding of `n`.
pub fn encode_varint(n: usize) -> (r: Vec<u8>)
    ensures
        r@ == varint_seq(n as nat),
{
    let mut out: Vec<u8> = Vec::new();
    let mut m: usize = n;
    while m >= 128
        invariant
            out@ + varint_seq(m as nat) == varint_seq(n as nat),
        decreases m,
    {
        let b: u8 = (m % 128 + 128) as u8;
        let ghost pre = out@;
        out.push(b);
        m = m / 128;
        proof {
            assert(pre + varint_seq((128 * (m as nat) + (b - 128)) as nat) == varint_seq(
                n as nat,
            ));
            assert(out@ + varint_seq(m as nat) =~= pre + (seq![b] + varint_seq(m as nat)));
        }
    }
    let ghost pre = out@;
    out.push(m as u8);
    proof {
        assert(varint_seq(m as nat) == seq![m as u8]);
        assert(out@ =~= pre + varint_seq(m as nat));
    }
    out
}

/// Read a varint from `data` at `off`. Returns the value and the number
/// of bytes consumed; `None` exactly when no canonical varint whose value
/// fits a `usize` starts there.
pub fn decode_varint(data: &[u8], off: usize) -> (r: Option<(usize, usize)>)
    requires
        off <= data@.len(),
    ensures
        match r {
            Some((v, c)) => {
                &&& 1 <= c
                &&& off + c <= data@.len()
                &&& varint_decode(data@.skip(off as int)) == Some((v as nat, c as nat))
            },
            None => match varint_decode(data@.skip(off as int)) {
                Some((n, c)) => n > usize::MAX,
                None => true,
            },
        },
{
    let ghost s_off = data@.skip(off as int);
    let mut value: u64 = 0;
    let mut mult: u64 = 1;
    let mut i: usize = off;
    proof {
        vstd::arithmetic::power::lemma_pow0(128);
    }
    loop
        invariant
            off <= i <= data@.len(),
            mult == pow(128, (i - off) as nat),
            (value as nat) < mult,
            mult <= u64::MAX,
            varint_decode(s_off) == varint_step(
                value as nat,
                mult as nat,
                (i - off) as nat,
                varint_decode(data@.skip(i as int)),
            ),
            s_off == data@.skip(off as int),
        decreases data@.len() - i,
    {
        if i >= data.len() {
            // Ran out of bytes before a terminator: nothing decodes.
            assert(data@.skip(i as int) =~= Seq::<u8>::empty());
            return None;
        }
        let b: u8 = data[i];
        let ghost s_i = data@.skip(i as int);
        proof {
            assert(s_i[0] == data@[i as int]);
            assert(s_i.skip(1) =~= data@.skip(i as int + 1));
        }
        if b < 128 {
            // Terminator byte.
            if i > off && b == 0 {
                // A redundant trailing zero group: not canonical.
                return None;
            }
            proof {
                assert(varint_decode(s_i) == Some((b as nat, 1nat)));
            }
            let q: u64 = (u64::MAX - value) / mult;
            if (b as u64) > q {
                // The value exceeds u64::MAX, so it exceeds usize::MAX.
                proof {
                    lemma_fundamental_div_mod((u64::MAX - value) as int, mult as int);
                    assert((mult as int) * (b as int) >= (mult as int) * (q + 1)) by {
                        lemma_mul_inequality(q as int + 1, b as int, mult as int);
                    }
                    assert((mult as int) * (q as int + 1) == (mult as int) * (q as int)
                        + mult) by {
                        lemma_mul_is_distributive_add(mult as int, q as int, 1);
                    }
                    assert(value + mult * (b as nat) > u64::MAX);
                    assert(usize::MAX <= u64::MAX);
                }
                return None;
            }
            proof {
                lemma_fundamental_div_mod((u64::MAX - value) as int, mult as int);
                assert((mult as int) * (b as int) <= (mult as int) * (q as int)) by {
                    lemma_mul_inequality(b as int, q as int, mult as int);
                }
                assert(value + mult * (b as nat) <= u64::MAX);
            }
            let total: u64 = value + (b as u64) * mult;
            proof {
                assert(varint_decode(s_off) == Some(
                    (total as nat, ((i - off) as nat + 1) as nat),
                ));
            }
            if total > usize::MAX as u64 {
                return None;
            }
            let c: usize = i - off + 1;
            return Some((total as usize, c));
        }
        // Continuation byte: 7 more payload bits arrive.
        if mult > u64::MAX / 128 {
            // Any canonical value continuing past here exceeds u64::MAX.
            proof {
                match varint_decode(s_off) {
                    Some((n, c)) => {
                        match varint_decode(s_i) {
                            Some((m, c2)) => {
                                assert(s_i[0] >= 128);
                                match varint_decode(s_i.skip(1)) {
                                    Some((m3, c3)) => {
                                        lemma_varint_decode_sound(s_i.skip(1));
                                        assert(c2 == c3 + 1 && c3 >= 1);
                                    },
                                    None => {
                                        assert(false);
                                    },
                                }
                                assert(c2 >= 2);
                                lemma_varint_decode_min(s_i);
                                assert(m >= pow(128, (c2 - 1) as nat));
                                assert(pow(128, (c2 - 1) as nat) >= pow(128, 1)) by {
                                    vstd::arithmetic::power::lemma_pow_increases(
                                        128,
                                        1,
                                        (c2 - 1) as nat,
                                    );
                                }
                                assert(pow(128, 1) == 128) by {
                                    vstd::arithmetic::power::lemma_pow1(128);
                                }
                                assert(n >= mult * m);
                                assert((mult as int) * (m as int) >= 128 * (mult as int)) by {
                                    lemma_mul_inequality(128, m as int, mult as int);
                                    vstd::arithmetic::mul::lemma_mul_is_commutative(
                                        m as int,
                                        mult as int,
                                    );
                                }
                                assert(128 * (mult as int) > u64::MAX) by {
                                    assert(mult >= u64::MAX / 128 + 1);
                                    lemma_mul_inequality(
                                        u64::MAX as int / 128 + 1,
                                        mult as int,
                                        128,
                                    );
                                    vstd::arithmetic::mul::lemma_mul_is_commutative(
                                        mult as int,
                                        128,
                                    );
                                    lemma_fundamental_div_mod(u64::MAX as int, 128);
                                }
                                assert(n > u64::MAX);
                            },
                            None => {
                                assert(false);
                            },
                        }
                    },
                    None => {},
                }
            }
            return None;
        }
        let payload: u64 = (b - 128) as u64;
        let ghost old_value = value as nat;
        let ghost old_mult = mult as nat;
        let ghost old_k = (i - off) as nat;
        proof {
            assert(value + payload * mult < 128 * mult) by {
                assert(payload <= 127);
                assert((payload as int) * (mult as int) <= 127 * (mult as int)) by {
                    lemma_mul_inequality(payload as int, 127, mult as int);
                }
            }
            assert(128 * mult <= u64::MAX) by {
                lemma_fundamental_div_mod(u64::MAX as int, 128);
                lemma_mul_inequality(mult as int, u64::MAX as int / 128, 128);
            }
        }
        value = value + payload * mult;
        mult = mult * 128;
        i = i + 1;
        proof {
            assert(mult == pow(128, (i - off) as nat)) by {
                lemma_pow128_succ((i - off - 1) as nat);
            }
            let inner2 = varint_decode(data@.skip(i as int));
            assert(varint_decode(s_off) == varint_step(
                value as nat,
                mult as nat,
                (i - off) as nat,
                inner2,
            )) by {
                match inner2 {
                    Some((m2, c2)) => {
                        if m2 == 0 {
                            assert(varint_decode(s_i) is None);
                        } else {
                            assert(varint_decode(s_i) == Some(
                                (((b - 128) + 128 * m2) as nat, (c2 + 1) as nat),
                            ));
                            assert((b - 128) + 128 * m2 >= 1);
                            assert(old_value + old_mult * ((b - 128) + 128 * m2) == value
                                + mult * m2) by {
                                assert(old_mult * ((b - 128) + 128 * m2) == old_mult * (
                                b - 128) + old_mult * 128 * m2) by (nonlinear_arith);
                                assert(old_mult * 128 * m2 == (old_mult * 128) * m2)
                                    by (nonlinear_arith);
                            }
                        }
                    },
                    None => {
                        assert(varint_decode(s_i) is None);
                    },
                }
            }
        }
    }
}

} // verus!
