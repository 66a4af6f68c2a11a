use vstd::prelude::*;
use vstd::arithmetic::power2::pow2;

use crate::bits::BitIter;
use crate::bits::BitWriter;
use crate::bits::bits_value;
use crate::bits::lemma_bits_value_bound;
use crate::errors::Error;

verus! {

// ---------------------------------------------------------------------
// Specification of the self-describing variable-length encoding.
//
// A positive number `n` is encoded as a run of `1` bits (one per level
// of the length chain), a terminating `0` bit, and then, smallest
// first, the binary digits of each chain element with its leading `1`
// digit removed.  The chain below `n` is `n`, `floor(log2(n))`,
// `floor(log2(floor(log2(n))))`, ... down to `1`.
// ---------------------------------------------------------------------

/// Number of leading `1` bits.
pub open spec fn leading_ones(s: Seq<bool>) -> nat
    decreases s.len(),
{
    if s.len() == 0 {
        0
    } else if !s.first() {
        0
    } else {
        1 + leading_ones(s.drop_first())
    }
}

/// The number whose binary digits are a leading `1` followed by `s`.
pub open spec fn word_value(s: Seq<bool>) -> nat {
    pow2(s.len()) + bits_value(s)
}

/// Outcome of reading the chain of length-prefixed words: `d + 1` words
/// are read, each one giving the bit length of the next.
#[verifier::ext_equal]
pub enum NatStep {
    Done { value: nat, rest: Seq<bool> },
    Eos,
    Overflow,
}

/// Outcome of decoding one natural number from the front of `s`.
#[verifier::ext_equal]
pub enum NatResult {
    Value { value: nat, consumed: nat },
    Eos,
    Overflow,
    OutOfRange { value: nat, consumed: nat },
}

/// Read a word of `len` bits from the front of `s`; if `d` is zero that
/// word is the result, otherwise it is the length of the next word.
/// Intermediate lengths above 31 are rejected.
pub open spec fn nat_chain(s: Seq<bool>, d: nat, len: nat) -> NatStep
    decreases d,
{
    if s.len() < len {
        NatStep::Eos
    } else {
        let w = word_value(s.take(len as int));
        if d == 0 {
            NatStep::Done { value: w, rest: s.skip(len as int) }
        } else if w > 31 {
            NatStep::Overflow
        } else {
            nat_chain(s.skip(len as int), (d - 1) as nat, w)
        }
    }
}

pub open spec fn opt_nat(bound: Option<usize>) -> Option<nat> {
    match bound {
        Some(b) => Some(b as nat),
        None => None,
    }
}

/// Decode one natural number from the front of `s`, optionally
/// rejecting values above `bound`.
pub open spec fn nat_decode(s: Seq<bool>, bound: Option<nat>) -> NatResult {
    let d = leading_ones(s);
    if d == s.len() {
        NatResult::Eos
    } else {
        match nat_chain(s.skip(d as int + 1), d, 0) {
            NatStep::Eos => NatResult::Eos,
            NatStep::Overflow => NatResult::Overflow,
            NatStep::Done { value, rest } => {
                let out_of_range = match bound {
                    Some(b) => value > b,
                    None => false,
                };
                if out_of_range {
                    NatResult::OutOfRange { value, consumed: (s.len() - rest.len()) as nat }
                } else {
                    NatResult::Value { value, consumed: (s.len() - rest.len()) as nat }
                }
            },
        }
    }
}

// ---------------------------------------------------------------------
// The encoding itself, as a function of the number.
// ---------------------------------------------------------------------

/// Floor of the base-two logarithm.
pub open spec fn floor_log2(n: nat) -> nat
    decreases n,
{
    if n < 2 {
        0
    } else {
        1 + floor_log2(n / 2)
    }
}

/// The low `len` binary digits of `n`, most significant first.
pub open spec fn bin_expand(n: nat, len: nat) -> Seq<bool>
    decreases len,
{
    if len == 0 {
        Seq::empty()
    } else {
        bin_expand(n / 2, (len - 1) as nat).push(n % 2 == 1)
    }
}

/// The binary digits of `n >= 1` with the leading `1` removed.
pub open spec fn lowbits(n: nat) -> Seq<bool> {
    bin_expand(n, floor_log2(n))
}

/// The bit string that encodes the natural number `n >= 1`.
pub open spec fn nat_encoding(n: nat) -> Seq<bool>
    decreases n,
    via nat_encoding_decreases
{
    if n <= 1 {
        seq![false]
    } else {
        seq![true] + nat_encoding(floor_log2(n)) + lowbits(n)
    }
}

#[via_fn]
proof fn nat_encoding_decreases(n: nat) {
    if n > 1 {
        lemma_floor_log2_lt(n);
    }
}

/// Number of `1` bits at the front of the encoding of `n`.
pub open spec fn nat_depth(n: nat) -> nat
    decreases n,
    via nat_depth_decreases
{
    if n <= 1 {
        0
    } else {
        1 + nat_depth(floor_log2(n))
    }
}

#[via_fn]
proof fn nat_depth_decreases(n: nat) {
    if n > 1 {
        lemma_floor_log2_lt(n);
    }
}

/// The chain payloads of the encoding of `n`, smallest chain element
/// first, each with its leading `1` digit removed.
pub open spec fn nat_payload(n: nat) -> Seq<bool>
    decreases n,
    via nat_payload_decreases
{
    if n <= 1 {
        Seq::empty()
    } else {
        nat_payload(floor_log2(n)) + lowbits(n)
    }
}

#[via_fn]
proof fn nat_payload_decreases(n: nat) {
    if n > 1 {
        lemma_floor_log2_lt(n);
    }
}

/// A run of `d` one bits.
pub open spec fn unary(d: nat) -> Seq<bool> {
    Seq::new(d, |i: int| true)
}

// ---------------------------------------------------------------------
// Arithmetic facts.
// ---------------------------------------------------------------------

pub proof fn lemma_floor_log2_lt(n: nat)
    requires
        n >= 1,
    ensures
        floor_log2(n) < n,
    decreases n,
{
    if n >= 2 {
        lemma_floor_log2_lt(n / 2);
    }
}

pub proof fn lemma_floor_log2_bounds(n: nat)
    requires
        n >= 1,
    ensures
        pow2(floor_log2(n)) <= n < pow2(floor_log2(n) + 1),
    decreases n,
{
    vstd::arithmetic::power2::lemma2_to64();
    if n < 2 {
        assert(floor_log2(n) == 0);
    } else {
        lemma_floor_log2_bounds(n / 2);
        let f = floor_log2(n / 2);
        vstd::arithmetic::div_mod::lemma_fundamental_div_mod(n as int, 2);
        assert(pow2(f + 1) == 2 * pow2(f)) by {
            vstd::arithmetic::power2::lemma_pow2_adds(f, 1);
        }
        assert(pow2(f + 2) == 2 * pow2(f + 1)) by {
            vstd::arithmetic::power2::lemma_pow2_adds(f + 1, 1);
        }
    }
}

pub proof fn lemma_bin_expand_len(n: nat, len: nat)
    ensures
        bin_expand(n, len).len() == len,
    decreases len,
{
    if len > 0 {
        lemma_bin_expand_len(n / 2, (len - 1) as nat);
    }
}

pub proof fn lemma_bin_expand_value(n: nat, len: nat)
    ensures
        bits_value(bin_expand(n, len)) == n % pow2(len),
    decreases len,
{
    vstd::arithmetic::power2::lemma2_to64();
    if len == 0 {
        assert(n % pow2(0) == 0) by {
            vstd::arithmetic::div_mod::lemma_fundamental_div_mod_converse(n as int, 1, n as int, 0);
        }
    } else {
        let m = pow2((len - 1) as nat);
        lemma_bin_expand_value(n / 2, (len - 1) as nat);
        lemma_bin_expand_len(n / 2, (len - 1) as nat);
        let s = bin_expand(n, len);
        assert(s.drop_last() == bin_expand(n / 2, (len - 1) as nat));
        vstd::arithmetic::power2::lemma_pow2_pos((len - 1) as nat);
        vstd::arithmetic::div_mod::lemma_fundamental_div_mod(n as int, 2);
        vstd::arithmetic::div_mod::lemma_fundamental_div_mod((n / 2) as int, m as int);
        vstd::arithmetic::div_mod::lemma_mod_bound((n / 2) as int, m as int);
        assert(pow2(len) == 2 * m) by {
            vstd::arithmetic::power2::lemma_pow2_adds((len - 1) as nat, 1);
        }
        let q = ((n / 2) as int) / (m as int);
        let b = ((n / 2) as int) % (m as int);
        let r = (n as int) % 2;
        assert(n as int == q * (2 * (m as int)) + (2 * b + r)) by (nonlinear_arith)
            requires
                n as int == 2 * ((n / 2) as int) + r,
                (n / 2) as int == (m as int) * q + b,
        ;
        assert(0 <= b < m as int);
        assert(0 <= r < 2);
        assert(0 <= 2 * b + r < 2 * (m as int));
        assert(2 * (m as int) > 0);
        vstd::arithmetic::div_mod::lemma_fundamental_div_mod_converse(
            n as int,
            2 * (m as int),
            q,
            2 * b + r,
        );
    }
}

// ---------------------------------------------------------------------
// Shape of the encoding: a unary depth prefix, a zero, then payloads.
// ---------------------------------------------------------------------

pub proof fn lemma_encoding_shape(n: nat)
    requires
        n >= 1,
    ensures
        nat_encoding(n) == unary(nat_depth(n)) + seq![false] + nat_payload(n),
    decreases n,
{
    if n <= 1 {
        assert(nat_encoding(n) =~= unary(0) + seq![false] + nat_payload(n));
    } else {
        let l = floor_log2(n);
        lemma_floor_log2_lt(n);
        lemma_encoding_shape(l);
        assert(nat_encoding(n) =~= unary(nat_depth(n)) + seq![false] + nat_payload(n));
    }
}

/// The chain below `n` only visits values below `2^32` when `n` does.
pub proof fn lemma_chain_step(n: nat, k: nat, rest: Seq<bool>)
    requires
        1 <= n < 0x1_0000_0000,
        k > 0 ==> n <= 31,
    ensures
        nat_chain(nat_payload(n) + rest, nat_depth(n) + k, 0) == (if k == 0 {
            NatStep::Done { value: n, rest }
        } else {
            nat_chain(rest, (k - 1) as nat, n)
        }),
    decreases n,
{
    vstd::arithmetic::power2::lemma2_to64();
    if n <= 1 {
        assert(nat_payload(n) + rest =~= rest);
        assert((nat_payload(n) + rest).take(0) =~= Seq::<bool>::empty());
        assert((nat_payload(n) + rest).skip(0) =~= rest);
        assert(word_value(Seq::<bool>::empty()) == 1);
    } else {
        let l = floor_log2(n);
        lemma_floor_log2_lt(n);
        lemma_floor_log2_bounds(n);
        assert(l <= 31) by {
            if l >= 32 {
                vstd::arithmetic::power2::lemma_pow2_adds(32, (l - 32) as nat);
                vstd::arithmetic::power2::lemma_pow2_pos((l - 32) as nat);
                assert(pow2(l) >= pow2(32)) by (nonlinear_arith)
                    requires
                        pow2(l) == pow2(32) * pow2((l - 32) as nat),
                        pow2((l - 32) as nat) >= 1,
                ;
            }
        }
        lemma_chain_step(l, k + 1, lowbits(n) + rest);
        assert(nat_payload(n) + rest =~= nat_payload(l) + (lowbits(n) + rest));
        assert(nat_depth(n) + k == nat_depth(l) + (k + 1));
        // the chain now reads the `l` low digits of `n`
        let s = lowbits(n) + rest;
        lemma_bin_expand_len(n, l);
        assert(s.take(l as int) =~= lowbits(n));
        assert(s.skip(l as int) =~= rest);
        lemma_bin_expand_value(n, l);
        assert(n % pow2(l) == n - pow2(l)) by {
            vstd::arithmetic::div_mod::lemma_fundamental_div_mod_converse(
                n as int,
                pow2(l) as int,
                1,
                n as int - pow2(l) as int,
            );
        }
        assert(word_value(s.take(l as int)) == n);
    }
}

/// Reading the chain from a strict prefix of the payloads runs out of
/// bits.
pub proof fn lemma_chain_trunc(n: nat, k: nat, q: Seq<bool>)
    requires
        1 <= n < 0x1_0000_0000,
        k > 0 ==> n <= 31,
        q.len() < nat_payload(n).len(),
        q == nat_payload(n).take(q.len() as int),
    ensures
        nat_chain(q, nat_depth(n) + k, 0) == NatStep::Eos,
    decreases n,
{
    vstd::arithmetic::power2::lemma2_to64();
    let l = floor_log2(n);
    if n <= 1 {
        // no strict prefix of an empty payload exists
        assert(false);
    } else {
        lemma_floor_log2_lt(n);
        lemma_floor_log2_bounds(n);
        assert(l <= 31) by {
            if l >= 32 {
                vstd::arithmetic::power2::lemma_pow2_adds(32, (l - 32) as nat);
                vstd::arithmetic::power2::lemma_pow2_pos((l - 32) as nat);
                assert(pow2(l) >= pow2(32)) by (nonlinear_arith)
                    requires
                        pow2(l) == pow2(32) * pow2((l - 32) as nat),
                        pow2((l - 32) as nat) >= 1,
                ;
            }
        }
        lemma_bin_expand_len(n, l);
        if q.len() < nat_payload(l).len() {
            assert(q =~= nat_payload(l).take(q.len() as int));
            lemma_chain_trunc(l, k + 1, q);
            assert(nat_depth(n) + k == nat_depth(l) + (k + 1));
        } else {
            let q2 = q.skip(nat_payload(l).len() as int);
            assert(q =~= nat_payload(l) + q2);
            lemma_chain_step(l, k + 1, q2);
            assert(nat_depth(n) + k == nat_depth(l) + (k + 1));
            assert(q2.len() < l);
            assert(nat_chain(q2, k, l) == NatStep::Eos);
        }
    }
}

pub proof fn lemma_leading_ones_le(s: Seq<bool>)
    ensures
        leading_ones(s) <= s.len(),
    decreases s.len(),
{
    if s.len() > 0 && s.first() {
        lemma_leading_ones_le(s.drop_first());
    }
}

pub proof fn lemma_leading_ones_from_prefix(s: Seq<bool>, d: nat)
    requires
        d <= s.len(),
        forall|k: int| 0 <= k < d ==> s[k],
        d < s.len() ==> !s[d as int],
    ensures
        leading_ones(s) == d,
    decreases d,
{
    if d == 0 {
        if s.len() > 0 {
            assert(!s.first());
        }
    } else {
        assert(s.first());
        let t = s.drop_first();
        assert(forall|k: int| 0 <= k < d - 1 ==> t[k] == s[k + 1]);
        lemma_leading_ones_from_prefix(t, (d - 1) as nat);
    }
}

// ---------------------------------------------------------------------
// Laws of the codec.
// ---------------------------------------------------------------------

/// Law: decoding the encoding of any positive number below `2^32`,
/// whatever follows it, returns exactly that number and consumes
/// exactly the encoding.
pub proof fn lemma_natural_roundtrip(n: nat, rest: Seq<bool>)
    requires
        1 <= n < 0x1_0000_0000,
    ensures
        nat_decode(nat_encoding(n) + rest, None) == (NatResult::Value {
            value: n,
            consumed: nat_encoding(n).len(),
        }),
{
    let d = nat_depth(n);
    lemma_encoding_shape(n);
    let s = nat_encoding(n) + rest;
    assert(forall|k: int| 0 <= k < d ==> s[k]);
    assert(!s[d as int]);
    lemma_leading_ones_from_prefix(s, d);
    assert(s.skip(d as int + 1) =~= nat_payload(n) + rest);
    lemma_chain_step(n, 0, rest);
    assert(nat_chain(s.skip(d as int + 1), d, 0) == NatStep::Done { value: n, rest });
    assert(s.len() - rest.len() == nat_encoding(n).len());
}

/// Law: decoding any strict prefix of a valid encoding reports the end
/// of the stream.
pub proof fn lemma_natural_truncated(n: nat, k: int)
    requires
        1 <= n < 0x1_0000_0000,
        0 <= k < nat_encoding(n).len(),
    ensures
        nat_decode(nat_encoding(n).take(k), None) == NatResult::Eos,
{
    let d = nat_depth(n);
    lemma_encoding_shape(n);
    let t = nat_encoding(n).take(k);
    if k <= d {
        assert(forall|q: int| 0 <= q < k ==> t[q]);
        lemma_leading_ones_from_prefix(t, k as nat);
    } else {
        assert(forall|q: int| 0 <= q < d ==> t[q]);
        assert(!t[d as int]);
        lemma_leading_ones_from_prefix(t, d);
        let p = t.skip(d as int + 1);
        assert(p =~= nat_payload(n).take(k - d - 1));
        assert(p.len() < nat_payload(n).len());
        lemma_chain_trunc(n, 0, p);
        assert(nat_chain(p, d, 0) == NatStep::Eos);
    }
}


// ---------------------------------------------------------------------
// Uniqueness: the bits accepted for a value are exactly its encoding.
// ---------------------------------------------------------------------

pub proof fn lemma_floor_log2_unique(n: nat, l: nat)
    requires
        pow2(l) <= n < pow2(l + 1),
    ensures
        floor_log2(n) == l,
    decreases l,
{
    vstd::arithmetic::power2::lemma2_to64();
    if l == 0 {
        assert(n == 1);
    } else {
        assert(pow2(l) == 2 * pow2((l - 1) as nat)) by {
            vstd::arithmetic::power2::lemma_pow2_adds((l - 1) as nat, 1);
        }
        assert(pow2(l + 1) == 2 * pow2(l)) by {
            vstd::arithmetic::power2::lemma_pow2_adds(l, 1);
        }
        vstd::arithmetic::div_mod::lemma_fundamental_div_mod(n as int, 2);
        lemma_floor_log2_unique(n / 2, (l - 1) as nat);
    }
}

/// A word read from `t.len()` bits sits between `2^len` and `2^(len+1)`.
pub proof fn lemma_flog_word(t: Seq<bool>)
    ensures
        word_value(t) >= 1,
        floor_log2(word_value(t)) == t.len(),
    decreases t.len(),
{
    lemma_bits_value_bound(t);
    vstd::arithmetic::power2::lemma_pow2_pos(t.len());
    assert(pow2(t.len() + 1) == 2 * pow2(t.len())) by {
        vstd::arithmetic::power2::lemma_pow2_adds(t.len(), 1);
        vstd::arithmetic::power2::lemma2_to64();
    }
    lemma_floor_log2_unique(word_value(t), t.len());
}

/// The low digits of a word are the bits it was read from.
pub proof fn lemma_bin_expand_word(t: Seq<bool>)
    ensures
        bin_expand(word_value(t), t.len()) == t,
    decreases t.len(),
{
    vstd::arithmetic::power2::lemma2_to64();
    if t.len() == 0 {
        assert(bin_expand(word_value(t), 0) =~= t);
    } else {
        let w = word_value(t);
        let a = word_value(t.drop_last());
        let b: nat = if t.last() {
            1
        } else {
            0
        };
        assert(pow2(t.len()) == 2 * pow2((t.len() - 1) as nat)) by {
            vstd::arithmetic::power2::lemma_pow2_adds((t.len() - 1) as nat, 1);
        }
        assert(w == 2 * a + b);
        assert(w / 2 == a && w % 2 == b) by {
            vstd::arithmetic::div_mod::lemma_fundamental_div_mod_converse(
                w as int,
                2,
                a as int,
                b as int,
            );
        }
        lemma_bin_expand_word(t.drop_last());
        assert(bin_expand(w, t.len()) =~= t);
    }
}

/// Once the chain accepts a value, the bits it consumed after its first
/// word are exactly the payload bits of that value's encoding, and the
/// depth is forced.
pub proof fn lemma_chain_unique(s: Seq<bool>, d: nat, len: nat, v: nat, rest: Seq<bool>)
    requires
        nat_chain(s, d, len) == (NatStep::Done { value: v, rest }),
    ensures
        v >= 1,
        len <= s.len(),
        rest.len() <= s.len() - len,
        nat_depth(v) == d + nat_depth(word_value(s.take(len as int))),
        nat_payload(v) == nat_payload(word_value(s.take(len as int))) + s.subrange(
            len as int,
            s.len() - rest.len(),
        ),
    decreases d,
{
    let w0 = word_value(s.take(len as int));
    lemma_flog_word(s.take(len as int));
    if d == 0 {
        assert(v == w0);
        assert(rest =~= s.skip(len as int));
        assert(s.subrange(len as int, s.len() - rest.len()) =~= Seq::<bool>::empty());
        assert(nat_payload(v) =~= nat_payload(w0) + Seq::<bool>::empty());
    } else {
        let s1 = s.skip(len as int);
        lemma_chain_unique(s1, (d - 1) as nat, w0, v, rest);
        let w1 = word_value(s1.take(w0 as int));
        lemma_flog_word(s1.take(w0 as int));
        // w1 was read from w0 bits, so its own chain link is w0
        assert(w1 >= 2) by {
            vstd::arithmetic::power2::lemma2_to64();
            vstd::arithmetic::power2::lemma_pow2_pos(w0);
            if w0 >= 1 {
                vstd::arithmetic::power2::lemma_pow2_adds(1, (w0 - 1) as nat);
                vstd::arithmetic::power2::lemma_pow2_pos((w0 - 1) as nat);
                assert(pow2(w0) >= 2) by (nonlinear_arith)
                    requires
                        pow2(w0) == pow2(1) * pow2((w0 - 1) as nat),
                        pow2(1) == 2,
                        pow2((w0 - 1) as nat) >= 1,
                ;
            }
        }
        assert(nat_depth(w1) == 1 + nat_depth(w0));
        assert(nat_payload(w1) == nat_payload(w0) + lowbits(w1));
        assert(lowbits(w1) == s1.take(w0 as int)) by {
            lemma_bin_expand_word(s1.take(w0 as int));
        }
        let c1 = s1.len() - rest.len();
        assert(s.subrange(len as int, s.len() - rest.len()) =~= s1.take(w0 as int) + s1.subrange(
            w0 as int,
            c1,
        ));
        assert(nat_payload(v) =~= nat_payload(w0) + s.subrange(len as int, s.len() - rest.len()));
    }
}

/// Law: the bits accepted when decoding a value are exactly that
/// value's encoding; each number has one serialization.
pub proof fn lemma_nat_decode_unique(s: Seq<bool>, bound: Option<nat>, v: nat, c: nat)
    requires
        nat_decode(s, bound) == (NatResult::Value { value: v, consumed: c }),
    ensures
        v >= 1,
        c == nat_encoding(v).len(),
        c <= s.len(),
        s.take(c as int) == nat_encoding(v),
{
    let d = leading_ones(s);
    lemma_leading_ones_le(s);
    let step = nat_chain(s.skip(d as int + 1), d, 0);
    let rest = step->Done_rest;
    let s1 = s.skip(d as int + 1);
    lemma_chain_unique(s1, d, 0, v, rest);
    assert(s1.take(0) =~= Seq::<bool>::empty());
    assert(word_value(Seq::<bool>::empty()) == 1) by {
        vstd::arithmetic::power2::lemma2_to64();
    }
    assert(nat_depth(v) == d);
    assert(nat_payload(v) == Seq::<bool>::empty() + s1.subrange(0, s1.len() - rest.len()));
    assert(nat_payload(v) =~= s1.take(s1.len() - rest.len()));
    lemma_encoding_shape(v);
    // leading_ones pins the unary run and the zero bit
    lemma_leading_ones_front(s, d);
    assert(c == s.len() - rest.len());
    assert(s.take(c as int) =~= nat_encoding(v));
}

/// The first `d` bits are ones and bit `d` is zero when `d` leading
/// ones were counted and the string goes on.
pub proof fn lemma_leading_ones_front(s: Seq<bool>, d: nat)
    requires
        leading_ones(s) == d,
        d < s.len(),
    ensures
        forall|k: int| 0 <= k < d ==> s[k],
        !s[d as int],
    decreases d,
{
    if d == 0 {
        assert(!s.first());
    } else {
        assert(s.first());
        lemma_leading_ones_front(s.drop_first(), (d - 1) as nat);
        assert forall|k: int| 0 <= k < d implies s[k] by {
            if k > 0 {
                assert(s.drop_first()[k - 1] == s[k]);
            }
        }
        assert(s.drop_first()[d - 1] == s[d as int]);
    }
}

// ---------------------------------------------------------------------
// Executable decoder and encoder.
// ---------------------------------------------------------------------

/// Decode a natural number from bits.
/// If a bound is specified, then the decoding terminates before trying
/// to decode a larger number.
#[verifier::loop_isolation(false)]
pub fn decode_natural(iter: &mut BitIter, bound: Option<usize>) -> (r: Result<usize, Error>)
    ensures
        final(iter).stream() == old(iter).stream(),
        old(iter).pos() <= final(iter).pos() <= old(iter).stream().len(),
        match r {
            Ok(n) => 1 <= n && nat_decode(old(iter).remaining(), opt_nat(bound))
                == (NatResult::Value {
                value: n as nat,
                consumed: (final(iter).pos() - old(iter).pos()) as nat,
            }),
            Err(Error::EndOfStream) => nat_decode(old(iter).remaining(), opt_nat(bound))
                == NatResult::Eos,
            Err(Error::NaturalOverflow) => nat_decode(old(iter).remaining(), opt_nat(bound))
                == NatResult::Overflow,
            Err(Error::BadIndex) => match nat_decode(old(iter).remaining(), opt_nat(bound)) {
                NatResult::OutOfRange { value, consumed } => final(iter).pos() == old(iter).pos()
                    + consumed,
                _ => false,
            },
            Err(_) => false,
        },
{
    let ghost s0 = iter.stream();
    let ghost p_start = iter.pos();
    let ghost srem = iter.remaining();
    proof {
        use_type_invariant(&*iter);
        vstd::arithmetic::power2::lemma2_to64();
    }

    // unary depth prefix
    let mut depth: usize = 0;
    let mut bit = match iter.next() {
        None => {
            proof {
                lemma_leading_ones_from_prefix(srem, srem.len());
            }
            return Err(Error::EndOfStream);
        },
        Some(b) => b,
    };
    proof {
        assert(srem.len() == s0.len() - p_start);
        assert(srem[0] == s0[p_start]);
    }
    while bit
        invariant
            iter.stream() == s0,
            p_start + depth + 1 == iter.pos(),
            iter.pos() <= s0.len(),
            depth < srem.len(),
            forall|k: int| 0 <= k < depth ==> srem[k],
            bit == srem[depth as int],
        decreases s0.len() - iter.pos(),
    {
        depth = depth + 1;
        bit = match iter.next() {
            None => {
                proof {
                    assert(srem.len() == depth);
                    lemma_leading_ones_from_prefix(srem, srem.len());
                }
                return Err(Error::EndOfStream);
            },
            Some(b) => b,
        };
        proof {
            assert(srem[depth as int] == s0[p_start + depth as int]);
        }
    }
    proof {
        assert(!srem[depth as int]);
        lemma_leading_ones_from_prefix(srem, depth as nat);
    }
    let ghost target = nat_chain(srem.skip(depth + 1), depth as nat, 0);
    proof {
        assert(iter.remaining() =~= srem.skip(depth + 1));
    }

    // length-prefixed words, smallest first
    let mut d: usize = depth;
    let mut len: usize = 0;
    loop
        invariant
            iter.stream() == s0,
            p_start <= iter.pos() <= s0.len(),
            len <= 31,
            nat_chain(iter.remaining(), d as nat, len as nat) == target,
        decreases d,
    {
        let ghost rem0 = iter.remaining();
        let ghost pos0 = iter.pos();
        let mut n: u64 = 1;
        let mut j: usize = 0;
        proof {
            assert(rem0.take(0) =~= Seq::<bool>::empty());
        }
        while j < len
            invariant
                0 <= j <= len,
                len <= 31,
                iter.stream() == s0,
                iter.pos() == pos0 + j,
                iter.pos() <= s0.len(),
                n as nat == pow2(j as nat) + bits_value(rem0.take(j as int)),
                (n as nat) < pow2((j + 1) as nat),
            decreases len - j,
        {
            let b = match iter.next() {
                None => {
                    proof {
                        assert(rem0.len() == s0.len() - pos0);
                        assert(rem0.len() < len);
                        assert(nat_chain(rem0, d as nat, len as nat) == NatStep::Eos);
                    }
                    return Err(Error::EndOfStream);
                },
                Some(b) => b,
            };
            proof {
                assert(pow2((j + 2) as nat) == 2 * pow2((j + 1) as nat)) by {
                    vstd::arithmetic::power2::lemma_pow2_adds((j + 1) as nat, 1);
                }
                assert(pow2((j + 1) as nat) == 2 * pow2(j as nat)) by {
                    vstd::arithmetic::power2::lemma_pow2_adds(j as nat, 1);
                }
                if (j + 1) as nat <= 32 {
                    vstd::arithmetic::power2::lemma_pow2_adds((j + 1) as nat, (32 - j - 1) as nat);
                    vstd::arithmetic::power2::lemma_pow2_pos((32 - j - 1) as nat);
                    assert(pow2((j + 1) as nat) <= pow2(32)) by (nonlinear_arith)
                        requires
                            pow2(32) == pow2((j + 1) as nat) * pow2((32 - j - 1) as nat),
                            pow2((32 - j - 1) as nat) >= 1,
                    ;
                }
                assert(rem0.take(j + 1).drop_last() =~= rem0.take(j as int));
                assert(rem0.take(j + 1).last() == rem0[j as int]);
                assert(rem0[j as int] == s0[pos0 + j]);
            }
            n = 2 * n + (if b { 1 } else { 0 });
            j = j + 1;
        }
        proof {
            assert(rem0.len() >= len);
            assert(word_value(rem0.take(len as int)) == n as nat);
            assert(iter.remaining() =~= rem0.skip(len as int));
        }
        if d == 0 {
            proof {
                assert(target == NatStep::Done { value: n as nat, rest: iter.remaining() });
                assert(nat_decode(srem, opt_nat(bound)) matches NatResult::Value {
                    value,
                    consumed,
                } ==> value == n as nat && consumed == iter.pos() - p_start) by {
                    assert(srem.len() - iter.remaining().len() == iter.pos() - p_start);
                }
            }
            if let Some(b) = bound {
                if n > b as u64 {
                    return Err(Error::BadIndex);
                }
            }
            proof {
                assert((n as nat) < pow2(32));
                assert(n <= 0xffff_ffffu64);
                assert(0xffff_ffffu64 as nat <= usize::MAX as nat);
            }
            return Ok(n as usize);
        }
        if n > 31 {
            return Err(Error::NaturalOverflow);
        }
        len = n as usize;
        d = d - 1;
    }
}

/// Compute the floor of the base-two logarithm.
fn floor_log2_exec(n: usize) -> (r: usize)
    requires
        n >= 1,
    ensures
        r as nat == floor_log2(n as nat),
    decreases n,
{
    if n < 2 {
        0
    } else {
        proof {
            lemma_floor_log2_lt((n / 2) as nat);
        }
        1 + floor_log2_exec(n / 2)
    }
}

/// Write the low `len` binary digits of `n`, most significant first.
fn write_bin(n: usize, len: usize, w: &mut BitWriter)
    ensures
        final(w).bits() == old(w).bits() + bin_expand(n as nat, len as nat),
    decreases len,
{
    if len == 0 {
        proof {
            assert(w.bits() =~= old(w).bits() + bin_expand(n as nat, 0));
        }
    } else {
        write_bin(n / 2, len - 1, w);
        w.write_bit(n % 2 == 1);
        proof {
            assert(w.bits() =~= old(w).bits() + bin_expand(n as nat, len as nat));
        }
    }
}

/// Encode a natural number `n >= 1` to bits.
pub fn encode_natural(n: usize, w: &mut BitWriter)
    requires
        n >= 1,
    ensures
        final(w).bits() == old(w).bits() + nat_encoding(n as nat),
    decreases n,
{
    if n == 1 {
        w.write_bit(false);
        proof {
            assert(w.bits() =~= old(w).bits() + nat_encoding(1));
        }
    } else {
        let l = floor_log2_exec(n);
        proof {
            lemma_floor_log2_lt(n as nat);
        }
        w.write_bit(true);
        encode_natural(l, w);
        write_bin(n, l, w);
        proof {
            assert(w.bits() =~= old(w).bits() + nat_encoding(n as nat));
        }
    }
}

} // verus!
