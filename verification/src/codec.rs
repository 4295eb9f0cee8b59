//! Conversion between big-endian byte strings and the digit representation.
//!
//! The minimal big-endian encoding of a value is pinned down by the spec
//! function [`be_encode`]: zero encodes as the empty byte string, and no
//! encoding has a leading zero byte.

use crate::natural::Natural;
use crate::value::{
    be_value, bplace, digits_value, lemma_be_value_concat, lemma_be_value_msb_lower,
    lemma_be_value_push, lemma_be_value_take_succ, lemma_be_value_zeros, lemma_bplace_pos,
    lemma_digits_value_skip_unfold, radix,
};
use vstd::arithmetic::div_mod::{
    lemma_basic_div, lemma_div_decreases, lemma_div_denominator, lemma_div_is_ordered,
    lemma_fundamental_div_mod, lemma_fundamental_div_mod_converse, lemma_multiply_divide_lt,
    lemma_small_mod,
};
use vstd::arithmetic::mul::{lemma_mul_basics, lemma_mul_by_zero_is_zero, lemma_mul_is_commutative};
use vstd::arithmetic::power2::{lemma2_to64, lemma2_to64_rest, lemma_pow2_adds, lemma_pow2_pos, pow2};
use vstd::prelude::*;

verus! {

/// A byte string with no leading zero byte: the canonical shape of a
/// big-endian encoding.
pub open spec fn minimal_be(s: Seq<u8>) -> bool {
    s.len() == 0 || s[0] != 0
}

/// The minimal big-endian encoding of a value; zero encodes as the empty
/// byte string.
pub open spec fn be_encode(n: nat) -> Seq<u8>
    decreases n,
    via be_encode_decreases
{
    if n == 0 {
        Seq::empty()
    } else {
        be_encode(n / 256).push((n % 256) as u8)
    }
}

#[via_fn]
proof fn be_encode_decreases(n: nat) {
    if n > 0 {
        lemma_div_decreases(n as int, 256);
    }
}

/// The byte string with its leading zero bytes removed.
pub open spec fn strip_leading_zeros(s: Seq<u8>) -> Seq<u8>
    decreases s.len(),
{
    if s.len() > 0 && s[0] == 0 {
        strip_leading_zeros(s.skip(1))
    } else {
        s
    }
}

/// Decoding the minimal encoding gives the value back.
pub proof fn lemma_be_encode_value(n: nat)
    ensures
        be_value(be_encode(n)) == n,
    decreases n,
{
    if n > 0 {
        lemma_div_decreases(n as int, 256);
        lemma_be_encode_value(n / 256);
        lemma_be_value_push(be_encode(n / 256), (n % 256) as u8);
        lemma_fundamental_div_mod(n as int, 256);
    }
}

/// The minimal encoding has no leading zero byte.
pub proof fn lemma_be_encode_minimal(n: nat)
    ensures
        minimal_be(be_encode(n)),
        n > 0 ==> be_encode(n).len() >= 1,
    decreases n,
{
    if n > 0 {
        lemma_div_decreases(n as int, 256);
        lemma_be_encode_minimal(n / 256);
        if n / 256 == 0 {
            assert(n < 256) by {
                if n >= 256 {
                    lemma_div_is_ordered(256, n as int, 256);
                }
            }
            lemma_small_mod(n, 256);
            assert(be_encode(n) =~= seq![(n % 256) as u8]);
        } else {
            assert(be_encode(n)[0] == be_encode(n / 256)[0]);
        }
    }
}

/// A byte string with no leading zero byte is the minimal encoding of its
/// own value: minimal encodings are unique.
pub proof fn lemma_be_encode_canon(s: Seq<u8>)
    requires
        minimal_be(s),
    ensures
        be_encode(be_value(s)) == s,
    decreases s.len(),
{
    if s.len() == 0 {
        assert(be_encode(be_value(s)) =~= s);
    } else {
        let d = s.drop_last();
        let n = be_value(s);
        assert(minimal_be(d));
        lemma_be_encode_canon(d);
        assert(n == 256 * be_value(d) + s.last());
        lemma_fundamental_div_mod_converse(
            n as int,
            256,
            be_value(d) as int,
            s.last() as int,
        );
        assert(n > 0) by {
            lemma_be_value_msb_lower(s);
            lemma_bplace_pos((s.len() - 1) as nat);
        }
        assert(be_encode(n) =~= d.push(s.last()));
        assert(d.push(s.last()) =~= s);
    }
}

/// Stripping leading zero bytes keeps the value and leaves a minimal
/// byte string.
pub proof fn lemma_strip_leading_zeros(s: Seq<u8>)
    ensures
        minimal_be(strip_leading_zeros(s)),
        be_value(strip_leading_zeros(s)) == be_value(s),
        strip_leading_zeros(s).len() <= s.len(),
    decreases s.len(),
{
    if s.len() > 0 && s[0] == 0 {
        lemma_strip_leading_zeros(s.skip(1));
        assert(s =~= seq![s[0]] + s.skip(1));
        lemma_be_value_concat(seq![s[0]], s.skip(1));
        assert(be_value(seq![s[0]]) == 0) by {
            reveal_with_fuel(be_value, 2);
            assert(seq![s[0]].drop_last() =~= Seq::<u8>::empty());
        }
        lemma_mul_by_zero_is_zero(bplace(s.skip(1).len()) as int);
    }
}

/// A value below the weight of `k` bytes encodes in at most `k` bytes.
pub proof fn lemma_be_encode_len(n: nat, k: nat)
    requires
        n < bplace(k),
    ensures
        be_encode(n).len() <= k,
    decreases k,
{
    if n > 0 {
        lemma_div_decreases(n as int, 256);
        lemma_multiply_divide_lt(n as int, bplace((k - 1) as nat) as int, 256);
        lemma_be_encode_len(n / 256, (k - 1) as nat);
    }
}

/// Encoding the value read from any byte string strips exactly its leading
/// zero bytes: the byte-level round trip.
pub proof fn lemma_encode_after_decode(s: Seq<u8>)
    ensures
        be_encode(be_value(s)) == strip_leading_zeros(s),
{
    lemma_strip_leading_zeros(s);
    lemma_be_encode_canon(strip_leading_zeros(s));
}

impl Natural {
    /// Read an unsigned big-endian integer; leading zero bytes are absorbed
    /// by normalization.
    pub fn from_big_endian(bytes: &[u8]) -> (r: Natural)
        ensures
            r.wf(),
            r.value() == be_value(bytes@),
    {
        let mut acc = Natural::zero();
        let n = bytes.len();
        let mut i: usize = 0;
        proof {
            assert(bytes@.take(0) =~= Seq::<u8>::empty());
        }
        while i < n
            invariant
                i <= n,
                n == bytes@.len(),
                acc.wf(),
                acc.value() == be_value(bytes@.take(i as int)),
            decreases n - i,
        {
            let ghost acc0 = acc.value();
            acc = acc.times_digit_add(256, bytes[i] as u64);
            proof {
                lemma_be_value_take_succ(bytes@, i as int);
                lemma_mul_is_commutative(acc0 as int, 256);
            }
            i = i + 1;
        }
        proof {
            assert(bytes@.take(n as int) =~= bytes@);
        }
        acc
    }

    /// Render the minimal big-endian encoding: no leading zero byte, and
    /// the empty byte string for zero.
    pub fn to_big_endian(&self) -> (r: Vec<u8>)
        requires
            self.wf(),
        ensures
            r@ == be_encode(self.value()),
            be_value(r@) == self.value(),
            minimal_be(r@),
    {
        let a = &self.digits;
        let mut buf: Vec<u8> = Vec::new();
        let mut i = a.len();
        proof {
            assert(a@.skip(a@.len() as int) =~= Seq::<u64>::empty());
        }
        while i > 0
            invariant
                i <= a@.len(),
                a@ == self.digits@,
                be_value(buf@) == digits_value(a@.skip(i as int)),
            decreases i,
        {
            i = i - 1;
            let d = a[i];
            let ghost buf0 = buf@;
            let mut p: u64 = 0x100_0000_0000_0000;
            let mut j: usize = 0;
            proof {
                lemma2_to64();
                lemma2_to64_rest();
                assert((d as nat) / pow2(64) == 0) by {
                    lemma_basic_div(d as int, pow2(64) as int);
                }
                lemma_mul_basics(be_value(buf0) as int);
            }
            while j < 8
                invariant
                    j <= 8,
                    j < 8 ==> p as nat == pow2((8 * (7 - j)) as nat),
                    buf0 == buf@.take(buf0.len() as int),
                    buf@.len() == buf0.len() + j,
                    be_value(buf@) == be_value(buf0) * bplace(j as nat) + (d as nat) / pow2(
                        (8 * (8 - j)) as nat,
                    ),
                decreases 8 - j,
            {
                let ghost x = (d as nat) / pow2((8 * (7 - j)) as nat);
                let ghost xprev = (d as nat) / pow2((8 * (8 - j)) as nat);
                proof {
                    lemma_pow2_pos((8 * (7 - j)) as nat);
                    lemma_pow2_pos((8 * (8 - j)) as nat);
                    lemma_pow2_adds((8 * (7 - j)) as nat, 8);
                    lemma2_to64();
                    lemma_div_denominator(d as int, pow2((8 * (7 - j)) as nat) as int, 256);
                    assert(xprev == x / 256);
                    lemma_fundamental_div_mod(x as int, 256);
                }
                let b = ((d / p) % 256) as u8;
                let ghost bufj = buf@;
                buf.push(b);
                proof {
                    lemma_be_value_push(bufj, b);
                    assert(buf@.take(buf0.len() as int) =~= bufj.take(buf0.len() as int));
                    let v = be_value(buf0) as int;
                    let q = bplace(j as nat) as int;
                    assert(256 * (v * q + xprev) + (b as int) == v * (256 * q) + 256 * xprev + b)
                        by (nonlinear_arith);
                    assert(bplace((j + 1) as nat) == 256 * bplace(j as nat));
                    assert(v * (256 * q) == be_value(buf0) * bplace((j + 1) as nat));
                    assert(256 * xprev + (b as nat) == x);
                }
                p = p / 256;
                j = j + 1;
                proof {
                    if j < 8 {
                        lemma_pow2_adds((8 * (7 - j)) as nat, 8);
                        lemma2_to64();
                    }
                }
            }
            proof {
                lemma_digits_value_skip_unfold(a@, i as int);
                assert((d as nat) / pow2(0) == d) by {
                    lemma2_to64();
                }
                assert(bplace(8) == radix()) by {
                    reveal_with_fuel(bplace, 9);
                }
                lemma_mul_is_commutative(be_value(buf0) as int, radix() as int);
            }
        }
        proof {
            assert(a@.skip(0) =~= a@);
        }
        // Strip the leading zero bytes for the minimal encoding.
        let mut start: usize = 0;
        while start < buf.len() && buf[start] == 0
            invariant
                start <= buf@.len(),
                forall|k: int| 0 <= k < start ==> buf@[k] == 0,
            decreases buf@.len() - start,
        {
            start = start + 1;
        }
        let mut out: Vec<u8> = Vec::new();
        let mut idx = start;
        while idx < buf.len()
            invariant
                start <= idx <= buf@.len(),
                out@ =~= buf@.subrange(start as int, idx as int),
            decreases buf@.len() - idx,
        {
            let ghost outp = out@;
            out.push(buf[idx]);
            proof {
                assert(out@ =~= buf@.subrange(start as int, idx + 1));
            }
            idx = idx + 1;
        }
        proof {
            assert(out@ =~= buf@.skip(start as int));
            let zeros = buf@.take(start as int);
            assert(buf@ =~= zeros + out@);
            lemma_be_value_concat(zeros, out@);
            lemma_be_value_zeros(zeros);
            lemma_mul_by_zero_is_zero(bplace(out@.len()) as int);
            assert(be_value(out@) == self.value());
            assert(minimal_be(out@));
            lemma_be_encode_canon(out@);
        }
        out
    }
}

} // verus!
