//! Schoolbook multiplication: digit-by-digit multiply-accumulate over the
//! digit vector, most significant digit first.

use crate::natural::Natural;
use crate::value::{
    digits_value, lemma_digits_value_prepend, lemma_digits_value_skip_unfold,
    lemma_digits_value_take_succ, place, radix,
};
use vstd::arithmetic::div_mod::lemma_fundamental_div_mod;
use vstd::arithmetic::div_mod::lemma_multiply_divide_lt;
use vstd::arithmetic::mul::{lemma_mul_basics, lemma_mul_is_commutative, lemma_mul_upper_bound};
use vstd::prelude::*;

verus! {

impl Natural {
    /// The value shifted one digit up: multiplication by the radix.
    pub fn times_radix(self) -> (r: Natural)
        ensures
            r.wf(),
            r.value() == radix() * self.value(),
    {
        let ghost orig = self.digits@;
        let mut v = self.digits;
        v.insert(0, 0);
        proof {
            assert(v@ =~= seq![0u64] + orig);
            lemma_digits_value_prepend(0, orig);
        }
        Natural::normalized(v)
    }

    /// Multiply by a single digit and add a single digit, in one carry chain.
    pub fn times_digit_add(&self, c: u64, d: u64) -> (r: Natural)
        requires
            self.wf(),
        ensures
            r.wf(),
            r.value() == self.value() * c + d,
    {
        let a = &self.digits;
        let alen = a.len();
        let mut out: Vec<u64> = Vec::new();
        let mut carry: u64 = d;
        let mut i: usize = 0;
        proof {
            assert(place(0) == 1);
            lemma_mul_basics(d as int);
            lemma_mul_basics(c as int);
        }
        while i < alen
            invariant
                i <= alen,
                alen == a@.len(),
                out@.len() == i,
                digits_value(out@) + (carry as nat) * place(i as nat) == digits_value(
                    a@.take(i as int),
                ) * c + d,
            decreases alen - i,
        {
            proof {
                lemma_mul_upper_bound(
                    a@[i as int] as int,
                    0xffff_ffff_ffff_ffff,
                    c as int,
                    0xffff_ffff_ffff_ffff,
                );
            }
            let t: u128 = a[i] as u128 * c as u128 + carry as u128;
            proof {
                lemma_multiply_divide_lt(t as int, 0x1_0000_0000_0000_0000, 0x1_0000_0000_0000_0000);
            }
            let lo: u64 = (t % 0x1_0000_0000_0000_0000u128) as u64;
            let hi: u64 = (t / 0x1_0000_0000_0000_0000u128) as u64;
            let ghost out0 = out@;
            let ghost c0 = carry as nat;
            out.push(lo);
            carry = hi;
            proof {
                lemma_fundamental_div_mod(t as int, 0x1_0000_0000_0000_0000);
                assert(lo as nat + (hi as nat) * radix() == (a@[i as int] as nat) * (c as nat)
                    + c0);
                crate::natural::lemma_carry_chain_step(
                    out0,
                    lo,
                    hi,
                    i as nat,
                    c0,
                    (a@[i as int] as nat) * (c as nat),
                );
                lemma_digits_value_take_succ(a@, i as int);
                let p = place(i as nat) as int;
                let ad = a@[i as int] as int;
                assert((ad * c) * p == (ad * p) * c) by (nonlinear_arith);
                assert((digits_value(a@.take(i as int)) + ad * p) * c == digits_value(
                    a@.take(i as int),
                ) * c + (ad * p) * c) by (nonlinear_arith);
            }
            i = i + 1;
        }
        let ghost out0 = out@;
        out.push(carry);
        proof {
            crate::value::lemma_digits_value_push(out0, carry);
            assert(a@.take(alen as int) =~= a@);
        }
        Natural::normalized(out)
    }

    /// Schoolbook multiplication, most significant digit of `self` first.
    pub fn mul(&self, other: &Natural) -> (r: Natural)
        requires
            self.wf(),
            other.wf(),
        ensures
            r.wf(),
            r.value() == self.value() * other.value(),
    {
        let a = &self.digits;
        let mut acc = Natural::zero();
        let mut i = a.len();
        proof {
            assert(a@.skip(a@.len() as int) =~= Seq::<u64>::empty());
            lemma_mul_basics(other.value() as int);
        }
        while i > 0
            invariant
                i <= a@.len(),
                acc.wf(),
                other.wf(),
                a@ == self.digits@,
                acc.value() == other.value() * digits_value(a@.skip(i as int)),
            decreases i,
        {
            i = i - 1;
            let ghost acc0 = acc.value();
            let scaled = acc.times_radix();
            let part = other.times_digit_add(a[i], 0);
            acc = scaled.add(&part);
            proof {
                lemma_digits_value_skip_unfold(a@, i as int);
                let vb = other.value() as int;
                let ad = a@[i as int] as int;
                let s1 = digits_value(a@.skip(i + 1)) as int;
                assert(vb * (ad + radix() * s1) == vb * ad + radix() * (vb * s1))
                    by (nonlinear_arith);
                assert(acc.value() == radix() * acc0 + vb * ad);
                assert(vb * ad == other.value() * ad);
            }
        }
        proof {
            assert(a@.skip(0) =~= a@);
            lemma_mul_is_commutative(other.value() as int, self.value() as int);
        }
        acc
    }
}

} // verus!
