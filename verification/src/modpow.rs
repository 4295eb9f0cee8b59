//! Binary square-and-multiply modular exponentiation, reading the exponent
//! as a big-endian byte string, most significant bit first.

use crate::natural::Natural;
use crate::value::{be_value, lemma_be_value_take_succ};
use vstd::arithmetic::div_mod::{
    lemma_basic_div, lemma_div_denominator, lemma_fundamental_div_mod,
    lemma_mul_mod_noop_general,
};
use vstd::arithmetic::power::{lemma_pow1, lemma_pow_adds, pow};
use vstd::arithmetic::power2::{lemma2_to64, lemma_pow2_adds, lemma_pow2_pos, pow2};
use vstd::prelude::*;

verus! {

/// Squaring an accumulator that holds `pow(b, e) % m` yields
/// `pow(b, e + e) % m` after reduction.
proof fn lemma_square_step(b: int, e: nat, m: int, acc: int)
    requires
        m > 0,
        acc == pow(b, e) % m,
    ensures
        (acc * acc) % m == pow(b, e + e) % m,
{
    lemma_mul_mod_noop_general(pow(b, e), pow(b, e), m);
    lemma_pow_adds(b, e, e);
}

/// Multiplying an accumulator that holds `pow(b, e) % m` by the reduced
/// base yields `pow(b, e + 1) % m` after reduction.
proof fn lemma_multiply_step(b: int, e: nat, m: int, acc: int, br: int)
    requires
        m > 0,
        acc == pow(b, e) % m,
        br == b % m,
    ensures
        (acc * br) % m == pow(b, e + 1) % m,
{
    lemma_mul_mod_noop_general(pow(b, e), b, m);
    lemma_pow_adds(b, e, 1);
    lemma_pow1(b);
}

impl Natural {
    /// Raise this value to the exponent given as a big-endian byte string,
    /// modulo a nonzero modulus.
    ///
    /// The accumulator starts at `1 % modulus`, so a modulus of one gives
    /// zero and an empty or zero exponent gives `1 % modulus`, with no
    /// special branching.
    pub fn modpow(&self, exponent: &[u8], modulus: &Natural) -> (r: Natural)
        requires
            self.wf(),
            modulus.wf(),
            modulus.value() > 0,
        ensures
            r.wf(),
            r.value() == pow(self.value() as int, be_value(exponent@)) % (
            modulus.value() as int),
    {
        let ghost vb = self.value() as int;
        let ghost m = modulus.value() as int;
        let base_red = self.reduce(modulus);
        let one_nat = Natural::one();
        let mut acc = one_nat.reduce(modulus);
        let n = exponent.len();
        let mut i: usize = 0;
        proof {
            vstd::arithmetic::power::lemma_pow0(vb);
            assert(exponent@.take(0) =~= Seq::<u8>::empty());
        }
        while i < n
            invariant
                i <= n,
                n == exponent@.len(),
                self.wf(),
                modulus.wf(),
                modulus.value() > 0,
                vb == self.value() as int,
                m == modulus.value() as int,
                base_red.wf(),
                base_red.value() == vb % m,
                acc.wf(),
                acc.value() == pow(vb, be_value(exponent@.take(i as int))) % m,
            decreases n - i,
        {
            let byte = exponent[i];
            let ghost e0 = be_value(exponent@.take(i as int));
            let mut sv: u8 = 128;
            let mut k: usize = 0;
            proof {
                lemma2_to64();
                assert((byte as nat) / pow2(8) == 0) by {
                    lemma_basic_div(byte as int, pow2(8) as int);
                }
                vstd::arithmetic::mul::lemma_mul_basics(e0 as int);
            }
            while k < 8
                invariant
                    k <= 8,
                    k < 8 ==> sv as nat == pow2((7 - k) as nat),
                    modulus.wf(),
                    modulus.value() > 0,
                    vb == self.value() as int,
                    m == modulus.value() as int,
                    base_red.wf(),
                    base_red.value() == vb % m,
                    acc.wf(),
                    acc.value() == pow(vb, e0 * pow2(k as nat) + (byte as nat) / pow2(
                        (8 - k) as nat,
                    )) % m,
                decreases 8 - k,
            {
                let ghost x = (byte as nat) / pow2((7 - k) as nat);
                let ghost xprev = (byte as nat) / pow2((8 - k) as nat);
                let ghost e_old: nat = e0 * pow2(k as nat) + xprev;
                proof {
                    lemma_pow2_pos((7 - k) as nat);
                    lemma_pow2_pos((8 - k) as nat);
                    lemma_pow2_adds((7 - k) as nat, 1);
                    lemma2_to64();
                    lemma_div_denominator(byte as int, pow2((7 - k) as nat) as int, 2);
                    assert(xprev == x / 2);
                    lemma_fundamental_div_mod(x as int, 2);
                }
                let bit: bool = (byte / sv) % 2 == 1;
                let ghost bitn: nat = if bit {
                    1
                } else {
                    0
                };
                proof {
                    assert(x == 2 * xprev + bitn);
                }
                let squared = acc.mul(&acc);
                acc = squared.reduce(modulus);
                proof {
                    lemma_square_step(vb, e_old, m, (pow(vb, e_old) % m) as int);
                    assert(acc.value() == pow(vb, e_old + e_old) % m);
                }
                if bit {
                    let multiplied = acc.mul(&base_red);
                    acc = multiplied.reduce(modulus);
                    proof {
                        lemma_multiply_step(
                            vb,
                            e_old + e_old,
                            m,
                            (pow(vb, e_old + e_old) % m) as int,
                            base_red.value() as int,
                        );
                    }
                }
                proof {
                    assert(e0 * pow2((k + 1) as nat) == 2 * (e0 * pow2(k as nat))) by {
                        lemma_pow2_adds(k as nat, 1);
                        lemma2_to64();
                        let e = e0 as int;
                        let p = pow2(k as nat) as int;
                        assert(e * (p * 2) == 2 * (e * p)) by (nonlinear_arith);
                    }
                    assert(e0 * pow2((k + 1) as nat) + x == e_old + e_old + bitn);
                    assert(pow2((8 - (k + 1)) as nat) == pow2((7 - k) as nat));
                }
                sv = sv / 2;
                k = k + 1;
                proof {
                    if k < 8 {
                        lemma_pow2_adds((7 - k) as nat, 1);
                        lemma2_to64();
                    }
                }
            }
            proof {
                lemma_be_value_take_succ(exponent@, i as int);
                assert((byte as nat) / pow2(0) == byte) by {
                    lemma2_to64();
                }
                assert(pow2(8) == 256) by {
                    lemma2_to64();
                }
                assert(e0 * pow2(8) == 256 * e0) by {
                    vstd::arithmetic::mul::lemma_mul_is_commutative(e0 as int, 256);
                }
                assert(exponent@[i as int] == byte);
            }
            i = i + 1;
        }
        proof {
            assert(exponent@.take(n as int) =~= exponent@);
        }
        acc
    }
}

} // verus!
