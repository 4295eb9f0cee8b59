//! Long division of digit vectors, bit by bit from the most significant
//! end, and the modular reduction built on its remainder.

use crate::natural::{Comparison, Natural};
use crate::value::{digits_value, lemma_digits_value_skip_unfold, radix};
use vstd::arithmetic::div_mod::{
    lemma_basic_div, lemma_div_denominator, lemma_fundamental_div_mod,
    lemma_fundamental_div_mod_converse,
};
use vstd::arithmetic::power2::{
    lemma2_to64, lemma2_to64_rest, lemma_pow2_adds, lemma_pow2_pos, pow2,
};
use vstd::prelude::*;

verus! {

impl Natural {
    /// Long division: the quotient and the remainder by a nonzero divisor.
    pub fn divmod(&self, divisor: &Natural) -> (qr: (Natural, Natural))
        requires
            self.wf(),
            divisor.wf(),
            divisor.value() > 0,
        ensures
            qr.0.wf(),
            qr.1.wf(),
            self.value() == qr.0.value() * divisor.value() + qr.1.value(),
            qr.1.value() < divisor.value(),
            qr.0.value() == self.value() / divisor.value(),
            qr.1.value() == self.value() % divisor.value(),
    {
        let a = &self.digits;
        let one_nat = Natural::one();
        let mut q = Natural::zero();
        let mut r = Natural::zero();
        let mut i = a.len();
        proof {
            assert(a@.skip(a@.len() as int) =~= Seq::<u64>::empty());
            vstd::arithmetic::mul::lemma_mul_basics(divisor.value() as int);
        }
        while i > 0
            invariant
                i <= a@.len(),
                a@ == self.digits@,
                divisor.wf(),
                divisor.value() > 0,
                one_nat.wf(),
                one_nat.value() == 1,
                q.wf(),
                r.wf(),
                r.value() < divisor.value(),
                digits_value(a@.skip(i as int)) == q.value() * divisor.value() + r.value(),
            decreases i,
        {
            i = i - 1;
            let d = a[i];
            let ghost vtop = digits_value(a@.skip(i as int + 1));
            let mut mask: u64 = 0x8000_0000_0000_0000;
            let mut k: usize = 0;
            proof {
                lemma2_to64_rest();
                lemma2_to64();
                assert((d as nat) / pow2(64) == 0) by {
                    lemma_basic_div(d as int, pow2(64) as int);
                }
                vstd::arithmetic::mul::lemma_mul_basics(vtop as int);
            }
            while k < 64
                invariant
                    k <= 64,
                    k < 64 ==> mask as nat == pow2((63 - k) as nat),
                    divisor.wf(),
                    divisor.value() > 0,
                    one_nat.wf(),
                    one_nat.value() == 1,
                    q.wf(),
                    r.wf(),
                    r.value() < divisor.value(),
                    vtop * pow2(k as nat) + (d as nat) / pow2((64 - k) as nat) == q.value()
                        * divisor.value() + r.value(),
                decreases 64 - k,
            {
                let ghost b = divisor.value();
                let ghost qv0 = q.value();
                let ghost x = (d as nat) / pow2((63 - k) as nat);
                let ghost xprev = (d as nat) / pow2((64 - k) as nat);
                proof {
                    lemma_pow2_pos((63 - k) as nat);
                    lemma_pow2_pos((64 - k) as nat);
                    lemma_pow2_adds((63 - k) as nat, 1);
                    lemma2_to64();
                    lemma_div_denominator(d as int, pow2((63 - k) as nat) as int, 2);
                    assert(xprev == x / 2);
                    lemma_fundamental_div_mod(x as int, 2);
                }
                let bit: bool = (d / mask) % 2 == 1;
                let ghost bitn: nat = if bit {
                    1
                } else {
                    0
                };
                proof {
                    assert(x == 2 * xprev + bitn);
                }
                let mut r2 = r.add(&r);
                if bit {
                    r2 = r2.add(&one_nat);
                }
                let mut q2 = q.add(&q);
                let cmp = r2.compare(divisor);
                match cmp {
                    Comparison::Less => {
                    },
                    _ => {
                        r2 = r2.sub(divisor);
                        q2 = q2.add(&one_nat);
                    },
                }
                q = q2;
                r = r2;
                proof {
                    assert(vtop * pow2((k + 1) as nat) == 2 * (vtop * pow2(k as nat))) by {
                        lemma_pow2_adds(k as nat, 1);
                        lemma2_to64();
                        let v = vtop as int;
                        let p = pow2(k as nat) as int;
                        assert(v * (p * 2) == 2 * (v * p)) by (nonlinear_arith);
                    }
                    let bint = b as int;
                    assert((2 * qv0) * bint == 2 * (qv0 * bint)) by (nonlinear_arith);
                    assert((2 * qv0 + 1) * bint == 2 * (qv0 * bint) + bint) by (nonlinear_arith);
                    assert(vtop * pow2((k + 1) as nat) + x == q.value() * b + r.value());
                    assert(pow2((64 - (k + 1)) as nat) == pow2((63 - k) as nat));
                }
                mask = mask / 2;
                k = k + 1;
                proof {
                    if k < 64 {
                        lemma_pow2_adds((63 - k) as nat, 1);
                        lemma2_to64();
                    }
                }
            }
            proof {
                lemma_digits_value_skip_unfold(a@, i as int);
                assert(pow2(64) == radix()) by {
                    lemma2_to64_rest();
                }
                assert((d as nat) / pow2(0) == d) by {
                    lemma2_to64();
                }
                assert(vtop * radix() == radix() * vtop) by {
                    vstd::arithmetic::mul::lemma_mul_is_commutative(vtop as int, radix() as int);
                }
            }
        }
        proof {
            assert(a@.skip(0) =~= a@);
            lemma_fundamental_div_mod_converse(
                self.value() as int,
                divisor.value() as int,
                q.value() as int,
                r.value() as int,
            );
        }
        (q, r)
    }

    /// The remainder of this value by a nonzero modulus, used to keep every
    /// intermediate of the exponentiation below the modulus.
    pub fn reduce(&self, modulus: &Natural) -> (r: Natural)
        requires
            self.wf(),
            modulus.wf(),
            modulus.value() > 0,
        ensures
            r.wf(),
            r.value() == self.value() % modulus.value(),
            r.value() < modulus.value(),
    {
        let qr = self.divmod(modulus);
        qr.1
    }
}

} // verus!
