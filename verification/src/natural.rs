//! The digit-vector number: an owned, normalized sequence of 64-bit digits,
//! least significant first, with comparison, addition and subtraction.

use crate::value::{
    digits_value, lemma_digits_value_bound, lemma_digits_value_msd_lower,
    lemma_digits_value_split, lemma_digits_value_take_succ, lemma_place_adds, lemma_place_pos,
    place, radix,
};
use vstd::arithmetic::mul::{
    lemma_mul_by_zero_is_zero, lemma_mul_inequality, lemma_mul_is_commutative,
    lemma_mul_is_distributive_add_other_way,
};
use vstd::prelude::*;

verus! {

/// The outcome of comparing two [`Natural`] values.
#[derive(Clone, Copy, Debug, PartialEq, Eq, Structural)]
pub enum Comparison {
    Less,
    Equal,
    Greater,
}

/// A finite non-negative integer as a normalized digit vector.
///
/// Invariant ([`Natural::wf`]): at least one digit, and the most significant
/// digit is nonzero unless the whole value is zero, in which case the vector
/// is exactly one zero digit.
pub struct Natural {
    pub digits: Vec<u64>,
}

/// Clamp an index to a sequence length, for prefix values of operands of
/// different lengths.
pub open spec fn clamp(i: int, n: int) -> int {
    if i <= n {
        i
    } else {
        n
    }
}

impl Natural {
    /// The mathematical value this digit vector stands for.
    pub open spec fn value(self) -> nat {
        digits_value(self.digits@)
    }

    /// The representation invariant.
    pub open spec fn wf(self) -> bool {
        self.digits@.len() >= 1 && (self.digits@.len() == 1 || self.digits@.last() != 0)
    }

    /// Build a normalized `Natural` from a raw digit vector, trimming zero
    /// digits at the most significant end.
    pub fn normalized(digits: Vec<u64>) -> (r: Natural)
        ensures
            r.wf(),
            r.value() == digits_value(digits@),
    {
        let mut v = digits;
        let ghost orig = v@;
        if v.len() == 0 {
            v.push(0);
            proof {
                assert(v@ =~= seq![0u64]);
                crate::value::lemma_digits_value_singleton(0);
            }
        }
        while v.len() > 1 && v[v.len() - 1] == 0
            invariant
                v@.len() >= 1,
                digits_value(v@) == digits_value(orig),
            decreases v@.len(),
        {
            let ghost before = v@;
            v.pop();
            proof {
                assert(v@ =~= before.drop_last());
                assert(before.last() == 0);
                lemma_mul_by_zero_is_zero(place((before.len() - 1) as nat) as int);
            }
        }
        Natural { digits: v }
    }

    /// The all-zero value.
    pub fn zero() -> (r: Natural)
        ensures
            r.wf(),
            r.value() == 0,
    {
        let v: Vec<u64> = vec![0];
        proof {
            assert(v@ =~= seq![0u64]);
            crate::value::lemma_digits_value_singleton(0);
        }
        Natural { digits: v }
    }

    /// The value one.
    pub fn one() -> (r: Natural)
        ensures
            r.wf(),
            r.value() == 1,
    {
        let v: Vec<u64> = vec![1];
        proof {
            assert(v@ =~= seq![1u64]);
            crate::value::lemma_digits_value_singleton(1);
        }
        Natural { digits: v }
    }

    /// Whether the value is zero.
    pub fn is_zero(&self) -> (r: bool)
        requires
            self.wf(),
        ensures
            r <==> self.value() == 0,
    {
        proof {
            lemma_wf_zero(*self);
        }
        self.digits.len() == 1 && self.digits[0] == 0
    }

    /// Three-way comparison: digit count first, then digits from the most
    /// significant end.
    pub fn compare(&self, other: &Natural) -> (r: Comparison)
        requires
            self.wf(),
            other.wf(),
        ensures
            r == Comparison::Less <==> self.value() < other.value(),
            r == Comparison::Greater <==> self.value() > other.value(),
            r == Comparison::Equal <==> self.value() == other.value(),
    {
        let a = &self.digits;
        let b = &other.digits;
        if a.len() < b.len() {
            proof {
                lemma_wf_shorter_is_less(*self, *other);
            }
            return Comparison::Less;
        }
        if a.len() > b.len() {
            proof {
                lemma_wf_shorter_is_less(*other, *self);
            }
            return Comparison::Greater;
        }
        let mut j = a.len();
        while j > 0
            invariant
                j <= a@.len(),
                a@.len() == b@.len(),
                a@ == self.digits@,
                b@ == other.digits@,
                forall|k: int| j <= k < a@.len() ==> a@[k] == b@[k],
            decreases j,
        {
            j = j - 1;
            if a[j] > b[j] {
                proof {
                    lemma_digits_cmp_at(b@, a@, j as int);
                }
                return Comparison::Greater;
            }
            if a[j] < b[j] {
                proof {
                    lemma_digits_cmp_at(a@, b@, j as int);
                }
                return Comparison::Less;
            }
        }
        proof {
            assert(a@ =~= b@);
        }
        Comparison::Equal
    }

    /// Digit-wise addition with carry propagation.
    pub fn add(&self, other: &Natural) -> (r: Natural)
        requires
            self.wf(),
            other.wf(),
        ensures
            r.wf(),
            r.value() == self.value() + other.value(),
    {
        let a = &self.digits;
        let b = &other.digits;
        let alen = a.len();
        let blen = b.len();
        let n = if alen < blen {
            blen
        } else {
            alen
        };
        let mut out: Vec<u64> = Vec::new();
        let mut carry: u64 = 0;
        let mut i: usize = 0;
        while i < n
            invariant
                i <= n,
                n == if alen < blen {
                    blen
                } else {
                    alen
                },
                alen == a@.len(),
                blen == b@.len(),
                out@.len() == i,
                carry <= 1,
                digits_value(out@) + (carry as nat) * place(i as nat) == digits_value(
                    a@.take(clamp(i as int, alen as int)),
                ) + digits_value(b@.take(clamp(i as int, blen as int))),
            decreases n - i,
        {
            let ai: u64 = if i < alen {
                a[i]
            } else {
                0
            };
            let bi: u64 = if i < blen {
                b[i]
            } else {
                0
            };
            let t: u128 = ai as u128 + bi as u128 + carry as u128;
            let lo: u64 = (t % 0x1_0000_0000_0000_0000u128) as u64;
            let hi: u64 = (t / 0x1_0000_0000_0000_0000u128) as u64;
            let ghost out0 = out@;
            let ghost c0 = carry as nat;
            out.push(lo);
            carry = hi;
            proof {
                vstd::arithmetic::div_mod::lemma_fundamental_div_mod(
                    t as int,
                    0x1_0000_0000_0000_0000,
                );
                assert(lo as nat + (hi as nat) * radix() == ai as nat + bi as nat + c0);
                lemma_carry_chain_step(out0, lo, hi, i as nat, c0, ai as nat + bi as nat);
                if i < alen {
                    lemma_digits_value_take_succ(a@, i as int);
                } else {
                    assert(a@.take(clamp(i + 1, alen as int)) =~= a@.take(clamp(i as int, alen as int)));
                }
                if i < blen {
                    lemma_digits_value_take_succ(b@, i as int);
                } else {
                    assert(b@.take(clamp(i + 1, blen as int)) =~= b@.take(clamp(i as int, blen as int)));
                }
                lemma_mul_is_distributive_add_other_way(
                    place(i as nat) as int,
                    ai as int,
                    bi as int,
                );
            }
            i = i + 1;
        }
        if carry > 0 {
            let ghost out0 = out@;
            out.push(carry);
            proof {
                crate::value::lemma_digits_value_push(out0, carry);
            }
        }
        proof {
            assert(a@.take(clamp(n as int, alen as int)) =~= a@);
            assert(b@.take(clamp(n as int, blen as int)) =~= b@);
        }
        Natural::normalized(out)
    }

    /// Digit-wise subtraction with borrow propagation; the minuend must not
    /// be smaller than the subtrahend.
    pub fn sub(&self, other: &Natural) -> (r: Natural)
        requires
            self.wf(),
            other.wf(),
            other.value() <= self.value(),
        ensures
            r.wf(),
            r.value() == self.value() - other.value(),
    {
        let a = &self.digits;
        let b = &other.digits;
        let alen = a.len();
        let blen = b.len();
        proof {
            if blen > alen {
                lemma_wf_shorter_is_less(*self, *other);
            }
        }
        let mut out: Vec<u64> = Vec::new();
        let mut borrow: u64 = 0;
        let mut i: usize = 0;
        while i < alen
            invariant
                i <= alen,
                blen <= alen,
                alen == a@.len(),
                blen == b@.len(),
                out@.len() == i,
                borrow <= 1,
                digits_value(out@) - (borrow as nat) * place(i as nat) == digits_value(
                    a@.take(i as int),
                ) - digits_value(b@.take(clamp(i as int, blen as int))),
            decreases alen - i,
        {
            let bi: u64 = if i < blen {
                b[i]
            } else {
                0
            };
            let t: i128 = a[i] as i128 - bi as i128 - borrow as i128;
            let ghost out0 = out@;
            let ghost br0 = borrow as nat;
            let lo: u64;
            if t < 0 {
                lo = (t + 0x1_0000_0000_0000_0000i128) as u64;
                borrow = 1;
            } else {
                lo = t as u64;
                borrow = 0;
            }
            out.push(lo);
            proof {
                crate::value::lemma_digits_value_push(out0, lo);
                lemma_digits_value_take_succ(a@, i as int);
                if i < blen {
                    lemma_digits_value_take_succ(b@, i as int);
                } else {
                    assert(b@.take(clamp(i + 1, blen as int)) =~= b@.take(clamp(i as int, blen as int)));
                }
                let p = place(i as nat) as int;
                let ad = a@[i as int] as int;
                let bd = bi as int;
                let lod = lo as int;
                let brn = borrow as int;
                assert(lod - brn * radix() == ad - bd - br0);
                assert((lod - brn * radix()) * p == lod * p - brn * (radix() * p)) by (nonlinear_arith);
                assert((ad - bd - br0) * p == ad * p - bd * p - br0 * p) by (nonlinear_arith);
                assert(place((i + 1) as nat) == radix() * place(i as nat));
            }
            i = i + 1;
        }
        proof {
            assert(a@.take(alen as int) =~= a@);
            assert(b@.take(clamp(alen as int, blen as int)) =~= b@);
            lemma_digits_value_bound(out@);
            if borrow == 1 {
                lemma_mul_is_commutative(1, place(alen as nat) as int);
                assert(false);
            }
        }
        Natural::normalized(out)
    }
}

/// A well-formed digit vector stands for zero exactly when it is the single
/// zero digit.
pub proof fn lemma_wf_zero(n: Natural)
    requires
        n.wf(),
    ensures
        n.value() == 0 <==> (n.digits@.len() == 1 && n.digits@[0] == 0),
{
    if n.digits@.len() == 1 {
        assert(n.digits@ =~= seq![n.digits@[0]]);
        crate::value::lemma_digits_value_singleton(n.digits@[0]);
    } else {
        lemma_digits_value_msd_lower(n.digits@);
        lemma_place_pos((n.digits@.len() - 1) as nat);
    }
}

/// Of two well-formed digit vectors, one with fewer digits is worth less.
pub proof fn lemma_wf_shorter_is_less(a: Natural, b: Natural)
    requires
        a.wf(),
        b.wf(),
        a.digits@.len() < b.digits@.len(),
    ensures
        a.value() < b.value(),
{
    let alen = a.digits@.len();
    let blen = b.digits@.len();
    lemma_digits_value_bound(a.digits@);
    lemma_digits_value_msd_lower(b.digits@);
    lemma_place_mono(alen, (blen - 1) as nat);
}

/// The digit weight never decreases with the position.
pub proof fn lemma_place_mono(a: nat, b: nat)
    requires
        a <= b,
    ensures
        place(a) <= place(b),
{
    lemma_place_adds(a, (b - a) as nat);
    lemma_place_pos((b - a) as nat);
    lemma_mul_inequality(1, place((b - a) as nat) as int, place(a) as int);
    lemma_mul_is_commutative(place(a) as int, place((b - a) as nat) as int);
}

/// If two equally long digit vectors agree above position `j` and differ at
/// `j`, the one with the larger digit at `j` is worth more.
pub proof fn lemma_digits_cmp_at(a: Seq<u64>, b: Seq<u64>, j: int)
    requires
        a.len() == b.len(),
        0 <= j < a.len(),
        forall|k: int| j < k < a.len() ==> a[k] == b[k],
        a[j] < b[j],
    ensures
        digits_value(a) < digits_value(b),
{
    lemma_digits_value_split(a, j + 1);
    lemma_digits_value_split(b, j + 1);
    assert(a.skip(j + 1) =~= b.skip(j + 1));
    lemma_digits_value_take_succ(a, j);
    lemma_digits_value_take_succ(b, j);
    lemma_digits_value_bound(a.take(j));
    let p = place(j as nat) as int;
    assert(digits_value(a.take(j + 1)) < (1 + a[j] as int) * p) by {
        lemma_mul_is_distributive_add_other_way(p, 1, a[j] as int);
    }
    assert((1 + a[j] as int) * p <= (b[j] as int) * p) by {
        lemma_mul_inequality(1 + a[j] as int, b[j] as int, p);
    }
    assert(digits_value(b.take(j + 1)) >= (b[j] as nat) * place(j as nat));
}

/// One step of a carry chain: pushing the low digit while keeping the high
/// digit as the next carry preserves the running value equation.
pub proof fn lemma_carry_chain_step(out0: Seq<u64>, lo: u64, hi: u64, i: nat, c0: nat, addend: nat)
    requires
        out0.len() == i,
        lo + (hi as nat) * radix() == addend + c0,
    ensures
        digits_value(out0.push(lo)) + (hi as nat) * place((i + 1) as nat) == digits_value(out0)
            + c0 * place(i) + addend * place(i),
{
    crate::value::lemma_digits_value_push(out0, lo);
    assert(place((i + 1) as nat) == radix() * place(i));
    let p = place(i) as int;
    let lon = lo as int;
    let hin = hi as int;
    assert(hin * (radix() * p) == (hin * radix()) * p) by (nonlinear_arith);
    assert((lon + hin * radix()) * p == lon * p + (hin * radix()) * p) by (nonlinear_arith);
    assert((addend + c0) * p == addend * p + c0 * p) by (nonlinear_arith);
}

} // verus!
