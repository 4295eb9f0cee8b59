//! The mathematical model of the number representations: the value of a
//! least-significant-first sequence of 64-bit digits, and the value of a
//! big-endian byte string, together with the lemmas the arithmetic needs.

use vstd::arithmetic::mul::{
    lemma_mul_basics, lemma_mul_by_zero_is_zero, lemma_mul_inequality, lemma_mul_is_commutative,
    lemma_mul_is_distributive_add, lemma_mul_is_distributive_add_other_way,
};
use vstd::prelude::*;

verus! {

/// The radix of the digit representation: each digit holds 64 bits.
pub open spec fn radix() -> nat {
    0x1_0000_0000_0000_0000
}

/// The weight of digit `i`: `radix()` to the power `i`.
pub open spec fn place(i: nat) -> nat
    decreases i,
{
    if i == 0 {
        1
    } else {
        radix() * place((i - 1) as nat)
    }
}

/// The weight of the byte `i` places above the least significant one:
/// 256 to the power `i`.
pub open spec fn bplace(i: nat) -> nat
    decreases i,
{
    if i == 0 {
        1
    } else {
        256 * bplace((i - 1) as nat)
    }
}

/// The value of a digit sequence, least-significant digit first.
pub open spec fn digits_value(s: Seq<u64>) -> nat
    decreases s.len(),
{
    if s.len() == 0 {
        0
    } else {
        digits_value(s.drop_last()) + (s.last() as nat) * place((s.len() - 1) as nat)
    }
}

/// A run of `n` zero bytes.
pub open spec fn zero_bytes(n: nat) -> Seq<u8> {
    Seq::new(n, |j: int| 0u8)
}

/// The value of a byte string read as an unsigned big-endian integer.
pub open spec fn be_value(s: Seq<u8>) -> nat
    decreases s.len(),
{
    if s.len() == 0 {
        0
    } else {
        256 * be_value(s.drop_last()) + (s.last() as nat)
    }
}

pub proof fn lemma_place_pos(i: nat)
    ensures
        place(i) >= 1,
    decreases i,
{
    if i > 0 {
        lemma_place_pos((i - 1) as nat);
        lemma_mul_inequality(1, place((i - 1) as nat) as int, radix() as int);
        lemma_mul_is_commutative(radix() as int, place((i - 1) as nat) as int);
    }
}

pub proof fn lemma_place_adds(a: nat, b: nat)
    ensures
        place(a + b) == place(a) * place(b),
    decreases a,
{
    if a == 0 {
        assert(place(0 + b) == 1 * place(b));
    } else {
        lemma_place_adds((a - 1) as nat, b);
        assert(place(a + b) == radix() * (place((a - 1) as nat) * place(b)));
        assert(radix() * (place((a - 1) as nat) * place(b)) == (radix() * place(
            (a - 1) as nat,
        )) * place(b)) by (nonlinear_arith);
    }
}

pub proof fn lemma_bplace_pos(i: nat)
    ensures
        bplace(i) >= 1,
    decreases i,
{
    if i > 0 {
        lemma_bplace_pos((i - 1) as nat);
        lemma_mul_inequality(1, bplace((i - 1) as nat) as int, 256);
        lemma_mul_is_commutative(256, bplace((i - 1) as nat) as int);
    }
}

pub proof fn lemma_bplace_adds(a: nat, b: nat)
    ensures
        bplace(a + b) == bplace(a) * bplace(b),
    decreases a,
{
    if a == 0 {
        assert(bplace(0 + b) == 1 * bplace(b));
    } else {
        lemma_bplace_adds((a - 1) as nat, b);
        assert(bplace(a + b) == 256 * (bplace((a - 1) as nat) * bplace(b)));
        assert(256 * (bplace((a - 1) as nat) * bplace(b)) == (256 * bplace((a - 1) as nat))
            * bplace(b)) by (nonlinear_arith);
    }
}

/// The byte weight never decreases with the position.
pub proof fn lemma_bplace_mono(a: nat, b: nat)
    requires
        a <= b,
    ensures
        bplace(a) <= bplace(b),
{
    lemma_bplace_adds(a, (b - a) as nat);
    lemma_bplace_pos((b - a) as nat);
    lemma_mul_inequality(1, bplace((b - a) as nat) as int, bplace(a) as int);
    lemma_mul_is_commutative(bplace(a) as int, bplace((b - a) as nat) as int);
}

/// Appending a digit at the most significant end adds its weighted value.
pub proof fn lemma_digits_value_push(s: Seq<u64>, d: u64)
    ensures
        digits_value(s.push(d)) == digits_value(s) + (d as nat) * place(s.len()),
{
    assert(s.push(d).drop_last() =~= s);
    assert(s.push(d).last() == d);
}

/// The value of a prefix grows by the weighted next digit.
pub proof fn lemma_digits_value_take_succ(s: Seq<u64>, i: int)
    requires
        0 <= i < s.len(),
    ensures
        digits_value(s.take(i + 1)) == digits_value(s.take(i)) + (s[i] as nat) * place(i as nat),
{
    assert(s.take(i + 1) =~= s.take(i).push(s[i]));
    lemma_digits_value_push(s.take(i), s[i]);
}

/// A digit sequence is worth less than the weight just above its top digit.
pub proof fn lemma_digits_value_bound(s: Seq<u64>)
    ensures
        digits_value(s) < place(s.len()),
    decreases s.len(),
{
    if s.len() == 0 {
    } else {
        let n = (s.len() - 1) as nat;
        lemma_digits_value_bound(s.drop_last());
        lemma_place_pos(n);
        assert(digits_value(s) < place(n) + (s.last() as nat) * place(n));
        assert(place(n) + (s.last() as nat) * place(n) == (1 + s.last() as nat) * place(n)) by {
            lemma_mul_is_distributive_add_other_way(place(n) as int, 1, s.last() as int);
        }
        lemma_mul_inequality((1 + s.last() as nat) as int, radix() as int, place(n) as int);
        assert(radix() * place(n) == place(s.len()));
    }
}

/// A digit sequence whose most significant digit is nonzero is worth at
/// least that digit's weight.
pub proof fn lemma_digits_value_msd_lower(s: Seq<u64>)
    requires
        s.len() >= 1,
        s.last() != 0,
    ensures
        digits_value(s) >= place((s.len() - 1) as nat),
{
    let n = (s.len() - 1) as nat;
    lemma_place_pos(n);
    lemma_mul_inequality(1, s.last() as int, place(n) as int);
    assert((s.last() as nat) * place(n) >= 1 * place(n));
}

/// Splitting a digit sequence at position `i` splits its value.
pub proof fn lemma_digits_value_split(s: Seq<u64>, i: int)
    requires
        0 <= i <= s.len(),
    ensures
        digits_value(s) == digits_value(s.take(i)) + place(i as nat) * digits_value(s.skip(i)),
    decreases s.len(),
{
    if i == s.len() {
        assert(s.take(i) =~= s);
        assert(s.skip(i) =~= Seq::<u64>::empty());
        assert(digits_value(s.skip(i)) == 0);
        lemma_mul_by_zero_is_zero(place(i as nat) as int);
    } else {
        let d = s.drop_last();
        let n = (s.len() - 1) as nat;
        let m = (s.len() - i - 1) as nat;
        lemma_digits_value_split(d, i);
        assert(d.take(i) =~= s.take(i));
        assert(d.skip(i) =~= s.skip(i).drop_last());
        assert(s.skip(i).last() == s.last());
        lemma_place_adds(i as nat, m);
        let p = place(i as nat) as int;
        let q = place(m) as int;
        let a = digits_value(d.skip(i)) as int;
        let l = s.last() as int;
        assert(digits_value(s.skip(i)) == a + l * q);
        assert(p * (a + l * q) == p * a + l * (p * q)) by (nonlinear_arith);
        assert(p * q == place(n));
        assert(digits_value(s) == digits_value(d) + l * place(n));
        assert(digits_value(d) == digits_value(s.take(i)) + p * a);
        assert(place(i as nat) * digits_value(s.skip(i)) == p * (a + l * q));
        assert(digits_value(s) == digits_value(s.take(i)) + p * a + l * (p * q));
    }
}

/// Unfolding a digit sequence from its least significant end.
pub proof fn lemma_digits_value_skip_unfold(s: Seq<u64>, i: int)
    requires
        0 <= i < s.len(),
    ensures
        digits_value(s.skip(i)) == s[i] + radix() * digits_value(s.skip(i + 1)),
{
    let t = s.skip(i);
    lemma_digits_value_split(t, 1);
    assert(t.take(1) =~= seq![s[i]]);
    assert(t.skip(1) =~= s.skip(i + 1));
    lemma_digits_value_singleton(s[i]);
    assert(place(1) == radix() * place(0));
}

/// A single digit stands for its own value.
pub proof fn lemma_digits_value_singleton(d: u64)
    ensures
        digits_value(seq![d]) == d,
{
    reveal_with_fuel(digits_value, 2);
    assert(seq![d].drop_last() =~= Seq::<u64>::empty());
    assert(seq![d].last() == d);
    assert(place(0) == 1);
    lemma_mul_basics(d as int);
}

/// Prepending a digit shifts the rest one place up.
pub proof fn lemma_digits_value_prepend(d: u64, s: Seq<u64>)
    ensures
        digits_value(seq![d] + s) == d + radix() * digits_value(s),
{
    let t = seq![d] + s;
    lemma_digits_value_split(t, 1);
    assert(t.take(1) =~= seq![d]);
    assert(t.skip(1) =~= s);
    lemma_digits_value_singleton(d);
    assert(place(1) == radix() * place(0));
}

/// Appending a byte at the least significant end scales the value by 256.
pub proof fn lemma_be_value_push(s: Seq<u8>, b: u8)
    ensures
        be_value(s.push(b)) == 256 * be_value(s) + b,
{
    assert(s.push(b).drop_last() =~= s);
    assert(s.push(b).last() == b);
}

/// The value of a byte-string prefix grows by the next byte.
pub proof fn lemma_be_value_take_succ(s: Seq<u8>, i: int)
    requires
        0 <= i < s.len(),
    ensures
        be_value(s.take(i + 1)) == 256 * be_value(s.take(i)) + s[i],
{
    assert(s.take(i + 1) =~= s.take(i).push(s[i]));
    lemma_be_value_push(s.take(i), s[i]);
}

/// A byte string is worth less than the weight just above its top byte.
pub proof fn lemma_be_value_bound(s: Seq<u8>)
    ensures
        be_value(s) < bplace(s.len()),
    decreases s.len(),
{
    if s.len() == 0 {
    } else {
        let n = (s.len() - 1) as nat;
        lemma_be_value_bound(s.drop_last());
        assert(256 * be_value(s.drop_last()) <= 256 * (bplace(n) - 1)) by {
            lemma_mul_inequality(be_value(s.drop_last()) as int, bplace(n) - 1, 256);
            lemma_mul_is_commutative(be_value(s.drop_last()) as int, 256);
            lemma_mul_is_commutative(bplace(n) - 1, 256);
        }
        lemma_mul_is_distributive_add(256, bplace(n) - 1, 1);
    }
}

/// A byte string whose first byte is nonzero is worth at least that
/// byte's weight.
pub proof fn lemma_be_value_msb_lower(s: Seq<u8>)
    requires
        s.len() >= 1,
        s[0] != 0,
    ensures
        be_value(s) >= bplace((s.len() - 1) as nat),
    decreases s.len(),
{
    if s.len() == 1 {
        lemma_bplace_pos(0);
    } else {
        let n = (s.len() - 2) as nat;
        lemma_be_value_msb_lower(s.drop_last());
        lemma_mul_inequality(bplace(n) as int, be_value(s.drop_last()) as int, 256);
        lemma_mul_is_commutative(bplace(n) as int, 256);
        lemma_mul_is_commutative(be_value(s.drop_last()) as int, 256);
    }
}

/// Concatenation of byte strings: the left part is scaled by the weight
/// of the right part's length.
pub proof fn lemma_be_value_concat(s: Seq<u8>, t: Seq<u8>)
    ensures
        be_value(s + t) == be_value(s) * bplace(t.len()) + be_value(t),
    decreases t.len(),
{
    if t.len() == 0 {
        assert(s + t =~= s);
        assert(be_value(t) == 0);
        assert(bplace(t.len()) == 1);
        assert(be_value(s) * 1 == be_value(s)) by (nonlinear_arith);
    } else {
        let td = t.drop_last();
        lemma_be_value_concat(s, td);
        assert((s + t).drop_last() =~= s + td);
        assert((s + t).last() == t.last());
        let v = be_value(s) as int;
        let b = bplace(td.len()) as int;
        let r = be_value(td) as int;
        let l = t.last() as int;
        assert(be_value(s + t) == 256 * (v * b + r) + l);
        assert(256 * (v * b + r) == v * (256 * b) + 256 * r) by (nonlinear_arith);
        assert(bplace(t.len()) == 256 * bplace(td.len()));
        assert(v * (256 * b) == be_value(s) * bplace(t.len()));
        assert(be_value(t) == 256 * r + l);
    }
}

/// A run of zero bytes is worth zero.
pub proof fn lemma_be_value_zeros(s: Seq<u8>)
    requires
        forall|i: int| 0 <= i < s.len() ==> s[i] == 0,
    ensures
        be_value(s) == 0,
    decreases s.len(),
{
    if s.len() > 0 {
        lemma_be_value_zeros(s.drop_last());
    }
}

} // verus!
