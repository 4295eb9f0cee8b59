//! The MODEXP precompiled operation: decode the three-field input layout
//! with overflow-safe length parsing, run the exponentiation, and re-encode
//! the result padded to the declared modulus length.
//!
//! Every malformed input resolves to an empty output, never to an error:
//! the operation completes deterministically for any byte buffer.

use crate::codec::be_encode;
use crate::natural::{clamp, Natural};
use crate::value::{
    be_value, bplace, lemma_be_value_bound, lemma_be_value_push, lemma_bplace_adds,
    lemma_bplace_mono, lemma_bplace_pos, zero_bytes,
};
use std::rc::Rc;
use vstd::arithmetic::div_mod::{
    lemma_basic_div, lemma_fundamental_div_mod, lemma_mod_bound, lemma_mod_multiples_basic,
    lemma_small_mod,
};
use vstd::arithmetic::mul::{
    lemma_mul_basics, lemma_mul_inequality, lemma_mul_is_commutative, lemma_mul_strict_inequality,
};
use vstd::arithmetic::power::{lemma_pow0, pow};
use vstd::prelude::*;

verus! {

/// The error channel of the byte-buffer calling convention. The operation
/// itself resolves every malformed input to an empty output, so this is
/// never produced by [`modexp`] or [`modexp_precompiled_impl`].
#[derive(Debug, Clone)]
pub enum RuntimeError {
    /// Input was a bad format.
    BadFormat,
}

/// What `modexp` returns: empty bytes for a zero modulus, and otherwise the
/// minimal big-endian encoding of `base ^ exp mod modulus`.
pub open spec fn modexp_bytes(base: Seq<u8>, exp: Seq<u8>, modulus: Seq<u8>) -> Seq<u8> {
    if be_value(modulus) == 0 {
        Seq::empty()
    } else {
        be_encode((pow(be_value(base) as int, be_value(exp)) % (be_value(modulus) as int)) as nat)
    }
}

/// Computes `(base ^ exp) % modulus`, where all values are given as
/// big-endian encoded bytes.
pub fn modexp(base: &[u8], exp: &[u8], modulus: &[u8]) -> (r: Vec<u8>)
    ensures
        r@ == modexp_bytes(base@, exp@, modulus@),
{
    let x = Natural::from_big_endian(base);
    let m = Natural::from_big_endian(modulus);
    if m.is_zero() {
        let empty: Vec<u8> = Vec::new();
        proof {
            assert(empty@ =~= Seq::<u8>::empty());
        }
        return empty;
    }
    let result = x.modpow(exp, &m);
    proof {
        lemma_mod_bound(
            pow(be_value(base@) as int, be_value(exp@)),
            be_value(modulus@) as int,
        );
    }
    result.to_big_endian()
}

/// The bytes of the operand region `[from, from + len)` of the input
/// buffer, clamped to the buffer and zero-filled past its end.
pub open spec fn operand_bytes(input: Seq<u8>, from: nat, len: nat) -> Seq<u8> {
    Seq::new(
        len,
        |j: int|
            if from + j < input.len() {
                input[from + j]
            } else {
                0u8
            },
    )
}

/// Decoding of one 32-byte length field starting at `from`: the 24-byte
/// overflow prefix must be all zero and the trailing 8-byte big-endian
/// integer must stay below the ceiling, else the field is flagged as
/// overflowed. Bytes past the end of the buffer read as zero, so a
/// truncated window fills the high end of the integer.
pub open spec fn spec_len_field(input: Seq<u8>, from: nat) -> (nat, bool) {
    let end0 = clamp(from as int, input.len() as int);
    let lo = clamp(from as int + 24, input.len() as int);
    let hi = clamp(from as int + 32, input.len() as int);
    let window = input.subrange(lo, hi);
    let value = be_value(window) * bplace((8 - window.len()) as nat);
    let prefix_zero = forall|k: int| end0 <= k < lo ==> input[k] == 0;
    (value, !(value < 0xffff_ffff && prefix_zero))
}

/// The full output policy of the precompiled operation on a raw input
/// buffer, as bytes.
pub open spec fn modexp_precompiled_bytes(input: Seq<u8>) -> Seq<u8> {
    let base_field = spec_len_field(input, 0);
    let exp_field = spec_len_field(input, 32);
    let mod_field = spec_len_field(input, 64);
    if base_field.1 || mod_field.1 {
        Seq::empty()
    } else if base_field.0 == 0 && mod_field.0 == 0 {
        Seq::empty()
    } else if exp_field.1 {
        Seq::empty()
    } else {
        let base = operand_bytes(input, 96, base_field.0);
        let exp = operand_bytes(input, 96 + base_field.0, exp_field.0);
        let modulus = operand_bytes(input, 96 + base_field.0 + exp_field.0, mod_field.0);
        let out = modexp_bytes(base, exp, modulus);
        if out.len() == mod_field.0 {
            out
        } else if out.len() < mod_field.0 {
            zero_bytes((mod_field.0 - out.len()) as nat) + out
        } else {
            Seq::empty()
        }
    }
}

/// Read one 32-byte length field with its overflow flag.
fn read_len_field(input: &[u8], from: usize) -> (r: (u64, bool))
    requires
        from <= 64,
    ensures
        (r.0 as nat, r.1) == spec_len_field(input@, from as nat),
{
    let len = input.len();
    let from0 = if from < len {
        from
    } else {
        len
    };
    let lo = if from + 24 < len {
        from + 24
    } else {
        len
    };
    let hi = if from + 32 < len {
        from + 32
    } else {
        len
    };
    let mut all_zero = true;
    let mut k = from0;
    while k < lo
        invariant
            from0 <= k <= lo <= input@.len(),
            all_zero <==> (forall|m: int| from0 <= m < k ==> input@[m] == 0),
        decreases lo - k,
    {
        if input[k] != 0 {
            all_zero = false;
        }
        k = k + 1;
    }
    let ghost window = input@.subrange(lo as int, hi as int);
    let mut v: u64 = 0;
    let mut k2 = lo;
    proof {
        assert(input@.subrange(lo as int, lo as int) =~= Seq::<u8>::empty());
    }
    while k2 < hi
        invariant
            lo <= k2 <= hi <= input@.len(),
            hi - lo <= 8,
            v as nat == be_value(input@.subrange(lo as int, k2 as int)),
            (v as nat) < bplace((k2 - lo) as nat),
        decreases hi - k2,
    {
        proof {
            let part = input@.subrange(lo as int, k2 as int);
            assert(input@.subrange(lo as int, k2 + 1) =~= part.push(input@[k2 as int]));
            lemma_be_value_push(part, input@[k2 as int]);
            assert(256 * (v as int) + 256 <= 256 * (bplace((k2 - lo) as nat) as int)) by {
                lemma_mul_inequality(v as int + 1, bplace((k2 - lo) as nat) as int, 256);
                lemma_mul_is_commutative(v as int + 1, 256);
                lemma_mul_is_commutative(bplace((k2 - lo) as nat) as int, 256);
            }
            assert(bplace((k2 + 1 - lo) as nat) == 256 * bplace((k2 - lo) as nat));
            lemma_bplace_mono((k2 + 1 - lo) as nat, 8);
            assert(bplace(8) == 0x1_0000_0000_0000_0000) by {
                reveal_with_fuel(bplace, 9);
            }
        }
        v = v * 256 + (input[k2] as u64);
        k2 = k2 + 1;
    }
    let w = hi - lo;
    let mut j = w;
    proof {
        lemma_mul_basics(v as int);
        assert(window == input@.subrange(lo as int, hi as int));
    }
    while j < 8
        invariant
            w <= j <= 8,
            w == window.len(),
            be_value(window) < bplace(w as nat),
            v as nat == be_value(window) * bplace((j - w) as nat),
        decreases 8 - j,
    {
        proof {
            let bv = be_value(window) as int;
            let q = bplace((j - w) as nat) as int;
            assert((bv * q) * 256 == bv * (256 * q)) by (nonlinear_arith);
            assert(bplace((j + 1 - w) as nat) == 256 * bplace((j - w) as nat));
            assert(bv * bplace((j + 1 - w) as nat) < bplace(w as nat) * bplace(
                (j + 1 - w) as nat,
            )) by {
                lemma_bplace_pos((j + 1 - w) as nat);
                lemma_mul_strict_inequality(
                    bv,
                    bplace(w as nat) as int,
                    bplace((j + 1 - w) as nat) as int,
                );
                lemma_mul_is_commutative(bv, bplace((j + 1 - w) as nat) as int);
                lemma_mul_is_commutative(bplace(w as nat) as int, bplace((j + 1 - w) as nat) as int);
            }
            lemma_bplace_adds(w as nat, (j + 1 - w) as nat);
            lemma_bplace_mono((j + 1) as nat, 8);
            assert(bplace(8) == 0x1_0000_0000_0000_0000) by {
                reveal_with_fuel(bplace, 9);
            }
        }
        v = v * 256;
        j = j + 1;
    }
    proof {
        lemma_be_value_bound(window);
    }
    let overflow = !(v < 0xffff_ffff && all_zero);
    (v, overflow)
}

/// Copy the operand region `[from, from + len)` out of the buffer,
/// zero-filling bytes past the buffer's end.
fn read_operand(input: &[u8], from: u64, len: u64) -> (r: Vec<u8>)
    requires
        len < 0xffff_ffff,
        from + len <= u64::MAX,
    ensures
        r@ == operand_bytes(input@, from as nat, len as nat),
{
    let n = len as usize;
    let mut out: Vec<u8> = Vec::new();
    let mut j: usize = 0;
    while j < n
        invariant
            j <= n,
            n == len as nat,
            from + len <= u64::MAX,
            out@.len() == j,
            forall|k: int|
                0 <= k < j ==> out@[k] == (if from + k < input@.len() {
                    input@[from + k]
                } else {
                    0u8
                }),
        decreases n - j,
    {
        let idx: u64 = from + (j as u64);
        if idx < input.len() as u64 {
            out.push(input[idx as usize]);
        } else {
            out.push(0);
        }
        j = j + 1;
    }
    proof {
        assert(out@ =~= operand_bytes(input@, from as nat, len as nat));
    }
    out
}

/// Decode the fixed three-field layout, run the exponentiation, and pad or
/// truncate the result to the declared modulus length. Malformed length
/// fields yield empty output.
pub fn modexp_precompiled_impl(input: &[u8]) -> (r: Rc<Vec<u8>>)
    ensures
        r@ == modexp_precompiled_bytes(input@),
{
    let (base_len, base_overflow) = read_len_field(input, 0);
    let (exp_len, exp_overflow) = read_len_field(input, 32);
    let (mod_len, mod_overflow) = read_len_field(input, 64);

    if base_overflow || mod_overflow {
        return Rc::new(Vec::new());
    }
    if base_len == 0 && mod_len == 0 {
        return Rc::new(Vec::new());
    }
    if exp_overflow {
        return Rc::new(Vec::new());
    }
    let base = read_operand(input, 96, base_len);
    let exponent = read_operand(input, 96 + base_len, exp_len);
    let modulus = read_operand(input, 96 + base_len + exp_len, mod_len);
    let bytes = modexp(base.as_slice(), exponent.as_slice(), modulus.as_slice());

    // The output is left padded to the same length as the modulus; a longer
    // result cannot occur since the modulus bounds it, but resolves to empty
    // output defensively.
    let blen = bytes.len();
    let ml = mod_len as usize;
    if blen == ml {
        Rc::new(bytes)
    } else if blen < ml {
        let mut ret: Vec<u8> = Vec::new();
        let mut j: usize = 0;
        while j < ml - blen
            invariant
                blen < ml,
                j <= ml - blen,
                ret@.len() == j,
                forall|k: int| 0 <= k < j ==> ret@[k] == 0u8,
            decreases ml - blen - j,
        {
            ret.push(0);
            j = j + 1;
        }
        let mut j2: usize = 0;
        while j2 < blen
            invariant
                blen < ml,
                j2 <= blen,
                blen == bytes@.len(),
                ret@.len() == (ml - blen) + j2,
                forall|k: int| 0 <= k < ml - blen ==> ret@[k] == 0u8,
                forall|k: int| 0 <= k < j2 ==> ret@[ml - blen + k] == bytes@[k],
            decreases blen - j2,
        {
            ret.push(bytes[j2]);
            j2 = j2 + 1;
        }
        proof {
            assert(ret@ =~= zero_bytes((ml - blen) as nat) + bytes@);
        }
        Rc::new(ret)
    } else {
        Rc::new(Vec::new())
    }
}

/// For a modulus greater than one, the result of the operation is strictly
/// below the modulus and congruent to `base ^ exp` modulo the modulus.
pub proof fn lemma_modexp_bounded(base: Seq<u8>, exp: Seq<u8>, modulus: Seq<u8>)
    requires
        be_value(modulus) > 1,
    ensures
        be_value(modexp_bytes(base, exp, modulus)) < be_value(modulus),
        (pow(be_value(base) as int, be_value(exp)) - be_value(modexp_bytes(base, exp, modulus)))
            % (be_value(modulus) as int) == 0,
{
    let b = be_value(base) as int;
    let e = be_value(exp);
    let m = be_value(modulus) as int;
    let p = pow(b, e);
    lemma_mod_bound(p, m);
    crate::codec::lemma_be_encode_value((p % m) as nat);
    lemma_fundamental_div_mod(p, m);
    lemma_mod_multiples_basic(p / m, m);
    lemma_mul_is_commutative(m, p / m);
}

/// The result of the operation never takes more bytes than the modulus:
/// the defensive empty-output branch for a longer result is unreachable.
pub proof fn lemma_modexp_fits_modulus_width(base: Seq<u8>, exp: Seq<u8>, modulus: Seq<u8>)
    ensures
        modexp_bytes(base, exp, modulus).len() <= modulus.len(),
{
    if be_value(modulus) != 0 {
        let m = be_value(modulus) as int;
        let x = pow(be_value(base) as int, be_value(exp));
        lemma_mod_bound(x, m);
        lemma_be_value_bound(modulus);
        crate::codec::lemma_be_encode_len((x % m) as nat, modulus.len());
    }
}

/// The operation's output is either empty or exactly as wide as the
/// declared modulus length.
pub proof fn lemma_precompiled_output_width(input: Seq<u8>)
    ensures
        modexp_precompiled_bytes(input).len() == 0 || modexp_precompiled_bytes(input).len()
            == spec_len_field(input, 64).0,
{
    let base_field = spec_len_field(input, 0);
    let exp_field = spec_len_field(input, 32);
    let mod_field = spec_len_field(input, 64);
    if !(base_field.1 || mod_field.1) && !(base_field.0 == 0 && mod_field.0 == 0)
        && !exp_field.1 {
        let base = operand_bytes(input, 96, base_field.0);
        let exp = operand_bytes(input, 96 + base_field.0, exp_field.0);
        let modulus = operand_bytes(input, 96 + base_field.0 + exp_field.0, mod_field.0);
        lemma_modexp_fits_modulus_width(base, exp, modulus);
    }
}

/// A zero exponent yields exactly the single byte `1` for any modulus
/// greater than one.
pub proof fn lemma_modexp_zero_exponent(base: Seq<u8>, exp: Seq<u8>, modulus: Seq<u8>)
    requires
        be_value(exp) == 0,
        be_value(modulus) > 1,
    ensures
        modexp_bytes(base, exp, modulus) == seq![1u8],
{
    lemma_pow0(be_value(base) as int);
    lemma_small_mod(1, be_value(modulus));
    assert(1nat / 256 == 0) by {
        lemma_basic_div(1, 256);
    }
    lemma_small_mod(1, 256);
    assert(be_encode(0nat) == Seq::<u8>::empty());
    assert(be_encode(1nat) == be_encode(1nat / 256).push((1nat % 256) as u8));
    assert(be_encode(1nat) =~= seq![1u8]);
}

/// A modulus of value zero yields the empty byte string, whatever the base
/// and exponent.
pub proof fn lemma_modexp_zero_modulus(base: Seq<u8>, exp: Seq<u8>, modulus: Seq<u8>)
    requires
        be_value(modulus) == 0,
    ensures
        modexp_bytes(base, exp, modulus) == Seq::<u8>::empty(),
{
}

/// A nonzero byte among the 24 most significant bytes of the base-length
/// field empties the output, whatever the rest of the buffer holds.
pub proof fn lemma_overflowed_base_len(input: Seq<u8>, i: int)
    requires
        0 <= i < 24,
        i < input.len(),
        input[i] != 0,
    ensures
        modexp_precompiled_bytes(input) == Seq::<u8>::empty(),
{
    assert(!(forall|k: int|
        clamp(0, input.len() as int) <= k < clamp(24, input.len() as int) ==> input[k] == 0)) by {
        assert(clamp(0, input.len() as int) <= i < clamp(24, input.len() as int));
    }
}

/// Declared zero base and modulus lengths give empty output, whatever the
/// exponent length field says.
pub proof fn lemma_zero_base_and_mod_len(input: Seq<u8>)
    requires
        spec_len_field(input, 0).0 == 0,
        spec_len_field(input, 64).0 == 0,
    ensures
        modexp_precompiled_bytes(input) == Seq::<u8>::empty(),
{
}

} // verus!
