//! Fixed-width byte strings for serialized group elements and scalar field
//! elements, with the validating conversions from raw byte slices.

use crate::value::zero_bytes;
use vstd::arithmetic::div_mod::lemma_fundamental_div_mod;
use vstd::arithmetic::mul::{lemma_mul_inequality, lemma_mul_is_commutative};
use vstd::prelude::*;

verus! {

/// A validation failure on raw bytes for commitments or scalars.
#[derive(Debug, Clone)]
pub enum Error {
    CommitmentLengthError { len: usize },
    CommitmentsLengthNotAligned { len: usize },
    ScalarSizeTooBig { size: u8 },
    ScalarLengthError { size: u8, len: usize },
    ScalarsLengthNotAligned { size: u8, len: usize },
}

/// A serialized uncompressed group element
pub type CommitmentBytes = [u8; 64];

pub type CommitmentBytesCompressed = [u8; 32];

/// A serialized scalar field element
pub type ScalarBytes = [u8; 32];

/// This is the identity element of the group
pub const ZERO_COMMITMENT: CommitmentBytes = [
    0, 0, 0, 0, 0, 0, 0, 0, 0, 0, 0, 0, 0, 0, 0, 0,  // 0-15
    0, 0, 0, 0, 0, 0, 0, 0, 0, 0, 0, 0, 0, 0, 0, 0,  // 15-31
    1, 0, 0, 0, 0, 0, 0, 0, 0, 0, 0, 0, 0, 0, 0, 0,  // 32-47
    0, 0, 0, 0, 0, 0, 0, 0, 0, 0, 0, 0, 0, 0, 0, 0,  // 48-64
];

pub const ZERO_SCALAR: ScalarBytes = [
    0, 0, 0, 0, 0, 0, 0, 0, 0, 0, 0, 0, 0, 0, 0, 0, // 0-15
    0, 0, 0, 0, 0, 0, 0, 0, 0, 0, 0, 0, 0, 0, 0, 0, // 16-31
];

/// Exactly 64 bytes make a commitment; anything else is a length error.
pub fn try_commitment_from(data: &[u8]) -> (r: Result<CommitmentBytes, Error>)
    ensures
        data@.len() == 64 ==> (r matches Ok(c) && c@ == data@),
        data@.len() != 64 ==> (r matches Err(Error::CommitmentLengthError { len }) && len
            == data@.len()),
{
    if data.len() != 64 {
        return Err(Error::CommitmentLengthError { len: data.len() });
    }
    let mut out: CommitmentBytes = [0u8; 64];
    let mut i: usize = 0;
    while i < 64
        invariant
            i <= 64,
            data@.len() == 64,
            out@.len() == 64,
            forall|k: int| 0 <= k < i ==> out@[k] == data@[k],
        decreases 64 - i,
    {
        out[i] = data[i];
        i = i + 1;
    }
    proof {
        assert(out@ =~= data@);
    }
    Ok(out)
}

/// Split a byte string into 64-byte commitments; a remainder is an
/// alignment error.
pub fn try_commitment_vec_from(data: &[u8]) -> (r: Result<Vec<CommitmentBytes>, Error>)
    ensures
        data@.len() % 64 == 0 ==> (r matches Ok(v) && v@.len() == data@.len() / 64 && (forall|
            i: int,
        |
            0 <= i < v@.len() ==> v@[i]@ == data@.subrange(64 * i, 64 * i + 64))),
        data@.len() % 64 != 0 ==> (r matches Err(Error::CommitmentsLengthNotAligned { len }) && len
            == data@.len()),
{
    if data.len() % 64 != 0 {
        return Err(Error::CommitmentsLengthNotAligned { len: data.len() });
    }
    let n = data.len() / 64;
    proof {
        lemma_fundamental_div_mod(data@.len() as int, 64);
    }
    let mut ret: Vec<CommitmentBytes> = Vec::new();
    let mut c: usize = 0;
    while c < n
        invariant
            c <= n,
            n == data@.len() / 64,
            data@.len() == 64 * n,
            data@.len() <= usize::MAX,
            ret@.len() == c,
            forall|i: int| 0 <= i < c ==> ret@[i]@ == data@.subrange(64 * i, 64 * i + 64),
        decreases n - c,
    {
        proof {
            lemma_mul_inequality(c + 1, n as int, 64);
            lemma_mul_is_commutative(c + 1, 64);
            lemma_mul_is_commutative(n as int, 64);
            assert((c + 1) * 64 == c * 64 + 64) by (nonlinear_arith);
            assert(c * 64 + 64 <= data@.len());
        }
        let base = c * 64;
        let mut arr: CommitmentBytes = [0u8; 64];
        let mut i: usize = 0;
        while i < 64
            invariant
                i <= 64,
                base == c * 64,
                base + 64 <= data@.len(),
                data@.len() <= usize::MAX,
                arr@.len() == 64,
                forall|k: int| 0 <= k < i ==> arr@[k] == data@[base + k],
            decreases 64 - i,
        {
            arr[i] = data[base + i];
            i = i + 1;
        }
        ret.push(arr);
        proof {
            assert(arr@ =~= data@.subrange(64 * (c as int), 64 * (c as int) + 64));
        }
        c = c + 1;
    }
    Ok(ret)
}

/// A scalar of a declared size up to 32 bytes, zero-padded at the high end
/// to the fixed 32-byte width.
pub fn try_scalar_from(size: u8, data: &[u8]) -> (r: Result<ScalarBytes, Error>)
    ensures
        size > 32 ==> (r matches Err(Error::ScalarSizeTooBig { size: s }) && s == size),
        size <= 32 && data@.len() != size ==> (r matches Err(Error::ScalarLengthError {
            size: s,
            len,
        }) && s == size && len == data@.len()),
        size <= 32 && data@.len() == size ==> (r matches Ok(a) && a@ == data@ + zero_bytes(
            (32 - size) as nat,
        )),
{
    if size > 32 {
        return Err(Error::ScalarSizeTooBig { size });
    }
    if data.len() != size as usize {
        return Err(Error::ScalarLengthError { size, len: data.len() });
    }
    let mut out: ScalarBytes = [0u8; 32];
    let mut i: usize = 0;
    while i < size as usize
        invariant
            i <= size as int,
            size <= 32,
            data@.len() == size,
            out@.len() == 32,
            forall|k: int| 0 <= k < i ==> out@[k] == data@[k],
            forall|k: int| i <= k < 32 ==> out@[k] == 0u8,
        decreases size - i,
    {
        out[i] = data[i];
        i = i + 1;
    }
    proof {
        assert(out@ =~= data@ + zero_bytes((32 - size) as nat));
    }
    Ok(out)
}

/// Split a byte string into scalars of a declared size, each zero-padded to
/// the fixed 32-byte width; a remainder is an alignment error.
pub fn try_scalar_vec_from(size: u8, data: &[u8]) -> (r: Result<Vec<ScalarBytes>, Error>)
    requires
        size >= 1,
    ensures
        size > 32 ==> (r matches Err(Error::ScalarSizeTooBig { size: s }) && s == size),
        size <= 32 && data@.len() % (size as nat) != 0 ==> (r matches Err(
            Error::ScalarsLengthNotAligned { size: s, len },
        ) && s == size && len == data@.len()),
        size <= 32 && data@.len() % (size as nat) == 0 ==> (r matches Ok(v) && v@.len()
            == data@.len() / (size as nat) && (forall|i: int|
            0 <= i < v@.len() ==> v@[i]@ == data@.subrange(size * i, size * i + size) + zero_bytes(
                (32 - size) as nat,
            ))),
{
    if size > 32 {
        return Err(Error::ScalarSizeTooBig { size });
    }
    let step = size as usize;
    if data.len() % step != 0 {
        return Err(Error::ScalarsLengthNotAligned { size, len: data.len() });
    }
    let n = data.len() / step;
    proof {
        lemma_fundamental_div_mod(data@.len() as int, step as int);
    }
    let mut ret: Vec<ScalarBytes> = Vec::new();
    let mut c: usize = 0;
    while c < n
        invariant
            c <= n,
            1 <= step <= 32,
            step == size as int,
            n == data@.len() / (step as nat),
            data@.len() == (step as int) * n,
            data@.len() <= usize::MAX,
            ret@.len() == c,
            forall|i: int|
                0 <= i < c ==> ret@[i]@ == data@.subrange(
                    (step as int) * i,
                    (step as int) * i + (step as nat),
                ) + zero_bytes((32 - step) as nat),
        decreases n - c,
    {
        proof {
            lemma_mul_inequality(c + 1, n as int, step as int);
            lemma_mul_is_commutative(c + 1, step as int);
            lemma_mul_is_commutative(n as int, step as int);
            assert((c + 1) * (step as int) == c * (step as int) + step) by (nonlinear_arith);
            assert(c * (step as int) + step <= data@.len());
        }
        let base = c * step;
        let mut arr: ScalarBytes = [0u8; 32];
        let mut i: usize = 0;
        while i < step
            invariant
                i <= step,
                1 <= step <= 32,
                base == c * step,
                base + step <= data@.len(),
                data@.len() <= usize::MAX,
                arr@.len() == 32,
                forall|k: int| 0 <= k < i ==> arr@[k] == data@[base + k],
                forall|k: int| i <= k < 32 ==> arr@[k] == 0u8,
            decreases step - i,
        {
            arr[i] = data[base + i];
            i = i + 1;
        }
        ret.push(arr);
        proof {
            assert(arr@ =~= data@.subrange(
                (step as int) * (c as int),
                (step as int) * (c as int) + (step as nat),
            ) + zero_bytes((32 - step) as nat));
        }
        c = c + 1;
    }
    Ok(ret)
}

} // verus!
