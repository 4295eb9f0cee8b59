//! Modular exponentiation over big-endian byte strings, as a blockchain
//! virtual machine's MODEXP precompiled contract defines it: a pure function
//! from an input byte buffer to an output byte buffer, deterministic for
//! every input, including malformed ones.
//!
//! The arbitrary-precision engine is built from the ground up: [`value`]
//! holds the mathematical model of digit vectors and byte strings,
//! [`natural`] the normalized digit-vector number with comparison, addition
//! and subtraction, [`multiply`] the schoolbook product, [`divide`] long
//! division and modular reduction, and [`modpow`] the square-and-multiply
//! exponentiation. [`codec`] converts between byte strings and digit
//! vectors, and [`precompile`] decodes the three-field input layout with
//! overflow-safe length parsing and re-encodes the padded result.
//!
//! [`bytes`], [`types`], [`traits`], [`commit`] and [`update`] hold the
//! byte-level data model that the sibling precompiled operations share.

pub mod value;

pub mod natural;

pub mod multiply;

pub mod divide;

pub mod modpow;

pub mod codec;

pub mod precompile;

pub mod bytes;

pub mod types;

pub mod traits;

pub mod commit;

pub mod update;
