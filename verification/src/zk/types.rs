//! Curve points, scalars, proofs and verification keys, as raw bytes.

use vstd::prelude::*;

verus! {

/// A point of the first BN254 group, uncompressed (64 bytes).
#[derive(Clone, Copy, Debug)]
pub struct G1Point {
    pub bytes: [u8; 64],
}

/// A point of the second BN254 group, uncompressed (128 bytes).
#[derive(Clone, Copy, Debug)]
pub struct G2Point {
    pub bytes: [u8; 128],
}

/// A field element (32 bytes).
#[derive(Clone, Copy, Debug)]
pub struct Scalar {
    pub bytes: [u8; 32],
}

/// A Groth16 proof.
#[derive(Clone, Copy, Debug)]
pub struct Groth16Proof {
    pub a: G1Point,
    pub b: G2Point,
    pub c: G1Point,
}

/// A Groth16 verification key; `ic` holds one point more than the
/// circuit has public inputs.
#[derive(Clone, Debug)]
pub struct VerificationKey {
    pub alpha: G1Point,
    pub beta: G2Point,
    pub gamma: G2Point,
    pub delta: G2Point,
    pub ic: Vec<G1Point>,
}

/// The 32 bytes of the scalar that encodes `v`: its four bytes
/// little-endian, then zeros.
pub open spec fn u32_scalar_bytes(v: u32) -> Seq<u8> {
    seq![(v % 256) as u8, ((v / 256) % 256) as u8, ((v / 65536) % 256) as u8, ((v / 16777216) % 256) as u8]
        + Seq::new(28, |i: int| 0u8)
}

/// The scalar encoding `v` (little-endian in the low four bytes).
pub fn scalar_from_u32(v: u32) -> (s: Scalar)
    ensures
        s.bytes@ == u32_scalar_bytes(v),
{
    let b0 = (v % 256) as u8;
    let b1 = ((v / 256) % 256) as u8;
    let b2 = ((v / 65536) % 256) as u8;
    let b3 = ((v / 16777216) % 256) as u8;
    let s = Scalar {
        bytes: [b0, b1, b2, b3, 0, 0, 0, 0, 0, 0, 0, 0, 0, 0, 0, 0, 0, 0, 0, 0, 0, 0, 0, 0, 0, 0, 0, 0, 0, 0, 0, 0],
    };
    assert(s.bytes@ =~= u32_scalar_bytes(v));
    s
}

} // verus!
