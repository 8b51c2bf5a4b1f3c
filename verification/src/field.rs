//! Scalars of the BN254 pairing curve's prime-order group.
//!
//! A scalar is held in canonical form as four little-endian 64-bit limbs,
//! so that contracts can speak of its value as a mathematical integer.
//! The modular arithmetic itself is done by the arkworks field library.

use vstd::prelude::*;
use vstd::arithmetic::div_mod::lemma_fundamental_div_mod_converse;

verus! {

/// The order of the BN254 scalar field: every scalar is a residue mod this
/// prime.
pub open spec fn fr_order() -> nat {
    21888242871839275222246405745257275088548364400416034343698204186575808495617nat
}

/// One element of the BN254 scalar field, as canonical little-endian
/// 64-bit limbs.
#[derive(Debug, Clone, Copy, PartialEq, Eq, Structural)]
pub struct Fr {
    pub l0: u64,
    pub l1: u64,
    pub l2: u64,
    pub l3: u64,
}

impl Fr {
    /// The integer this scalar stands for.
    pub open spec fn value(self) -> nat {
        (self.l0 as nat) + 0x1_0000_0000_0000_0000nat * ((self.l1 as nat)
            + 0x1_0000_0000_0000_0000nat * ((self.l2 as nat)
            + 0x1_0000_0000_0000_0000nat * (self.l3 as nat)))
    }

    /// Canonical form: the limbs encode a residue, not an alias of one.
    pub open spec fn wf(self) -> bool {
        self.value() < fr_order()
    }
}

/// Two limb vectors with the same value are the same limb vector: the
/// base-2^64 digits of an integer are unique.
pub proof fn lemma_value_injective(a: Fr, b: Fr)
    requires
        a.value() == b.value(),
    ensures
        a == b,
{
    let p: int = 0x1_0000_0000_0000_0000int;
    let ra: int = (a.l1 as int) + p * ((a.l2 as int) + p * (a.l3 as int));
    let rb: int = (b.l1 as int) + p * ((b.l2 as int) + p * (b.l3 as int));
    lemma_fundamental_div_mod_converse(a.value() as int, p, ra, a.l0 as int);
    lemma_fundamental_div_mod_converse(b.value() as int, p, rb, b.l0 as int);
    let sa: int = (a.l2 as int) + p * (a.l3 as int);
    let sb: int = (b.l2 as int) + p * (b.l3 as int);
    lemma_fundamental_div_mod_converse(ra, p, sa, a.l1 as int);
    lemma_fundamental_div_mod_converse(rb, p, sb, b.l1 as int);
    lemma_fundamental_div_mod_converse(sa, p, a.l3 as int, a.l2 as int);
    lemma_fundamental_div_mod_converse(sb, p, b.l3 as int, b.l2 as int);
}

/// The scalar standing for a small integer.
pub fn fr_from_u64(v: u64) -> (r: Fr)
    ensures
        r.wf(),
        r.value() == v as nat,
{
    Fr { l0: v, l1: 0, l2: 0, l3: 0 }
}

/// The zero scalar.
pub fn fr_zero() -> (r: Fr)
    ensures
        r.wf(),
        r.value() == 0,
{
    Fr { l0: 0, l1: 0, l2: 0, l3: 0 }
}

/// The one scalar.
pub fn fr_one() -> (r: Fr)
    ensures
        r.wf(),
        r.value() == 1,
{
    Fr { l0: 1, l1: 0, l2: 0, l3: 0 }
}

/// Whether two scalars stand for the same residue. Canonical form makes
/// this a limb comparison.
pub fn fr_eq(a: &Fr, b: &Fr) -> (r: bool)
    ensures
        r <==> a.value() == b.value(),
{
    proof {
        if a.value() == b.value() {
            lemma_value_injective(*a, *b);
        }
    }
    a.l0 == b.l0 && a.l1 == b.l1 && a.l2 == b.l2 && a.l3 == b.l3
}

/// Relies on `ark_bn254::Fr` addition together with
/// `ark_ff::PrimeField::from_bigint` / `into_bigint`: the canonical forms
/// round-trip, and the sum is the residue of the integer sum mod the
/// field order.
#[verifier::external_body]
pub fn fr_add(a: &Fr, b: &Fr) -> (r: Fr)
    requires
        a.wf(),
        b.wf(),
    ensures
        r.wf(),
        r.value() == (a.value() + b.value()) % fr_order(),
{
    let x = ark_bn254::Fr::from(ark_ff::BigInt::new([a.l0, a.l1, a.l2, a.l3]));
    let y = ark_bn254::Fr::from(ark_ff::BigInt::new([b.l0, b.l1, b.l2, b.l3]));
    let z = ark_ff::PrimeField::into_bigint(x + y).0;
    Fr { l0: z[0], l1: z[1], l2: z[2], l3: z[3] }
}

/// Relies on `ark_bn254::Fr` multiplication together with
/// `ark_ff::PrimeField::from_bigint` / `into_bigint`: the canonical forms
/// round-trip, and the product is the residue of the integer product mod
/// the field order.
#[verifier::external_body]
pub fn fr_mul(a: &Fr, b: &Fr) -> (r: Fr)
    requires
        a.wf(),
        b.wf(),
    ensures
        r.wf(),
        r.value() == (a.value() * b.value()) % fr_order(),
{
    let x = ark_bn254::Fr::from(ark_ff::BigInt::new([a.l0, a.l1, a.l2, a.l3]));
    let y = ark_bn254::Fr::from(ark_ff::BigInt::new([b.l0, b.l1, b.l2, b.l3]));
    let z = ark_ff::PrimeField::into_bigint(x * y).0;
    Fr { l0: z[0], l1: z[1], l2: z[2], l3: z[3] }
}

} // verus!
