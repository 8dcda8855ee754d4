//! Elements of the BLS12-381 scalar field, held by the four 64-bit
//! little-endian limbs of their canonical (fully reduced) integer
//! representative. Field subtraction and multiplication are carried out by
//! `ark_bls12_381::Fr`; everything else — zero and one tests, construction
//! from small integers, and big-endian serialization — works directly on the
//! limbs and is verified.

use vstd::arithmetic::div_mod::{lemma_fundamental_div_mod, lemma_mod_bound, lemma_mod_multiples_vanish, lemma_small_mod};
use vstd::prelude::*;

use ark_ff::PrimeField;

verus! {

/// The order of the BLS12-381 scalar field.
pub open spec fn fr_order() -> nat {
    0x73eda753299d7d483339d80809a1d80553bda402fffe5bfeffffffff00000001nat
}

/// `(a - b) mod r` over canonical representatives.
pub open spec fn f_sub(a: nat, b: nat) -> nat {
    ((a - b) % (fr_order() as int)) as nat
}

/// `(a * b) mod r` over canonical representatives.
pub open spec fn f_mul(a: nat, b: nat) -> nat {
    (((a * b) as int) % (fr_order() as int)) as nat
}

/// The unique affine line through `(0, a)` and `(1, b)`, evaluated at `r`:
/// `(1 - r) * a + r * b`, computed as `a - r * (a - b)`.
pub open spec fn f_interp(r: nat, a: nat, b: nat) -> nat {
    f_sub(a, f_mul(r, f_sub(a, b)))
}

/// An element of the BLS12-381 scalar field: `l0` is the least significant
/// limb of the canonical representative.
#[derive(Clone, Copy, Debug, PartialEq, Eq, Structural)]
pub struct Felt {
    l0: u64,
    l1: u64,
    l2: u64,
    l3: u64,
}

impl Felt {
    /// The canonical integer representative of this element.
    pub closed spec fn value(self) -> nat {
        (self.l0 + self.l1 * 0x10000000000000000 + self.l2 * 0x100000000000000000000000000000000
            + self.l3 * 0x1000000000000000000000000000000000000000000000000nat) as nat
    }

    /// A well-formed element's representative is fully reduced.
    pub open spec fn wf(self) -> bool {
        self.value() < fr_order()
    }

    /// Embeds a machine integer into the field.
    pub fn from_u64(x: u64) -> (r: Felt)
        ensures
            r.wf(),
            r.value() == x,
    {
        Felt { l0: x, l1: 0, l2: 0, l3: 0 }
    }

    /// Whether this element is the field's zero.
    pub fn is_zero(&self) -> (r: bool)
        ensures
            r == (self.value() == 0),
    {
        self.l0 == 0 && self.l1 == 0 && self.l2 == 0 && self.l3 == 0
    }

    /// Whether this element is the field's one.
    pub fn is_one(&self) -> (r: bool)
        ensures
            r == (self.value() == 1),
    {
        self.l0 == 1 && self.l1 == 0 && self.l2 == 0 && self.l3 == 0
    }

    /// Relies on `ark_bls12_381::Fr`: subtraction in the prime field of order
    /// `fr_order()` subtracts the canonical representatives modulo that order,
    /// and `PrimeField::from_bigint` / `into_bigint` convert between a reduced
    /// little-endian limb representation and the field element.
    #[verifier::external_body]
    pub fn sub(&self, other: &Felt) -> (r: Felt)
        requires
            self.wf(),
            other.wf(),
        ensures
            r.wf(),
            r.value() == f_sub(self.value(), other.value()),
    {
        let a = ark_bls12_381::Fr::from_bigint(ark_ff::BigInt([self.l0, self.l1, self.l2, self.l3])).unwrap();
        let b = ark_bls12_381::Fr::from_bigint(ark_ff::BigInt([other.l0, other.l1, other.l2, other.l3])).unwrap();
        let c = (a - b).into_bigint().0;
        Felt { l0: c[0], l1: c[1], l2: c[2], l3: c[3] }
    }

    /// Relies on `ark_bls12_381::Fr`: multiplication in the prime field of
    /// order `fr_order()` multiplies the canonical representatives modulo that
    /// order, and `PrimeField::from_bigint` / `into_bigint` convert between a
    /// reduced little-endian limb representation and the field element.
    #[verifier::external_body]
    pub fn mul(&self, other: &Felt) -> (r: Felt)
        requires
            self.wf(),
            other.wf(),
        ensures
            r.wf(),
            r.value() == f_mul(self.value(), other.value()),
    {
        let a = ark_bls12_381::Fr::from_bigint(ark_ff::BigInt([self.l0, self.l1, self.l2, self.l3])).unwrap();
        let b = ark_bls12_381::Fr::from_bigint(ark_ff::BigInt([other.l0, other.l1, other.l2, other.l3])).unwrap();
        let c = (a * b).into_bigint().0;
        Felt { l0: c[0], l1: c[1], l2: c[2], l3: c[3] }
    }

    /// The canonical representative as 32 bytes, most significant first.
    pub fn to_be_bytes(&self) -> (r: Vec<u8>)
        ensures
            r@ == felt_be_bytes(*self),
            r@.len() == 32,
    {
        let mut out: Vec<u8> = Vec::new();
        push_u64_be(&mut out, self.l3);
        push_u64_be(&mut out, self.l2);
        push_u64_be(&mut out, self.l1);
        push_u64_be(&mut out, self.l0);
        proof {
            assert(out@ =~= felt_be_bytes(*self));
        }
        out
    }
}

/// The eight bytes of `x`, most significant first.
pub open spec fn u64_be_bytes(x: u64) -> Seq<u8> {
    seq![
        ((x >> 56) & 0xff) as u8,
        ((x >> 48) & 0xff) as u8,
        ((x >> 40) & 0xff) as u8,
        ((x >> 32) & 0xff) as u8,
        ((x >> 24) & 0xff) as u8,
        ((x >> 16) & 0xff) as u8,
        ((x >> 8) & 0xff) as u8,
        (x & 0xff) as u8,
    ]
}

/// The 32 bytes of an element's canonical representative, most significant
/// first.
pub closed spec fn felt_be_bytes(f: Felt) -> Seq<u8> {
    u64_be_bytes(f.l3) + u64_be_bytes(f.l2) + u64_be_bytes(f.l1) + u64_be_bytes(f.l0)
}

fn push_u64_be(out: &mut Vec<u8>, x: u64)
    ensures
        final(out)@ == old(out)@ + u64_be_bytes(x),
{
    out.push(((x >> 56) & 0xff) as u8);
    out.push(((x >> 48) & 0xff) as u8);
    out.push(((x >> 40) & 0xff) as u8);
    out.push(((x >> 32) & 0xff) as u8);
    out.push(((x >> 24) & 0xff) as u8);
    out.push(((x >> 16) & 0xff) as u8);
    out.push(((x >> 8) & 0xff) as u8);
    out.push((x & 0xff) as u8);
    proof {
        assert(out@ =~= old(out)@ + u64_be_bytes(x));
    }
}

/// The line through `(0, a)` and `(1, b)` passes through `(0, a)`: evaluating
/// at the field's zero selects `a` outright.
pub proof fn lemma_interp_at_zero(a: nat, b: nat)
    requires
        a < fr_order(),
        b < fr_order(),
    ensures
        f_interp(0, a, b) == a,
{
    let d = f_sub(a, b);
    assert(0 * d == 0);
    lemma_small_mod(0, fr_order());
    assert(f_mul(0, d) == 0);
    lemma_small_mod(a, fr_order());
}

/// The line through `(0, a)` and `(1, b)` passes through `(1, b)`: evaluating
/// at the field's one selects `b` outright.
pub proof fn lemma_interp_at_one(a: nat, b: nat)
    requires
        a < fr_order(),
        b < fr_order(),
    ensures
        f_interp(1, a, b) == b,
{
    let m = fr_order() as int;
    let d = f_sub(a, b);
    lemma_mod_bound(a - b, m);
    lemma_small_mod(d, fr_order());
    assert(1 * d == d);
    assert(f_mul(1, d) == d);
    // a - b == m * q + d for the quotient q, so a - d == b + m * q.
    lemma_fundamental_div_mod(a - b, m);
    let q = (a - b) / m;
    assert(a - d == b + m * q);
    lemma_mod_multiples_vanish(q, b as int, m);
    lemma_small_mod(b, fr_order());
}

} // verus!
