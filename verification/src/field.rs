//! The scalar field of the curve BN254, over which the constraint systems of this
//! crate are built. Elements are kept as their canonical integer in four 64-bit
//! limbs, the least significant limb first; the arithmetic is that of `ark_ff`.
use vstd::prelude::*;
use vstd::arithmetic::power2::*;
use ark_ff::{AdditiveGroup, BigInt, BigInteger, PrimeField};

verus! {

/// The order of the field, a prime of 254 bits.
pub open spec fn modulus() -> nat {
    21888242871839275222246405745257275088548364400416034343698204186575808495617nat
}

/// The integer that four limbs stand for.
pub open spec fn limbs_value(limbs: [u64; 4]) -> nat {
    (limbs[0] + 0x1_0000_0000_0000_0000int * limbs[1]
        + 0x1_0000_0000_0000_0000_0000_0000_0000_0000int * limbs[2]
        + 0x1_0000_0000_0000_0000_0000_0000_0000_0000_0000_0000_0000_0000int * limbs[3]) as nat
}

/// An element of the scalar field.
#[derive(Clone, Copy, Debug, PartialEq, Eq)]
pub struct Fr {
    pub limbs: [u64; 4],
}

impl View for Fr {
    type V = nat;

    open spec fn view(&self) -> nat {
        limbs_value(self.limbs)
    }
}

impl Fr {
    /// The limbs hold the canonical integer of the element, the one below the
    /// order of the field.
    pub open spec fn wf(self) -> bool {
        self@ < modulus()
    }

    /// The neutral element of addition.
    pub fn zero() -> (r: Fr)
        ensures
            r.wf(),
            r@ == 0,
    {
        Fr { limbs: [0, 0, 0, 0] }
    }

    /// The neutral element of multiplication.
    pub fn one() -> (r: Fr)
        ensures
            r.wf(),
            r@ == 1,
    {
        Fr { limbs: [1, 0, 0, 0] }
    }

    /// Whether the element is one.
    pub fn is_one(&self) -> (r: bool)
        ensures
            r == (self@ == 1),
    {
        self.limbs[0] == 1 && self.limbs[1] == 0 && self.limbs[2] == 0 && self.limbs[3] == 0
    }
}

/// The integers of field elements.
pub open spec fn integers(xs: Seq<Fr>) -> Seq<nat> {
    xs.map_values(|x: Fr| x@)
}

/// Every one of `xs` is the canonical integer of an element.
pub open spec fn all_elements(xs: Seq<nat>) -> bool {
    forall|i: int| 0 <= i < xs.len() ==> #[trigger] xs[i] < modulus()
}

/// Every one of `xs` is a well-formed element.
pub open spec fn all_wf(xs: Seq<Fr>) -> bool {
    forall|i: int| 0 <= i < xs.len() ==> (#[trigger] xs[i]).wf()
}

/// `Fr::from` of `ark_ff` for `u64`, which is below the order of the field: the
/// element of that integer.
#[verifier::external_body]
pub(crate) fn fr_from_u64(x: u64) -> (r: Fr)
    ensures
        r.wf(),
        r@ == x,
{
    Fr { limbs: ark_bn254::Fr::from(x).into_bigint().0 }
}

/// `MulAssign` of `ark_ff`'s `Fr`: the product in the field.
#[verifier::external_body]
pub(crate) fn fr_mul(a: &Fr, b: &Fr) -> (r: Fr)
    requires
        a.wf(),
        b.wf(),
    ensures
        r.wf(),
        r@ == (a@ * b@) % modulus(),
{
    let mut x = ark_bn254::Fr::from_bigint(BigInt(a.limbs)).unwrap();
    x *= ark_bn254::Fr::from_bigint(BigInt(b.limbs)).unwrap();
    Fr { limbs: x.into_bigint().0 }
}

/// `AdditiveGroup::double_in_place` of `ark_ff`'s `Fr`: the sum of the element with
/// itself in the field.
#[verifier::external_body]
pub(crate) fn fr_double(a: &Fr) -> (r: Fr)
    requires
        a.wf(),
    ensures
        r.wf(),
        r@ == (2 * a@) % modulus(),
{
    let mut x = ark_bn254::Fr::from_bigint(BigInt(a.limbs)).unwrap();
    x.double_in_place();
    Fr { limbs: x.into_bigint().0 }
}

/// `BigInteger::get_bit` of `ark_ff`: bit `i` of the canonical integer, counted from
/// the least significant one; beyond the limbs every bit is zero.
#[verifier::external_body]
pub(crate) fn fr_bit(a: &Fr, i: usize) -> (r: bool)
    ensures
        r == ((a@ / pow2(i as nat)) % 2 == 1),
{
    BigInt(a.limbs).get_bit(i)
}

} // verus!
