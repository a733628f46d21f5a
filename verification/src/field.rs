//! Elements of the prime field the protocol runs over, held as canonical limbs.
//!
//! The arithmetic itself is done by `ark_ff` on the base field of BLS12-381.
//! This module states what each operation returns as a residue modulo the
//! field's prime, so that the protocol above it can be reasoned about over
//! natural numbers.

use vstd::prelude::*;
use vstd::arithmetic::power::pow;
use ark_ff::{BigInt, Field, PrimeField};
use ark_test_curves::bls12_381::Fq;
use rand::Rng;

verus! {

/// The field's modulus, a 381-bit prime.
pub open spec fn modulus() -> nat {
    4002409555221667393417789825735904156556882819939007885332058136124031650490837864442687629129015664037894272559787nat
}

/// Two to the power 64, the weight of one limb.
pub open spec fn limb_base() -> nat {
    0x1_0000_0000_0000_0000nat
}

/// The number that six little-endian limbs stand for.
pub open spec fn limbs_value(l: Seq<u64>) -> nat
    recommends
        l.len() == 6,
{
    let b = limb_base();
    (l[0] + b * (l[1] + b * (l[2] + b * (l[3] + b * (l[4] + b * l[5]))))) as nat
}

/// Sum of two residues.
pub open spec fn add_mod(a: nat, b: nat) -> nat {
    (a + b) % modulus()
}

/// Product of two residues.
pub open spec fn mul_mod(a: nat, b: nat) -> nat {
    (a * b) % modulus()
}

/// A residue raised to a power.
pub open spec fn pow_mod(a: nat, e: nat) -> nat {
    (pow(a as int, e) % (modulus() as int)) as nat
}

/// A field element: its residue below the modulus, as six little-endian limbs.
#[derive(Clone, Copy, Debug)]
pub struct Fe {
    pub limbs: [u64; 6],
}

impl View for Fe {
    type V = nat;

    open spec fn view(&self) -> nat {
        limbs_value(self.limbs@)
    }
}

impl Fe {
    /// The limbs stand for a residue below the modulus.
    pub open spec fn wf(&self) -> bool {
        self@ < modulus()
    }

    /// The element that a machine integer stands for. Every such integer is
    /// below the modulus, so it is its own residue.
    pub fn from_u64(n: u64) -> (r: Fe)
        ensures
            r.wf(),
            r@ == n,
    {
        Fe { limbs: [n, 0, 0, 0, 0, 0] }
    }

    /// Whether the limbs stand for a residue below the modulus: they are
    /// compared with the modulus from the most significant limb down.
    pub fn is_canonical(&self) -> (r: bool)
        ensures
            r == self.wf(),
    {
        let l = &self.limbs;
        if l[5] != 0x1a0111ea397fe69a {
            l[5] < 0x1a0111ea397fe69a
        } else if l[4] != 0x4b1ba7b6434bacd7 {
            l[4] < 0x4b1ba7b6434bacd7
        } else if l[3] != 0x64774b84f38512bf {
            l[3] < 0x64774b84f38512bf
        } else if l[2] != 0x6730d2a0f6b0f624 {
            l[2] < 0x6730d2a0f6b0f624
        } else if l[1] != 0x1eabfffeb153ffff {
            l[1] < 0x1eabfffeb153ffff
        } else {
            l[0] < 0xb9feffffffffaaab
        }
    }

    /// The additive identity.
    pub fn zero() -> (r: Fe)
        ensures
            r.wf(),
            r@ == 0,
    {
        Fe::from_u64(0)
    }

    /// The multiplicative identity.
    pub fn one() -> (r: Fe)
        ensures
            r.wf(),
            r@ == 1,
    {
        Fe::from_u64(1)
    }

    /// Whether two elements are the same residue.
    pub fn equals(&self, other: &Fe) -> (r: bool)
        ensures
            r == (self@ == other@),
    {
        let r = self.limbs[0] == other.limbs[0] && self.limbs[1] == other.limbs[1]
            && self.limbs[2] == other.limbs[2] && self.limbs[3] == other.limbs[3]
            && self.limbs[4] == other.limbs[4] && self.limbs[5] == other.limbs[5];
        proof {
            lemma_limbs_injective(self.limbs@, other.limbs@);
        }
        r
    }

    /// Whether the element is zero.
    pub fn is_zero(&self) -> (r: bool)
        ensures
            r == (self@ == 0),
    {
        let z = Fe::zero();
        self.equals(&z)
    }

    /// The element that a signed integer stands for. Calls `From<i128>` of
    /// `ark_ff::Fp`, which takes the absolute value into the field and negates
    /// it for a negative argument: the residue of the integer.
    #[verifier::external_body]
    pub(crate) fn from_i128(n: i128) -> (r: Fe)
        ensures
            r.wf(),
            r@ == (n as int) % (modulus() as int),
    {
        Fe { limbs: Fq::from(n).into_bigint().0 }
    }

    /// Sum of two elements. Calls `Add` of `ark_ff::Fp`, which adds modulo the
    /// field's modulus. The limbs go in through `PrimeField::from_bigint`,
    /// which takes a residue below the modulus, and come back through
    /// `PrimeField::into_bigint`, which yields the canonical residue.
    #[verifier::external_body]
    pub(crate) fn add(&self, other: &Fe) -> (r: Fe)
        requires
            self.wf(),
            other.wf(),
        ensures
            r.wf(),
            r@ == add_mod(self@, other@),
    {
        let x = Fq::from_bigint(BigInt::new(self.limbs)).unwrap();
        let y = Fq::from_bigint(BigInt::new(other.limbs)).unwrap();
        Fe { limbs: (x + y).into_bigint().0 }
    }

    /// Product of two elements. Calls `Mul` of `ark_ff::Fp`, which multiplies
    /// modulo the field's modulus; limbs are converted as in `add`.
    #[verifier::external_body]
    pub(crate) fn mul(&self, other: &Fe) -> (r: Fe)
        requires
            self.wf(),
            other.wf(),
        ensures
            r.wf(),
            r@ == mul_mod(self@, other@),
    {
        let x = Fq::from_bigint(BigInt::new(self.limbs)).unwrap();
        let y = Fq::from_bigint(BigInt::new(other.limbs)).unwrap();
        Fe { limbs: (x * y).into_bigint().0 }
    }

    /// An element raised to a power. Calls `Field::pow` of `ark_ff` with a
    /// one-limb exponent, which squares and multiplies in the field; limbs are
    /// converted as in `add`.
    #[verifier::external_body]
    pub(crate) fn pow(&self, e: u64) -> (r: Fe)
        requires
            self.wf(),
        ensures
            r.wf(),
            r@ == pow_mod(self@, e as nat),
    {
        let x = Fq::from_bigint(BigInt::new(self.limbs)).unwrap();
        Fe { limbs: x.pow([e]).into_bigint().0 }
    }

    /// A field element drawn by the thread's random generator. Calls
    /// `Rng::gen` of `rand` for `ark_ff::Fp`, which samples until the draw is
    /// below the modulus. Nothing but that bound is known of the result.
    #[verifier::external_body]
    pub(crate) fn random() -> (r: Fe)
        ensures
            r.wf(),
    {
        let x: Fq = rand::thread_rng().gen();
        Fe { limbs: x.into_bigint().0 }
    }
}

/// Six limbs are determined by the number they stand for.
pub proof fn lemma_limbs_injective(a: Seq<u64>, b: Seq<u64>)
    requires
        a.len() == 6,
        b.len() == 6,
    ensures
        limbs_value(a) == limbs_value(b) <==> (forall|i: int| 0 <= i < 6 ==> a[i] == b[i]),
{
    let base = limb_base() as int;
    if limbs_value(a) == limbs_value(b) {
        lemma_split(a[0] as int, (a[1] + base * (a[2] + base * (a[3] + base * (a[4] + base * a[5])))) as int,
            b[0] as int, (b[1] + base * (b[2] + base * (b[3] + base * (b[4] + base * b[5])))) as int);
        lemma_split(a[1] as int, (a[2] + base * (a[3] + base * (a[4] + base * a[5]))) as int,
            b[1] as int, (b[2] + base * (b[3] + base * (b[4] + base * b[5]))) as int);
        lemma_split(a[2] as int, (a[3] + base * (a[4] + base * a[5])) as int,
            b[2] as int, (b[3] + base * (b[4] + base * b[5])) as int);
        lemma_split(a[3] as int, (a[4] + base * a[5]) as int,
            b[3] as int, (b[4] + base * b[5]) as int);
        lemma_split(a[4] as int, a[5] as int, b[4] as int, b[5] as int);
    }
}

/// A number splits in one way into a low limb and the rest.
proof fn lemma_split(lo1: int, hi1: int, lo2: int, hi2: int)
    requires
        0 <= lo1 < limb_base(),
        0 <= lo2 < limb_base(),
        lo1 + limb_base() * hi1 == lo2 + limb_base() * hi2,
    ensures
        lo1 == lo2,
        hi1 == hi2,
{
}

} // verus!
