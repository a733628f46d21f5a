//! The claim (a sparse multivariate polynomial) and the round polynomials
//! (sparse univariate polynomials), held as plain vectors.
//!
//! Storage, addition and evaluation are done by `ark_poly`. What each call
//! returns is stated here over integers: a polynomial's value at a point is an
//! integer sum of products, and the field element that comes back is that
//! integer's residue.

use vstd::prelude::*;
use vstd::arithmetic::power::pow;
use ark_ff::{BigInt, PrimeField};
use ark_poly::polynomial::multivariate::Term;
use ark_poly::{DenseMVPolynomial, Polynomial};
use ark_test_curves::bls12_381::Fq;
use crate::field::{Fe, modulus};
use crate::hypercube::{all_wf, values};

verus! {

/// A monomial without its coefficient: pairs of a variable's index and its
/// power.
#[derive(Clone, Debug)]
pub struct SparseTerm {
    pub pairs: Vec<(usize, usize)>,
}

/// A multivariate polynomial: the number of its variables, and its terms, each
/// with its coefficient.
#[derive(Clone, Debug)]
pub struct MPoly {
    pub num_vars: usize,
    pub terms: Vec<(Fe, SparseTerm)>,
}

/// A univariate polynomial: pairs of a degree and the coefficient of that
/// power.
#[derive(Clone, Debug)]
pub struct UPoly {
    pub coeffs: Vec<(usize, Fe)>,
}

/// The value of a monomial at a point, as an integer product of powers.
pub open spec fn term_value(t: Seq<(usize, usize)>, point: Seq<nat>) -> int
    decreases t.len(),
{
    if t.len() == 0 {
        1
    } else {
        term_value(t.drop_last(), point) * pow(point[t.last().0 as int] as int, t.last().1 as nat)
    }
}

/// The value of a polynomial at a point, as an integer sum over its terms.
pub open spec fn poly_value(terms: Seq<(Fe, SparseTerm)>, point: Seq<nat>) -> int
    decreases terms.len(),
{
    if terms.len() == 0 {
        0
    } else {
        poly_value(terms.drop_last(), point) + terms.last().0@ * term_value(
            terms.last().1.pairs@,
            point,
        )
    }
}

/// No variable occurs twice in the monomial, and each is below `num_vars`.
pub open spec fn term_wf(t: Seq<(usize, usize)>, num_vars: nat) -> bool {
    &&& forall|i: int| 0 <= i < t.len() ==> (#[trigger] t[i]).0 < num_vars
    &&& forall|i: int, k: int| 0 <= i < k < t.len() ==> (#[trigger] t[i]).0 != (#[trigger] t[k]).0
}

/// The sum of the powers of a monomial.
pub open spec fn total_degree(t: Seq<(usize, usize)>) -> nat
    decreases t.len(),
{
    if t.len() == 0 {
        0
    } else {
        total_degree(t.drop_last()) + t.last().1 as nat
    }
}

/// The monomial that `Term::new` of `ark_poly` makes of a list of pairs: the
/// pairs with a power other than zero, ordered by variable, the powers of a
/// repeated variable added up.
pub uninterp spec fn canonical_term(pairs: Seq<(usize, usize)>) -> Seq<(usize, usize)>;

/// The terms that `DenseMVPolynomial::from_coefficients_vec` of `ark_poly`
/// makes of a list of terms: ordered, equal monomials merged and their
/// coefficients added, terms with coefficient zero left out.
pub uninterp spec fn canonical_terms(num_vars: nat, terms: Seq<(nat, Seq<(usize, usize)>)>) -> Seq<
    (nat, Seq<(usize, usize)>),
>;

/// The terms of a polynomial as plain values: each coefficient's residue with
/// the pairs of its monomial.
pub open spec fn plain_terms(terms: Seq<(Fe, SparseTerm)>) -> Seq<(nat, Seq<(usize, usize)>)> {
    Seq::new(terms.len(), |i: int| (terms[i].0@, terms[i].1.pairs@))
}

impl SparseTerm {
    /// The monomial of a list of pairs. Calls `Term::new` of `ark_poly` and
    /// reads the pairs back. For one pair the result is that pair, or nothing
    /// where its power is zero; for none, nothing. The powers must add up
    /// within `usize`, as the call adds the powers of a repeated variable.
    #[verifier::external_body]
    pub(crate) fn new(pairs: Vec<(usize, usize)>) -> (r: SparseTerm)
        requires
            total_degree(pairs@) <= usize::MAX,
        ensures
            r.pairs@ == canonical_term(pairs@),
            pairs@.len() == 0 ==> r.pairs@.len() == 0,
            pairs@.len() == 1 && pairs@[0].1 == 0 ==> r.pairs@.len() == 0,
            pairs@.len() == 1 && pairs@[0].1 != 0 ==> r.pairs@ == pairs@,
    {
        SparseTerm { pairs: ark_poly::polynomial::multivariate::SparseTerm::new(pairs).to_vec() }
    }

    /// The sum of the monomial's powers. Calls `Term::degree` of `ark_poly`,
    /// which adds them up, on the monomial of these pairs.
    #[verifier::external_body]
    pub(crate) fn degree(&self) -> (r: usize)
        requires
            total_degree(self.pairs@) <= usize::MAX,
        ensures
            r == total_degree(self.pairs@),
    {
        ark_poly::polynomial::multivariate::SparseTerm::new(self.pairs.clone()).degree()
    }
}

impl MPoly {
    /// Every coefficient is a residue, and every monomial is over distinct
    /// variables below `num_vars`.
    pub open spec fn wf(&self) -> bool {
        forall|i: int|
            0 <= i < self.terms@.len() ==> (#[trigger] self.terms@[i]).0.wf() && term_wf(
                self.terms@[i].1.pairs@,
                self.num_vars as nat,
            )
    }

    /// The polynomial's value at a point, as an integer.
    pub open spec fn value_at(&self, point: Seq<nat>) -> int {
        poly_value(self.terms@, point)
    }

    /// The polynomial of a list of terms. Calls
    /// `DenseMVPolynomial::from_coefficients_vec` of `ark_poly`, which orders
    /// the terms, merges equal monomials and drops zero coefficients, and
    /// reads the terms back. The call orders the terms by the sum of their
    /// powers, which it adds up in `usize`, so each sum must fit; and it
    /// refuses a variable at or above `num_vars`. Every term that it keeps is
    /// one of the valid monomials that went in, with a residue as its
    /// coefficient, and as merging adds coefficients in the field, the
    /// polynomial's value at every point keeps its residue.
    #[verifier::external_body]
    pub(crate) fn from_coefficients_vec(num_vars: usize, terms: Vec<(Fe, SparseTerm)>) -> (r: MPoly)
        requires
            forall|i: int|
                0 <= i < terms@.len() ==> (#[trigger] terms@[i]).0.wf() && term_wf(
                    terms@[i].1.pairs@,
                    num_vars as nat,
                ) && total_degree(terms@[i].1.pairs@) <= usize::MAX,
        ensures
            r.num_vars == num_vars,
            plain_terms(r.terms@) == canonical_terms(num_vars as nat, plain_terms(terms@)),
            r.wf(),
            forall|point: Seq<nat>|
                point.len() >= num_vars ==> #[trigger] poly_value(r.terms@, point) % (
                modulus() as int) == poly_value(terms@, point) % (modulus() as int),
    {
        let ts = terms.iter().map(|(c, t)| (Fq::from_bigint(BigInt::new(c.limbs)).unwrap(),
            ark_poly::polynomial::multivariate::SparseTerm::new(t.pairs.clone()))).collect();
        let p = ark_poly::polynomial::multivariate::SparsePolynomial::from_coefficients_vec(num_vars, ts);
        let back = p.terms.iter().map(|(c, t): &(Fq, _)| (Fe { limbs: c.into_bigint().0 },
            SparseTerm { pairs: t.to_vec() })).collect();
        MPoly { num_vars, terms: back }
    }

    /// The polynomial's value at a point. Calls `Polynomial::evaluate` of
    /// `ark_poly`, which sums, over the terms, the coefficient times the
    /// product of the point's coordinates raised to the monomial's powers, in
    /// the field. The call refuses a point shorter than `num_vars`.
    #[verifier::external_body]
    pub(crate) fn evaluate(&self, point: &Vec<Fe>) -> (r: Fe)
        requires
            self.wf(),
            all_wf(point@),
            point@.len() >= self.num_vars,
        ensures
            r.wf(),
            r@ == self.value_at(values(point@)) % (modulus() as int),
    {
        let ts = self.terms.iter().map(|(c, t)| (Fq::from_bigint(BigInt::new(c.limbs)).unwrap(),
            ark_poly::polynomial::multivariate::SparseTerm::new(t.pairs.clone()))).collect();
        let p = ark_poly::polynomial::multivariate::SparsePolynomial { num_vars: self.num_vars, terms: ts };
        let pt: Vec<Fq> = point.iter().map(|c| Fq::from_bigint(BigInt::new(c.limbs)).unwrap()).collect();
        Fe { limbs: p.evaluate(&pt).into_bigint().0 }
    }
}

/// The coefficient of the power `d`: that of the last pair with that degree,
/// zero where there is none.
pub open spec fn coeff_at(s: Seq<(usize, Fe)>, d: nat) -> nat
    decreases s.len(),
{
    if s.len() == 0 {
        0
    } else if s.last().0 == d {
        s.last().1@
    } else {
        coeff_at(s.drop_last(), d)
    }
}

/// The value of a univariate polynomial at `x`, as an integer sum over its
/// pairs.
pub open spec fn sparse_value(s: Seq<(usize, Fe)>, x: nat) -> int
    decreases s.len(),
{
    if s.len() == 0 {
        0
    } else {
        sparse_value(s.drop_last(), x) + s.last().1@ * pow(x as int, s.last().0 as nat)
    }
}

impl UPoly {
    /// The degrees rise strictly, and every coefficient is a residue other
    /// than zero.
    pub open spec fn wf(&self) -> bool {
        &&& forall|i: int|
            0 <= i < self.coeffs@.len() ==> (#[trigger] self.coeffs@[i]).1.wf() && self.coeffs@[i].1@
                != 0
        &&& forall|i: int, k: int|
            0 <= i < k < self.coeffs@.len() ==> (#[trigger] self.coeffs@[i]).0 < (
            #[trigger] self.coeffs@[k]).0
    }

    /// The coefficient of the power `d`.
    pub open spec fn coeff(&self, d: nat) -> nat {
        coeff_at(self.coeffs@, d)
    }

    /// The polynomial's value at `x`, as an integer.
    pub open spec fn value_at(&self, x: nat) -> int {
        sparse_value(self.coeffs@, x)
    }

    /// The highest degree among the pairs, zero for the zero polynomial.
    pub open spec fn spec_degree(&self) -> nat {
        if self.coeffs@.len() == 0 {
            0
        } else {
            self.coeffs@.last().0 as nat
        }
    }

    /// The polynomial of at most one pair. Calls
    /// `SparsePolynomial::from_coefficients_vec` of `ark_poly`, which drops a
    /// trailing pair whose coefficient is zero, and reads the pairs back.
    #[verifier::external_body]
    pub(crate) fn from_coefficients_vec(coeffs: Vec<(usize, Fe)>) -> (r: UPoly)
        requires
            coeffs@.len() <= 1,
            coeffs@.len() == 1 ==> coeffs@[0].1.wf(),
        ensures
            r.wf(),
            coeffs@.len() == 1 && coeffs@[0].1@ != 0 ==> r.coeffs@ == coeffs@,
            coeffs@.len() == 0 || coeffs@[0].1@ == 0 ==> r.coeffs@.len() == 0,
    {
        let cs = coeffs.iter().map(|(d, c)| (*d, Fq::from_bigint(BigInt::new(c.limbs)).unwrap())).collect();
        let p = ark_poly::polynomial::univariate::SparsePolynomial::<Fq>::from_coefficients_vec(cs);
        UPoly { coeffs: p.iter().map(|(d, c)| (*d, Fe { limbs: c.into_bigint().0 })).collect() }
    }

    /// Sum of two polynomials. Calls `Add` of `ark_poly`'s
    /// `SparsePolynomial`, which merges the two lists by degree, adds the
    /// coefficients of a common degree in the field and leaves out a sum that
    /// is zero: each coefficient of the result is the sum of the two.
    #[verifier::external_body]
    pub(crate) fn add(&self, other: &UPoly) -> (r: UPoly)
        requires
            self.wf(),
            other.wf(),
        ensures
            r.wf(),
            forall|d: nat| #[trigger] r.coeff(d) == (self.coeff(d) + other.coeff(d)) % modulus(),
    {
        let a = self.coeffs.iter().map(|(d, c)| (*d, Fq::from_bigint(BigInt::new(c.limbs)).unwrap())).collect();
        let b = other.coeffs.iter().map(|(d, c)| (*d, Fq::from_bigint(BigInt::new(c.limbs)).unwrap())).collect();
        let p = ark_poly::polynomial::univariate::SparsePolynomial::<Fq>::from_coefficients_vec(a)
            + ark_poly::polynomial::univariate::SparsePolynomial::<Fq>::from_coefficients_vec(b);
        UPoly { coeffs: p.iter().map(|(d, c)| (*d, Fe { limbs: c.into_bigint().0 })).collect() }
    }

    /// The polynomial's value at a point. Calls `Polynomial::evaluate` of
    /// `ark_poly`, which sums, over the pairs, the coefficient times the point
    /// raised to the degree, in the field.
    #[verifier::external_body]
    pub(crate) fn evaluate(&self, x: &Fe) -> (r: Fe)
        requires
            self.wf(),
            x.wf(),
        ensures
            r.wf(),
            r@ == self.value_at(x@) % (modulus() as int),
    {
        let a = self.coeffs.iter().map(|(d, c)| (*d, Fq::from_bigint(BigInt::new(c.limbs)).unwrap())).collect();
        let p = ark_poly::polynomial::univariate::SparsePolynomial::<Fq>::from_coefficients_vec(a);
        Fe { limbs: p.evaluate(&Fq::from_bigint(BigInt::new(x.limbs)).unwrap()).into_bigint().0 }
    }

    /// The polynomial's degree. Calls `Polynomial::degree` of `ark_poly`,
    /// which gives the degree of the last pair, and zero for the zero
    /// polynomial.
    #[verifier::external_body]
    pub(crate) fn degree(&self) -> (r: usize)
        requires
            self.wf(),
        ensures
            r == self.spec_degree(),
    {
        let a = self.coeffs.iter().map(|(d, c)| (*d, Fq::from_bigint(BigInt::new(c.limbs)).unwrap())).collect();
        ark_poly::polynomial::univariate::SparsePolynomial::<Fq>::from_coefficients_vec(a).degree()
    }
}

} // verus!
