//! Making and checking a claim: the polynomial that is summed, and its sum
//! over the hypercube by plain enumeration.

use vstd::prelude::*;
use vstd::arithmetic::power2::pow2;
use vstd::arithmetic::div_mod::{lemma_add_mod_noop, lemma_mul_mod_noop_general, lemma_small_mod};
use crate::field::{Fe, modulus};
use crate::hypercube::{bin_repr, hypercube_point, values};
use crate::poly::{
    MPoly,
    SparseTerm,
    canonical_terms,
    plain_terms,
    poly_value,
    term_value,
    term_wf,
    total_degree,
};
use crate::prover::power_of_two;
use crate::summation::{cube_sum, hypercube_total};

verus! {

/// Why a run of the protocol does not accept.
#[derive(Clone, Copy, Debug, PartialEq, Eq)]
pub enum Rejection {
    /// The claim is not a polynomial over the declared variables, or its
    /// parts do not fit together.
    MalformedClaim,
    /// A round polynomial has a higher degree than its variable allows.
    DegreeBoundExceeded,
    /// A round polynomial's two boolean values do not add up to the value
    /// expected from the round before.
    ConsistencyMismatch,
    /// The last round polynomial disagrees with the claim itself at the
    /// challenges.
    OracleMismatch,
}

/// The terms that a list of integer coefficients and a list of monomials
/// stand for: each coefficient's residue with the pairs of its monomial.
pub open spec fn claimed_terms(coeff: Seq<i128>, terms: Seq<SparseTerm>) -> Seq<
    (nat, Seq<(usize, usize)>),
> {
    Seq::new(
        terms.len(),
        |i: int| (((coeff[i] as int) % (modulus() as int)) as nat, terms[i].pairs@),
    )
}

/// Every monomial of the list is over distinct variables below `num_vars`.
pub open spec fn all_terms_wf(terms: Seq<SparseTerm>, num_vars: nat) -> bool {
    forall|i: int| 0 <= i < terms.len() ==> term_wf((#[trigger] terms[i]).pairs@, num_vars)
}

/// The powers of every monomial of the list add up within the machine word.
pub open spec fn all_terms_fit(terms: Seq<SparseTerm>) -> bool {
    forall|i: int| 0 <= i < terms.len() ==> total_degree((#[trigger] terms[i]).pairs@) <= usize::MAX
}

/// The value at a point of the polynomial that a list of integer coefficients
/// and a list of monomials stand for, as an integer sum over the terms.
pub open spec fn claimed_value(coeff: Seq<i128>, terms: Seq<SparseTerm>, point: Seq<nat>) -> int
    decreases terms.len(),
{
    if terms.len() == 0 {
        0
    } else {
        claimed_value(coeff, terms.drop_last(), point) + coeff[terms.len() - 1] * term_value(
            terms.last().pairs@,
            point,
        )
    }
}

/// The powers of a part of a monomial add up to no more than those of the
/// whole.
pub proof fn lemma_total_degree_prefix(t: Seq<(usize, usize)>, k: int)
    requires
        0 <= k <= t.len(),
    ensures
        total_degree(t.take(k)) <= total_degree(t),
    decreases t.len(),
{
    if k == t.len() {
        assert(t.take(k) =~= t);
    } else {
        lemma_total_degree_prefix(t.drop_last(), k);
        assert(t.drop_last().take(k) =~= t.take(k));
    }
}

/// Terms whose coefficients are the residues of the given integers, over the
/// given monomials, have at every point a value with the residue of the
/// claimed one.
pub proof fn lemma_claimed_value(
    built: Seq<(Fe, SparseTerm)>,
    coeff: Seq<i128>,
    terms: Seq<SparseTerm>,
    point: Seq<nat>,
)
    requires
        built.len() == terms.len(),
        terms.len() <= coeff.len(),
        forall|a: int|
            0 <= a < built.len() ==> (#[trigger] built[a]).0@ == (coeff[a] as int) % (
            modulus() as int) && built[a].1.pairs@ == terms[a].pairs@,
    ensures
        poly_value(built, point) % (modulus() as int) == claimed_value(coeff, terms, point) % (
        modulus() as int),
    decreases built.len(),
{
    let m = modulus() as int;
    if built.len() > 0 {
        let n = built.len() - 1;
        assert(built.last() == built[n]);
        assert(terms.last() == terms[n]);
        assert forall|a: int| 0 <= a < built.drop_last().len() implies (
        #[trigger] built.drop_last()[a]).0@ == (coeff[a] as int) % m && built.drop_last()[a].1.pairs@
            == terms.drop_last()[a].pairs@ by {
            assert(built.drop_last()[a] == built[a]);
            assert(terms.drop_last()[a] == terms[a]);
        }
        lemma_claimed_value(built.drop_last(), coeff, terms.drop_last(), point);
        let v = term_value(terms[n].pairs@, point);
        lemma_mul_mod_noop_general(coeff[n] as int, v, m);
        lemma_add_mod_noop(poly_value(built.drop_last(), point), built[n].0@ * v, m);
        lemma_add_mod_noop(claimed_value(coeff, terms.drop_last(), point), coeff[n] * v, m);
    }
}

/// Whether the powers of a monomial add up within the machine word.
pub fn term_fits(pairs: &Vec<(usize, usize)>) -> (r: bool)
    ensures
        r == (total_degree(pairs@) <= usize::MAX),
{
    let mut sum: usize = 0;
    let mut i: usize = 0;
    while i < pairs.len()
        invariant
            i <= pairs@.len(),
            sum == total_degree(pairs@.take(i as int)),
        decreases pairs@.len() - i,
    {
        let power = pairs[i].1;
        proof {
            assert(pairs@.take(i as int + 1).drop_last() =~= pairs@.take(i as int));
            assert(pairs@.take(i as int + 1).last() == pairs@[i as int]);
            lemma_total_degree_prefix(pairs@, i as int + 1);
        }
        if power > usize::MAX - sum {
            return false;
        }
        sum = sum + power;
        i = i + 1;
    }
    proof {
        assert(pairs@.take(i as int) =~= pairs@);
    }
    true
}

/// Whether a monomial is over distinct variables below `num_vars`.
pub fn term_is_valid(pairs: &Vec<(usize, usize)>, num_vars: usize) -> (r: bool)
    ensures
        r == term_wf(pairs@, num_vars as nat),
{
    let mut i: usize = 0;
    while i < pairs.len()
        invariant
            i <= pairs@.len(),
            forall|a: int| 0 <= a < i ==> (#[trigger] pairs@[a]).0 < num_vars,
            forall|a: int, b: int|
                0 <= a < b < i ==> (#[trigger] pairs@[a]).0 != (#[trigger] pairs@[b]).0,
        decreases pairs@.len() - i,
    {
        if pairs[i].0 >= num_vars {
            return false;
        }
        let mut k: usize = 0;
        while k < i
            invariant
                k <= i,
                i < pairs@.len(),
                forall|a: int| 0 <= a < k ==> (#[trigger] pairs@[a]).0 != pairs@[i as int].0,
            decreases i - k,
        {
            if pairs[k].0 == pairs[i].0 {
                return false;
            }
            k = k + 1;
        }
        i = i + 1;
    }
    true
}

impl MPoly {
    /// Whether the polynomial is a valid claim: every coefficient a residue,
    /// every monomial over distinct variables below `num_vars`.
    pub fn is_valid(&self) -> (r: bool)
        ensures
            r == self.wf(),
    {
        let mut i: usize = 0;
        while i < self.terms.len()
            invariant
                i <= self.terms@.len(),
                forall|a: int|
                    0 <= a < i ==> (#[trigger] self.terms@[a]).0.wf() && term_wf(
                        self.terms@[a].1.pairs@,
                        self.num_vars as nat,
                    ),
            decreases self.terms@.len() - i,
        {
            if !self.terms[i].0.is_canonical() {
                return false;
            }
            if !term_is_valid(&self.terms[i].1.pairs, self.num_vars) {
                return false;
            }
            i = i + 1;
        }
        true
    }
}

/// A copy of a list of pairs.
fn copy_pairs(src: &Vec<(usize, usize)>) -> (r: Vec<(usize, usize)>)
    ensures
        r@ == src@,
{
    let mut r: Vec<(usize, usize)> = Vec::new();
    let mut i: usize = 0;
    while i < src.len()
        invariant
            i <= src@.len(),
            r@ == src@.take(i as int),
        decreases src@.len() - i,
    {
        r.push(src[i]);
        proof {
            assert(src@.take(i as int).push(src@[i as int]) =~= src@.take(i as int + 1));
        }
        i = i + 1;
    }
    proof {
        assert(src@.take(i as int) =~= src@);
    }
    r
}

/// The claim polynomial over `num_vars` variables with the given integer
/// coefficients and monomials, one coefficient for each monomial. The claim
/// is refused as malformed where the two lists differ in length, where a
/// monomial names a variable at or above `num_vars` or names one twice, or
/// where the powers of a monomial do not add up within the machine word. An
/// accepted polynomial has, at every point, the residue of the claimed value.
pub fn build_poly(num_vars: usize, coeff: Vec<i128>, sparse_terms: Vec<SparseTerm>) -> (r: Result<
    MPoly,
    Rejection,
>)
    ensures
        r is Err <==> coeff@.len() != sparse_terms@.len() || !all_terms_wf(
            sparse_terms@,
            num_vars as nat,
        ) || !all_terms_fit(sparse_terms@),
        r matches Err(e) ==> e == Rejection::MalformedClaim,
        r matches Ok(p) ==> p.wf() && p.num_vars == num_vars && plain_terms(p.terms@)
            == canonical_terms(num_vars as nat, claimed_terms(coeff@, sparse_terms@)),
        r matches Ok(p) ==> forall|point: Seq<nat>|
            point.len() >= num_vars ==> #[trigger] poly_value(p.terms@, point) % (modulus() as int)
                == claimed_value(coeff@, sparse_terms@, point) % (modulus() as int),
{
    if coeff.len() != sparse_terms.len() {
        return Err(Rejection::MalformedClaim);
    }
    let mut coeff_vec: Vec<(Fe, SparseTerm)> = Vec::new();
    let mut idx: usize = 0;
    while idx < coeff.len()
        invariant
            coeff@.len() == sparse_terms@.len(),
            idx <= coeff@.len(),
            coeff_vec@.len() == idx,
            forall|a: int|
                0 <= a < idx ==> (#[trigger] coeff_vec@[a]).0.wf() && term_wf(
                    coeff_vec@[a].1.pairs@,
                    num_vars as nat,
                ) && total_degree(coeff_vec@[a].1.pairs@) <= usize::MAX,
            forall|a: int|
                0 <= a < idx ==> term_wf((#[trigger] sparse_terms@[a]).pairs@, num_vars as nat)
                    && total_degree(sparse_terms@[a].pairs@) <= usize::MAX,
            forall|a: int|
                0 <= a < idx ==> (#[trigger] coeff_vec@[a]).0@ == (coeff@[a] as int) % (
                modulus() as int) && coeff_vec@[a].1.pairs@ == sparse_terms@[a].pairs@,
        decreases coeff@.len() - idx,
    {
        if !term_is_valid(&sparse_terms[idx].pairs, num_vars) {
            return Err(Rejection::MalformedClaim);
        }
        if !term_fits(&sparse_terms[idx].pairs) {
            return Err(Rejection::MalformedClaim);
        }
        let term = SparseTerm { pairs: copy_pairs(&sparse_terms[idx].pairs) };
        coeff_vec.push((Fe::from_i128(coeff[idx]), term));
        idx = idx + 1;
    }
    let ghost built = coeff_vec@;
    proof {
        assert(plain_terms(built) =~= claimed_terms(coeff@, sparse_terms@));
    }
    let p = MPoly::from_coefficients_vec(num_vars, coeff_vec);
    proof {
        assert forall|point: Seq<nat>| point.len() >= num_vars implies #[trigger] poly_value(
            p.terms@,
            point,
        ) % (modulus() as int) == claimed_value(coeff@, sparse_terms@, point) % (
        modulus() as int) by {
            lemma_claimed_value(built, coeff@, sparse_terms@, point);
        }
    }
    Ok(p)
}

/// The sum of the claim over the whole hypercube, by evaluating it at every
/// point in turn.
pub fn hypercube_sum(g: &MPoly) -> (sum: Fe)
    requires
        g.wf(),
        pow2(g.num_vars as nat) <= usize::MAX,
    ensures
        sum.wf(),
        sum@ == hypercube_total(g.terms@, g.num_vars as nat) % (modulus() as int),
{
    let count = power_of_two(g.num_vars);
    let ghost m = modulus() as int;
    let ghost none = Seq::<nat>::empty();
    let mut sum = Fe::zero();
    let mut i: usize = 0;
    proof {
        lemma_small_mod(0, modulus());
    }
    while i < count
        invariant
            g.wf(),
            count == pow2(g.num_vars as nat),
            m == modulus() as int,
            none == Seq::<nat>::empty(),
            i <= count,
            sum.wf(),
            sum@ == cube_sum(g.terms@, none, g.num_vars as nat, 0, i as nat) % m,
        decreases count - i,
    {
        let point = bin_repr(i, g.num_vars);
        let here = g.evaluate(&point);
        proof {
            assert(none + hypercube_point(i as nat, g.num_vars as nat) =~= values(point@));
            assert((0 + (i + 1) - 1) as nat == i as nat);
            lemma_add_mod_noop(
                cube_sum(g.terms@, none, g.num_vars as nat, 0, i as nat),
                g.value_at(values(point@)),
                m,
            );
        }
        sum = sum.add(&here);
        i = i + 1;
    }
    sum
}

} // verus!
