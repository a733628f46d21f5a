//! The verifier: it checks each round polynomial against the round before,
//! and the last one against the claim itself.

use vstd::prelude::*;
use vstd::arithmetic::power2::{pow2, lemma2_to64};
use vstd::arithmetic::div_mod::{lemma_add_mod_noop, lemma_small_mod};
use rand::Rng;
use crate::claim::Rejection;
use crate::field::{Fe, modulus};
use crate::hypercube::{all_wf, values};
use crate::poly::{MPoly, UPoly};
use crate::prover::{Prover, max_degrees};
use crate::reduction::{
    lemma_coeff_at_present,
    lemma_max_power_fits,
    lemma_round_coeff_above,
    max_power,
    round_coeff,
    round_sum,
};
use crate::summation::{
    hypercube_total,
    lemma_first_round,
    lemma_last_round,
    lemma_next_round,
    lemma_round_value,
};

verus! {

/// The claimed sum is the residue of the claim's sum over the hypercube.
pub open spec fn claim_holds(g: MPoly, c_1: Fe) -> bool {
    c_1@ == hypercube_total(g.terms@, g.num_vars as nat) % (modulus() as int)
}

/// No variable of the claim has a power above `deg`.
pub open spec fn bound_covers(g: MPoly, deg: usize) -> bool {
    forall|j: nat| j < g.num_vars ==> max_power(g.terms@, j) <= deg
}

/// The coefficient of the power `d` in the round polynomial that the claim
/// has once its first variables are set to `fixed`.
pub open spec fn round_residue(g: MPoly, fixed: Seq<nat>, d: nat) -> int {
    round_coeff(
        g.terms@,
        fixed,
        (g.num_vars - fixed.len()) as nat,
        pow2((g.num_vars - fixed.len() - 1) as nat),
        d,
    ) % (modulus() as int)
}

/// The round polynomial that the claim has once its first variables are set
/// to `fixed` has a power above `deg`.
pub open spec fn round_exceeds(g: MPoly, fixed: Seq<nat>, deg: usize) -> bool {
    exists|d: nat| d > deg && #[trigger] round_residue(g, fixed, d) != 0
}

/// What a run of the protocol with the library's own prover comes to, for
/// given challenges. A malformed claim is refused. Else the first round is
/// refused for its degree where that is above `deg`, and for its values
/// where the claim is false. After it only a degree above `deg` can refuse a
/// round: the values always fit, and so does the last check.
pub open spec fn run_verdict(g: MPoly, c_1: Fe, deg: usize, challenges: Seq<nat>) -> Result<
    (),
    Rejection,
> {
    if !(g.wf() && c_1.wf()) {
        Err(Rejection::MalformedClaim)
    } else if round_exceeds(g, Seq::empty(), deg) {
        Err(Rejection::DegreeBoundExceeded)
    } else if !claim_holds(g, c_1) {
        Err(Rejection::ConsistencyMismatch)
    } else if exists|j: int|
        1 <= j < g.num_vars && #[trigger] round_exceeds(g, challenges.take(j), deg) {
        Err(Rejection::DegreeBoundExceeded)
    } else {
        Ok(())
    }
}

/// What the verifier decides of one round polynomial: it is refused for its
/// degree where that is above the bound, whatever its values; else for its
/// values where the two boolean ones do not add up to the expected value.
pub open spec fn round_verdict(h: UPoly, expected: nat, bound: usize) -> Result<(), Rejection> {
    if h.spec_degree() > bound {
        Err(Rejection::DegreeBoundExceeded)
    } else if (h.value_at(0) + h.value_at(1)) % (modulus() as int) != expected {
        Err(Rejection::ConsistencyMismatch)
    } else {
        Ok(())
    }
}

/// A bound that covers every variable's power is exceeded by no round.
pub proof fn lemma_covered_round(g: MPoly, fixed: Seq<nat>, deg: usize)
    requires
        bound_covers(g, deg),
        fixed.len() < g.num_vars,
    ensures
        !round_exceeds(g, fixed, deg),
{
    assert forall|d: nat| d > deg implies #[trigger] round_residue(g, fixed, d) == 0 by {
        lemma_round_coeff_above(
            g.terms@,
            fixed,
            (g.num_vars - fixed.len()) as nat,
            pow2((g.num_vars - fixed.len() - 1) as nat),
            d,
        );
        lemma_small_mod(0, modulus());
    }
}

/// Completeness: a valid claim with its true sum is accepted, whatever the
/// challenges, under any bound that covers every variable's power.
pub proof fn lemma_true_claim_accepted(g: MPoly, c_1: Fe, deg: usize, challenges: Seq<nat>)
    requires
        g.wf(),
        c_1.wf(),
        claim_holds(g, c_1),
        bound_covers(g, deg),
        g.num_vars >= 1,
        challenges.len() == g.num_vars,
    ensures
        run_verdict(g, c_1, deg, challenges) == Ok::<(), Rejection>(()),
{
    lemma_covered_round(g, Seq::empty(), deg);
    assert forall|j: int| 1 <= j < g.num_vars implies !#[trigger] round_exceeds(
        g,
        challenges.take(j),
        deg,
    ) by {
        lemma_covered_round(g, challenges.take(j), deg);
    }
}

/// With the library's own prover no false claim is accepted, whatever the
/// challenges and the bound.
pub proof fn lemma_false_claim_refused(g: MPoly, c_1: Fe, deg: usize, challenges: Seq<nat>)
    requires
        !claim_holds(g, c_1),
    ensures
        run_verdict(g, c_1, deg, challenges) is Err,
{
}

/// A round polynomial with the round's coefficients has a degree above `deg`
/// just where the round has a power above `deg`.
proof fn lemma_degree_exceeds(h: UPoly, g: MPoly, fixed: Seq<nat>, deg: usize)
    requires
        h.wf(),
        forall|d: nat| #[trigger] h.coeff(d) == round_residue(g, fixed, d),
    ensures
        h.spec_degree() > deg <==> round_exceeds(g, fixed, deg),
{
    let s = h.coeffs@;
    if h.spec_degree() > deg {
        let d = s.last().0 as nat;
        assert(s.last() == s[s.len() - 1]);
        assert(h.coeff(d) == s.last().1@);
        assert(round_residue(g, fixed, d) != 0);
    }
    if round_exceeds(g, fixed, deg) {
        let d = choose|d: nat| d > deg && #[trigger] round_residue(g, fixed, d) != 0;
        assert(h.coeff(d) != 0);
        lemma_coeff_at_present(s, d);
        let i = choose|i: int| 0 <= i < s.len() && (#[trigger] s[i]).0 == d;
        assert(s[i].0 <= s[s.len() - 1].0);
    }
}

/// The verifier's check of one round polynomial against the bound on its
/// degree and the value expected of it.
pub fn check_round(h: &UPoly, expected: &Fe, bound: usize) -> (r: Result<(), Rejection>)
    requires
        h.wf(),
        expected.wf(),
    ensures
        r == round_verdict(*h, expected@, bound),
{
    if h.degree() > bound {
        return Err(Rejection::DegreeBoundExceeded);
    }
    let at_zero = h.evaluate(&Fe::zero());
    let at_one = h.evaluate(&Fe::one());
    let new_c = at_zero.add(&at_one);
    proof {
        lemma_add_mod_noop(h.value_at(0), h.value_at(1), modulus() as int);
    }
    if !new_c.equals(expected) {
        return Err(Rejection::ConsistencyMismatch);
    }
    Ok(())
}

/// The verifier's last check: the last round polynomial at the last challenge
/// against the claim's own value at all the challenges.
pub fn check_final(h: &UPoly, r: &Fe, oracle: &Fe) -> (res: Result<(), Rejection>)
    requires
        h.wf(),
        r.wf(),
    ensures
        res == (if h.value_at(r@) % (modulus() as int) == oracle@ {
            Ok::<(), Rejection>(())
        } else {
            Err(Rejection::OracleMismatch)
        }),
{
    let expected = h.evaluate(r);
    if !expected.equals(oracle) {
        return Err(Rejection::OracleMismatch);
    }
    Ok(())
}

/// The smaller of the caller's bound and the variable's own.
fn round_bound(deg: usize, lookup: &Vec<usize>, j: usize) -> (r: usize)
    requires
        j < lookup@.len(),
    ensures
        r == (if deg < lookup@[j as int] {
            deg
        } else {
            lookup@[j as int]
        }),
{
    if deg < lookup[j] {
        deg
    } else {
        lookup[j]
    }
}

/// One run of the protocol on the claim that `g` sums to `c_1` over the
/// hypercube, with the challenges given: `challenges[j]` fixes variable `j`.
///
/// The prover is the library's own. Each round polynomial must stay within
/// the highest power that its variable has in the claim, and within `deg`.
pub fn verify_with_challenges(g: &MPoly, c_1: Fe, deg: usize, challenges: &Vec<Fe>) -> (r: Result<
    (),
    Rejection,
>)
    requires
        g.num_vars >= 1,
        pow2((g.num_vars - 1) as nat) <= usize::MAX,
        challenges@.len() == g.num_vars,
        all_wf(challenges@),
    ensures
        r == run_verdict(*g, c_1, deg, values(challenges@)),
{
    if !g.is_valid() || !c_1.is_canonical() {
        return Err(Rejection::MalformedClaim);
    }
    let ghost m = modulus() as int;
    let ghost terms = g.terms@;
    let ghost v = g.num_vars as nat;
    let ghost given = values(challenges@);
    let lookup = max_degrees(g);
    let mut p = Prover::new(g);
    let mut gi = p.get_unipoly(None);
    proof {
        assert(p.fixed() =~= Seq::<nat>::empty());
        lemma_degree_exceeds(gi, *g, p.fixed(), deg);
        lemma_round_value(gi, terms, p.fixed(), v, pow2((v - 1) as nat), 0);
        lemma_round_value(gi, terms, p.fixed(), v, pow2((v - 1) as nat), 1);
        lemma_first_round(terms, v);
        lemma_add_mod_noop(gi.value_at(0), gi.value_at(1), m);
        lemma_add_mod_noop(
            round_sum(terms, p.fixed(), v, pow2((v - 1) as nat), 0),
            round_sum(terms, p.fixed(), v, pow2((v - 1) as nat), 1),
            m,
        );
    }
    let first = check_round(&gi, &c_1, round_bound(deg, &lookup, 0));
    if let Err(e) = first {
        return Err(e);
    }
    let mut j: usize = 1;
    while j < g.num_vars
        invariant
            g.wf(),
            c_1.wf(),
            claim_holds(*g, c_1),
            !round_exceeds(*g, Seq::empty(), deg),
            forall|k: int| 1 <= k < j ==> !#[trigger] round_exceeds(*g, given.take(k), deg),
            g.num_vars >= 1,
            pow2((g.num_vars - 1) as nat) <= usize::MAX,
            challenges@.len() == g.num_vars,
            all_wf(challenges@),
            given == values(challenges@),
            m == modulus() as int,
            terms == g.terms@,
            v == g.num_vars as nat,
            lookup@.len() == g.num_vars,
            forall|k: int| 0 <= k < g.num_vars ==> lookup@[k] == max_power(g.terms@, k as nat),
            1 <= j <= g.num_vars,
            p.wf(),
            p.g == g,
            p.vfy_rands@ == challenges@.take(j - 1),
            gi.wf(),
            gi.spec_degree() <= max_power(terms, (j - 1) as nat),
            forall|d: nat|
                #[trigger] gi.coeff(d) == round_coeff(
                    terms,
                    p.fixed(),
                    (v - (j - 1)) as nat,
                    pow2((v - j) as nat),
                    d,
                ) % m,
        decreases g.num_vars - j,
    {
        let r = challenges[j - 1];
        let expected = gi.evaluate(&r);
        let ghost before = p.fixed();
        let ghost last = gi;
        let next = p.get_unipoly(Some(r));
        proof {
            let rest = (v - j) as nat;
            assert(p.vfy_rands@ =~= challenges@.take(j as int));
            assert(p.fixed() =~= before.push(r@));
            assert(p.fixed() =~= given.take(j as int));
            assert((v - (j - 1)) as nat == rest + 1);
            assert((g.num_vars - p.round()) as nat == rest);
            lemma_degree_exceeds(next, *g, p.fixed(), deg);
            lemma_round_value(last, terms, before, rest + 1, pow2(rest), r@);
            lemma_round_value(next, terms, p.fixed(), rest, pow2((rest - 1) as nat), 0);
            lemma_round_value(next, terms, p.fixed(), rest, pow2((rest - 1) as nat), 1);
            lemma_next_round(terms, before, r@, rest);
            lemma_add_mod_noop(next.value_at(0), next.value_at(1), m);
            lemma_add_mod_noop(
                round_sum(terms, p.fixed(), rest, pow2((rest - 1) as nat), 0),
                round_sum(terms, p.fixed(), rest, pow2((rest - 1) as nat), 1),
                m,
            );
        }
        let checked = check_round(&next, &expected, round_bound(deg, &lookup, j));
        if let Err(e) = checked {
            return Err(e);
        }
        gi = next;
        j = j + 1;
    }
    let r = challenges[g.num_vars - 1];
    let ghost before = p.fixed();
    p.vfy_rands.push(r);
    let new_c = g.evaluate(&p.vfy_rands);
    proof {
        lemma2_to64();
        assert((v - (j - 1)) as nat == 1);
        assert(pow2((v - j) as nat) == 1);
        assert(values(p.vfy_rands@) =~= before.push(r@));
        lemma_round_value(gi, terms, before, 1, 1, r@);
        lemma_last_round(terms, before, r@);
    }
    check_final(&gi, &r, &new_c)
}

/// A number drawn by the thread's random generator. Calls `Rng::gen` of
/// `rand` for `usize`. Nothing is known of the result.
#[verifier::external_body]
fn random_usize() -> (r: usize) {
    rand::thread_rng().gen()
}

/// A random field element.
pub fn rand_elem() -> (r: Option<Fe>)
    ensures
        r matches Some(x) && x.wf(),
{
    Some(Fe::random())
}

/// The number below `moduli` that a drawn number stands for: what the draw
/// leaves on division by `moduli`.
pub fn num_from_draw(draw: usize, moduli: usize) -> (r: Option<usize>)
    requires
        moduli > 0,
    ensures
        r == Some((draw % moduli) as usize),
{
    Some(draw % moduli)
}

/// A random number below `moduli`: what a number drawn by the thread's random
/// generator leaves on division by `moduli`. Which number is drawn is not
/// known, so of the result only its range is.
pub fn rand_num(moduli: usize) -> (r: Option<usize>)
    requires
        moduli > 0,
    ensures
        r matches Some(x) && x < moduli,
{
    num_from_draw(random_usize(), moduli)
}

/// One run of the protocol on the claim that `g` sums to `c_1` over the
/// hypercube, with a fresh random challenge for each variable. Each round
/// polynomial must stay within the highest power that its variable has in the
/// claim, and within `deg`.
///
/// The run comes to what some challenges give. Whatever they are, it accepts
/// only a true claim, and where `deg` covers every variable's power it
/// accepts every true claim and refuses every false one at the first round.
pub fn verify(g: &MPoly, c_1: Fe, deg: usize) -> (r: Result<(), Rejection>)
    requires
        g.num_vars >= 1,
        pow2((g.num_vars - 1) as nat) <= usize::MAX,
    ensures
        exists|challenges: Seq<nat>|
            challenges.len() == g.num_vars && r == #[trigger] run_verdict(*g, c_1, deg, challenges),
        r == Err::<(), Rejection>(Rejection::MalformedClaim) <==> !(g.wf() && c_1.wf()),
        r is Ok ==> claim_holds(*g, c_1),
        r == Err::<(), Rejection>(Rejection::ConsistencyMismatch) ==> !claim_holds(*g, c_1),
        r == Err::<(), Rejection>(Rejection::DegreeBoundExceeded) ==> !bound_covers(*g, deg),
        r != Err::<(), Rejection>(Rejection::OracleMismatch),
        g.wf() && c_1.wf() && bound_covers(*g, deg) ==> r == (if claim_holds(*g, c_1) {
            Ok::<(), Rejection>(())
        } else {
            Err(Rejection::ConsistencyMismatch)
        }),
{
    let mut challenges: Vec<Fe> = Vec::new();
    let mut j: usize = 0;
    while j < g.num_vars
        invariant
            j <= g.num_vars,
            challenges@.len() == j,
            all_wf(challenges@),
        decreases g.num_vars - j,
    {
        let r = rand_elem();
        if let Some(x) = r {
            challenges.push(x);
            j = j + 1;
        }
    }
    proof {
        let given = values(challenges@);
        if bound_covers(*g, deg) {
            lemma_covered_round(*g, Seq::empty(), deg);
            assert forall|k: int| 1 <= k < g.num_vars implies !#[trigger] round_exceeds(
                *g,
                given.take(k),
                deg,
            ) by {
                lemma_covered_round(*g, given.take(k), deg);
            }
        }
    }
    verify_with_challenges(g, c_1, deg, &challenges)
}

/// One run of the protocol with random challenges, in which each round
/// polynomial is held to the highest power of its own variable and to nothing
/// else. A malformed claim is refused, a true claim is accepted, and a false
/// one is refused at the first round.
pub fn verify_per_variable(g: &MPoly, c_1: Fe) -> (r: Result<(), Rejection>)
    requires
        g.num_vars >= 1,
        pow2((g.num_vars - 1) as nat) <= usize::MAX,
    ensures
        r == (if !(g.wf() && c_1.wf()) {
            Err::<(), Rejection>(Rejection::MalformedClaim)
        } else if claim_holds(*g, c_1) {
            Ok(())
        } else {
            Err(Rejection::ConsistencyMismatch)
        }),
{
    proof {
        assert forall|j: nat| j < g.num_vars implies max_power(g.terms@, j) <= usize::MAX by {
            lemma_max_power_fits(g.terms@, j);
        }
    }
    verify(g, c_1, usize::MAX)
}

} // verus!
