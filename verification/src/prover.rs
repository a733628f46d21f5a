//! The prover: it holds the claim and the challenges received so far, and
//! gives, round by round, the univariate polynomial that is left when the
//! earlier variables are fixed and the later ones are summed out.

use vstd::prelude::*;
use vstd::arithmetic::power::pow;
use vstd::arithmetic::power2::{pow2, lemma_pow2_unfold, lemma_pow2_strictly_increases, lemma2_to64};
use vstd::arithmetic::div_mod::{lemma_add_mod_noop, lemma_mul_mod_noop_general, lemma_small_mod};
use crate::field::{Fe, modulus};
use crate::hypercube::{all_wf, bin_repr, hypercube_point, values};
use crate::poly::{MPoly, SparseTerm, UPoly, coeff_at, term_wf, total_degree};
use crate::reduction::{
    free_power,
    lemma_free_power_absent,
    lemma_free_power_fits,
    lemma_round_coeff_above,
    max_power,
    names_var,
    point_coeff,
    rest_value,
    round_coeff,
    round_point,
    term_coeff,
    term_max_power,
};

verus! {

/// One prover of one protocol run.
pub struct Prover<'a> {
    /// The claim.
    pub g: &'a MPoly,
    /// The challenges received so far, one for each variable already fixed.
    pub vfy_rands: Vec<Fe>,
}

/// The monomial that stands for the free variable in a term: nothing where
/// the term does not name it, else the variable with its power, or the empty
/// monomial where that power is zero.
pub open spec fn fixed_term_of(t: Seq<(usize, usize)>, j: nat, r: Option<SparseTerm>) -> bool {
    match r {
        None => !names_var(t, j),
        Some(ft) => names_var(t, j) && total_degree(ft.pairs@) == free_power(t, j) && (if free_power(
            t,
            j,
        ) == 0 {
            ft.pairs@.len() == 0
        } else {
            ft.pairs@ == seq![(j as usize, free_power(t, j) as usize)]
        }),
    }
}

/// Two to the power `e`, where that fits the machine word.
pub fn power_of_two(e: usize) -> (r: usize)
    requires
        pow2(e as nat) <= usize::MAX,
    ensures
        r == pow2(e as nat),
{
    let mut r: usize = 1;
    let mut k: usize = 0;
    proof {
        lemma2_to64();
    }
    while k < e
        invariant
            k <= e,
            r == pow2(k as nat),
            pow2(e as nat) <= usize::MAX,
        decreases e - k,
    {
        proof {
            lemma_pow2_unfold((k + 1) as nat);
            if k + 1 < e {
                lemma_pow2_strictly_increases((k + 1) as nat, e as nat);
            }
        }
        r = r * 2;
        k = k + 1;
    }
    r
}

/// The highest power that each variable of the claim has in any term.
pub fn max_degrees(g: &MPoly) -> (lookup: Vec<usize>)
    requires
        g.wf(),
    ensures
        lookup@.len() == g.num_vars,
        forall|j: int| 0 <= j < g.num_vars ==> lookup@[j] == max_power(g.terms@, j as nat),
{
    let mut lookup: Vec<usize> = Vec::new();
    let mut k: usize = 0;
    while k < g.num_vars
        invariant
            k <= g.num_vars,
            lookup@.len() == k,
            forall|j: int| 0 <= j < k ==> lookup@[j] == 0,
        decreases g.num_vars - k,
    {
        lookup.push(0);
        k = k + 1;
    }
    let mut i: usize = 0;
    while i < g.terms.len()
        invariant
            g.wf(),
            i <= g.terms@.len(),
            lookup@.len() == g.num_vars,
            forall|j: int|
                0 <= j < g.num_vars ==> lookup@[j] == max_power(g.terms@.take(i as int), j as nat),
        decreases g.terms@.len() - i,
    {
        let term = &g.terms[i].1;
        let ghost before = lookup@;
        let mut m: usize = 0;
        while m < term.pairs.len()
            invariant
                m <= term.pairs@.len(),
                term_wf(term.pairs@, g.num_vars as nat),
                lookup@.len() == g.num_vars,
                before.len() == g.num_vars,
                forall|j: int|
                    0 <= j < g.num_vars ==> lookup@[j] == (if term_max_power(
                        term.pairs@.take(m as int),
                        j as nat,
                    ) > before[j] {
                        term_max_power(term.pairs@.take(m as int), j as nat)
                    } else {
                        before[j] as nat
                    }),
            decreases term.pairs@.len() - m,
        {
            let var = term.pairs[m].0;
            let power = term.pairs[m].1;
            proof {
                assert(term.pairs@.take(m as int + 1).drop_last() =~= term.pairs@.take(m as int));
                assert(term.pairs@.take(m as int + 1).last() == term.pairs@[m as int]);
            }
            if power > lookup[var] {
                lookup.set(var, power);
            }
            m = m + 1;
        }
        proof {
            assert(term.pairs@.take(m as int) =~= term.pairs@);
            assert(g.terms@.take(i as int + 1).drop_last() =~= g.terms@.take(i as int));
            assert(g.terms@.take(i as int + 1).last() == g.terms@[i as int]);
        }
        i = i + 1;
    }
    proof {
        assert(g.terms@.take(i as int) =~= g.terms@);
    }
    lookup
}

impl<'a> Prover<'a> {
    /// The claim is valid, every challenge is a residue, and there are no more
    /// challenges than variables.
    pub open spec fn wf(&self) -> bool {
        &&& self.g.wf()
        &&& all_wf(self.vfy_rands@)
        &&& self.vfy_rands@.len() <= self.g.num_vars
    }

    /// The index of the variable that is free in the current round.
    pub open spec fn round(&self) -> nat {
        self.vfy_rands@.len()
    }

    /// The challenges received so far, as residues.
    pub open spec fn fixed(&self) -> Seq<nat> {
        values(self.vfy_rands@)
    }

    /// A prover of the claim that has received no challenge yet.
    pub fn new(g: &'a MPoly) -> (p: Self)
        ensures
            p.g == g,
            p.vfy_rands@.len() == 0,
    {
        Prover { g, vfy_rands: Vec::new() }
    }

    /// The value of a term's monomial with the free variable left out: the
    /// variables before it are set to the challenges, those after it to the
    /// coordinates of `point` (whose first coordinate stands in the free
    /// variable's place and is not read). With it comes the monomial that is
    /// left of the free variable, if the term names it.
    pub fn evaluate_term(&self, term: &SparseTerm, point: &Vec<Fe>) -> (r: (Fe, Option<SparseTerm>))
        requires
            self.wf(),
            all_wf(point@),
            term_wf(term.pairs@, self.g.num_vars as nat),
            self.round() + point@.len() == self.g.num_vars,
        ensures
            r.0.wf(),
            r.0@ == rest_value(term.pairs@, self.round(), self.fixed() + values(point@)) % (
            modulus() as int),
            fixed_term_of(term.pairs@, self.round(), r.1),
    {
        let j = self.vfy_rands.len();
        let ghost full = self.fixed() + values(point@);
        let mut fixed_term: Option<SparseTerm> = None;
        let mut product = Fe::one();
        let mut i: usize = 0;
        proof {
            lemma_small_mod(1, modulus());
        }
        while i < term.pairs.len()
            invariant
                self.wf(),
                all_wf(point@),
                term_wf(term.pairs@, self.g.num_vars as nat),
                self.round() + point@.len() == self.g.num_vars,
                j == self.vfy_rands@.len(),
                full == self.fixed() + values(point@),
                i <= term.pairs@.len(),
                product.wf(),
                product@ == rest_value(term.pairs@.take(i as int), j as nat, full) % (
                modulus() as int),
                fixed_term_of(term.pairs@.take(i as int), j as nat, fixed_term),
            decreases term.pairs@.len() - i,
        {
            let var = term.pairs[i].0;
            let power = term.pairs[i].1;
            let ghost prev = term.pairs@.take(i as int);
            let ghost next = term.pairs@.take(i as int + 1);
            proof {
                assert(next.drop_last() =~= prev);
                assert(next.last() == term.pairs@[i as int]);
                assert(term.pairs@[i as int].0 < self.g.num_vars);
            }
            if var == j {
                let single = vec![(var, power)];
                proof {
                    assert(single@.drop_last() =~= Seq::<(usize, usize)>::empty());
                    assert(total_degree(single@.drop_last()) == 0);
                    assert(total_degree(single@) == power);
                }
                let ft = SparseTerm::new(single);
                proof {
                    assert(next[i as int].0 == j);
                    assert(names_var(next, j as nat));
                    if power != 0 {
                        assert(ft.pairs@ =~= seq![(j, power)]);
                    } else {
                        assert(total_degree(ft.pairs@) == 0);
                    }
                }
                fixed_term = Some(ft);
            } else {
                let base = if var < j {
                    self.vfy_rands[var]
                } else {
                    point[var - j]
                };
                let factor = base.pow(power as u64);
                let ghost before = product@;
                product = product.mul(&factor);
                proof {
                    let m = modulus() as int;
                    let r = rest_value(prev, j as nat, full);
                    let p = pow(base@ as int, power as nat);
                    assert(full[var as int] == base@);
                    lemma_mul_mod_noop_general(r, p, m);
                    assert(rest_value(next, j as nat, full) == r * p);
                    if names_var(next, j as nat) {
                        let w = choose|w: int| 0 <= w < next.len() && (#[trigger] next[w]).0 == j;
                        assert(prev[w] == next[w]);
                        assert(names_var(prev, j as nat));
                    }
                    if names_var(prev, j as nat) {
                        let w = choose|w: int| 0 <= w < prev.len() && (#[trigger] prev[w]).0 == j;
                        assert(prev[w] == next[w]);
                        assert(names_var(next, j as nat));
                    }
                }
            }
            i = i + 1;
        }
        proof {
            assert(term.pairs@.take(i as int) =~= term.pairs@);
        }
        (product, fixed_term)
    }

    /// The claim as a polynomial in the free variable, with the variables
    /// before it set to the challenges and those after it to the coordinates
    /// of `points` (whose first coordinate stands in the free variable's place
    /// and is not read).
    pub fn evaluate_round(&self, points: Vec<Fe>) -> (sum: UPoly)
        requires
            self.wf(),
            all_wf(points@),
            self.round() + points@.len() == self.g.num_vars,
        ensures
            sum.wf(),
            forall|d: nat|
                #[trigger] sum.coeff(d) == point_coeff(
                    self.g.terms@,
                    self.round(),
                    self.fixed() + values(points@),
                    d,
                ) % (modulus() as int),
    {
        let ghost j = self.round();
        let ghost full = self.fixed() + values(points@);
        let ghost m = modulus() as int;
        let mut sum = UPoly::from_coefficients_vec(Vec::new());
        let mut i: usize = 0;
        while i < self.g.terms.len()
            invariant
                self.wf(),
                all_wf(points@),
                self.round() + points@.len() == self.g.num_vars,
                j == self.round(),
                full == self.fixed() + values(points@),
                m == modulus() as int,
                i <= self.g.terms@.len(),
                sum.wf(),
                forall|d: nat|
                    #[trigger] sum.coeff(d) == point_coeff(self.g.terms@.take(i as int), j, full, d)
                        % m,
            decreases self.g.terms@.len() - i,
        {
            let coeff = self.g.terms[i].0;
            let term = &self.g.terms[i].1;
            let (coeff_eval, fixed_term) = self.evaluate_term(term, &points);
            let c = coeff.mul(&coeff_eval);
            proof {
                lemma_free_power_fits(term.pairs@, j);
            }
            let deg = match fixed_term {
                Some(ft) => ft.degree(),
                None => 0,
            };
            let curr = UPoly::from_coefficients_vec(vec![(deg, c)]);
            let next = curr.add(&sum);
            proof {
                let t = term.pairs@;
                let r = rest_value(t, j, full);
                let prev = self.g.terms@.take(i as int);
                let upto = self.g.terms@.take(i as int + 1);
                assert(upto.drop_last() =~= prev);
                assert(upto.last() == self.g.terms@[i as int]);
                lemma_mul_mod_noop_general(coeff@ as int, r, m);
                assert(c@ == (coeff@ * r) % m);
                if !names_var(t, j) {
                    lemma_free_power_absent(t, j);
                }
                assert(deg == free_power(t, j));
                assert forall|d: nat| #[trigger] next.coeff(d) == point_coeff(upto, j, full, d) % m by {
                    let tc = term_coeff(coeff@, t, j, full, d);
                    let pc = point_coeff(prev, j, full, d);
                    assert(curr.coeff(d) == tc % m) by {
                        lemma_small_mod(0, modulus());
                        if curr.coeffs@.len() == 1 {
                            assert(curr.coeffs@.last() == (deg, c));
                            assert(coeff_at(curr.coeffs@.drop_last(), d) == 0);
                        }
                    }
                    lemma_add_mod_noop(tc, pc, m);
                }
            }
            sum = next;
            i = i + 1;
        }
        proof {
            assert(self.g.terms@.take(i as int) =~= self.g.terms@);
        }
        sum
    }

    /// The polynomial of the current round. A challenge, if one is given, is
    /// first added to those received; then the variables before the free one
    /// are set to the challenges, and the claim is summed over all boolean
    /// values of the variables after it. Only the first round goes without a
    /// challenge: once one has been received, every call must bring the next.
    pub fn get_unipoly(&mut self, vfy_msg: Option<Fe>) -> (sum: UPoly)
        requires
            old(self).wf(),
            vfy_msg is None ==> old(self).round() == 0,
            vfy_msg matches Some(msg) ==> msg.wf(),
            old(self).round() + (if vfy_msg is Some {
                1nat
            } else {
                0nat
            }) < old(self).g.num_vars,
            pow2((old(self).g.num_vars - 1) as nat) <= usize::MAX,
        ensures
            final(self).wf(),
            final(self).g == old(self).g,
            final(self).vfy_rands@ == (match vfy_msg {
                Some(msg) => old(self).vfy_rands@.push(msg),
                None => old(self).vfy_rands@,
            }),
            sum.wf(),
            forall|d: nat|
                #[trigger] sum.coeff(d) == round_coeff(
                    final(self).g.terms@,
                    final(self).fixed(),
                    (final(self).g.num_vars - final(self).round()) as nat,
                    pow2((final(self).g.num_vars - final(self).round() - 1) as nat),
                    d,
                ) % (modulus() as int),
            sum.spec_degree() <= max_power(final(self).g.terms@, final(self).round()),
    {
        if let Some(msg) = vfy_msg {
            self.vfy_rands.push(msg);
        }
        let v = self.g.num_vars - self.vfy_rands.len();
        let ghost j = self.round();
        let ghost fixed = self.fixed();
        let ghost m = modulus() as int;
        proof {
            if v - 1 < self.g.num_vars - 1 {
                lemma_pow2_strictly_increases((v - 1) as nat, (self.g.num_vars - 1) as nat);
            }
            lemma_pow2_strictly_increases((v - 1) as nat, v as nat);
        }
        let count = power_of_two(v - 1);
        let mut sum = UPoly::from_coefficients_vec(vec![(0, Fe::zero())]);
        let mut point: usize = 0;
        while point < count
            invariant
                self.wf(),
                j == self.round(),
                fixed == self.fixed(),
                m == modulus() as int,
                v == self.g.num_vars - self.vfy_rands@.len(),
                v >= 1,
                count == pow2((v - 1) as nat),
                count < pow2(v as nat),
                point <= count,
                sum.wf(),
                forall|d: nat|
                    #[trigger] sum.coeff(d) == round_coeff(
                        self.g.terms@,
                        fixed,
                        v as nat,
                        point as nat,
                        d,
                    ) % m,
            decreases count - point,
        {
            let at = bin_repr(point, v);
            let ghost moved = values(at@);
            let here = self.evaluate_round(at);
            let next = sum.add(&here);
            proof {
                assert(fixed + moved == round_point(fixed, point as nat, v as nat));
                assert forall|d: nat| #[trigger] next.coeff(d) == round_coeff(
                    self.g.terms@,
                    fixed,
                    v as nat,
                    (point + 1) as nat,
                    d,
                ) % m by {
                    let pc = point_coeff(self.g.terms@, j, fixed + moved, d);
                    let rc = round_coeff(self.g.terms@, fixed, v as nat, point as nat, d);
                    lemma_add_mod_noop(rc, pc, m);
                }
            }
            sum = next;
            point = point + 1;
        }
        proof {
            if sum.coeffs@.len() > 0 {
                let e = sum.coeffs@.last().0 as nat;
                assert(sum.coeffs@.last() == sum.coeffs@[sum.coeffs@.len() - 1]);
                assert(sum.coeff(e) == sum.coeffs@.last().1@);
                if e > max_power(self.g.terms@, j) {
                    lemma_round_coeff_above(self.g.terms@, fixed, v as nat, count as nat, e);
                }
            }
        }
        sum
    }
}

} // verus!
