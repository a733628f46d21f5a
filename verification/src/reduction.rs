//! The mathematics of one round: what a round polynomial's coefficients are,
//! and why its value at a point is the claim summed over the rest of the
//! hypercube.
//!
//! Everything here is over unbounded integers. The field only enters where a
//! computed element is said to be the residue of one of these integers.

use vstd::prelude::*;
use vstd::arithmetic::power::{pow, lemma_pow0};
use vstd::arithmetic::div_mod::{lemma_add_mod_noop, lemma_mul_mod_noop_general};
use crate::field::{Fe, modulus};
use crate::hypercube::hypercube_point;
use crate::poly::{SparseTerm, coeff_at, poly_value, sparse_value, term_value, term_wf};

verus! {

/// The power that variable `j` has in a monomial: that of the last pair that
/// names it, zero where none does.
pub open spec fn free_power(t: Seq<(usize, usize)>, j: nat) -> nat
    decreases t.len(),
{
    if t.len() == 0 {
        0
    } else if t.last().0 == j {
        t.last().1 as nat
    } else {
        free_power(t.drop_last(), j)
    }
}

/// Whether a monomial names variable `j`.
pub open spec fn names_var(t: Seq<(usize, usize)>, j: nat) -> bool {
    exists|i: int| 0 <= i < t.len() && (#[trigger] t[i]).0 == j
}

/// No variable occurs twice in the monomial.
pub open spec fn distinct_vars(t: Seq<(usize, usize)>) -> bool {
    forall|i: int, k: int| 0 <= i < k < t.len() ==> (#[trigger] t[i]).0 != (#[trigger] t[k]).0
}

/// The value of a monomial at a point with variable `j` left out: the product
/// of the powers of all its other variables.
pub open spec fn rest_value(t: Seq<(usize, usize)>, j: nat, point: Seq<nat>) -> int
    decreases t.len(),
{
    if t.len() == 0 {
        1
    } else if t.last().0 == j {
        rest_value(t.drop_last(), j, point)
    } else {
        rest_value(t.drop_last(), j, point) * pow(
            point[t.last().0 as int] as int,
            t.last().1 as nat,
        )
    }
}

/// What one term gives to the coefficient of the power `d` of variable `j`:
/// its coefficient times the rest of its monomial, where the monomial has
/// variable `j` to the power `d`, and nothing otherwise.
pub open spec fn term_coeff(c: nat, t: Seq<(usize, usize)>, j: nat, point: Seq<nat>, d: nat) -> int {
    if free_power(t, j) == d {
        c * rest_value(t, j, point)
    } else {
        0
    }
}

/// The coefficient of the power `d` of variable `j` in the claim with all
/// other variables set as in `point`.
pub open spec fn point_coeff(terms: Seq<(Fe, SparseTerm)>, j: nat, point: Seq<nat>, d: nat) -> int
    decreases terms.len(),
{
    if terms.len() == 0 {
        0
    } else {
        point_coeff(terms.drop_last(), j, point, d) + term_coeff(
            terms.last().0@,
            terms.last().1.pairs@,
            j,
            point,
            d,
        )
    }
}

/// The point at which round `fixed.len()` looks at the claim for the
/// assignment numbered `index`: the fixed coordinates, then the `rest` bits of
/// `index`, the first of which stands in the free variable's place.
pub open spec fn round_point(fixed: Seq<nat>, index: nat, rest: nat) -> Seq<nat> {
    fixed + hypercube_point(index, rest)
}

/// The coefficient of the power `d` in the round polynomial, summed over the
/// first `count` assignments of the variables after the free one.
pub open spec fn round_coeff(
    terms: Seq<(Fe, SparseTerm)>,
    fixed: Seq<nat>,
    rest: nat,
    count: nat,
    d: nat,
) -> int
    decreases count,
{
    if count == 0 {
        0
    } else {
        round_coeff(terms, fixed, rest, (count - 1) as nat, d) + point_coeff(
            terms,
            fixed.len(),
            round_point(fixed, (count - 1) as nat, rest),
            d,
        )
    }
}

/// The claim with the free variable set to `x`, summed over the first `count`
/// assignments of the variables after it.
pub open spec fn round_sum(
    terms: Seq<(Fe, SparseTerm)>,
    fixed: Seq<nat>,
    rest: nat,
    count: nat,
    x: nat,
) -> int
    decreases count,
{
    if count == 0 {
        0
    } else {
        round_sum(terms, fixed, rest, (count - 1) as nat, x) + poly_value(
            terms,
            round_point(fixed, (count - 1) as nat, rest).update(fixed.len() as int, x),
        )
    }
}

/// The highest power that variable `j` has in any term.
pub open spec fn max_power(terms: Seq<(Fe, SparseTerm)>, j: nat) -> nat
    decreases terms.len(),
{
    if terms.len() == 0 {
        0
    } else {
        let rest = max_power(terms.drop_last(), j);
        let here = term_max_power(terms.last().1.pairs@, j);
        if here > rest {
            here
        } else {
            rest
        }
    }
}

/// The highest power among the pairs of a monomial that name variable `j`.
pub open spec fn term_max_power(t: Seq<(usize, usize)>, j: nat) -> nat
    decreases t.len(),
{
    if t.len() == 0 {
        0
    } else {
        let rest = term_max_power(t.drop_last(), j);
        if t.last().0 == j && t.last().1 > rest {
            t.last().1 as nat
        } else {
            rest
        }
    }
}

/// The value at `x` of the polynomial whose coefficient of the power `d` is
/// `f(d)`, for the powers below `n`.
pub open spec fn dense_value(f: spec_fn(nat) -> int, n: nat, x: int) -> int
    decreases n,
{
    if n == 0 {
        0
    } else {
        dense_value(f, (n - 1) as nat, x) + f((n - 1) as nat) * pow(x, (n - 1) as nat)
    }
}

/// A variable that a monomial does not name has power zero in it.
pub proof fn lemma_free_power_absent(t: Seq<(usize, usize)>, j: nat)
    requires
        forall|i: int| 0 <= i < t.len() ==> (#[trigger] t[i]).0 != j,
    ensures
        free_power(t, j) == 0,
    decreases t.len(),
{
    if t.len() > 0 {
        lemma_free_power_absent(t.drop_last(), j);
    }
}

/// The power of a variable in a monomial fits the machine word.
pub proof fn lemma_free_power_fits(t: Seq<(usize, usize)>, j: nat)
    ensures
        free_power(t, j) <= usize::MAX,
    decreases t.len(),
{
    if t.len() > 0 {
        lemma_free_power_fits(t.drop_last(), j);
    }
}

/// The power of a variable in a monomial is at most the highest power that
/// the variable has there.
pub proof fn lemma_free_power_bounded(t: Seq<(usize, usize)>, j: nat)
    ensures
        free_power(t, j) <= term_max_power(t, j),
    decreases t.len(),
{
    if t.len() > 0 {
        lemma_free_power_bounded(t.drop_last(), j);
    }
}

/// A monomial over distinct variables is the rest of it times the free
/// variable's power.
pub proof fn lemma_term_split(t: Seq<(usize, usize)>, j: nat, point: Seq<nat>)
    requires
        distinct_vars(t),
    ensures
        term_value(t, point) == rest_value(t, j, point) * pow(
            point[j as int] as int,
            free_power(t, j),
        ),
    decreases t.len(),
{
    let x = point[j as int] as int;
    lemma_pow0(x);
    if t.len() > 0 {
        let dl = t.drop_last();
        lemma_term_split(dl, j, point);
        let a = rest_value(dl, j, point);
        let b = pow(x, free_power(dl, j));
        let c = pow(point[t.last().0 as int] as int, t.last().1 as nat);
        assert(term_value(t, point) == (a * b) * c);
        if t.last().0 == j {
            assert forall|i: int| 0 <= i < dl.len() implies (#[trigger] dl[i]).0 != j by {
                assert(dl[i] == t[i]);
                assert(t[t.len() - 1].0 == j);
            }
            lemma_free_power_absent(dl, j);
            assert(b == 1);
            assert((a * b) * c == a * c) by (nonlinear_arith)
                requires
                    b == 1,
            ;
        } else {
            assert((a * b) * c == (a * c) * b) by (nonlinear_arith);
        }
    }
}

/// The rest of a monomial does not look at the free variable's coordinate.
pub proof fn lemma_rest_value_ignores(t: Seq<(usize, usize)>, j: nat, here: Seq<nat>, there: Seq<nat>)
    requires
        forall|i: int|
            0 <= i < t.len() && (#[trigger] t[i]).0 != j ==> here[t[i].0 as int] == there[t[i].0 as int],
    ensures
        rest_value(t, j, here) == rest_value(t, j, there),
    decreases t.len(),
{
    if t.len() > 0 {
        let dl = t.drop_last();
        assert forall|i: int| 0 <= i < dl.len() && (#[trigger] dl[i]).0 != j implies here[dl[i].0 as int]
            == there[dl[i].0 as int] by {
            assert(dl[i] == t[i]);
        }
        lemma_rest_value_ignores(dl, j, here, there);
        assert(t.last() == t[t.len() - 1]);
    }
}

/// The value of a sum of coefficient functions is the sum of their values.
pub proof fn lemma_dense_add(
    f: spec_fn(nat) -> int,
    g: spec_fn(nat) -> int,
    h: spec_fn(nat) -> int,
    n: nat,
    x: int,
)
    requires
        forall|d: nat| d < n ==> #[trigger] h(d) == f(d) + g(d),
    ensures
        dense_value(h, n, x) == dense_value(f, n, x) + dense_value(g, n, x),
    decreases n,
{
    if n > 0 {
        lemma_dense_add(f, g, h, (n - 1) as nat, x);
        let m = (n - 1) as nat;
        let p = pow(x, m);
        assert(h(m) * p == f(m) * p + g(m) * p) by (nonlinear_arith)
            requires
                h(m) == f(m) + g(m),
        ;
    }
}

/// A coefficient function that is zero below `n` has value zero.
pub proof fn lemma_dense_zero(f: spec_fn(nat) -> int, n: nat, x: int)
    requires
        forall|d: nat| d < n ==> #[trigger] f(d) == 0,
    ensures
        dense_value(f, n, x) == 0,
    decreases n,
{
    if n > 0 {
        lemma_dense_zero(f, (n - 1) as nat, x);
        let m = (n - 1) as nat;
        let p = pow(x, m);
        assert(f(m) * p == 0) by (nonlinear_arith)
            requires
                f(m) == 0,
        ;
    }
}

/// A coefficient function with the one coefficient `w` at the power `e` has
/// the value `w` times `x` to the `e`.
pub proof fn lemma_dense_single(f: spec_fn(nat) -> int, e: nat, w: int, n: nat, x: int)
    requires
        forall|d: nat| d < n ==> #[trigger] f(d) == (if d == e {
            w
        } else {
            0
        }),
        e < n,
    ensures
        dense_value(f, n, x) == w * pow(x, e),
    decreases n,
{
    let m = (n - 1) as nat;
    let p = pow(x, m);
    if m == e {
        lemma_dense_zero(f, m, x);
    } else {
        lemma_dense_single(f, e, w, m, x);
        assert(f(m) * p == 0) by (nonlinear_arith)
            requires
                f(m) == 0,
        ;
    }
}

/// Two coefficient functions that agree modulo `m` below `n` have values that
/// agree modulo `m`.
pub proof fn lemma_dense_congruent(
    f: spec_fn(nat) -> int,
    g: spec_fn(nat) -> int,
    n: nat,
    x: int,
    m: int,
)
    requires
        0 < m,
        forall|d: nat| d < n ==> (#[trigger] f(d)) % m == g(d) % m,
    ensures
        dense_value(f, n, x) % m == dense_value(g, n, x) % m,
    decreases n,
{
    if n > 0 {
        let k = (n - 1) as nat;
        lemma_dense_congruent(f, g, k, x, m);
        let p = pow(x, k);
        lemma_mul_mod_noop_general(f(k), p, m);
        lemma_mul_mod_noop_general(g(k), p, m);
        lemma_add_mod_noop(dense_value(f, k, x), f(k) * p, m);
        lemma_add_mod_noop(dense_value(g, k, x), g(k) * p, m);
    }
}

/// With rising degrees, a degree above all those of the pairs has coefficient
/// zero.
pub proof fn lemma_coeff_at_above(s: Seq<(usize, Fe)>, d: nat)
    requires
        forall|i: int| 0 <= i < s.len() ==> (#[trigger] s[i]).0 < d,
    ensures
        coeff_at(s, d) == 0,
    decreases s.len(),
{
    if s.len() > 0 {
        let dl = s.drop_last();
        assert forall|i: int| 0 <= i < dl.len() implies (#[trigger] dl[i]).0 < d by {
            assert(dl[i] == s[i]);
        }
        lemma_coeff_at_above(dl, d);
        assert(s.last() == s[s.len() - 1]);
    }
}

/// A univariate polynomial with rising degrees has the value of its
/// coefficient function, taken over any range that holds all its degrees.
pub proof fn lemma_sparse_is_dense(s: Seq<(usize, Fe)>, n: nat, x: nat)
    requires
        forall|i: int, k: int| 0 <= i < k < s.len() ==> (#[trigger] s[i]).0 < (#[trigger] s[k]).0,
        forall|i: int| 0 <= i < s.len() ==> (#[trigger] s[i]).0 < n,
    ensures
        sparse_value(s, x) == dense_value(|d: nat| coeff_at(s, d) as int, n, x as int),
    decreases s.len(),
{
    let f = |d: nat| coeff_at(s, d) as int;
    if s.len() == 0 {
        lemma_dense_zero(f, n, x as int);
    } else {
        let dl = s.drop_last();
        let e = s.last().0 as nat;
        let c = s.last().1@ as int;
        let g = |d: nat| coeff_at(dl, d) as int;
        let one = |d: nat|
            if d == e {
                c
            } else {
                0int
            };
        assert(s.last() == s[s.len() - 1]);
        assert forall|i: int, k: int| 0 <= i < k < dl.len() implies (#[trigger] dl[i]).0 < (
        #[trigger] dl[k]).0 by {
            assert(dl[i] == s[i] && dl[k] == s[k]);
        }
        assert forall|i: int| 0 <= i < dl.len() implies (#[trigger] dl[i]).0 < e by {
            assert(dl[i] == s[i]);
        }
        lemma_sparse_is_dense(dl, n, x);
        lemma_coeff_at_above(dl, e);
        assert forall|d: nat| d < n implies #[trigger] f(d) == g(d) + one(d) by {}
        lemma_dense_add(g, one, f, n, x as int);
        lemma_dense_single(one, e, c, n, x as int);
    }
}

/// Every monomial of the terms is over distinct variables below `num_vars`.
pub open spec fn terms_wf(terms: Seq<(Fe, SparseTerm)>, num_vars: nat) -> bool {
    forall|i: int| 0 <= i < terms.len() ==> term_wf((#[trigger] terms[i]).1.pairs@, num_vars)
}

/// No term gives anything to a power above the highest that the variable has.
pub proof fn lemma_point_coeff_above(terms: Seq<(Fe, SparseTerm)>, j: nat, point: Seq<nat>, d: nat)
    requires
        d > max_power(terms, j),
    ensures
        point_coeff(terms, j, point, d) == 0,
    decreases terms.len(),
{
    if terms.len() > 0 {
        lemma_point_coeff_above(terms.drop_last(), j, point, d);
        lemma_free_power_bounded(terms.last().1.pairs@, j);
    }
}

/// The round polynomial has no power above the highest that the free variable
/// has in the claim.
pub proof fn lemma_round_coeff_above(
    terms: Seq<(Fe, SparseTerm)>,
    fixed: Seq<nat>,
    rest: nat,
    count: nat,
    d: nat,
)
    requires
        d > max_power(terms, fixed.len()),
    ensures
        round_coeff(terms, fixed, rest, count, d) == 0,
    decreases count,
{
    if count > 0 {
        lemma_round_coeff_above(terms, fixed, rest, (count - 1) as nat, d);
        lemma_point_coeff_above(
            terms,
            fixed.len(),
            round_point(fixed, (count - 1) as nat, rest),
            d,
        );
    }
}

/// With all other variables set as in `point`, the coefficients that the terms
/// give to the powers of variable `j` make a polynomial whose value at `x` is
/// the claim at `point` with `x` in place `j`.
pub proof fn lemma_point_coeff_value(
    terms: Seq<(Fe, SparseTerm)>,
    j: nat,
    point: Seq<nat>,
    n: nat,
    x: nat,
)
    requires
        terms_wf(terms, point.len()),
        j < point.len(),
        n > max_power(terms, j),
    ensures
        dense_value(|d: nat| point_coeff(terms, j, point, d), n, x as int) == poly_value(
            terms,
            point.update(j as int, x),
        ),
    decreases terms.len(),
{
    let f = |d: nat| point_coeff(terms, j, point, d);
    if terms.len() == 0 {
        lemma_dense_zero(f, n, x as int);
    } else {
        let dl = terms.drop_last();
        let c = terms.last().0@;
        let t = terms.last().1.pairs@;
        let moved = point.update(j as int, x);
        let e = free_power(t, j);
        let w = c * rest_value(t, j, point);
        let g = |d: nat| point_coeff(dl, j, point, d);
        let one = |d: nat| term_coeff(c, t, j, point, d);
        assert(terms.last() == terms[terms.len() - 1]);
        assert(terms_wf(dl, point.len())) by {
            assert forall|i: int| 0 <= i < dl.len() implies term_wf(
                (#[trigger] dl[i]).1.pairs@,
                point.len(),
            ) by {
                assert(dl[i] == terms[i]);
            }
        }
        lemma_point_coeff_value(dl, j, point, n, x);
        assert forall|d: nat| d < n implies #[trigger] f(d) == g(d) + one(d) by {}
        lemma_dense_add(g, one, f, n, x as int);
        lemma_free_power_bounded(t, j);
        lemma_dense_single(one, e, w, n, x as int);
        lemma_term_split(t, j, moved);
        lemma_rest_value_ignores(t, j, moved, point);
        let r = rest_value(t, j, point);
        let p = pow(x as int, e);
        assert(c * (r * p) == (c * r) * p) by (nonlinear_arith);
    }
}

/// The round polynomial's coefficients make a polynomial whose value at `x`
/// is the claim with the free variable set to `x`, summed over the
/// assignments of the variables after it.
pub proof fn lemma_round_coeff_value(
    terms: Seq<(Fe, SparseTerm)>,
    fixed: Seq<nat>,
    rest: nat,
    count: nat,
    n: nat,
    x: nat,
)
    requires
        terms_wf(terms, fixed.len() + rest),
        rest > 0,
        n > max_power(terms, fixed.len()),
    ensures
        dense_value(|d: nat| round_coeff(terms, fixed, rest, count, d), n, x as int) == round_sum(
            terms,
            fixed,
            rest,
            count,
            x,
        ),
    decreases count,
{
    let f = |d: nat| round_coeff(terms, fixed, rest, count, d);
    if count == 0 {
        lemma_dense_zero(f, n, x as int);
    } else {
        let before = (count - 1) as nat;
        let point = round_point(fixed, before, rest);
        let g = |d: nat| round_coeff(terms, fixed, rest, before, d);
        let one = |d: nat| point_coeff(terms, fixed.len(), point, d);
        lemma_round_coeff_value(terms, fixed, rest, before, n, x);
        assert forall|d: nat| d < n implies #[trigger] f(d) == g(d) + one(d) by {}
        lemma_dense_add(g, one, f, n, x as int);
        lemma_point_coeff_value(terms, fixed.len(), point, n, x);
    }
}

/// The highest power of a variable fits the machine word.
pub proof fn lemma_max_power_fits(terms: Seq<(Fe, SparseTerm)>, j: nat)
    ensures
        max_power(terms, j) <= usize::MAX,
    decreases terms.len(),
{
    if terms.len() > 0 {
        lemma_max_power_fits(terms.drop_last(), j);
        lemma_term_max_power_fits(terms.last().1.pairs@, j);
    }
}

/// The highest power of a variable in a monomial fits the machine word.
pub proof fn lemma_term_max_power_fits(t: Seq<(usize, usize)>, j: nat)
    ensures
        term_max_power(t, j) <= usize::MAX,
    decreases t.len(),
{
    if t.len() > 0 {
        lemma_term_max_power_fits(t.drop_last(), j);
    }
}

/// A power with a coefficient other than zero is the degree of one of the
/// pairs.
pub proof fn lemma_coeff_at_present(s: Seq<(usize, Fe)>, d: nat)
    requires
        coeff_at(s, d) != 0,
    ensures
        exists|i: int| 0 <= i < s.len() && (#[trigger] s[i]).0 == d,
    decreases s.len(),
{
    if s.len() > 0 {
        if s.last().0 == d {
            assert(s[s.len() - 1].0 == d);
        } else {
            lemma_coeff_at_present(s.drop_last(), d);
            let i = choose|i: int| 0 <= i < s.drop_last().len() && (#[trigger] s.drop_last()[i]).0 == d;
            assert(s[i].0 == d);
        }
    }
}

} // verus!
