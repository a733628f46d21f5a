//! Sums of the claim over the hypercube, and how the sums of successive rounds
//! fit together: the two boolean values of a round polynomial add up to the
//! previous round's polynomial at its challenge.

use vstd::prelude::*;
use vstd::arithmetic::power2::{pow2, lemma_pow2_pos, lemma_pow2_unfold, lemma_pow2_adds, lemma2_to64};
use vstd::arithmetic::div_mod::{
    lemma_basic_div,
    lemma_fundamental_div_mod,
    lemma_fundamental_div_mod_converse,
    lemma_mod_twice,
};
use crate::field::{Fe, modulus};
use crate::hypercube::{bit_at, hypercube_point};
use crate::poly::{SparseTerm, UPoly, coeff_at, poly_value};
use crate::reduction::{
    dense_value,
    lemma_dense_congruent,
    lemma_round_coeff_value,
    lemma_sparse_is_dense,
    max_power,
    round_coeff,
    round_point,
    round_sum,
    terms_wf,
};

verus! {

/// The claim with its first variables set to `pre`, summed over `count`
/// points of the hypercube of the last `dim` variables, from the point
/// numbered `start` on.
pub open spec fn cube_sum(
    terms: Seq<(Fe, SparseTerm)>,
    pre: Seq<nat>,
    dim: nat,
    start: nat,
    count: nat,
) -> int
    decreases count,
{
    if count == 0 {
        0
    } else {
        cube_sum(terms, pre, dim, start, (count - 1) as nat) + poly_value(
            terms,
            pre + hypercube_point((start + count - 1) as nat, dim),
        )
    }
}

/// The sum of the claim over the whole hypercube.
pub open spec fn hypercube_total(terms: Seq<(Fe, SparseTerm)>, num_vars: nat) -> int {
    cube_sum(terms, Seq::empty(), num_vars, 0, pow2(num_vars))
}

/// A sum over `a + b` points is the sum over the first `a` and the sum over
/// the `b` that follow.
pub proof fn lemma_cube_sum_split(
    terms: Seq<(Fe, SparseTerm)>,
    pre: Seq<nat>,
    dim: nat,
    a: nat,
    b: nat,
)
    ensures
        cube_sum(terms, pre, dim, 0, a + b) == cube_sum(terms, pre, dim, 0, a) + cube_sum(
            terms,
            pre,
            dim,
            a,
            b,
        ),
    decreases b,
{
    if b > 0 {
        lemma_cube_sum_split(terms, pre, dim, a, (b - 1) as nat);
        assert((a + b - 1) as nat == a + (b - 1) as nat);
    }
}

/// A point of the lower half of the hypercube starts with 0 and goes on as
/// the point of the same number in one dimension less.
pub proof fn lemma_point_low(i: nat, dim: nat)
    requires
        dim >= 1,
        i < pow2((dim - 1) as nat),
    ensures
        hypercube_point(i, dim) == seq![0nat] + hypercube_point(i, (dim - 1) as nat),
{
    let p = hypercube_point(i, dim);
    let q = seq![0nat] + hypercube_point(i, (dim - 1) as nat);
    assert forall|c: int| 0 <= c < dim implies p[c] == q[c] by {
        if c == 0 {
            lemma_basic_div(i as int, pow2((dim - 1) as nat) as int);
        } else {
            assert((dim - 1 - c) as nat == ((dim - 1) as nat - 1 - (c - 1)) as nat);
        }
    }
    assert(p =~= q);
}

/// A point of the upper half of the hypercube starts with 1 and goes on as
/// the point, in one dimension less, of its number within that half.
pub proof fn lemma_point_high(i: nat, dim: nat)
    requires
        dim >= 1,
        i < pow2((dim - 1) as nat),
    ensures
        hypercube_point(i + pow2((dim - 1) as nat), dim) == seq![1nat] + hypercube_point(
            i,
            (dim - 1) as nat,
        ),
{
    let half = pow2((dim - 1) as nat);
    let p = hypercube_point(i + half, dim);
    let q = seq![1nat] + hypercube_point(i, (dim - 1) as nat);
    assert forall|c: int| 0 <= c < dim implies p[c] == q[c] by {
        if c == 0 {
            lemma_fundamental_div_mod_converse((i + half) as int, half as int, 1, i as int);
        } else {
            let e = (dim - 1 - c) as nat;
            let d = pow2(e) as int;
            lemma_pow2_pos(e);
            lemma_pow2_adds(c as nat, e);
            lemma_pow2_unfold(c as nat);
            assert((c as nat + e) as nat == (dim - 1) as nat);
            let k = pow2((c - 1) as nat) as int;
            let quot = (i as int) / d;
            let rem = (i as int) % d;
            lemma_fundamental_div_mod(i as int, d);
            assert(half == (2 * k) * d);
            assert((quot + 2 * k) * d == d * quot + (2 * k) * d) by (nonlinear_arith);
            lemma_fundamental_div_mod_converse((i + half) as int, d, quot + 2 * k, rem);
            assert((quot + 2 * k) % 2 == quot % 2);
            assert(e == ((dim - 1) as nat - 1 - (c - 1)) as nat);
        }
    }
    assert(p =~= q);
}

/// Over the lower half of the hypercube the claim sums as it does with one
/// more variable set to 0.
pub proof fn lemma_cube_sum_low(terms: Seq<(Fe, SparseTerm)>, pre: Seq<nat>, dim: nat, count: nat)
    requires
        dim >= 1,
        count <= pow2((dim - 1) as nat),
    ensures
        cube_sum(terms, pre, dim, 0, count) == cube_sum(
            terms,
            pre.push(0),
            (dim - 1) as nat,
            0,
            count,
        ),
    decreases count,
{
    if count > 0 {
        let i = (count - 1) as nat;
        lemma_cube_sum_low(terms, pre, dim, i);
        lemma_point_low(i, dim);
        assert(pre + hypercube_point(i, dim) =~= pre.push(0) + hypercube_point(i, (dim - 1) as nat));
        assert((0 + count - 1) as nat == i);
    }
}

/// Over the upper half of the hypercube the claim sums as it does with one
/// more variable set to 1.
pub proof fn lemma_cube_sum_high(terms: Seq<(Fe, SparseTerm)>, pre: Seq<nat>, dim: nat, count: nat)
    requires
        dim >= 1,
        count <= pow2((dim - 1) as nat),
    ensures
        cube_sum(terms, pre, dim, pow2((dim - 1) as nat), count) == cube_sum(
            terms,
            pre.push(1),
            (dim - 1) as nat,
            0,
            count,
        ),
    decreases count,
{
    if count > 0 {
        let i = (count - 1) as nat;
        let half = pow2((dim - 1) as nat);
        lemma_cube_sum_high(terms, pre, dim, i);
        lemma_point_high(i, dim);
        assert(pre + hypercube_point(i + half, dim) =~= pre.push(1) + hypercube_point(
            i,
            (dim - 1) as nat,
        ));
        assert((half + count - 1) as nat == i + half);
        assert((0 + count - 1) as nat == i);
    }
}

/// A sum over a hypercube is the sum with the next variable set to 0 plus the
/// sum with it set to 1.
pub proof fn lemma_cube_halves(terms: Seq<(Fe, SparseTerm)>, pre: Seq<nat>, dim: nat)
    requires
        dim >= 1,
    ensures
        cube_sum(terms, pre, dim, 0, pow2(dim)) == cube_sum(
            terms,
            pre.push(0),
            (dim - 1) as nat,
            0,
            pow2((dim - 1) as nat),
        ) + cube_sum(terms, pre.push(1), (dim - 1) as nat, 0, pow2((dim - 1) as nat)),
{
    let half = pow2((dim - 1) as nat);
    lemma_pow2_unfold(dim);
    assert(pow2(dim) == half + half);
    lemma_cube_sum_split(terms, pre, dim, half, half);
    lemma_cube_sum_low(terms, pre, dim, half);
    lemma_cube_sum_high(terms, pre, dim, half);
}

/// The sum of a round with the free variable set to `x` is the sum over the
/// hypercube of the later variables with `x` added to the fixed ones.
pub proof fn lemma_round_sum_is_cube(
    terms: Seq<(Fe, SparseTerm)>,
    fixed: Seq<nat>,
    rest: nat,
    count: nat,
    x: nat,
)
    requires
        rest >= 1,
    ensures
        round_sum(terms, fixed, rest, count, x) == cube_sum(
            terms,
            fixed.push(x),
            (rest - 1) as nat,
            0,
            count,
        ),
    decreases count,
{
    if count > 0 {
        let i = (count - 1) as nat;
        lemma_round_sum_is_cube(terms, fixed, rest, i, x);
        let moved = round_point(fixed, i, rest).update(fixed.len() as int, x);
        let other = fixed.push(x) + hypercube_point(i, (rest - 1) as nat);
        assert forall|k: int| 0 <= k < moved.len() implies moved[k] == other[k] by {
            if k > fixed.len() {
                let c = k - fixed.len();
                assert(moved[k] == bit_at(i, rest, c));
                assert(other[k] == bit_at(i, (rest - 1) as nat, c - 1));
                assert((rest - 1 - c) as nat == ((rest - 1) as nat - 1 - (c - 1)) as nat);
            }
        }
        assert(moved =~= other);
        assert((0 + count - 1) as nat == i);
    }
}

/// The first round's two boolean values add up to the sum of the claim over
/// the whole hypercube.
pub proof fn lemma_first_round(terms: Seq<(Fe, SparseTerm)>, num_vars: nat)
    requires
        num_vars >= 1,
    ensures
        round_sum(terms, Seq::empty(), num_vars, pow2((num_vars - 1) as nat), 0) + round_sum(
            terms,
            Seq::empty(),
            num_vars,
            pow2((num_vars - 1) as nat),
            1,
        ) == hypercube_total(terms, num_vars),
{
    let half = pow2((num_vars - 1) as nat);
    let none = Seq::<nat>::empty();
    lemma_round_sum_is_cube(terms, none, num_vars, half, 0);
    lemma_round_sum_is_cube(terms, none, num_vars, half, 1);
    lemma_cube_halves(terms, none, num_vars);
}

/// A later round's two boolean values add up to the previous round's sum at
/// the challenge that fixed its variable.
pub proof fn lemma_next_round(terms: Seq<(Fe, SparseTerm)>, fixed: Seq<nat>, r: nat, rest: nat)
    requires
        rest >= 1,
    ensures
        round_sum(terms, fixed.push(r), rest, pow2((rest - 1) as nat), 0) + round_sum(
            terms,
            fixed.push(r),
            rest,
            pow2((rest - 1) as nat),
            1,
        ) == round_sum(terms, fixed, rest + 1, pow2(rest), r),
{
    let half = pow2((rest - 1) as nat);
    lemma_round_sum_is_cube(terms, fixed.push(r), rest, half, 0);
    lemma_round_sum_is_cube(terms, fixed.push(r), rest, half, 1);
    lemma_cube_halves(terms, fixed.push(r), rest);
    lemma_round_sum_is_cube(terms, fixed, rest + 1, pow2(rest), r);
    assert((rest + 1 - 1) as nat == rest);
}

/// The last round's sum at a point is the claim at the fixed coordinates
/// followed by that point.
pub proof fn lemma_last_round(terms: Seq<(Fe, SparseTerm)>, fixed: Seq<nat>, x: nat)
    ensures
        round_sum(terms, fixed, 1, 1, x) == poly_value(terms, fixed.push(x)),
{
    lemma_round_sum_is_cube(terms, fixed, 1, 1, x);
    let pre = fixed.push(x);
    assert(cube_sum(terms, pre, 0, 0, 0) == 0);
    assert(cube_sum(terms, pre, 0, 0, 1) == cube_sum(terms, pre, 0, 0, 0) + poly_value(
        terms,
        pre + hypercube_point(0, 0),
    ));
    assert(pre + hypercube_point(0, 0) =~= pre);
}

/// A round polynomial whose coefficients are the residues of the round's
/// coefficients has, at any point, a value with the residue of the round's
/// sum at that point.
pub proof fn lemma_round_value(
    h: UPoly,
    terms: Seq<(Fe, SparseTerm)>,
    fixed: Seq<nat>,
    rest: nat,
    count: nat,
    x: nat,
)
    requires
        h.wf(),
        terms_wf(terms, fixed.len() + rest),
        rest >= 1,
        h.spec_degree() <= max_power(terms, fixed.len()),
        forall|d: nat|
            #[trigger] h.coeff(d) == round_coeff(terms, fixed, rest, count, d) % (modulus() as int),
    ensures
        h.value_at(x) % (modulus() as int) == round_sum(terms, fixed, rest, count, x) % (
        modulus() as int),
{
    let m = modulus() as int;
    let n = max_power(terms, fixed.len()) + 1;
    let s = h.coeffs@;
    let f = |d: nat| coeff_at(s, d) as int;
    let g = |d: nat| round_coeff(terms, fixed, rest, count, d);
    assert forall|i: int| 0 <= i < s.len() implies (#[trigger] s[i]).0 < n by {
        assert(s.last() == s[s.len() - 1]);
    }
    lemma_sparse_is_dense(s, n, x);
    assert forall|d: nat| d < n implies (#[trigger] f(d)) % m == g(d) % m by {
        assert(f(d) == h.coeff(d));
        lemma_mod_twice(g(d), m);
    }
    lemma_dense_congruent(f, g, n, x as int, m);
    lemma_round_coeff_value(terms, fixed, rest, count, n, x);
}

} // verus!
