use ark_ff::{BigInt, Field, PrimeField};
use ark_poly::polynomial::multivariate::{SparsePolynomial, SparseTerm as ArkTerm, Term};
use ark_poly::{DenseMVPolynomial, Polynomial};
use ark_test_curves::bls12_381::Fq;
use sumcheck::claim::{build_poly, hypercube_sum, term_fits, term_is_valid, Rejection};
use sumcheck::field::Fe;
use sumcheck::hypercube::bin_repr;
use sumcheck::poly::{MPoly, SparseTerm, UPoly};
use sumcheck::protocol::{
    check_final, check_round, num_from_draw, rand_elem, rand_num, verify, verify_per_variable,
    verify_with_challenges,
};
use sumcheck::prover::{max_degrees, power_of_two, Prover};

fn to_fq(x: &Fe) -> Fq {
    Fq::from_bigint(BigInt::new(x.limbs)).unwrap()
}

fn from_fq(x: Fq) -> Fe {
    Fe { limbs: x.into_bigint().0 }
}

fn term(pairs: Vec<(usize, usize)>) -> SparseTerm {
    SparseTerm { pairs }
}

// g = 2(x1)^3 + (x1)(x3) + (x2)(x3)
fn example() -> MPoly {
    build_poly(
        3,
        vec![2, 1, 1],
        vec![term(vec![(0, 3)]), term(vec![(0, 1), (2, 1)]), term(vec![(1, 1), (2, 1)])],
    )
    .unwrap()
}

fn ark_example() -> SparsePolynomial<Fq, ArkTerm> {
    SparsePolynomial::from_coefficients_vec(
        3,
        vec![
            (Fq::from(2), ArkTerm::new(vec![(0, 3)])),
            (Fq::from(1), ArkTerm::new(vec![(0, 1), (2, 1)])),
            (Fq::from(1), ArkTerm::new(vec![(1, 1), (2, 1)])),
        ],
    )
}

// Normal summation of polynomial over the hypercube
fn normal_sum(g: &SparsePolynomial<Fq, ArkTerm>) -> Fq {
    let n = 2u32.pow(g.num_vars as u32);
    let mut sum = Fq::from(0);
    for i in 0..n {
        let point: Vec<Fq> = bin_repr(i as usize, g.num_vars).iter().map(to_fq).collect();
        sum += g.evaluate(&point)
    }
    sum
}

fn coeffs(h: &UPoly) -> Vec<(usize, Fq)> {
    h.coeffs.iter().map(|(d, c)| (*d, to_fq(c))).collect()
}

#[test]
fn sumcheck_test() {
    let g = example();
    let g_sum = hypercube_sum(&g);
    assert!(g_sum.equals(&Fe::from_u64(12)));
    assert_eq!(to_fq(&g_sum), normal_sum(&ark_example()));
    assert_eq!(verify(&g, g_sum, 3), Ok(()));

    // some random tests. 10 times, with degree at most 5, number of variables at most 8, and at most 15 non-zero terms.
    for _i in 0..10 {
        let num_var = rand_num(8).unwrap() + 1;
        let deg = rand_num(5).unwrap() + 1;
        let non_zero = rand_num(deg.pow(num_var as u32)).unwrap() % 15 + 1;
        let mut coeff = vec![];
        let mut terms = vec![];
        let mut ark_terms = vec![];
        for _j in 0..non_zero {
            let mut pows = vec![];
            for i in 0..num_var {
                pows.push((i, rand_num(deg).unwrap()));
            }
            let c = rand_num(20).unwrap() as u32 + 1;
            coeff.push(c as i128);
            ark_terms.push((Fq::from(c), ArkTerm::new(pows.clone())));
            terms.push(term(pows));
        }
        let g = build_poly(num_var, coeff, terms).unwrap();
        let g_sum = hypercube_sum(&g);
        let ark_g = SparsePolynomial::from_coefficients_vec(num_var, ark_terms);
        assert_eq!(to_fq(&g_sum), normal_sum(&ark_g));
        assert_eq!(verify(&g, g_sum, deg), Ok(()));
    }
}

#[test]
fn wrong_sum_is_rejected() {
    let g = example();
    assert_eq!(verify(&g, Fe::from_u64(13), 3), Err(Rejection::ConsistencyMismatch));
    for _ in 0..20 {
        let c = rand_elem().unwrap();
        if !c.equals(&Fe::from_u64(12)) {
            assert_eq!(verify(&g, c, 3), Err(Rejection::ConsistencyMismatch));
        }
    }
}

#[test]
fn low_degree_bound_is_rejected() {
    let g = example();
    assert_eq!(verify(&g, Fe::from_u64(12), 2), Err(Rejection::DegreeBoundExceeded));
    assert_eq!(verify(&g, Fe::from_u64(12), 0), Err(Rejection::DegreeBoundExceeded));
    // the degree is looked at before the values
    assert_eq!(verify(&g, Fe::from_u64(13), 2), Err(Rejection::DegreeBoundExceeded));
}

#[test]
fn per_variable_bound_is_enough() {
    // with no bound from the caller, each variable's own bound is all that is asked
    let g = example();
    assert_eq!(verify(&g, Fe::from_u64(12), usize::MAX), Ok(()));
    assert_eq!(max_degrees(&g), vec![3, 1, 1]);
}

#[test]
fn verify_per_variable_decides_by_the_sum() {
    let g = example();
    assert_eq!(verify_per_variable(&g, Fe::from_u64(12)), Ok(()));
    assert_eq!(verify_per_variable(&g, Fe::from_u64(13)), Err(Rejection::ConsistencyMismatch));
    assert_eq!(verify_per_variable(&g, Fe::zero()), Err(Rejection::ConsistencyMismatch));
    let big = Fe { limbs: [u64::MAX; 6] };
    assert_eq!(verify_per_variable(&g, big), Err(Rejection::MalformedClaim));
    // a claim with a negative coefficient, against its sum by enumeration
    let g = build_poly(
        4,
        vec![-3, 7, 1],
        vec![term(vec![(0, 2), (3, 5)]), term(vec![(1, 1), (2, 4)]), term(vec![])],
    )
    .unwrap();
    // -3 * 4 + 7 * 4 + 16
    assert!(hypercube_sum(&g).equals(&Fe::from_u64(32)));
    assert_eq!(verify_per_variable(&g, Fe::from_u64(32)), Ok(()));
    assert_eq!(verify_per_variable(&g, Fe::from_u64(31)), Err(Rejection::ConsistencyMismatch));
}

#[test]
fn malformed_claim_is_rejected() {
    // a coefficient list and a term list of different lengths
    assert_eq!(
        build_poly(3, vec![2, 1], vec![term(vec![(0, 3)])]).unwrap_err(),
        Rejection::MalformedClaim
    );
    // a variable outside the declared range
    assert_eq!(
        build_poly(3, vec![2], vec![term(vec![(3, 1)])]).unwrap_err(),
        Rejection::MalformedClaim
    );
    // a variable named twice
    assert_eq!(
        build_poly(3, vec![2], vec![term(vec![(0, 1), (0, 2)])]).unwrap_err(),
        Rejection::MalformedClaim
    );
    // a claim put together by hand with a variable out of range
    let g = MPoly { num_vars: 2, terms: vec![(Fe::from_u64(1), term(vec![(2, 1)]))] };
    assert!(!g.is_valid());
    assert_eq!(verify(&g, Fe::from_u64(0), 3), Err(Rejection::MalformedClaim));
    // a claimed sum that is no residue
    let big = Fe { limbs: [u64::MAX; 6] };
    assert!(!big.is_canonical());
    assert_eq!(verify(&example(), big, 3), Err(Rejection::MalformedClaim));
}

#[test]
fn powers_beyond_the_machine_word_are_malformed() {
    // the powers of the first monomial add up to one more than fits
    assert_eq!(
        build_poly(2, vec![1, 1], vec![term(vec![(0, usize::MAX), (1, 1)]), term(vec![])])
            .unwrap_err(),
        Rejection::MalformedClaim
    );
    assert_eq!(
        build_poly(
            3,
            vec![4],
            vec![term(vec![(0, usize::MAX / 2), (1, usize::MAX / 2), (2, 2)])]
        )
        .unwrap_err(),
        Rejection::MalformedClaim
    );
    // a sum that just fits is taken
    let g = build_poly(2, vec![1, 1], vec![term(vec![(0, usize::MAX - 1), (1, 1)]), term(vec![])])
        .unwrap();
    assert_eq!(g.terms.len(), 2);
    assert!(g.is_valid());
    let g = build_poly(1, vec![3], vec![term(vec![(0, usize::MAX)])]).unwrap();
    assert_eq!(g.terms[0].1.pairs, vec![(0, usize::MAX)]);
}

#[test]
fn term_fits_adds_the_powers() {
    assert!(term_fits(&vec![]));
    assert!(term_fits(&vec![(0, 3), (2, 1)]));
    assert!(term_fits(&vec![(0, usize::MAX)]));
    assert!(term_fits(&vec![(0, usize::MAX - 1), (1, 1)]));
    assert!(term_fits(&vec![(0, usize::MAX), (1, 0)]));
    assert!(!term_fits(&vec![(0, usize::MAX), (1, 1)]));
    assert!(!term_fits(&vec![(0, 1), (1, usize::MAX)]));
    assert!(!term_fits(&vec![(0, usize::MAX / 2 + 1), (1, usize::MAX / 2 + 1)]));
    // a later power that would make the sum wrap round to a small number
    assert!(!term_fits(&vec![(0, usize::MAX), (1, 2), (2, 5)]));
}

#[test]
fn build_poly_keeps_the_value() {
    // 2 x0 + 3 x0 - x1^2 + x1^2 + 4, merged, against the same terms kept apart
    let pairs = vec![vec![(0, 1)], vec![(0, 1)], vec![(1, 2)], vec![(1, 2)], vec![]];
    let coeff: Vec<i128> = vec![2, 3, -1, 1, 4];
    let merged =
        build_poly(2, coeff.clone(), pairs.iter().map(|p| term(p.clone())).collect()).unwrap();
    assert_eq!(merged.terms.len(), 2);
    let apart = MPoly {
        num_vars: 2,
        terms: coeff
            .iter()
            .zip(pairs.iter())
            .map(|(c, p)| (from_fq(Fq::from(*c)), term(p.clone())))
            .collect(),
    };
    assert!(apart.is_valid());
    // 4 points of value 4, and 5 x0 at the two points where x0 is 1
    assert!(hypercube_sum(&merged).equals(&Fe::from_u64(26)));
    assert!(hypercube_sum(&apart).equals(&Fe::from_u64(26)));
    // the same round polynomials
    let mut p = Prover::new(&merged);
    let mut q = Prover::new(&apart);
    assert_eq!(coeffs(&p.get_unipoly(None)), coeffs(&q.get_unipoly(None)));
    let r = Fe::from_u64(11);
    assert_eq!(coeffs(&p.get_unipoly(Some(r))), coeffs(&q.get_unipoly(Some(r))));
    assert_eq!(verify(&merged, Fe::from_u64(26), 2), Ok(()));
    assert_eq!(verify(&apart, Fe::from_u64(26), 2), Ok(()));
}

#[test]
fn term_validity() {
    assert!(term_is_valid(&vec![], 0));
    assert!(term_is_valid(&vec![(0, 3), (2, 1)], 3));
    assert!(term_is_valid(&vec![(2, 0), (1, 7)], 3));
    assert!(!term_is_valid(&vec![(0, 3), (3, 1)], 3));
    assert!(!term_is_valid(&vec![(1, 3), (0, 1), (1, 1)], 3));
}

#[test]
fn bin_repr_is_most_significant_first() {
    let one = Fq::from(1);
    let zero = Fq::from(0);
    let bits: Vec<Fq> = bin_repr(5, 3).iter().map(to_fq).collect();
    assert_eq!(bits, vec![one, zero, one]);
    let bits: Vec<Fq> = bin_repr(1, 4).iter().map(to_fq).collect();
    assert_eq!(bits, vec![zero, zero, zero, one]);
    let bits: Vec<Fq> = bin_repr(6, 3).iter().map(to_fq).collect();
    assert_eq!(bits, vec![one, one, zero]);
    assert!(bin_repr(0, 0).is_empty());
}

#[test]
fn bin_repr_is_a_bijection() {
    for n in 0..6usize {
        let count = power_of_two(n);
        let mut seen: Vec<Vec<[u64; 6]>> = vec![];
        for i in 0..count {
            let p: Vec<[u64; 6]> = bin_repr(i, n).iter().map(|x| x.limbs).collect();
            let again: Vec<[u64; 6]> = bin_repr(i, n).iter().map(|x| x.limbs).collect();
            assert_eq!(p, again);
            assert_eq!(p.len(), n);
            assert!(p.iter().all(|l| *l == [0; 6] || *l == [1, 0, 0, 0, 0, 0]));
            assert!(!seen.contains(&p));
            seen.push(p);
        }
        assert_eq!(seen.len(), 1 << n);
    }
}

#[test]
fn power_of_two_values() {
    assert_eq!(power_of_two(0), 1);
    assert_eq!(power_of_two(1), 2);
    assert_eq!(power_of_two(10), 1024);
    assert_eq!(power_of_two(31), 1 << 31);
}

#[test]
fn field_elements() {
    assert!(Fe::zero().is_zero());
    assert!(!Fe::one().is_zero());
    assert!(Fe::from_u64(7).equals(&from_fq(Fq::from(7u64))));
    assert!(!Fe::from_u64(7).equals(&Fe::from_u64(8)));
    assert_eq!(to_fq(&Fe::from_u64(u64::MAX)), Fq::from(u64::MAX));
    // the modulus itself is no residue, the number before it is
    let modulus = Fe {
        limbs: [
            0xb9feffffffffaaab,
            0x1eabfffeb153ffff,
            0x6730d2a0f6b0f624,
            0x64774b84f38512bf,
            0x4b1ba7b6434bacd7,
            0x1a0111ea397fe69a,
        ],
    };
    assert_eq!(BigInt::new(modulus.limbs), Fq::MODULUS);
    assert!(!modulus.is_canonical());
    let mut last = modulus;
    last.limbs[0] -= 1;
    assert!(last.is_canonical());
    assert_eq!(to_fq(&last), -Fq::from(1));
    let mut high = modulus;
    high.limbs[0] = 0;
    high.limbs[3] += 1;
    assert!(!high.is_canonical());
}

#[test]
fn num_from_draw_is_the_remainder() {
    assert_eq!(num_from_draw(17, 5), Some(2));
    assert_eq!(num_from_draw(4, 5), Some(4));
    assert_eq!(num_from_draw(5, 5), Some(0));
    assert_eq!(num_from_draw(0, 9), Some(0));
    assert_eq!(num_from_draw(123, 1), Some(0));
    assert_eq!(num_from_draw(usize::MAX, 2), Some(1));
    assert_eq!(num_from_draw(usize::MAX, usize::MAX), Some(0));
    assert_eq!(num_from_draw(7, usize::MAX), Some(7));
}

#[test]
fn random_draws() {
    for _ in 0..50 {
        assert!(rand_elem().unwrap().is_canonical());
        assert!(rand_num(7).unwrap() < 7);
        assert_eq!(rand_num(1), Some(0));
    }
    // two draws of a 381-bit element differ
    assert!(!rand_elem().unwrap().equals(&rand_elem().unwrap()));
}

#[test]
fn build_poly_takes_residues_and_merges() {
    // -1 becomes the residue before the modulus
    let g = build_poly(1, vec![-1], vec![term(vec![(0, 1)])]).unwrap();
    assert_eq!(g.terms.len(), 1);
    assert_eq!(to_fq(&g.terms[0].0), -Fq::from(1));
    assert_eq!(g.terms[0].1.pairs, vec![(0, 1)]);
    // equal monomials are merged, and a zero coefficient goes
    let g = build_poly(
        2,
        vec![2, 3, 5, -5],
        vec![term(vec![(0, 1)]), term(vec![(0, 1)]), term(vec![(1, 2)]), term(vec![(1, 2)])],
    )
    .unwrap();
    assert_eq!(g.num_vars, 2);
    assert_eq!(g.terms.len(), 1);
    assert_eq!(to_fq(&g.terms[0].0), Fq::from(5));
    assert_eq!(g.terms[0].1.pairs, vec![(0, 1)]);
    assert!(g.is_valid());
    // the same terms as the polynomial library gives
    let ours = example();
    let theirs = ark_example();
    assert_eq!(ours.terms.len(), theirs.terms.len());
    for (a, b) in ours.terms.iter().zip(theirs.terms.iter()) {
        assert_eq!(to_fq(&a.0), b.0);
        assert_eq!(a.1.pairs, b.1.to_vec());
    }
}

#[test]
fn hypercube_sum_values() {
    // a constant sums to itself times the number of points
    let g = build_poly(3, vec![5], vec![term(vec![])]).unwrap();
    assert!(hypercube_sum(&g).equals(&Fe::from_u64(40)));
    // x0 * x1 is 1 at one point of four
    let g = build_poly(2, vec![7], vec![term(vec![(0, 1), (1, 1)])]).unwrap();
    assert!(hypercube_sum(&g).equals(&Fe::from_u64(7)));
    // -x0 sums to the residue of -1
    let g = build_poly(1, vec![-1], vec![term(vec![(0, 1)])]).unwrap();
    assert_eq!(to_fq(&hypercube_sum(&g)), -Fq::from(1));
    // the zero polynomial
    let g = build_poly(2, vec![], vec![]).unwrap();
    assert!(hypercube_sum(&g).is_zero());
}

#[test]
fn evaluate_term_splits_the_monomial() {
    let g = example();
    let mut p = Prover::new(&g);
    p.vfy_rands.push(Fe::from_u64(3));
    // round 1: x0 is fixed to 3, x1 is free, x2 comes from the point
    let point = vec![Fe::from_u64(0), Fe::from_u64(5)];
    let (value, fixed) = p.evaluate_term(&term(vec![(0, 2), (1, 4), (2, 3)]), &point);
    // 3^2 * 5^3
    assert!(value.equals(&Fe::from_u64(1125)));
    assert_eq!(fixed.unwrap().pairs, vec![(1, 4)]);
    // a term without the free variable
    let (value, fixed) = p.evaluate_term(&term(vec![(0, 3)]), &point);
    assert!(value.equals(&Fe::from_u64(27)));
    assert!(fixed.is_none());
    // the free variable to the power zero leaves the empty monomial
    let (value, fixed) = p.evaluate_term(&term(vec![(1, 0), (2, 1)]), &point);
    assert!(value.equals(&Fe::from_u64(5)));
    assert!(fixed.unwrap().pairs.is_empty());
    // the empty term
    let (value, fixed) = p.evaluate_term(&term(vec![]), &point);
    assert!(value.equals(&Fe::one()));
    assert!(fixed.is_none());
    // a large power, against the field library
    let (value, _) = p.evaluate_term(&term(vec![(0, 1000)]), &point);
    assert_eq!(to_fq(&value), Fq::from(3).pow([1000u64]));
}

#[test]
fn evaluate_round_collects_by_degree() {
    let g = example();
    let p = Prover::new(&g);
    // round 0 at x1 = 1, x2 = 1: 2 X^3 + X + 1
    let h = p.evaluate_round(vec![Fe::zero(), Fe::one(), Fe::one()]);
    assert_eq!(coeffs(&h), vec![(0, Fq::from(1)), (1, Fq::from(1)), (3, Fq::from(2))]);
    // at x1 = 1, x2 = 0: 2 X^3
    let h = p.evaluate_round(vec![Fe::zero(), Fe::one(), Fe::zero()]);
    assert_eq!(coeffs(&h), vec![(3, Fq::from(2))]);
    // the first coordinate is not read
    let h = p.evaluate_round(vec![Fe::from_u64(99), Fe::one(), Fe::zero()]);
    assert_eq!(coeffs(&h), vec![(3, Fq::from(2))]);
}

#[test]
fn get_unipoly_rounds() {
    let g = example();
    let mut p = Prover::new(&g);
    // round 0: 8 X^3 + 2 X + 1
    let h0 = p.get_unipoly(None);
    assert_eq!(coeffs(&h0), vec![(0, Fq::from(1)), (1, Fq::from(2)), (3, Fq::from(8))]);
    assert!(p.vfy_rands.is_empty());
    // round 1 with x0 = 2: 2 * (2 * 8) + (2 * 0 + 2 * 1) + X * (0 + 1) = X + 34
    let h1 = p.get_unipoly(Some(Fe::from_u64(2)));
    assert_eq!(coeffs(&h1), vec![(0, Fq::from(34)), (1, Fq::from(1))]);
    assert_eq!(p.vfy_rands.len(), 1);
    // round 2 with x1 = 3: 16 + 2 X + 3 X = 5 X + 16
    let h2 = p.get_unipoly(Some(Fe::from_u64(3)));
    assert_eq!(coeffs(&h2), vec![(0, Fq::from(16)), (1, Fq::from(5))]);
    assert_eq!(p.vfy_rands.len(), 2);
    assert!(p.vfy_rands[0].equals(&Fe::from_u64(2)) && p.vfy_rands[1].equals(&Fe::from_u64(3)));
    // each round's two boolean values add up to the round before at its challenge
    assert_eq!(check_round(&h0, &Fe::from_u64(12), 3), Ok(()));
    assert_eq!(check_round(&h1, &Fe::from_u64(8 * 8 + 2 * 2 + 1), 1), Ok(()));
    assert_eq!(check_round(&h2, &Fe::from_u64(3 + 34), 1), Ok(()));
    // the last one at x2 = 4 is the claim at (2, 3, 4): 16 + 8 + 12
    assert_eq!(check_final(&h2, &Fe::from_u64(4), &Fe::from_u64(36)), Ok(()));
    // a claim of one variable is its own first round
    let g = build_poly(1, vec![1], vec![term(vec![(0, 1)])]).unwrap();
    let mut p = Prover::new(&g);
    let h = p.get_unipoly(None);
    assert_eq!(coeffs(&h), vec![(1, Fq::from(1))]);
}

#[test]
fn get_unipoly_of_terms_that_cancel() {
    // x0 x1 and -(x0 x1), kept apart: every coefficient cancels
    let minus_one = from_fq(-Fq::from(1));
    let g = MPoly {
        num_vars: 2,
        terms: vec![
            (Fe::one(), term(vec![(0, 1), (1, 1)])),
            (minus_one, term(vec![(0, 1), (1, 1)])),
        ],
    };
    assert!(g.is_valid());
    let mut p = Prover::new(&g);
    let h0 = p.get_unipoly(None);
    assert!(h0.coeffs.is_empty());
    assert_eq!(check_round(&h0, &Fe::zero(), 0), Ok(()));
    let h1 = p.get_unipoly(Some(Fe::from_u64(5)));
    assert!(h1.coeffs.is_empty());
    assert!(hypercube_sum(&g).is_zero());
    assert_eq!(verify(&g, Fe::zero(), 1), Ok(()));
    // x0 + 2 and -(x0): the power 1 cancels, the constant stays
    let g = MPoly {
        num_vars: 1,
        terms: vec![
            (Fe::one(), term(vec![(0, 1)])),
            (Fe::from_u64(2), term(vec![])),
            (minus_one, term(vec![(0, 1)])),
        ],
    };
    let mut p = Prover::new(&g);
    let h = p.get_unipoly(None);
    assert_eq!(coeffs(&h), vec![(0, Fq::from(2))]);
}

#[test]
fn check_round_enforces_the_degree_bound() {
    // 8 X^3 + 2 X + 1, whose two boolean values add up to 12
    let h = UPoly {
        coeffs: vec![(0, Fe::from_u64(1)), (1, Fe::from_u64(2)), (3, Fe::from_u64(8))],
    };
    let twelve = Fe::from_u64(12);
    assert_eq!(check_round(&h, &twelve, 3), Ok(()));
    assert_eq!(check_round(&h, &twelve, 4), Ok(()));
    // above the bound it is refused though its values are right
    assert_eq!(check_round(&h, &twelve, 2), Err(Rejection::DegreeBoundExceeded));
    assert_eq!(check_round(&h, &twelve, 0), Err(Rejection::DegreeBoundExceeded));
    // and also where they are wrong
    assert_eq!(check_round(&h, &Fe::from_u64(13), 2), Err(Rejection::DegreeBoundExceeded));
    // within the bound the values decide
    assert_eq!(check_round(&h, &Fe::from_u64(13), 3), Err(Rejection::ConsistencyMismatch));
    // the zero polynomial has degree zero and sums to zero
    let zero = UPoly { coeffs: vec![] };
    assert_eq!(check_round(&zero, &Fe::zero(), 0), Ok(()));
    assert_eq!(check_round(&zero, &Fe::one(), 0), Err(Rejection::ConsistencyMismatch));
}

#[test]
fn check_final_compares_with_the_oracle() {
    // 5 X + 16 at 4 is 36
    let h = UPoly { coeffs: vec![(0, Fe::from_u64(16)), (1, Fe::from_u64(5))] };
    assert_eq!(check_final(&h, &Fe::from_u64(4), &Fe::from_u64(36)), Ok(()));
    assert_eq!(
        check_final(&h, &Fe::from_u64(4), &Fe::from_u64(37)),
        Err(Rejection::OracleMismatch)
    );
    assert_eq!(
        check_final(&h, &Fe::from_u64(5), &Fe::from_u64(36)),
        Err(Rejection::OracleMismatch)
    );
}

#[test]
fn verify_with_given_challenges() {
    let g = example();
    let challenges = vec![Fe::from_u64(2), Fe::from_u64(3), Fe::from_u64(4)];
    assert_eq!(verify_with_challenges(&g, Fe::from_u64(12), 3, &challenges), Ok(()));
    assert_eq!(
        verify_with_challenges(&g, Fe::from_u64(11), 3, &challenges),
        Err(Rejection::ConsistencyMismatch)
    );
    // a challenge of zero wipes out the first variable's power, and the run still accepts
    let zeros = vec![Fe::zero(), Fe::zero(), Fe::zero()];
    assert_eq!(verify_with_challenges(&g, Fe::from_u64(12), 3, &zeros), Ok(()));
    // the second variable has power 1 only: a bound of 1 fails at the first round, which has power 3
    assert_eq!(
        verify_with_challenges(&g, Fe::from_u64(12), 1, &challenges),
        Err(Rejection::DegreeBoundExceeded)
    );
    // one variable
    let g = build_poly(1, vec![3, 4], vec![term(vec![(0, 2)]), term(vec![])]).unwrap();
    // 4 + (3 + 4)
    assert_eq!(verify_with_challenges(&g, Fe::from_u64(11), 2, &vec![Fe::from_u64(9)]), Ok(()));
    assert_eq!(
        verify_with_challenges(&g, Fe::from_u64(10), 2, &vec![Fe::from_u64(9)]),
        Err(Rejection::ConsistencyMismatch)
    );
}
