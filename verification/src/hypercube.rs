//! Points of the boolean hypercube, numbered by their bits, most significant
//! bit first.

use vstd::prelude::*;
use vstd::arithmetic::power2::{pow2, lemma_pow2_pos, lemma_pow2_unfold, lemma2_to64};
use vstd::arithmetic::div_mod::{lemma_div_denominator, lemma_fundamental_div_mod, lemma_div_pos_is_pos};
use crate::field::Fe;

verus! {

/// Bit `c` of `index`, counted from the most significant of `length` bits.
pub open spec fn bit_at(index: nat, length: nat, c: int) -> nat {
    ((index / pow2((length - 1 - c) as nat)) % 2) as nat
}

/// The point of the hypercube of dimension `length` that `index` numbers: its
/// `length` low bits, most significant first.
pub open spec fn hypercube_point(index: nat, length: nat) -> Seq<nat> {
    Seq::new(length, |c: int| bit_at(index, length, c))
}

/// Every coordinate is 0 or 1.
pub open spec fn is_boolean(s: Seq<nat>) -> bool {
    forall|c: int| 0 <= c < s.len() ==> s[c] == 0 || s[c] == 1
}

/// The number whose bits, most significant first, are the coordinates of `s`.
pub open spec fn hypercube_index(s: Seq<nat>) -> nat
    decreases s.len(),
{
    if s.len() == 0 {
        0
    } else {
        2 * hypercube_index(s.drop_last()) + s.last()
    }
}

/// The residues that a vector of field elements stands for.
pub open spec fn values(v: Seq<Fe>) -> Seq<nat> {
    Seq::new(v.len(), |i: int| v[i]@)
}

/// Every element of the vector is a residue below the modulus.
pub open spec fn all_wf(v: Seq<Fe>) -> bool {
    forall|i: int| 0 <= i < v.len() ==> (#[trigger] v[i]).wf()
}

/// Dropping the last bit of a point halves its index.
pub proof fn lemma_point_drop_last(index: nat, length: nat)
    requires
        length > 0,
    ensures
        hypercube_point(index, length).drop_last() == hypercube_point(index / 2, (length - 1) as nat),
        hypercube_point(index, length).last() == index % 2,
{
    let p = hypercube_point(index, length);
    let q = hypercube_point(index / 2, (length - 1) as nat);
    assert(pow2(0) == 1) by {
        lemma2_to64();
    }
    assert forall|c: int| 0 <= c < length - 1 implies p[c] == q[c] by {
        let k = (length - 2 - c) as nat;
        lemma_pow2_pos(k);
        lemma_pow2_unfold(k + 1);
        lemma_div_denominator(index as int, 2, pow2(k) as int);
        assert(2 * pow2(k) == pow2(k + 1));
        assert((length - 1 - c) as nat == k + 1);
        assert(((length - 1) as nat - 1 - c) as nat == k);
    }
    assert(p.drop_last() =~= q);
    assert((length - 1 - (length - 1)) as nat == 0);
}

/// Decoding an index below `2^length` and encoding the point again gives the
/// index back: no two such indices decode to the same point.
pub proof fn lemma_index_of_point(index: nat, length: nat)
    requires
        index < pow2(length),
    ensures
        hypercube_index(hypercube_point(index, length)) == index,
    decreases length,
{
    let p = hypercube_point(index, length);
    if length == 0 {
        lemma2_to64();
    } else {
        lemma_point_drop_last(index, length);
        lemma_pow2_unfold(length);
        lemma_index_of_point(index / 2, (length - 1) as nat);
        lemma_fundamental_div_mod(index as int, 2);
    }
}

/// Every boolean vector is the point of one index below `2^length`: encoding
/// it and decoding the index gives the vector back.
pub proof fn lemma_point_of_index(s: Seq<nat>)
    requires
        is_boolean(s),
    ensures
        hypercube_index(s) < pow2(s.len()),
        hypercube_point(hypercube_index(s), s.len()) == s,
    decreases s.len(),
{
    let n = s.len();
    let i = hypercube_index(s);
    if n == 0 {
        lemma2_to64();
        assert(hypercube_point(i, n) =~= s);
    } else {
        lemma_point_of_index(s.drop_last());
        lemma_pow2_unfold(n);
        lemma_point_drop_last(i, n);
        let p = hypercube_point(i, n);
        assert(i / 2 == hypercube_index(s.drop_last()));
        assert(i % 2 == s.last());
        assert(p.drop_last() == s.drop_last());
        assert(p.last() == s.last());
        assert(p =~= p.drop_last().push(p.last()));
        assert(s =~= s.drop_last().push(s.last()));
    }
}

/// Decoding is a bijection between the indices below `2^length` and the
/// boolean vectors of that length: every decoded point is boolean, two indices
/// with the same point are equal, and every boolean vector is decoded from
/// some index.
pub proof fn lemma_decode_bijection(length: nat)
    ensures
        forall|i: nat| i < pow2(length) ==> is_boolean(#[trigger] hypercube_point(i, length)),
        forall|i: nat, j: nat|
            i < pow2(length) && j < pow2(length) && #[trigger] hypercube_point(i, length)
                == #[trigger] hypercube_point(j, length) ==> i == j,
        forall|s: Seq<nat>|
            s.len() == length && #[trigger] is_boolean(s) ==> exists|i: nat|
                i < pow2(length) && #[trigger] hypercube_point(i, length) == s,
{
    assert forall|i: nat, j: nat|
        i < pow2(length) && j < pow2(length) && #[trigger] hypercube_point(i, length)
            == #[trigger] hypercube_point(j, length) implies i == j by {
        lemma_index_of_point(i, length);
        lemma_index_of_point(j, length);
    }
    assert forall|s: Seq<nat>| s.len() == length && #[trigger] is_boolean(s) implies exists|i: nat|
        i < pow2(length) && #[trigger] hypercube_point(i, length) == s by {
        lemma_point_of_index(s);
        let i = hypercube_index(s);
        assert(i < pow2(length) && hypercube_point(i, length) == s);
    }
}

/// The point of the hypercube of dimension `n` that `point` numbers, as field
/// elements 0 and 1, most significant bit first.
pub fn bin_repr(point: usize, n: usize) -> (res: Vec<Fe>)
    requires
        point < pow2(n as nat),
    ensures
        res@.len() == n,
        all_wf(res@),
        values(res@) == hypercube_point(point as nat, n as nat),
{
    let mut res: Vec<Fe> = Vec::new();
    let mut k: usize = 0;
    while k < n
        invariant
            k <= n,
            res@.len() == k,
            forall|i: int| 0 <= i < k ==> (#[trigger] res@[i])@ == 0,
        decreases n - k,
    {
        res.push(Fe::zero());
        k = k + 1;
    }
    let mut num: usize = point;
    let mut c: usize = n;
    proof {
        lemma2_to64();
        assert((n - c) as nat == 0);
        assert(pow2(0) == 1);
    }
    while c > 0
        invariant
            c <= n,
            res@.len() == n,
            num == (point as nat) / pow2((n - c) as nat),
            forall|i: int| 0 <= i < n ==> (#[trigger] res@[i])@ < 2,
            forall|i: int| c <= i < n ==> (#[trigger] res@[i])@ == bit_at(point as nat, n as nat, i),
        decreases c,
    {
        c = c - 1;
        let bit = if num % 2 == 1 {
            Fe::one()
        } else {
            Fe::zero()
        };
        res.set(c, bit);
        proof {
            let k = (n - 1 - c) as nat;
            lemma_pow2_pos(k);
            lemma_pow2_unfold(k + 1);
            lemma_div_denominator(point as int, pow2(k) as int, 2);
            assert(pow2(k) * 2 == pow2(k + 1));
            assert((n - c) as nat == k + 1);
        }
        num = num / 2;
    }
    proof {
        assert(values(res@) =~= hypercube_point(point as nat, n as nat));
        assert forall|i: int| 0 <= i < res@.len() implies (#[trigger] res@[i]).wf() by {
            assert(res@[i]@ < 2);
        }
    }
    res
}

} // verus!
