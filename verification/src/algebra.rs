//! Abelian groups: multiples of an element and linear combinations.
use vstd::prelude::*;

verus! {

/// A type whose values are the elements of a commutative group.
///
/// The operations exist for specifications only. An implementation proves the
/// group laws; every theorem of this crate rests on them.
pub trait AbelianGroup: Sized {
    /// The neutral element.
    spec fn zero() -> Self;

    /// The group operation.
    spec fn plus(self, other: Self) -> Self;

    /// The inverse.
    spec fn minus(self) -> Self;

    /// The operation is associative.
    proof fn law_assoc(a: Self, b: Self, c: Self)
        ensures
            a.plus(b).plus(c) == a.plus(b.plus(c)),
    ;

    /// The operation is commutative.
    proof fn law_comm(a: Self, b: Self)
        ensures
            a.plus(b) == b.plus(a),
    ;

    /// `zero` is neutral.
    proof fn law_zero(a: Self)
        ensures
            a.plus(Self::zero()) == a,
    ;

    /// `minus` inverts.
    proof fn law_inverse(a: Self)
        ensures
            a.plus(a.minus()) == Self::zero(),
    ;
}

/// The multiple `k * a` of a group element, for every integer `k`.
pub open spec fn smul<A: AbelianGroup>(k: int, a: A) -> A
    decreases (if k >= 0 { k } else { -k }),
{
    if k == 0 {
        A::zero()
    } else if k > 0 {
        smul(k - 1, a).plus(a)
    } else {
        smul(k + 1, a).plus(a.minus())
    }
}

/// The linear combination `k[0] * p[0] + ... + k[n - 1] * p[n - 1]`.
pub open spec fn lincomb<A: AbelianGroup>(k: Seq<int>, p: Seq<A>, n: nat) -> A
    decreases n,
{
    if n == 0 {
        A::zero()
    } else {
        lincomb(k, p, (n - 1) as nat).plus(smul(k[n - 1], p[n - 1]))
    }
}

/// The four terms of a sum of sums can be regrouped.
pub proof fn lemma_swap<A: AbelianGroup>(a: A, b: A, c: A, d: A)
    ensures
        a.plus(b).plus(c.plus(d)) == a.plus(c).plus(b.plus(d)),
{
    A::law_assoc(a, b, c.plus(d));
    A::law_assoc(b, c, d);
    A::law_comm(b, c);
    A::law_assoc(c, b, d);
    A::law_assoc(a, c, b.plus(d));
}

/// `zero` is neutral on the left as well.
pub proof fn lemma_zero_left<A: AbelianGroup>(a: A)
    ensures
        A::zero().plus(a) == a,
{
    A::law_comm(A::zero(), a);
    A::law_zero(a);
}

/// An element that sums to `zero` with `a` is the inverse of `a`.
pub proof fn lemma_inverse_unique<A: AbelianGroup>(a: A, b: A)
    requires
        a.plus(b) == A::zero(),
    ensures
        b == a.minus(),
{
    A::law_inverse(a);
    A::law_comm(a, a.minus());
    A::law_assoc(a.minus(), a, b);
    lemma_zero_left(b);
    A::law_zero(a.minus());
}

/// Inverses of inverses, of sums and of `zero`.
pub proof fn lemma_minus<A: AbelianGroup>(a: A, b: A)
    ensures
        a.minus().minus() == a,
        a.plus(b).minus() == a.minus().plus(b.minus()),
        A::zero().minus() == A::zero(),
{
    A::law_inverse(a);
    A::law_comm(a, a.minus());
    lemma_inverse_unique(a.minus(), a);
    A::law_inverse(b);
    lemma_swap(a, b, a.minus(), b.minus());
    A::law_zero(A::zero());
    lemma_inverse_unique(a.plus(b), a.minus().plus(b.minus()));
    lemma_inverse_unique(A::zero(), A::zero());
}

/// The next multiple up and the next multiple down.
pub proof fn lemma_smul_step<A: AbelianGroup>(k: int, a: A)
    ensures
        smul(k + 1, a) == smul(k, a).plus(a),
        smul(k - 1, a) == smul(k, a).plus(a.minus()),
{
    A::law_inverse(a);
    A::law_comm(a, a.minus());
    if k < 0 {
        A::law_assoc(smul(k + 1, a), a.minus(), a);
        A::law_zero(smul(k + 1, a));
    }
    if k > 0 {
        A::law_assoc(smul(k - 1, a), a, a.minus());
        A::law_zero(smul(k - 1, a));
    }
}

/// `1 * a` is `a`, and `-1 * a` is its inverse.
pub proof fn lemma_smul_one<A: AbelianGroup>(a: A)
    ensures
        smul(1, a) == a,
        smul(-1, a) == a.minus(),
        smul(2, a) == a.plus(a),
{
    lemma_smul_step(0, a);
    lemma_smul_step(1, a);
    lemma_zero_left(a);
    lemma_zero_left(a.minus());
}

/// `(j + k) * a == j * a + k * a`.
pub proof fn lemma_smul_add<A: AbelianGroup>(j: int, k: int, a: A)
    ensures
        smul(j + k, a) == smul(j, a).plus(smul(k, a)),
    decreases (if k >= 0 { k } else { -k }),
{
    if k == 0 {
        A::law_zero(smul(j, a));
    } else if k > 0 {
        lemma_smul_add(j, k - 1, a);
        lemma_smul_step(j + k - 1, a);
        A::law_assoc(smul(j, a), smul(k - 1, a), a);
    } else {
        lemma_smul_add(j, k + 1, a);
        lemma_smul_step(j + k + 1, a);
        A::law_assoc(smul(j, a), smul(k + 1, a), a.minus());
    }
}

/// `k * (a + b) == k * a + k * b`.
pub proof fn lemma_smul_plus<A: AbelianGroup>(k: int, a: A, b: A)
    ensures
        smul(k, a.plus(b)) == smul(k, a).plus(smul(k, b)),
    decreases (if k >= 0 { k } else { -k }),
{
    if k == 0 {
        A::law_zero(A::zero());
    } else if k > 0 {
        lemma_smul_plus(k - 1, a, b);
        lemma_swap(smul(k - 1, a), smul(k - 1, b), a, b);
    } else {
        lemma_smul_plus(k + 1, a, b);
        lemma_minus(a, b);
        lemma_swap(smul(k + 1, a), smul(k + 1, b), a.minus(), b.minus());
    }
}

/// `j * (k * a) == (j * k) * a`.
pub proof fn lemma_smul_mul<A: AbelianGroup>(j: int, k: int, a: A)
    ensures
        smul(j, smul(k, a)) == smul(j * k, a),
    decreases (if j >= 0 { j } else { -j }),
{
    if j == 0 {
        assert(j * k == 0) by (nonlinear_arith)
            requires
                j == 0,
        ;
    } else if j > 0 {
        lemma_smul_mul(j - 1, k, a);
        lemma_smul_add((j - 1) * k, k, a);
        assert((j - 1) * k + k == j * k) by (nonlinear_arith);
    } else {
        lemma_smul_mul(j + 1, k, a);
        lemma_smul_neg(k, a);
        lemma_smul_add((j + 1) * k, -k, a);
        assert((j + 1) * k + (-k) == j * k) by (nonlinear_arith);
    }
}

/// `-k * a` is the inverse of `k * a`.
pub proof fn lemma_smul_neg<A: AbelianGroup>(k: int, a: A)
    ensures
        smul(-k, a) == smul(k, a).minus(),
{
    lemma_smul_add(k, -k, a);
    lemma_inverse_unique(smul(k, a), smul(-k, a));
}

/// Every multiple of `zero` is `zero`.
pub proof fn lemma_smul_zero<A: AbelianGroup>(k: int)
    ensures
        smul(k, A::zero()) == A::zero(),
{
    lemma_smul_mul(k, 0, A::zero());
    assert(k * 0 == 0);
}

/// What is added to a multiple of `zero` is all there is.
pub proof fn lemma_from_zero<A: AbelianGroup>(k: int, a: A)
    ensures
        smul(k, A::zero()).plus(a) == a,
{
    lemma_smul_zero::<A>(k);
    lemma_zero_left(a);
}

/// Only the first `n` coefficients and elements matter to a linear combination.
pub proof fn lemma_lincomb_congruent<A: AbelianGroup>(
    j: Seq<int>,
    p: Seq<A>,
    k: Seq<int>,
    q: Seq<A>,
    n: nat,
)
    requires
        forall|i: int| 0 <= i < n ==> #[trigger] smul(j[i], p[i]) == smul(k[i], q[i]),
    ensures
        lincomb(j, p, n) == lincomb(k, q, n),
    decreases n,
{
    if n > 0 {
        lemma_lincomb_congruent(j, p, k, q, (n - 1) as nat);
    }
}

/// Linear combinations are added coefficient by coefficient.
pub proof fn lemma_lincomb_add<A: AbelianGroup>(
    j: Seq<int>,
    k: Seq<int>,
    sum: Seq<int>,
    p: Seq<A>,
    n: nat,
)
    requires
        forall|i: int| 0 <= i < n ==> #[trigger] sum[i] == j[i] + k[i],
    ensures
        lincomb(sum, p, n) == lincomb(j, p, n).plus(lincomb(k, p, n)),
    decreases n,
{
    if n == 0 {
        A::law_zero(A::zero());
    } else {
        let m = (n - 1) as nat;
        lemma_lincomb_add(j, k, sum, p, m);
        assert(sum[m as int] == j[m as int] + k[m as int]);
        lemma_smul_add(j[m as int], k[m as int], p[m as int]);
        lemma_swap(
            lincomb(j, p, m),
            lincomb(k, p, m),
            smul(j[m as int], p[m as int]),
            smul(k[m as int], p[m as int]),
        );
    }
}

/// A multiple of a linear combination has the multiplied coefficients.
pub proof fn lemma_lincomb_scale<A: AbelianGroup>(
    m: int,
    k: Seq<int>,
    scaled: Seq<int>,
    p: Seq<A>,
    n: nat,
)
    requires
        forall|i: int| 0 <= i < n ==> #[trigger] scaled[i] == m * k[i],
    ensures
        lincomb(scaled, p, n) == smul(m, lincomb(k, p, n)),
    decreases n,
{
    if n == 0 {
        lemma_smul_zero::<A>(m);
    } else {
        let l = (n - 1) as nat;
        lemma_lincomb_scale(m, k, scaled, p, l);
        assert(scaled[l as int] == m * k[l as int]);
        lemma_smul_plus(m, lincomb(k, p, l), smul(k[l as int], p[l as int]));
        lemma_smul_mul(m, k[l as int], p[l as int]);
    }
}

/// A linear combination whose coefficients are all zero is `zero`.
pub proof fn lemma_lincomb_zero<A: AbelianGroup>(k: Seq<int>, p: Seq<A>, n: nat)
    requires
        forall|i: int| 0 <= i < n ==> #[trigger] k[i] == 0,
    ensures
        lincomb(k, p, n) == A::zero(),
    decreases n,
{
    if n > 0 {
        lemma_lincomb_zero(k, p, (n - 1) as nat);
        assert(k[n - 1] == 0);
        A::law_zero(A::zero());
    }
}

} // verus!
