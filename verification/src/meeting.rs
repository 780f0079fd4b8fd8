//! When points meet in their buckets: on which inputs additions can be made in batches, told from
//! the digits of the scalars and from sums of points alone.
use vstd::prelude::*;
use vstd::arithmetic::div_mod::*;
use vstd::arithmetic::power2::*;
use vstd::math::*;

use crate::affine;
use crate::algebra;
use crate::algebra::AbelianGroup;
use crate::booth;
use crate::buckets;
use crate::curve;
use crate::curve::{CurveAffine, PrimeField};
use crate::independent;
use crate::schedule;

verus! {

/// Which points wait for a batch, and how many have waited before each: a point waits if its
/// digit is neither zero nor one or minus one, if another point with its digit or the opposite
/// came before, and if none of those waits in the batch that is being filled.
spec fn is_queue(ds: Seq<int>, wait: spec_fn(int) -> bool, rank: spec_fn(int) -> nat) -> bool {
    &&& rank(0) == 0
    &&& forall|i: int|
        0 <= i < ds.len() ==> rank(i + 1) == rank(i) + (if #[trigger] wait(i) {
            1nat
        } else {
            0nat
        })
    &&& forall|i: int|
        0 <= i < ds.len() ==> (#[trigger] wait(i) <==> {
            &&& abs(ds[i]) >= 2
            &&& exists|j: int| 0 <= j < i && #[trigger] abs(ds[j]) == abs(ds[i])
            &&& !exists|j: int|
                0 <= j < i && #[trigger] wait(j) && abs(ds[j]) == abs(ds[i]) && rank(j) / 64
                    == rank(i) / 64
        })
}

/// Whether a point counts in the sum of its bucket: it waits, or it is the first there.
spec fn counted(ds: Seq<int>, wait: spec_fn(int) -> bool, j: int) -> bool {
    wait(j) || forall|l: int| 0 <= l < j ==> #[trigger] abs(ds[l]) != abs(ds[j])
}

/// How often the points count in the bucket for digits of size `size`.
spec fn shares(ds: Seq<int>, wait: spec_fn(int) -> bool, size: nat) -> Seq<int> {
    Seq::new(
        ds.len(),
        |j: int|
            if abs(ds[j]) == size && counted(ds, wait, j) {
                if ds[j] > 0 {
                    1int
                } else {
                    -1int
                }
            } else {
                0int
            },
    )
}

/// The sum of the bucket of point `i` when its turn comes.
spec fn met<C: CurveAffine>(bases: Seq<C>, ds: Seq<int>, wait: spec_fn(int) -> bool, i: int) -> C {
    algebra::lincomb(shares(ds, wait, abs(ds[i])), bases, i as nat)
}

/// More points have waited before a later point.
proof fn lemma_rank_grows(
    ds: Seq<int>,
    wait: spec_fn(int) -> bool,
    rank: spec_fn(int) -> nat,
    j: int,
    i: int,
)
    requires
        is_queue(ds, wait, rank),
        0 <= j <= i <= ds.len(),
    ensures
        rank(j) <= rank(i),
    decreases i - j,
{
    if j < i {
        lemma_rank_grows(ds, wait, rank, j, i - 1);
        let k = i - 1;
        let waits = wait(k);
        assert(rank(k + 1) == rank(k) + (if waits {
            1nat
        } else {
            0nat
        }));
    }
}

/// What the plan for the first `i` points has to do with who waits.
spec fn follows<C: CurveAffine>(
    bases: Seq<C>,
    ds: Seq<int>,
    nb: nat,
    wait: spec_fn(int) -> bool,
    rank: spec_fn(int) -> nat,
    i: nat,
) -> bool {
    let plan = independent::plan_points(bases, ds, nb, i);
    &&& plan.sums.len() == nb
    &&& plan.waiting.len() == rank(i as int) % 64
    &&& forall|b: int|
        0 <= b < nb ==> (#[trigger] plan.waiting.contains(b) <==> exists|j: int|
            0 <= j < i && #[trigger] wait(j) && abs(ds[j]) == b + 1 && rank(j) / 64 == rank(
                i as int,
            ) / 64)
    &&& forall|b: int|
        1 <= b < nb ==> (#[trigger] plan.sums[b] is Some <==> exists|j: int|
            0 <= j < i && #[trigger] abs(ds[j]) == b + 1)
    &&& forall|b: int|
        1 <= b < nb ==> (#[trigger] plan.sums[b] matches Some(sum) ==> sum == algebra::lincomb(
            shares(ds, wait, (b + 1) as nat),
            bases,
            i,
        ))
}

/// The plan follows who waits.
#[verifier::spinoff_prover]
proof fn lemma_follows<C: CurveAffine>(
    bases: Seq<C>,
    ds: Seq<int>,
    nb: nat,
    wait: spec_fn(int) -> bool,
    rank: spec_fn(int) -> nat,
    i: nat,
)
    requires
        ds.len() == bases.len(),
        i <= bases.len(),
        buckets::bounded(ds, nb as int),
        is_queue(ds, wait, rank),
    ensures
        follows(bases, ds, nb, wait, rank, i),
    decreases i,
{
    if i == 0 {
        assert(independent::plan_points(bases, ds, nb, 0) == schedule::plan_empty::<C>(nb));
        assert(rank(0) % 64 == 0);
    } else {
        let m = (i - 1) as nat;
        lemma_follows(bases, ds, nb, wait, rank, m);
        lemma_follows_step(bases, ds, nb, wait, rank, m);
    }
}

/// One point more.
#[verifier::spinoff_prover]
#[verifier::rlimit(40)]
proof fn lemma_follows_step<C: CurveAffine>(
    bases: Seq<C>,
    ds: Seq<int>,
    nb: nat,
    wait: spec_fn(int) -> bool,
    rank: spec_fn(int) -> nat,
    m: nat,
)
    requires
        ds.len() == bases.len(),
        m < bases.len(),
        buckets::bounded(ds, nb as int),
        is_queue(ds, wait, rank),
        follows(bases, ds, nb, wait, rank, m),
    ensures
        follows(bases, ds, nb, wait, rank, m + 1),
{
    let (before, after) = (
        independent::plan_points(bases, ds, nb, m),
        independent::plan_points(bases, ds, nb, m + 1),
    );
    let d = ds[m as int];
    let own = independent::bucket_of(d);
    let p = bases[m as int];
    let (r0, r1) = (rank(m as int), rank((m + 1) as int));
    assert(-nb <= d <= nb);
    assert(after == independent::plan_point(before, p, d));
    assert(wait(m as int) ==> r1 == r0 + 1);
    assert(!wait(m as int) ==> r1 == r0);
    if d != 0 {
        assert(abs(d) == own + 1);
        assert(before.waiting.contains(own) <==> exists|j: int|
            0 <= j < m && #[trigger] wait(j) && abs(ds[j]) == own + 1 && rank(j) / 64 == r0 / 64);
        if own >= 1 {
            assert(before.sums[own] is Some <==> exists|j: int|
                0 <= j < m && #[trigger] abs(ds[j]) == own + 1);
        }
    }
    let waits = d != 0 && !independent::at_once(before, d) && before.sums[own] is Some;
    assert(waits == wait(m as int));
    let full = waits && before.waiting.len() + 1 == schedule::BATCH_SIZE;
    assert(after.waiting == if !waits {
        before.waiting
    } else if full {
        Seq::empty()
    } else {
        before.waiting.push(own)
    });
    // who waits
    assert forall|b: int| 0 <= b < nb implies (#[trigger] after.waiting.contains(b)
        <==> exists|j: int|
        0 <= j < m + 1 && #[trigger] wait(j) && abs(ds[j]) == b + 1 && rank(j) / 64 == r1 / 64) by {
        assert(before.waiting.contains(b) <==> exists|j: int|
            0 <= j < m && #[trigger] wait(j) && abs(ds[j]) == b + 1 && rank(j) / 64 == r0 / 64);
        if full {
            assert(r0 % 64 == 63);
            assert(r1 / 64 == r0 / 64 + 1);
            assert forall|j: int| 0 <= j < m + 1 && #[trigger] wait(j) implies rank(j) / 64 != r1
                / 64 by {
                lemma_rank_grows(ds, wait, rank, j, m as int);
            }
            assert(!after.waiting.contains(b));
        } else {
            assert(r1 / 64 == r0 / 64);
            if waits {
                if before.waiting.contains(b) {
                    let k = choose|k: int| 0 <= k < before.waiting.len() && before.waiting[k] == b;
                    assert(after.waiting[k] == b);
                }
                if b == own {
                    assert(after.waiting[before.waiting.len() as int] == b);
                    assert(wait(m as int));
                }
                if after.waiting.contains(b) && b != own {
                    let k = choose|k: int| 0 <= k < after.waiting.len() && after.waiting[k] == b;
                    assert(before.waiting[k] == b);
                }
            }
        }
    }
    // the sums
    assert forall|b: int| 1 <= b < nb implies (#[trigger] after.sums[b] is Some
        <==> exists|j: int| 0 <= j < m + 1 && #[trigger] abs(ds[j]) == b + 1) by {
        assert(before.sums[b] is Some <==> exists|j: int|
            0 <= j < m && #[trigger] abs(ds[j]) == b + 1);
        assert(abs(ds[m as int]) == abs(d));
        if before.sums[b] is Some {
            let j = choose|j: int| 0 <= j < m && #[trigger] abs(ds[j]) == b + 1;
            assert(abs(ds[j]) == b + 1 && j < m + 1);
        }
    }
    assert forall|b: int| 1 <= b < nb && (#[trigger] after.sums[b]) is Some implies after.sums[b]->0
        == algebra::lincomb(shares(ds, wait, (b + 1) as nat), bases, m + 1) by {
        let e = shares(ds, wait, (b + 1) as nat);
        C::law_zero(algebra::lincomb(e, bases, m));
        algebra::lemma_smul_one(p);
        assert(abs(ds[m as int]) == abs(d));
        if d != 0 && own == b && !independent::at_once(before, d) {
            if before.sums[b] is None {
                assert forall|l: int| 0 <= l < m implies #[trigger] abs(ds[l]) != abs(ds[m as int]) by {
                    if abs(ds[l]) == abs(d) {
                        assert(before.sums[b] is Some);
                    }
                }
                assert forall|j: int| 0 <= j < m implies #[trigger] e[j] == 0 by {
                    assert(abs(ds[j]) != abs(ds[m as int]));
                }
                algebra::lemma_lincomb_zero(e, bases, m);
                algebra::lemma_zero_left(affine::signed(p, d > 0));
                assert(counted(ds, wait, m as int));
                assert(after.sums[b] == Some(affine::signed(p, d > 0)));
            } else {
                assert(before.sums[b]->0 == algebra::lincomb(e, bases, m));
                assert(wait(m as int));
                assert(counted(ds, wait, m as int));
            }
        } else {
            assert(after.sums[b] == before.sums[b]);
            assert(before.sums[b]->0 == algebra::lincomb(e, bases, m));
            if d != 0 && own == b {
                let j = choose|j: int|
                    0 <= j < m && #[trigger] wait(j) && abs(ds[j]) == own + 1 && rank(j) / 64
                        == r0 / 64;
                assert(abs(ds[j]) == abs(ds[m as int]));
                assert(!counted(ds, wait, m as int));
            }
            assert(e[m as int] == 0);
        }
    }
}

/// As long as no point meets itself or its inverse, no sum is zero.
proof fn lemma_sums_not_zero<C: CurveAffine>(
    bases: Seq<C>,
    ds: Seq<int>,
    nb: nat,
    wait: spec_fn(int) -> bool,
    rank: spec_fn(int) -> nat,
    i: nat,
)
    requires
        ds.len() == bases.len(),
        i <= bases.len(),
        buckets::bounded(ds, nb as int),
        is_queue(ds, wait, rank),
        forall|j: int| 0 <= j < bases.len() ==> (#[trigger] bases[j]).xy() is Some,
        forall|j: int|
            0 <= j < i && #[trigger] wait(j) ==> met(bases, ds, wait, j) != bases[j] && met(
                bases,
                ds,
                wait,
                j,
            ) != bases[j].minus(),
    ensures
        forall|b: int|
            1 <= b < nb ==> (#[trigger] independent::plan_points(bases, ds, nb, i).sums[b] matches Some(
                sum,
            ) ==> sum != C::zero()),
    decreases i,
{
    if i > 0 {
        let m = (i - 1) as nat;
        lemma_sums_not_zero(bases, ds, nb, wait, rank, m);
        lemma_follows(bases, ds, nb, wait, rank, m);
        lemma_follows(bases, ds, nb, wait, rank, i);
        let before = independent::plan_points(bases, ds, nb, m);
        let after = independent::plan_points(bases, ds, nb, i);
        let d = ds[m as int];
        let p = bases[m as int];
        assert(after == independent::plan_point(before, p, d));
        assert forall|b: int| 1 <= b < nb && (#[trigger] after.sums[b]) is Some implies after.sums[b]->0
            != C::zero() by {
            C::law_xy_zero(p);
            C::law_inverse(p);
            algebra::lemma_minus(p, p);
            if after.sums[b] != before.sums[b] {
                let q = affine::signed(p, d > 0);
                if before.sums[b] is None {
                    assert(after.sums[b] == Some(q));
                } else {
                    let sum = before.sums[b]->0;
                    assert(after.sums[b] == Some(sum.plus(q)));
                    assert(abs(ds[m as int]) == b + 1);
                    assert(sum == met(bases, ds, wait, m as int));
                    lemma_waits(bases, ds, nb, wait, rank, m);
                    if sum.plus(q) == C::zero() {
                        C::law_comm(sum, q);
                        algebra::lemma_inverse_unique(q, sum);
                    }
                }
            } else {
                assert(before.sums[b] is Some);
            }
        }
    }
}

/// A point waits where the plan makes it wait.
proof fn lemma_waits<C: CurveAffine>(
    bases: Seq<C>,
    ds: Seq<int>,
    nb: nat,
    wait: spec_fn(int) -> bool,
    rank: spec_fn(int) -> nat,
    i: nat,
)
    requires
        ds.len() == bases.len(),
        i < bases.len(),
        buckets::bounded(ds, nb as int),
        is_queue(ds, wait, rank),
    ensures
        ({
            let plan = independent::plan_points(bases, ds, nb, i);
            let d = ds[i as int];
            let b = independent::bucket_of(d);
            &&& wait(i as int) <==> d != 0 && !independent::at_once(plan, d) && plan.sums[b] is Some
            &&& wait(i as int) ==> plan.sums[b] == Some(met(bases, ds, wait, i as int))
        }),
{
    lemma_follows(bases, ds, nb, wait, rank, i);
    let plan = independent::plan_points(bases, ds, nb, i);
    let d = ds[i as int];
    let b = independent::bucket_of(d);
    assert(-nb <= d <= nb);
    if d != 0 {
        assert(abs(d) == b + 1);
        assert(plan.waiting.contains(b) <==> exists|j: int|
            0 <= j < i && #[trigger] wait(j) && abs(ds[j]) == b + 1 && rank(j) / 64 == rank(
                i as int,
            ) / 64);
        if b >= 1 {
            assert(plan.sums[b] is Some <==> exists|j: int|
                0 <= j < i && #[trigger] abs(ds[j]) == b + 1);
        }
    }
}

/// All is clear exactly where no point that waits meets itself or its inverse.
proof fn lemma_clear<C: CurveAffine>(
    bases: Seq<C>,
    ds: Seq<int>,
    nb: nat,
    wait: spec_fn(int) -> bool,
    rank: spec_fn(int) -> nat,
)
    requires
        ds.len() == bases.len(),
        buckets::bounded(ds, nb as int),
        is_queue(ds, wait, rank),
        forall|j: int| 0 <= j < bases.len() ==> (#[trigger] bases[j]).xy() is Some,
    ensures
        independent::all_clear(bases, ds, nb) <==> forall|i: int|
            0 <= i < bases.len() && #[trigger] wait(i) ==> met(bases, ds, wait, i) != bases[i]
                && met(bases, ds, wait, i) != bases[i].minus(),
{
    let n = bases.len();
    let all = independent::all_clear(bases, ds, nb);
    let none = forall|i: int|
        0 <= i < bases.len() && #[trigger] wait(i) ==> met(bases, ds, wait, i) != bases[i] && met(
            bases,
            ds,
            wait,
            i,
        ) != bases[i].minus();
    if all {
        assert forall|i: int| 0 <= i < n && #[trigger] wait(i) implies met(bases, ds, wait, i)
            != bases[i] && met(bases, ds, wait, i) != bases[i].minus() by {
            lemma_waits(bases, ds, nb, wait, rank, i as nat);
            assert(independent::clear(
                independent::plan_points(bases, ds, nb, i as nat),
                bases[i],
                ds[i],
            ));
            C::law_xy_minus(bases[i]);
        }
    }
    if none {
        assert forall|i: int| 0 <= i < n implies independent::clear(
            independent::plan_points(bases, ds, nb, i as nat),
            #[trigger] bases[i],
            ds[i],
        ) by {
            lemma_waits(bases, ds, nb, wait, rank, i as nat);
            lemma_sums_not_zero(bases, ds, nb, wait, rank, i as nat);
            let plan = independent::plan_points(bases, ds, nb, i as nat);
            let b = independent::bucket_of(ds[i]);
            lemma_follows(bases, ds, nb, wait, rank, i as nat);
            assert(-nb <= ds[i] <= nb);
            if wait(i) {
                let sum = plan.sums[b]->0;
                C::law_xy_zero(sum);
                assert(sum != C::zero());
                if sum.xy().unwrap().0 == bases[i].xy().unwrap().0 {
                    C::law_xy_parallel(sum, bases[i]);
                }
            }
        }
    }
}

/// In one window, additions can be made in batches exactly where no point meets itself or its
/// inverse in the bucket that it waits for.
///
/// Points with digit 0, 1 or -1 never wait. Of the others the first with a digit, or with the
/// opposite one, goes to its bucket at once, and a later one waits unless one for its bucket waits
/// already. When as many as 64 wait they all cease to. A point meets the sum of those before it
/// that went to its bucket, each with the sign of its digit.
///
/// `wait` says who waits, and `rank` how many have waited before.
pub proof fn law_window_batches<C: CurveAffine>(
    bases: Seq<C>,
    ds: Seq<int>,
    nb: nat,
    wait: spec_fn(int) -> bool,
    rank: spec_fn(int) -> nat,
)
    requires
        ds.len() == bases.len(),
        forall|i: int| 0 <= i < ds.len() ==> -nb <= #[trigger] ds[i] <= nb,
        forall|i: int| 0 <= i < bases.len() ==> (#[trigger] bases[i]).xy() is Some,
        rank(0) == 0,
        forall|i: int|
            0 <= i < ds.len() ==> rank(i + 1) == rank(i) + (if #[trigger] wait(i) {
                1nat
            } else {
                0nat
            }),
        forall|i: int|
            0 <= i < ds.len() ==> (#[trigger] wait(i) <==> {
                &&& abs(ds[i]) >= 2
                &&& exists|j: int| 0 <= j < i && #[trigger] abs(ds[j]) == abs(ds[i])
                &&& !exists|j: int|
                    0 <= j < i && #[trigger] wait(j) && abs(ds[j]) == abs(ds[i]) && rank(j) / 64
                        == rank(i) / 64
            }),
    ensures
        independent::all_clear(bases, ds, nb) <==> forall|i: int|
            0 <= i < bases.len() && #[trigger] wait(i) ==> {
                let sum = algebra::lincomb(
                    Seq::new(
                        i as nat,
                        |j: int|
                            if abs(ds[j]) == abs(ds[i]) && (wait(j) || forall|l: int|
                                0 <= l < j ==> #[trigger] abs(ds[l]) != abs(ds[j])) {
                                if ds[j] > 0 {
                                    1int
                                } else {
                                    -1int
                                }
                            } else {
                                0int
                            },
                    ),
                    bases,
                    i as nat,
                );
                sum != bases[i] && sum != bases[i].minus()
            },
{
    lemma_clear(bases, ds, nb, wait, rank);
    assert forall|i: int| 0 <= i < bases.len() implies #[trigger] met(bases, ds, wait, i)
        == algebra::lincomb(
        Seq::new(
            i as nat,
            |j: int|
                if abs(ds[j]) == abs(ds[i]) && (wait(j) || forall|l: int|
                    0 <= l < j ==> #[trigger] abs(ds[l]) != abs(ds[j])) {
                    if ds[j] > 0 {
                        1int
                    } else {
                        -1int
                    }
                } else {
                    0int
                },
        ),
        bases,
        i as nat,
    ) by {
        let e = Seq::new(
            i as nat,
            |j: int|
                if abs(ds[j]) == abs(ds[i]) && (wait(j) || forall|l: int|
                    0 <= l < j ==> #[trigger] abs(ds[l]) != abs(ds[j])) {
                    if ds[j] > 0 {
                        1int
                    } else {
                        -1int
                    }
                } else {
                    0int
                },
        );
        let f = shares(ds, wait, abs(ds[i]));
        assert forall|j: int| 0 <= j < i implies #[trigger] algebra::smul(f[j], bases[j])
            == algebra::smul(e[j], bases[j]) by {}
        algebra::lemma_lincomb_congruent(f, bases, e, bases, i as nat);
    }
}

/// Additions can be made in batches exactly where all points have coordinates and in no window a
/// point meets itself or its inverse in the bucket that it waits for.
///
/// `ds` are the digits of the scalars in the windows; `wait` and `rank` say for every window what
/// they say in `law_window_batches`.
pub proof fn law_batches<C: CurveAffine>(
    coeffs: Seq<C::Scalar>,
    bases: Seq<C>,
    c: nat,
    ds: spec_fn(nat, int) -> int,
    wait: spec_fn(nat, int) -> bool,
    rank: spec_fn(nat, int) -> nat,
)
    requires
        1 <= c,
        coeffs.len() == bases.len(),
        forall|w: nat, i: int|
            0 <= i < bases.len() ==> #[trigger] ds(w, i) == booth::booth_index(
                w,
                c,
                C::Scalar::repr(coeffs[i].value()),
            ),
        forall|w: nat| #[trigger] rank(w, 0) == 0,
        forall|w: nat, i: int|
            0 <= i < bases.len() ==> rank(w, i + 1) == rank(w, i) + (if #[trigger] wait(w, i) {
                1nat
            } else {
                0nat
            }),
        forall|w: nat, i: int|
            0 <= i < bases.len() ==> (#[trigger] wait(w, i) <==> {
                &&& abs(ds(w, i)) >= 2
                &&& exists|j: int| 0 <= j < i && abs(#[trigger] ds(w, j)) == abs(ds(w, i))
                &&& !exists|j: int|
                    0 <= j < i && #[trigger] wait(w, j) && abs(ds(w, j)) == abs(ds(w, i)) && rank(
                        w,
                        j,
                    ) / 64 == rank(w, i) / 64
            }),
    ensures
        independent::batches(coeffs, bases, c) <==> {
            &&& forall|i: int| 0 <= i < bases.len() ==> (#[trigger] bases[i]).xy() is Some
            &&& forall|w: nat, i: int|
                w < C::Scalar::NUM_BITS as nat / c + 1 && 0 <= i < bases.len()
                    && #[trigger] wait(w, i) ==> {
                    let sum = algebra::lincomb(
                        Seq::new(
                            i as nat,
                            |j: int|
                                if abs(ds(w, j)) == abs(ds(w, i)) && (wait(w, j) || forall|l: int|
                                    0 <= l < j ==> abs(#[trigger] ds(w, l)) != abs(ds(w, j))) {
                                    if ds(w, j) > 0 {
                                        1int
                                    } else {
                                        -1int
                                    }
                                } else {
                                    0int
                                },
                        ),
                        bases,
                        i as nat,
                    );
                    sum != bases[i] && sum != bases[i].minus()
                }
        },
{
    let n = bases.len();
    let nb = pow2((c - 1) as nat);
    let count = C::Scalar::NUM_BITS as nat / c + 1;
    let sum = |w: nat, i: int|
        algebra::lincomb(
            Seq::new(
                i as nat,
                |j: int|
                    if abs(ds(w, j)) == abs(ds(w, i)) && (wait(w, j) || forall|l: int|
                        0 <= l < j ==> abs(#[trigger] ds(w, l)) != abs(ds(w, j))) {
                        if ds(w, j) > 0 {
                            1int
                        } else {
                            -1int
                        }
                    } else {
                        0int
                    },
            ),
            bases,
            i as nat,
        );
    if forall|i: int| 0 <= i < bases.len() ==> (#[trigger] bases[i]).xy() is Some {
        assert forall|w: nat| w < count implies (independent::all_clear(
            bases,
            #[trigger] independent::scalar_digits(coeffs, c, w),
            nb,
        ) <==> forall|i: int|
            0 <= i < n && #[trigger] wait(w, i) ==> sum(w, i) != bases[i] && sum(w, i)
                != bases[i].minus()) by {
            let dw = independent::scalar_digits(coeffs, c, w);
            let ww = |i: int| wait(w, i);
            let rw = |i: int| rank(w, i);
            assert forall|i: int| 0 <= i < n implies -nb <= #[trigger] dw[i] <= nb && dw[i] == ds(
                w,
                i,
            ) by {
                booth::law_booth_bounded(w, c, C::Scalar::repr(coeffs[i].value()));
            }
            lemma_one_queue(bases.len(), dw, ds, wait, rank, w);
            lemma_clear(bases, dw, nb, ww, rw);
            assert forall|i: int| 0 <= i < n implies #[trigger] met(bases, dw, ww, i) == sum(
                w,
                i,
            ) by {
                let e = Seq::new(
                    i as nat,
                    |j: int|
                        if abs(ds(w, j)) == abs(ds(w, i)) && (wait(w, j) || forall|l: int|
                            0 <= l < j ==> abs(#[trigger] ds(w, l)) != abs(ds(w, j))) {
                            if ds(w, j) > 0 {
                                1int
                            } else {
                                -1int
                            }
                        } else {
                            0int
                        },
                );
                let f = shares(dw, ww, abs(dw[i]));
                assert forall|j: int| 0 <= j < i implies #[trigger] algebra::smul(f[j], bases[j])
                    == algebra::smul(e[j], bases[j]) by {
                    assert(dw[j] == ds(w, j));
                    if counted(dw, ww, j) && !wait(w, j) {
                        assert forall|l: int| 0 <= l < j implies abs(#[trigger] ds(w, l)) != abs(
                            ds(w, j),
                        ) by {
                            assert(abs(dw[l]) != abs(dw[j]));
                        }
                    }
                    if forall|l: int| 0 <= l < j ==> abs(#[trigger] ds(w, l)) != abs(ds(w, j)) {
                        assert forall|l: int| 0 <= l < j implies #[trigger] abs(dw[l]) != abs(
                            dw[j],
                        ) by {
                            assert(abs(ds(w, l)) != abs(ds(w, j)));
                        }
                        assert(counted(dw, ww, j));
                    }
                }
                algebra::lemma_lincomb_congruent(f, bases, e, bases, i as nat);
            }
            if independent::all_clear(bases, dw, nb) {
                assert forall|i: int| 0 <= i < n && #[trigger] wait(w, i) implies sum(w, i)
                    != bases[i] && sum(w, i) != bases[i].minus() by {
                    assert(ww(i));
                }
            } else {
                let i = choose|i: int|
                    0 <= i < n && #[trigger] ww(i) && (met(bases, dw, ww, i) == bases[i] || met(
                        bases,
                        dw,
                        ww,
                        i,
                    ) == bases[i].minus());
                assert(wait(w, i));
            }
        }
        assert forall|w: nat, i: int|
            independent::batches(coeffs, bases, c) && w < count && 0 <= i < n && #[trigger] wait(
                w,
                i,
            ) implies sum(w, i) != bases[i] && sum(w, i) != bases[i].minus() by {
            assert(independent::all_clear(bases, independent::scalar_digits(coeffs, c, w), nb));
        }
    }
}

/// The queue of one window.
proof fn lemma_one_queue(
    n: nat,
    dw: Seq<int>,
    ds: spec_fn(nat, int) -> int,
    wait: spec_fn(nat, int) -> bool,
    rank: spec_fn(nat, int) -> nat,
    w: nat,
)
    requires
        dw.len() == n,
        forall|i: int| 0 <= i < n ==> #[trigger] dw[i] == ds(w, i),
        rank(w, 0) == 0,
        forall|i: int|
            0 <= i < n ==> rank(w, i + 1) == rank(w, i) + (if #[trigger] wait(w, i) {
                1nat
            } else {
                0nat
            }),
        forall|i: int|
            0 <= i < n ==> (#[trigger] wait(w, i) <==> {
                &&& abs(ds(w, i)) >= 2
                &&& exists|j: int| 0 <= j < i && abs(#[trigger] ds(w, j)) == abs(ds(w, i))
                &&& !exists|j: int|
                    0 <= j < i && #[trigger] wait(w, j) && abs(ds(w, j)) == abs(ds(w, i)) && rank(
                        w,
                        j,
                    ) / 64 == rank(w, i) / 64
            }),
    ensures
        is_queue(dw, |i: int| wait(w, i), |i: int| rank(w, i)),
{
    let ww = |i: int| wait(w, i);
    let rw = |i: int| rank(w, i);
    assert forall|i: int| 0 <= i < n implies (#[trigger] ww(i) <==> {
        &&& abs(dw[i]) >= 2
        &&& exists|j: int| 0 <= j < i && #[trigger] abs(dw[j]) == abs(dw[i])
        &&& !exists|j: int|
            0 <= j < i && #[trigger] ww(j) && abs(dw[j]) == abs(dw[i]) && rw(j) / 64 == rw(i) / 64
    }) by {
        assert(dw[i] == ds(w, i));
        assert(ww(i) == wait(w, i));
        if exists|j: int| 0 <= j < i && abs(#[trigger] ds(w, j)) == abs(ds(w, i)) {
            let j = choose|j: int| 0 <= j < i && abs(#[trigger] ds(w, j)) == abs(ds(w, i));
            assert(abs(dw[j]) == abs(dw[i]));
        }
        if exists|j: int| 0 <= j < i && #[trigger] abs(dw[j]) == abs(dw[i]) {
            let j = choose|j: int| 0 <= j < i && #[trigger] abs(dw[j]) == abs(dw[i]);
            assert(abs(ds(w, j)) == abs(ds(w, i)));
        }
        if exists|j: int|
            0 <= j < i && #[trigger] wait(w, j) && abs(ds(w, j)) == abs(ds(w, i)) && rank(w, j) / 64
                == rank(w, i) / 64 {
            let j = choose|j: int|
                0 <= j < i && #[trigger] wait(w, j) && abs(ds(w, j)) == abs(ds(w, i)) && rank(w, j)
                    / 64 == rank(w, i) / 64;
            assert(dw[j] == ds(w, j));
            assert(ww(j));
        }
        if exists|j: int|
            0 <= j < i && #[trigger] ww(j) && abs(dw[j]) == abs(dw[i]) && rw(j) / 64 == rw(i)
                / 64 {
            let j = choose|j: int|
                0 <= j < i && #[trigger] ww(j) && abs(dw[j]) == abs(dw[i]) && rw(j) / 64 == rw(i)
                    / 64;
            assert(dw[j] == ds(w, j));
            assert(wait(w, j));
        }
    }
    assert forall|i: int| 0 <= i < n implies rw(i + 1) == rw(i) + (if #[trigger] ww(i) {
        1nat
    } else {
        0nat
    }) by {
        assert(ww(i) == wait(w, i));
    }
}

/// How many of the first `i` are true.
spec fn count_true(t: Seq<bool>, i: nat) -> nat
    decreases i,
{
    if i == 0 {
        0
    } else {
        count_true(t, (i - 1) as nat) + (if t[i - 1] {
            1nat
        } else {
            0nat
        })
    }
}

/// Whether point `i` waits, given which of those before it do.
spec fn joins(ds: Seq<int>, t: Seq<bool>, i: nat) -> bool {
    &&& abs(ds[i as int]) >= 2
    &&& exists|j: int| 0 <= j < i && #[trigger] abs(ds[j]) == abs(ds[i as int])
    &&& !exists|j: int|
        0 <= j < i && #[trigger] t[j] && abs(ds[j]) == abs(ds[i as int]) && count_true(
            t,
            j as nat,
        ) / 64 == count_true(t, i) / 64
}

/// Which of the first `i` points wait.
spec fn queue(ds: Seq<int>, i: nat) -> Seq<bool>
    decreases i,
{
    if i == 0 {
        Seq::empty()
    } else {
        let t = queue(ds, (i - 1) as nat);
        t.push(joins(ds, t, (i - 1) as nat))
    }
}

/// Only the first `i` count.
proof fn lemma_count_prefix(a: Seq<bool>, b: Seq<bool>, i: nat)
    requires
        i <= a.len(),
        i <= b.len(),
        forall|j: int| 0 <= j < i ==> a[j] == b[j],
    ensures
        count_true(a, i) == count_true(b, i),
    decreases i,
{
    if i > 0 {
        lemma_count_prefix(a, b, (i - 1) as nat);
    }
}

/// Whether a point waits does not depend on those after it.
proof fn lemma_queue_prefix(ds: Seq<int>, i: nat, n: nat)
    requires
        i <= n,
    ensures
        queue(ds, i).len() == i,
        queue(ds, n).len() == n,
        forall|j: int| 0 <= j < i ==> queue(ds, n)[j] == queue(ds, i)[j],
    decreases n,
{
    if n > 0 {
        if i < n {
            lemma_queue_prefix(ds, i, (n - 1) as nat);
        } else {
            lemma_queue_prefix(ds, (n - 1) as nat, (n - 1) as nat);
        }
    }
}

/// There is always a way in which the points wait.
proof fn lemma_queue(ds: Seq<int>)
    ensures
        ({
            let t = queue(ds, ds.len());
            is_queue(ds, |i: int| t[i], |i: int| count_true(t, i as nat))
        }),
{
    let n = ds.len();
    let t = queue(ds, n);
    let wait = |i: int| t[i];
    let rank = |i: int| count_true(t, i as nat);
    assert forall|i: int| 0 <= i < n implies (#[trigger] wait(i) <==> {
        &&& abs(ds[i]) >= 2
        &&& exists|j: int| 0 <= j < i && #[trigger] abs(ds[j]) == abs(ds[i])
        &&& !exists|j: int|
            0 <= j < i && #[trigger] wait(j) && abs(ds[j]) == abs(ds[i]) && rank(j) / 64 == rank(i)
                / 64
    }) by {
        lemma_queue_prefix(ds, (i + 1) as nat, n);
        lemma_queue_prefix(ds, i as nat, n);
        let s = queue(ds, i as nat);
        assert(queue(ds, (i + 1) as nat) == s.push(joins(ds, s, i as nat)));
        assert(t[i] == queue(ds, (i + 1) as nat)[i]);
        assert(wait(i) == joins(ds, s, i as nat));
        assert forall|j: int| 0 <= j <= i implies #[trigger] count_true(s, j as nat) == rank(
            j,
        ) by {
            lemma_count_prefix(s, t, j as nat);
        }
        if exists|j: int|
            0 <= j < i && #[trigger] wait(j) && abs(ds[j]) == abs(ds[i]) && rank(j) / 64 == rank(i)
                / 64 {
            let j = choose|j: int|
                0 <= j < i && #[trigger] wait(j) && abs(ds[j]) == abs(ds[i]) && rank(j) / 64
                    == rank(i) / 64;
            assert(s[j]);
            assert(count_true(s, j as nat) == rank(j));
            assert(count_true(s, i as nat) == rank(i));
        }
        if exists|j: int|
            0 <= j < i && #[trigger] s[j] && abs(ds[j]) == abs(ds[i]) && count_true(s, j as nat)
                / 64 == count_true(s, i as nat) / 64 {
            let j = choose|j: int|
                0 <= j < i && #[trigger] s[j] && abs(ds[j]) == abs(ds[i]) && count_true(
                    s,
                    j as nat,
                ) / 64 == count_true(s, i as nat) / 64;
            assert(wait(j));
            assert(count_true(s, j as nat) == rank(j));
            assert(count_true(s, i as nat) == rank(i));
        }
    }
    assert forall|i: int| 0 <= i < n implies rank(i + 1) == rank(i) + (if #[trigger] wait(i) {
        1nat
    } else {
        0nat
    }) by {}
}

/// Among points with digits of one size there is a first.
proof fn lemma_first(ds: Seq<int>, size: nat, i: int) -> (j: int)
    requires
        0 <= i,
        exists|j: int| 0 <= j < i && #[trigger] abs(ds[j]) == size,
    ensures
        0 <= j < i,
        abs(ds[j]) == size,
        forall|l: int| 0 <= l < j ==> #[trigger] abs(ds[l]) != size,
    decreases i,
{
    if exists|j: int| 0 <= j < i - 1 && #[trigger] abs(ds[j]) == size {
        lemma_first(ds, size, i - 1)
    } else {
        i - 1
    }
}

/// Where the sums of no points of a bucket equal another point of it, additions can be made in
/// batches, whichever of them wait and for how long.
///
/// For every window, every point with a digit other than 0, 1 and -1, and every choice `e` of
/// points before it with its digit or the opposite, each taken with the sign of its digit: they
/// must not sum to the point or to its inverse. Points in different buckets have nothing to do
/// with each other, and points with digit 0, 1 or -1 may repeat and cancel as they like.
pub proof fn law_bucket_sums_batch<C: CurveAffine>(
    coeffs: Seq<C::Scalar>,
    bases: Seq<C>,
    c: nat,
    ds: spec_fn(nat, int) -> int,
)
    requires
        1 <= c,
        coeffs.len() == bases.len(),
        forall|w: nat, i: int|
            0 <= i < bases.len() ==> #[trigger] ds(w, i) == booth::booth_index(
                w,
                c,
                C::Scalar::repr(coeffs[i].value()),
            ),
        forall|i: int| 0 <= i < bases.len() ==> (#[trigger] bases[i]).xy() is Some,
        forall|w: nat, i: int, e: Seq<int>|
            #![trigger ds(w, i), algebra::lincomb(e, bases, i as nat)]
            w < C::Scalar::NUM_BITS as nat / c + 1 && 0 <= i < bases.len() && abs(ds(w, i)) >= 2
                && e.len() == i && (exists|j: int| 0 <= j < i && #[trigger] e[j] != 0) && (forall|
                j: int,
            |
                0 <= j < i && #[trigger] e[j] != 0 ==> abs(ds(w, j)) == abs(ds(w, i)) && e[j] == (
                if ds(w, j) > 0 {
                    1int
                } else {
                    -1int
                })) ==> {
                &&& algebra::lincomb(e, bases, i as nat) != bases[i]
                &&& algebra::lincomb(e, bases, i as nat) != bases[i].minus()
            },
    ensures
        independent::batches(coeffs, bases, c),
{
    let n = bases.len();
    let nb = pow2((c - 1) as nat);
    assert forall|w: nat|
        w < buckets::window_count(C::Scalar::NUM_BITS as nat, c) implies independent::all_clear(
        bases,
        #[trigger] independent::scalar_digits(coeffs, c, w),
        nb,
    ) by {
        let dw = independent::scalar_digits(coeffs, c, w);
        assert forall|i: int| 0 <= i < n implies -nb <= #[trigger] dw[i] <= nb && dw[i] == ds(
            w,
            i,
        ) by {
            booth::law_booth_bounded(w, c, C::Scalar::repr(coeffs[i].value()));
        }
        let t = queue(dw, n);
        let wait = |i: int| t[i];
        let rank = |i: int| count_true(t, i as nat);
        lemma_queue(dw);
        lemma_clear(bases, dw, nb, wait, rank);
        assert forall|i: int| 0 <= i < n && #[trigger] wait(i) implies met(bases, dw, wait, i)
            != bases[i] && met(bases, dw, wait, i) != bases[i].minus() by {
            let f = shares(dw, wait, abs(dw[i]));
            let e = f.take(i);
            assert forall|j: int| 0 <= j < i implies #[trigger] algebra::smul(f[j], bases[j])
                == algebra::smul(e[j], bases[j]) by {}
            algebra::lemma_lincomb_congruent(f, bases, e, bases, i as nat);
            let first = lemma_first(dw, abs(dw[i]), i);
            assert(counted(dw, wait, first));
            assert(e[first] != 0);
            assert(abs(ds(w, i)) >= 2);
            assert forall|j: int| 0 <= j < i && #[trigger] e[j] != 0 implies abs(ds(w, j)) == abs(
                ds(w, i),
            ) && e[j] == (if ds(w, j) > 0 {
                1int
            } else {
                -1int
            }) by {
                assert(dw[j] == ds(w, j));
            }
        }
    }
}

/// A scalar zero has digit zero in every window.
proof fn lemma_zero_digit(w: nat, c: nat, el: Seq<u8>)
    requires
        curve::le_value(el) == 0,
    ensures
        booth::booth_index(w, c, el) == 0,
{
    let skip = booth::booth_skip(w, c);
    lemma_pow2_pos(8 * (skip / 8));
    lemma_pow2_pos(32);
    lemma_pow2_pos(skip % 8);
    lemma_pow2_pos(c + 1);
    lemma_pow2_pos(c);
    lemma_basic_div(0, pow2(8 * (skip / 8)) as int);
    lemma_small_mod(0, pow2(32));
    lemma_basic_div(0, pow2(skip % 8) as int);
    lemma_small_mod(0, pow2(c + 1));
}

/// A point with digit zero leaves the plan as it is.
proof fn lemma_plan_without<C: CurveAffine>(
    bases: Seq<C>,
    ds: Seq<int>,
    nb: nat,
    k: int,
    i: nat,
)
    requires
        ds.len() == bases.len(),
        0 <= k < bases.len(),
        i <= bases.len(),
        ds[k] == 0,
    ensures
        i <= k ==> independent::plan_points(bases, ds, nb, i) == independent::plan_points(
            bases.remove(k),
            ds.remove(k),
            nb,
            i,
        ),
        i > k ==> independent::plan_points(bases, ds, nb, i) == independent::plan_points(
            bases.remove(k),
            ds.remove(k),
            nb,
            (i - 1) as nat,
        ),
    decreases i,
{
    if i > 0 {
        lemma_plan_without(bases, ds, nb, k, (i - 1) as nat);
    }
}

/// In one window, a point with digit zero does not count.
proof fn lemma_clear_without<C: CurveAffine>(bases: Seq<C>, ds: Seq<int>, nb: nat, k: int)
    requires
        ds.len() == bases.len(),
        0 <= k < bases.len(),
        ds[k] == 0,
    ensures
        independent::all_clear(bases, ds, nb) <==> independent::all_clear(
            bases.remove(k),
            ds.remove(k),
            nb,
        ),
{
    let n = bases.len();
    let (br, dr) = (bases.remove(k), ds.remove(k));
    if independent::all_clear(bases, ds, nb) {
        assert forall|i: int| 0 <= i < br.len() implies independent::clear(
            independent::plan_points(br, dr, nb, i as nat),
            #[trigger] br[i],
            dr[i],
        ) by {
            let j = if i < k {
                i
            } else {
                i + 1
            };
            lemma_plan_without(bases, ds, nb, k, j as nat);
            assert(independent::clear(
                independent::plan_points(bases, ds, nb, j as nat),
                bases[j],
                ds[j],
            ));
        }
    }
    if independent::all_clear(br, dr, nb) {
        assert forall|j: int| 0 <= j < n implies independent::clear(
            independent::plan_points(bases, ds, nb, j as nat),
            #[trigger] bases[j],
            ds[j],
        ) by {
            lemma_plan_without(bases, ds, nb, k, j as nat);
            if j != k {
                let i = if j < k {
                    j
                } else {
                    j - 1
                };
                assert(independent::clear(
                    independent::plan_points(br, dr, nb, i as nat),
                    br[i],
                    dr[i],
                ));
            }
        }
    }
}

/// A point whose scalar is zero may be any point with coordinates: with it and without it,
/// additions can be made in batches of the same windows or cannot.
pub proof fn law_zero_scalar_batches<C: CurveAffine>(
    coeffs: Seq<C::Scalar>,
    bases: Seq<C>,
    c: nat,
    k: int,
)
    requires
        coeffs.len() == bases.len(),
        0 <= k < bases.len(),
        coeffs[k].value() == 0,
        bases[k].xy() is Some,
    ensures
        independent::batches(coeffs, bases, c) <==> independent::batches(
            coeffs.remove(k),
            bases.remove(k),
            c,
        ),
{
    let n = bases.len();
    let (cr, br) = (coeffs.remove(k), bases.remove(k));
    let count = buckets::window_count(C::Scalar::NUM_BITS as nat, c);
    let nb = pow2((c - 1) as nat);
    C::Scalar::law_value(coeffs[k]);
    C::Scalar::law_repr(0);
    assert((forall|i: int| 0 <= i < n ==> (#[trigger] bases[i]).xy() is Some) <==> (forall|i: int|
        0 <= i < br.len() ==> (#[trigger] br[i]).xy() is Some)) by {
        if forall|i: int| 0 <= i < br.len() ==> (#[trigger] br[i]).xy() is Some {
            assert forall|i: int| 0 <= i < n implies (#[trigger] bases[i]).xy() is Some by {
                if i < k {
                    assert(br[i].xy() is Some);
                } else if i > k {
                    assert(br[i - 1].xy() is Some);
                }
            }
        }
    }
    assert forall|w: nat| w < count implies independent::all_clear(
        bases,
        #[trigger] independent::scalar_digits(coeffs, c, w),
        nb,
    ) == independent::all_clear(br, independent::scalar_digits(cr, c, w), nb) by {
        let ds = independent::scalar_digits(coeffs, c, w);
        lemma_zero_digit(w, c, C::Scalar::repr(0));
        lemma_clear_without(bases, ds, nb, k);
        assert(ds.remove(k) =~= independent::scalar_digits(cr, c, w));
    }
    if independent::batches(coeffs, bases, c) {
        assert forall|w: nat| w < count implies independent::all_clear(
            br,
            #[trigger] independent::scalar_digits(cr, c, w),
            nb,
        ) by {
            assert(independent::all_clear(bases, independent::scalar_digits(coeffs, c, w), nb));
        }
    }
    if independent::batches(cr, br, c) {
        assert forall|w: nat| w < count implies independent::all_clear(
            bases,
            #[trigger] independent::scalar_digits(coeffs, c, w),
            nb,
        ) by {
            assert(independent::all_clear(br, independent::scalar_digits(cr, c, w), nb));
        }
    }
}

} // verus!
