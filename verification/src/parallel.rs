//! Multi-scalar multiplication on many threads.
use vstd::prelude::*;
use vstd::arithmetic::div_mod::*;
use vstd::arithmetic::mul::*;
use vstd::arithmetic::power2::*;

use crate::algebra;
use crate::algebra::AbelianGroup;
use crate::buckets;
use crate::curve::{CurveAffine, Group, PrimeField};
use crate::serial::multiexp_serial;
use crate::window;

verus! {

/// `rayon::current_num_threads`: the size of the thread pool in use. A pool has at least one
/// thread; how many more depends on the machine and on how the pool was built. The first call may
/// start the pool, and panics where the machine refuses that.
pub assume_specification[ rayon::current_num_threads ]() -> (n: usize)
    ensures
        n >= 1,
;

/// `rayon::join`: makes both calls, on two threads where a second one is free, and returns what
/// they returned, the first in the first place. It panics only where one of the calls does, or
/// where the machine refuses to start the pool.
pub assume_specification<A, B, RA, RB>[ rayon::join::<A, B, RA, RB> ](
    oper_a: A,
    oper_b: B,
) -> (r: (RA, RB)) where
    A: FnOnce() -> RA + Send,
    B: FnOnce() -> RB + Send,
    RA: Send,
    RB: Send,

    requires
        call_requires(oper_a, ()),
        call_requires(oper_b, ()),
    ensures
        call_ensures(oper_a, (), r.0),
        call_ensures(oper_b, (), r.1),
;

/// Whether a list is what `f` returned for `lo`, `lo + 1`, and so on up to `hi - 1`.
pub open spec fn are_images<T, F: Fn(usize) -> T>(
    r: Seq<T>,
    f: F,
    lo: usize,
    hi: usize,
) -> bool {
    &&& r.len() == hi - lo
    &&& forall|k: int|
        0 <= k < hi - lo ==> call_ensures(f, ((lo + k) as usize,), #[trigger] r[k])
}

/// Results for two adjoining ranges, one list after the other, are those for both: place by place
/// what the function returned for that very argument.
pub proof fn law_images_join<T, F: Fn(usize) -> T>(
    first: Seq<T>,
    second: Seq<T>,
    f: F,
    lo: usize,
    mid: usize,
    hi: usize,
)
    requires
        lo <= mid <= hi,
        first.len() == mid - lo,
        second.len() == hi - mid,
        forall|k: int|
            0 <= k < first.len() ==> call_ensures(f, ((lo + k) as usize,), #[trigger] first[k]),
        forall|k: int|
            0 <= k < second.len() ==> call_ensures(f, ((mid + k) as usize,), #[trigger] second[k]),
    ensures
        are_images(first + second, f, lo, hi),
        forall|k: int|
            0 <= k < hi - lo ==> call_ensures(
                f,
                ((lo + k) as usize,),
                #[trigger] (first + second)[k],
            ),
{
    let r = first + second;
    assert forall|k: int| 0 <= k < hi - lo implies call_ensures(
        f,
        ((lo + k) as usize,),
        #[trigger] r[k],
    ) by {
        if k < mid - lo {
            assert(r[k] == first[k]);
        } else {
            assert(r[k] == second[k - (mid - lo)]);
            assert(mid + (k - (mid - lo)) == lo + k);
        }
    }
}

/// The values of `f` at `lo`, `lo + 1`, and so on up to `hi - 1`. More than `grain` of them are
/// split in halves, for two threads.
fn par_range<T: Send, F: Fn(usize) -> T + Send + Sync>(
    f: &F,
    lo: usize,
    hi: usize,
    grain: usize,
) -> (r: Vec<T>)
    requires
        lo <= hi,
        grain >= 1,
        forall|k: usize| lo <= k < hi ==> #[trigger] call_requires(*f, (k,)),
    ensures
        are_images(r@, *f, lo, hi),
    decreases hi - lo,
{
    if hi - lo <= grain {
        let mut r: Vec<T> = Vec::new();
        let mut k: usize = lo;
        while k < hi
            invariant
                lo <= k <= hi,
                forall|k: usize| lo <= k < hi ==> #[trigger] call_requires(*f, (k,)),
                are_images(r@, *f, lo, k),
            decreases hi - k,
        {
            r.push(f(k));
            k = k + 1;
        }
        r
    } else {
        let mid: usize = lo + (hi - lo) / 2;
        let left = || -> (r: Vec<T>)
            ensures
                are_images(r@, *f, lo, mid),
            { par_range(f, lo, mid, grain) };
        let right = || -> (r: Vec<T>)
            ensures
                are_images(r@, *f, mid, hi),
            { par_range(f, mid, hi, grain) };
        let (mut r, mut rest) = rayon::join(left, right);
        let ghost first = r@;
        let ghost second = rest@;
        r.append(&mut rest);
        proof {
            law_images_join(first, second, *f, lo, mid, hi);
        }
        r
    }
}

/// The values of `f` at `0..n`, on as many threads as there are. Item `k` of the result is what
/// `f` returned for `k`, in whichever order and on whichever threads the calls were made.
pub(crate) fn par_map<T: Send, F: Fn(usize) -> T + Send + Sync>(n: usize, f: F) -> (r: Vec<T>)
    requires
        forall|k: usize| k < n ==> #[trigger] call_requires(f, (k,)),
    ensures
        r@.len() == n,
        forall|k: int| 0 <= k < n ==> call_ensures(f, (k as usize,), #[trigger] r@[k]),
{
    let grain: usize = n / rayon::current_num_threads() / 4 + 1;
    par_range(&f, 0, n, grain)
}

/// The end of chunk `k`, or of the whole.
pub open spec fn chunk_end(n: nat, chunk: nat, k: nat) -> nat {
    buckets::min_len(k * chunk, n)
}

/// There is a window size for every chunk into which `threads` threads split `n` points.
pub open spec fn splits(n: nat, threads: nat) -> bool {
    if n > threads {
        window::has_window(n / threads) && window::has_window(n % (n / threads))
    } else {
        window::has_window(n)
    }
}

/// However many threads there are, `n` points can be split among them.
pub open spec fn always_splits(n: nat) -> bool {
    n <= u32::MAX || forall|threads: nat| threads >= 1 ==> #[trigger] splits(n, threads)
}

/// Up to `u32::MAX` points, every number of threads can split them.
pub proof fn lemma_splits(n: nat, threads: nat)
    requires
        threads >= 1,
        always_splits(n),
    ensures
        splits(n, threads),
{
    if n <= u32::MAX {
        lemma_div_is_ordered_by_denominator(n as int, 1, threads as int);
        if n > threads {
            lemma_div_non_zero(n as int, threads as int);
            lemma_mod_bound(n as int, (n / threads) as int);
        }
    }
}

/// Points can be split among threads exactly where there is a window size for every part: for
/// as many points as each thread gets, and for those that are left over. Up to `u32::MAX`
/// points that is so whatever the number of threads.
pub proof fn law_splits(n: nat, threads: nat)
    requires
        threads >= 1,
    ensures
        n > threads ==> (splits(n, threads) <==> window::window_size_for(n / threads) > 0
            && window::window_size_for(n % (n / threads)) > 0),
        n <= threads ==> (splits(n, threads) <==> window::window_size_for(n) > 0),
        n <= u32::MAX ==> splits(n, threads) && always_splits(n),
{
    window::lemma_window_size_bounds(n);
    window::lemma_window_size_bounds(n / threads);
    window::lemma_window_size_bounds(n % (n / threads));
    if n <= u32::MAX {
        lemma_splits(n, threads);
    }
}

/// A linear combination is that of a first part and that of the rest.
pub proof fn lemma_lincomb_split<A: AbelianGroup>(k: Seq<int>, p: Seq<A>, lo: nat, hi: nat)
    requires
        lo <= hi <= k.len(),
        hi <= p.len(),
    ensures
        algebra::lincomb(k, p, hi) == algebra::lincomb(k, p, lo).plus(
            algebra::lincomb(
                k.subrange(lo as int, hi as int),
                p.subrange(lo as int, hi as int),
                (hi - lo) as nat,
            ),
        ),
    decreases hi,
{
    if lo == hi {
        A::law_zero(algebra::lincomb(k, p, lo));
    } else {
        let h = (hi - 1) as nat;
        lemma_lincomb_split(k, p, lo, h);
        let (k1, p1) = (k.subrange(lo as int, hi as int), p.subrange(lo as int, hi as int));
        let (k0, p0) = (k.subrange(lo as int, h as int), p.subrange(lo as int, h as int));
        assert forall|i: int| 0 <= i < h - lo implies #[trigger] algebra::smul(k0[i], p0[i])
            == algebra::smul(k1[i], p1[i]) by {}
        algebra::lemma_lincomb_congruent(k0, p0, k1, p1, (h - lo) as nat);
        A::law_assoc(
            algebra::lincomb(k, p, lo),
            algebra::lincomb(k1, p1, (h - lo) as nat),
            algebra::smul(k[h as int], p[h as int]),
        );
    }
}

/// A multi-scalar multiplication is that of a first part of the points and that of the rest.
pub proof fn law_msm_of_parts<C: CurveAffine>(coeffs: Seq<C::Scalar>, bases: Seq<C>, k: nat)
    requires
        k <= coeffs.len(),
        k <= bases.len(),
    ensures
        buckets::msm(coeffs, bases) == buckets::msm(
            coeffs.take(k as int),
            bases.take(k as int),
        ).plus(buckets::msm(coeffs.skip(k as int), bases.skip(k as int))),
{
    let n = buckets::min_len(coeffs.len(), bases.len());
    let vs = buckets::values(coeffs);
    lemma_lincomb_split(vs, bases, k, n);
    let (ct, bt) = (coeffs.take(k as int), bases.take(k as int));
    assert forall|i: int| 0 <= i < k implies #[trigger] algebra::smul(
        buckets::values(ct)[i],
        bt[i],
    ) == algebra::smul(vs[i], bases[i]) by {}
    algebra::lemma_lincomb_congruent(buckets::values(ct), bt, vs, bases, k);
    let (cs, bs) = (coeffs.skip(k as int), bases.skip(k as int));
    let (vr, br) = (vs.subrange(k as int, n as int), bases.subrange(k as int, n as int));
    assert forall|i: int| 0 <= i < n - k implies #[trigger] algebra::smul(
        buckets::values(cs)[i],
        bs[i],
    ) == algebra::smul(vr[i], br[i]) by {}
    algebra::lemma_lincomb_congruent(buckets::values(cs), bs, vr, br, (n - k) as nat);
}

/// How many chunks there are.
pub open spec fn chunk_count(n: nat, chunk: nat) -> nat {
    if n % chunk == 0 {
        n / chunk
    } else {
        n / chunk + 1
    }
}

/// Every chunk begins within the whole, and the last one ends with it.
pub proof fn lemma_chunks(n: nat, chunk: nat, k: nat)
    requires
        chunk > 0,
    ensures
        k < chunk_count(n, chunk) ==> k * chunk < n,
        chunk_end(n, chunk, chunk_count(n, chunk)) == n,
        (k + 1) * chunk == k * chunk + chunk,
        chunk_count(n, chunk) <= n,
{
    let (whole, rest) = (n / chunk, n % chunk);
    lemma_fundamental_div_mod(n as int, chunk as int);
    lemma_mul_is_commutative(chunk as int, whole as int);
    lemma_mod_bound(n as int, chunk as int);
    assert((k + 1) * chunk == k * chunk + chunk) by (nonlinear_arith);
    assert((whole + 1) * chunk == whole * chunk + chunk) by (nonlinear_arith);
    assert(whole <= whole * chunk) by (nonlinear_arith)
        requires
            0 < chunk,
    ;
    if k < chunk_count(n, chunk) {
        assert(k * chunk <= whole * chunk) by (nonlinear_arith)
            requires
                k <= whole,
        ;
        if rest == 0 {
            assert(k * chunk + chunk <= whole * chunk) by (nonlinear_arith)
                requires
                    k + 1 <= whole,
            ;
        }
    }
}

/// The multi-scalar multiplication of chunk `k`.
pub open spec fn chunk_msm<C: CurveAffine>(
    coeffs: Seq<C::Scalar>,
    bases: Seq<C>,
    chunk: nat,
    k: nat,
) -> C {
    let lo = k * chunk;
    let hi = chunk_end(bases.len(), chunk, k + 1);
    algebra::lincomb(
        buckets::values(coeffs).subrange(lo as int, hi as int),
        bases.subrange(lo as int, hi as int),
        (hi - lo) as nat,
    )
}

/// Whether a value is the multi-scalar multiplication of chunk `k`.
pub open spec fn is_chunk_msm<C: CurveAffine>(
    r: C::Curve,
    coeffs: Seq<C::Scalar>,
    bases: Seq<C>,
    chunk: usize,
    k: usize,
) -> bool {
    r.point() == chunk_msm(coeffs, bases, chunk as nat, k as nat)
}

/// The multi-scalar multiplication of chunk `k`.
fn multiexp_chunk<C: CurveAffine>(
    coeffs: &[C::Scalar],
    bases: &[C],
    chunk: usize,
    k: usize,
) -> (r: C::Curve)
    requires
        coeffs@.len() == bases@.len(),
        chunk > 0,
        k < chunk_count(bases@.len(), chunk as nat),
        window::has_window(chunk as nat),
        window::has_window(bases@.len() % (chunk as nat)),
    ensures
        r.point() == chunk_msm(coeffs@, bases@, chunk as nat, k as nat),
{
    let n: usize = bases.len();
    proof {
        lemma_chunks(n as nat, chunk as nat, k as nat);
    }
    let lo: usize = k * chunk;
    let hi: usize = if n - lo < chunk {
        n
    } else {
        lo + chunk
    };
    proof {
        if n - lo < chunk {
            lemma_fundamental_div_mod_converse(n as int, chunk as int, k as int, n - lo);
        }
    }
    let mut acc = C::Curve::identity();
    let part_coeffs = vstd::slice::slice_subrange(coeffs, lo, hi);
    let part_bases = vstd::slice::slice_subrange(bases, lo, hi);
    multiexp_serial(part_coeffs, part_bases, &mut acc);
    proof {
        let c = window::window_size_for((hi - lo) as nat);
        algebra::lemma_from_zero(
            pow2(c * buckets::window_count(C::Scalar::NUM_BITS as nat, c)) as int,
            buckets::msm(part_coeffs@, part_bases@),
        );
        assert(buckets::values(part_coeffs@) =~= buckets::values(coeffs@).subrange(
            lo as int,
            hi as int,
        ));
    }
    acc
}

/// Multi-scalar multiplication on `num_threads` threads, each of which gets a part of the
/// points. The result does not depend on their number.
pub fn multiexp_threads<C: CurveAffine>(
    coeffs: &[C::Scalar],
    bases: &[C],
    num_threads: usize,
) -> (r: C::Curve)
    requires
        coeffs@.len() == bases@.len(),
        num_threads >= 1,
        splits(bases@.len(), num_threads as nat),
    ensures
        r.point() == buckets::msm(coeffs@, bases@),
{
    let n: usize = coeffs.len();
    let mut acc = C::Curve::identity();
    if n > num_threads {
        let chunk: usize = n / num_threads;
        proof {
            lemma_div_non_zero(n as int, num_threads as int);
            lemma_chunks(n as nat, chunk as nat, 0);
        }
        let num_chunks: usize = if n % chunk == 0 {
            n / chunk
        } else {
            n / chunk + 1
        };
        let job = |k: usize| -> (r: C::Curve)
            requires
                k < num_chunks,
            ensures
                is_chunk_msm(r, coeffs@, bases@, chunk, k),
        {
            multiexp_chunk(coeffs, bases, chunk, k)
        };
        let results = par_map(num_chunks, job);
        let mut k: usize = 0;
        while k < num_chunks
            invariant
                k <= num_chunks,
                results@.len() == num_chunks,
                n == coeffs@.len(),
                n == bases@.len(),
                chunk > 0,
                num_chunks == chunk_count(n as nat, chunk as nat),
                forall|j: int|
                    0 <= j < num_chunks ==> (#[trigger] results@[j]).point() == chunk_msm(
                        coeffs@,
                        bases@,
                        chunk as nat,
                        j as nat,
                    ),
                acc.point() == algebra::lincomb(
                    buckets::values(coeffs@),
                    bases@,
                    chunk_end(n as nat, chunk as nat, k as nat),
                ),
            decreases num_chunks - k,
        {
            proof {
                lemma_chunks(n as nat, chunk as nat, k as nat);
                lemma_lincomb_split(
                    buckets::values(coeffs@),
                    bases@,
                    (k * chunk) as nat,
                    chunk_end(n as nat, chunk as nat, (k + 1) as nat),
                );
            }
            acc = acc.add(&results[k]);
            k = k + 1;
        }
        proof {
            lemma_chunks(n as nat, chunk as nat, 0);
        }
    } else {
        multiexp_serial(coeffs, bases, &mut acc);
        proof {
            let c = window::window_size_for(n as nat);
            algebra::lemma_from_zero(
                pow2(c * buckets::window_count(C::Scalar::NUM_BITS as nat, c)) as int,
                buckets::msm(coeffs@, bases@),
            );
        }
    }
    acc
}

/// Multi-scalar multiplication: the sum of every point times its scalar. There are as
/// many scalars as points. Several threads share the work where there are
/// more points than threads.
pub fn best_multiexp<C: CurveAffine>(coeffs: &[C::Scalar], bases: &[C]) -> (r: C::Curve)
    requires
        coeffs@.len() == bases@.len(),
        always_splits(bases@.len()),
    ensures
        r.point() == buckets::msm(coeffs@, bases@),
{
    let num_threads: usize = rayon::current_num_threads();
    proof {
        lemma_splits(bases@.len(), num_threads as nat);
    }
    multiexp_threads(coeffs, bases, num_threads)
}

} // verus!
