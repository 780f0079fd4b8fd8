//! Multi-scalar multiplication with a table of multiples of the points.
use vstd::prelude::*;
use vstd::arithmetic::div_mod::*;
use vstd::arithmetic::mul::*;
use vstd::arithmetic::power2::*;

use crate::algebra;
use crate::algebra::AbelianGroup;
use crate::booth;
use crate::booth::{get_booth_index, get_field_sign};
use crate::buckets;
use crate::buckets::{double_times, to_reprs};
use crate::curve;
use crate::curve::{CurveAffine, Group, PrimeField};
use crate::serial;

verus! {

/// A table holds the points in its first row, their doubles in the next, and so on up
/// to row `2^(pre - 1)`.
pub open spec fn holds_multiples<C: CurveAffine>(
    table: Seq<C::Curve>,
    bases: Seq<C>,
    pre: nat,
) -> bool {
    &&& table.len() >= pow2((pre - 1) as nat) * bases.len()
    &&& forall|k: int|
        0 <= k < pow2((pre - 1) as nat) * bases.len() ==> (#[trigger] table[k]).point()
            == algebra::smul(k / (bases.len() as int) + 1, bases[k % (bases.len() as int)])
}

/// The table of multiples `1, 2, ..., 2^(pre - 1)` of every point.
pub fn multiexp_precompute<C: CurveAffine>(bases: &[C], pre: usize) -> (table: Vec<C::Curve>)
    requires
        1 <= pre <= usize::BITS,
        pow2((pre - 1) as nat) * bases@.len() <= usize::MAX,
    ensures
        table@.len() == pow2((pre - 1) as nat) * bases@.len(),
        holds_multiples(table@, bases@, pre as nat),
{
    let len: usize = bases.len();
    proof {
        vstd::bits::lemma_usize_pow2_no_overflow((pre - 1) as nat);
        vstd::bits::lemma_usize_shl_is_mul(1, (pre - 1) as usize);
    }
    let rows: usize = 1usize << (pre - 1);
    let mut table: Vec<C::Curve> = Vec::new();
    let mut idx: usize = 0;
    while idx < len
        invariant
            idx <= len,
            len == bases@.len(),
            table.len() == idx,
            forall|k: int|
                0 <= k < idx ==> (#[trigger] table@[k]).point() == algebra::smul(
                    k / (len as int) + 1,
                    bases@[k % (len as int)],
                ),
        decreases len - idx,
    {
        table.push(bases[idx].to_curve());
        proof {
            lemma_basic_div(idx as int, len as int);
            lemma_small_mod(idx as nat, len as nat);
            algebra::lemma_smul_one(bases@[idx as int]);
        }
        idx = idx + 1;
    }
    proof {
        lemma_mul_basics(len as int);
    }
    let mut i: usize = 1;
    while i < rows
        invariant
            1 <= i <= rows,
            len == bases@.len(),
            rows * len <= usize::MAX,
            table.len() == i * len,
            forall|k: int|
                0 <= k < table.len() ==> (#[trigger] table@[k]).point() == algebra::smul(
                    k / (len as int) + 1,
                    bases@[k % (len as int)],
                ),
        decreases rows - i,
    {
        proof {
            lemma_mul_inequality((i + 1) as int, rows as int, len as int);
            lemma_mul_is_distributive_add_other_way(len as int, i as int, 1);
            lemma_mul_is_distributive_sub_other_way(len as int, i as int, 1);
        }
        let mut idx: usize = 0;
        while idx < len
            invariant
                1 <= i,
                idx <= len,
                len == bases@.len(),
                (i + 1) * len == i * len + len,
                (i - 1) * len == i * len - len,
                (i + 1) * len <= usize::MAX,
                table.len() == i * len + idx,
                forall|k: int|
                    0 <= k < table.len() ==> (#[trigger] table@[k]).point() == algebra::smul(
                        k / (len as int) + 1,
                        bases@[k % (len as int)],
                    ),
            decreases len - idx,
        {
            let prev = table[(i - 1) * len + idx];
            table.push(prev.add_affine(&bases[idx]));
            proof {
                lemma_fundamental_div_mod_converse(
                    i * len + idx,
                    len as int,
                    i as int,
                    idx as int,
                );
                lemma_fundamental_div_mod_converse(
                    (i - 1) * len + idx,
                    len as int,
                    i - 1,
                    idx as int,
                );
                algebra::lemma_smul_step(i as int, bases@[idx as int]);
            }
            idx = idx + 1;
        }
        i = i + 1;
    }
    table
}

/// The bytes whose digits count for a scalar: its own if the most significant of them is zero,
/// else those of its negative.
pub open spec fn table_repr<F: PrimeField>(a: F) -> Seq<u8> {
    if F::repr(a.value()).last() == 0 {
        F::repr(a.value())
    } else {
        F::repr(((0 - a.value()) % (F::modulus() as int)) as nat)
    }
}

/// The digit by which a scalar counts in one window. That of its negative counts with the
/// opposite sign.
pub open spec fn table_digit<F: PrimeField>(a: F, c: nat, window: nat) -> int {
    let digit = booth::booth_index(window, c, table_repr(a));
    if F::repr(a.value()).last() == 0 {
        digit
    } else {
        -digit
    }
}

pub open spec fn table_digits<F: PrimeField>(coeffs: Seq<F>, c: nat, window: nat) -> Seq<int> {
    Seq::new(coeffs.len(), |i: int| table_digit(coeffs[i], c, window))
}

/// Where the multiple of point `i` of `n` for a digit stands.
pub open spec fn table_position(n: nat, i: nat, digit: int) -> int {
    if digit > 0 {
        (digit - 1) * n + i
    } else {
        (-digit - 1) * n + i
    }
}

/// What a table of `n` columns says of point `i` times a digit.
pub open spec fn table_entry<C: CurveAffine>(
    table: Seq<C::Curve>,
    n: nat,
    i: nat,
    digit: int,
) -> C {
    if digit > 0 {
        table[table_position(n, i, digit)].point()
    } else if digit < 0 {
        table[table_position(n, i, digit)].point().minus()
    } else {
        C::zero()
    }
}

/// The sum of the entries for the digits of the first `i` points.
pub open spec fn table_sum<C: CurveAffine>(table: Seq<C::Curve>, ds: Seq<int>, i: nat) -> C
    decreases i,
{
    if i == 0 {
        C::zero()
    } else {
        table_sum::<C>(table, ds, (i - 1) as nat).plus(
            table_entry::<C>(table, ds.len(), (i - 1) as nat, ds[i - 1]),
        )
    }
}

/// The windows from `window` on, of `windows`, by Horner's rule.
pub open spec fn table_horner<C: CurveAffine>(
    coeffs: Seq<C::Scalar>,
    table: Seq<C::Curve>,
    c: nat,
    windows: nat,
    start: C,
    window: nat,
) -> C
    decreases windows - window,
{
    if window >= windows {
        start
    } else {
        algebra::smul(
            pow2(c) as int,
            table_horner(coeffs, table, c, windows, start, window + 1),
        ).plus(table_sum(table, table_digits(coeffs, c, window), coeffs.len()))
    }
}

/// The table has an entry for every digit of the scalars that is not zero, as a full table has.
pub open spec fn table_covers<F: PrimeField>(coeffs: Seq<F>, table_len: nat, c: nat) -> bool {
    ||| table_len >= pow2((c - 1) as nat) * coeffs.len()
    ||| forall|window: nat, i: int|
        window < buckets::window_count(F::NUM_BITS as nat, c) && 0 <= i < coeffs.len()
            && #[trigger] table_digits(coeffs, c, window)[i] != 0 ==> table_position(
            coeffs.len(),
            i as nat,
            table_digits(coeffs, c, window)[i],
        ) < table_len
}

/// No window of a scalar, or of its negative where that counts, misses a bit of it.
pub open spec fn table_exact<F: PrimeField>(coeffs: Seq<F>, c: nat) -> bool {
    forall|i: int|
        0 <= i < coeffs.len() ==> booth::windows_exact(
            c,
            table_repr(#[trigger] coeffs[i]),
            buckets::window_count(F::NUM_BITS as nat, c),
        )
}

/// The digit by which the scalar with the bytes `repr` counts in one window.
fn digit_at<F: PrimeField>(coeff: &F, repr: &Vec<u8>, c: usize, window: usize) -> (digit: i32)
    requires
        repr@ == F::repr(coeff.value()),
        1 <= c <= 30,
        window * c <= usize::MAX,
    ensures
        digit == table_digit(*coeff, c as nat, window as nat),
        -pow2((c - 1) as nat) <= digit <= pow2((c - 1) as nat),
        -0x2000_0000 <= digit <= 0x2000_0000,
{
    proof {
        F::law_value(*coeff);
        F::law_repr(coeff.value());
        lemma_table_digit_bounded(*coeff, c as nat, window as nat);
        lemma2_to64();
        if c < 30 {
            lemma_pow2_strictly_increases((c - 1) as nat, 29);
        }
    }
    if get_field_sign(repr.as_slice()) {
        get_booth_index(window, c, repr.as_slice())
    } else {
        let negative = F::zero().sub(coeff);
        let bytes = negative.to_repr();
        let digit: i32 = get_booth_index(window, c, bytes.as_slice());
        -digit
    }
}

/// Whether a table of `table_len` entries has one for every digit of the scalars that is not
/// zero.
pub fn table_suffices<F: PrimeField>(coeffs: &[F], table_len: usize, pre: usize) -> (r: bool)
    requires
        1 <= pre,
        coeffs@.len() > 0 ==> pre <= 30,
    ensures
        r <==> table_covers(coeffs@, table_len as nat, pre as nat),
{
    let n: usize = coeffs.len();
    let reprs = to_reprs(coeffs);
    proof {
        F::law_modulus();
        lemma_div_is_ordered_by_denominator(F::NUM_BITS as int, 1, pre as int);
    }
    let number_of_windows: usize = F::NUM_BITS as usize / pre + 1;
    let mut window: usize = 0;
    while window < number_of_windows
        invariant
            1 <= pre,
            n > 0 ==> pre <= 30,
            n == coeffs@.len(),
            buckets::are_reprs(reprs@, coeffs@),
            window <= number_of_windows,
            number_of_windows == buckets::window_count(F::NUM_BITS as nat, pre as nat),
            F::NUM_BITS < u32::MAX,
            forall|w: nat, i: int|
                w < window && 0 <= i < n && #[trigger] table_digits(
                    coeffs@,
                    pre as nat,
                    w,
                )[i] != 0 ==> table_position(
                    n as nat,
                    i as nat,
                    table_digits(coeffs@, pre as nat, w)[i],
                ) < table_len,
        decreases number_of_windows - window,
    {
        proof {
            serial::lemma_window_fits(F::NUM_BITS as nat, pre as nat, window as nat);
        }
        let mut idx: usize = 0;
        while idx < n
            invariant
                1 <= pre,
                n > 0 ==> pre <= 30,
                n == coeffs@.len(),
                buckets::are_reprs(reprs@, coeffs@),
                window < number_of_windows,
                number_of_windows == buckets::window_count(F::NUM_BITS as nat, pre as nat),
                window * pre <= usize::MAX,
                idx <= n,
                forall|i: int|
                    0 <= i < idx && #[trigger] table_digits(
                        coeffs@,
                        pre as nat,
                        window as nat,
                    )[i] != 0 ==> table_position(
                        n as nat,
                        i as nat,
                        table_digits(coeffs@, pre as nat, window as nat)[i],
                    ) < table_len,
            decreases n - idx,
        {
            assert(reprs@[idx as int]@ == F::repr(coeffs@[idx as int].value()));
            let digit: i32 = digit_at(&coeffs[idx], &reprs[idx], pre, window);
            assert(table_digits(coeffs@, pre as nat, window as nat)[idx as int] == digit);
            if digit != 0 {
                let row: u128 = if digit > 0 {
                    (digit - 1) as u128
                } else {
                    (-digit - 1) as u128
                };
                assert(row * n <= 0x2000_0000 * u64::MAX) by (nonlinear_arith)
                    requires
                        row <= 0x2000_0000,
                        n <= u64::MAX,
                ;
                assert(row * n >= 0) by (nonlinear_arith);
                if row * n as u128 + idx as u128 >= table_len as u128 {
                    proof {
                        if table_covers(coeffs@, table_len as nat, pre as nat) {
                            lemma_table_covers(
                                coeffs@,
                                table_len as nat,
                                pre as nat,
                                window as nat,
                                idx as nat,
                            );
                        }
                    }
                    return false;
                }
            }
            idx = idx + 1;
        }
        window = window + 1;
    }
    true
}

/// Adds the table's entries for the digits of every scalar in one window.
fn add_table_window<C: CurveAffine>(
    coeffs: &[C::Scalar],
    reprs: &Vec<Vec<u8>>,
    table: &[C::Curve],
    c: usize,
    window: usize,
    acc: &mut C::Curve,
)
    requires
        buckets::are_reprs(reprs@, coeffs@),
        1 <= c,
        coeffs@.len() > 0 ==> c <= 30,
        window * c <= usize::MAX,
        window < buckets::window_count(C::Scalar::NUM_BITS as nat, c as nat),
        table_covers(coeffs@, table@.len(), c as nat),
    ensures
        final(acc).point() == old(acc).point().plus(
            table_sum(table@, table_digits(coeffs@, c as nat, window as nat), coeffs@.len()),
        ),
{
    let ghost start = acc.point();
    let ghost ds = table_digits(coeffs@, c as nat, window as nat);
    let mut idx: usize = 0;
    proof {
        C::law_zero(start);
    }
    while idx < reprs.len()
        invariant
            buckets::are_reprs(reprs@, coeffs@),
            1 <= c,
            coeffs@.len() > 0 ==> c <= 30,
            window * c <= usize::MAX,
            window < buckets::window_count(C::Scalar::NUM_BITS as nat, c as nat),
            table_covers(coeffs@, table@.len(), c as nat),
            ds == table_digits(coeffs@, c as nat, window as nat),
            idx <= reprs.len(),
            acc.point() == start.plus(table_sum(table@, ds, idx as nat)),
        decreases reprs.len() - idx,
    {
        assert(reprs@[idx as int]@ == C::Scalar::repr(coeffs@[idx as int].value()));
        let digit: i32 = digit_at(&coeffs[idx], &reprs[idx], c, window);
        proof {
            assert(ds[idx as int] == digit);
            C::law_assoc(
                start,
                table_sum(table@, ds, idx as nat),
                table_entry(table@, ds.len(), idx as nat, ds[idx as int]),
            );
            C::law_zero(table_sum(table@, ds, idx as nat));
            lemma_table_covers(
                coeffs@,
                table@.len(),
                c as nat,
                window as nat,
                idx as nat,
            );
            assert(digit != 0 ==> table_position(coeffs@.len(), idx as nat, digit as int)
                < table.len());
        }
        if digit > 0 {
            proof {
                lemma_mul_nonnegative(digit - 1, coeffs@.len() as int);
            }
            *acc = acc.add(&table[(digit - 1) as usize * coeffs.len() + idx]);
        }
        if digit < 0 {
            proof {
                lemma_mul_nonnegative(-digit - 1, coeffs@.len() as int);
            }
            *acc = acc.add(&table[((-digit) as usize - 1) * coeffs.len() + idx].neg());
        }
        idx = idx + 1;
    }
}

/// Doubles `acc` once for every bit of the windows and adds, window by window, the entries of
/// the table for the digits of the scalars. Where the table holds the multiples of
/// some points, that is the sum of every point times its scalar.
pub fn multiexp_precompute_serial<C: CurveAffine>(
    coeffs: &[C::Scalar],
    pre_bases: &[C::Curve],
    pre: usize,
    acc: &mut C::Curve,
)
    requires
        1 <= pre <= u32::MAX,
        coeffs@.len() > 0 ==> pre <= 30,
        table_covers(coeffs@, pre_bases@.len(), pre as nat),
    ensures
        final(acc).point() == table_horner(
            coeffs@,
            pre_bases@,
            pre as nat,
            buckets::window_count(C::Scalar::NUM_BITS as nat, pre as nat),
            old(acc).point(),
            0,
        ),
        forall|bases: Seq<C>|
            bases.len() == coeffs@.len() && table_exact(coeffs@, pre as nat)
                && #[trigger] holds_multiples(pre_bases@, bases, pre as nat)
                ==> final(acc).point() == algebra::smul(
                pow2(
                    pre as nat * buckets::window_count(C::Scalar::NUM_BITS as nat, pre as nat),
                ) as int,
                old(acc).point(),
            ).plus(buckets::msm(coeffs@, bases)),
{
    let ghost start = acc.point();
    let reprs = to_reprs(coeffs);
    let c: usize = pre;
    proof {
        C::Scalar::law_modulus();
        lemma_div_is_ordered_by_denominator(C::Scalar::NUM_BITS as int, 1, c as int);
    }
    let number_of_windows: usize = C::Scalar::NUM_BITS as usize / c + 1;
    let ghost windows = buckets::window_count(C::Scalar::NUM_BITS as nat, c as nat);
    let mut window: usize = number_of_windows;
    while window > 0
        invariant
            1 <= c,
            coeffs@.len() > 0 ==> c <= 30,
            window <= number_of_windows,
            number_of_windows == windows,
            windows == buckets::window_count(C::Scalar::NUM_BITS as nat, c as nat),
            buckets::are_reprs(reprs@, coeffs@),
            table_covers(coeffs@, pre_bases@.len(), c as nat),
            acc.point() == table_horner(
                coeffs@,
                pre_bases@,
                c as nat,
                windows,
                start,
                window as nat,
            ),
        decreases window,
    {
        window = window - 1;
        double_times::<C>(acc, c);
        proof {
            serial::lemma_window_fits(C::Scalar::NUM_BITS as nat, c as nat, window as nat);
        }
        add_table_window::<C>(coeffs, &reprs, pre_bases, c, window, acc);
    }
    proof {
        assert forall|bases: Seq<C>|
            bases.len() == coeffs@.len() && table_exact(coeffs@, pre as nat)
                && #[trigger] holds_multiples(pre_bases@, bases, pre as nat) implies acc.point()
            == algebra::smul(pow2(pre as nat * windows) as int, start).plus(
            buckets::msm(coeffs@, bases),
        ) by {
            law_table_gives_msm(coeffs@, bases, pre_bases@, pre as nat, start);
        }
    }
}

/// Multi-scalar multiplication with the table `pre_bases`, which `multiexp_precompute` makes
/// of `bases`.
pub fn best_multiexp_precompute_serial<C: CurveAffine>(
    coeffs: &[C::Scalar],
    bases: &[C],
    pre_bases: &[C::Curve],
    pre: usize,
) -> (r: C::Curve)
    requires
        coeffs@.len() == bases@.len(),
        1 <= pre <= u32::MAX,
        coeffs@.len() > 0 ==> pre <= 30,
        table_covers(coeffs@, pre_bases@.len(), pre as nat),
    ensures
        r.point() == table_horner(
            coeffs@,
            pre_bases@,
            pre as nat,
            buckets::window_count(C::Scalar::NUM_BITS as nat, pre as nat),
            C::zero(),
            0,
        ),
        table_exact(coeffs@, pre as nat) && holds_multiples(pre_bases@, bases@, pre as nat)
            ==> r.point() == buckets::msm(coeffs@, bases@),
{
    let mut acc = C::Curve::identity();
    multiexp_precompute_serial::<C>(coeffs, pre_bases, pre, &mut acc);
    proof {
        let windows = buckets::window_count(C::Scalar::NUM_BITS as nat, pre as nat);
        algebra::lemma_from_zero(
            pow2(pre as nat * windows) as int,
            buckets::msm(coeffs@, bases@),
        );
    }
    acc
}

/// What is left of a scalar above a window, rounded, as the digits of `table_digit` count it.
spec fn table_round<F: PrimeField>(a: F, c: nat, window: nat) -> int {
    let round = booth::booth_round(curve::le_value(table_repr(a)), window, c);
    if F::repr(a.value()).last() == 0 {
        round as int
    } else {
        -round
    }
}

spec fn table_rounds<F: PrimeField>(coeffs: Seq<F>, c: nat, window: nat) -> Seq<int> {
    Seq::new(coeffs.len(), |i: int| table_round(coeffs[i], c, window))
}

/// A digit is what rounding at its window leaves over from rounding at the next.
proof fn lemma_table_round_step<F: PrimeField>(a: F, c: nat, window: nat)
    requires
        1 <= c,
        booth::window_exact(window, c, table_repr(a)),
    ensures
        table_round(a, c, window) == pow2(c) * table_round(a, c, window + 1) + table_digit(
            a,
            c,
            window,
        ),
{
    booth::lemma_booth_telescopes(window, c, table_repr(a));
    let next = booth::booth_round(curve::le_value(table_repr(a)), window + 1, c);
    assert(pow2(c) * (-next) == -(pow2(c) * next)) by (nonlinear_arith);
}

/// Above the last window nothing is left, and below the first there is the scalar, or what it
/// differs from by the modulus.
proof fn lemma_table_round_ends<F: PrimeField>(a: F, c: nat)
    requires
        1 <= c,
    ensures
        table_round(a, c, buckets::window_count(F::NUM_BITS as nat, c)) == 0,
        table_round(a, c, 0) == a.value() || table_round(a, c, 0) == a.value() - F::modulus(),
{
    let windows = buckets::window_count(F::NUM_BITS as nat, c);
    let negative = ((0 - a.value()) % (F::modulus() as int)) as nat;
    let counted = curve::le_value(table_repr(a));
    F::law_value(a);
    lemma_mod_bound(0 - a.value(), F::modulus() as int);
    F::law_repr(a.value());
    F::law_repr(negative);
    lemma2_to64();
    assert(c * 0 == 0);
    lemma_div_basics((2 * counted) as int);
    serial::lemma_windows_cover::<F>(counted, c);
    booth::lemma_booth_round_top(counted, windows, c);
    if a.value() > 0 {
        lemma_mod_add_multiples_vanish(0 - a.value(), F::modulus() as int);
        lemma_small_mod((F::modulus() - a.value()) as nat, F::modulus());
        assert(negative == F::modulus() - a.value());
    } else {
        lemma_small_mod(0, F::modulus());
    }
    assert(booth::booth_round(counted, 0, c) == counted);
}

/// A full table has the entry for a digit, and it is the digit's multiple of the point.
proof fn lemma_table_entry<C: CurveAffine>(
    table: Seq<C::Curve>,
    bases: Seq<C>,
    pre: nat,
    i: nat,
    digit: int,
)
    requires
        1 <= pre,
        i < bases.len(),
        holds_multiples(table, bases, pre),
        -pow2((pre - 1) as nat) <= digit <= pow2((pre - 1) as nat),
    ensures
        table_entry::<C>(table, bases.len(), i, digit) == algebra::smul(digit, bases[i as int]),
        digit != 0 ==> 0 <= table_position(bases.len(), i, digit) < table.len(),
{
    let n = bases.len();
    let rows = pow2((pre - 1) as nat);
    if digit != 0 {
        let row = if digit > 0 {
            digit - 1
        } else {
            -digit - 1
        };
        let k = row * n + i;
        assert(0 <= k < rows * n) by (nonlinear_arith)
            requires
                k == row * n + i,
                0 <= row < rows,
                0 <= i < n,
        ;
        lemma_fundamental_div_mod_converse(k, n as int, row, i as int);
        assert(table[k].point() == algebra::smul(row + 1, bases[i as int]));
        algebra::lemma_smul_neg(row + 1, bases[i as int]);
    }
}

/// The digits that index a table are bounded by its rows.
proof fn lemma_table_digit_bounded<F: PrimeField>(a: F, c: nat, window: nat)
    requires
        1 <= c,
    ensures
        -pow2((c - 1) as nat) <= table_digit(a, c, window) <= pow2((c - 1) as nat),
{
    booth::law_booth_bounded(window, c, table_repr(a));
}

/// A table that covers the scalars has the entry for each of their digits.
proof fn lemma_table_covers<F: PrimeField>(
    coeffs: Seq<F>,
    table_len: nat,
    c: nat,
    window: nat,
    i: nat,
)
    requires
        1 <= c,
        i < coeffs.len(),
        window < buckets::window_count(F::NUM_BITS as nat, c),
        table_covers(coeffs, table_len, c),
    ensures
        table_digit(coeffs[i as int], c, window) != 0 ==> 0 <= table_position(
            coeffs.len(),
            i,
            table_digit(coeffs[i as int], c, window),
        ) < table_len,
{
    let n = coeffs.len();
    let digit = table_digit(coeffs[i as int], c, window);
    assert(table_digits(coeffs, c, window)[i as int] == digit);
    lemma_table_digit_bounded(coeffs[i as int], c, window);
    if digit != 0 {
        let row = if digit > 0 {
            digit - 1
        } else {
            -digit - 1
        };
        let rows = pow2((c - 1) as nat);
        assert(0 <= row * n + i < rows * n) by (nonlinear_arith)
            requires
                0 <= row < rows,
                0 <= i < n,
        ;
    }
}

/// A sum of entries of a full table is the linear combination of the points by the digits.
proof fn lemma_table_sum<C: CurveAffine>(
    table: Seq<C::Curve>,
    bases: Seq<C>,
    pre: nat,
    ds: Seq<int>,
    i: nat,
)
    requires
        1 <= pre,
        i <= bases.len(),
        ds.len() == bases.len(),
        holds_multiples(table, bases, pre),
        buckets::bounded(ds, pow2((pre - 1) as nat) as int),
    ensures
        table_sum::<C>(table, ds, i) == algebra::lincomb(ds, bases, i),
    decreases i,
{
    if i > 0 {
        let j = (i - 1) as nat;
        lemma_table_sum(table, bases, pre, ds, j);
        assert(-pow2((pre - 1) as nat) <= ds[j as int] <= pow2((pre - 1) as nat));
        lemma_table_entry(table, bases, pre, j, ds[j as int]);
    }
}

/// The windows of a full table from one on.
proof fn lemma_table_horner<C: CurveAffine>(
    coeffs: Seq<C::Scalar>,
    bases: Seq<C>,
    table: Seq<C::Curve>,
    c: nat,
    start: C,
    window: nat,
)
    requires
        1 <= c,
        table_exact(coeffs, c),
        coeffs.len() == bases.len(),
        holds_multiples(table, bases, c),
        window <= buckets::window_count(C::Scalar::NUM_BITS as nat, c),
    ensures
        ({
            let windows = buckets::window_count(C::Scalar::NUM_BITS as nat, c);
            table_horner(coeffs, table, c, windows, start, window) == algebra::smul(
                pow2((c * (windows - window)) as nat) as int,
                start,
            ).plus(
                algebra::lincomb(table_rounds(coeffs, c, window), bases, coeffs.len()),
            )
        }),
    decreases buckets::window_count(C::Scalar::NUM_BITS as nat, c) - window,
{
    let windows = buckets::window_count(C::Scalar::NUM_BITS as nat, c);
    let n = coeffs.len();
    if window >= windows {
        assert forall|i: int| 0 <= i < n implies #[trigger] table_rounds(coeffs, c, window)[i]
            == 0 by {
            lemma_table_round_ends(coeffs[i], c);
        }
        algebra::lemma_lincomb_zero(table_rounds(coeffs, c, window), bases, n);
        lemma2_to64();
        assert(c * (windows - window) == 0) by (nonlinear_arith)
            requires
                windows == window,
        ;
        algebra::lemma_smul_one(start);
        C::law_zero(start);
    } else {
        lemma_table_horner(coeffs, bases, table, c, start, window + 1);
        let ds = table_digits(coeffs, c, window);
        assert forall|i: int| 0 <= i < n implies -pow2((c - 1) as nat) <= #[trigger] ds[i]
            <= pow2((c - 1) as nat) by {
            lemma_table_digit_bounded(coeffs[i], c, window);
        }
        lemma_table_sum(table, bases, c, ds, n);
        assert forall|i: int| 0 <= i < n implies #[trigger] table_rounds(coeffs, c, window)[i]
            == pow2(c) * table_rounds(coeffs, c, window + 1)[i] + ds[i] by {
            booth::lemma_windows_exact(c, table_repr(coeffs[i]), windows, window);
            lemma_table_round_step(coeffs[i], c, window);
        }
        let e = (c * (windows - (window + 1))) as nat;
        lemma_mul_nonnegative(c as int, windows - (window + 1));
        buckets::lemma_horner_step(
            start,
            e,
            c,
            table_rounds(coeffs, c, window + 1),
            ds,
            table_rounds(coeffs, c, window),
            bases,
            n,
        );
        assert(e + c == c * (windows - window)) by (nonlinear_arith)
            requires
                e == c * (windows - (window + 1)),
        ;
    }
}

/// What it means to hold the multiples: row by row `1, 2, ...` times every point, one after the
/// other, for as many rows as half the digits.
pub proof fn law_table_entries<C: CurveAffine>(table: Seq<C::Curve>, bases: Seq<C>, pre: nat)
    requires
        1 <= pre,
    ensures
        holds_multiples(table, bases, pre) <==> {
            &&& table.len() >= pow2((pre - 1) as nat) * bases.len()
            &&& forall|i: int, j: int|
                1 <= i <= pow2((pre - 1) as nat) && 0 <= j < bases.len() ==> table[(i - 1)
                    * bases.len() + j].point() == #[trigger] algebra::smul(i, bases[j])
        },
{
    let n = bases.len();
    let rows = pow2((pre - 1) as nat);
    if holds_multiples(table, bases, pre) {
        assert forall|i: int, j: int| 1 <= i <= rows && 0 <= j < n implies table[(i - 1) * n
            + j].point() == #[trigger] algebra::smul(i, bases[j]) by {
            assert(0 <= (i - 1) * n + j < rows * n) by (nonlinear_arith)
                requires
                    1 <= i <= rows,
                    0 <= j < n,
            ;
            lemma_fundamental_div_mod_converse((i - 1) * n + j, n as int, i - 1, j);
        }
    }
    if table.len() >= rows * n && forall|i: int, j: int|
        1 <= i <= rows && 0 <= j < n ==> table[(i - 1) * n + j].point()
            == #[trigger] algebra::smul(i, bases[j]) {
        assert forall|k: int| 0 <= k < rows * n implies (#[trigger] table[k]).point()
            == algebra::smul(k / (n as int) + 1, bases[k % (n as int)]) by {
            if n == 0 {
                assert(rows * n == 0);
            }
            let (i, j) = (k / (n as int) + 1, k % (n as int));
            lemma_fundamental_div_mod(k, n as int);
            lemma_mod_bound(k, n as int);
            lemma_mul_is_commutative(n as int, i - 1);
            lemma_div_pos_is_pos(k, n as int);
            assert(i - 1 < rows) by (nonlinear_arith)
                requires
                    n > 0,
                    k < rows * n,
                    k == (i - 1) * n + j,
                    0 <= j,
            ;
            assert(table[(i - 1) * n + j].point() == algebra::smul(i, bases[j]));
        }
    }
}

/// A table suffices exactly where every digit that is not zero finds its place in it: the row for
/// the size of the digit, the column for the scalar. `ds` are the digits, of the scalar itself if
/// its most significant byte is zero, else of its negative and with the opposite sign.
pub proof fn law_table_covers<F: PrimeField>(
    coeffs: Seq<F>,
    table_len: nat,
    c: nat,
    ds: spec_fn(nat, int) -> int,
)
    requires
        1 <= c,
        forall|w: nat, i: int|
            0 <= i < coeffs.len() ==> #[trigger] ds(w, i) == (if F::repr(coeffs[i].value()).last()
                == 0 {
                booth::booth_index(w, c, F::repr(coeffs[i].value()))
            } else {
                -booth::booth_index(
                    w,
                    c,
                    F::repr(((0 - coeffs[i].value()) % (F::modulus() as int)) as nat),
                )
            }),
    ensures
        table_covers(coeffs, table_len, c) <==> forall|w: nat, i: int|
            w < F::NUM_BITS as nat / c + 1 && 0 <= i < coeffs.len() && #[trigger] ds(w, i) != 0 ==> (
            if ds(w, i) > 0 {
                ds(w, i)
            } else {
                -ds(w, i)
            } - 1) * coeffs.len() + i < table_len,
        table_len >= pow2((c - 1) as nat) * coeffs.len() ==> table_covers(coeffs, table_len, c),
{
    let n = coeffs.len();
    if table_covers(coeffs, table_len, c) {
        assert forall|w: nat, i: int|
            w < F::NUM_BITS as nat / c + 1 && 0 <= i < n && #[trigger] ds(w, i) != 0 implies (
        if ds(w, i) > 0 {
            ds(w, i)
        } else {
            -ds(w, i)
        } - 1) * n + i < table_len by {
            lemma_table_covers(coeffs, table_len, c, w, i as nat);
            assert(table_digit(coeffs[i], c, w) == ds(w, i));
        }
    } else {
        let (w, i) = choose|w: nat, i: int|
            w < buckets::window_count(F::NUM_BITS as nat, c) && 0 <= i < coeffs.len()
                && #[trigger] table_digits(coeffs, c, w)[i] != 0 && !(table_position(
                coeffs.len(),
                i as nat,
                table_digits(coeffs, c, w)[i],
            ) < table_len);
        assert(table_digits(coeffs, c, w)[i] == ds(w, i));
    }
}

/// No window misses a bit if all lie within four bytes, as those of up to 24 bits do. `first` is
/// where the windows begin.
pub proof fn law_table_exact<F: PrimeField>(coeffs: Seq<F>, c: nat, first: spec_fn(nat) -> int)
    requires
        1 <= c,
        forall|w: nat| #[trigger]
            first(w) == (if w == 0 {
                0
            } else {
                w * c - 1
            }),
        c <= 24 || forall|w: nat|
            w < F::NUM_BITS as nat / c + 1 ==> #[trigger] first(w) % 8 + c < 32,
    ensures
        table_exact(coeffs, c),
{
    let windows = buckets::window_count(F::NUM_BITS as nat, c);
    assert forall|i: int| 0 <= i < coeffs.len() implies booth::windows_exact(
        c,
        table_repr(#[trigger] coeffs[i]),
        windows,
    ) by {
        if c > 24 {
            assert forall|w: nat| w < windows implies #[trigger] booth::window_exact(
                w,
                c,
                table_repr(coeffs[i]),
            ) by {
                assert(first(w) % 8 + c < 32);
                if w > 0 {
                    assert(w * c > 0) by (nonlinear_arith)
                        requires
                            w > 0,
                            c > 0,
                    ;
                } else {
                    assert(w * c == 0);
                }
                booth::law_booth_bits_exact(w, c, table_repr(coeffs[i]));
            }
        }
    }
}

/// The sum of the entries for one window, from a list of them.
proof fn lemma_table_sum_of<C: CurveAffine>(
    table: Seq<C::Curve>,
    ds: Seq<int>,
    entries: Seq<C>,
    i: nat,
)
    requires
        i <= ds.len(),
        forall|j: int|
            0 <= j < ds.len() ==> #[trigger] entries[j] == table_entry::<C>(
                table,
                ds.len(),
                j as nat,
                ds[j],
            ),
    ensures
        table_sum::<C>(table, ds, i) == algebra::lincomb(
            Seq::new(ds.len(), |j: int| 1int),
            entries,
            i,
        ),
    decreases i,
{
    if i > 0 {
        lemma_table_sum_of(table, ds, entries, (i - 1) as nat);
        assert(entries[i - 1] == table_entry::<C>(table, ds.len(), (i - 1) as nat, ds[i - 1]));
        algebra::lemma_smul_one(entries[i - 1]);
    }
}

/// Horner's rule, window by window, and the windows by their weights.
proof fn lemma_positional<C: CurveAffine>(
    coeffs: Seq<C::Scalar>,
    table: Seq<C::Curve>,
    c: nat,
    windows: nat,
    start: C,
    weights: Seq<int>,
    sums: Seq<C>,
    w: nat,
)
    requires
        w <= windows,
        forall|v: nat|
            v < windows ==> #[trigger] sums[v as int] == table_sum::<C>(
                table,
                table_digits(coeffs, c, v),
                coeffs.len(),
            ),
        forall|v: nat| v < windows ==> #[trigger] weights[v as int] == pow2(c * v),
    ensures
        table_horner(coeffs, table, c, windows, start, 0) == algebra::smul(
            pow2(c * w) as int,
            table_horner(coeffs, table, c, windows, start, w),
        ).plus(algebra::lincomb(weights, sums, w)),
    decreases w,
{
    if w == 0 {
        lemma2_to64();
        assert(c * w == 0);
        let h = table_horner(coeffs, table, c, windows, start, 0);
        algebra::lemma_smul_one(h);
        C::law_zero(h);
    } else {
        let v = (w - 1) as nat;
        lemma_positional(coeffs, table, c, windows, start, weights, sums, v);
        let above = table_horner(coeffs, table, c, windows, start, w);
        let here = sums[v as int];
        let (m, k) = (pow2(c * v) as int, pow2(c) as int);
        assert(weights[v as int] == m);
        assert(table_horner(coeffs, table, c, windows, start, v) == algebra::smul(k, above).plus(
            here,
        ));
        algebra::lemma_smul_plus(m, algebra::smul(k, above), here);
        algebra::lemma_smul_mul(m, k, above);
        lemma_pow2_adds(c * v, c);
        assert(c * v + c == c * w) by (nonlinear_arith)
            requires
                w == v + 1,
        ;
        let (a, b, s) = (
            algebra::smul(m * k, above),
            algebra::smul(m, here),
            algebra::lincomb(weights, sums, v),
        );
        C::law_assoc(a, b, s);
        C::law_comm(b, s);
    }
}

/// Whatever the table holds, every window adds, times the weight of its position, the sum of the
/// entries for its digits, and what was there has been doubled once for every bit.
///
/// `ds` are the digits as in `law_table_covers`, and `entries` what the table says of them, window
/// by window: for a digit the entry in its row, for the opposite digit its inverse.
pub proof fn law_table_positional<C: CurveAffine>(
    coeffs: Seq<C::Scalar>,
    table: Seq<C::Curve>,
    c: nat,
    start: C,
    ds: spec_fn(nat, int) -> int,
    entries: Seq<Seq<C>>,
)
    requires
        1 <= c,
        forall|w: nat, i: int|
            0 <= i < coeffs.len() ==> #[trigger] ds(w, i) == (if C::Scalar::repr(
                coeffs[i].value(),
            ).last() == 0 {
                booth::booth_index(w, c, C::Scalar::repr(coeffs[i].value()))
            } else {
                -booth::booth_index(
                    w,
                    c,
                    C::Scalar::repr(
                        ((0 - coeffs[i].value()) % (C::Scalar::modulus() as int)) as nat,
                    ),
                )
            }),
        entries.len() == C::Scalar::NUM_BITS as nat / c + 1,
        forall|w: nat, i: int|
            w < entries.len() && 0 <= i < coeffs.len() ==> #[trigger] entries[w as int][i] == (if ds(
                w,
                i,
            ) > 0 {
                table[(ds(w, i) - 1) * coeffs.len() + i].point()
            } else if ds(w, i) < 0 {
                table[(-ds(w, i) - 1) * coeffs.len() + i].point().minus()
            } else {
                C::zero()
            }),
    ensures
        ({
            let windows = C::Scalar::NUM_BITS as nat / c + 1;
            table_horner(coeffs, table, c, windows, start, 0) == algebra::smul(
                pow2(c * windows) as int,
                start,
            ).plus(
                algebra::lincomb(
                    Seq::new(windows, |w: int| pow2(c * (w as nat)) as int),
                    Seq::new(
                        windows,
                        |w: int|
                            algebra::lincomb(
                                Seq::new(coeffs.len(), |i: int| 1int),
                                entries[w],
                                coeffs.len(),
                            ),
                    ),
                    windows,
                ),
            )
        }),
{
    let n = coeffs.len();
    let windows = C::Scalar::NUM_BITS as nat / c + 1;
    let weights = Seq::new(windows, |w: int| pow2(c * (w as nat)) as int);
    let sums = Seq::new(
        windows,
        |w: int| algebra::lincomb(Seq::new(n, |i: int| 1int), entries[w], n),
    );
    assert forall|w: nat| w < windows implies #[trigger] sums[w as int] == table_sum::<C>(
        table,
        table_digits(coeffs, c, w),
        n,
    ) by {
        let dw = table_digits(coeffs, c, w);
        assert forall|j: int| 0 <= j < n implies #[trigger] entries[w as int][j] == table_entry::<
            C,
        >(table, n, j as nat, dw[j]) by {
            assert(dw[j] == ds(w, j));
        }
        lemma_table_sum_of(table, dw, entries[w as int], n);
    }
    lemma_positional(coeffs, table, c, windows, start, weights, sums, windows);
}

/// With a table of the multiples of the points, the sum of its entries over the windows is the
/// multi-scalar multiplication, and `start` has been doubled once for every bit of the
/// windows.
pub proof fn law_table_gives_msm<C: CurveAffine>(
    coeffs: Seq<C::Scalar>,
    bases: Seq<C>,
    table: Seq<C::Curve>,
    c: nat,
    start: C,
)
    requires
        1 <= c,
        table_exact(coeffs, c),
        coeffs.len() == bases.len(),
        holds_multiples(table, bases, c),
    ensures
        ({
            let windows = buckets::window_count(C::Scalar::NUM_BITS as nat, c);
            table_horner(coeffs, table, c, windows, start, 0) == algebra::smul(
                pow2(c * windows) as int,
                start,
            ).plus(buckets::msm(coeffs, bases))
        }),
{
    let n = coeffs.len();
    lemma_table_horner(coeffs, bases, table, c, start, 0);
    let last = table_rounds(coeffs, c, 0);
    let vs = buckets::values(coeffs);
    assert forall|i: int| 0 <= i < n implies #[trigger] algebra::smul(last[i], bases[i])
        == algebra::smul(vs[i], bases[i]) by {
        lemma_table_round_ends(coeffs[i], c);
        let order = C::Scalar::modulus() as int;
        C::law_order(bases[i]);
        algebra::lemma_smul_add(last[i], order, bases[i]);
        C::law_zero(algebra::smul(last[i], bases[i]));
    }
    algebra::lemma_lincomb_congruent(last, bases, vs, bases, n);
}

} // verus!
