//! The choice of a window size.
use vstd::prelude::*;
use vstd::arithmetic::power::*;

verus! {

/// `e^k`, rounded down, for `k` up to 22.
pub open spec fn exp_floor(k: nat) -> u32 {
    if k == 0 { 1 }
    else if k == 1 { 2 }
    else if k == 2 { 7 }
    else if k == 3 { 20 }
    else if k == 4 { 54 }
    else if k == 5 { 148 }
    else if k == 6 { 403 }
    else if k == 7 { 1_096 }
    else if k == 8 { 2_980 }
    else if k == 9 { 8_103 }
    else if k == 10 { 22_026 }
    else if k == 11 { 59_874 }
    else if k == 12 { 162_754 }
    else if k == 13 { 442_413 }
    else if k == 14 { 1_202_604 }
    else if k == 15 { 3_269_017 }
    else if k == 16 { 8_886_110 }
    else if k == 17 { 24_154_952 }
    else if k == 18 { 65_659_969 }
    else if k == 19 { 178_482_300 }
    else if k == 20 { 485_165_195 }
    else if k == 21 { 1_318_815_734 }
    else { 3_584_912_846 }
}

/// The least `c`, not below `from`, with `n <= e^c`. No `n` exceeds `e^23`.
pub open spec fn ceil_ln_from(n: u32, from: nat) -> nat
    decreases 23 - from,
{
    if from >= 23 || n <= exp_floor(from) {
        from
    } else {
        ceil_ln_from(n, from + 1)
    }
}

/// The window size for `n` points: 1 below four points, 3 below thirty-two, and the
/// natural logarithm of `n`, rounded up, from there on. The logarithm is that of the low
/// 32 bits of `n`.
pub open spec fn window_size_for(n: nat) -> nat {
    if n < 4 {
        1
    } else if n < 32 {
        3
    } else {
        ceil_ln_from((n % 0x1_0000_0000) as u32, 0)
    }
}

/// Whether there is a window size for `n` points. The low 32 bits of a count above 32 bits
/// may be too few.
pub open spec fn has_window(n: nat) -> bool {
    n < 32 || n % 0x1_0000_0000 > 1
}

/// Whether the window size for `n` points is ten or more.
pub open spec fn has_large_window(n: nat) -> bool {
    n >= 32 && n % 0x1_0000_0000 > exp_floor(9)
}

/// A window size is at most 23, and it is positive where there is one.
pub proof fn lemma_window_size_bounds(n: nat)
    ensures
        window_size_for(n) <= 23,
        window_size_for(n) > 0 <==> has_window(n),
        window_size_for(n) >= 10 <==> has_large_window(n),
{
    reveal_with_fuel(ceil_ln_from, 24);
}

/// The table of powers against `e`, which lies between 2.718281828459045 and
/// 2.718281828459046: what it holds is below a power of `e`, and one more is above.
#[verifier::spinoff_prover]
#[verifier::rlimit(50)]
proof fn lemma_exp_floor(k: nat)
    requires
        k <= 23,
    ensures
        k <= 22 ==> exp_floor(k) * pow(1_000_000_000_000_000, k) <= pow(2_718_281_828_459_045, k),
        k <= 22 ==> (exp_floor(k) + 1) * pow(1_000_000_000_000_000, k) > pow(
            2_718_281_828_459_046,
            k,
        ),
        k == 23 ==> 0x1_0000_0000 * pow(1_000_000_000_000_000, k) <= pow(
            2_718_281_828_459_045,
            k,
        ),
{
    lemma_powers(1_000_000_000_000_000);
    lemma_powers(2_718_281_828_459_045);
    lemma_powers(2_718_281_828_459_046);
    let t = pow(1_000_000_000_000_000, k);
    let lo = pow(2_718_281_828_459_045, k);
    let hi = pow(2_718_281_828_459_046, k);
    if k == 0 {
        lemma_row(k, 1, t, lo, hi);
    }
    if k == 1 {
        lemma_row(k, 2, t, lo, hi);
    }
    if k == 2 {
        lemma_row(k, 7, t, lo, hi);
    }
    if k == 3 {
        lemma_row(k, 20, t, lo, hi);
    }
    if k == 4 {
        lemma_row(k, 54, t, lo, hi);
    }
    if k == 5 {
        lemma_row(k, 148, t, lo, hi);
    }
    if k == 6 {
        lemma_row(k, 403, t, lo, hi);
    }
    if k == 7 {
        lemma_row(k, 1_096, t, lo, hi);
    }
    if k == 8 {
        lemma_row(k, 2_980, t, lo, hi);
    }
    if k == 9 {
        lemma_row(k, 8_103, t, lo, hi);
    }
    if k == 10 {
        lemma_row(k, 22_026, t, lo, hi);
    }
    if k == 11 {
        lemma_row(k, 59_874, t, lo, hi);
    }
    if k == 12 {
        lemma_row(k, 162_754, t, lo, hi);
    }
    if k == 13 {
        lemma_row(k, 442_413, t, lo, hi);
    }
    if k == 14 {
        lemma_row(k, 1_202_604, t, lo, hi);
    }
    if k == 15 {
        lemma_row(k, 3_269_017, t, lo, hi);
    }
    if k == 16 {
        lemma_row(k, 8_886_110, t, lo, hi);
    }
    if k == 17 {
        lemma_row(k, 24_154_952, t, lo, hi);
    }
    if k == 18 {
        lemma_row(k, 65_659_969, t, lo, hi);
    }
    if k == 19 {
        lemma_row(k, 178_482_300, t, lo, hi);
    }
    if k == 20 {
        lemma_row(k, 485_165_195, t, lo, hi);
    }
    if k == 21 {
        lemma_row(k, 1_318_815_734, t, lo, hi);
    }
    if k == 22 {
        lemma_row(k, 3_584_912_846, t, lo, hi);
    }
}

/// The first powers of a number.
proof fn lemma_powers(b: int)
    ensures
        pow(b, 0) == 1,
        pow(b, 1) == b * pow(b, 0),
        pow(b, 2) == b * pow(b, 1),
        pow(b, 3) == b * pow(b, 2),
        pow(b, 4) == b * pow(b, 3),
        pow(b, 5) == b * pow(b, 4),
        pow(b, 6) == b * pow(b, 5),
        pow(b, 7) == b * pow(b, 6),
        pow(b, 8) == b * pow(b, 7),
        pow(b, 9) == b * pow(b, 8),
        pow(b, 10) == b * pow(b, 9),
        pow(b, 11) == b * pow(b, 10),
        pow(b, 12) == b * pow(b, 11),
        pow(b, 13) == b * pow(b, 12),
        pow(b, 14) == b * pow(b, 13),
        pow(b, 15) == b * pow(b, 14),
        pow(b, 16) == b * pow(b, 15),
        pow(b, 17) == b * pow(b, 16),
        pow(b, 18) == b * pow(b, 17),
        pow(b, 19) == b * pow(b, 18),
        pow(b, 20) == b * pow(b, 19),
        pow(b, 21) == b * pow(b, 20),
        pow(b, 22) == b * pow(b, 21),
        pow(b, 23) == b * pow(b, 22),
{
    reveal(pow);
}

/// One row of the table.
proof fn lemma_row(k: nat, f: int, t: int, lo: int, hi: int)
    requires
        f == exp_floor(k),
        f * t <= lo,
        (f + 1) * t > hi,
    ensures
        exp_floor(k) * t <= lo,
        (exp_floor(k) + 1) * t > hi,
{
    assert(exp_floor(k) * t <= lo && (exp_floor(k) + 1) * t > hi) by (nonlinear_arith)
        requires
            f == exp_floor(k),
            f * t <= lo,
            (f + 1) * t > hi,
    ;
}

/// The window size is 1 below four points, 3 below thirty-two, and from there on the least
/// number `c` with `n <= e^c`, for the low 32 bits of `n`. For `e` stand 2.718281828459045 and
/// 2.718281828459046, between which it lies.
pub proof fn law_window_size(n: nat)
    ensures
        n < 4 ==> window_size_for(n) == 1,
        4 <= n < 32 ==> window_size_for(n) == 3,
        n >= 32 ==> ({
            let low = n % 0x1_0000_0000;
            let c = window_size_for(n);
            &&& low <= 1 <==> c == 0
            &&& low >= 2 ==> low * pow(1_000_000_000_000_000, c) <= pow(2_718_281_828_459_045, c)
            &&& low >= 2 ==> low * pow(1_000_000_000_000_000, (c - 1) as nat) > pow(
                2_718_281_828_459_046,
                (c - 1) as nat,
            )
        }),
{
    lemma_window_size_bounds(n);
    if n >= 32 && n % 0x1_0000_0000 >= 2 {
        let low = n % 0x1_0000_0000;
        let c = window_size_for(n);
        let d = (c - 1) as nat;
        lemma_ceil_ln(low as u32, 0);
        lemma_exp_floor(c);
        lemma_exp_floor(d);
        lemma_pow_positive(1_000_000_000_000_000, c);
        lemma_pow_positive(1_000_000_000_000_000, d);
        let (p, q) = (pow(1_000_000_000_000_000, c), pow(1_000_000_000_000_000, d));
        if c <= 22 {
            assert(low * p <= exp_floor(c) * p) by (nonlinear_arith)
                requires
                    low <= exp_floor(c),
                    p > 0,
            ;
        } else {
            assert(low * p <= 0x1_0000_0000 * p) by (nonlinear_arith)
                requires
                    low <= 0x1_0000_0000,
                    p > 0,
            ;
        }
        assert(low * q >= (exp_floor(d) + 1) * q) by (nonlinear_arith)
            requires
                low >= exp_floor(d) + 1,
                q > 0,
        ;
    }
}

/// The search stops at the first power that is not below `n`.
proof fn lemma_ceil_ln(n: u32, from: nat)
    requires
        from <= 23,
    ensures
        from <= ceil_ln_from(n, from) <= 23,
        ceil_ln_from(n, from) <= 22 ==> n <= exp_floor(ceil_ln_from(n, from)),
        ceil_ln_from(n, from) > from ==> n > exp_floor((ceil_ln_from(n, from) - 1) as nat),
    decreases 23 - from,
{
    if !(from >= 23 || n <= exp_floor(from)) {
        lemma_ceil_ln(n, from + 1);
    }
}

/// The natural logarithm of `n`, rounded up; 0 where `n` is 0.
fn ceil_ln(n: u32) -> (c: usize)
    ensures
        c == ceil_ln_from(n, 0),
{
    let floors: [u32; 23] = [
        1, 2, 7, 20, 54, 148, 403, 1_096, 2_980, 8_103, 22_026, 59_874, 162_754, 442_413,
        1_202_604, 3_269_017, 8_886_110, 24_154_952, 65_659_969, 178_482_300, 485_165_195,
        1_318_815_734, 3_584_912_846,
    ];
    let mut c: usize = 0;
    while c < 23 && n > floors[c]
        invariant
            c <= 23,
            ceil_ln_from(n, 0) == ceil_ln_from(n, c as nat),
            forall|k: int| 0 <= k < 23 ==> #[trigger] floors@[k] == exp_floor(k as nat),
        decreases 23 - c,
    {
        c = c + 1;
    }
    c
}

/// The window size for `n` points.
pub fn window_size(n: usize) -> (c: usize)
    ensures
        c == window_size_for(n as nat),
{
    if n < 4 {
        1
    } else if n < 32 {
        3
    } else {
        let low: u32 = (n as u64 % 0x1_0000_0000u64) as u32;
        ceil_ln(low)
    }
}

} // verus!
