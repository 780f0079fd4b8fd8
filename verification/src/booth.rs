//! Booth encoding: the signed digits of a scalar in windows of a fixed size.
//!
//! A window of `c` bits overlaps its lower neighbour by one bit. Its `c + 1` bits give
//! a digit between `-2^(c-1)` and `2^(c-1)`, so that half as many buckets are needed
//! as for unsigned digits.
use vstd::prelude::*;
use vstd::arithmetic::div_mod::*;
use vstd::arithmetic::mul::*;
use vstd::arithmetic::power2::*;
use vstd::bits::*;

use crate::curve;

verus! {

/// The widest window whose bits, wherever it starts in a byte, lie within four bytes.
pub const MAX_EXACT_WINDOW: usize = 24;

/// The position of the lowest bit of a window that is not the padding of window 0.
pub open spec fn booth_skip(index: nat, c: nat) -> nat {
    if index * c == 0 {
        0
    } else {
        (index * c - 1) as nat
    }
}

/// The `c + 1` bits of a window, taken from the four bytes that begin where the
/// window begins. Window 0 is padded with a zero bit at its low end.
pub open spec fn booth_bits(index: nat, c: nat, el: Seq<u8>) -> nat {
    let skip = booth_skip(index, c);
    let word = (curve::le_value(el) / pow2(8 * (skip / 8))) % pow2(32);
    let padded = if index == 0 {
        (2 * word) % pow2(32)
    } else {
        word
    };
    (padded / pow2(skip % 8)) % pow2(c + 1)
}

/// The signed digit that the bits of a window denote: half of their value as a
/// two's complement number, rounded up.
pub open spec fn booth_digit(bits: nat, c: nat) -> int {
    if bits < pow2(c) {
        ((bits + 1) / 2) as int
    } else {
        (bits + 1) / 2 - pow2(c)
    }
}

/// The signed digit of a window of a scalar.
pub open spec fn booth_index(index: nat, c: nat, el: Seq<u8>) -> int {
    booth_digit(booth_bits(index, c, el), c)
}

/// Whether the four bytes hold the window, so that its bits are those of the whole scalar.
pub open spec fn window_exact(index: nat, c: nat, el: Seq<u8>) -> bool {
    booth_bits(index, c, el) == (2 * curve::le_value(el) / pow2(c * index)) % pow2(c + 1)
}

/// None of the lowest `n` windows of a scalar misses a bit of it.
pub open spec fn windows_exact(c: nat, el: Seq<u8>, n: nat) -> bool {
    c <= MAX_EXACT_WINDOW || forall|i: nat| i < n ==> #[trigger] window_exact(i, c, el)
}

/// `value / 2^(c * index)`, rounded to the nearest integer, halves upwards.
pub open spec fn booth_round(value: nat, index: nat, c: nat) -> nat {
    (2 * value / pow2(c * index) + 1) / 2
}

/// The number that the lowest `n` digits of a scalar denote.
pub open spec fn booth_value(c: nat, el: Seq<u8>, n: nat) -> int
    decreases n,
{
    if n == 0 {
        0
    } else {
        booth_value(c, el, (n - 1) as nat) + pow2(c * ((n - 1) as nat)) * booth_index(
            (n - 1) as nat,
            c,
            el,
        )
    }
}

/// Shifting off whole bytes divides by a power of 256.
proof fn lemma_le_value_skip(el: Seq<u8>, k: nat)
    ensures
        curve::le_value(el) / pow2(8 * k) == (if k <= el.len() {
            curve::le_value(el.skip(k as int))
        } else {
            0
        }),
    decreases k,
{
    lemma2_to64();
    if k == 0 {
        assert(el.skip(0) =~= el);
        assert(8 * k == 0);
    } else if el.len() == 0 {
        lemma_pow2_pos(8 * k);
        lemma_basic_div(0, pow2(8 * k) as int);
    } else {
        let rest = el.drop_first();
        let j = (k - 1) as nat;
        lemma_le_value_skip(rest, j);
        lemma_pow2_adds(8, 8 * j);
        assert(8 + 8 * j == 8 * k);
        lemma_pow2_pos(8 * j);
        lemma_div_denominator(curve::le_value(el) as int, 256, pow2(8 * j) as int);
        assert(curve::le_value(el) / 256 == curve::le_value(rest));
        if k <= el.len() {
            assert(rest.skip(j as int) =~= el.skip(k as int));
        }
    }
}

/// The byte at a position, or zero past the end.
spec fn byte_or_zero(el: Seq<u8>, i: nat) -> u8 {
    if i < el.len() {
        el[i as int]
    } else {
        0
    }
}

/// Four bytes, and what they are of the whole number.
proof fn lemma_le_word(el: Seq<u8>, k: nat)
    ensures
        (curve::le_value(el) / pow2(8 * k)) % pow2(32) == byte_or_zero(el, k) + 256 * byte_or_zero(
            el,
            k + 1,
        ) + 65536 * byte_or_zero(el, k + 2) + 16777216 * byte_or_zero(el, k + 3),
{
    lemma2_to64();
    lemma_le_value_skip(el, k);
    lemma_le_value_skip(el, k + 4);
    if k <= el.len() {
        let t = el.skip(k as int);
        assert forall|j: int| 0 <= j <= 4 && 0 <= j <= t.len() implies #[trigger] t.skip(j)
            =~= el.skip(k + j) by {}
        if t.len() > 0 {
            assert(t.drop_first() =~= t.skip(1));
        }
        if t.len() > 1 {
            assert(t.skip(1).drop_first() =~= t.skip(2));
        }
        if t.len() > 2 {
            assert(t.skip(2).drop_first() =~= t.skip(3));
        }
        if t.len() > 3 {
            assert(t.skip(3).drop_first() =~= t.skip(4));
        }
        reveal_with_fuel(curve::le_value, 5);
        let high: nat = if t.len() >= 4 {
            curve::le_value(t.skip(4))
        } else {
            0
        };
        let low: nat = (byte_or_zero(el, k) + 256 * byte_or_zero(el, k + 1) + 65536
            * byte_or_zero(el, k + 2) + 16777216 * byte_or_zero(el, k + 3)) as nat;
        assert(curve::le_value(t) == low + 0x1_0000_0000 * high);
        assert((low + 0x1_0000_0000 * high) % 0x1_0000_0000 == low);
    }
}

/// The byte at a position, or zero past the end.
fn byte_at(el: &[u8], i: usize) -> (b: u8)
    ensures
        b == byte_or_zero(el@, i as nat),
{
    if i < el.len() {
        el[i]
    } else {
        0
    }
}

/// Whether the most significant byte of a scalar is zero, so that its own digits are
/// used rather than those of its negative.
pub fn get_field_sign(el: &[u8]) -> (r: bool)
    requires
        el@.len() > 0,
    ensures
        r <==> el@.last() == 0,
{
    el[el.len() - 1] == 0
}

/// The signed digit of window `window_index`, of `window_size` bits, of the scalar whose
/// little-endian bytes are `el`.
///
/// For a window of three bits the sixteen values of its four bits give, in order,
/// `0, +1, +1, +2, +2, +3, +3, +4, -4, -3, -3, -2, -2, -1, -1, 0`.
pub fn get_booth_index(window_index: usize, window_size: usize, el: &[u8]) -> (r: i32)
    requires
        window_size <= 30,
        window_index * window_size <= usize::MAX,
    ensures
        r == booth_index(window_index as nat, window_size as nat, el@),
{
    let skip_bits: usize = (window_index * window_size).saturating_sub(1);
    let skip_bytes: usize = skip_bits / 8;

    let mut tmp: u32 = byte_at(el, skip_bytes) as u32 + 256 * byte_at(el, skip_bytes + 1) as u32
        + 65536 * byte_at(el, skip_bytes + 2) as u32 + 16777216 * byte_at(el, skip_bytes + 3) as u32;
    proof {
        lemma2_to64();
        lemma_le_word(el@, skip_bytes as nat);
    }
    let ghost word = tmp;

    // pad with one zero bit below the least significant window
    if window_index == 0 {
        tmp = tmp << 1;
        assert(tmp == (2 * word) % 0x1_0000_0000) by (bit_vector)
            requires
                tmp == word << 1,
        ;
    }
    let ghost padded = tmp;

    // drop the bits below the window
    let shift: u32 = (skip_bits - skip_bytes * 8) as u32;
    proof {
        lemma_u32_shr_is_div(tmp, shift);
    }
    tmp = tmp >> shift;
    let ghost shifted = tmp;

    // keep the bits of the window
    let c: u32 = window_size as u32;
    proof {
        lemma_u32_pow2_no_overflow(c as nat);
        lemma_u32_pow2_no_overflow((c + 1) as nat);
        lemma_u32_shl_is_mul(1, c);
        lemma_u32_shl_is_mul(1, (c + 1) as u32);
        lemma_u32_low_bits_mask_is_mod(tmp, (c + 1) as nat);
        lemma_pow2_unfold((c + 1) as nat);
    }
    tmp = tmp & ((1u32 << (c + 1)) - 1);
    let ghost bits = tmp;
    proof {
        assert(bits == booth_bits(window_index as nat, window_size as nat, el@));
    }

    let sign: bool = tmp & (1u32 << c) == 0;
    assert(sign <==> tmp < (1u32 << c)) by (bit_vector)
        requires
            c <= 30,
            sign <==> tmp & (1u32 << c) == 0,
            tmp < 2 * (1u32 << c),
    ;

    // halve, rounding up
    assert((tmp + 1) as u32 >> 1 == (tmp + 1) as u32 / 2) by (bit_vector);
    tmp = (tmp + 1) >> 1;

    if sign {
        tmp as i32
    } else {
        let magnitude: u32 = !(tmp - 1) & ((1u32 << c) - 1);
        assert(magnitude == (1u32 << c) - tmp) by (bit_vector)
            requires
                c <= 30,
                1 <= tmp <= (1u32 << c),
                magnitude == !((tmp - 1) as u32) & (((1u32 << c) - 1) as u32),
        ;
        -(magnitude as i32)
    }
}

/// A window that lies within the four bytes misses nothing: its bits are those of the whole
/// scalar.
pub proof fn law_booth_bits_exact(index: nat, c: nat, el: Seq<u8>)
    requires
        1 <= c,
        booth_skip(index, c) % 8 + c < 32,
    ensures
        window_exact(index, c, el),
{
    lemma_bits_exact(index, c, el);
}

/// A window misses nothing if it lies within the four bytes, or if there is nothing beyond them.
proof fn lemma_bits_exact(index: nat, c: nat, el: Seq<u8>)
    requires
        1 <= c <= 31,
        ({
            let skip = booth_skip(index, c);
            ||| skip % 8 + c < 32
            ||| curve::le_value(el) / pow2(8 * (skip / 8)) < pow2(32)
        }),
    ensures
        window_exact(index, c, el),
{
    let value = curve::le_value(el);
    let skip = booth_skip(index, c);
    let t = skip % 8;
    let whole = value / pow2(8 * (skip / 8));
    lemma2_to64();
    lemma_pow2_pos(c + 1);
    lemma_pow2_pos(c * index);
    lemma_mul_is_commutative(c as int, index as int);
    if index == 0 {
        assert(c * index == 0);
        assert(skip == 0);
        assert(8 * (skip / 8) == 0);
        let rest = (31 - c) as nat;
        lemma_pow2_adds(c + 1, rest);
        assert(c + 1 + rest == 32);
        lemma_pow2_pos(rest);
        assert((2 * (value % pow2(32))) % pow2(32) == (2 * value) % pow2(32)) by {
            assert(pow2(32) == 0x1_0000_0000);
        }
        lemma_mod_mod((2 * value) as int, pow2(c + 1) as int, pow2(rest) as int);
        assert(t == 0);
        lemma_div_basics((2 * value) as int);
        lemma_div_basics(value as int);
        lemma_div_basics(((2 * (value % pow2(32))) % pow2(32)) as int);
        assert(pow2(c * index) == 1);
        assert(pow2(t) == 1);
        assert(whole == value);
    } else {
        lemma_mul_nonnegative(index as int, c as int);
        assert(index * c > 0) by (nonlinear_arith)
            requires
                index > 0,
                c > 0,
        ;
        // the two divisions are one
        lemma_pow2_adds(8 * (skip / 8), t);
        lemma_pow2_pos(8 * (skip / 8));
        lemma_pow2_pos(t);
        assert(8 * (skip / 8) + t == skip);
        lemma_div_denominator(value as int, pow2(8 * (skip / 8)) as int, pow2(t) as int);
        lemma_pow2_unfold(c * index);
        lemma_pow2_pos(skip);
        lemma_div_multiples_vanish_quotient(2, value as int, pow2(skip) as int);
        assert(2 * value / pow2(c * index) == whole / pow2(t));
        // and cutting off at four bytes does not reach the window
        if t + c >= 32 {
            lemma_small_mod(whole, pow2(32));
        } else {
            let rest = (32 - t) as nat;
            let spare = (rest - (c + 1)) as nat;
            lemma_pow2_adds(t, rest);
            lemma_pow2_adds(c + 1, spare);
            lemma_pow2_pos(rest);
            lemma_pow2_pos(spare);
            lemma_mod_breakdown(whole as int, pow2(t) as int, pow2(rest) as int);
            let low = (whole / pow2(t)) % pow2(rest);
            lemma_mod_bound(whole as int, pow2(t) as int);
            lemma_fundamental_div_mod_converse(
                (whole % pow2(32)) as int,
                pow2(t) as int,
                low as int,
                (whole % pow2(t)) as int,
            );
            lemma_mod_mod((whole / pow2(t)) as int, pow2(c + 1) as int, pow2(spare) as int);
        }
    }
}

/// Up to the widest exact window, every window lies within the four bytes.
pub proof fn lemma_windows_exact(c: nat, el: Seq<u8>, n: nat, index: nat)
    requires
        1 <= c,
        index < n,
        windows_exact(c, el, n),
    ensures
        window_exact(index, c, el),
{
    if c <= MAX_EXACT_WINDOW {
        law_booth_bits_exact(index, c, el);
    }
}

/// A digit is what rounding at its window leaves over from rounding at the next.
pub proof fn lemma_booth_telescopes(index: nat, c: nat, el: Seq<u8>)
    requires
        1 <= c,
        window_exact(index, c, el),
    ensures
        booth_index(index, c, el) == booth_round(curve::le_value(el), index, c) - pow2(c) * booth_round(
            curve::le_value(el),
            index + 1,
            c,
        ),
{
    let value = curve::le_value(el);
    let q = 2 * value / pow2(c * index);
    let half = pow2(c);
    lemma_pow2_pos(c);
    lemma_pow2_pos(c * index);
    lemma_pow2_pos(c + 1);
    lemma_pow2_unfold(c + 1);
    lemma_pow2_adds(c * index, c);
    assert(c * index + c == c * (index + 1)) by (nonlinear_arith);
    lemma_div_denominator((2 * value) as int, pow2(c * index) as int, half as int);
    let next = q / half;
    assert(2 * value / pow2(c * (index + 1)) == next);
    let t = q / (2 * half);
    let bits = q % (2 * half);
    lemma_fundamental_div_mod(q as int, (2 * half) as int);
    let top: nat = if bits < half {
        0
    } else {
        1
    };
    assert(q == (2 * t + top) * half + (bits - top * half)) by (nonlinear_arith)
        requires
            q == 2 * half * t + bits,
            top == 0 || top == 1,
    ;
    lemma_mod_bound(q as int, (2 * half) as int);
    assert(top * half == if bits < half { 0 } else { half as int });
    lemma_fundamental_div_mod_converse(
        q as int,
        half as int,
        (2 * t + top) as int,
        bits - top * half,
    );
    assert(next == 2 * t + top);
    assert((next + 1) / 2 == t + top);
    assert(q + 1 == bits + 1 + 2 * (half * t)) by (nonlinear_arith)
        requires
            q == 2 * half * t + bits,
    ;
    assert((q + 1) / 2 == (bits + 1) / 2 + half * t);
    assert(half * (t + top) == half * t + (if bits < half { 0 } else { half as int }))
        by (nonlinear_arith)
        requires
            top == (if bits < half { 0int } else { 1 }),
    ;
}

/// What the digit of a window is, from the number alone: `v / 2^(c * index)`, rounded to the
/// nearest integer with halves upwards, less `2^c` times what that gives at the next window. The
/// number is that of the scalar's bytes up to the fourth from where the window begins, and where
/// the window lies within these four it might as well be the whole scalar.
pub proof fn law_booth_digit(index: nat, c: nat, el: Seq<u8>, k: nat)
    requires
        1 <= c <= 31,
        k == (if index == 0 {
            0
        } else {
            (index * c - 1) / 8
        }),
    ensures
        ({
            let v = curve::le_value(
                el.take(
                    if k + 4 < el.len() {
                        (k + 4) as int
                    } else {
                        el.len() as int
                    },
                ),
            );
            booth_index(index, c, el) == (2 * v / pow2(c * index) + 1) / 2 - pow2(c) * ((2 * v
                / pow2(c * (index + 1)) + 1) / 2)
        }),
        index == 0 || (index * c - 1) % 8 + c < 32 ==> ({
            let v = curve::le_value(el);
            booth_index(index, c, el) == (2 * v / pow2(c * index) + 1) / 2 - pow2(c) * ((2 * v
                / pow2(c * (index + 1)) + 1) / 2)
        }),
{
    let m: int = if k + 4 < el.len() {
        (k + 4) as int
    } else {
        el.len() as int
    };
    let low = el.take(m);
    let skip = booth_skip(index, c);
    if index > 0 {
        assert(index * c > 0) by (nonlinear_arith)
            requires
                index > 0,
                c > 0,
        ;
    } else {
        assert(index * c == 0);
    }
    assert(k == skip / 8);
    lemma_le_word(el, k);
    lemma_le_word(low, k);
    assert(byte_or_zero(low, k) == byte_or_zero(el, k));
    assert(byte_or_zero(low, k + 1) == byte_or_zero(el, k + 1));
    assert(byte_or_zero(low, k + 2) == byte_or_zero(el, k + 2));
    assert(byte_or_zero(low, k + 3) == byte_or_zero(el, k + 3));
    assert(booth_bits(index, c, el) == booth_bits(index, c, low));
    let v = curve::le_value(low);
    lemma_le_value_skip(low, k + 4);
    if k + 4 <= low.len() {
        assert(low.skip((k + 4) as int).len() == 0);
    }
    assert(v / pow2(8 * (k + 4)) == 0);
    lemma_pow2_adds(8 * k, 32);
    lemma_pow2_pos(8 * k);
    lemma_pow2_pos(32);
    assert(8 * k + 32 == 8 * (k + 4));
    lemma_div_denominator(v as int, pow2(8 * k) as int, pow2(32) as int);
    lemma_below_divisor(v / pow2(8 * k), pow2(32));
    lemma_bits_exact(index, c, low);
    lemma_booth_telescopes(index, c, low);
    if index == 0 || (index * c - 1) % 8 + c < 32 {
        lemma_bits_exact(index, c, el);
        lemma_booth_telescopes(index, c, el);
    }
}

/// A quotient is zero only below the divisor.
proof fn lemma_below_divisor(a: nat, d: nat)
    requires
        d > 0,
        a / d == 0,
    ensures
        a < d,
{
    lemma_fundamental_div_mod(a as int, d as int);
    lemma_mod_bound(a as int, d as int);
    assert(d * 0 == 0);
}

/// The digits of a scalar lie between `-2^(c-1)` and `2^(c-1)`.
pub proof fn law_booth_bounded(index: nat, c: nat, el: Seq<u8>)
    requires
        1 <= c,
    ensures
        -pow2((c - 1) as nat) <= booth_index(index, c, el) <= pow2((c - 1) as nat),
{
    lemma_pow2_unfold(c);
    lemma_pow2_unfold(c + 1);
    lemma_pow2_pos(c + 1);
    lemma_pow2_pos((c - 1) as nat);
    let skip = booth_skip(index, c);
    let word = (curve::le_value(el) / pow2(8 * (skip / 8))) % pow2(32);
    let padded = if index == 0 {
        (2 * word) % pow2(32)
    } else {
        word
    };
    lemma_mod_bound((padded / pow2(skip % 8)) as int, pow2(c + 1) as int);
}

/// The lowest `n` digits denote the scalar but for the rounding at window `n`.
pub proof fn lemma_booth_value(c: nat, el: Seq<u8>, n: nat)
    requires
        1 <= c,
        windows_exact(c, el, n),
    ensures
        booth_value(c, el, n) == curve::le_value(el) - pow2(c * n) * booth_round(curve::le_value(el), n, c),
    decreases n,
{
    let value = curve::le_value(el);
    if n == 0 {
        lemma2_to64();
        assert(c * n == 0);
    } else {
        let m = (n - 1) as nat;
        lemma_booth_value(c, el, m);
        lemma_windows_exact(c, el, n, m);
        lemma_booth_telescopes(m, c, el);
        lemma_pow2_adds(c * m, c);
        assert(c * m + c == c * n) by (nonlinear_arith)
            requires
                n == m + 1,
        ;
        let here = booth_round(value, m, c);
        let next = booth_round(value, n, c);
        let w = pow2(c * m);
        assert(w * (here - pow2(c) * next) == w * here - (w * pow2(c)) * next)
            by (nonlinear_arith);
    }
}

/// Booth encoding loses nothing: as soon as the windows reach one bit beyond a scalar,
/// its digits, weighted by the positions of their windows, sum to it.
pub proof fn law_booth_reconstructs(c: nat, el: Seq<u8>, n: nat)
    requires
        1 <= c,
        windows_exact(c, el, n),
        2 * curve::le_value(el) < pow2(c * n),
    ensures
        booth_value(c, el, n) == curve::le_value(el),
{
    lemma_booth_value(c, el, n);
    lemma_booth_round_top(curve::le_value(el), n, c);
    assert(pow2(c * n) * 0 == 0);
}

/// Rounding at a window beyond the scalar gives zero.
pub proof fn lemma_booth_round_top(value: nat, index: nat, c: nat)
    requires
        2 * value < pow2(c * index),
    ensures
        booth_round(value, index, c) == 0,
{
    lemma_basic_div((2 * value) as int, pow2(c * index) as int);
}

} // verus!
