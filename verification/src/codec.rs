use crate::decimal::{Decimal, Unpacked, EXPONENT_OFFSET, EXPONENT_SPECIAL, HIDDEN_BIT, SIGN_BIT};
use crate::error::ContractError;
use vstd::arithmetic::div_mod::*;
use vstd::arithmetic::mul::*;
use vstd::arithmetic::power2::*;
use vstd::prelude::*;

verus! {

/// Fixed-point units per decimal unit.
pub const SCALE: u32 = 1_000_000;

/// The integer nearest to `num / den`, a half rounded up; meant for
/// `num >= 0` and `den > 0`.
pub open spec fn round_half_up(num: int, den: int) -> int {
    (2 * num + den) / (2 * den)
}

/// Magnitude of a finite decimal in millionths, rounded to the nearest
/// integer.
pub open spec fn micros_magnitude(d: Decimal) -> int {
    round_half_up(d.magnitude_num() * SCALE as int, d.magnitude_den())
}

/// A finite decimal in millionths, rounded to the nearest integer, a half
/// away from zero.
pub open spec fn micros(d: Decimal) -> int {
    if d.is_negative() {
        -micros_magnitude(d)
    } else {
        micros_magnitude(d)
    }
}

/// `round_half_up(num, den)` is the one integer `r` with
/// `r - 1/2 <= num/den < r + 1/2`.
pub proof fn lemma_round_half_up_bounds(num: int, den: int)
    requires
        den > 0,
    ensures
        2 * den * round_half_up(num, den) <= 2 * num + den,
        2 * num + den < 2 * den * (round_half_up(num, den) + 1),
{
    let r = round_half_up(num, den);
    lemma_fundamental_div_mod(2 * num + den, 2 * den);
    lemma_mod_bound(2 * num + den, 2 * den);
    assert(2 * den * (r + 1) == 2 * den * r + 2 * den) by (nonlinear_arith);
}

/// The converse: an integer within those bounds is the rounded quotient.
pub proof fn lemma_round_half_up_unique(num: int, den: int, r: int)
    requires
        den > 0,
        2 * den * r <= 2 * num + den,
        2 * num + den < 2 * den * (r + 1),
    ensures
        round_half_up(num, den) == r,
{
    let rem = 2 * num + den - 2 * den * r;
    assert(2 * den * (r + 1) == 2 * den * r + 2 * den) by (nonlinear_arith);
    assert(2 * den * r == r * (2 * den)) by (nonlinear_arith);
    lemma_fundamental_div_mod_converse(2 * num + den, 2 * den, r, rem);
}

proof fn lemma_pow2_75()
    ensures
        pow2(75) == 0x8_0000_0000_0000_0000_00,
{
    lemma2_to64();
    lemma_pow2_adds(64, 11);
}

/// `2^shift` for a shift of at most 75.
fn power_of_two(shift: u32) -> (p: u128)
    requires
        shift <= 75,
    ensures
        p == pow2(shift as nat),
{
    let mut p: u128 = 1;
    let mut i: u32 = 0;
    proof {
        lemma2_to64();
    }
    while i < shift
        invariant
            i <= shift <= 75,
            p == pow2(i as nat),
        decreases shift - i,
    {
        proof {
            lemma_pow2_75();
            lemma_pow2_strictly_increases(i as nat, 75);
            lemma_pow2_unfold((i + 1) as nat);
        }
        p = p * 2;
        i = i + 1;
    }
    p
}

/// What `encode` returns for each decimal.
pub open spec fn encoding(d: Decimal) -> Result<i32, ContractError> {
    if d.is_nan() {
        Err(ContractError::MalformedInput)
    } else if d.is_infinite() || micros(d) < i32::MIN || micros(d) > i32::MAX {
        Err(ContractError::EncodingOverflow)
    } else {
        Ok(micros(d) as i32)
    }
}

/// Converts a decimal to fixed point: the integer nearest to
/// `d * 1_000_000`, a half rounded away from zero.
///
/// A NaN is rejected as `MalformedInput`; an infinity, or a product that does
/// not fit in 32 bits, as `EncodingOverflow`.
pub fn encode(d: Decimal) -> (r: Result<i32, ContractError>)
    ensures
        r == encoding(d),
{
    let (negative, significand, exponent) = match d.unpack() {
        Unpacked::Nan => {
            return Err(ContractError::MalformedInput);
        },
        Unpacked::Infinite { .. } => {
            return Err(ContractError::EncodingOverflow);
        },
        Unpacked::Finite { negative, significand, exponent } => (negative, significand, exponent),
    };
    if significand == 0 {
        proof {
            lemma_pow2_pos((-d.exponent()) as nat);
            assert(d.magnitude_num() * (SCALE as int) == 0);
            lemma_round_half_up_unique(0, d.magnitude_den(), 0);
        }
        return Ok(0);
    }
    if exponent >= 0 {
        // An integer of at least 2^52: far beyond 32 bits.
        proof {
            let p = pow2(d.exponent() as nat) as int;
            lemma_pow2_pos(d.exponent() as nat);
            assert(d.significand() * p >= HIDDEN_BIT as int) by (nonlinear_arith)
                requires
                    d.significand() >= HIDDEN_BIT as int,
                    p >= 1,
            ;
            let num = d.magnitude_num() * (SCALE as int);
            assert(num >= HIDDEN_BIT as int * (SCALE as int)) by (nonlinear_arith)
                requires
                    num == d.magnitude_num() * (SCALE as int),
                    d.magnitude_num() >= HIDDEN_BIT as int,
            ;
            lemma_round_half_up_unique(num, 1, num);
        }
        return Err(ContractError::EncodingOverflow);
    }
    let shift: u32 = (-exponent) as u32;
    let scaled: u128 = significand as u128 * SCALE as u128;
    assert(scaled == d.magnitude_num() * (SCALE as int));
    if shift > 74 {
        // Less than 2^74 over at least 2^75: below a half.
        proof {
            lemma_pow2_75();
            if shift > 75 {
                lemma_pow2_strictly_increases(75, shift as nat);
            }
            lemma_round_half_up_unique(scaled as int, d.magnitude_den(), 0);
        }
        return Ok(0);
    }
    let den: u128 = power_of_two(shift);
    proof {
        lemma_pow2_75();
        lemma_pow2_strictly_increases(shift as nat, 75);
        lemma_pow2_pos(shift as nat);
    }
    let rounded: u128 = (2 * scaled + den) / (2 * den);
    assert(rounded == micros_magnitude(d));
    if negative {
        if rounded > 0x8000_0000 {
            return Err(ContractError::EncodingOverflow);
        }
        if rounded == 0x8000_0000 {
            return Ok(i32::MIN);
        }
        let magnitude: i32 = rounded as i32;
        Ok(-magnitude)
    } else {
        if rounded > 0x7fff_ffff {
            return Err(ContractError::EncodingOverflow);
        }
        Ok(rounded as i32)
    }
}

/// The whole part of the magnitude of a finite decimal.
pub open spec fn whole_part(d: Decimal) -> int {
    d.magnitude_num() / d.magnitude_den()
}

/// Whether a decimal that is not a NaN lies below zero. Negative zero does
/// not.
pub open spec fn is_below_zero(d: Decimal) -> bool {
    d.is_negative() && (d.is_infinite() || d.significand() != 0)
}

/// What `encode_class` returns for each decimal.
pub open spec fn class_encoding(d: Decimal) -> Result<u32, ContractError> {
    if d.is_nan() {
        Err(ContractError::MalformedInput)
    } else if is_below_zero(d) {
        Err(ContractError::InvalidArgument)
    } else if d.is_infinite() || whole_part(d) > u32::MAX {
        Err(ContractError::EncodingOverflow)
    } else {
        Ok(whole_part(d) as u32)
    }
}

/// Converts a class label that arrives as a decimal: the label is the decimal
/// truncated toward zero.
///
/// A NaN is rejected as `MalformedInput`, a decimal below zero as
/// `InvalidArgument`, and one whose whole part does not fit in 32 bits
/// (positive infinity included) as `EncodingOverflow`.
pub fn encode_class(d: Decimal) -> (r: Result<u32, ContractError>)
    ensures
        r == class_encoding(d),
{
    let (negative, significand, exponent) = match d.unpack() {
        Unpacked::Nan => {
            return Err(ContractError::MalformedInput);
        },
        Unpacked::Infinite { negative } => {
            if negative {
                return Err(ContractError::InvalidArgument);
            }
            return Err(ContractError::EncodingOverflow);
        },
        Unpacked::Finite { negative, significand, exponent } => (negative, significand, exponent),
    };
    if significand == 0 {
        proof {
            lemma_pow2_pos((-d.exponent()) as nat);
            lemma_basic_div(0, d.magnitude_den());
        }
        return Ok(0);
    }
    if negative {
        return Err(ContractError::InvalidArgument);
    }
    if exponent >= 0 {
        // An integer of at least 2^52: far beyond 32 bits.
        proof {
            let p = pow2(d.exponent() as nat) as int;
            lemma_pow2_pos(d.exponent() as nat);
            assert(d.significand() * p >= HIDDEN_BIT as int) by (nonlinear_arith)
                requires
                    d.significand() >= HIDDEN_BIT as int,
                    p >= 1,
            ;
            assert(whole_part(d) == d.magnitude_num());
        }
        return Err(ContractError::EncodingOverflow);
    }
    let shift: u32 = (-exponent) as u32;
    if shift > 53 {
        // Less than 2^53 over more than 2^53: below one.
        proof {
            lemma2_to64_rest();
            lemma_pow2_strictly_increases(53, shift as nat);
            lemma_basic_div(significand as int, d.magnitude_den());
        }
        return Ok(0);
    }
    let den: u128 = power_of_two(shift);
    proof {
        lemma_pow2_pos(shift as nat);
    }
    let whole: u128 = significand as u128 / den;
    if whole > 0xffff_ffff {
        return Err(ContractError::EncodingOverflow);
    }
    Ok(whole as u32)
}

/// The integer nearest to `num / den`, a half rounded to the even neighbour;
/// meant for `num >= 0` and `den > 0`.
pub open spec fn round_half_even(num: int, den: int) -> int {
    let q = num / den;
    let r = num % den;
    if 2 * r < den || (2 * r == den && q % 2 == 0) {
        q
    } else {
        q + 1
    }
}

/// Whether `n / SCALE` lies in the binade whose unit in the last place is
/// `2^-s`: `2^52 <= (n / SCALE) * 2^s < 2^53`.
pub open spec fn in_binade(n: int, s: nat) -> bool {
    HIDDEN_BIT * SCALE <= n * pow2(s) < 2 * HIDDEN_BIT * SCALE
}

/// Whether `m * 2^-s` is the binary64 nearest to `n / SCALE`, a tie going to
/// the even significand. Either `n / SCALE` lies in the binade of `2^-s` and
/// `m` is its quotient by `2^-s`, rounded; or it lies at the top of the
/// binade below and rounds up to the power of two that opens this one.
pub open spec fn rounds_to(n: int, m: int, s: nat) -> bool {
    ||| in_binade(n, s) && m == round_half_even(n * pow2(s), SCALE as int)
    ||| m == HIDDEN_BIT && in_binade(n, s + 1) && round_half_even(n * pow2(s + 1), SCALE as int)
        == 2 * HIDDEN_BIT
}

/// Absolute value of a fixed-point number.
pub open spec fn magnitude(fixed: int) -> int {
    if fixed < 0 {
        -fixed
    } else {
        fixed
    }
}

/// Whether `d` is the decimal that `fixed` decodes to: positive zero for 0,
/// and else the normal binary64 of the sign of `fixed` that is nearest to
/// `fixed / 1_000_000`.
pub open spec fn is_decoding_of(d: Decimal, fixed: int) -> bool {
    if fixed == 0 {
        d.bits == 0
    } else {
        &&& d.is_negative() == (fixed < 0)
        &&& 0 < d.biased_exponent() < EXPONENT_SPECIAL
        &&& d.exponent() < 0
        &&& rounds_to(magnitude(fixed), d.significand(), (-d.exponent()) as nat)
    }
}

/// Converts a fixed-point number back to a decimal: the binary64 nearest to
/// `fixed / 1_000_000`, a tie going to the even significand. This is the
/// double that an IEEE-754 division of `fixed` by `1_000_000` returns, found
/// in integer arithmetic.
pub fn decode(fixed: i32) -> (d: Decimal)
    ensures
        is_decoding_of(d, fixed as int),
{
    if fixed == 0 {
        return Decimal { bits: 0 };
    }
    let negative: bool = fixed < 0;
    let n: u128 = if negative {
        (-(fixed as i64)) as u128
    } else {
        fixed as u128
    };
    let low: u128 = HIDDEN_BIT as u128 * SCALE as u128;
    proof {
        lemma2_to64_rest();
        lemma_pow2_75();
    }
    let mut s: u64 = 40;
    let mut x: u128 = n * power_of_two(40);
    while x < low
        invariant
            40 <= s <= 75,
            1 <= n <= 0x8000_0000,
            low == HIDDEN_BIT * SCALE,
            x == n * pow2(s as nat),
            pow2(s as nat) <= x < 2 * low,
            pow2(75) == 0x8_0000_0000_0000_0000_00,
        decreases 2 * low - x,
    {
        proof {
            assert(s < 75);
            lemma_pow2_unfold((s + 1) as nat);
            lemma_pow2_pos(s as nat);
            assert(n * (2 * pow2(s as nat)) == 2 * (n * pow2(s as nat))) by (nonlinear_arith);
        }
        x = x * 2;
        s = s + 1;
    }
    assert(in_binade(n as int, s as nat));
    let quotient: u128 = x / (SCALE as u128);
    let rest: u128 = x % (SCALE as u128);
    let mut m: u128 = if 2 * rest < SCALE as u128 || (2 * rest == SCALE as u128 && quotient % 2
        == 0) {
        quotient
    } else {
        quotient + 1
    };
    assert(m == round_half_even(n * pow2(s as nat), SCALE as int));
    assert(HIDDEN_BIT <= m <= 2 * HIDDEN_BIT);
    if m == 2 * HIDDEN_BIT as u128 {
        proof {
            lemma_pow2_unfold(s as nat);
            assert(pow2(((s - 1) + 1) as nat) == pow2(s as nat));
        }
        m = HIDDEN_BIT as u128;
        s = s - 1;
    }
    assert(rounds_to(n as int, m as int, s as nat));
    let field: u64 = EXPONENT_OFFSET - s;
    let sign: u64 = if negative {
        SIGN_BIT
    } else {
        0
    };
    let bits: u64 = sign + field * HIDDEN_BIT + (m as u64 - HIDDEN_BIT);
    let d = Decimal { bits };
    assert(d.fraction() == m - HIDDEN_BIT);
    assert(d.biased_exponent() == field);
    d
}

/// Round trip, encoding: the fixed-point number that `encode` returns for a
/// finite decimal `d` stands for `micros(d) / 1_000_000`, and that quotient
/// differs from `d` by at most `5e-7`. With `d` written as
/// `value_num / magnitude_den`, the bound
/// `|micros / SCALE - value_num / magnitude_den| <= 1 / (2 * SCALE)` reads,
/// cleared of fractions, as below.
pub proof fn lemma_round_trip_error(d: Decimal)
    requires
        d.is_finite(),
    ensures
        2 * magnitude(micros(d) * d.magnitude_den() - d.value_num() * SCALE) <= d.magnitude_den(),
{
    let num = d.magnitude_num() * (SCALE as int);
    let den = d.magnitude_den();
    let r = micros_magnitude(d);
    if d.exponent() < 0 {
        lemma_pow2_pos((-d.exponent()) as nat);
    }
    lemma_round_half_up_bounds(num, den);
    assert(2 * den * (r + 1) == 2 * (r * den) + 2 * den) by (nonlinear_arith);
    assert(2 * den * r == 2 * (r * den)) by (nonlinear_arith);
    assert((-r) * den == -(r * den)) by (nonlinear_arith);
    assert((-d.magnitude_num()) * SCALE == -(d.magnitude_num() * SCALE)) by (nonlinear_arith);
}

/// Round trip, decoding: a double `m * 2^-s` that is nearest to
/// `n / 1_000_000` differs from it by at most half a unit in its last place:
/// `|m * 2^-s - n / SCALE| <= 2^-s / 2`, cleared of fractions.
pub proof fn lemma_decode_error(n: int, m: int, s: nat)
    requires
        n >= 0,
        rounds_to(n, m, s),
    ensures
        2 * magnitude(m * SCALE - n * pow2(s)) <= SCALE,
{
    let scale = SCALE as int;
    if in_binade(n, s) && m == round_half_even(n * pow2(s), scale) {
        let x = n * pow2(s);
        lemma_fundamental_div_mod(x, scale);
        lemma_mod_bound(x, scale);
        assert((x / scale + 1) * scale == scale * (x / scale) + scale) by (nonlinear_arith);
        assert((x / scale) * scale == scale * (x / scale)) by (nonlinear_arith);
    } else {
        let x = n * pow2(s + 1);
        lemma_pow2_unfold(s + 1);
        assert(x == 2 * (n * pow2(s))) by (nonlinear_arith)
            requires
                x == n * pow2(s + 1),
                pow2(s + 1) == 2 * pow2(s),
        ;
        lemma_fundamental_div_mod(x, scale);
        lemma_mod_bound(x, scale);
        assert((x / scale + 1) * scale == scale * (x / scale) + scale) by (nonlinear_arith);
        assert((x / scale) * scale == scale * (x / scale)) by (nonlinear_arith);
        assert((2 * HIDDEN_BIT) * scale == 2 * (HIDDEN_BIT * scale)) by (nonlinear_arith);
    }
}

/// Round trip: decoding what a finite decimal `d` encodes to gives a
/// decimal `back` that differs from `d` by at most `5e-7` and half a unit in
/// the last place of `back`:
/// `|back - d| <= 1 / (2 * SCALE) + 1 / (2 * back.magnitude_den())`,
/// cleared of fractions.
pub proof fn lemma_round_trip(d: Decimal, back: Decimal)
    requires
        encoding(d) is Ok,
        is_decoding_of(back, encoding(d)->Ok_0 as int),
    ensures
        2 * magnitude(
            back.value_num() * SCALE * d.magnitude_den() - d.value_num() * SCALE
                * back.magnitude_den(),
        ) <= back.magnitude_den() * d.magnitude_den() + SCALE * d.magnitude_den(),
{
    let scale = SCALE as int;
    let v = micros(d);
    let x = d.value_num();
    let p = d.magnitude_den();
    let z = back.value_num();
    let q = back.magnitude_den();
    lemma_round_trip_error(d);
    if d.exponent() < 0 {
        lemma_pow2_pos((-d.exponent()) as nat);
    }
    lemma_pow2_pos((-back.exponent()) as nat);
    // |z * scale - v * q| <= scale / 2, in both signs.
    if v == 0 {
        assert(back.fraction() == 0 && back.biased_exponent() == 0);
        assert(z == 0);
    } else {
        lemma_decode_error(magnitude(v), back.significand(), (-back.exponent()) as nat);
        assert((-back.significand()) * scale == -(back.significand() * scale))
            by (nonlinear_arith);
        assert((-magnitude(v)) * q == -(magnitude(v) * q)) by (nonlinear_arith);
    }
    let near = z * scale - v * q;
    let far = v * p - x * scale;
    assert(2 * magnitude(near) <= scale);
    assert(2 * magnitude(far) <= p);
    assert(z * scale * p - x * scale * q == p * near + q * far) by (nonlinear_arith)
        requires
            near == z * scale - v * q,
            far == v * p - x * scale,
    ;
    assert(2 * magnitude(p * near + q * far) <= q * p + scale * p) by (nonlinear_arith)
        requires
            2 * magnitude(near) <= scale,
            2 * magnitude(far) <= p,
            p > 0,
            q > 0,
    ;
}

/// Nothing is lost in fixed point: the decimal that a fixed-point number
/// decodes to encodes to that number again.
pub proof fn lemma_encode_undoes_decode(fixed: i32, d: Decimal)
    requires
        is_decoding_of(d, fixed as int),
    ensures
        encoding(d) == Ok::<i32, ContractError>(fixed),
{
    let scale = SCALE as int;
    if fixed == 0 {
        assert(d.fraction() == 0 && d.biased_exponent() == 0);
        lemma_pow2_pos((-d.exponent()) as nat);
        lemma_round_half_up_unique(0, d.magnitude_den(), 0);
    } else {
        let n = magnitude(fixed as int);
        let m = d.significand();
        let s = (-d.exponent()) as nat;
        let unit = pow2(s) as int;
        lemma_decode_error(n, m, s);
        lemma_pow2_pos(s);
        // The unit in the last place is far below a millionth.
        let product = n * unit;
        lemma_pow2_unfold(s + 1);
        assert(n * pow2(s + 1) == 2 * product) by (nonlinear_arith)
            requires
                pow2(s + 1) == 2 * unit,
                product == n * unit,
        ;
        assert(product >= 0x8_0000_0000_0000 * scale);
        if unit <= scale {
            assert(product <= 0x8000_0000 * scale) by (nonlinear_arith)
                requires
                    product == n * unit,
                    0 < n <= 0x8000_0000,
                    0 < unit <= scale,
            ;
        }
        assert(scale < unit);
        assert(2 * unit * n == 2 * (n * unit) && 2 * unit * (n + 1) == 2 * (n * unit) + 2 * unit)
            by (nonlinear_arith);
        lemma_round_half_up_unique(m * scale, unit, n);
    }
}

} // verus!
