//! Readings: decimal numbers held exactly, as whole numbers of millionths.
//!
//! The text of a reading is a decimal literal: an optional sign, digits with
//! an optional point among them, and an optional exponent. White space around
//! it is ignored. The literal is scaled to millionths and what is finer than
//! a millionth is cut off. A text that is no such literal, or whose value
//! does not fit 64 bits, has no reading. The words for infinity and
//! not-a-number are no literals: such texts have no reading either.

use crate::trim::{trim, trimmed};
use vstd::prelude::*;
use vstd::slice::slice_subrange;

verus! {

/// The number of decimal digits after the point that a reading keeps.
pub const FRACTION_DIGITS: usize = 6;

/// The number of units in one: ten to the power of `FRACTION_DIGITS`.
pub const UNITS_PER_ONE: i64 = 1_000_000;

/// The plus sign.
pub const PLUS: u8 = 0x2B;

/// The minus sign.
pub const MINUS: u8 = 0x2D;

/// The decimal point.
pub const POINT: u8 = 0x2E;

/// The capital letter that may begin an exponent.
pub const UPPER_E: u8 = 0x45;

/// The small letter that may begin an exponent.
pub const LOWER_E: u8 = 0x65;

/// Ten to the power of `n`.
pub open spec fn pow10(n: nat) -> nat
    decreases n,
{
    if n == 0 {
        1
    } else {
        10 * pow10((n - 1) as nat)
    }
}

/// Whether the byte is an ASCII digit.
pub open spec fn is_digit(b: u8) -> bool {
    0x30 <= b <= 0x39
}

/// The number that an ASCII digit stands for.
pub open spec fn digit_of(b: u8) -> nat {
    if is_digit(b) {
        (b - 0x30) as nat
    } else {
        0
    }
}

/// The number of digits that the text begins with.
pub open spec fn digit_run(text: Seq<u8>) -> nat
    decreases text.len(),
{
    if text.len() > 0 && is_digit(text[0]) {
        1 + digit_run(text.skip(1))
    } else {
        0
    }
}

/// The number that a sequence of digits spells in base ten.
pub open spec fn digits_value(digits: Seq<u8>) -> nat
    decreases digits.len(),
{
    if digits.len() == 0 {
        0
    } else {
        digits_value(digits.drop_last()) * 10 + digit_of(digits.last())
    }
}

/// The number that the digits spell, times ten to the power of `shift`,
/// rounded down to a whole number.
pub open spec fn scaled(digits: Seq<u8>, shift: int) -> nat {
    if shift >= 0 {
        digits_value(digits) * pow10(shift as nat)
    } else {
        digits_value(digits) / pow10((-shift) as nat)
    }
}

/// The length of the sign that the text begins with: 1 or 0.
pub open spec fn sign_width(text: Seq<u8>) -> nat {
    if text.len() > 0 && (text[0] == PLUS || text[0] == MINUS) {
        1
    } else {
        0
    }
}

/// Whether the text begins with a minus sign.
pub open spec fn is_negative(text: Seq<u8>) -> bool {
    text.len() > 0 && text[0] == MINUS
}

/// The exponent that follows a mantissa: 0 where nothing follows, the signed
/// number after an `e` or `E` otherwise. Anything else is no exponent.
pub open spec fn exponent_of(tail: Seq<u8>) -> Option<int> {
    if tail.len() == 0 {
        Some(0)
    } else if tail[0] == LOWER_E || tail[0] == UPPER_E {
        let signed = tail.skip(1);
        let digits = signed.skip(sign_width(signed) as int);
        if digits.len() > 0 && digit_run(digits) == digits.len() {
            if is_negative(signed) {
                Some(-(digits_value(digits) as int))
            } else {
                Some(digits_value(digits) as int)
            }
        } else {
            None
        }
    } else {
        None
    }
}

/// The value of a literal without sign, in units: digits, an optional point
/// followed by more digits, an optional exponent; at least one digit before
/// the exponent.
pub open spec fn magnitude_of(text: Seq<u8>) -> Option<nat> {
    let whole_len = digit_run(text);
    let whole = text.take(whole_len as int);
    let after_whole = text.skip(whole_len as int);
    let pointed = after_whole.len() > 0 && after_whole[0] == POINT;
    let after_point = if pointed {
        after_whole.skip(1)
    } else {
        after_whole
    };
    let fraction_len = if pointed {
        digit_run(after_point)
    } else {
        0
    };
    let fraction = after_point.take(fraction_len as int);
    let tail = after_point.skip(fraction_len as int);
    if whole_len + fraction_len == 0 {
        None
    } else {
        match exponent_of(tail) {
            Some(exponent) => Some(
                scaled(whole + fraction, FRACTION_DIGITS - fraction_len + exponent),
            ),
            None => None,
        }
    }
}

/// A magnitude with its sign, where it fits a reading.
pub open spec fn signed_in_range(magnitude: nat, negative: bool) -> Option<int> {
    if magnitude > i64::MAX {
        None
    } else if negative {
        Some(-(magnitude as int))
    } else {
        Some(magnitude as int)
    }
}

/// The value of a literal, in units.
pub open spec fn literal_value(text: Seq<u8>) -> Option<int> {
    match magnitude_of(text.skip(sign_width(text) as int)) {
        Some(magnitude) => signed_in_range(magnitude, is_negative(text)),
        None => None,
    }
}

/// The reading that a text spells, in units, if it spells one.
pub open spec fn reading_of(text: Seq<u8>) -> Option<int> {
    literal_value(trimmed(text))
}

/// A machine reading as a mathematical one.
pub open spec fn widened(reading: Option<i64>) -> Option<int> {
    match reading {
        Some(value) => Some(value as int),
        None => None,
    }
}

/// The lesser of a number and a cap.
spec fn capped(value: nat, cap: nat) -> nat {
    if value <= cap {
        value
    } else {
        cap
    }
}

/// Powers of ten are positive, and each is ten times the one before.
proof fn lemma_pow10_step(n: nat)
    ensures
        pow10(n) >= 1,
        pow10(n + 1) == 10 * pow10(n),
    decreases n,
{
    if n > 0 {
        lemma_pow10_step((n - 1) as nat);
    }
}

/// Powers of ten grow with the exponent.
proof fn lemma_pow10_monotone(low: nat, high: nat)
    requires
        low <= high,
    ensures
        pow10(low) <= pow10(high),
    decreases high - low,
{
    lemma_pow10_step(low);
    if low < high {
        lemma_pow10_step((high - 1) as nat);
        lemma_pow10_monotone(low, (high - 1) as nat);
    }
}

/// One is `UNITS_PER_ONE` units: ten to the power of `FRACTION_DIGITS`.
pub proof fn lemma_units_per_one()
    ensures
        UNITS_PER_ONE == pow10(FRACTION_DIGITS as nat),
{
    lemma_pow10_values();
}

/// The powers of ten that the bounds of a reading are stated with.
proof fn lemma_pow10_values()
    ensures
        pow10(0) == 1,
        pow10(6) == 1_000_000,
        pow10(19) == 10_000_000_000_000_000_000,
{
    reveal_with_fuel(pow10, 20);
}

/// The digits that the text begins with are digits, and what follows them is
/// none.
proof fn lemma_digit_run(text: Seq<u8>)
    ensures
        digit_run(text) <= text.len(),
        forall|i: int| 0 <= i < digit_run(text) ==> is_digit(#[trigger] text[i]),
        digit_run(text) < text.len() ==> !is_digit(text[digit_run(text) as int]),
    decreases text.len(),
{
    if text.len() > 0 && is_digit(text[0]) {
        let rest = text.skip(1);
        lemma_digit_run(rest);
        assert forall|i: int| 0 <= i < digit_run(text) implies is_digit(#[trigger] text[i]) by {
            if i > 0 {
                assert(text[i] == rest[i - 1]);
            }
        }
        if digit_run(text) < text.len() {
            assert(text[digit_run(text) as int] == rest[digit_run(rest) as int]);
        }
    }
}

/// The text begins with exactly `n` digits if its first `n` bytes are digits
/// and the next one, if any, is none.
proof fn lemma_digit_run_is(text: Seq<u8>, n: int)
    requires
        0 <= n <= text.len(),
        forall|i: int| 0 <= i < n ==> is_digit(#[trigger] text[i]),
        n < text.len() ==> !is_digit(text[n]),
    ensures
        digit_run(text) == n,
    decreases text.len(),
{
    if n > 0 {
        let rest = text.skip(1);
        assert forall|i: int| 0 <= i < n - 1 implies is_digit(#[trigger] rest[i]) by {
            assert(rest[i] == text[i + 1]);
        }
        if n - 1 < rest.len() {
            assert(rest[n - 1] == text[n]);
        }
        lemma_digit_run_is(rest, n - 1);
    }
}

/// One more digit at the end: ten times the number so far, plus the digit.
proof fn lemma_value_push(digits: Seq<u8>, digit: u8)
    ensures
        digits_value(digits.push(digit)) == digits_value(digits) * 10 + digit_of(digit),
{
    assert(digits.push(digit).drop_last() =~= digits);
}

/// A number of `n` digits is below ten to the power of `n`.
proof fn lemma_value_bound(digits: Seq<u8>)
    ensures
        digits_value(digits) < pow10(digits.len()),
    decreases digits.len(),
{
    if digits.len() > 0 {
        lemma_value_bound(digits.drop_last());
        lemma_pow10_step((digits.len() - 1) as nat);
    }
}

/// Dividing by ten to the power of `cut` drops the last `cut` digits.
proof fn lemma_value_truncate(digits: Seq<u8>, cut: nat)
    requires
        cut <= digits.len(),
    ensures
        digits_value(digits) / pow10(cut) == digits_value(digits.take(digits.len() - cut)),
    decreases cut,
{
    if cut == 0 {
        assert(digits.take(digits.len() as int) =~= digits);
        assert(pow10(0) == 1);
    } else {
        let front = digits.drop_last();
        let less = (cut - 1) as nat;
        lemma_value_truncate(front, less);
        assert(front.take(front.len() - less) =~= digits.take(digits.len() - cut));
        lemma_pow10_step(less);
        let value = digits_value(digits) as int;
        let tenth = digits_value(front) as int;
        assert(value / 10 == tenth) by {
            vstd::arithmetic::div_mod::lemma_fundamental_div_mod_converse(
                value,
                10,
                tenth,
                digit_of(digits.last()) as int,
            );
        }
        let power = pow10(less) as int;
        assert(value / (10 * power) == (value / 10) / power) by {
            vstd::arithmetic::div_mod::lemma_div_denominator(value, 10, power);
        }
        assert(pow10(cut) == 10 * power);
        assert(digits_value(digits) / pow10(cut) == value / (10 * power));
        assert(digits_value(front) / pow10(less) == tenth / power);
    }
}

/// Scaling down by at least as many digits as there are leaves nothing.
proof fn lemma_scaled_to_nothing(digits: Seq<u8>, shift: int)
    requires
        shift <= -digits.len(),
    ensures
        scaled(digits, shift) == 0,
{
    lemma_value_bound(digits);
    lemma_pow10_monotone(digits.len(), (-shift) as nat);
    lemma_pow10_step((-shift) as nat);
    if shift < 0 {
        vstd::arithmetic::div_mod::lemma_basic_div(
            digits_value(digits) as int,
            pow10((-shift) as nat) as int,
        );
    } else {
        assert(digits.len() == 0);
    }
}

/// Scaling up by nineteen digits or more gives nothing, or more than a
/// reading can hold.
proof fn lemma_scaled_far_up(digits: Seq<u8>, shift: int)
    requires
        shift >= 19,
    ensures
        digits_value(digits) == 0 ==> scaled(digits, shift) == 0,
        digits_value(digits) != 0 ==> scaled(digits, shift) > i64::MAX,
{
    lemma_pow10_values();
    lemma_pow10_monotone(19, shift as nat);
    let value = digits_value(digits) as int;
    let power = pow10(shift as nat) as int;
    if value == 0 {
        assert(value * power == 0) by (nonlinear_arith)
            requires
                value == 0,
        ;
    } else {
        assert(value * power >= power) by (nonlinear_arith)
            requires
                value >= 1,
                power >= 0,
        ;
    }
}

/// Tells whether a byte is an ASCII digit.
fn is_digit_byte(b: u8) -> (yes: bool)
    ensures
        yes == is_digit(b),
{
    0x30 <= b && b <= 0x39
}

/// Counts the digits that the text begins with.
fn count_digits(text: &[u8]) -> (n: usize)
    ensures
        n == digit_run(text@),
{
    let mut i: usize = 0;
    while i < text.len() && is_digit_byte(text[i])
        invariant
            i <= text.len(),
            forall|j: int| 0 <= j < i ==> is_digit(#[trigger] text@[j]),
        decreases text.len() - i,
    {
        i = i + 1;
    }
    proof {
        lemma_digit_run_is(text@, i as int);
    }
    i
}

/// Reads further digits into a number that is kept from growing beyond `cap`.
fn extend_capped(start: u128, digits: &[u8], cap: u128, Ghost(before): Ghost<Seq<u8>>) -> (value:
    u128)
    requires
        cap <= 0xffff_ffff_ffff_ffff_ffff_ffff_ffff,
        start == capped(digits_value(before), cap as nat),
    ensures
        value == capped(digits_value(before + digits@), cap as nat),
{
    let mut value: u128 = start;
    let mut i: usize = 0;
    assert(before + digits@.take(0) =~= before);
    while i < digits.len()
        invariant
            i <= digits.len(),
            cap <= 0xffff_ffff_ffff_ffff_ffff_ffff_ffff,
            value == capped(digits_value(before + digits@.take(i as int)), cap as nat),
        decreases digits.len() - i,
    {
        let byte: u8 = digits[i];
        let digit: u128 = if is_digit_byte(byte) {
            (byte - 0x30) as u128
        } else {
            0
        };
        proof {
            let seen = before + digits@.take(i as int);
            assert(before + digits@.take(i + 1) =~= seen.push(byte));
            lemma_value_push(seen, byte);
        }
        let next: u128 = value * 10 + digit;
        value = if next > cap {
            cap
        } else {
            next
        };
        i = i + 1;
    }
    assert(digits@.take(digits@.len() as int) =~= digits@);
    value
}

/// The bound beyond which an exponent is no longer told apart from a larger
/// one: far more than the longest text has digits.
const EXPONENT_CAP: i128 = 1_000_000_000_000_000_000_000_000;

/// An exponent, kept within `EXPONENT_CAP` on both sides.
spec fn clamped(exponent: int) -> int {
    if exponent > EXPONENT_CAP {
        EXPONENT_CAP as int
    } else if exponent < -EXPONENT_CAP {
        -EXPONENT_CAP
    } else {
        exponent
    }
}

/// Reads the exponent that follows a mantissa.
fn parse_exponent(tail: &[u8]) -> (exponent: Option<i128>)
    ensures
        exponent is None <==> exponent_of(tail@) is None,
        exponent matches Some(e) ==> e == clamped(exponent_of(tail@).unwrap()),
{
    if tail.len() == 0 {
        return Some(0);
    }
    if tail[0] != LOWER_E && tail[0] != UPPER_E {
        return None;
    }
    let signed: &[u8] = slice_subrange(tail, 1, tail.len());
    assert(signed@ =~= tail@.skip(1));
    let negative: bool = signed.len() > 0 && signed[0] == MINUS;
    let sign: usize = if signed.len() > 0 && (signed[0] == PLUS || signed[0] == MINUS) {
        1
    } else {
        0
    };
    let digits: &[u8] = slice_subrange(signed, sign, signed.len());
    assert(digits@ =~= signed@.skip(sign as int));
    if digits.len() == 0 || count_digits(digits) != digits.len() {
        return None;
    }
    assert(Seq::<u8>::empty() + digits@ =~= digits@);
    let size: u128 = extend_capped(0, digits, EXPONENT_CAP as u128, Ghost(Seq::empty()));
    if negative {
        Some(-(size as i128))
    } else {
        Some(size as i128)
    }
}

/// The number beyond which a magnitude is no longer told apart from a larger
/// one: more than any reading.
const MAGNITUDE_CAP: u128 = 10_000_000_000_000_000_000;

/// Scales the digits of a mantissa, given as the part before the point and
/// the part after it, by ten to the power of `shift`.
fn scale_digits(whole: &[u8], fraction: &[u8], shift: i128) -> (magnitude: Option<u64>)
    requires
        -2 * EXPONENT_CAP <= shift <= 2 * EXPONENT_CAP,
    ensures
        magnitude is None <==> scaled(whole@ + fraction@, shift as int) > i64::MAX,
        magnitude matches Some(m) ==> m == scaled(whole@ + fraction@, shift as int),
{
    let ghost digits = whole@ + fraction@;
    let length: i128 = whole.len() as i128 + fraction.len() as i128;
    let keep: i128 = if shift < 0 {
        length + shift
    } else {
        length
    };
    if keep <= 0 {
        proof {
            if shift < 0 {
                lemma_scaled_to_nothing(digits, shift as int);
            } else {
                assert(digits =~= Seq::<u8>::empty());
                assert(0 * pow10(shift as nat) == 0) by (nonlinear_arith);
            }
        }
        return Some(0);
    }
    let whole_kept: usize = if keep < whole.len() as i128 {
        keep as usize
    } else {
        whole.len()
    };
    let fraction_kept: usize = if keep < whole.len() as i128 {
        0
    } else {
        (keep - whole.len() as i128) as usize
    };
    let first: &[u8] = slice_subrange(whole, 0, whole_kept);
    let second: &[u8] = slice_subrange(fraction, 0, fraction_kept);
    proof {
        assert(Seq::<u8>::empty() + first@ =~= first@);
        assert(first@ + second@ =~= digits.take(keep as int));
        if shift < 0 {
            lemma_value_truncate(digits, (-shift) as nat);
        } else {
            assert(digits.take(keep as int) =~= digits);
        }
        lemma_pow10_values();
    }
    let value: u128 = extend_capped(0, first, MAGNITUDE_CAP, Ghost(Seq::empty()));
    let mut value: u128 = extend_capped(value, second, MAGNITUDE_CAP, Ghost(first@));
    let ghost kept = digits_value(digits.take(keep as int));
    let mut raised: i128 = 0;
    assert(kept * pow10(0) == kept) by (nonlinear_arith)
        requires
            pow10(0) == 1,
    ;
    while raised < shift && value != 0 && value < MAGNITUDE_CAP
        invariant
            0 <= raised,
            shift >= 0 ==> raised <= shift,
            shift < 0 ==> raised == 0,
            value == capped(kept * pow10(raised as nat), MAGNITUDE_CAP as nat),
        decreases shift - raised,
    {
        proof {
            lemma_pow10_step(raised as nat);
            assert(kept * pow10((raised + 1) as nat) == kept * pow10(raised as nat) * 10)
                by (nonlinear_arith)
                requires
                    pow10((raised + 1) as nat) == 10 * pow10(raised as nat),
            ;
        }
        let next: u128 = value * 10;
        value = if next > MAGNITUDE_CAP {
            MAGNITUDE_CAP
        } else {
            next
        };
        raised = raised + 1;
    }
    proof {
        if shift >= 0 {
            let done = pow10(raised as nat);
            let full = pow10(shift as nat);
            lemma_pow10_monotone(raised as nat, shift as nat);
            lemma_pow10_step(raised as nat);
            if raised < shift {
                if value == 0 {
                    assert(kept == 0) by (nonlinear_arith)
                        requires
                            kept * done == 0,
                            done >= 1,
                    ;
                    assert(kept * full == 0) by (nonlinear_arith)
                        requires
                            kept == 0,
                    ;
                } else {
                    assert(kept * full >= kept * done) by (nonlinear_arith)
                        requires
                            done <= full,
                    ;
                }
            }
        }
    }
    if value > 0x7fff_ffff_ffff_ffff {
        None
    } else {
        Some(value as u64)
    }
}

/// Reads the magnitude of a literal without sign.
fn parse_magnitude(text: &[u8]) -> (magnitude: Option<u64>)
    ensures
        magnitude is Some <==> (magnitude_of(text@) is Some && magnitude_of(text@).unwrap()
            <= i64::MAX),
        magnitude matches Some(m) ==> m == magnitude_of(text@).unwrap(),
{
    let whole_len: usize = count_digits(text);
    proof {
        lemma_digit_run(text@);
    }
    let whole: &[u8] = slice_subrange(text, 0, whole_len);
    let after_whole: &[u8] = slice_subrange(text, whole_len, text.len());
    assert(whole@ =~= text@.take(whole_len as int));
    assert(after_whole@ =~= text@.skip(whole_len as int));
    let pointed: bool = after_whole.len() > 0 && after_whole[0] == POINT;
    let after_point: &[u8] = if pointed {
        slice_subrange(after_whole, 1, after_whole.len())
    } else {
        after_whole
    };
    assert(pointed ==> after_point@ =~= after_whole@.skip(1));
    let fraction_len: usize = if pointed {
        count_digits(after_point)
    } else {
        0
    };
    proof {
        lemma_digit_run(after_point@);
    }
    let fraction: &[u8] = slice_subrange(after_point, 0, fraction_len);
    let tail: &[u8] = slice_subrange(after_point, fraction_len, after_point.len());
    assert(fraction@ =~= after_point@.take(fraction_len as int));
    assert(tail@ =~= after_point@.skip(fraction_len as int));
    if whole_len == 0 && fraction_len == 0 {
        return None;
    }
    match parse_exponent(tail) {
        None => None,
        Some(exponent) => {
            let shift: i128 = FRACTION_DIGITS as i128 - fraction_len as i128 + exponent;
            proof {
                let digits = whole@ + fraction@;
                let exact = FRACTION_DIGITS - fraction_len + exponent_of(tail@).unwrap();
                if exact > shift {
                    lemma_scaled_far_up(digits, exact);
                    lemma_scaled_far_up(digits, shift as int);
                } else if exact < shift {
                    lemma_scaled_to_nothing(digits, exact);
                    lemma_scaled_to_nothing(digits, shift as int);
                }
            }
            scale_digits(whole, fraction, shift)
        },
    }
}

/// Reads a reading from its text: a decimal literal with white space around
/// it, scaled to units and cut off below one unit.
pub fn parse_reading(text: &[u8]) -> (reading: Option<i64>)
    ensures
        widened(reading) == reading_of(text@),
{
    let bare: &[u8] = trim(text);
    let negative: bool = bare.len() > 0 && bare[0] == MINUS;
    let sign: usize = if bare.len() > 0 && (bare[0] == PLUS || bare[0] == MINUS) {
        1
    } else {
        0
    };
    let unsigned: &[u8] = slice_subrange(bare, sign, bare.len());
    assert(unsigned@ =~= bare@.skip(sign as int));
    match parse_magnitude(unsigned) {
        None => None,
        Some(magnitude) => {
            if negative {
                Some(-(magnitude as i64))
            } else {
                Some(magnitude as i64)
            }
        },
    }
}

} // verus!
