//! Runs of digit characters: what they add to a number, and how a cursor
//! without separators reads them.

use crate::binary::spec_significant_len;
use crate::buffer::spec_repeat;
use crate::decimal::{spec_chars, spec_values};
use crate::digit::{spec_char_is_digit, spec_char_to_digit, spec_digit_to_char};
use crate::iterator::{spec_peek_cursor, DigitSyntax};
use crate::lex::{spec_run, Run};
use crate::shortest::spec_all_digits;
use vstd::arithmetic::power::{lemma_pow0, lemma_pow1, lemma_pow_adds, pow};
use vstd::prelude::*;

verus! {

/// Whether each of `chars` is a digit of `radix`.
pub open spec fn spec_all_chars(chars: Seq<u8>, radix: nat) -> bool {
    forall|i: int| 0 <= i < chars.len() ==> spec_char_is_digit(#[trigger] chars[i], radix as int)
}

/// The value of a character as a digit of `radix`, 0 where it is none.
pub open spec fn spec_digit_of(c: u8, radix: nat) -> nat {
    match spec_char_to_digit(c, radix as int) {
        Some(digit) => digit as nat,
        None => 0,
    }
}

/// The number that `value` becomes when the digits `chars` are written
/// behind it.
pub open spec fn spec_accumulate(value: nat, chars: Seq<u8>, radix: nat) -> nat
    decreases chars.len(),
{
    if chars.len() == 0 {
        value
    } else {
        spec_accumulate(value, chars.drop_last(), radix) * radix + spec_digit_of(
            chars.last(),
            radix,
        )
    }
}

/// Writing two runs of digits behind a number is writing the one and then
/// the other.
pub proof fn lemma_accumulate_concat(value: nat, first: Seq<u8>, second: Seq<u8>, radix: nat)
    ensures
        spec_accumulate(value, first + second, radix) == spec_accumulate(
            spec_accumulate(value, first, radix),
            second,
            radix,
        ),
    decreases second.len(),
{
    if second.len() == 0 {
        assert(first + second == first);
    } else {
        lemma_accumulate_concat(value, first, second.drop_last(), radix);
        assert((first + second).drop_last() == first + second.drop_last());
        assert((first + second).last() == second.last());
    }
}

/// Zeros behind a number multiply it by a power of the radix.
pub proof fn lemma_accumulate_zeros(value: nat, count: int, radix: nat)
    requires
        radix >= 2,
    ensures
        spec_accumulate(value, spec_repeat(48, count), radix) == value * pow(
            radix as int,
            (if count < 0 {
                0
            } else {
                count
            }) as nat,
        ),
    decreases count,
{
    let zeros = spec_repeat(48, count);
    if count <= 0 {
        lemma_pow0(radix as int);
        assert(zeros.len() == 0);
        assert(value * 1 == value);
    } else {
        lemma_accumulate_zeros(value, count - 1, radix);
        assert(zeros.drop_last() == spec_repeat(48, count - 1));
        assert(zeros.last() == 48);
        assert(spec_digit_of(48, radix) == 0);
        lemma_pow_adds(radix as int, (count - 1) as nat, 1);
        lemma_pow1(radix as int);
        let before = pow(radix as int, (count - 1) as nat);
        assert((value * before) * radix == value * (before * radix)) by (nonlinear_arith);
    }
}

/// Digits behind a number add to the number times the power of the radix
/// that their count gives.
pub proof fn lemma_accumulate_scale(value: nat, chars: Seq<u8>, radix: nat)
    requires
        radix >= 2,
    ensures
        spec_accumulate(value, chars, radix) == value * pow(radix as int, chars.len())
            + spec_accumulate(0, chars, radix),
    decreases chars.len(),
{
    if chars.len() == 0 {
        lemma_pow0(radix as int);
        assert(value * 1 == value);
    } else {
        lemma_accumulate_scale(value, chars.drop_last(), radix);
        lemma_pow_adds(radix as int, (chars.len() - 1) as nat, 1);
        lemma_pow1(radix as int);
        let before = pow(radix as int, (chars.len() - 1) as nat);
        let low = spec_accumulate(0, chars.drop_last(), radix);
        assert((value * before + low) * radix == value * (before * radix) + low * radix)
            by (nonlinear_arith);
    }
}

/// The characters of digits denote the number that the digits do.
pub proof fn lemma_chars_value(digits: Seq<u8>, radix: nat)
    requires
        2 <= radix <= 36,
        spec_all_digits(digits, radix),
    ensures
        spec_accumulate(0, spec_chars(digits), radix) == spec_values(digits, radix),
        spec_all_chars(spec_chars(digits), radix),
        spec_chars(digits).len() == digits.len(),
    decreases digits.len(),
{
    let chars = spec_chars(digits);
    if digits.len() > 0 {
        assert forall|i: int| 0 <= i < digits.drop_last().len() implies #[trigger] digits.drop_last()[i]
            < radix by {
            assert(digits.drop_last()[i] == digits[i]);
        }
        lemma_chars_value(digits.drop_last(), radix);
        assert(chars.drop_last() == spec_chars(digits.drop_last()));
        assert(chars.last() == spec_digit_to_char(digits.last() as int));
        assert(digits.last() < radix);
    }
    assert forall|i: int| 0 <= i < chars.len() implies spec_char_is_digit(
        #[trigger] chars[i],
        radix as int,
    ) by {
        assert(digits[i] < radix);
        assert(chars[i] == spec_digit_to_char(digits[i] as int));
    }
}

/// Behind the digits that are left when the zeros at the end are taken
/// off, only zeros stand.
pub proof fn lemma_zeros_behind(digits: Seq<u8>)
    requires
        digits.len() >= 1,
    ensures
        1 <= spec_significant_len(digits) <= digits.len(),
        digits == digits.subrange(0, spec_significant_len(digits)) + spec_repeat(
            48,
            digits.len() - spec_significant_len(digits),
        ),
    decreases digits.len(),
{
    let count = spec_significant_len(digits);
    if digits.len() > 1 && digits.last() == 48 {
        let short = digits.drop_last();
        lemma_zeros_behind(short);
        assert(short.subrange(0, count) == digits.subrange(0, count));
        assert(digits == short.push(48u8));
        assert(spec_repeat(48, short.len() - count).push(48u8) == spec_repeat(
            48,
            digits.len() - count,
        ));
        assert(digits == digits.subrange(0, count) + spec_repeat(48, digits.len() - count));
    } else {
        assert(digits.subrange(0, count) == digits);
        assert(digits + spec_repeat(48, 0) == digits);
    }
}

/// A cursor without separators that stands before a run of digits reads
/// them all behind the number it holds.
pub proof fn lemma_run_over(
    buffer: Seq<u8>,
    syntax: DigitSyntax,
    from: int,
    to: int,
    value: nat,
    count: nat,
)
    requires
        syntax.separator == 0,
        0 <= from <= to <= buffer.len(),
        spec_all_chars(buffer.subrange(from, to), syntax.radix as nat),
    ensures
        spec_run(buffer, syntax, from, value, count) == spec_run(
            buffer,
            syntax,
            to,
            spec_accumulate(value, buffer.subrange(from, to), syntax.radix as nat),
            (count + to - from) as nat,
        ),
    decreases to - from,
{
    let radix = syntax.radix as nat;
    if to == from {
        assert(buffer.subrange(from, to).len() == 0);
    } else {
        let upto = buffer.subrange(from, to);
        let before = buffer.subrange(from, to - 1);
        assert(upto.drop_last() == before);
        assert(upto.last() == buffer[to - 1]);
        assert forall|i: int| 0 <= i < before.len() implies spec_char_is_digit(
            #[trigger] before[i],
            radix as int,
        ) by {
            assert(before[i] == upto[i]);
        }
        lemma_run_over(buffer, syntax, from, to - 1, value, count);
        assert(spec_char_is_digit(upto[to - 1 - from], radix as int));
        assert(spec_peek_cursor(buffer, syntax, to) == to);
    }
}

/// A cursor that stands at the end of the buffer or at a byte that is no
/// digit reads nothing.
pub proof fn lemma_run_ends(buffer: Seq<u8>, syntax: DigitSyntax, at: int, value: nat, count: nat)
    requires
        0 <= at <= buffer.len(),
        at < buffer.len() ==> !spec_char_is_digit(buffer[at], syntax.radix as int),
    ensures
        spec_run(buffer, syntax, at, value, count) == (Run { value, count, at }),
{
}

/// The digits of a number's text before its point.
pub open spec fn spec_text_whole(digits: Seq<u8>, leading: int) -> Seq<u8> {
    if leading <= digits.len() {
        digits.subrange(0, leading)
    } else {
        digits + spec_repeat(48, leading - digits.len())
    }
}

/// Whether a number's text has a point.
pub open spec fn spec_text_pointed(digits: Seq<u8>, leading: int, trim: bool) -> bool {
    leading < spec_significant_len(digits) || !trim
}

/// The digits of a number's text behind its point.
pub open spec fn spec_text_part(digits: Seq<u8>, leading: int, min: int, trim: bool) -> Seq<u8> {
    let count = spec_significant_len(digits);
    if leading < count {
        digits.subrange(leading, count) + spec_repeat(48, min - count)
    } else if trim {
        Seq::empty()
    } else {
        seq![48u8] + spec_repeat(48, min - leading - 1)
    }
}

/// The text of a number is its digits before the point and, where it has
/// a point, the point and the digits behind it.
pub proof fn lemma_number_text_parts(
    digits: Seq<u8>,
    leading: int,
    point: u8,
    min: int,
    trim: bool,
)
    requires
        digits.len() >= 1,
        leading >= 1,
    ensures
        spec_text_pointed(digits, leading, trim) ==> crate::binary::spec_number_text(
            digits,
            leading,
            point,
            min,
            trim,
        ) == spec_text_whole(digits, leading) + seq![point] + spec_text_part(
            digits,
            leading,
            min,
            trim,
        ),
        !spec_text_pointed(digits, leading, trim) ==> crate::binary::spec_number_text(
            digits,
            leading,
            point,
            min,
            trim,
        ) == spec_text_whole(digits, leading) && spec_text_part(digits, leading, min, trim).len()
            == 0,
        spec_text_whole(digits, leading).len() == leading,
{
    let whole = spec_text_whole(digits, leading);
    let part = spec_text_part(digits, leading, min, trim);
    let text = crate::binary::spec_number_text(digits, leading, point, min, trim);
    let count = spec_significant_len(digits);
    lemma_zeros_behind(digits);
    if leading < count {
        assert(text =~= whole + seq![point] + part);
    } else if !trim {
        assert(text =~= whole + seq![point] + part);
    }
}

/// The digits of a number's text are digits, and read together, without
/// regard to the point, they denote the number of the digits given, scaled
/// by the power of the radix that puts the point in its place.
pub proof fn lemma_number_text_value(digits: Seq<u8>, leading: int, min: int, trim: bool, radix: nat)
    requires
        2 <= radix <= 36,
        digits.len() >= 1,
        leading >= 1,
        spec_all_chars(digits, radix),
    ensures
        spec_all_chars(spec_text_whole(digits, leading), radix),
        spec_all_chars(spec_text_part(digits, leading, min, trim), radix),
        spec_accumulate(
            0,
            spec_text_whole(digits, leading) + spec_text_part(digits, leading, min, trim),
            radix,
        ) * pow(radix as int, digits.len()) == spec_accumulate(0, digits, radix) * pow(
            radix as int,
            (leading + spec_text_part(digits, leading, min, trim).len()) as nat,
        ),
{
    let whole = spec_text_whole(digits, leading);
    let part = spec_text_part(digits, leading, min, trim);
    let count = spec_significant_len(digits);
    let r = radix as int;
    lemma_zeros_behind(digits);
    let kept = digits.subrange(0, count);
    let tail = spec_repeat(48, digits.len() - count);
    assert(digits == kept + tail);
    let base = spec_accumulate(0, kept, radix);
    lemma_accumulate_concat(0, kept, tail, radix);
    lemma_accumulate_zeros(base, digits.len() - count, radix);
    // The digits given denote the digits kept times a power of the radix.
    assert(spec_accumulate(0, digits, radix) == base * pow(r, (digits.len() - count) as nat));
    assert(spec_digit_of(48, radix) == 0);
    assert(spec_char_is_digit(48, r));
    assert forall|i: int| 0 <= i < whole.len() implies spec_char_is_digit(#[trigger] whole[i], r) by {
        if i < digits.len() {
            assert(whole[i] == digits[i]);
        }
    }
    assert forall|i: int| 0 <= i < part.len() implies spec_char_is_digit(#[trigger] part[i], r) by {
        if leading < count && i < count - leading {
            assert(part[i] == digits[leading + i]);
        }
    }
    let all = whole + part;
    let pad: int = if leading < count {
        if min - count < 0 {
            0
        } else {
            min - count
        }
    } else if trim {
        0
    } else if min - leading - 1 < 0 {
        1
    } else {
        min - leading
    };
    // All digits of the text are the digits kept, then zeros.
    let zeros: int = if leading < count {
        pad
    } else {
        leading - count + pad
    };
    assert(all =~= kept + spec_repeat(48, zeros));
    lemma_accumulate_concat(0, kept, spec_repeat(48, zeros), radix);
    lemma_accumulate_zeros(base, zeros, radix);
    assert(spec_accumulate(0, all, radix) == base * pow(r, zeros as nat));
    lemma_pow_adds(r, zeros as nat, digits.len());
    lemma_pow_adds(r, (digits.len() - count) as nat, (leading + part.len()) as nat);
    assert(zeros + digits.len() == digits.len() - count + leading + part.len());
    let a = pow(r, zeros as nat);
    let b = pow(r, digits.len());
    let c = pow(r, (digits.len() - count) as nat);
    let d = pow(r, (leading + part.len()) as nat);
    assert((base * a) * b == (base * c) * d) by (nonlinear_arith)
        requires
            a * b == c * d,
    ;
}

/// The digits behind the point of a number below one that is written in
/// positional notation: the zeros before the first digit, the digits, and
/// the zeros that are added.
pub open spec fn spec_fraction_part(digits: Seq<u8>, zeros: int, min: int) -> Seq<u8> {
    let count = spec_significant_len(digits);
    spec_repeat(48, zeros - 1) + digits.subrange(0, count) + spec_repeat(48, min - count)
}

/// The text of a number below one is a zero, the point and the digits
/// behind it.
pub proof fn lemma_fraction_text_parts(digits: Seq<u8>, zeros: int, point: u8, min: int)
    requires
        digits.len() >= 1,
        zeros >= 1,
    ensures
        crate::binary::spec_fraction_text(digits, zeros, point, min) == seq![48u8] + seq![point]
            + spec_fraction_part(digits, zeros, min),
{
    assert(crate::binary::spec_fraction_text(digits, zeros, point, min) =~= seq![48u8]
        + seq![point] + spec_fraction_part(digits, zeros, min));
}

/// The digits of the text of a number below one are digits, and read
/// together they denote the number of the digits given, scaled by the
/// power of the radix that puts the point in its place.
pub proof fn lemma_fraction_text_value(digits: Seq<u8>, zeros: int, min: int, radix: nat)
    requires
        2 <= radix <= 36,
        digits.len() >= 1,
        zeros >= 1,
        spec_all_chars(digits, radix),
    ensures
        spec_all_chars(spec_fraction_part(digits, zeros, min), radix),
        spec_accumulate(0, seq![48u8] + spec_fraction_part(digits, zeros, min), radix) * pow(
            radix as int,
            (digits.len() + zeros - 1) as nat,
        ) == spec_accumulate(0, digits, radix) * pow(
            radix as int,
            spec_fraction_part(digits, zeros, min).len(),
        ),
{
    let part = spec_fraction_part(digits, zeros, min);
    let count = spec_significant_len(digits);
    let r = radix as int;
    lemma_zeros_behind(digits);
    let kept = digits.subrange(0, count);
    let tail = spec_repeat(48, digits.len() - count);
    assert(digits == kept + tail);
    let base = spec_accumulate(0, kept, radix);
    lemma_accumulate_concat(0, kept, tail, radix);
    lemma_accumulate_zeros(base, digits.len() - count, radix);
    assert(spec_digit_of(48, radix) == 0);
    assert(spec_char_is_digit(48, r));
    assert forall|i: int| 0 <= i < part.len() implies spec_char_is_digit(#[trigger] part[i], r) by {
        if zeros - 1 <= i < zeros - 1 + count {
            assert(part[i] == digits[i - (zeros - 1)]);
        }
    }
    let pad: int = if min - count < 0 {
        0
    } else {
        min - count
    };
    let front = seq![48u8] + spec_repeat(48, zeros - 1);
    let all = seq![48u8] + part;
    assert(front =~= spec_repeat(48, zeros));
    assert(all =~= front + kept + spec_repeat(48, pad));
    lemma_accumulate_zeros(0, zeros, radix);
    assert(0 * pow(r, zeros as nat) == 0);
    lemma_accumulate_concat(0, front, kept, radix);
    lemma_accumulate_concat(0, front + kept, spec_repeat(48, pad), radix);
    lemma_accumulate_zeros(base, pad, radix);
    assert(spec_accumulate(0, all, radix) == base * pow(r, pad as nat));
    lemma_pow_adds(r, pad as nat, (digits.len() + zeros - 1) as nat);
    lemma_pow_adds(r, (digits.len() - count) as nat, part.len());
    assert(part.len() == zeros - 1 + count + pad);
    let a = pow(r, pad as nat);
    let b = pow(r, (digits.len() + zeros - 1) as nat);
    let c = pow(r, (digits.len() - count) as nat);
    let d = pow(r, part.len());
    assert((base * a) * b == (base * c) * d) by (nonlinear_arith)
        requires
            a * b == c * d,
    ;
}

} // verus!
