//! Decimal numerals as ASCII bytes: what they denote, how a number is written,
//! and how a run of digits is read from a byte string.

use vstd::prelude::*;

verus! {

/// The byte of the digit `0`; the ten digits follow each other from here.
pub const DIGIT_ZERO: u8 = 0x30;

/// The byte of the digit `9`.
pub const DIGIT_NINE: u8 = 0x39;

/// Whether `byte` is one of the ASCII digits `0` to `9`.
pub open spec fn is_digit(byte: u8) -> bool {
    DIGIT_ZERO <= byte <= DIGIT_NINE
}

/// Whether every byte of `text` is an ASCII digit.
pub open spec fn is_digits(text: Seq<u8>) -> bool {
    forall|i: int| 0 <= i < text.len() ==> is_digit(#[trigger] text[i])
}

/// The number that a string of digits denotes, most significant digit first.
/// The empty string denotes zero.
pub open spec fn decimal_value(digits: Seq<u8>) -> nat
    decreases digits.len(),
{
    if digits.len() == 0 {
        0
    } else {
        decimal_value(digits.drop_last()) * 10 + (digits.last() - DIGIT_ZERO) as nat
    }
}

/// The shortest numeral of `n`: its decimal digits without leading zeros,
/// and the single digit `0` for zero.
pub open spec fn decimal_text(n: nat) -> Seq<u8>
    decreases n,
{
    if n < 10 {
        seq![(DIGIT_ZERO + n) as u8]
    } else {
        decimal_text(n / 10).push((DIGIT_ZERO + n % 10) as u8)
    }
}

/// Whether `digits` is a numeral in its shortest form: at least one digit, and
/// no leading zero unless the numeral is the single digit `0`.
pub open spec fn is_canonical(digits: Seq<u8>) -> bool {
    &&& digits.len() > 0
    &&& is_digits(digits)
    &&& (digits[0] != DIGIT_ZERO || digits.len() == 1)
}

/// The index at which the longest run of digits that starts at `from` ends:
/// the first index at or after `from` that holds no digit, or the length of
/// `text` when digits go on to its end.
pub open spec fn digit_run(text: Seq<u8>, from: int) -> int
    decreases text.len() - from,
{
    if 0 <= from < text.len() && is_digit(text[from]) {
        digit_run(text, from + 1)
    } else {
        from
    }
}

/// The shortest numeral of a number is canonical and denotes that number.
pub proof fn lemma_decimal_text_denotes(n: nat)
    ensures
        is_canonical(decimal_text(n)),
        decimal_value(decimal_text(n)) == n,
        n > 0 ==> decimal_text(n)[0] != DIGIT_ZERO,
    decreases n,
{
    if n < 10 {
        let text = decimal_text(n);
        assert(text.drop_last() =~= Seq::<u8>::empty());
        assert(decimal_value(text.drop_last()) == 0);
    } else {
        lemma_decimal_text_denotes(n / 10);
        let head = decimal_text(n / 10);
        let text = decimal_text(n);
        assert(text.drop_last() =~= head);
        assert(text[0] == head[0]);
    }
}

/// A numeral whose first digit is not `0` denotes a positive number.
proof fn lemma_leading_digit_counts(digits: Seq<u8>)
    requires
        digits.len() > 0,
        is_digits(digits),
        digits[0] != DIGIT_ZERO,
    ensures
        decimal_value(digits) >= 1,
    decreases digits.len(),
{
    if digits.len() == 1 {
        assert(digits.drop_last() =~= Seq::<u8>::empty());
        assert(decimal_value(digits.drop_last()) == 0);
    } else {
        lemma_leading_digit_counts(digits.drop_last());
    }
}

/// A canonical numeral is the shortest numeral of the number it denotes, so
/// each number has exactly one canonical numeral.
pub proof fn lemma_canonical_is_decimal_text(digits: Seq<u8>)
    requires
        is_canonical(digits),
    ensures
        decimal_text(decimal_value(digits)) == digits,
    decreases digits.len(),
{
    let init = digits.drop_last();
    if digits.len() == 1 {
        assert(init =~= Seq::<u8>::empty());
        assert(decimal_value(init) == 0);
        assert(decimal_text(decimal_value(digits)) =~= digits);
    } else {
        lemma_leading_digit_counts(init);
        lemma_canonical_is_decimal_text(init);
        let n = decimal_value(digits);
        let last = (digits.last() - DIGIT_ZERO) as nat;
        assert(n == decimal_value(init) * 10 + last);
        assert(n / 10 == decimal_value(init));
        assert(n % 10 == last);
        assert(decimal_text(n) =~= digits);
    }
}

/// Where the run of digits from `from` ends, every byte before that is a digit
/// and the byte there, if any, is not.
pub proof fn lemma_digit_run_ends(text: Seq<u8>, from: int)
    requires
        0 <= from <= text.len(),
    ensures
        from <= digit_run(text, from) <= text.len(),
        is_digits(text.subrange(from, digit_run(text, from))),
        digit_run(text, from) < text.len() ==> !is_digit(text[digit_run(text, from)]),
    decreases text.len() - from,
{
    if from < text.len() && is_digit(text[from]) {
        lemma_digit_run_ends(text, from + 1);
        let end = digit_run(text, from);
        assert forall|i: int| 0 <= i < end - from implies is_digit(
            #[trigger] text.subrange(from, end)[i],
        ) by {
            if i > 0 {
                assert(text.subrange(from + 1, end)[i - 1] == text[from + i]);
            }
        }
    }
}

/// Digits from `from` up to `to`, followed by something else or by the end of
/// the text, are the run of digits that starts at `from`.
pub proof fn lemma_digit_run_is(text: Seq<u8>, from: int, to: int)
    requires
        0 <= from <= to <= text.len(),
        is_digits(text.subrange(from, to)),
        to < text.len() ==> !is_digit(text[to]),
    ensures
        digit_run(text, from) == to,
    decreases to - from,
{
    if from < to {
        assert(text.subrange(from, to)[0] == text[from]);
        assert forall|i: int| 0 <= i < to - (from + 1) implies is_digit(
            #[trigger] text.subrange(from + 1, to)[i],
        ) by {
            assert(text.subrange(from, to)[i + 1] == text[from + 1 + i]);
        }
        lemma_digit_run_is(text, from + 1, to);
    }
}

/// Reads the run of digits that starts at `start`. Returns where the run ends
/// and the number it denotes, or `None` for the number where that is above
/// `limit`.
pub(crate) fn read_number(text: &[u8], start: usize, limit: u32) -> (result: (usize, Option<u32>))
    requires
        start <= text@.len(),
        limit <= 0xffff,
    ensures
        result.0 == digit_run(text@, start as int),
        start <= result.0 <= text@.len(),
        match result.1 {
            Some(value) => value == decimal_value(text@.subrange(start as int, result.0 as int))
                && value <= limit,
            None => decimal_value(text@.subrange(start as int, result.0 as int)) > limit,
        },
{
    let mut end: usize = start;
    let mut value: u32 = 0;
    let mut within: bool = true;
    proof {
        assert(text@.subrange(start as int, start as int) =~= Seq::<u8>::empty());
    }
    while end < text.len() && DIGIT_ZERO <= text[end] && text[end] <= DIGIT_NINE
        invariant
            start <= end <= text@.len(),
            limit <= 0xffff,
            digit_run(text@, start as int) == digit_run(text@, end as int),
            is_digits(text@.subrange(start as int, end as int)),
            within ==> value == decimal_value(text@.subrange(start as int, end as int)) && value
                <= limit,
            !within ==> decimal_value(text@.subrange(start as int, end as int)) > limit,
        decreases text@.len() - end,
    {
        let digit: u32 = (text[end] - DIGIT_ZERO) as u32;
        proof {
            let before = text@.subrange(start as int, end as int);
            let after = text@.subrange(start as int, end + 1);
            assert(after.drop_last() =~= before);
            assert(after.last() == text@[end as int]);
            assert forall|i: int| 0 <= i < after.len() implies is_digit(#[trigger] after[i]) by {
                if i < before.len() {
                    assert(after[i] == before[i]);
                }
            }
        }
        if within {
            value = value * 10 + digit;
            if value > limit {
                within = false;
            }
        }
        end = end + 1;
    }
    (end, if within { Some(value) } else { None })
}

/// Appends the shortest numeral of `n` to `out`.
pub(crate) fn write_number(out: &mut Vec<u8>, n: u16)
    ensures
        final(out)@ == old(out)@ + decimal_text(n as nat),
    decreases n,
{
    if n >= 10 {
        write_number(out, n / 10);
    }
    let digit: u8 = (n % 10) as u8;
    out.push(DIGIT_ZERO + digit);
    proof {
        let text = decimal_text(n as nat);
        if n >= 10 {
            assert(final(out)@ =~= old(out)@ + decimal_text((n / 10) as nat).push(
                (DIGIT_ZERO + n % 10) as u8,
            ));
        } else {
            assert(final(out)@ =~= old(out)@ + text);
        }
    }
}

} // verus!
