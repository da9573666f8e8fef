//! Canonical text of numbers: exact decimal digits for an integer, and
//! scientific notation with a normalized exponent for a floating-point
//! number.

use crate::text::{chars_of, is_printable, printable_text, write_chars};
use vstd::prelude::*;

verus! {

/// The character that stands for the digit `d`, lowercase beyond nine.
pub open spec fn digit_char(d: int) -> char {
    if d < 10 {
        ('0' as int + d) as char
    } else {
        ('a' as int + d - 10) as char
    }
}

/// The digits of `n` in base ten, most significant first, without leading zeros.
pub open spec fn decimal_text(n: nat) -> Seq<char>
    decreases n,
{
    if n < 10 {
        seq![digit_char(n as int)]
    } else {
        decimal_text(n / 10).push(digit_char((n % 10) as int))
    }
}

/// The decimal text of an integer: a minus sign for a negative value, then
/// the digits of its magnitude.
pub open spec fn int_text(n: int) -> Seq<char> {
    if n < 0 {
        seq!['-'] + decimal_text((-n) as nat)
    } else {
        decimal_text(n as nat)
    }
}

/// Whether `c` is one of the decimal digits `0` to `9`.
pub open spec fn is_digit(c: char) -> bool {
    '0' <= c <= '9'
}

/// The number that a sequence of decimal digits denotes.
pub open spec fn decimal_value(digits: Seq<char>) -> nat
    decreases digits.len(),
{
    if digits.len() == 0 {
        0
    } else {
        (decimal_value(digits.drop_last()) * 10 + (digits.last() as int - '0' as int)) as nat
    }
}

/// The decimal text of a number holds digits only, starts with a zero only
/// when the number is zero, and denotes the number.
pub proof fn lemma_decimal_text(n: nat)
    ensures
        decimal_text(n).len() >= 1,
        forall|i: int| 0 <= i < decimal_text(n).len() ==> is_digit(#[trigger] decimal_text(n)[i]),
        n == 0 ==> decimal_text(n) == seq!['0'],
        n > 0 ==> decimal_text(n)[0] != '0',
        decimal_value(decimal_text(n)) == n,
    decreases n,
{
    if n < 10 {
        assert(decimal_text(n).drop_last() =~= Seq::<char>::empty());
        assert(decimal_value(decimal_text(n).drop_last()) == 0);
    } else {
        lemma_decimal_text(n / 10);
        assert(decimal_text(n).drop_last() =~= decimal_text(n / 10));
    }
}

/// The text of an integer is an optional minus sign and the decimal text of
/// its magnitude: no exponent, no plus sign, no padding.
pub proof fn lemma_int_text(n: int)
    ensures
        n >= 0 ==> int_text(n) == decimal_text(n as nat),
        n < 0 ==> int_text(n)[0] == '-' && int_text(n).skip(1) == decimal_text((-n) as nat),
{
    if n < 0 {
        assert(int_text(n).skip(1) =~= decimal_text((-n) as nat));
    }
}

/// The character that stands for the digit `d`.
pub(crate) fn digit(d: u8) -> (c: char)
    requires
        d < 16,
    ensures
        c == digit_char(d as int),
{
    if d < 10 {
        (48u8 + d) as char
    } else {
        (87u8 + d) as char
    }
}

/// Appends the exact decimal digits of `value` to `writer`.
pub fn write_integer(writer: &mut String, value: i128)
    ensures
        final(writer)@ == old(writer)@ + int_text(value as int),
{
    let magnitude: u128 = if value < 0 {
        ((-(value + 1)) as u128) + 1
    } else {
        value as u128
    };
    if value < 0 {
        writer.push('-');
    }
    let mut digits: Vec<char> = Vec::new();
    digits.push(digit((magnitude % 10) as u8));
    let mut rest: u128 = magnitude / 10;
    while rest > 0
        invariant
            decimal_text(magnitude as nat) == (if rest == 0 {
                Seq::<char>::empty()
            } else {
                decimal_text(rest as nat)
            }) + digits@,
        decreases rest,
    {
        digits.insert(0, digit((rest % 10) as u8));
        rest = rest / 10;
    }
    write_chars(writer, &digits);
}

/// Whether the text `s` begins with an exponent that has to be rewritten:
/// an `e`, an optional sign and a digit; or an `E`, a plus sign and a
/// digit; or an `E`, an optional minus sign and a zero that another digit
/// follows.
pub open spec fn exponent_start(s: Seq<char>) -> bool {
    &&& s.len() > 0
    &&& s[0] == 'e' || s[0] == 'E'
    &&& {
        let plus = s.len() > 1 && s[1] == '+';
        let first = exponent_digits_at(s);
        if s[0] == 'e' || plus {
            first < s.len() && is_digit(s[first])
        } else {
            first + 1 < s.len() && s[first] == '0' && is_digit(s[first + 1])
        }
    }
}

/// Where the digits of an exponent at the start of `s` begin: behind the
/// marker and its sign.
pub open spec fn exponent_digits_at(s: Seq<char>) -> int {
    if s.len() > 1 && (s[1] == '+' || s[1] == '-') {
        2
    } else {
        1
    }
}

/// The text `s` with every exponent rewritten. While `padded` holds, the
/// scan stands in the digits of an exponent and has met zeros only: a zero
/// that another digit follows is dropped.
pub open spec fn scan_number(s: Seq<char>, padded: bool) -> Seq<char>
    decreases s.len(),
{
    if s.len() == 0 {
        s
    } else if padded {
        if s[0] == '0' && s.len() > 1 && is_digit(s[1]) {
            scan_number(s.skip(1), true)
        } else {
            seq![s[0]] + scan_number(s.skip(1), false)
        }
    } else if exponent_start(s) {
        let sign = if s.len() > 1 && s[1] == '-' {
            seq!['-']
        } else {
            Seq::<char>::empty()
        };
        seq!['E'] + sign + scan_number(s.skip(exponent_digits_at(s)), true)
    } else {
        seq![s[0]] + scan_number(s.skip(1), false)
    }
}

/// The canonical form of a number in scientific notation: the exponent
/// marker is `E`, a plus sign is dropped, a minus sign is kept, and the
/// exponent's digits lose their leading zeros. Everything else stays.
pub open spec fn normalized_number(s: Seq<char>) -> Seq<char> {
    scan_number(s, false)
}

/// Whether every character of `d` is a decimal digit.
pub open spec fn all_digits(d: Seq<char>) -> bool {
    forall|i: int| 0 <= i < d.len() ==> is_digit(#[trigger] d[i])
}

/// Whether `m` is free of exponent markers.
pub open spec fn no_marker(m: Seq<char>) -> bool {
    forall|i: int| 0 <= i < m.len() ==> #[trigger] m[i] != 'e' && m[i] != 'E'
}

/// The digits `d` without their leading zeros; the last digit always stays.
pub open spec fn without_leading_zeros(d: Seq<char>) -> Seq<char>
    decreases d.len(),
{
    if d.len() > 1 && d[0] == '0' {
        without_leading_zeros(d.skip(1))
    } else {
        d
    }
}

/// Text without exponent markers stays as it is, whatever follows it.
proof fn lemma_scan_plain(m: Seq<char>, rest: Seq<char>)
    requires
        no_marker(m),
    ensures
        scan_number(m + rest, false) == m + scan_number(rest, false),
    decreases m.len(),
{
    let s = m + rest;
    if m.len() == 0 {
        assert(s =~= rest);
        assert(m + scan_number(rest, false) =~= scan_number(rest, false));
    } else {
        assert(s[0] == m[0]);
        assert(s.skip(1) =~= m.skip(1) + rest);
        lemma_scan_plain(m.skip(1), rest);
        assert(seq![m[0]] + (m.skip(1) + scan_number(rest, false)) =~= m + scan_number(
            rest,
            false,
        ));
    }
}

/// The digits of an exponent come out without their leading zeros.
proof fn lemma_scan_padded(d: Seq<char>)
    requires
        d.len() >= 1,
        all_digits(d),
    ensures
        scan_number(d, true) == without_leading_zeros(d),
    decreases d.len(),
{
    if d.len() > 1 && d[0] == '0' {
        assert(is_digit(d[1]));
        lemma_scan_padded(d.skip(1));
    } else {
        let tail = d.skip(1);
        assert forall|i: int| 0 <= i < tail.len() implies #[trigger] tail[i] != 'e' && tail[i]
            != 'E' by {
            assert(is_digit(d[i + 1]));
        }
        lemma_scan_plain(tail, Seq::<char>::empty());
        assert(tail + Seq::<char>::empty() =~= tail);
        assert(seq![d[0]] + tail =~= d);
        if d.len() > 1 {
            assert(is_digit(d[1]));
        }
    }
}

/// A zero in front of digits does not change the number they denote.
proof fn lemma_leading_zero_value(d: Seq<char>)
    ensures
        decimal_value(seq!['0'] + d) == decimal_value(d),
    decreases d.len(),
{
    let z = seq!['0'] + d;
    if d.len() == 0 {
        assert(z.drop_last() =~= d);
    } else {
        assert(z.drop_last() =~= seq!['0'] + d.drop_last());
        lemma_leading_zero_value(d.drop_last());
    }
}

/// Dropping leading zeros leaves at least one digit, leaves no leading zero
/// before another digit, and keeps the number that the digits denote.
pub proof fn lemma_without_leading_zeros(d: Seq<char>)
    requires
        d.len() >= 1,
        all_digits(d),
    ensures
        without_leading_zeros(d).len() >= 1,
        all_digits(without_leading_zeros(d)),
        without_leading_zeros(d).len() > 1 ==> without_leading_zeros(d)[0] != '0',
        decimal_value(without_leading_zeros(d)) == decimal_value(d),
    decreases d.len(),
{
    if d.len() > 1 && d[0] == '0' {
        let tail = d.skip(1);
        assert forall|i: int| 0 <= i < tail.len() implies is_digit(#[trigger] tail[i]) by {
            assert(is_digit(d[i + 1]));
        }
        lemma_without_leading_zeros(tail);
        assert(seq!['0'] + tail =~= d);
        lemma_leading_zero_value(tail);
    }
}

/// A number in scientific notation is a mantissa, an exponent marker in
/// either case, an optional sign and the exponent's digits. Its canonical
/// form keeps the mantissa as it is, writes the marker as `E`, drops a plus
/// sign, keeps a minus sign, and writes the exponent's digits without
/// leading zeros.
pub proof fn lemma_normalized_scientific(
    mantissa: Seq<char>,
    marker: char,
    sign: Seq<char>,
    digits: Seq<char>,
)
    requires
        no_marker(mantissa),
        marker == 'e' || marker == 'E',
        sign == Seq::<char>::empty() || sign == seq!['+'] || sign == seq!['-'],
        digits.len() >= 1,
        all_digits(digits),
    ensures
        normalized_number(mantissa + seq![marker] + sign + digits) == mantissa + seq!['E'] + (
        if sign == seq!['-'] {
            seq!['-']
        } else {
            Seq::<char>::empty()
        }) + without_leading_zeros(digits),
{
    let tail = seq![marker] + sign + digits;
    let kept = if sign == seq!['-'] {
        seq!['-']
    } else {
        Seq::<char>::empty()
    };
    assert(mantissa + seq![marker] + sign + digits =~= mantissa + tail);
    lemma_scan_plain(mantissa, tail);
    assert(is_digit(digits[0]));
    assert(tail[0] == marker);
    if sign.len() == 0 {
        assert(tail[1] == digits[0]);
    } else {
        assert(sign.len() == 1);
        assert(tail[1] == sign[0]);
        assert(tail[2] == digits[0]);
    }
    let first = exponent_digits_at(tail);
    assert(first == 1 + sign.len());
    assert(tail.skip(first) =~= digits);
    if digits.len() > 1 {
        assert(is_digit(digits[1]));
        assert(tail[first + 1] == digits[1]);
    }
    if exponent_start(tail) {
        lemma_scan_padded(digits);
        assert(kept == if tail.len() > 1 && tail[1] == '-' {
            seq!['-']
        } else {
            Seq::<char>::empty()
        });
    } else {
        let after = sign + digits;
        assert(tail.skip(1) =~= after);
        assert forall|i: int| 0 <= i < after.len() implies #[trigger] after[i] != 'e'
            && after[i] != 'E' by {
            if i >= sign.len() {
                assert(is_digit(digits[i - sign.len()]));
            }
        }
        lemma_scan_plain(after, Seq::<char>::empty());
        assert(after + Seq::<char>::empty() =~= after);
        assert(sign =~= kept);
        assert(seq![tail[0]] + after =~= seq!['E'] + kept + digits);
    }
    assert(mantissa + (seq!['E'] + kept + without_leading_zeros(digits)) =~= mantissa
        + seq!['E'] + kept + without_leading_zeros(digits));
}

/// Whether `c` is a decimal digit.
fn is_decimal_digit(c: char) -> (r: bool)
    ensures
        r == is_digit(c),
{
    '0' <= c && c <= '9'
}

/// Rewrites the exponent of a number in scientific notation: forces the
/// marker `E`, removes a plus sign and leading zeros.
pub fn normalize_number(input: String) -> (output: String)
    ensures
        output@ == normalized_number(input@),
{
    let text = chars_of(input.as_str());
    let mut output = String::new();
    let mut i: usize = 0;
    let mut padded = false;
    assert(text@.skip(0) =~= text@);
    while i < text.len()
        invariant
            i <= text.len(),
            text@ == input@,
            normalized_number(text@) == output@ + scan_number(text@.skip(i as int), padded),
        decreases text.len() - i,
    {
        let c = text[i];
        let ghost rest = text@.skip(i as int);
        let ghost written = output@;
        if padded {
            if c == '0' && text.len() - i > 1 && is_decimal_digit(text[i + 1]) {
                i += 1;
            } else {
                output.push(c);
                padded = false;
                i += 1;
            }
            assert(rest.skip(1) =~= text@.skip(i as int));
        } else if c == 'e' || c == 'E' {
            let signed = text.len() - i > 1 && (text[i + 1] == '+' || text[i + 1] == '-');
            let plus = signed && text[i + 1] == '+';
            let minus = signed && text[i + 1] == '-';
            let first = if signed {
                i + 2
            } else {
                i + 1
            };
            let rewrite = if c == 'e' || plus {
                first < text.len() && is_decimal_digit(text[first])
            } else {
                text.len() - first > 1 && text[first] == '0' && is_decimal_digit(text[first + 1])
            };
            assert(rewrite == exponent_start(rest));
            if rewrite {
                output.push('E');
                if minus {
                    output.push('-');
                }
                i = first;
                padded = true;
                assert(rest.skip(exponent_digits_at(rest)) =~= text@.skip(i as int));
            } else {
                output.push(c);
                i += 1;
                assert(rest.skip(1) =~= text@.skip(i as int));
            }
        } else {
            output.push(c);
            i += 1;
            assert(rest.skip(1) =~= text@.skip(i as int));
        }
    }
    output
}

/// Whether `c` may stand in a mantissa: a digit, the point or the minus
/// sign.
pub open spec fn is_mantissa_char(c: char) -> bool {
    is_digit(c) || c == '.' || c == '-'
}

/// Whether every character of `m` may stand in a mantissa.
pub open spec fn mantissa_chars(m: Seq<char>) -> bool {
    forall|i: int| 0 <= i < m.len() ==> is_mantissa_char(#[trigger] m[i])
}

/// Whether `m` is a mantissa: an optional minus sign and one digit, alone
/// or with a point and at least one more digit behind it.
pub open spec fn is_mantissa(m: Seq<char>) -> bool {
    let body = if m.len() > 0 && m[0] == '-' {
        m.skip(1)
    } else {
        m
    };
    &&& body.len() >= 1
    &&& is_digit(body[0])
    &&& body.len() > 1 ==> body[1] == '.' && body.len() >= 3 && all_digits(body.skip(2))
}

/// A mantissa is not empty and holds digits, the point and the minus sign
/// only.
pub proof fn lemma_mantissa_chars(m: Seq<char>)
    requires
        is_mantissa(m),
    ensures
        m.len() >= 1,
        mantissa_chars(m),
{
    let start: int = if m.len() > 0 && m[0] == '-' {
        1
    } else {
        0
    };
    let body = if m.len() > 0 && m[0] == '-' {
        m.skip(1)
    } else {
        m
    };
    assert forall|i: int| 0 <= i < m.len() implies is_mantissa_char(#[trigger] m[i]) by {
        if i >= start {
            assert(m[i] == body[i - start]);
            if i >= start + 2 {
                assert(body[i - start] == body.skip(2)[i - start - 2]);
                assert(is_digit(body.skip(2)[i - start - 2]));
            }
        }
    }
}

/// Whether every character of `d` is a zero.
pub open spec fn all_zeros(d: Seq<char>) -> bool {
    forall|i: int| 0 <= i < d.len() ==> #[trigger] d[i] == '0'
}

/// Where the digits of the exponent begin when the marker stands at `k`:
/// behind the marker and its sign.
pub open spec fn exponent_digits_from(text: Seq<char>, k: int) -> int {
    if k + 1 < text.len() && (text[k + 1] == '+' || text[k + 1] == '-') {
        k + 2
    } else {
        k + 1
    }
}

/// Whether `text` is a number in scientific notation with its marker at
/// `k`: a mantissa before it; behind it an optional sign and at least one
/// digit, nothing else; and a minus sign only before an exponent that is
/// not zero.
pub open spec fn scientific_at(text: Seq<char>, k: int) -> bool {
    let digits = text.skip(exponent_digits_from(text, k));
    &&& 0 <= k < text.len()
    &&& is_mantissa(text.take(k))
    &&& text[k] == 'e' || text[k] == 'E'
    &&& digits.len() >= 1
    &&& all_digits(digits)
    &&& text[k + 1] == '-' ==> !all_zeros(digits)
}

/// Whether `text` is a number in scientific notation.
pub open spec fn is_scientific(text: Seq<char>) -> bool {
    exists|k: int| scientific_at(text, k)
}

/// Whether `text` is a number in canonical scientific notation with its
/// marker at `k`: the marker is `E`, no plus sign follows it, and the
/// exponent is `0` or digits without a leading zero behind an optional
/// minus sign.
pub open spec fn canonical_at(text: Seq<char>, k: int) -> bool {
    let digits = text.skip(exponent_digits_from(text, k));
    &&& scientific_at(text, k)
    &&& text[k] == 'E'
    &&& text[k + 1] != '+'
    &&& digits.len() > 1 ==> digits[0] != '0'
    &&& text[k + 1] == '-' ==> digits[0] != '0'
}

/// Whether `text` is a number in canonical scientific notation.
pub open spec fn is_canonical_number(text: Seq<char>) -> bool {
    exists|k: int| canonical_at(text, k)
}

/// Digits that are not all zeros do not begin with a zero once their
/// leading zeros are dropped.
proof fn lemma_without_leading_zeros_first(d: Seq<char>)
    requires
        d.len() >= 1,
        !all_zeros(d),
    ensures
        without_leading_zeros(d)[0] != '0',
    decreases d.len(),
{
    if d.len() > 1 && d[0] == '0' {
        let tail = d.skip(1);
        let i = choose|i: int| 0 <= i < d.len() && d[i] != '0';
        assert(tail[i - 1] == d[i]);
        lemma_without_leading_zeros_first(tail);
    } else {
        let i = choose|i: int| 0 <= i < d.len() && d[i] != '0';
        assert(d[i] != '0');
    }
}

/// The parts of a number in scientific notation with its marker at `k`,
/// and the number as these parts in a row.
proof fn lemma_scientific_parts(text: Seq<char>, k: int)
    requires
        scientific_at(text, k),
    ensures
        ({
            let from = exponent_digits_from(text, k);
            let sign = text.subrange(k + 1, from);
            &&& text == text.take(k) + seq![text[k]] + sign + text.skip(from)
            &&& no_marker(text.take(k))
            &&& sign == Seq::<char>::empty() || sign == seq!['+'] || sign == seq!['-']
            &&& sign == seq!['-'] <==> text[k + 1] == '-'
        }),
{
    let from = exponent_digits_from(text, k);
    let sign = text.subrange(k + 1, from);
    let digits = text.skip(from);
    assert(is_digit(digits[0]));
    assert(digits[0] == text[from]);
    assert(text =~= text.take(k) + seq![text[k]] + sign + digits);
    lemma_mantissa_chars(text.take(k));
    assert(no_marker(text.take(k))) by {
        assert forall|i: int| 0 <= i < k implies #[trigger] text.take(k)[i] != 'e' && text.take(
            k,
        )[i] != 'E' by {
            assert(is_mantissa_char(text.take(k)[i]));
        }
    }
    if from == k + 1 {
        assert(sign =~= Seq::<char>::empty());
    } else if text[k + 1] == '+' {
        assert(sign =~= seq!['+']);
    } else {
        assert(sign =~= seq!['-']);
        assert(sign[0] == '-');
    }
    if sign == seq!['-'] {
        assert(sign.len() == 1);
        assert(sign[0] == text[k + 1]);
    }
}

/// The canonical form of a number in scientific notation is a number in
/// canonical scientific notation: its marker is `E`, it has no plus sign,
/// and its exponent is `0` or digits without a leading zero behind an
/// optional minus sign.
pub proof fn lemma_normalized_is_canonical(text: Seq<char>)
    requires
        is_scientific(text),
    ensures
        is_canonical_number(normalized_number(text)),
{
    let k = choose|k: int| scientific_at(text, k);
    let from = exponent_digits_from(text, k);
    let mantissa = text.take(k);
    let sign = text.subrange(k + 1, from);
    let digits = text.skip(from);
    let kept = if sign == seq!['-'] {
        seq!['-']
    } else {
        Seq::<char>::empty()
    };
    let stripped = without_leading_zeros(digits);
    let result = normalized_number(text);
    lemma_scientific_parts(text, k);
    lemma_mantissa_chars(mantissa);
    lemma_normalized_scientific(mantissa, text[k], sign, digits);
    lemma_without_leading_zeros(digits);
    assert(result == mantissa + seq!['E'] + kept + stripped);
    assert(is_digit(stripped[0]));
    assert(result.take(k) =~= mantissa);
    assert(result[k] == 'E');
    if sign == seq!['-'] {
        lemma_without_leading_zeros_first(digits);
        assert(result[k + 1] == '-');
        assert(result.skip(k + 2) =~= stripped);
    } else {
        assert(result[k + 1] == stripped[0]);
        assert(result.skip(k + 1) =~= stripped);
    }
    assert(canonical_at(result, k));
}

/// A number in canonical scientific notation is its own canonical form.
pub proof fn lemma_canonical_number_stays(text: Seq<char>)
    requires
        is_canonical_number(text),
    ensures
        normalized_number(text) == text,
{
    let k = choose|k: int| canonical_at(text, k);
    let from = exponent_digits_from(text, k);
    let sign = text.subrange(k + 1, from);
    let digits = text.skip(from);
    lemma_scientific_parts(text, k);
    lemma_normalized_scientific(text.take(k), text[k], sign, digits);
    assert(sign =~= if sign == seq!['-'] {
        seq!['-']
    } else {
        Seq::<char>::empty()
    });
}

/// A number in scientific notation holds printable ASCII only.
pub proof fn lemma_scientific_printable(text: Seq<char>)
    requires
        is_scientific(text),
    ensures
        printable_text(text),
{
    let k = choose|k: int| scientific_at(text, k);
    let from = exponent_digits_from(text, k);
    let digits = text.skip(from);
    lemma_mantissa_chars(text.take(k));
    assert forall|i: int| 0 <= i < text.len() implies is_printable(#[trigger] text[i]) by {
        if i < k {
            assert(is_mantissa_char(text.take(k)[i]));
        } else if i >= from {
            assert(is_digit(digits[i - from]));
        }
    }
}

/// The marker of a number in scientific notation stands at the first
/// character that may not stand in a mantissa.
proof fn lemma_marker_place(text: Seq<char>, first: int, k: int)
    requires
        0 <= first <= text.len(),
        forall|i: int| 0 <= i < first ==> is_mantissa_char(#[trigger] text[i]),
        first < text.len() ==> !is_mantissa_char(text[first]),
        scientific_at(text, k),
    ensures
        k == first,
{
    lemma_mantissa_chars(text.take(k));
    if k < first {
        assert(is_mantissa_char(text[k]));
    } else if k > first {
        assert(text.take(k)[first] == text[first]);
        assert(is_mantissa_char(text.take(k)[first]));
    }
}

/// Whether the first `k` characters of `text` are a mantissa.
fn is_mantissa_text(text: &Vec<char>, k: usize) -> (r: bool)
    requires
        k <= text.len(),
    ensures
        r == is_mantissa(text@.take(k as int)),
{
    let ghost m = text@.take(k as int);
    if k == 0 {
        return false;
    }
    let start: usize = if text[0] == '-' {
        1
    } else {
        0
    };
    let ghost body = if m.len() > 0 && m[0] == '-' {
        m.skip(1)
    } else {
        m
    };
    proof {
        assert(m[0] == text@[0]);
        assert(body.len() == k - start);
        assert forall|i: int| 0 <= i < body.len() implies #[trigger] body[i] == text@[start + i] by {
            assert(body[i] == m[start + i]);
        }
    }
    if k <= start {
        return false;
    }
    assert(body[0] == text@[start as int]);
    if !is_decimal_digit(text[start]) {
        return false;
    }
    if k == start + 1 {
        return true;
    }
    assert(body[1] == text@[start + 1]);
    if text[start + 1] != '.' || k - start < 3 {
        return false;
    }
    assert(is_mantissa(m) == all_digits(body.skip(2)));
    let mut i: usize = start + 2;
    while i < k
        invariant
            start + 2 <= i <= k <= text.len(),
            body.len() == k - start,
            is_mantissa(text@.take(k as int)) == all_digits(body.skip(2)),
            forall|j: int| 0 <= j < body.len() ==> #[trigger] body[j] == text@[start + j],
            forall|j: int| 0 <= j < i - start - 2 ==> is_digit(#[trigger] body.skip(2)[j]),
        decreases k - i,
    {
        assert(body.skip(2)[i - start - 2] == body[i - start]);
        if !is_decimal_digit(text[i]) {
            assert(!all_digits(body.skip(2)));
            return false;
        }
        i += 1;
    }
    true
}

/// Whether `text` is a number in scientific notation.
fn is_scientific_text(text: &Vec<char>) -> (r: bool)
    ensures
        r == is_scientific(text@),
{
    let len = text.len();
    let mut k: usize = 0;
    while k < len && (is_decimal_digit(text[k]) || text[k] == '.' || text[k] == '-')
        invariant
            len == text.len(),
            k <= len,
            forall|i: int| 0 <= i < k ==> is_mantissa_char(#[trigger] text@[i]),
        decreases len - k,
    {
        k += 1;
    }
    proof {
        assert forall|other: int| scientific_at(text@, other) implies other == k by {
            lemma_marker_place(text@, k as int, other);
        }
    }
    if k >= len {
        return false;
    }
    if !is_mantissa_text(text, k) {
        return false;
    }
    if text[k] != 'e' && text[k] != 'E' {
        return false;
    }
    let signed = len - k > 1 && (text[k + 1] == '+' || text[k + 1] == '-');
    let first = if signed {
        k + 2
    } else {
        k + 1
    };
    if first >= len {
        return false;
    }
    let ghost digits = text@.skip(first as int);
    let mut j: usize = first;
    let mut nonzero = false;
    let ghost mut witness: int = 0;
    while j < len
        invariant
            len == text.len(),
            first <= j <= len,
            digits == text@.skip(first as int),
            forall|i: int| 0 <= i < j - first ==> is_digit(#[trigger] digits[i]),
            !nonzero ==> forall|i: int| 0 <= i < j - first ==> #[trigger] digits[i] == '0',
            nonzero ==> 0 <= witness < digits.len() && digits[witness] != '0',
            forall|other: int| scientific_at(text@, other) ==> other == k,
            first == exponent_digits_from(text@, k as int),
        decreases len - j,
    {
        assert(digits[j - first] == text@[j as int]);
        if !is_decimal_digit(text[j]) {
            assert(!all_digits(digits));
            return false;
        }
        if text[j] != '0' {
            nonzero = true;
            proof {
                witness = j - first;
            }
        }
        j += 1;
    }
    if text[k + 1] == '-' && !nonzero {
        assert(all_zeros(digits));
        return false;
    }
    assert(scientific_at(text@, k as int));
    true
}

/// A finite floating-point number in scientific notation: a mantissa of
/// one digit before the point, the marker `e` or `E`, an optional sign and
/// the digits of the exponent. No other text can be held.
#[derive(Debug, PartialEq)]
pub struct Scientific {
    text: String,
}

impl View for Scientific {
    type V = Seq<char>;

    closed spec fn view(&self) -> Seq<char> {
        self.text@
    }
}

impl Scientific {
    /// What holds of every value of the type: its text is a number in
    /// scientific notation.
    #[verifier::type_invariant]
    spec fn well_formed(&self) -> bool {
        is_scientific(self.text@)
    }

    /// The number that `text` writes, if `text` is a number in scientific
    /// notation.
    pub fn new(text: String) -> (number: Option<Scientific>)
        ensures
            number is Some <==> is_scientific(text@),
            number is Some ==> number->Some_0@ == text@,
    {
        let chars = chars_of(text.as_str());
        if is_scientific_text(&chars) {
            Some(Scientific { text })
        } else {
            None
        }
    }

    /// The text of the number, which is a number in scientific notation.
    pub fn as_str(&self) -> (text: &str)
        ensures
            text@ == self@,
            is_scientific(text@),
    {
        proof {
            use_type_invariant(self);
        }
        self.text.as_str()
    }
}

/// The canonical form of a number holds printable ASCII only if the number
/// as it came does.
pub proof fn lemma_scan_number_printable(s: Seq<char>, padded: bool)
    requires
        printable_text(s),
    ensures
        printable_text(scan_number(s, padded)),
    decreases s.len(),
{
    if s.len() > 0 {
        let first = exponent_digits_at(s);
        let rest = if !padded && exponent_start(s) {
            s.skip(first)
        } else {
            s.skip(1)
        };
        assert forall|i: int| 0 <= i < rest.len() implies is_printable(#[trigger] rest[i]) by {
            assert(rest[i] == s[i + (s.len() - rest.len())]);
        }
        let still = if padded {
            s[0] == '0' && s.len() > 1 && is_digit(s[1])
        } else {
            exponent_start(s)
        };
        lemma_scan_number_printable(rest, still);
        assert(is_printable(s[0]));
    }
}

/// The text of an integer holds printable ASCII only.
pub proof fn lemma_int_text_printable(n: int)
    ensures
        printable_text(int_text(n)),
{
    let magnitude = if n < 0 {
        (-n) as nat
    } else {
        n as nat
    };
    lemma_decimal_text(magnitude);
    assert forall|i: int| 0 <= i < int_text(n).len() implies is_printable(
        #[trigger] int_text(n)[i],
    ) by {
        if n < 0 && i > 0 {
            assert(int_text(n)[i] == decimal_text(magnitude)[i - 1]);
            assert(is_digit(decimal_text(magnitude)[i - 1]));
        } else if n >= 0 {
            assert(is_digit(decimal_text(magnitude)[i]));
        }
    }
}

/// A floating-point number as a mathematical value: a finite one by the
/// text of its scientific notation, or one of the three that have none.
pub enum FloatText {
    Finite(Seq<char>),
    NotANumber,
    PositiveInfinity,
    NegativeInfinity,
}

/// A floating-point number.
#[derive(Debug, PartialEq)]
pub enum Float {
    /// A finite number, by its shortest digits that read back as the same
    /// number, in scientific notation: `2.3e1`.
    Finite(Scientific),
    NotANumber,
    PositiveInfinity,
    NegativeInfinity,
}

impl View for Float {
    type V = FloatText;

    open spec fn view(&self) -> FloatText {
        match self {
            Float::Finite(number) => FloatText::Finite(number@),
            Float::NotANumber => FloatText::NotANumber,
            Float::PositiveInfinity => FloatText::PositiveInfinity,
            Float::NegativeInfinity => FloatText::NegativeInfinity,
        }
    }
}

/// The text `null`.
pub open spec fn null_text() -> Seq<char> {
    seq!['n', 'u', 'l', 'l']
}

/// The canonical text of a floating-point number: its scientific notation
/// with a normalized exponent if it is finite, else `null`.
pub open spec fn float_text(f: FloatText) -> Seq<char> {
    match f {
        FloatText::Finite(text) => normalized_number(text),
        _ => null_text(),
    }
}

/// Appends `null` to `writer`.
pub fn write_null(writer: &mut String)
    ensures
        final(writer)@ == old(writer)@ + null_text(),
{
    writer.push('n');
    writer.push('u');
    writer.push('l');
    writer.push('l');
    assert(writer@ =~= old(writer)@ + null_text());
}

/// Appends the canonical form of `number` to `writer`: a number in
/// canonical scientific notation.
pub fn format_number(writer: &mut String, number: &Scientific)
    ensures
        final(writer)@ == old(writer)@ + normalized_number(number@),
        is_scientific(number@),
        is_canonical_number(normalized_number(number@)),
{
    let formatted = number.as_str().to_owned();
    proof {
        lemma_normalized_is_canonical(formatted@);
    }
    let normalized = normalize_number(formatted);
    writer.append(normalized.as_str());
}

/// Appends the canonical text of the floating-point number `value` to
/// `writer`: a number in canonical scientific notation if `value` is
/// finite, else `null`.
pub fn write_float(writer: &mut String, value: &Float)
    ensures
        final(writer)@ == old(writer)@ + float_text(value@),
        value@ is Finite ==> is_scientific(value@->Finite_0) && is_canonical_number(
            float_text(value@),
        ),
        !(value@ is Finite) ==> float_text(value@) == null_text(),
{
    match value {
        Float::Finite(number) => format_number(writer, number),
        _ => write_null(writer),
    }
}

} // verus!
