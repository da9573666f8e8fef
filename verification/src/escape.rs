//! Canonical text of strings.
//!
//! The quotation mark, the backslash, the solidus and the control
//! characters have escapes of their own. The runs of characters between
//! them are written in two passes. The first replaces every character
//! outside printable ASCII by an escape token in braces, `\u{e9}`. The
//! second rewrites each token to the fixed width that JSON asks for,
//! `\u00e9`.

use crate::number::{digit, digit_char};
use crate::text::{chars_of, code_point, is_printable, printable_text, write_chars, write_range};
use vstd::prelude::*;

verus! {

/// The characters that JSON escapes with a backslash and one letter, and
/// the remaining control characters.
#[derive(Clone, Copy, Debug, PartialEq, Eq)]
pub enum CharEscape {
    /// `"`
    Quote,
    /// `\`
    ReverseSolidus,
    /// `/`
    Solidus,
    /// U+0008
    Backspace,
    /// U+000C
    FormFeed,
    /// U+000A
    LineFeed,
    /// U+000D
    CarriageReturn,
    /// U+0009
    Tab,
    /// Any other character below U+0020, by its code.
    AsciiControl(u8),
}

/// The escape that a character needs, if it needs one.
pub open spec fn char_escape_of(c: char) -> Option<CharEscape> {
    if c == '"' {
        Some(CharEscape::Quote)
    } else if c == '\\' {
        Some(CharEscape::ReverseSolidus)
    } else if c == '/' {
        Some(CharEscape::Solidus)
    } else if code_point(c) == 0x08 {
        Some(CharEscape::Backspace)
    } else if code_point(c) == 0x0c {
        Some(CharEscape::FormFeed)
    } else if c == '\n' {
        Some(CharEscape::LineFeed)
    } else if c == '\r' {
        Some(CharEscape::CarriageReturn)
    } else if c == '\t' {
        Some(CharEscape::Tab)
    } else if code_point(c) < 0x20 {
        Some(CharEscape::AsciiControl(code_point(c) as u8))
    } else {
        None
    }
}

/// The text of an escape: a backslash and a letter, or `\u00` and two
/// lowercase hexadecimal digits for a control character.
pub open spec fn char_escape_text(e: CharEscape) -> Seq<char> {
    match e {
        CharEscape::Quote => seq!['\\', '"'],
        CharEscape::ReverseSolidus => seq!['\\', '\\'],
        CharEscape::Solidus => seq!['\\', '/'],
        CharEscape::Backspace => seq!['\\', 'b'],
        CharEscape::FormFeed => seq!['\\', 'f'],
        CharEscape::LineFeed => seq!['\\', 'n'],
        CharEscape::CarriageReturn => seq!['\\', 'r'],
        CharEscape::Tab => seq!['\\', 't'],
        CharEscape::AsciiControl(n) => seq![
            '\\',
            'u',
            '0',
            '0',
            digit_char(n as int / 16),
            digit_char(n as int % 16),
        ],
    }
}

/// The digits of `n` in base sixteen, lowercase, without leading zeros.
pub open spec fn hex_text(n: nat) -> Seq<char>
    decreases n,
{
    if n < 16 {
        seq![digit_char(n as int)]
    } else {
        hex_text(n / 16).push(digit_char((n % 16) as int))
    }
}

/// The escape token of the first pass for the code `n`: `\u{`, the
/// hexadecimal digits of `n`, `}`.
pub open spec fn bracket_token(n: nat) -> Seq<char> {
    seq!['\\', 'u', '{'] + hex_text(n) + seq!['}']
}

/// The first of the two UTF-16 code units of a code point above U+FFFF.
pub open spec fn high_surrogate(n: nat) -> nat {
    (0xd800 + (n - 0x10000) / 0x400) as nat
}

/// The second of the two UTF-16 code units of a code point above U+FFFF.
pub open spec fn low_surrogate(n: nat) -> nat {
    (0xdc00 + (n - 0x10000) % 0x400) as nat
}

/// What the first pass writes for one character: the character itself if
/// it is printable ASCII, else an escape token with its code; a code point
/// above U+FFFF gets one token for each of its two UTF-16 code units.
pub open spec fn bracketed_char(c: char) -> Seq<char> {
    if is_printable(c) {
        seq![c]
    } else if code_point(c) <= 0xffff {
        bracket_token(code_point(c))
    } else {
        bracket_token(high_surrogate(code_point(c))) + bracket_token(
            low_surrogate(code_point(c)),
        )
    }
}

/// What the first pass writes for a text.
pub open spec fn bracketed(s: Seq<char>) -> Seq<char>
    decreases s.len(),
{
    if s.len() == 0 {
        s
    } else {
        bracketed_char(s[0]) + bracketed(s.skip(1))
    }
}

/// How many characters stand at the start of `t` before a closing brace or
/// the end of the text, counting no more than four.
pub open spec fn brace_run(t: Seq<char>) -> int {
    if t.len() == 0 || t[0] == '}' {
        0
    } else if t.len() == 1 || t[1] == '}' {
        1
    } else if t.len() == 2 || t[2] == '}' {
        2
    } else if t.len() == 3 || t[3] == '}' {
        3
    } else {
        4
    }
}

/// `n` zeros.
pub open spec fn zeros(n: int) -> Seq<char> {
    Seq::new(n as nat, |i: int| '0')
}

/// What the second pass makes of a text. A backslash, `u` and an opening
/// brace start a token. If the closing brace follows after one to four
/// characters, the token becomes `\u` and those characters, padded with
/// zeros to four; an empty token `\u{}` stays as it is. If no closing brace
/// follows within four characters, the opening brace and the characters
/// read so far stay as they are. Everything else stays as it is.
pub open spec fn normalized_unicode(t: Seq<char>) -> Seq<char>
    decreases t.len(),
{
    if t.len() == 0 {
        t
    } else if t.len() >= 2 && t[0] == '\\' && t[1] == 'u' {
        if t.len() >= 3 && t[2] == '{' {
            let n = brace_run(t.skip(3));
            let body = t.subrange(3, 3 + n);
            if 3 + n < t.len() && t[3 + n] == '}' {
                if n == 0 {
                    seq!['\\', 'u', '{', '}'] + normalized_unicode(t.skip(4))
                } else {
                    seq!['\\', 'u'] + zeros(4 - n) + body + normalized_unicode(t.skip(4 + n))
                }
            } else {
                seq!['\\', 'u', '{'] + body + normalized_unicode(t.skip(3 + n))
            }
        } else {
            seq!['\\', 'u'] + normalized_unicode(t.skip(2))
        }
    } else {
        seq![t[0]] + normalized_unicode(t.skip(1))
    }
}

/// The JSON escape of a UTF-16 code unit: `\u` and four lowercase
/// hexadecimal digits.
pub open spec fn unicode_escape(n: nat) -> Seq<char> {
    seq![
        '\\',
        'u',
        digit_char(n as int / 4096),
        digit_char(n as int / 256 % 16),
        digit_char(n as int / 16 % 16),
        digit_char(n as int % 16),
    ]
}

/// The canonical text of one character of a string: the escape of its own
/// where it has one; the character itself where it is printable ASCII;
/// else `\u` and the four hexadecimal digits of its code, once for each of
/// its two UTF-16 code units where the code lies above U+FFFF.
pub open spec fn canonical_char(c: char) -> Seq<char> {
    match char_escape_of(c) {
        Some(e) => char_escape_text(e),
        None => if is_printable(c) {
            seq![c]
        } else if code_point(c) <= 0xffff {
            unicode_escape(code_point(c))
        } else {
            unicode_escape(high_surrogate(code_point(c))) + unicode_escape(
                low_surrogate(code_point(c)),
            )
        },
    }
}

/// The canonical text of a string's content, without the quotation marks
/// around it: the canonical text of each character, in order.
pub open spec fn canonical_string(s: Seq<char>) -> Seq<char>
    decreases s.len(),
{
    if s.len() == 0 {
        s
    } else {
        canonical_char(s[0]) + canonical_string(s.skip(1))
    }
}

/// The escape that `c` needs, if it needs one.
pub fn char_escape(c: char) -> (e: Option<CharEscape>)
    ensures
        e == char_escape_of(c),
{
    let code = c as u32;
    if c == '"' {
        Some(CharEscape::Quote)
    } else if c == '\\' {
        Some(CharEscape::ReverseSolidus)
    } else if c == '/' {
        Some(CharEscape::Solidus)
    } else if code == 0x08 {
        Some(CharEscape::Backspace)
    } else if code == 0x0c {
        Some(CharEscape::FormFeed)
    } else if c == '\n' {
        Some(CharEscape::LineFeed)
    } else if c == '\r' {
        Some(CharEscape::CarriageReturn)
    } else if c == '\t' {
        Some(CharEscape::Tab)
    } else if code < 0x20 {
        Some(CharEscape::AsciiControl(code as u8))
    } else {
        None
    }
}

/// Appends the text of an escape to `writer`.
pub fn write_char_escape(writer: &mut String, char_escape: CharEscape)
    ensures
        final(writer)@ == old(writer)@ + char_escape_text(char_escape),
{
    writer.push('\\');
    match char_escape {
        CharEscape::Quote => {
            writer.push('"');
        },
        CharEscape::ReverseSolidus => {
            writer.push('\\');
        },
        CharEscape::LineFeed => {
            writer.push('n');
        },
        CharEscape::Tab => {
            writer.push('t');
        },
        CharEscape::CarriageReturn => {
            writer.push('r');
        },
        CharEscape::Solidus => {
            writer.push('/');
        },
        CharEscape::Backspace => {
            writer.push('b');
        },
        CharEscape::FormFeed => {
            writer.push('f');
        },
        CharEscape::AsciiControl(number) => {
            writer.push('u');
            writer.push('0');
            writer.push('0');
            writer.push(digit(number / 16));
            writer.push(digit(number % 16));
        },
    }
    assert(writer@ =~= old(writer)@ + char_escape_text(char_escape));
}

/// Appends the hexadecimal digits of `n` to `writer`.
fn write_hex(writer: &mut String, n: u32)
    ensures
        final(writer)@ == old(writer)@ + hex_text(n as nat),
{
    let mut digits: Vec<char> = Vec::new();
    digits.push(digit((n % 16) as u8));
    let mut rest: u32 = n / 16;
    while rest > 0
        invariant
            hex_text(n as nat) == (if rest == 0 {
                Seq::<char>::empty()
            } else {
                hex_text(rest as nat)
            }) + digits@,
        decreases rest,
    {
        digits.insert(0, digit((rest % 16) as u8));
        rest = rest / 16;
    }
    write_chars(writer, &digits);
}

/// Appends the escape token of the code `n` to `writer`.
fn write_bracket_token(writer: &mut String, n: u32)
    ensures
        final(writer)@ == old(writer)@ + bracket_token(n as nat),
{
    writer.push('\\');
    writer.push('u');
    writer.push('{');
    write_hex(writer, n);
    writer.push('}');
    assert(writer@ =~= old(writer)@ + bracket_token(n as nat));
}

/// The first pass: `fragment` with every character outside printable ASCII
/// replaced by its escape tokens.
fn bracket_escape(fragment: &str) -> (escaped: String)
    ensures
        escaped@ == bracketed(fragment@),
{
    let text = chars_of(fragment);
    let mut escaped = String::new();
    let mut i: usize = 0;
    assert(text@.skip(0) =~= text@);
    while i < text.len()
        invariant
            i <= text.len(),
            bracketed(text@) == escaped@ + bracketed(text@.skip(i as int)),
        decreases text.len() - i,
    {
        let c = text[i];
        let code = c as u32;
        let ghost before = escaped@;
        let ghost rest = text@.skip(i as int);
        if 0x20 <= code && code <= 0x7e {
            escaped.push(c);
            assert(escaped@ =~= before + bracketed_char(c));
        } else if code <= 0xffff {
            write_bracket_token(&mut escaped, code);
            assert(escaped@ =~= before + bracketed_char(c));
        } else {
            let offset = code - 0x10000;
            write_bracket_token(&mut escaped, 0xd800 + offset / 0x400);
            write_bracket_token(&mut escaped, 0xdc00 + offset % 0x400);
            assert(escaped@ =~= before + bracketed_char(c));
        }
        i += 1;
        assert(rest.skip(1) =~= text@.skip(i as int));
        assert(escaped@ =~= before + bracketed_char(c));
        assert(before + bracketed_char(c) + bracketed(rest.skip(1)) =~= before + (bracketed_char(
            c,
        ) + bracketed(rest.skip(1))));
    }
    escaped
}

/// How many characters stand in `text` from `start` on before a closing
/// brace or the end of the text, counting no more than four.
fn token_body_len(text: &Vec<char>, start: usize) -> (n: usize)
    requires
        start <= text.len(),
    ensures
        n == brace_run(text@.skip(start as int)),
        n <= 4,
        start + n <= text.len(),
{
    let len = text.len();
    let mut n: usize = 0;
    while n < 4 && n < len - start && text[start + n] != '}'
        invariant
            len == text.len(),
            start <= len,
            n <= 4,
            n <= len - start,
            forall|j: int| start <= j < start + n ==> text@[j] != '}',
        decreases 4 - n,
    {
        n += 1;
    }
    proof {
        let token = text@.skip(start as int);
        assert(forall|j: int| 0 <= j < token.len() ==> #[trigger] token[j] == text@[start + j]);
    }
    n
}

/// Appends `count` zeros to `writer`.
fn write_zeros(writer: &mut String, count: usize)
    ensures
        final(writer)@ == old(writer)@ + zeros(count as int),
{
    let mut k: usize = 0;
    assert(zeros(0) =~= Seq::<char>::empty());
    while k < count
        invariant
            k <= count,
            writer@ == old(writer)@ + zeros(k as int),
        decreases count - k,
    {
        writer.push('0');
        k += 1;
        assert(zeros(k as int) =~= zeros(k - 1).push('0'));
    }
}

/// Rewrites the token that starts at position `i` of `text`, where a
/// backslash, `u` and an opening brace stand, and returns the position
/// behind what it has read.
fn write_token(writer: &mut String, text: &Vec<char>, i: usize) -> (next: usize)
    requires
        text.len() - i >= 3,
        i <= text.len(),
        text@[i as int] == '\\',
        text@[i + 1] == 'u',
        text@[i + 2] == '{',
    ensures
        i < next <= text.len(),
        old(writer)@ + normalized_unicode(text@.skip(i as int)) == final(writer)@
            + normalized_unicode(text@.skip(next as int)),
{
    let len = text.len();
    let start = i + 3;
    let n = token_body_len(text, start);
    let close = start + n;
    let ghost rest = text@.skip(i as int);
    proof {
        assert(rest.skip(3) =~= text@.skip(start as int));
        assert(rest.subrange(3, 3 + n) =~= text@.subrange(start as int, close as int));
        assert(rest[0] == '\\' && rest[1] == 'u' && rest[2] == '{');
        if close < len {
            assert(rest[3 + n] == text@[close as int]);
        }
    }
    writer.push('\\');
    writer.push('u');
    if close < len && text[close] == '}' {
        if n == 0 {
            writer.push('{');
            writer.push('}');
        } else {
            write_zeros(writer, 4 - n);
            write_range(writer, text, start, close);
        }
        proof {
            assert(rest.skip(4 + n) =~= text@.skip(close + 1));
            if n == 0 {
                assert(writer@ =~= old(writer)@ + seq!['\\', 'u', '{', '}']);
            } else {
                assert(writer@ =~= old(writer)@ + (seq!['\\', 'u'] + zeros(4 - n) + rest.subrange(
                    3,
                    3 + n,
                )));
            }
        }
        close + 1
    } else {
        writer.push('{');
        write_range(writer, text, start, close);
        proof {
            assert(rest.skip(3 + n) =~= text@.skip(close as int));
            assert(writer@ =~= old(writer)@ + (seq!['\\', 'u', '{'] + rest.subrange(3, 3 + n)));
        }
        close
    }
}

/// The second pass: appends `serialized_string` to `writer`, with every
/// escape token in braces rewritten to `\u` and four digits.
pub fn normalize_unicode(writer: &mut String, serialized_string: String)
    ensures
        final(writer)@ == old(writer)@ + normalized_unicode(serialized_string@),
{
    let text = chars_of(serialized_string.as_str());
    let len = text.len();
    let mut i: usize = 0;
    assert(text@.skip(0) =~= text@);
    while i < len
        invariant
            len == text.len(),
            i <= len,
            old(writer)@ + normalized_unicode(text@) == writer@ + normalized_unicode(
                text@.skip(i as int),
            ),
        decreases len - i,
    {
        let ghost rest = text@.skip(i as int);
        let ghost before = writer@;
        let c = text[i];
        if c == '\\' && len - i >= 2 && text[i + 1] == 'u' {
            if len - i >= 3 && text[i + 2] == '{' {
                i = write_token(writer, &text, i);
            } else {
                writer.push('\\');
                writer.push('u');
                i += 2;
                proof {
                    assert(rest.skip(2) =~= text@.skip(i as int));
                    assert(writer@ =~= before + seq!['\\', 'u']);
                    assert(before + (seq!['\\', 'u'] + normalized_unicode(rest.skip(2)))
                        =~= writer@ + normalized_unicode(rest.skip(2)));
                }
            }
        } else {
            writer.push(c);
            i += 1;
            proof {
                assert(rest.skip(1) =~= text@.skip(i as int));
                assert(before + (seq![c] + normalized_unicode(rest.skip(1))) =~= writer@
                    + normalized_unicode(rest.skip(1)));
            }
        }
    }
}

/// Appends a run of characters to `writer`: first pass, then second pass.
/// This is the canonical text of the run where none of its characters has
/// an escape of its own.
fn write_run(writer: &mut String, run: &str)
    ensures
        final(writer)@ == old(writer)@ + normalized_unicode(bracketed(run@)),
{
    let formatted_string = bracket_escape(run);
    normalize_unicode(writer, formatted_string);
}

/// The text of a string between its quotation marks.
pub open spec fn quoted(s: Seq<char>) -> Seq<char> {
    seq!['"'] + canonical_string(s) + seq!['"']
}

/// Whether no character of `s` has an escape of its own.
pub open spec fn is_fragment(s: Seq<char>) -> bool {
    forall|i: int| 0 <= i < s.len() ==> char_escape_of(#[trigger] s[i]) is None
}

/// No code point lies above U+10FFFF.
pub proof fn lemma_code_point_bound(c: char)
    ensures
        code_point(c) <= 0x10ffff,
{
}

/// A hexadecimal digit is printable, and neither a brace nor a backslash.
proof fn lemma_digit_char(d: int)
    requires
        0 <= d < 16,
    ensures
        is_printable(digit_char(d)),
        digit_char(d) != '}',
        digit_char(d) != '\\',
        d == 0 ==> digit_char(d) == '0',
{
}

/// The hexadecimal digits of a code unit, written out: one to four.
proof fn lemma_hex_text_short(n: nat)
    requires
        n <= 0xffff,
    ensures
        n < 16 ==> hex_text(n) == seq![digit_char(n as int)],
        16 <= n < 256 ==> hex_text(n) == seq![digit_char(n as int / 16), digit_char(n as int % 16)],
        256 <= n < 4096 ==> hex_text(n) == seq![
            digit_char(n as int / 256),
            digit_char(n as int / 16 % 16),
            digit_char(n as int % 16),
        ],
        4096 <= n ==> hex_text(n) == seq![
            digit_char(n as int / 4096),
            digit_char(n as int / 256 % 16),
            digit_char(n as int / 16 % 16),
            digit_char(n as int % 16),
        ],
    decreases n,
{
    if n >= 16 {
        lemma_hex_text_short(n / 16);
        if n < 256 {
            assert(hex_text(n) =~= seq![digit_char(n as int / 16), digit_char(n as int % 16)]);
        } else if n < 4096 {
            assert(hex_text(n) =~= seq![
                digit_char(n as int / 256),
                digit_char(n as int / 16 % 16),
                digit_char(n as int % 16),
            ]);
        } else {
            assert(hex_text(n) =~= seq![
                digit_char(n as int / 4096),
                digit_char(n as int / 256 % 16),
                digit_char(n as int / 16 % 16),
                digit_char(n as int % 16),
            ]);
        }
    }
}

/// The second pass turns the token of a code unit into its JSON escape,
/// whatever follows the token.
proof fn lemma_token_normalized(n: nat, rest: Seq<char>)
    requires
        n <= 0xffff,
    ensures
        normalized_unicode(bracket_token(n) + rest) == unicode_escape(n) + normalized_unicode(rest),
{
    let t = bracket_token(n) + rest;
    let hex = hex_text(n);
    lemma_hex_text_short(n);
    lemma_digit_char(n as int / 4096);
    lemma_digit_char(n as int / 256 % 16);
    lemma_digit_char(n as int / 16 % 16);
    lemma_digit_char(n as int % 16);
    let k = hex.len() as int;
    assert(1 <= k <= 4);
    assert(t[0] == '\\' && t[1] == 'u' && t[2] == '{');
    let token = t.skip(3);
    assert(forall|j: int| 0 <= j < k ==> token[j] == hex[j]);
    assert(token[k] == '}');
    assert(brace_run(token) == k);
    assert(t[3 + k] == '}');
    assert(t.subrange(3, 3 + k) =~= hex);
    assert(t.skip(4 + k) =~= rest);
    assert(zeros(4 - k) + hex =~= seq![
        digit_char(n as int / 4096),
        digit_char(n as int / 256 % 16),
        digit_char(n as int / 16 % 16),
        digit_char(n as int % 16),
    ]);
    assert(seq!['\\', 'u'] + zeros(4 - k) + hex =~= unicode_escape(n));
}

/// The two passes turn a character that needs no escape of its own into
/// its canonical text, whatever follows it.
proof fn lemma_char_normalized(c: char, rest: Seq<char>)
    requires
        char_escape_of(c) is None,
    ensures
        normalized_unicode(bracketed_char(c) + rest) == canonical_char(c) + normalized_unicode(
            rest,
        ),
{
    let t = bracketed_char(c) + rest;
    if is_printable(c) {
        assert(t[0] == c);
        assert(t.skip(1) =~= rest);
    } else if code_point(c) <= 0xffff {
        lemma_token_normalized(code_point(c), rest);
    } else {
        let high = high_surrogate(code_point(c));
        let low = low_surrogate(code_point(c));
        assert(code_point(c) <= 0x10ffff);
        assert(t =~= bracket_token(high) + (bracket_token(low) + rest));
        lemma_token_normalized(low, rest);
        lemma_token_normalized(high, bracket_token(low) + rest);
        assert(unicode_escape(high) + (unicode_escape(low) + normalized_unicode(rest))
            =~= canonical_char(c) + normalized_unicode(rest));
    }
}

/// The two passes together write the canonical text of a run in which no
/// character has an escape of its own.
pub proof fn lemma_fragment(fragment: Seq<char>)
    requires
        is_fragment(fragment),
    ensures
        normalized_unicode(bracketed(fragment)) == canonical_string(fragment),
    decreases fragment.len(),
{
    if fragment.len() > 0 {
        let tail = fragment.skip(1);
        assert(is_fragment(tail)) by {
            assert forall|i: int| 0 <= i < tail.len() implies char_escape_of(
                #[trigger] tail[i],
            ) is None by {
                assert(tail[i] == fragment[i + 1]);
            }
        }
        lemma_fragment(tail);
        lemma_char_normalized(fragment[0], bracketed(tail));
    }
}

/// The canonical text of two texts in a row is the canonical text of the
/// first, then that of the second.
pub proof fn lemma_canonical_string_concat(a: Seq<char>, b: Seq<char>)
    ensures
        canonical_string(a + b) == canonical_string(a) + canonical_string(b),
    decreases a.len(),
{
    if a.len() == 0 {
        assert(a + b =~= b);
        assert(canonical_string(a) + canonical_string(b) =~= canonical_string(b));
    } else {
        assert((a + b)[0] == a[0]);
        assert((a + b).skip(1) =~= a.skip(1) + b);
        lemma_canonical_string_concat(a.skip(1), b);
        assert(canonical_char(a[0]) + (canonical_string(a.skip(1)) + canonical_string(b))
            =~= canonical_string(a) + canonical_string(b));
    }
}

/// The canonical text of a string holds printable ASCII only.
pub proof fn lemma_canonical_string_printable(s: Seq<char>)
    ensures
        printable_text(canonical_string(s)),
    decreases s.len(),
{
    if s.len() > 0 {
        let c = s[0];
        let n = code_point(c) as int;
        lemma_canonical_string_printable(s.skip(1));
        lemma_code_point_bound(c);
        if n < 0x20 {
            lemma_digit_char(n / 16);
            lemma_digit_char(n % 16);
        } else if n <= 0xffff {
            lemma_digit_char(n / 4096);
            lemma_digit_char(n / 256 % 16);
            lemma_digit_char(n / 16 % 16);
            lemma_digit_char(n % 16);
        } else {
            let high = high_surrogate(n as nat) as int;
            let low = low_surrogate(n as nat) as int;
            lemma_digit_char(high / 4096);
            lemma_digit_char(high / 256 % 16);
            lemma_digit_char(high / 16 % 16);
            lemma_digit_char(high % 16);
            lemma_digit_char(low / 4096);
            lemma_digit_char(low / 256 % 16);
            lemma_digit_char(low / 16 % 16);
            lemma_digit_char(low % 16);
        }
        let head = canonical_char(c);
        let tail = canonical_string(s.skip(1));
        assert(forall|i: int| 0 <= i < head.len() ==> is_printable(#[trigger] head[i]));
        assert forall|i: int| 0 <= i < canonical_string(s).len() implies is_printable(
            #[trigger] canonical_string(s)[i],
        ) by {
            if i < head.len() {
                assert(canonical_string(s)[i] == head[i]);
            } else {
                assert(canonical_string(s)[i] == tail[i - head.len()]);
            }
        }
    }
}

/// The canonical text of a text and one more character.
proof fn lemma_canonical_string_push(a: Seq<char>, c: char)
    ensures
        canonical_string(a.push(c)) == canonical_string(a) + canonical_char(c),
{
    lemma_canonical_string_concat(a, seq![c]);
    assert(a.push(c) =~= a + seq![c]);
    let one = seq![c];
    assert(one[0] == c);
    assert(one.skip(1) =~= Seq::<char>::empty());
    assert(canonical_string(one.skip(1)) =~= Seq::<char>::empty());
    assert(canonical_string(one) =~= canonical_char(c));
}

/// Appends the canonical text of `fragment`, a string or a part of one, to
/// `writer`. A character that has an escape of its own is written as that
/// escape; the runs between such characters go through the two passes.
pub fn write_string_fragment(writer: &mut String, fragment: &str)
    ensures
        final(writer)@ == old(writer)@ + canonical_string(fragment@),
{
    let text = chars_of(fragment);
    let mut run = String::new();
    let ghost mut start: int = 0;
    let mut i: usize = 0;
    proof {
        assert(text@.take(0) =~= Seq::<char>::empty());
        assert(text@.subrange(0, 0) =~= Seq::<char>::empty());
        assert(writer@ + canonical_string(text@.take(0)) =~= writer@);
    }
    while i < text.len()
        invariant
            0 <= start <= i <= text.len(),
            run@ == text@.subrange(start, i as int),
            is_fragment(run@),
            writer@ == old(writer)@ + canonical_string(text@.take(start)),
        decreases text.len() - i,
    {
        let c = text[i];
        let ghost pending = run@;
        match char_escape(c) {
            None => {
                run.push(c);
                assert(run@ =~= text@.subrange(start, i + 1));
            },
            Some(char_escape) => {
                write_run(writer, run.as_str());
                run = String::new();
                write_char_escape(writer, char_escape);
                proof {
                    let done = text@.take(start);
                    lemma_fragment(pending);
                    lemma_canonical_string_concat(done, pending);
                    lemma_canonical_string_push(done + pending, c);
                    assert((done + pending).push(c) =~= text@.take(i + 1));
                    assert(writer@ =~= old(writer)@ + canonical_string(text@.take(i + 1)));
                    start = i + 1;
                    assert(run@ =~= text@.subrange(start, i + 1));
                }
            },
        }
        i += 1;
    }
    write_run(writer, run.as_str());
    proof {
        let done = text@.take(start);
        lemma_fragment(run@);
        lemma_canonical_string_concat(done, run@);
        assert(done + run@ =~= text@);
        assert(writer@ =~= old(writer)@ + canonical_string(fragment@));
    }
}

/// Appends the canonical text of the string `value` to `writer`, between
/// quotation marks.
pub fn write_string(writer: &mut String, value: &str)
    ensures
        final(writer)@ == old(writer)@ + quoted(value@),
{
    writer.push('"');
    write_string_fragment(writer, value);
    writer.push('"');
    assert(writer@ =~= old(writer)@ + quoted(value@));
}

} // verus!
