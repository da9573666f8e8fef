//! Text as a sequence of characters.

use vstd::prelude::*;

verus! {

/// `String::push` of the standard library: the string afterwards is the
/// string before with `c` at its end. Taken from its documentation, not
/// proved.
pub assume_specification[ String::push ](s: &mut String, c: char)
    ensures
        final(s)@ == old(s)@.push(c),
;

/// The code point of `c`.
pub open spec fn code_point(c: char) -> nat {
    c as u32 as nat
}

/// Whether `c` is printable ASCII: U+0020 to U+007E.
pub open spec fn is_printable(c: char) -> bool {
    0x20 <= code_point(c) <= 0x7e
}

/// Whether `text` holds printable ASCII only.
pub open spec fn printable_text(text: Seq<char>) -> bool {
    forall|i: int| 0 <= i < text.len() ==> is_printable(#[trigger] text[i])
}

/// The characters of `s`, in order.
pub(crate) fn chars_of(s: &str) -> (chars: Vec<char>)
    ensures
        chars@ == s@,
{
    let mut chars: Vec<char> = Vec::new();
    for c in it: s.chars()
        invariant
            it.seq() == s@,
            chars@ == it.seq().take(it.index()),
    {
        chars.push(c);
    }
    chars
}

/// Appends the characters of `text` from position `from` up to, but not
/// including, position `to` to `writer`.
pub(crate) fn write_range(writer: &mut String, text: &Vec<char>, from: usize, to: usize)
    requires
        from <= to <= text.len(),
    ensures
        final(writer)@ == old(writer)@ + text@.subrange(from as int, to as int),
{
    let mut i: usize = from;
    assert(text@.subrange(from as int, from as int) =~= Seq::<char>::empty());
    while i < to
        invariant
            from <= i <= to <= text.len(),
            writer@ == old(writer)@ + text@.subrange(from as int, i as int),
        decreases to - i,
    {
        writer.push(text[i]);
        i += 1;
        assert(text@.subrange(from as int, i as int) =~= text@.subrange(from as int, i - 1).push(
            text@[i - 1],
        ));
    }
}

/// Appends the characters of `text` to `writer`.
pub(crate) fn write_chars(writer: &mut String, text: &Vec<char>)
    ensures
        final(writer)@ == old(writer)@ + text@,
{
    write_range(writer, text, 0, text.len());
    assert(text@.subrange(0, text.len() as int) =~= text@);
}

} // verus!
