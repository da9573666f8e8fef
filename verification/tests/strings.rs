use canonical_json::escape::{
    char_escape, normalize_unicode, write_char_escape, write_string, write_string_fragment,
    CharEscape,
};
use canonical_json::ser::to_string;
use canonical_json::value::Value;

fn normalized(text: &str) -> String {
    let mut writer = String::new();
    normalize_unicode(&mut writer, text.to_string());
    writer
}

fn escaped(escape: CharEscape) -> String {
    let mut writer = String::new();
    write_char_escape(&mut writer, escape);
    writer
}

fn fragment(text: &str) -> String {
    let mut writer = String::new();
    write_string_fragment(&mut writer, text);
    writer
}

fn quoted(text: &str) -> String {
    let mut writer = String::new();
    write_string(&mut writer, text);
    writer
}

fn canonical(text: &str) -> String {
    to_string(&Value::Str(text.to_string())).unwrap()
}

#[test]
fn short_escapes() {
    assert_eq!(escaped(CharEscape::Quote), "\\\"");
    assert_eq!(escaped(CharEscape::ReverseSolidus), "\\\\");
    assert_eq!(escaped(CharEscape::Solidus), "\\/");
    assert_eq!(escaped(CharEscape::Backspace), "\\b");
    assert_eq!(escaped(CharEscape::FormFeed), "\\f");
    assert_eq!(escaped(CharEscape::LineFeed), "\\n");
    assert_eq!(escaped(CharEscape::CarriageReturn), "\\r");
    assert_eq!(escaped(CharEscape::Tab), "\\t");
}

#[test]
fn control_characters_get_two_hexadecimal_digits() {
    assert_eq!(escaped(CharEscape::AsciiControl(0x00)), "\\u0000");
    assert_eq!(escaped(CharEscape::AsciiControl(0x01)), "\\u0001");
    assert_eq!(escaped(CharEscape::AsciiControl(0x0b)), "\\u000b");
    assert_eq!(escaped(CharEscape::AsciiControl(0x1f)), "\\u001f");
    assert_eq!(escaped(CharEscape::AsciiControl(0xab)), "\\u00ab");
}

#[test]
fn characters_and_their_escapes() {
    assert!(matches!(char_escape('"'), Some(CharEscape::Quote)));
    assert!(matches!(char_escape('\\'), Some(CharEscape::ReverseSolidus)));
    assert!(matches!(char_escape('/'), Some(CharEscape::Solidus)));
    assert!(matches!(char_escape('\u{8}'), Some(CharEscape::Backspace)));
    assert!(matches!(char_escape('\u{c}'), Some(CharEscape::FormFeed)));
    assert!(matches!(char_escape('\n'), Some(CharEscape::LineFeed)));
    assert!(matches!(char_escape('\r'), Some(CharEscape::CarriageReturn)));
    assert!(matches!(char_escape('\t'), Some(CharEscape::Tab)));
    assert!(matches!(char_escape('\u{0}'), Some(CharEscape::AsciiControl(0))));
    assert!(matches!(char_escape('\u{1f}'), Some(CharEscape::AsciiControl(0x1f))));
    assert!(matches!(char_escape(' '), None));
    assert!(matches!(char_escape('a'), None));
    assert!(matches!(char_escape('\''), None));
    assert!(matches!(char_escape('\u{7f}'), None));
    assert!(matches!(char_escape('\u{e9}'), None));
}

#[test]
fn second_pass_pads_tokens_to_four_digits() {
    assert_eq!(normalized("\\u{e9}"), "\\u00e9");
    assert_eq!(normalized("\\u{1}"), "\\u0001");
    assert_eq!(normalized("\\u{119}"), "\\u0119");
    assert_eq!(normalized("\\u{2764}"), "\\u2764");
    assert_eq!(normalized("I \\u{2764} testing"), "I \\u2764 testing");
    assert_eq!(normalized("\\u{e9}\\u{e8}"), "\\u00e9\\u00e8");
}

#[test]
fn second_pass_keeps_an_empty_token() {
    assert_eq!(normalized("\\u{}"), "\\u{}");
    assert_eq!(normalized("I \\u{} testing"), "I \\u{} testing");
}

#[test]
fn second_pass_keeps_a_token_without_closing_brace() {
    assert_eq!(normalized("I \\u{1234 testing"), "I \\u{1234 testing");
    assert_eq!(normalized("\\u{12345}"), "\\u{12345}");
    assert_eq!(normalized("\\u{1f600}"), "\\u{1f600}");
    assert_eq!(normalized("\\u{"), "\\u{");
    assert_eq!(normalized("\\u{1"), "\\u{1");
    assert_eq!(normalized("\\u{12"), "\\u{12");
    assert_eq!(normalized("\\u{123"), "\\u{123");
    assert_eq!(normalized("\\u{1234"), "\\u{1234");
    assert_eq!(normalized("\\u{{12345}}"), "\\u{{12345}}");
}

#[test]
fn second_pass_keeps_everything_else() {
    assert_eq!(normalized(""), "");
    assert_eq!(normalized("plain"), "plain");
    assert_eq!(normalized("\\"), "\\");
    assert_eq!(normalized("\\n"), "\\n");
    assert_eq!(normalized("\\u"), "\\u");
    assert_eq!(normalized("\\u0041"), "\\u0041");
    assert_eq!(normalized("\\ux{e9}"), "\\ux{e9}");
    assert_eq!(normalized("u{e9}"), "u{e9}");
    assert_eq!(normalized("{e9}"), "{e9}");
    assert_eq!(normalized("\u{e9}"), "\u{e9}");
}

#[test]
fn second_pass_reads_one_character_at_a_time() {
    assert_eq!(normalized("\\\\u{e9}"), "\\\\u00e9");
    assert_eq!(normalized("\\u\\u{e9}"), "\\u\\u00e9");
    assert_eq!(normalized("\\u{e9}}"), "\\u00e9}");
    assert_eq!(normalized("\\u{\\u{e9}"), "\\u{\\u{e9}");
}

#[test]
fn fragments_get_their_canonical_text() {
    assert_eq!(fragment(""), "");
    assert_eq!(fragment("test"), "test");
    assert_eq!(fragment("\u{e9}"), "\\u00e9");
    assert_eq!(fragment("\u{119}"), "\\u0119");
    assert_eq!(fragment("\u{2713}"), "\\u2713");
    assert_eq!(fragment("\u{7f}"), "\\u007f");
    assert_eq!(fragment("\u{80}"), "\\u0080");
    assert_eq!(fragment("\u{1f600}"), "\\ud83d\\ude00");
    assert_eq!(fragment("single quote's"), "single quote's");
}

#[test]
fn fragments_escape_reserved_characters() {
    assert_eq!(fragment("image/jpeg"), "image\\/jpeg");
    assert_eq!(fragment("image//jpeg"), "image\\/\\/jpeg");
    assert_eq!(fragment("\t"), "\\t");
    assert_eq!(fragment("\n"), "\\n");
    assert_eq!(fragment("\r"), "\\r");
    assert_eq!(fragment("\u{8}"), "\\b");
    assert_eq!(fragment("\u{c}"), "\\f");
    assert_eq!(fragment("\""), "\\\"");
    assert_eq!(fragment("\\"), "\\\\");
    assert_eq!(fragment("\u{1}"), "\\u0001");
    assert_eq!(fragment("a\"b\\c/d\te\u{e9}"), "a\\\"b\\\\c\\/d\\te\\u00e9");
    assert_eq!(fragment("\\u{e9}"), "\\\\u{e9}");
}

#[test]
fn a_string_is_its_fragment_between_quotation_marks() {
    for text in ["", "test", "image/jpeg", "a\"b", "\u{e9}\t\u{1f600}", "I \\u{1234 testing"] {
        assert_eq!(quoted(text), format!("\"{}\"", fragment(text)));
    }
}

#[test]
fn strings_stand_between_quotation_marks() {
    assert_eq!(quoted(""), "\"\"");
    assert_eq!(quoted("test"), "\"test\"");
    assert_eq!(canonical(""), "\"\"");
    assert_eq!(canonical("test"), "\"test\"");
}

#[test]
fn unicode_scalar_becomes_escape() {
    assert_eq!(canonical("I \u{2764} testing"), "\"I \\u2764 testing\"");
    assert_eq!(canonical("\u{e9}"), "\"\\u00e9\"");
    assert_eq!(canonical("\u{7f}"), "\"\\u007f\"");
    assert_eq!(canonical("\u{ffff}"), "\"\\uffff\"");
    assert_eq!(canonical("a\u{e9}b\u{e8}c"), "\"a\\u00e9b\\u00e8c\"");
}

#[test]
fn code_point_above_sixteen_bits_becomes_surrogate_pair() {
    assert_eq!(canonical("\u{10000}"), "\"\\ud800\\udc00\"");
    assert_eq!(canonical("\u{1f600}"), "\"\\ud83d\\ude00\"");
    assert_eq!(canonical("\u{10ffff}"), "\"\\udbff\\udfff\"");
    assert_eq!(canonical("x\u{1f600}y"), "\"x\\ud83d\\ude00y\"");
}

#[test]
fn reserved_characters_use_short_escapes() {
    assert_eq!(canonical("\""), "\"\\\"\"");
    assert_eq!(canonical("\\"), "\"\\\\\"");
    assert_eq!(canonical("/"), "\"\\/\"");
    assert_eq!(canonical("\n"), "\"\\n\"");
    assert_eq!(canonical("\t"), "\"\\t\"");
    assert_eq!(canonical("\r"), "\"\\r\"");
    assert_eq!(canonical("\u{8}"), "\"\\b\"");
    assert_eq!(canonical("\u{c}"), "\"\\f\"");
    assert_eq!(canonical("a\"b\\c/d"), "\"a\\\"b\\\\c\\/d\"");
}

#[test]
fn other_control_characters_use_long_escapes() {
    assert_eq!(canonical("\u{0}"), "\"\\u0000\"");
    assert_eq!(canonical("\u{1}"), "\"\\u0001\"");
    assert_eq!(canonical("\u{b}"), "\"\\u000b\"");
    assert_eq!(canonical("\u{1f}"), "\"\\u001f\"");
    assert_eq!(canonical("a\u{1}b"), "\"a\\u0001b\"");
}

#[test]
fn printable_ascii_passes_through() {
    let printable = " !#$%&'()*+,-.0123456789:;<=>?@ABCDEFGHIJKLMNOPQRSTUVWXYZ[]^_`abcdefghijklmnopqrstuvwxyz{|}~";
    assert_eq!(canonical(printable), format!("\"{}\"", printable));
}

#[test]
fn escape_like_text_of_the_input_is_preserved() {
    assert_eq!(canonical("I \\u{1234 testing"), "\"I \\\\u{1234 testing\"");
    assert_eq!(canonical("I \\u{} testing"), "\"I \\\\u{} testing\"");
    assert_eq!(canonical("\\u{e9}"), "\"\\\\u{e9}\"");
    assert_eq!(canonical("\\u00e9"), "\"\\\\u00e9\"");
    assert_eq!(canonical("\\n"), "\"\\\\n\"");
    assert_eq!(canonical("u{e9}"), "\"u{e9}\"");
}

#[test]
fn canonical_strings_hold_printable_ascii_only() {
    let text = canonical("\u{0}\u{1f} \"\\/~\u{7f}\u{80}\u{e9}\u{2764}\u{ffff}\u{10000}\u{10ffff}");
    assert!(text.chars().all(|c| (' '..='~').contains(&c)));
}
