use canonical_json::number::{
    format_number, normalize_number, write_float, write_integer, Float, Scientific,
};
use canonical_json::ser::to_string;
use canonical_json::value::Value;

fn normalized(text: &str) -> String {
    normalize_number(text.to_string())
}

fn integer_text(number: i128) -> String {
    let mut writer = String::new();
    write_integer(&mut writer, number);
    writer
}

fn float_text(number: f64) -> String {
    let value = if number.is_nan() {
        Float::NotANumber
    } else if number == f64::INFINITY {
        Float::PositiveInfinity
    } else if number == f64::NEG_INFINITY {
        Float::NegativeInfinity
    } else {
        Float::Finite(Scientific::new(format!("{:e}", number)).unwrap())
    };
    let mut writer = String::new();
    write_float(&mut writer, &value);
    writer
}

#[test]
fn lowercase_marker_becomes_uppercase() {
    assert_eq!(normalized("2.3e1"), "2.3E1");
    assert_eq!(normalized("1e0"), "1E0");
    assert_eq!(normalized("1e21"), "1E21");
    assert_eq!(normalized("1e100"), "1E100");
}

#[test]
fn plus_sign_is_dropped() {
    assert_eq!(normalized("1e+5"), "1E5");
    assert_eq!(normalized("1E+5"), "1E5");
    assert_eq!(normalized("1e+21"), "1E21");
}

#[test]
fn minus_sign_is_kept() {
    assert_eq!(normalized("1e-6"), "1E-6");
    assert_eq!(normalized("9.30258908e-7"), "9.30258908E-7");
    assert_eq!(normalized("1E-6"), "1E-6");
}

#[test]
fn leading_zeros_of_the_exponent_are_dropped() {
    assert_eq!(normalized("1e+05"), "1E5");
    assert_eq!(normalized("1e-007"), "1E-7");
    assert_eq!(normalized("1e05"), "1E5");
    assert_eq!(normalized("1E05"), "1E5");
    assert_eq!(normalized("1E-05"), "1E-5");
    assert_eq!(normalized("1E+005"), "1E5");
    assert_eq!(normalized("1e0010"), "1E10");
}

#[test]
fn exponent_zero_keeps_one_digit() {
    assert_eq!(normalized("0e0"), "0E0");
    assert_eq!(normalized("1e000"), "1E0");
    assert_eq!(normalized("1E00"), "1E0");
    assert_eq!(normalized("1e+0"), "1E0");
    assert_eq!(normalized("1e-00"), "1E-0");
}

#[test]
fn canonical_exponent_stays() {
    assert_eq!(normalized("1E0"), "1E0");
    assert_eq!(normalized("2.3E1"), "2.3E1");
    assert_eq!(normalized("1E-7"), "1E-7");
    assert_eq!(normalized("1.0000000000000001E15"), "1.0000000000000001E15");
}

#[test]
fn mantissa_is_never_touched() {
    assert_eq!(normalized("-2.3e1"), "-2.3E1");
    assert_eq!(normalized("0.000e+00"), "0.000E0");
    assert_eq!(normalized("007e1"), "007E1");
    assert_eq!(normalized("1.0000000000000001e15"), "1.0000000000000001E15");
}

#[test]
fn text_without_exponent_stays() {
    assert_eq!(normalized(""), "");
    assert_eq!(normalized("123"), "123");
    assert_eq!(normalized("-0.5"), "-0.5");
    assert_eq!(normalized("e"), "e");
    assert_eq!(normalized("e+"), "e+");
    assert_eq!(normalized("e-"), "e-");
    assert_eq!(normalized("E+x"), "E+x");
    assert_eq!(normalized("hello"), "hello");
    assert_eq!(normalized("E5"), "E5");
    assert_eq!(normalized("E0"), "E0");
}

#[test]
fn every_exponent_of_a_text_is_rewritten() {
    assert_eq!(normalized("1e+01 2e+02"), "1E1 2E2");
    assert_eq!(normalized("e1e2"), "E1E2");
    assert_eq!(normalized("ee5"), "eE5");
}

fn scientific(text: &str) -> Scientific {
    Scientific::new(text.to_string()).unwrap()
}

fn formatted(text: &str) -> String {
    let mut writer = String::new();
    format_number(&mut writer, &scientific(text));
    writer
}

#[test]
fn format_number_appends_to_the_writer() {
    let mut writer = String::from("[");
    format_number(&mut writer, &scientific("2.3e1"));
    assert_eq!(writer, "[2.3E1");
    format_number(&mut writer, &scientific("1e-6"));
    assert_eq!(writer, "[2.3E11E-6");
}

#[test]
fn format_number_writes_canonical_exponents() {
    assert_eq!(formatted("2.3e1"), "2.3E1");
    assert_eq!(formatted("1e0"), "1E0");
    assert_eq!(formatted("0e0"), "0E0");
    assert_eq!(formatted("1e-6"), "1E-6");
    assert_eq!(formatted("1e21"), "1E21");
    assert_eq!(formatted("9.30258908e-7"), "9.30258908E-7");
    assert_eq!(formatted("1e+05"), "1E5");
    assert_eq!(formatted("1E-007"), "1E-7");
    assert_eq!(formatted("1e000"), "1E0");
    assert_eq!(formatted("1E+0"), "1E0");
    assert_eq!(formatted("-2.5e-300"), "-2.5E-300");
}

#[test]
fn scientific_notation_is_accepted() {
    for text in [
        "1e0", "0e0", "-0e0", "2.3e1", "-2.3e1", "1E5", "1e+5", "1E+05", "1e-6", "1E-06",
        "9.30258908e-7", "1.7976931348623157e308", "5e-324", "1e000", "1e+0", "1e-010",
    ] {
        let number = Scientific::new(text.to_string());
        assert!(number.is_some(), "{}", text);
        assert_eq!(number.unwrap().as_str(), text);
    }
}

#[test]
fn other_text_is_no_scientific_notation() {
    for text in [
        "", "NaN", "inf", "-inf", "1", "1.5", "e5", "E5", "1e", "1E", "1e+", "1e-", "1e5x",
        "1e5 ", " 1e5", "1e+-5", "1ee5", "1e5e5", "x1e5", "1e-0", "1e-00", "1E-0", "+1e5",
        "1e5.0", "hello", "12e5", "007e1", ".5e1", "1.e5", "-e5", "--1e5", "1.2.3e4", "-.-e1",
        "1-e5", "1.5.e1", "1.5-e1", "e", "-", ".",
    ] {
        assert!(Scientific::new(text.to_string()).is_none(), "{}", text);
    }
}

#[test]
fn numbers_without_a_value_are_null() {
    assert_eq!(float_text(f64::NAN), "null");
    assert_eq!(float_text(f64::INFINITY), "null");
    assert_eq!(float_text(f64::NEG_INFINITY), "null");
    assert_eq!(
        to_string(&Value::Float(Float::NotANumber)).unwrap(),
        "null"
    );
    assert_eq!(
        to_string(&Value::Float(Float::PositiveInfinity)).unwrap(),
        "null"
    );
    assert_eq!(
        to_string(&Value::Float(Float::NegativeInfinity)).unwrap(),
        "null"
    );
}

#[test]
fn finite_floats_in_scientific_notation() {
    assert_eq!(float_text(23.0), "2.3E1");
    assert_eq!(float_text(1.0), "1E0");
    assert_eq!(float_text(0.0), "0E0");
    assert_eq!(float_text(0.000001), "1E-6");
    assert_eq!(float_text(1e21), "1E21");
    assert_eq!(float_text(0.000000930258908), "9.30258908E-7");
    assert_eq!(float_text(-23.0), "-2.3E1");
    assert_eq!(float_text(-0.0), "-0E0");
    assert_eq!(float_text(f64::MAX), "1.7976931348623157E308");
    assert_eq!(float_text(f64::MIN_POSITIVE), "2.2250738585072014E-308");
    assert_eq!(float_text(5e-324), "5E-324");
}

#[test]
fn canonical_floats_read_back_as_the_same_number() {
    let samples = [
        0.0,
        1.0,
        -1.0,
        23.0,
        23.1,
        0.1,
        1e21,
        1e-7,
        1.0000000000000001e15,
        123456789.12345678,
        f64::MAX,
        f64::MIN_POSITIVE,
        5e-324,
        -2.5e-300,
        std::f64::consts::PI,
    ];
    for number in samples {
        let text = float_text(number);
        assert!(text.contains('E'));
        assert!(!text.contains('e'));
        assert!(!text.contains('+'));
        let exponent = &text[text.find('E').unwrap() + 1..];
        let digits = exponent.strip_prefix('-').unwrap_or(exponent);
        assert!(!digits.is_empty() && digits.chars().all(|c| c.is_ascii_digit()));
        assert!(exponent == "0" || !digits.starts_with('0'));
        assert_eq!(text.parse::<f64>().unwrap(), number);
    }
}

#[test]
fn integers_in_exact_digits() {
    assert_eq!(integer_text(0), "0");
    assert_eq!(integer_text(7), "7");
    assert_eq!(integer_text(10), "10");
    assert_eq!(integer_text(2300), "2300");
    assert_eq!(integer_text(-123), "-123");
    assert_eq!(integer_text(-1), "-1");
    assert_eq!(integer_text(1000000000000000000000), "1000000000000000000000");
    assert_eq!(integer_text(i64::MAX as i128), "9223372036854775807");
    assert_eq!(integer_text(i64::MIN as i128), "-9223372036854775808");
    assert_eq!(integer_text(u64::MAX as i128), "18446744073709551615");
    assert_eq!(
        integer_text(i128::MAX),
        "170141183460469231731687303715884105727"
    );
    assert_eq!(
        integer_text(i128::MIN),
        "-170141183460469231731687303715884105728"
    );
}

#[test]
fn integer_and_float_of_one_value_differ() {
    assert_eq!(to_string(&Value::Integer(1)).unwrap(), "1");
    assert_eq!(
        to_string(&Value::Float(Float::Finite(scientific("1e0")))).unwrap(),
        "1E0"
    );
}

#[test]
fn integers_read_back_as_the_same_number() {
    for number in [0i128, 1, -1, 9, 10, 99, 100, -100, 2300, i128::MAX, i128::MIN] {
        let text = integer_text(number);
        assert_eq!(text.parse::<i128>().unwrap(), number);
        assert_eq!(text, number.to_string());
    }
}
