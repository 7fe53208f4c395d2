use hexponent::{ConversionResult, FloatLiteral, ParseError, ParseErrorKind};

fn single(s: &str) -> ConversionResult<u32> {
    let literal = s.parse::<FloatLiteral>().unwrap();
    literal.convert::<u32>()
}

fn double(s: &str) -> ConversionResult<u64> {
    let literal = s.parse::<FloatLiteral>().unwrap();
    literal.convert::<u64>()
}

// Compares bit patterns, so that 0.0 and -0.0 differ.
fn test_float(s: &str, result: f32) {
    let bits = single(s).inner();
    assert_eq!(
        bits,
        result.to_bits(),
        "{}: got {:?} ({:08x})",
        s,
        f32::from_bits(bits),
        bits
    );
}

fn test_double(s: &str, result: f64) {
    let bits = double(s).inner();
    assert_eq!(
        bits,
        result.to_bits(),
        "{}: got {:?} ({:016x})",
        s,
        f64::from_bits(bits),
        bits
    );
}

fn test_both(s: &str, float_result: f32) {
    let double_result = float_result as f64;
    test_float(s, float_result);
    test_double(s, double_result);
}

fn test_parse_error(s: &str, kind: ParseErrorKind) {
    assert_eq!(s.parse::<FloatLiteral>().unwrap_err().kind, kind, "{}", s);
}

#[test]
fn test_zero() {
    test_both("0x0", 0.0);
    test_both("0x0.", 0.0);
    test_both("0x.0", 0.0);
    test_both("0x0.0", 0.0);
    test_both("0x0000.0000", 0.0);
}

#[test]
fn test_integers() {
    test_both("0x11", 17.0);
    test_both("0x21", 33.0);
    test_both("0x22", 34.0);

    test_both("0xDEAD", 57005.0);
    test_both("0xBEEF", 48879.0);
}

#[test]
fn test_fractions() {
    test_both("0x0.2", 0.125);
    test_both("0x0.4", 0.25);
    test_both("0x0.8", 0.5);
    test_both("0x0.c", 0.75);
    test_both("0x0.e", 0.875);
}

#[test]
fn test_exponents() {
    test_both("0x0.01", 0.003_906_25);
    test_both("0x0.1", 0.0625);
    test_both("0x1", 1.0);
    test_both("0x10", 16.0);
    test_both("0x100", 256.0);

    test_both("0x1p-8", 0.003_906_25);
    test_both("0x1p-4", 0.0625);
    test_both("0x1p0", 1.0);
    test_both("0x1p4", 16.0);
    test_both("0x1p8", 256.0);

    test_both("0x0.01p8", 1.0);
    test_both("0x0.1p4", 1.0);
    test_both("0x1p0", 1.0);
    test_both("0x10p-4", 1.0);
    test_both("0x100p-8", 1.0);
}

#[test]
fn test_overflow_underflow() {
    test_float("0x1p1000", f32::INFINITY);
    test_float("-0x1p1000", f32::NEG_INFINITY);
    test_float("0x1p-1000", 0.0);
    test_float("-0x1p-1000", -0.0);
}

#[test]
fn rcc_tests() {
    test_both("0x.ep0", 0.875);
    test_both("0x.ep-0", 0.875);
    test_both("0xe.p-4", 0.875);
    test_both("0xep-4", 0.875);

    "0x.000000000000000000102".parse::<FloatLiteral>().unwrap();
}

#[test]
fn test_incomplete() {
    test_parse_error("", ParseErrorKind::MissingPrefix);
    test_parse_error("-", ParseErrorKind::MissingPrefix);
    test_parse_error("+", ParseErrorKind::MissingPrefix);
    test_parse_error("-3.2", ParseErrorKind::MissingPrefix);
    test_parse_error("0x", ParseErrorKind::MissingDigits);
    test_parse_error("-0x", ParseErrorKind::MissingDigits);
    test_parse_error("+0x", ParseErrorKind::MissingDigits);
    test_parse_error("0x.", ParseErrorKind::MissingDigits);
    test_parse_error("0xp", ParseErrorKind::MissingDigits);
    test_parse_error("0x.p1", ParseErrorKind::MissingDigits);
    test_parse_error("0x1p", ParseErrorKind::MissingExponent);
    test_parse_error("0x1p+", ParseErrorKind::MissingExponent);
    test_parse_error("0x1p-", ParseErrorKind::MissingExponent);
    test_parse_error("0x1p10000000000", ParseErrorKind::ExponentOverflow);
    test_parse_error("0x1p-10000000000", ParseErrorKind::ExponentOverflow);
    test_parse_error("0xbaddata", ParseErrorKind::MissingEnd);
}

#[test]
fn test_fuzzer_finds() {
    "0X.0000002".parse::<FloatLiteral>().unwrap();

    let literal = "0x3p127".parse::<FloatLiteral>().unwrap();
    println!("{:?}", literal.convert::<u32>());
}

#[test]
fn test_zero_trimming() {
    test_both("0x0.0000000001p+40", 1.0);
    test_both("0x10000000000p-40", 1.0);

    "0x10000000000".parse::<FloatLiteral>().unwrap();
    "0x.0000000001".parse::<FloatLiteral>().unwrap();
}

#[test]
fn test_double_precision() {
    test_float("0x1000000001", 68_719_480_000.0);
    test_double("0x1000000001", 68_719_476_737.0);
}

#[test]
fn exact_value_is_precise() {
    assert_eq!(single("0x3.4"), ConversionResult::Precise(3.25f32.to_bits()));
    assert_eq!(double("0x3.4"), ConversionResult::Precise(3.25f64.to_bits()));
    assert_eq!(single("0x1.fffffe"), ConversionResult::Precise(0x3fff_ffff));
    assert_eq!(single("-0x1p-126"), ConversionResult::Precise(0x8080_0000));
    assert_eq!(single("0x1.fffffep127"), ConversionResult::Precise(0x7f7f_ffff));
}

#[test]
fn overflow_gives_imprecise_infinity() {
    assert_eq!(single("0x1p1000"), ConversionResult::Imprecise(f32::INFINITY.to_bits()));
    assert_eq!(single("-0x1p1000"), ConversionResult::Imprecise(f32::NEG_INFINITY.to_bits()));
    assert_eq!(single("0x1p128"), ConversionResult::Imprecise(0x7f80_0000));
    assert_eq!(double("0x1p1024"), ConversionResult::Imprecise(f64::INFINITY.to_bits()));
    assert_eq!(double("0x1p1000"), ConversionResult::Precise(0x7e70_0000_0000_0000));
}

#[test]
fn underflow_keeps_sign() {
    assert_eq!(single("0x1p-1000"), ConversionResult::Imprecise(0));
    assert_eq!(single("-0x1p-1000"), ConversionResult::Imprecise(0x8000_0000));
    assert_eq!(single("0x1p-127"), ConversionResult::Imprecise(0));
    assert_eq!(double("-0x1p-1023"), ConversionResult::Imprecise(0x8000_0000_0000_0000));
}

#[test]
fn zero_literals_are_precise_zero() {
    for s in ["0x0", "0x0.", "0x.0", "0x0.0", "0x0000.0000", "0x0p99999"] {
        assert_eq!(single(s), ConversionResult::Precise(0), "{}", s);
        assert_eq!(double(s), ConversionResult::Precise(0), "{}", s);
    }
    assert_eq!(single("-0x0"), ConversionResult::Precise(0x8000_0000));
}

#[test]
fn truncated_digits_are_imprecise() {
    // 2^36 + 1 needs 37 bits: single precision drops the last one.
    assert_eq!(single("0x1000000001"), ConversionResult::Imprecise(0x5180_0000));
    assert_eq!(double("0x1000000001"), ConversionResult::Precise(68_719_476_737f64.to_bits()));
    // Truncation, not rounding to nearest.
    assert_eq!(single("0x1.ffffff"), ConversionResult::Imprecise(0x3fff_ffff));
    // A non-zero digit beyond the sixteen that are read is still noticed.
    assert_eq!(double("0x1.00000000000000001"), ConversionResult::Imprecise(1f64.to_bits()));
    assert_eq!(double("0x1.00000000000000000"), ConversionResult::Precise(1f64.to_bits()));
}

#[test]
fn widths_agree_when_both_precise() {
    for s in ["0x3.4", "0x1p-126", "-0xDEADp3", "0x0.0000000001p+40"] {
        let narrow = single(s);
        let wide = double(s);
        assert!(matches!(narrow, ConversionResult::Precise(_)), "{}", s);
        assert!(matches!(wide, ConversionResult::Precise(_)), "{}", s);
        assert_eq!(f32::from_bits(narrow.inner()) as f64, f64::from_bits(wide.inner()), "{}", s);
    }
}

#[test]
fn custom_width() {
    // Half precision: 5 exponent bits, 10 mantissa bits.
    let literal = FloatLiteral::from_bytes(b"0x1.8p1");
    let bits = literal.unwrap().convert_bits(5, 10);
    assert_eq!(bits, ConversionResult::Precise(0x4200));
    let big = FloatLiteral::from_bytes(b"0x1p16").unwrap().convert_bits(5, 10);
    assert_eq!(big, ConversionResult::Imprecise(0x7c00));
}

#[test]
fn error_indices() {
    let cases: [(&str, ParseErrorKind, usize); 12] = [
        ("0x1p", ParseErrorKind::MissingExponent, 4),
        ("0x1p+", ParseErrorKind::MissingExponent, 4),
        ("", ParseErrorKind::MissingPrefix, 0),
        ("-3.2", ParseErrorKind::MissingPrefix, 0),
        ("0x", ParseErrorKind::MissingDigits, 2),
        ("-0x", ParseErrorKind::MissingDigits, 3),
        ("0x.", ParseErrorKind::MissingDigits, 3),
        ("0x.p1", ParseErrorKind::MissingDigits, 3),
        ("0xbaddata", ParseErrorKind::MissingEnd, 7),
        ("0x1.g", ParseErrorKind::MissingEnd, 4),
        ("0x1p10000000000", ParseErrorKind::ExponentOverflow, 4),
        ("0x1p1 ", ParseErrorKind::MissingEnd, 5),
    ];
    for (s, kind, index) in cases {
        assert_eq!(FloatLiteral::from_bytes(s.as_bytes()).unwrap_err(), ParseError { kind, index }, "{}", s);
    }
}

#[test]
fn exponent_limits() {
    assert!(FloatLiteral::from_bytes(b"0x1p2147483647").is_ok());
    assert!(FloatLiteral::from_bytes(b"0x1p-2147483648").is_ok());
    assert!(FloatLiteral::from_bytes(b"0x1p+0000000000000000000001").is_ok());
    let err = FloatLiteral::from_bytes(b"0x1p2147483648").unwrap_err();
    assert_eq!(err, ParseError { kind: ParseErrorKind::ExponentOverflow, index: 4 });
    let err = FloatLiteral::from_bytes(b"0x1p-2147483649").unwrap_err();
    assert_eq!(err, ParseError { kind: ParseErrorKind::ExponentOverflow, index: 4 });
}

#[test]
fn parsing_is_deterministic() {
    for s in ["0x1.8p3", "0x1p", "-0x0", "0xbaddata", "0x.000102"] {
        let a = FloatLiteral::from_bytes(s.as_bytes());
        let b = FloatLiteral::from_bytes(s.as_bytes());
        match (a, b) {
            (Ok(x), Ok(y)) => assert_eq!(x.convert::<u64>(), y.convert::<u64>()),
            (Err(x), Err(y)) => assert_eq!(x, y),
            _ => panic!("{}", s),
        }
    }
}

#[test]
fn messages() {
    let err = FloatLiteral::from_bytes(b"0x").unwrap_err();
    assert_eq!(err.message(), "literal must have digits");
    let err = FloatLiteral::from_bytes(b"0x1q").unwrap_err();
    assert_eq!(err.message(), "extra bytes were found at the end of float literal");
}

#[test]
fn from_str_matches_from_bytes() {
    for s in ["-", "+", "-3.2", "-0x", "+0x", "0x.", "0xp", "0x.p1", "0x1p+", "0x1p-", "0x1p10000000000", "0x1p-10000000000"] {
        let a = s.parse::<FloatLiteral>().unwrap_err();
        let b = FloatLiteral::from_bytes(s.as_bytes()).unwrap_err();
        assert_eq!(a, b, "{}", s);
    }
    for s in ["0x.000000000000000000102", "0X.0000002", "0x10000000000", "0x.0000000001"] {
        let a = s.parse::<FloatLiteral>().unwrap();
        let b = FloatLiteral::from_bytes(s.as_bytes()).unwrap();
        assert_eq!(a.convert::<u64>(), b.convert::<u64>(), "{}", s);
    }
    assert_eq!(double("0x10000000000"), ConversionResult::Precise(1099511627776f64.to_bits()));
    assert_eq!(double("0x.0000000001"), ConversionResult::Precise((1.0f64 / 1099511627776.0).to_bits()));
}

#[test]
fn exact_double_values() {
    assert_eq!(double("0x1.fffffffffffffp1023"), ConversionResult::Precise(f64::MAX.to_bits()));
    assert_eq!(double("0x1p-1022"), ConversionResult::Precise(f64::MIN_POSITIVE.to_bits()));
    assert_eq!(double("-0x1.8p1"), ConversionResult::Precise((-3.0f64).to_bits()));
    assert_eq!(double("0x1.00000000000008"), ConversionResult::Imprecise(1f64.to_bits()));
}
