use slickscan::decimal::{int_to_text, text_to_int, CodecError};
use slickscan::fixed::{fixed_to_text, text_to_fixed};

#[test]
fn fixed_min_word_is_minus_32768() {
    assert_eq!(fixed_to_text(i32::MIN), "-32768");
    assert_eq!(text_to_fixed("-32768"), Ok(i32::MIN));
}

#[test]
fn fixed_round_trip_on_sample_words() {
    let words = [
        0, 1, -1, 2, 65536, -65536, 98304, -98304, 12345678, -12345678, 32768, 65535,
        i32::MAX, i32::MIN + 1, i32::MIN, 1 << 30, -(1 << 30) - 7,
    ];
    for w in words {
        let text = fixed_to_text(w);
        assert_eq!(text_to_fixed(&text), Ok(w), "word {w} text {text}");
    }
}

#[test]
fn fixed_round_trip_on_a_sweep() {
    let mut w: i64 = i32::MIN as i64;
    while w <= i32::MAX as i64 {
        let word = w as i32;
        assert_eq!(text_to_fixed(&fixed_to_text(word)), Ok(word));
        w += 9_999_991;
    }
}

#[test]
fn fixed_text_is_exact_decimal() {
    assert_eq!(fixed_to_text(0), "0");
    assert_eq!(fixed_to_text(65536), "1");
    assert_eq!(fixed_to_text(98304), "1.5");
    assert_eq!(fixed_to_text(-98304), "-1.5");
    assert_eq!(fixed_to_text(1), "0.0000152587890625");
    assert_eq!(fixed_to_text(-16384), "-0.25");
    assert_eq!(fixed_to_text(i32::MAX), "32767.9999847412109375");
    assert_eq!(fixed_to_text(19660800), "300");
}

#[test]
fn fixed_reading_rounds_to_nearest() {
    assert_eq!(text_to_fixed("1.5"), Ok(98304));
    assert_eq!(text_to_fixed("+2"), Ok(131072));
    assert_eq!(text_to_fixed("5."), Ok(327680));
    assert_eq!(text_to_fixed(".5"), Ok(32768));
    assert_eq!(text_to_fixed("-0"), Ok(0));
    // exactly half of one unit rounds away from zero
    assert_eq!(text_to_fixed("0.00000762939453125"), Ok(1));
    assert_eq!(text_to_fixed("-0.00000762939453125"), Ok(-1));
    // just below half rounds toward zero
    assert_eq!(text_to_fixed("0.0000076293945312"), Ok(0));
    assert_eq!(text_to_fixed("0.00000762939453124999999999"), Ok(0));
    assert_eq!(text_to_fixed("0.000007629394531250000001"), Ok(1));
    assert_eq!(text_to_fixed("215.9"), Ok(14149222));
}

#[test]
fn fixed_reading_saturates_out_of_range() {
    assert_eq!(text_to_fixed("40000"), Ok(i32::MAX));
    assert_eq!(text_to_fixed("-40000"), Ok(i32::MIN));
    assert_eq!(text_to_fixed("-32768.5"), Ok(i32::MIN));
    assert_eq!(text_to_fixed("32767.99999"), Ok(i32::MAX));
    assert_eq!(text_to_fixed("99999999999999999999999"), Ok(i32::MAX));
}

#[test]
fn fixed_reading_rejects_malformed_text() {
    for t in [
        "", "-", "+", ".", "-.", "1.2.3", "abc", " 1", "1 ", "--1", "0x10", "nana", "na", "e5", "1e",
        "1e+", "1e-", "1e5.0", "1ee5", ".e1", "1e5e1", "in", "infinit", "infinityy", "-+inf", "1e 5",
    ] {
        assert_eq!(text_to_fixed(t), Err(CodecError::Malformed), "text {t:?}");
    }
}

#[test]
fn int_text_and_reading() {
    assert_eq!(int_to_text(0), "0");
    assert_eq!(int_to_text(-305), "-305");
    assert_eq!(int_to_text(i32::MIN), "-2147483648");
    assert_eq!(int_to_text(i32::MAX), "2147483647");
    assert_eq!(text_to_int("42"), Ok(42));
    assert_eq!(text_to_int("+7"), Ok(7));
    assert_eq!(text_to_int("-2147483648"), Ok(i32::MIN));
    assert_eq!(text_to_int("2147483647"), Ok(i32::MAX));
    assert_eq!(text_to_int("007"), Ok(7));
}

#[test]
fn int_reading_errors() {
    assert_eq!(text_to_int("2147483648"), Err(CodecError::OutOfRange));
    assert_eq!(text_to_int("-2147483649"), Err(CodecError::OutOfRange));
    assert_eq!(text_to_int("123456789012345678901234567890"), Err(CodecError::OutOfRange));
    for t in ["", "-", "1.0", "x", " 3", "3 "] {
        assert_eq!(text_to_int(t), Err(CodecError::Malformed), "text {t:?}");
    }
}

#[test]
fn int_round_trip_on_sample_words() {
    for w in [0, 1, -1, 9, 10, -10, 300, i32::MAX, i32::MIN, 123456789] {
        assert_eq!(text_to_int(&int_to_text(w)), Ok(w));
    }
}

#[test]
fn fixed_reading_takes_exponents() {
    assert_eq!(text_to_fixed("1e3"), Ok(1000 * 65536));
    assert_eq!(text_to_fixed("2.5E-1"), Ok(16384));
    assert_eq!(text_to_fixed("1.e1"), Ok(655360));
    assert_eq!(text_to_fixed("15e-1"), Ok(98304));
    assert_eq!(text_to_fixed("-1e-0"), Ok(-65536));
    assert_eq!(text_to_fixed("+1E+2"), Ok(6553600));
    assert_eq!(text_to_fixed(".5e1"), Ok(327680));
    assert_eq!(text_to_fixed("0.00001e1"), Ok(7));
    assert_eq!(text_to_fixed("123e-5"), Ok(81));
    assert_eq!(text_to_fixed("5e-7"), Ok(0));
    assert_eq!(text_to_fixed("7.62939453125e-6"), Ok(1));
    assert_eq!(text_to_fixed("-7.62939453125e-6"), Ok(-1));
    assert_eq!(text_to_fixed("32767e0"), Ok(32767 * 65536));
    assert_eq!(text_to_fixed("3.2768e4"), Ok(i32::MAX));
    assert_eq!(text_to_fixed("-3.2768e4"), Ok(i32::MIN));
}

#[test]
fn fixed_reading_of_extreme_exponents() {
    assert_eq!(text_to_fixed("1e999999999999999999999"), Ok(i32::MAX));
    assert_eq!(text_to_fixed("-1e99999999999999999"), Ok(i32::MIN));
    assert_eq!(text_to_fixed("1e-99999999999999"), Ok(0));
    assert_eq!(text_to_fixed("-9.9e-99999999999999"), Ok(0));
    assert_eq!(text_to_fixed("0e99999"), Ok(0));
    assert_eq!(text_to_fixed("-0e5"), Ok(0));
    assert_eq!(text_to_fixed("0.000e-3"), Ok(0));
    assert_eq!(text_to_fixed("100000e-5"), Ok(65536));
    assert_eq!(text_to_fixed("0.0001e4"), Ok(65536));
}

#[test]
fn fixed_reading_of_infinities() {
    assert_eq!(text_to_fixed("inf"), Ok(i32::MAX));
    assert_eq!(text_to_fixed("+INF"), Ok(i32::MAX));
    assert_eq!(text_to_fixed("-Infinity"), Ok(i32::MIN));
    assert_eq!(text_to_fixed("iNfInItY"), Ok(i32::MAX));
    assert_eq!(text_to_fixed("-inf"), Ok(i32::MIN));
}

#[test]
fn int_reading_takes_no_exponent() {
    assert_eq!(text_to_int("1e3"), Err(CodecError::Malformed));
}

#[test]
fn fixed_reading_of_nan_gives_zero() {
    for t in ["NaN", "nan", "NAN", "-nan", "+NaN"] {
        assert_eq!(text_to_fixed(t), Ok(0), "text {t:?}");
    }
}
