use qoala::report::{
    exponent_text, field_padded_text, field_text, int2str, pad, pad_left, resolve_text,
    trim_exponent_mantissa, trim_fraction_zeros, warning_text, with_sign,
};

#[test]
fn pad_matches_matlab() {
    assert_eq!(pad("abc", 6), "abc   ");
    assert_eq!(pad("abcdefg", 3), "abcdefg");
    assert_eq!(pad_left("7", 4), "   7");
}

#[test]
fn int2str_writes_signed_decimals() {
    assert_eq!(int2str(0), "0");
    assert_eq!(int2str(42), "42");
    assert_eq!(int2str(-7), "-7");
    assert_eq!(int2str(i64::MIN), "-9223372036854775808");
    assert_eq!(int2str(i64::MAX), "9223372036854775807");
}

#[test]
fn padding_counts_characters_not_bytes() {
    assert_eq!(pad("é", 3), "é  ");
    assert_eq!(pad_left("", 2), "  ");
}

#[test]
fn settings_lines_put_values_at_column_sixty() {
    let line = field_text("System basis set", "sphten");
    assert_eq!(line.len(), 66);
    assert!(line.starts_with("System basis set "));
    assert!(line.ends_with("sphten"));
    assert_eq!(&line[60..], "sphten");
    assert_eq!(field_padded_text("a", "b").len(), 80);
    assert_eq!(&warning_text("mults not provided")[60..], "WARNING");
    let r = resolve_text("assuming all 2-level systems in mults");
    assert!(r.starts_with("... assuming"));
    assert_eq!(&r[60..], "RESOLVE");
}

#[test]
fn general_format_trims_like_c() {
    assert_eq!(trim_fraction_zeros("0.150000"), "0.15");
    assert_eq!(trim_fraction_zeros("1.000"), "1");
    assert_eq!(trim_fraction_zeros("1200"), "1200");
    assert_eq!(trim_fraction_zeros("-3.50"), "-3.5");
    assert_eq!(trim_exponent_mantissa("1.00000000e-12"), "1e-12");
    assert_eq!(trim_exponent_mantissa("1.23456789e+09"), "1.23456789e+09");
    assert_eq!(trim_exponent_mantissa("120"), "120");
}

#[test]
fn exponents_have_a_sign_and_two_digits() {
    assert_eq!(exponent_text(0), "e+00");
    assert_eq!(exponent_text(-3), "e-03");
    assert_eq!(exponent_text(12), "e+12");
    assert_eq!(exponent_text(-308), "e-308");
    assert_eq!(exponent_text(i32::MIN), "e-2147483648");
}

#[test]
fn signs_are_forced_once() {
    assert_eq!(with_sign("1.5"), "+1.5");
    assert_eq!(with_sign("-2"), "-2");
    assert_eq!(with_sign("+3"), "+3");
    assert_eq!(with_sign(""), "+");
}

#[test]
fn int2str_matches_to_string_across_the_range() {
    for v in [0i64, 1, -1, 7, -42, 1000, 123456789, i64::MAX, i64::MIN, i64::MIN + 1] {
        assert_eq!(int2str(v), v.to_string());
        assert_eq!(int2str(v).parse::<i64>(), Ok(v));
    }
}
