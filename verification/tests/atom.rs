use sise::atom;

#[test]
fn test_encode_bool() {
    assert_eq!(atom::encode_bool(true), "true");
    assert_eq!(atom::encode_bool(false), "false");
}

#[test]
fn test_encode_i8() {
    assert_eq!(atom::encode_i8(0), "0");
    assert_eq!(atom::encode_i8(1), "1");
    assert_eq!(atom::encode_i8(-1), "-1");
    assert_eq!(atom::encode_i8(127), "127");
    assert_eq!(atom::encode_i8(-128), "-128");
}

#[test]
fn test_encode_i16() {
    assert_eq!(atom::encode_i16(0), "0");
    assert_eq!(atom::encode_i16(1), "1");
    assert_eq!(atom::encode_i16(-1), "-1");
    assert_eq!(atom::encode_i16(32767), "32767");
    assert_eq!(atom::encode_i16(-32768), "-32768");
}

#[test]
fn test_encode_i32() {
    assert_eq!(atom::encode_i32(0), "0");
    assert_eq!(atom::encode_i32(1), "1");
    assert_eq!(atom::encode_i32(-1), "-1");
    assert_eq!(atom::encode_i32(2147483647), "2147483647");
    assert_eq!(atom::encode_i32(-2147483648), "-2147483648");
}

#[test]
fn test_encode_i64() {
    assert_eq!(atom::encode_i64(0), "0");
    assert_eq!(atom::encode_i64(1), "1");
    assert_eq!(atom::encode_i64(-1), "-1");
    assert_eq!(atom::encode_i64(9223372036854775807), "9223372036854775807");
    assert_eq!(atom::encode_i64(-9223372036854775808), "-9223372036854775808");
}

#[test]
fn test_encode_i128() {
    assert_eq!(atom::encode_i128(0), "0");
    assert_eq!(atom::encode_i128(1), "1");
    assert_eq!(atom::encode_i128(-1), "-1");
    assert_eq!(atom::encode_i128(170141183460469231731687303715884105727),
               "170141183460469231731687303715884105727");
    assert_eq!(atom::encode_i128(-170141183460469231731687303715884105728),
               "-170141183460469231731687303715884105728");
}

#[test]
fn test_encode_u8() {
    assert_eq!(atom::encode_u8(0), "0");
    assert_eq!(atom::encode_u8(1), "1");
    assert_eq!(atom::encode_u8(255), "255");
}

#[test]
fn test_encode_u16() {
    assert_eq!(atom::encode_u16(0), "0");
    assert_eq!(atom::encode_u16(1), "1");
    assert_eq!(atom::encode_u16(65535), "65535");
}

#[test]
fn test_encode_u32() {
    assert_eq!(atom::encode_u32(0), "0");
    assert_eq!(atom::encode_u32(1), "1");
    assert_eq!(atom::encode_u32(4294967295), "4294967295");
}

#[test]
fn test_encode_u64() {
    assert_eq!(atom::encode_u64(0), "0");
    assert_eq!(atom::encode_u64(1), "1");
    assert_eq!(atom::encode_u64(18446744073709551615), "18446744073709551615");
}

#[test]
fn test_encode_u128() {
    assert_eq!(atom::encode_u128(0), "0");
    assert_eq!(atom::encode_u128(1), "1");
    assert_eq!(atom::encode_u128(340282366920938463463374607431768211455),
               "340282366920938463463374607431768211455");
}

#[test]
fn test_encode_byte_string() {
    assert_eq!(atom::encode_byte_string(b""), r#""""#);
    assert_eq!(atom::encode_byte_string(b"\x20\x7E"), r#"" ~""#);
    assert_eq!(atom::encode_byte_string(b" \t "), r#"" \t ""#);
    assert_eq!(atom::encode_byte_string(b" \n "), r#"" \n ""#);
    assert_eq!(atom::encode_byte_string(b" \" "), r#"" \" ""#);
    assert_eq!(atom::encode_byte_string(b" \\ "), r#"" \\ ""#);
    assert_eq!(atom::encode_byte_string(b" \x00 "), r#"" \x00 ""#);
    assert_eq!(atom::encode_byte_string(b" \xFF "), r#"" \xff ""#);
}

#[test]
fn test_encode_ascii_string() {
    assert_eq!(atom::encode_ascii_string(""), r#""""#);
    assert_eq!(atom::encode_ascii_string("\x20\x7E"), r#"" ~""#);
    assert_eq!(atom::encode_ascii_string(" \t "), r#"" \t ""#);
    assert_eq!(atom::encode_ascii_string(" \n "), r#"" \n ""#);
    assert_eq!(atom::encode_ascii_string(" \" "), r#"" \" ""#);
    assert_eq!(atom::encode_ascii_string(" \\ "), r#"" \\ ""#);
    assert_eq!(atom::encode_ascii_string(" \x00 "), r#"" \x00 ""#);
    assert_eq!(atom::encode_ascii_string(" \x7F "), r#"" \x7f ""#);
}

#[test]
fn test_encode_utf8_string() {
    assert_eq!(atom::encode_utf8_string(""), r#""""#);
    assert_eq!(atom::encode_utf8_string("\x20\x7E"), r#"" ~""#);
    assert_eq!(atom::encode_utf8_string(" \t "), r#"" \t ""#);
    assert_eq!(atom::encode_utf8_string(" \n "), r#"" \n ""#);
    assert_eq!(atom::encode_utf8_string(" \" "), r#"" \" ""#);
    assert_eq!(atom::encode_utf8_string(" \\ "), r#"" \\ ""#);
    assert_eq!(atom::encode_utf8_string(" \x00 "), r#"" \u{0} ""#);
    assert_eq!(atom::encode_utf8_string(" \x7F "), r#"" \u{7f} ""#);
    assert_eq!(atom::encode_utf8_string(" \u{FFFD} "), r#"" \u{fffd} ""#);
}


#[test]
fn test_decode_bool() {
    assert_eq!(atom::decode_bool("true"), Some(true));
    assert_eq!(atom::decode_bool("false"), Some(false));

    assert_eq!(atom::decode_bool(""), None);
    assert_eq!(atom::decode_bool("TRUE"), None);
    assert_eq!(atom::decode_bool("FALSE"), None);
    assert_eq!(atom::decode_bool("abc"), None);
}

#[test]
fn test_decode_i8() {
    assert_eq!(atom::decode_i8("0"), Some(0));
    assert_eq!(atom::decode_i8("-0"), Some(0));
    assert_eq!(atom::decode_i8("+0"), Some(0));
    assert_eq!(atom::decode_i8("1"), Some(1));
    assert_eq!(atom::decode_i8("-1"), Some(-1));
    assert_eq!(atom::decode_i8("+1"), Some(1));

    assert_eq!(atom::decode_i8("-128"), Some(-128));
    assert_eq!(atom::decode_i8("127"), Some(127));
    assert_eq!(atom::decode_i8("-127"), Some(-127));

    assert_eq!(atom::decode_i8(""), None);
    assert_eq!(atom::decode_i8("-129"), None);
    assert_eq!(atom::decode_i8("128"), None);
}

#[test]
fn test_decode_i16() {
    assert_eq!(atom::decode_i16("0"), Some(0));
    assert_eq!(atom::decode_i16("-0"), Some(0));
    assert_eq!(atom::decode_i16("+0"), Some(0));
    assert_eq!(atom::decode_i16("1"), Some(1));
    assert_eq!(atom::decode_i16("-1"), Some(-1));
    assert_eq!(atom::decode_i16("+1"), Some(1));

    assert_eq!(atom::decode_i16("-32768"), Some(-32768));
    assert_eq!(atom::decode_i16("32767"), Some(32767));
    assert_eq!(atom::decode_i16("-32767"), Some(-32767));

    assert_eq!(atom::decode_i16(""), None);
    assert_eq!(atom::decode_i16("-32769"), None);
    assert_eq!(atom::decode_i16("32768"), None);
}

#[test]
fn test_decode_i32() {
    assert_eq!(atom::decode_i32("0"), Some(0));
    assert_eq!(atom::decode_i32("-0"), Some(0));
    assert_eq!(atom::decode_i32("+0"), Some(0));
    assert_eq!(atom::decode_i32("1"), Some(1));
    assert_eq!(atom::decode_i32("-1"), Some(-1));
    assert_eq!(atom::decode_i32("+1"), Some(1));

    assert_eq!(atom::decode_i32("-2147483648"), Some(-2147483648));
    assert_eq!(atom::decode_i32("2147483647"), Some(2147483647));
    assert_eq!(atom::decode_i32("-2147483647"), Some(-2147483647));

    assert_eq!(atom::decode_i32(""), None);
    assert_eq!(atom::decode_i32("-2147483649"), None);
    assert_eq!(atom::decode_i32("2147483648"), None);
}

#[test]
fn test_decode_i64() {
    assert_eq!(atom::decode_i64("0"), Some(0));
    assert_eq!(atom::decode_i64("-0"), Some(0));
    assert_eq!(atom::decode_i64("+0"), Some(0));
    assert_eq!(atom::decode_i64("1"), Some(1));
    assert_eq!(atom::decode_i64("-1"), Some(-1));
    assert_eq!(atom::decode_i64("+1"), Some(1));

    assert_eq!(atom::decode_i64("-9223372036854775808"), Some(-9223372036854775808));
    assert_eq!(atom::decode_i64("9223372036854775807"), Some(9223372036854775807));
    assert_eq!(atom::decode_i64("-9223372036854775807"), Some(-9223372036854775807));

    assert_eq!(atom::decode_i64(""), None);
    assert_eq!(atom::decode_i64("-9223372036854775809"), None);
    assert_eq!(atom::decode_i64("9223372036854775808"), None);
}

#[test]
fn test_decode_i128() {
    assert_eq!(atom::decode_i128("0"), Some(0));
    assert_eq!(atom::decode_i128("-0"), Some(0));
    assert_eq!(atom::decode_i128("+0"), Some(0));
    assert_eq!(atom::decode_i128("1"), Some(1));
    assert_eq!(atom::decode_i128("-1"), Some(-1));
    assert_eq!(atom::decode_i128("+1"), Some(1));

    assert_eq!(atom::decode_i128("-170141183460469231731687303715884105728"),
               Some(-170141183460469231731687303715884105728));
    assert_eq!(atom::decode_i128("170141183460469231731687303715884105727"),
               Some(170141183460469231731687303715884105727));
    assert_eq!(atom::decode_i128("-170141183460469231731687303715884105727"),
               Some(-170141183460469231731687303715884105727));

    assert_eq!(atom::decode_i128(""), None);
    assert_eq!(atom::decode_i128("-170141183460469231731687303715884105729"), None);
    assert_eq!(atom::decode_i128("170141183460469231731687303715884105728"), None);
}

#[test]
fn test_decode_u8() {
    assert_eq!(atom::decode_u8("0"), Some(0));
    assert_eq!(atom::decode_u8("1"), Some(1));

    assert_eq!(atom::decode_u8("255"), Some(255));

    assert_eq!(atom::decode_u8(""), None);
    assert_eq!(atom::decode_u8("256"), None);
}

#[test]
fn test_decode_u16() {
    assert_eq!(atom::decode_u16("0"), Some(0));
    assert_eq!(atom::decode_u16("1"), Some(1));

    assert_eq!(atom::decode_u16("65535"), Some(65535));

    assert_eq!(atom::decode_u16(""), None);
    assert_eq!(atom::decode_u16("65536"), None);
}

#[test]
fn test_decode_u32() {
    assert_eq!(atom::decode_u32("0"), Some(0));
    assert_eq!(atom::decode_u32("1"), Some(1));

    assert_eq!(atom::decode_u32("4294967295"), Some(4294967295));

    assert_eq!(atom::decode_u32(""), None);
    assert_eq!(atom::decode_u32("4294967296"), None);
}

#[test]
fn test_decode_u64() {
    assert_eq!(atom::decode_u64("0"), Some(0));
    assert_eq!(atom::decode_u64("1"), Some(1));

    assert_eq!(atom::decode_u64("18446744073709551615"), Some(18446744073709551615));

    assert_eq!(atom::decode_u64(""), None);
    assert_eq!(atom::decode_u64("18446744073709551616"), None);
}

#[test]
fn test_decode_u128() {
    assert_eq!(atom::decode_u128("0"), Some(0));
    assert_eq!(atom::decode_u128("1"), Some(1));

    assert_eq!(atom::decode_u128("340282366920938463463374607431768211455"),
               Some(340282366920938463463374607431768211455));

    assert_eq!(atom::decode_u128(""), None);
    assert_eq!(atom::decode_u128("340282366920938463463374607431768211456"), None);
}

#[test]
fn test_decode_byte_string() {
    assert_eq!(atom::decode_byte_string(r#""""#).unwrap(), b"");
    assert_eq!(atom::decode_byte_string(r#""123""#).unwrap(), b"123");
    assert_eq!(atom::decode_byte_string(r#"" \\ ""#).unwrap(), b" \\ ");
    assert_eq!(atom::decode_byte_string(r#"" \" ""#).unwrap(), b" \" ");
    assert_eq!(atom::decode_byte_string(r#"" \r\n\t ""#).unwrap(), b" \r\n\t ");
    assert_eq!(atom::decode_byte_string(r#"" \x00\xFF ""#).unwrap(), b" \x00\xFF ");
    assert_eq!(atom::decode_byte_string(r#"" \xaB\xCd ""#).unwrap(), b" \xAB\xCD ");

    assert_eq!(atom::decode_byte_string(""), None);
    assert_eq!(atom::decode_byte_string(r#"""#), None);
    assert_eq!(atom::decode_byte_string(r#""" "#), None);
    assert_eq!(atom::decode_byte_string(r#""\""#), None);
    assert_eq!(atom::decode_byte_string(r#"" \M ""#), None);
    assert_eq!(atom::decode_byte_string(r#"" \xT0 ""#), None);
    assert_eq!(atom::decode_byte_string(r#"" \x0T ""#), None);
}

#[test]
fn test_decode_ascii_string() {
    assert_eq!(atom::decode_ascii_string(r#""""#).unwrap(), "");
    assert_eq!(atom::decode_ascii_string(r#""123""#).unwrap(), "123");
    assert_eq!(atom::decode_ascii_string(r#"" \\ ""#).unwrap(), " \\ ");
    assert_eq!(atom::decode_ascii_string(r#"" \" ""#).unwrap(), " \" ");
    assert_eq!(atom::decode_ascii_string(r#"" \r\n\t ""#).unwrap(), " \r\n\t ");
    assert_eq!(atom::decode_ascii_string(r#"" \x00\x7F ""#).unwrap(), " \x00\x7F ");
    assert_eq!(atom::decode_ascii_string(r#"" \x1B\x1d ""#).unwrap(), " \x1B\x1D ");

    assert_eq!(atom::decode_ascii_string(""), None);
    assert_eq!(atom::decode_ascii_string("\" \u{FF} \""), None);
    assert_eq!(atom::decode_ascii_string(r#"""#), None);
    assert_eq!(atom::decode_ascii_string(r#""" "#), None);
    assert_eq!(atom::decode_ascii_string(r#""\""#), None);
    assert_eq!(atom::decode_ascii_string(r#"" \M ""#), None);
    assert_eq!(atom::decode_ascii_string(r#"" \xT0 ""#), None);
    assert_eq!(atom::decode_ascii_string(r#"" \x0T ""#), None);
    assert_eq!(atom::decode_ascii_string(r#"" \x80 ""#), None);
}

#[test]
fn test_decode_utf8_string() {
    assert_eq!(atom::decode_utf8_string(r#""""#).unwrap(), "");
    assert_eq!(atom::decode_utf8_string(r#""123""#).unwrap(), "123");
    assert_eq!(atom::decode_utf8_string(r#"" \\ ""#).unwrap(), " \\ ");
    assert_eq!(atom::decode_utf8_string(r#"" \" ""#).unwrap(), " \" ");
    assert_eq!(atom::decode_utf8_string(r#"" \r\n\t ""#).unwrap(), " \r\n\t ");
    assert_eq!(atom::decode_utf8_string(r#"" \x00\x7F ""#).unwrap(), " \x00\x7F ");
    assert_eq!(atom::decode_utf8_string(r#"" \x1B\x1d ""#).unwrap(), " \x1B\x1D ");
    assert_eq!(atom::decode_utf8_string("\" \u{FF} \"").unwrap(), " \u{FF} ");
    assert_eq!(atom::decode_utf8_string(r#"" \u{FF} ""#).unwrap(), " \u{FF} ");
    assert_eq!(atom::decode_utf8_string(r#"" \u{ff} ""#).unwrap(), " \u{FF} ");

    assert_eq!(atom::decode_utf8_string(""), None);
    assert_eq!(atom::decode_utf8_string(r#"""#), None);
    assert_eq!(atom::decode_utf8_string(r#""" "#), None);
    assert_eq!(atom::decode_utf8_string(r#""\""#), None);
    assert_eq!(atom::decode_utf8_string(r#"" \M ""#), None);
    assert_eq!(atom::decode_utf8_string(r#"" \xT0 ""#), None);
    assert_eq!(atom::decode_utf8_string(r#"" \x0T ""#), None);
    assert_eq!(atom::decode_utf8_string(r#"" \x80 ""#), None);
}
