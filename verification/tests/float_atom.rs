use sise::float_atom::{decode_float_atom, encode_float, encode_float_into, DecodedFloat, FloatAtom};

// The floating-point side of float atoms, as an application does it.
/// The shortest decimal digits and exponent of a finite nonzero `value`,
/// from its shortest scientific notation (`d.ddde±x`).
fn shortest_digits(scientific: &str) -> (Vec<u8>, i16) {
    let (mantissa, exp) = scientific.split_once('e').expect("scientific notation");
    let digits: Vec<u8> = mantissa.bytes().filter(|b| b.is_ascii_digit()).collect();
    assert!(!digits.is_empty(), "no digits in {:?}", scientific);
    let exp: i16 = exp.parse::<i16>().expect("exponent") + 1;
    (digits, exp)
}

fn decoded_f32(value: f32) -> DecodedFloat {
    if value.is_nan() {
        DecodedFloat::Nan
    } else if value.is_infinite() {
        DecodedFloat::Infinite { negative: value < 0.0 }
    } else if value == 0.0 {
        DecodedFloat::Zero
    } else {
        let (digits, exp) = shortest_digits(&format!("{:e}", value.abs()));
        DecodedFloat::Finite { negative: value.is_sign_negative(), digits, exp }
    }
}

fn decoded_f64(value: f64) -> DecodedFloat {
    if value.is_nan() {
        DecodedFloat::Nan
    } else if value.is_infinite() {
        DecodedFloat::Infinite { negative: value < 0.0 }
    } else if value == 0.0 {
        DecodedFloat::Zero
    } else {
        let (digits, exp) = shortest_digits(&format!("{:e}", value.abs()));
        DecodedFloat::Finite { negative: value.is_sign_negative(), digits, exp }
    }
}

fn encode_f32_into(value: f32, output: &mut String) {
    encode_float_into(&decoded_f32(value), output);
}

fn encode_f32(value: f32) -> String {
    let mut output = String::new();
    encode_f32_into(value, &mut output);
    output
}

fn encode_f64_into(value: f64, output: &mut String) {
    encode_float_into(&decoded_f64(value), output);
}

fn encode_f64(value: f64) -> String {
    let mut output = String::new();
    encode_f64_into(value, &mut output);
    output
}

/// The decimal text `integral.fractional e exp` in the syntax that
/// `str::parse` takes.
fn decimal_text(integral: &str, fractional: &str, exp: i64) -> String {
    let integral = if integral.is_empty() { "0" } else { integral };
    let fractional = if fractional.is_empty() { "0" } else { fractional };
    format!("{}.{}e{}", integral, fractional, exp)
}

fn decode_f32(atom: &str) -> Option<f32> {
    match decode_float_atom(atom)? {
        FloatAtom::NaN => Some(f32::NAN),
        FloatAtom::Infinity => Some(f32::INFINITY),
        FloatAtom::NegInfinity => Some(f32::NEG_INFINITY),
        FloatAtom::Zero => Some(0.0),
        FloatAtom::Decimal { negative, integral, fractional, exp } => {
            let r: f32 = decimal_text(&integral, &fractional, exp).parse().ok()?;
            if r.is_finite() {
                Some(if negative { -r } else { r })
            } else {
                None
            }
        }
    }
}

fn decode_f64(atom: &str) -> Option<f64> {
    match decode_float_atom(atom)? {
        FloatAtom::NaN => Some(f64::NAN),
        FloatAtom::Infinity => Some(f64::INFINITY),
        FloatAtom::NegInfinity => Some(f64::NEG_INFINITY),
        FloatAtom::Zero => Some(0.0),
        FloatAtom::Decimal { negative, integral, fractional, exp } => {
            let r: f64 = decimal_text(&integral, &fractional, exp).parse().ok()?;
            if r.is_finite() {
                Some(if negative { -r } else { r })
            } else {
                None
            }
        }
    }
}


#[test]
fn test_encode_f32() {
    assert_eq!(encode_f32(f32::NAN), "NaN");
    assert_eq!(encode_f32(f32::INFINITY), "inf");
    assert_eq!(encode_f32(f32::NEG_INFINITY), "-inf");

    assert_eq!(encode_f32(0.0), "0.0");
    assert_eq!(encode_f32(1.0), "1.0");
    assert_eq!(encode_f32(-1.0), "-1.0");
    assert_eq!(encode_f32(10.0), "10.0");
    assert_eq!(encode_f32(100.0), "100.0");
    assert_eq!(encode_f32(1.0e10), "1.0e10");
    assert_eq!(encode_f32(0.1), "0.1");
    assert_eq!(encode_f32(0.01), "0.01");
    assert_eq!(encode_f32(0.001), "0.001");
    assert_eq!(encode_f32(0.0001), "0.0001");
    assert_eq!(encode_f32(0.00001), "0.00001");
    assert_eq!(encode_f32(10.1), "10.1");
    assert_eq!(encode_f32(10.101), "10.101");
    assert_eq!(encode_f32(10.101), "10.101");
    assert_eq!(encode_f32(3.402823e38), "3.402823e38");
    assert_eq!(encode_f32(1.175494e-38), "1.175494e-38");
}

#[test]
fn test_encode_f64() {
    assert_eq!(encode_f64(f64::NAN), "NaN");
    assert_eq!(encode_f64(f64::INFINITY), "inf");
    assert_eq!(encode_f64(f64::NEG_INFINITY), "-inf");

    assert_eq!(encode_f64(0.0), "0.0");
    assert_eq!(encode_f64(1.0), "1.0");
    assert_eq!(encode_f64(-1.0), "-1.0");
    assert_eq!(encode_f64(10.0), "10.0");
    assert_eq!(encode_f64(100.0), "100.0");
    assert_eq!(encode_f64(1.0e10), "1.0e10");
    assert_eq!(encode_f64(0.1), "0.1");
    assert_eq!(encode_f64(0.01), "0.01");
    assert_eq!(encode_f64(0.001), "0.001");
    assert_eq!(encode_f64(0.0001), "0.0001");
    assert_eq!(encode_f64(0.00001), "0.00001");
    assert_eq!(encode_f64(10.1), "10.1");
    assert_eq!(encode_f64(10.101), "10.101");
    assert_eq!(encode_f64(10.0000001), "10.0000001");
    assert_eq!(encode_f64(1234.5678), "1234.5678");
    assert_eq!(encode_f64(4.591856e50), "4.591856e50");
    assert_eq!(encode_f64(4.591856e-50), "4.591856e-50");
    assert_eq!(encode_f64(4.80144468355317e-300), "4.80144468355317e-300");
    assert_eq!(encode_f64(4.80144468355317e+300), "4.80144468355317e300");
    assert_eq!(encode_f64(1.2e-315), "1.2e-315");
    assert_eq!(encode_f64(1.7976931348623157e+308), "1.7976931348623157e308");
    assert_eq!(encode_f64(2.2250738585072014e-308), "2.2250738585072014e-308");
    assert_eq!(encode_f64(5.0e-324), "5.0e-324");
}

#[test]
fn test_decode_f32() {
    fn approx(x: f32, y: f32) -> bool {
        (x - y).abs() < (1.0 * f32::EPSILON * f32::max(x.abs(), y.abs()))
    }

    assert!(decode_f32("NaN").unwrap().is_nan());
    assert_eq!(decode_f32("inf"), Some(f32::INFINITY));
    assert_eq!(decode_f32("+inf"), Some(f32::INFINITY));
    assert_eq!(decode_f32("-inf"), Some(f32::NEG_INFINITY));

    assert_eq!(decode_f32("0"), Some(0.0));
    assert_eq!(decode_f32("0.0"), Some(0.0));
    assert_eq!(decode_f32("1"), Some(1.0));
    assert_eq!(decode_f32("1.0"), Some(1.0));
    assert_eq!(decode_f32("-1"), Some(-1.0));
    assert_eq!(decode_f32("-1.0"), Some(-1.0));
    assert_eq!(decode_f32("+1"), Some(1.0));
    assert_eq!(decode_f32("+1.0"), Some(1.0));
    assert_eq!(decode_f32(".0"), Some(0.0));
    assert_eq!(decode_f32("+.0"), Some(0.0));
    assert_eq!(decode_f32("-.0"), Some(0.0));
    assert_eq!(decode_f32("0."), Some(0.0));
    assert_eq!(decode_f32("+0."), Some(0.0));
    assert_eq!(decode_f32("-0."), Some(0.0));

    assert!(approx(decode_f32("1.1").unwrap(), 1.1));
    assert!(approx(decode_f32("1e2").unwrap(), 1.0e2));
    assert!(approx(decode_f32("1E2").unwrap(), 1.0e2));
    assert!(approx(decode_f32("1.e1").unwrap(), 1.0e1));
    assert!(approx(decode_f32("1.E1").unwrap(), 1.0e1));
    assert!(approx(decode_f32(".1e1").unwrap(), 0.1e1));
    assert!(approx(decode_f32(".1E1").unwrap(), 0.1e1));
    assert!(approx(decode_f32("1.1e2").unwrap(), 1.1e2));
    assert!(approx(decode_f32("1.1e+2").unwrap(), 1.1e2));
    assert!(approx(decode_f32("1.1e-2").unwrap(), 1.1e-2));
    assert!(approx(decode_f32("123e-20").unwrap(), 123.0e-20));
    assert!(approx(decode_f32("123e+20").unwrap(), 123.0e20));
    assert!(approx(decode_f32("1000000000000").unwrap(), 1000000000000.0));
    assert!(approx(decode_f32("0.000000000001").unwrap(), 0.000000000001));
    assert!(approx(decode_f32("1.23456789").unwrap(), 1.23456789));
    assert!(approx(decode_f32("480.1444").unwrap(), 480.1444));
    assert!(approx(decode_f32("480.1444e-30").unwrap(), 480.1444e-30));
    assert!(approx(decode_f32("480.1444e+30").unwrap(), 480.1444e+30));

    assert_eq!(decode_f32("0e99999999999999999"), Some(0.0));
    assert_eq!(decode_f32("1e-99999999999999999"), Some(0.0));
    assert_eq!(decode_f32("0e9999999999999999999999999999999999"), Some(0.0));
    assert_eq!(decode_f32("1e-9999999999999999999999999999999999"), Some(0.0));

    assert_eq!(decode_f32(""), None);
    assert_eq!(decode_f32("."), None);
    assert_eq!(decode_f32("+."), None);
    assert_eq!(decode_f32("-."), None);
    assert_eq!(decode_f32("e1"), None);
    assert_eq!(decode_f32("E1"), None);
    assert_eq!(decode_f32("+e1"), None);
    assert_eq!(decode_f32("+E1"), None);
    assert_eq!(decode_f32("-e1"), None);
    assert_eq!(decode_f32("-E1"), None);
    assert_eq!(decode_f32("1e1000"), None);
    assert_eq!(decode_f32("1e9999999999999999999999999999999999"), None);
    assert_eq!(decode_f32("1e"), None);
    assert_eq!(decode_f32("1E"), None);
}

#[test]
fn test_decode_f64() {
    fn approx(x: f64, y: f64) -> bool {
        (x - y).abs() < (1.0 * f64::EPSILON * f64::max(x.abs(), y.abs()))
    }

    assert!(decode_f64("NaN").unwrap().is_nan());
    assert_eq!(decode_f64("inf"), Some(f64::INFINITY));
    assert_eq!(decode_f64("+inf"), Some(f64::INFINITY));
    assert_eq!(decode_f64("-inf"), Some(f64::NEG_INFINITY));

    assert_eq!(decode_f64("0"), Some(0.0));
    assert_eq!(decode_f64("0.0"), Some(0.0));
    assert_eq!(decode_f64("1"), Some(1.0));
    assert_eq!(decode_f64("1.0"), Some(1.0));
    assert_eq!(decode_f64("-1"), Some(-1.0));
    assert_eq!(decode_f64("-1.0"), Some(-1.0));
    assert_eq!(decode_f64("+1"), Some(1.0));
    assert_eq!(decode_f64("+1.0"), Some(1.0));
    assert_eq!(decode_f64(".0"), Some(0.0));
    assert_eq!(decode_f64("+.0"), Some(0.0));
    assert_eq!(decode_f64("-.0"), Some(0.0));
    assert_eq!(decode_f64("0."), Some(0.0));
    assert_eq!(decode_f64("+0."), Some(0.0));
    assert_eq!(decode_f64("-0."), Some(0.0));

    assert!(approx(decode_f64("1.1").unwrap(), 1.1));
    assert!(approx(decode_f64("1e2").unwrap(), 1.0e2));
    assert!(approx(decode_f64("1E2").unwrap(), 1.0e2));
    assert!(approx(decode_f64("1.e1").unwrap(), 1.0e1));
    assert!(approx(decode_f64("1.E1").unwrap(), 1.0e1));
    assert!(approx(decode_f64(".1e1").unwrap(), 0.1e1));
    assert!(approx(decode_f64(".1E1").unwrap(), 0.1e1));
    assert!(approx(decode_f64("1.1e2").unwrap(), 1.1e2));
    assert!(approx(decode_f64("1.1e+2").unwrap(), 1.1e2));
    assert!(approx(decode_f64("1.1e-2").unwrap(), 1.1e-2));
    assert!(approx(decode_f64("123e-90").unwrap(), 123.0e-90));
    assert!(approx(decode_f64("123e+90").unwrap(), 123.0e90));
    assert!(approx(decode_f64("1000000000000").unwrap(), 1000000000000.0));
    assert!(approx(decode_f64("0.000000000001").unwrap(), 0.000000000001));
    assert!(approx(decode_f64("1.23456789").unwrap(), 1.23456789));
    assert!(approx(decode_f64("1.2345678987654321").unwrap(), 1.2345678987654321));
    assert!(approx(decode_f64("480.144468355317204515627862").unwrap(), 480.144468355317204515627862));
    assert!(approx(decode_f64("480.144468355317204515627862e-250").unwrap(), 480.144468355317204515627862e-250));
    assert!(approx(decode_f64("480.144468355317204515627862e+250").unwrap(), 480.144468355317204515627862e+250));

    assert_eq!(decode_f64("0e99999999999999999"), Some(0.0));
    assert_eq!(decode_f64("1e-99999999999999999"), Some(0.0));
    assert_eq!(decode_f64("0e9999999999999999999999999999999999"), Some(0.0));
    assert_eq!(decode_f64("1e-9999999999999999999999999999999999"), Some(0.0));

    assert_eq!(decode_f64(""), None);
    assert_eq!(decode_f64("."), None);
    assert_eq!(decode_f64("+."), None);
    assert_eq!(decode_f64("-."), None);
    assert_eq!(decode_f64("e1"), None);
    assert_eq!(decode_f64("E1"), None);
    assert_eq!(decode_f64("+e1"), None);
    assert_eq!(decode_f64("+E1"), None);
    assert_eq!(decode_f64("-e1"), None);
    assert_eq!(decode_f64("-E1"), None);
    assert_eq!(decode_f64("1e1000"), None);
    assert_eq!(decode_f64("1e9999999999999999999999999999999999"), None);
    assert_eq!(decode_f64("1e"), None);
    assert_eq!(decode_f64("1E"), None);
}

fn dec(negative: bool, integral: &str, fractional: &str, exp: i64) -> Option<FloatAtom> {
    Some(FloatAtom::Decimal {
        negative,
        integral: integral.to_string(),
        fractional: fractional.to_string(),
        exp,
    })
}

#[test]
fn test_decode_float_atom_text() {
    assert_eq!(decode_float_atom("NaN"), Some(FloatAtom::NaN));
    assert_eq!(decode_float_atom("+inf"), Some(FloatAtom::Infinity));
    assert_eq!(decode_float_atom("-inf"), Some(FloatAtom::NegInfinity));
    assert_eq!(decode_float_atom("-0."), Some(FloatAtom::Zero));
    assert_eq!(decode_float_atom("000.000e5"), Some(FloatAtom::Zero));
    assert_eq!(decode_float_atom("1e-100000000000000000"), Some(FloatAtom::Zero));
    assert_eq!(decode_float_atom("1e100000000000000000"), None);
    assert_eq!(decode_float_atom("1e99999999999999999"), dec(false, "1", "", 99999999999999999));
    assert_eq!(decode_float_atom("-12.50E-3"), dec(true, "12", "50", -3));
    assert_eq!(decode_float_atom(".5"), dec(false, "", "5", 0));
    assert_eq!(decode_float_atom("7."), dec(false, "7", "", 0));
    assert_eq!(decode_float_atom("+0.1e+1"), dec(false, "0", "1", 1));
    assert_eq!(decode_float_atom("1.5.2"), None);
    assert_eq!(decode_float_atom("1e5.2"), None);
    assert_eq!(decode_float_atom("1e+"), None);
    assert_eq!(decode_float_atom("nan"), None);
    assert_eq!(decode_float_atom("inf "), None);
    assert_eq!(decode_float_atom("--1"), None);
}

#[test]
fn test_encode_float_text() {
    let f = |negative: bool, digits: &str, exp: i16| DecodedFloat::Finite {
        negative,
        digits: digits.as_bytes().to_vec(),
        exp,
    };
    assert_eq!(encode_float(&DecodedFloat::Nan), "NaN");
    assert_eq!(encode_float(&DecodedFloat::Infinite { negative: true }), "-inf");
    assert_eq!(encode_float(&DecodedFloat::Zero), "0.0");
    assert_eq!(encode_float(&f(false, "15", 1)), "1.5");
    assert_eq!(encode_float(&f(true, "15", 0)), "-0.15");
    assert_eq!(encode_float(&f(false, "15", -9)), "0.00000000015");
    assert_eq!(encode_float(&f(false, "15", -10)), "1.5e-11");
    assert_eq!(encode_float(&f(false, "7", -10)), "7.0e-11");
    assert_eq!(encode_float(&f(false, "15", 9)), "150000000.0");
    assert_eq!(encode_float(&f(false, "15", 10)), "1.5e9");
    assert_eq!(encode_float(&f(false, "12345", 3)), "123.45");
    let mut out = String::from("x=");
    encode_float_into(&f(false, "2", 1), &mut out);
    assert_eq!(out, "x=2.0");
}

#[test]
fn test_float_text_reads_back() {
    let f = |negative: bool, digits: &str, exp: i16| DecodedFloat::Finite {
        negative,
        digits: digits.as_bytes().to_vec(),
        exp,
    };
    assert_eq!(decode_float_atom(&encode_float(&DecodedFloat::Nan)), Some(FloatAtom::NaN));
    assert_eq!(
        decode_float_atom(&encode_float(&DecodedFloat::Infinite { negative: true })),
        Some(FloatAtom::NegInfinity)
    );
    assert_eq!(decode_float_atom(&encode_float(&DecodedFloat::Zero)), Some(FloatAtom::Zero));
    // 0.15 × 10^-10 is written 1.5e-11: 1.5 × 10^-11.
    assert_eq!(decode_float_atom(&encode_float(&f(false, "15", -10))), dec(false, "1", "5", -11));
    // 0.7 × 10^10 is written 7.0e9.
    assert_eq!(decode_float_atom(&encode_float(&f(true, "7", 10))), dec(true, "7", "0", 9));
    // 0.12 × 10^5 is written 12000.0.
    assert_eq!(decode_float_atom(&encode_float(&f(false, "12", 5))), dec(false, "12000", "0", 0));
    // 0.123 × 10^1 is written 1.23.
    assert_eq!(decode_float_atom(&encode_float(&f(false, "123", 1))), dec(false, "1", "23", 0));
    // 0.5 × 10^-2 is written 0.005.
    assert_eq!(decode_float_atom(&encode_float(&f(false, "5", -2))), dec(false, "0", "005", 0));
}
