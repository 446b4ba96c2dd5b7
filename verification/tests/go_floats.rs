use netquality::go_floats::{f32_bits_to_go_string, f64_bits_to_go_string};

#[test]
fn large_f32_to_go_string() {
    // Exponent 0xfe -> 2^(0xfe - 127) = 2^127
    let float = f32::from_bits(0x7f_00_00_00);
    let buf = f32_bits_to_go_string(float.to_bits());
    assert_eq!(buf, "+0x1.p127");
}

#[test]
fn large_f64_to_go_string() {
    // Exponent 0x7fe -> 2^(0x7fe - 1023) = 2^1023
    let float = f64::from_bits(0x7f_e0_00_00_00_00_00_00);
    let buf = f64_bits_to_go_string(float.to_bits());
    assert_eq!(buf, "+0x1.p1023");
}

#[test]
fn small_f32_to_go_string() {
    let buf = f32_bits_to_go_string(0.15625f32.to_bits());
    assert_eq!(buf, "+0x1.4p-3");
    let buf = f32_bits_to_go_string((-0.15625f32).to_bits());
    assert_eq!(buf, "-0x1.4p-3");
}

#[test]
fn small_f64_to_go_string() {
    let buf = f64_bits_to_go_string(0.15625f64.to_bits());
    assert_eq!(buf, "+0x1.4p-3");
    let buf = f64_bits_to_go_string((-0.15625f64).to_bits());
    assert_eq!(buf, "-0x1.4p-3");
}

#[test]
fn subnormal_f32_to_go_string() {
    // Exponent 2^(0-127)
    let float = f32::from_bits(1);
    assert!(float.is_sign_positive() && float.is_subnormal());
    let buf = f32_bits_to_go_string(float.to_bits());
    assert_eq!(buf, "+0x0.000002p-127");
}

#[test]
fn subnormal_f64_to_go_string() {
    // Exponent 2^(0-1023)
    let float = f64::from_bits(1);
    assert!(float.is_sign_positive() && float.is_subnormal());
    let buf = f64_bits_to_go_string(float.to_bits());
    assert_eq!(buf, "+0x0.0000000000001p-1023");
}

#[test]
fn nan_f32_to_go_string() {
    let float = f32::from_bits(0x7f_80_ca_fe);
    assert!(float.is_nan());
    let buf = f32_bits_to_go_string(float.to_bits());
    assert_eq!(buf, "NaN");
}

#[test]
fn nan_f64_to_go_string() {
    let float = f64::from_bits(0x7f_f0_00_00_ca_fe_ba_be);
    assert!(float.is_nan());
    let buf = f64_bits_to_go_string(float.to_bits());
    assert_eq!(buf, "NaN");
}

#[test]
fn one_f32_to_go_string() {
    let buf = f32_bits_to_go_string(1.0f32.to_bits());
    assert_eq!(buf, "+0x1.p0");
}

#[test]
fn one_f64_to_go_string() {
    let buf = f64_bits_to_go_string(1.0f64.to_bits());
    assert_eq!(buf, "+0x1.p0");
}

#[test]
fn zero_f32_to_go_string() {
    let buf = f32_bits_to_go_string(0.0f32.to_bits());
    assert_eq!(buf, "0");
}

#[test]
fn zero_f64_to_go_string() {
    let buf = f64_bits_to_go_string(0.0f64.to_bits());
    assert_eq!(buf, "0");
}

#[test]
fn inf_f32_to_go_string() {
    let float = f32::from_bits(0x7f_80_00_00);
    assert!(float.is_infinite() && float.is_sign_positive());
    let buf = f32_bits_to_go_string(float.to_bits());
    assert_eq!(buf, "+Inf");

    let float = f32::from_bits(0xff_80_00_00);
    assert!(float.is_infinite() && float.is_sign_negative());
    let buf = f32_bits_to_go_string(float.to_bits());
    assert_eq!(buf, "-Inf");
}

#[test]
fn inf_f64_to_go_string() {
    let float = f64::from_bits(0x7f_f0_00_00_00_00_00_00);
    assert!(float.is_infinite() && float.is_sign_positive());
    let buf = f64_bits_to_go_string(float.to_bits());
    assert_eq!(buf, "+Inf");

    let float = f64::from_bits(0xff_f0_00_00_00_00_00_00);
    assert!(float.is_infinite() && float.is_sign_negative());
    let buf = f64_bits_to_go_string(float.to_bits());
    assert_eq!(buf, "-Inf");
}

#[test]
fn negative_zero_f64_to_go_string() {
    let buf = f64_bits_to_go_string((-0.0f64).to_bits());
    assert_eq!(buf, "0");
}

#[test]
fn infinity_constant_to_go_string() {
    assert_eq!(f64_bits_to_go_string(f64::INFINITY.to_bits()), "+Inf");
    assert_eq!(f64_bits_to_go_string(f64::NAN.to_bits()), "NaN");
}
