//! Order checks for floats around the delicate spots: signed zeros,
//! neighbouring representable values, infinities and NaN.

use bytekey::Encoder;

fn encode_f32(v: f32) -> Vec<u8> {
    let mut e = Encoder::new();
    e.emit_f32_bits(v.to_bits());
    e.into_bytes()
}

fn encode_f64(v: f64) -> Vec<u8> {
    let mut e = Encoder::new();
    e.emit_f64_bits(v.to_bits());
    e.into_bytes()
}

/// The next representable `f32` strictly closer to zero.
fn f32_toward_zero(v: f32) -> f32 {
    f32::from_bits(v.to_bits() - 1)
}

/// The next representable `f32` strictly further from zero.
fn f32_away_from_zero(v: f32) -> f32 {
    f32::from_bits(v.to_bits() + 1)
}

fn f64_toward_zero(v: f64) -> f64 {
    f64::from_bits(v.to_bits() - 1)
}

fn f64_away_from_zero(v: f64) -> f64 {
    f64::from_bits(v.to_bits() + 1)
}

#[test]
fn test_f32() {
    assert!(encode_f32(f32::NEG_INFINITY) < encode_f32(f32::MIN));
    assert!(encode_f32(f32::MIN) < encode_f32(f32_toward_zero(f32::MIN)));

    assert!(encode_f32(f32_away_from_zero(-0.0f32)) < encode_f32(-0.0f32));
    assert!(encode_f32(-0f32) < encode_f32(0f32));
    assert!(encode_f32(0f32) < encode_f32(f32::MIN_POSITIVE));

    assert!(encode_f32(f32_toward_zero(f32::MAX)) < encode_f32(f32::MAX));
    assert!(encode_f32(f32::MAX) < encode_f32(f32::INFINITY));
    assert!(encode_f32(f32::INFINITY) < encode_f32(f32::NAN));
}

#[test]
fn test_f64() {
    assert!(encode_f64(f64::NEG_INFINITY) < encode_f64(f64::MIN));
    assert!(encode_f64(f64::MIN) < encode_f64(f64_toward_zero(f64::MIN)));

    assert!(encode_f64(f64_away_from_zero(-0.0f64)) < encode_f64(-0.0f64));
    assert!(encode_f64(-0f64) < encode_f64(0f64));
    assert!(encode_f64(0f64) < encode_f64(f64::MIN_POSITIVE));

    assert!(encode_f64(f64_toward_zero(f64::MAX)) < encode_f64(f64::MAX));
    assert!(encode_f64(f64::MAX) < encode_f64(f64::INFINITY));
    assert!(encode_f64(f64::INFINITY) < encode_f64(f64::NAN));
}
