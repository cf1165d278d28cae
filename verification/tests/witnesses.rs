//! Concrete byte-image witnesses and scenario checks: exact images for
//! documented inputs, determinism, composites, and the rejected shapes.

use bytekey::{EncodeError, Encoder};

fn encode_str(s: &str) -> Vec<u8> {
    let mut e = Encoder::new();
    e.emit_str(s);
    e.into_bytes()
}

fn encode_char(c: char) -> Vec<u8> {
    let mut e = Encoder::new();
    e.emit_char(c);
    e.into_bytes()
}

#[test]
fn u32_image() {
    let mut e = Encoder::new();
    e.emit_u32(42);
    assert_eq!(vec![0x00, 0x00, 0x00, 0x2A], e.into_bytes());
}

#[test]
fn str_image() {
    assert_eq!(
        vec![0x66, 0x69, 0x7A, 0x7A, 0x62, 0x75, 0x7A, 0x7A, 0x00],
        encode_str("fizzbuzz")
    );
}

#[test]
fn tuple_image() {
    let mut e = Encoder::new();
    e.emit_u8(42);
    e.emit_str("fizz");
    assert_eq!(vec![0x2A, 0x66, 0x69, 0x7A, 0x7A, 0x00], e.into_bytes());
}

#[test]
fn i8_images() {
    let image = |v: i8| {
        let mut e = Encoder::new();
        e.emit_i8(v);
        e.into_bytes()
    };
    assert_eq!(vec![0x00], image(-128));
    assert_eq!(vec![0x80], image(0));
    assert_eq!(vec![0xFF], image(127));
}

#[test]
fn fixed_width_images() {
    let mut e = Encoder::new();
    e.emit_u16(0x1234);
    e.emit_u64(0x0102_0304_0506_0708);
    e.emit_i16(-2);
    e.emit_i32(1);
    e.emit_i64(-1);
    assert_eq!(
        vec![
            0x12, 0x34, // u16
            0x01, 0x02, 0x03, 0x04, 0x05, 0x06, 0x07, 0x08, // u64
            0x7F, 0xFE, // i16
            0x80, 0x00, 0x00, 0x01, // i32
            0x7F, 0xFF, 0xFF, 0xFF, 0xFF, 0xFF, 0xFF, 0xFF, // i64
        ],
        e.into_bytes()
    );
}

#[test]
fn float_images() {
    let mut e = Encoder::new();
    e.emit_f32_bits(0f32.to_bits());
    e.emit_f32_bits((-0f32).to_bits());
    e.emit_f64_bits(1f64.to_bits());
    assert_eq!(
        vec![
            0x80, 0x00, 0x00, 0x00, // +0.0f32
            0x7F, 0xFF, 0xFF, 0xFF, // -0.0f32
            0xBF, 0xF0, 0x00, 0x00, 0x00, 0x00, 0x00, 0x00, // 1.0f64
        ],
        e.into_bytes()
    );
}

#[test]
fn bool_order() {
    let image = |v: bool| {
        let mut e = Encoder::new();
        e.emit_bool(v);
        e.into_bytes()
    };
    assert!(image(false) < image(true));
    assert_eq!(vec![0x00], image(false));
    assert_eq!(vec![0x01], image(true));
}

#[test]
fn char_images() {
    assert_eq!(vec![0x61], encode_char('a'));
    assert_eq!(vec![0xC3, 0xA9], encode_char('\u{E9}'));
    assert_eq!(vec![0xE2, 0x82, 0xAC], encode_char('\u{20AC}'));
    assert_eq!(vec![0xF0, 0x9D, 0x84, 0x9E], encode_char('\u{1D11E}'));
}

#[test]
fn char_order_samples() {
    let cases = ['\0', 'a', 'z', '\u{7F}', '\u{80}', '\u{7FF}', '\u{800}', '\u{FFFD}',
        '\u{10000}', '\u{10FFFF}'];
    for i in 0..cases.len() {
        for j in 0..cases.len() {
            assert_eq!(
                cases[i].cmp(&cases[j]),
                encode_char(cases[i]).cmp(&encode_char(cases[j])),
                "chars {:?} {:?}",
                cases[i],
                cases[j]
            );
        }
    }
}

#[test]
fn str_order_samples() {
    let cases = ["", "a", "ab", "abc", "b", "ba", "fizz", "fizzbuzz", "\u{E9}", "z"];
    for i in 0..cases.len() {
        for j in 0..cases.len() {
            assert_eq!(
                cases[i].cmp(cases[j]),
                encode_str(cases[i]).cmp(&encode_str(cases[j])),
                "strings {:?} {:?}",
                cases[i],
                cases[j]
            );
        }
    }
}

#[test]
fn determinism() {
    let once = {
        let mut e = Encoder::new();
        e.emit_var_i64(-123456789);
        e.emit_str("key");
        e.emit_u32(7);
        e.into_bytes()
    };
    let again = {
        let mut e = Encoder::new();
        e.emit_var_i64(-123456789);
        e.emit_str("key");
        e.emit_u32(7);
        e.into_bytes()
    };
    assert_eq!(once, again);
}

#[test]
fn option_order() {
    let image = |o: Option<u64>| {
        let mut e = Encoder::new();
        match o {
            None => e.emit_option_none(),
            Some(v) => {
                e.emit_option_some();
                e.emit_var_u64(v);
            },
        }
        e.into_bytes()
    };
    assert!(image(None) < image(Some(0)));
    assert!(image(Some(0)) < image(Some(1)));
    assert!(image(Some(15)) < image(Some(16)));
    assert_eq!(image(None), vec![0x00]);
}

#[test]
fn variant_order_and_extensibility() {
    // A value of a variant encodes as the variant's index followed by its
    // payload; the image never depends on how many variants the union has,
    // so a union extended with trailing variants keeps old images stable.
    let early = {
        let mut e = Encoder::new();
        e.emit_enum_variant(0);
        e.emit_u32(99);
        e.into_bytes()
    };
    let middle = {
        let mut e = Encoder::new();
        e.emit_enum_variant(1);
        e.into_bytes()
    };
    let late = {
        let mut e = Encoder::new();
        e.emit_enum_variant(2);
        e.emit_var_i64(-1);
        e.into_bytes()
    };
    assert!(early < middle);
    assert!(middle < late);
    assert_eq!(vec![0x00, 0x00, 0x00, 0x00, 0x63], early);
    assert_eq!(vec![0x01], middle);
    assert_eq!(vec![0x02, 0x7F], late);
}

#[test]
fn unsupported_shapes_rejected() {
    let mut e = Encoder::new();
    assert_eq!(Err(EncodeError::UnsupportedShape), e.emit_seq(3));
    assert_eq!(Err(EncodeError::UnsupportedShape), e.emit_map(1));
    e.emit_nil();
    assert!(e.bytes().is_empty());
}

#[test]
fn var_u64_order_samples() {
    let image = |v: u64| {
        let mut e = Encoder::new();
        e.emit_var_u64(v);
        e.into_bytes()
    };
    let cases = [0u64, 1, 15, 16, 255, 4095, 4096, 1 << 20, (1 << 28) - 1, 1 << 36,
        (1 << 52) + 17, 1 << 60, u64::MAX];
    for i in 0..cases.len() {
        for j in 0..cases.len() {
            assert_eq!(cases[i].cmp(&cases[j]), image(cases[i]).cmp(&image(cases[j])));
        }
    }
}

#[test]
fn var_i64_order_samples() {
    let image = |v: i64| {
        let mut e = Encoder::new();
        e.emit_var_i64(v);
        e.into_bytes()
    };
    let cases = [i64::MIN, -(1 << 59) - 1, -(1 << 43), -4096, -9, -8, -1, 0, 1, 7, 8, 2048,
        1 << 35, i64::MAX];
    for i in 0..cases.len() {
        for j in 0..cases.len() {
            assert_eq!(cases[i].cmp(&cases[j]), image(cases[i]).cmp(&image(cases[j])));
        }
    }
}

#[test]
fn tuple_order_samples() {
    let image = |a: u8, s: &str| {
        let mut e = Encoder::new();
        e.emit_u8(a);
        e.emit_str(s);
        e.into_bytes()
    };
    assert!(image(1, "zzz") < image(2, "a"));
    assert!(image(1, "ab") < image(1, "abc"));
    assert!(image(1, "ab") < image(1, "b"));
    assert_eq!(image(7, "x"), image(7, "x"));
}

#[test]
fn string_then_field_order() {
    // A NUL-free string field followed by another field stays ordered:
    // the terminator separates it from its right-hand sibling.
    let image = |s: &str, v: u8| {
        let mut e = Encoder::new();
        e.emit_str(s);
        e.emit_u8(v);
        e.into_bytes()
    };
    assert!(image("ab", 0xFF) < image("abc", 0x00));
    assert!(image("ab", 1) < image("ab", 2));
    assert!(image("a", 9) < image("b", 0));
}
