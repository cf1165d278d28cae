//! Exhaustive order checks for the small fixed-width scalars.

use bytekey::Encoder;

fn encode_u8(v: u8) -> Vec<u8> {
    let mut e = Encoder::new();
    e.emit_u8(v);
    e.into_bytes()
}

fn encode_u16(v: u16) -> Vec<u8> {
    let mut e = Encoder::new();
    e.emit_u16(v);
    e.into_bytes()
}

fn encode_i8(v: i8) -> Vec<u8> {
    let mut e = Encoder::new();
    e.emit_i8(v);
    e.into_bytes()
}

fn encode_i16(v: i16) -> Vec<u8> {
    let mut e = Encoder::new();
    e.emit_i16(v);
    e.into_bytes()
}

fn encode_bool(v: bool) -> Vec<u8> {
    let mut e = Encoder::new();
    e.emit_bool(v);
    e.into_bytes()
}

#[test]
fn test_u8() {
    let mut previous = encode_u8(u8::MIN);
    for i in (u8::MIN + 1)..=u8::MAX {
        let current = encode_u8(i);
        if !(previous < current) {
            panic!("{:?} !< {:?} (current {})", previous, current, i)
        }
        previous = current;
    }
}

#[test]
fn test_u16() {
    let mut previous = encode_u16(u16::MIN);
    for i in (u16::MIN + 1)..=u16::MAX {
        let current = encode_u16(i);
        if !(previous < current) {
            panic!("{:?} !< {:?} (current {})", previous, current, i)
        }
        previous = current;
    }
}

#[test]
fn test_i8() {
    let mut previous = encode_i8(i8::MIN);
    for i in (i8::MIN + 1)..=i8::MAX {
        let current = encode_i8(i);
        if !(previous < current) {
            panic!("{:?} !< {:?} (current {})", previous, current, i)
        }
        previous = current;
    }
}

#[test]
fn test_i16() {
    let mut previous = encode_i16(i16::MIN);
    for i in (i16::MIN + 1)..=i16::MAX {
        let current = encode_i16(i);
        if !(previous < current) {
            panic!("{:?} !< {:?} (current {})", previous, current, i)
        }
        previous = current;
    }
}

#[test]
fn test_bool() {
    for &(a, b) in [(true, true), (true, false), (false, true), (false, false)].iter() {
        assert_eq!(a.partial_cmp(&b), encode_bool(a).partial_cmp(&encode_bool(b)))
    }
}
