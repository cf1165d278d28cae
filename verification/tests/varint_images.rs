//! Exact byte images at every bucket boundary of the variable-length
//! integer encodings.

use bytekey::Encoder;

fn encode_varu(v: u64) -> Vec<u8> {
    let mut e = Encoder::new();
    e.emit_var_u64(v);
    e.into_bytes()
}

fn encode_vari(v: i64) -> Vec<u8> {
    let mut e = Encoder::new();
    e.emit_var_i64(v);
    e.into_bytes()
}

#[test]
fn test_var_u64() {
    assert_eq!(vec![0x00], encode_varu(0));
    assert_eq!(vec![0x01], encode_varu(1 << 0));

    assert_eq!(vec![0x0F], encode_varu((1 << 4) - 1));
    assert_eq!(vec![0x10, 0x10], encode_varu(1 << 4));

    assert_eq!(vec![0x1F, 0xFF], encode_varu((1 << 12) - 1));
    assert_eq!(vec![0x20, 0x10, 0x00], encode_varu(1 << 12));

    assert_eq!(vec![0x2F, 0xFF, 0xFF], encode_varu((1 << 20) - 1));
    assert_eq!(vec![0x30, 0x10, 0x00, 0x00], encode_varu(1 << 20));

    assert_eq!(vec![0x3F, 0xFF, 0xFF, 0xFF], encode_varu((1 << 28) - 1));
    assert_eq!(vec![0x40, 0x10, 0x00, 0x00, 0x00], encode_varu(1 << 28));

    assert_eq!(vec![0x4F, 0xFF, 0xFF, 0xFF, 0xFF], encode_varu((1 << 36) - 1));
    assert_eq!(vec![0x50, 0x10, 0x00, 0x00, 0x00, 0x00], encode_varu(1 << 36));

    assert_eq!(vec![0x5F, 0xFF, 0xFF, 0xFF, 0xFF, 0xFF], encode_varu((1 << 44) - 1));
    assert_eq!(vec![0x60, 0x10, 0x00, 0x00, 0x00, 0x00, 0x00], encode_varu(1 << 44));

    assert_eq!(vec![0x6F, 0xFF, 0xFF, 0xFF, 0xFF, 0xFF, 0xFF], encode_varu((1 << 52) - 1));
    assert_eq!(vec![0x70, 0x10, 0x00, 0x00, 0x00, 0x00, 0x00, 0x00], encode_varu(1 << 52));

    assert_eq!(vec![0x7F, 0xFF, 0xFF, 0xFF, 0xFF, 0xFF, 0xFF, 0xFF], encode_varu((1 << 60) - 1));
    assert_eq!(
        vec![0x80, 0x10, 0x00, 0x00, 0x00, 0x00, 0x00, 0x00, 0x00],
        encode_varu(1 << 60)
    );

    assert_eq!(vec![0x80, 0xFF, 0xFF, 0xFF, 0xFF, 0xFF, 0xFF, 0xFF, 0xFF], encode_varu(u64::MAX));
}

#[test]
fn test_pos_var_i64() {
    assert_eq!(vec![0x80], encode_vari(0));
    assert_eq!(vec![0x81], encode_vari(1 << 0));

    assert_eq!(vec![0x87], encode_vari((1 << 3) - 1));
    assert_eq!(vec![0x88, 0x08], encode_vari(1 << 3));

    assert_eq!(vec![0x8F, 0xFF], encode_vari((1 << 11) - 1));
    assert_eq!(vec![0x90, 0x08, 0x00], encode_vari(1 << 11));

    assert_eq!(vec![0x97, 0xFF, 0xFF], encode_vari((1 << 19) - 1));
    assert_eq!(vec![0x98, 0x08, 0x00, 0x00], encode_vari(1 << 19));

    assert_eq!(vec![0x9F, 0xFF, 0xFF, 0xFF], encode_vari((1 << 27) - 1));
    assert_eq!(vec![0xA0, 0x08, 0x00, 0x00, 0x00], encode_vari(1 << 27));

    assert_eq!(vec![0xA7, 0xFF, 0xFF, 0xFF, 0xFF], encode_vari((1 << 35) - 1));
    assert_eq!(vec![0xA8, 0x08, 0x00, 0x00, 0x00, 0x00], encode_vari(1 << 35));

    assert_eq!(vec![0xAF, 0xFF, 0xFF, 0xFF, 0xFF, 0xFF], encode_vari((1 << 43) - 1));
    assert_eq!(vec![0xB0, 0x08, 0x00, 0x00, 0x00, 0x00, 0x00], encode_vari(1 << 43));

    assert_eq!(vec![0xB7, 0xFF, 0xFF, 0xFF, 0xFF, 0xFF, 0xFF], encode_vari((1 << 51) - 1));
    assert_eq!(vec![0xB8, 0x08, 0x00, 0x00, 0x00, 0x00, 0x00, 0x00], encode_vari(1 << 51));

    assert_eq!(vec![0xBF, 0xFF, 0xFF, 0xFF, 0xFF, 0xFF, 0xFF, 0xFF], encode_vari((1 << 59) - 1));
    assert_eq!(
        vec![0xC0, 0x08, 0x00, 0x00, 0x00, 0x00, 0x00, 0x00, 0x00],
        encode_vari(1 << 59)
    );

    assert_eq!(
        vec![0xC0, 0x7F, 0xFF, 0xFF, 0xFF, 0xFF, 0xFF, 0xFF, 0xFF],
        encode_vari(i64::MAX)
    );
}

#[test]
fn test_neg_var_i64() {
    assert_eq!(vec![0x7F], encode_vari(-1));

    assert_eq!(vec![0x78], encode_vari(-(1 << 3)));
    assert_eq!(vec![0x77, 0xF7], encode_vari(-(1 << 3) - 1));

    assert_eq!(vec![0x70, 0x00], encode_vari(-(1 << 11)));
    assert_eq!(vec![0x6F, 0xF7, 0xFF], encode_vari(-(1 << 11) - 1));

    assert_eq!(vec![0x68, 0x00, 0x00], encode_vari(-(1 << 19)));
    assert_eq!(vec![0x67, 0xF7, 0xFF, 0xFF], encode_vari(-(1 << 19) - 1));

    assert_eq!(vec![0x60, 0x00, 0x00, 0x00], encode_vari(-(1 << 27)));
    assert_eq!(vec![0x5F, 0xF7, 0xFF, 0xFF, 0xFF], encode_vari(-(1 << 27) - 1));

    assert_eq!(vec![0x58, 0x00, 0x00, 0x00, 0x00], encode_vari(-(1 << 35)));
    assert_eq!(vec![0x57, 0xF7, 0xFF, 0xFF, 0xFF, 0xFF], encode_vari(-(1 << 35) - 1));

    assert_eq!(vec![0x50, 0x00, 0x00, 0x00, 0x00, 0x00], encode_vari(-(1 << 43)));
    assert_eq!(vec![0x4F, 0xF7, 0xFF, 0xFF, 0xFF, 0xFF, 0xFF], encode_vari(-(1 << 43) - 1));

    assert_eq!(vec![0x48, 0x00, 0x00, 0x00, 0x00, 0x00, 0x00], encode_vari(-(1 << 51)));
    assert_eq!(
        vec![0x47, 0xF7, 0xFF, 0xFF, 0xFF, 0xFF, 0xFF, 0xFF],
        encode_vari(-(1 << 51) - 1)
    );

    assert_eq!(vec![0x40, 0x00, 0x00, 0x00, 0x00, 0x00, 0x00, 0x00], encode_vari(-(1 << 59)));
    assert_eq!(
        vec![0x3F, 0xF7, 0xFF, 0xFF, 0xFF, 0xFF, 0xFF, 0xFF, 0xFF],
        encode_vari(-(1 << 59) - 1)
    );

    assert_eq!(
        vec![0x3F, 0x80, 0x00, 0x00, 0x00, 0x00, 0x00, 0x00, 0x00],
        encode_vari(i64::MIN)
    );
}
