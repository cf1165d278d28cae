//! The encoder: a streaming writer of order-preserving byte images into an
//! in-memory byte sink.

use vstd::prelude::*;
use vstd::arithmetic::div_mod::{lemma_basic_div, lemma_div_basics};
use vstd::arithmetic::power2::{lemma2_to64, lemma2_to64_rest, pow2};
use vstd::bits::lemma_u64_shr_is_div;
use crate::bytes::{be_bytes, complement, lemma_be_bytes_index, lemma_be_bytes_len, mask_bytes};
use crate::fixed::{
    encoded_bool, encoded_f32_bits, encoded_f64_bits, encoded_i16, encoded_i32, encoded_i64,
    encoded_i8, encoded_u16, encoded_u32, encoded_u64, encoded_u8, f32_key,
};
use vstd::utf8::{char_is_scalar, encode_utf8};
use crate::text::{encoded_char, encoded_str};
use crate::varint::{
    encoded_var_i64, encoded_var_u64, lemma_vari_bounds, lemma_varu_bounds, vari_first, vari_len,
    vari_mag, varu_first, varu_len,
};

verus! {

/// Reported when a value's shape has no order-preserving encoding:
/// variable-length sequences and maps are rejected.
#[derive(Clone, Copy, Debug, PartialEq, Eq, Structural)]
pub enum EncodeError {
    UnsupportedShape,
}

/// An encoder that serializes data to a byte format preserving lexicographic
/// sort order.
///
/// The byte format is designed with a few goals:
///
/// * Order must be preserved
/// * Serialized representations should be as compact as possible
/// * Type information is *not* serialized with values
///
/// Bytes are accumulated in an in-memory sink owned by the encoder; the view
/// of the encoder is the byte string written so far.
pub struct Encoder {
    buf: Vec<u8>,
}

impl View for Encoder {
    type V = Seq<u8>;

    closed spec fn view(&self) -> Seq<u8> {
        self.buf@
    }
}

proof fn lemma_u64_low_byte(x: u64)
    by (bit_vector)
    ensures
        x as u8 == (x % 256) as u8,
{
}

impl Encoder {
    /// Creates a new ordered-bytes encoder with an empty output sink.
    pub fn new() -> (e: Encoder)
        ensures
            e@ =~= Seq::<u8>::empty(),
    {
        Encoder { buf: Vec::new() }
    }

    /// Consumes the encoder and returns the accumulated byte image.
    pub fn into_bytes(self) -> (r: Vec<u8>)
        ensures
            r@ == self@,
    {
        self.buf
    }

    /// Read access to the bytes written so far.
    pub fn bytes(&self) -> (r: &Vec<u8>)
        ensures
            r@ == self@,
    {
        &self.buf
    }

    /// Appends the low `n` bytes of `v`, most significant first, each byte
    /// complemented when `invert` is set.
    fn push_be(&mut self, v: u64, n: usize, invert: bool)
        requires
            n <= 8,
        ensures
            final(self)@ == old(self)@ + mask_bytes(be_bytes(v as nat, n as nat), invert),
    {
        let ghost img = be_bytes(v as nat, n as nat);
        proof {
            lemma_be_bytes_len(v as nat, n as nat);
            assert(self@ =~= old(self)@ + mask_bytes(img.subrange(0, 0), invert));
        }
        let mut i: usize = 0;
        while i < n
            invariant
                i <= n <= 8,
                img == be_bytes(v as nat, n as nat),
                img.len() == n,
                self@ =~= old(self)@ + mask_bytes(img.subrange(0, i as int), invert),
            decreases n - i,
        {
            let sh: u64 = (8 * (n - 1 - i)) as u64;
            let byte = (v >> sh) as u8;
            proof {
                lemma_u64_shr_is_div(v, sh);
                lemma_u64_low_byte(v >> sh);
                assert(sh as nat == (8 * (n - 1 - i as int)) as nat);
                lemma_be_bytes_index(v as nat, n as nat, i as int);
                assert(img[i as int] == byte);
            }
            let out = if invert {
                255 - byte
            } else {
                byte
            };
            self.buf.push(out);
            proof {
                assert(mask_bytes(img.subrange(0, i + 1 as int), invert) =~= mask_bytes(
                    img.subrange(0, i as int),
                    invert,
                ).push(out));
            }
            i = i + 1;
        }
        proof {
            assert(img.subrange(0, n as int) =~= img);
        }
    }

    /// Encodes a `u8` as one byte.
    pub fn emit_u8(&mut self, v: u8)
        ensures
            final(self)@ == old(self)@ + encoded_u8(v),
    {
        self.push_be(v as u64, 1, false);
    }

    /// Encodes a `u16` as two big-endian bytes.
    pub fn emit_u16(&mut self, v: u16)
        ensures
            final(self)@ == old(self)@ + encoded_u16(v),
    {
        self.push_be(v as u64, 2, false);
    }

    /// Encodes a `u32` as four big-endian bytes.
    pub fn emit_u32(&mut self, v: u32)
        ensures
            final(self)@ == old(self)@ + encoded_u32(v),
    {
        self.push_be(v as u64, 4, false);
    }

    /// Encodes a `u64` as eight big-endian bytes.
    pub fn emit_u64(&mut self, v: u64)
        ensures
            final(self)@ == old(self)@ + encoded_u64(v),
    {
        self.push_be(v, 8, false);
    }

    /// Encodes an `i8` as one byte with the sign bit flipped, so that order
    /// is preserved under unsigned comparison.
    pub fn emit_i8(&mut self, v: i8)
        ensures
            final(self)@ == old(self)@ + encoded_i8(v),
    {
        let off: u8 = if v >= 0 {
            (v as u8) + 0x80
        } else {
            (v - i8::MIN) as u8
        };
        self.push_be(off as u64, 1, false);
    }

    /// Encodes an `i16` as two big-endian bytes with the sign bit flipped.
    pub fn emit_i16(&mut self, v: i16)
        ensures
            final(self)@ == old(self)@ + encoded_i16(v),
    {
        let off: u16 = if v >= 0 {
            (v as u16) + 0x8000
        } else {
            (v - i16::MIN) as u16
        };
        self.push_be(off as u64, 2, false);
    }

    /// Encodes an `i32` as four big-endian bytes with the sign bit flipped.
    pub fn emit_i32(&mut self, v: i32)
        ensures
            final(self)@ == old(self)@ + encoded_i32(v),
    {
        let off: u32 = if v >= 0 {
            (v as u32) + 0x8000_0000
        } else {
            (v - i32::MIN) as u32
        };
        self.push_be(off as u64, 4, false);
    }

    /// Encodes an `i64` as eight big-endian bytes with the sign bit flipped.
    pub fn emit_i64(&mut self, v: i64)
        ensures
            final(self)@ == old(self)@ + encoded_i64(v),
    {
        let off: u64 = if v >= 0 {
            (v as u64) + 0x8000_0000_0000_0000
        } else {
            (v - i64::MIN) as u64
        };
        self.push_be(off, 8, false);
    }

    /// Encodes a `u64` into between 1 and 9 bytes, smaller values into
    /// fewer bytes. The first 4 bits of the image store the number of
    /// trailing bytes; the remaining bits are the value in big-endian order
    /// with leading zero bytes removed. Larger buckets get lexicographically
    /// greater first bytes, so order is preserved across sizes.
    pub fn emit_var_u64(&mut self, v: u64)
        ensures
            final(self)@ == old(self)@ + encoded_var_u64(v),
    {
        proof {
            lemma2_to64();
            lemma2_to64_rest();
            lemma_varu_bounds(v);
        }
        let first: u8;
        let l: usize;
        if v < 0x10 {
            proof {
                lemma_div_basics(v as int);
            }
            first = v as u8;
            l = 0;
        } else if v < 0x1000 {
            proof {
                lemma_u64_shr_is_div(v, 8);
            }
            first = 0x10 + (v >> 8) as u8;
            l = 1;
        } else if v < 0x10_0000 {
            proof {
                lemma_u64_shr_is_div(v, 16);
            }
            first = 0x20 + (v >> 16) as u8;
            l = 2;
        } else if v < 0x1000_0000 {
            proof {
                lemma_u64_shr_is_div(v, 24);
            }
            first = 0x30 + (v >> 24) as u8;
            l = 3;
        } else if v < 0x10_0000_0000 {
            proof {
                lemma_u64_shr_is_div(v, 32);
            }
            first = 0x40 + (v >> 32) as u8;
            l = 4;
        } else if v < 0x1000_0000_0000 {
            proof {
                lemma_u64_shr_is_div(v, 40);
            }
            first = 0x50 + (v >> 40) as u8;
            l = 5;
        } else if v < 0x10_0000_0000_0000 {
            proof {
                lemma_u64_shr_is_div(v, 48);
            }
            first = 0x60 + (v >> 48) as u8;
            l = 6;
        } else if v < 0x1000_0000_0000_0000 {
            proof {
                lemma_u64_shr_is_div(v, 56);
            }
            first = 0x70 + (v >> 56) as u8;
            l = 7;
        } else {
            proof {
                lemma_basic_div(v as int, pow2(64) as int);
            }
            first = 0x80;
            l = 8;
        }
        proof {
            assert(first == varu_first(v));
            assert(l as nat == varu_len(v));
        }
        self.buf.push(first);
        self.push_be(v, l, false);
        proof {
            assert(old(self)@.push(first) + be_bytes(v as nat, l as nat) =~= old(self)@
                + encoded_var_u64(v));
        }
    }

    /// Encodes an `i64` into between 1 and 9 bytes, smaller magnitudes into
    /// fewer bytes. The first bit of the image is the sign (clear for
    /// negative values), the next 4 bits store the number of trailing bytes,
    /// and the remaining bits are the magnitude in big-endian order — less
    /// one for negative values, whose image is then complemented bit-wise
    /// except for the sign bit.
    pub fn emit_var_i64(&mut self, v: i64)
        ensures
            final(self)@ == old(self)@ + encoded_var_i64(v),
    {
        let neg = v < 0;
        let m: u64 = if v >= 0 {
            v as u64
        } else {
            (-(v + 1)) as u64
        };
        proof {
            lemma2_to64();
            lemma2_to64_rest();
            assert(m as nat == vari_mag(v));
            lemma_vari_bounds(m as nat);
        }
        let first: u8;
        let l: usize;
        if m < 0x8 {
            proof {
                lemma_div_basics(m as int);
            }
            first = 0x80 + m as u8;
            l = 0;
        } else if m < 0x800 {
            proof {
                lemma_u64_shr_is_div(m, 8);
            }
            first = 0x88 + (m >> 8) as u8;
            l = 1;
        } else if m < 0x8_0000 {
            proof {
                lemma_u64_shr_is_div(m, 16);
            }
            first = 0x90 + (m >> 16) as u8;
            l = 2;
        } else if m < 0x800_0000 {
            proof {
                lemma_u64_shr_is_div(m, 24);
            }
            first = 0x98 + (m >> 24) as u8;
            l = 3;
        } else if m < 0x8_0000_0000 {
            proof {
                lemma_u64_shr_is_div(m, 32);
            }
            first = 0xA0 + (m >> 32) as u8;
            l = 4;
        } else if m < 0x800_0000_0000 {
            proof {
                lemma_u64_shr_is_div(m, 40);
            }
            first = 0xA8 + (m >> 40) as u8;
            l = 5;
        } else if m < 0x8_0000_0000_0000 {
            proof {
                lemma_u64_shr_is_div(m, 48);
            }
            first = 0xB0 + (m >> 48) as u8;
            l = 6;
        } else if m < 0x800_0000_0000_0000 {
            proof {
                lemma_u64_shr_is_div(m, 56);
            }
            first = 0xB8 + (m >> 56) as u8;
            l = 7;
        } else {
            proof {
                lemma_basic_div(m as int, pow2(64) as int);
            }
            first = 0xC0;
            l = 8;
        }
        proof {
            assert(first == vari_first(m as nat));
            assert(l as nat == vari_len(m as nat));
        }
        let out = if neg {
            255 - first
        } else {
            first
        };
        self.buf.push(out);
        self.push_be(m, l, neg);
        proof {
            if neg {
                assert(old(self)@.push(out) + complement(be_bytes(m as nat, l as nat)) =~= old(
                    self,
                )@ + encoded_var_i64(v));
            } else {
                assert(old(self)@.push(out) + be_bytes(m as nat, l as nat) =~= old(self)@
                    + encoded_var_i64(v));
            }
        }
    }

    /// Encodes a `bool` as one byte: `0x00` for false, `0x01` for true.
    pub fn emit_bool(&mut self, v: bool)
        ensures
            final(self)@ == old(self)@ + encoded_bool(v),
    {
        let byte: u8 = if v {
            1
        } else {
            0
        };
        self.buf.push(byte);
        proof {
            assert(old(self)@.push(byte) =~= old(self)@ + encoded_bool(v));
        }
    }

    /// Encodes an `f32` given as its IEEE-754 bit pattern: the sign bit is
    /// flipped for non-negative floats and every bit is inverted for
    /// negative floats, then the result is written big-endian. NaN sorts
    /// after positive infinity; `-0.0` sorts directly before `+0.0`.
    pub fn emit_f32_bits(&mut self, bits: u32)
        ensures
            final(self)@ == old(self)@ + encoded_f32_bits(bits),
    {
        let key: u32 = if bits < 0x8000_0000 {
            bits + 0x8000_0000
        } else {
            0xFFFF_FFFF - bits
        };
        proof {
            assert(key as nat == f32_key(bits));
        }
        self.push_be(key as u64, 4, false);
    }

    /// Encodes an `f64` given as its IEEE-754 bit pattern, as `emit_f32_bits`
    /// does for `f32`.
    pub fn emit_f64_bits(&mut self, bits: u64)
        ensures
            final(self)@ == old(self)@ + encoded_f64_bits(bits),
    {
        let key: u64 = if bits < 0x8000_0000_0000_0000 {
            bits + 0x8000_0000_0000_0000
        } else {
            0xFFFF_FFFF_FFFF_FFFF - bits
        };
        self.push_be(key, 8, false);
    }

    /// Encodes a character as its UTF-8 bytes, 1 to 4 of them.
    /// Lexicographic order of UTF-8 byte strings matches codepoint order,
    /// so order is preserved.
    pub fn emit_char(&mut self, c: char)
        ensures
            final(self)@ == old(self)@ + encoded_char(c),
    {
        let u = c as u32;
        proof {
            char_is_scalar(c);
        }
        if u < 0x80 {
            self.buf.push((u & 0x7F) as u8);
            proof {
                assert(old(self)@.push((u & 0x7F) as u8) =~= old(self)@ + encoded_char(c));
            }
        } else if u < 0x800 {
            self.buf.push(0xC0 | ((u >> 6) & 0x1F) as u8);
            self.buf.push(0x80 | (u & 0x3F) as u8);
            proof {
                assert(old(self)@.push(0xC0 | ((u >> 6) & 0x1F) as u8).push(
                    0x80 | (u & 0x3F) as u8,
                ) =~= old(self)@ + encoded_char(c));
            }
        } else if u < 0x10000 {
            self.buf.push(0xE0 | ((u >> 12) & 0x0F) as u8);
            self.buf.push(0x80 | ((u >> 6) & 0x3F) as u8);
            self.buf.push(0x80 | (u & 0x3F) as u8);
            proof {
                assert(old(self)@.push(0xE0 | ((u >> 12) & 0x0F) as u8).push(
                    0x80 | ((u >> 6) & 0x3F) as u8,
                ).push(0x80 | (u & 0x3F) as u8) =~= old(self)@ + encoded_char(c));
            }
        } else {
            self.buf.push(0xF0 | ((u >> 18) & 0x7) as u8);
            self.buf.push(0x80 | ((u >> 12) & 0x3F) as u8);
            self.buf.push(0x80 | ((u >> 6) & 0x3F) as u8);
            self.buf.push(0x80 | (u & 0x3F) as u8);
            proof {
                assert(old(self)@.push(0xF0 | ((u >> 18) & 0x7) as u8).push(
                    0x80 | ((u >> 12) & 0x3F) as u8,
                ).push(0x80 | ((u >> 6) & 0x3F) as u8).push(0x80 | (u & 0x3F) as u8) =~= old(
                    self,
                )@ + encoded_char(c));
            }
        }
    }

    /// Encodes a string as its UTF-8 bytes followed by a single `0x00`
    /// terminator, so that a string followed by further fields never becomes
    /// a bare prefix of a longer string's image. Interior NUL bytes are not
    /// checked; a string containing them only sorts correctly as the final
    /// field of a key.
    pub fn emit_str(&mut self, s: &str)
        ensures
            final(self)@ == old(self)@ + encoded_str(s@),
    {
        let b = s.as_bytes();
        let mut i: usize = 0;
        proof {
            assert(self@ =~= old(self)@ + b@.subrange(0, 0));
        }
        while i < b.len()
            invariant
                i <= b@.len(),
                b@ == encode_utf8(s@),
                self@ =~= old(self)@ + b@.subrange(0, i as int),
            decreases b@.len() - i,
        {
            let byte = b[i];
            self.buf.push(byte);
            proof {
                assert(b@.subrange(0, i + 1 as int) =~= b@.subrange(0, i as int).push(byte));
            }
            i = i + 1;
        }
        self.buf.push(0u8);
        proof {
            assert(b@.subrange(0, b@.len() as int) =~= b@);
            assert(old(self)@ + b@ + seq![0u8] =~= old(self)@ + encoded_str(s@));
        }
    }

    /// Encodes the discriminant of a tagged-union variant as the
    /// variable-length unsigned image of the variant's index in declaration
    /// order; the payload fields are emitted immediately after by the
    /// caller. The image depends only on the index, never on how many
    /// variants the union has, so adding variants at the end preserves the
    /// encoding of the existing ones. Reordering variants breaks the
    /// persisted format.
    pub fn emit_enum_variant(&mut self, id: usize)
        ensures
            final(self)@ == old(self)@ + encoded_var_u64(id as u64),
    {
        self.emit_var_u64(id as u64);
    }

    /// Encodes nothing: the unit value has an empty image.
    pub fn emit_nil(&mut self)
        ensures
            final(self)@ == old(self)@,
    {
    }

    /// Encodes an absent optional as a single `0x00` presence byte, so that
    /// absent values sort before present ones.
    pub fn emit_option_none(&mut self)
        ensures
            final(self)@ == old(self)@ + encoded_bool(false),
    {
        self.emit_bool(false);
    }

    /// Encodes the presence byte `0x01` of a present optional; the inner
    /// value is emitted immediately after by the caller.
    pub fn emit_option_some(&mut self)
        ensures
            final(self)@ == old(self)@ + encoded_bool(true),
    {
        self.emit_bool(true);
    }

    /// Sequences have no order-preserving encoding here and are rejected.
    pub fn emit_seq(&mut self, _len: usize) -> (r: Result<(), EncodeError>)
        ensures
            final(self)@ == old(self)@,
            r == Err::<(), EncodeError>(EncodeError::UnsupportedShape),
    {
        Err(EncodeError::UnsupportedShape)
    }

    /// Maps have no order-preserving encoding here and are rejected.
    pub fn emit_map(&mut self, _len: usize) -> (r: Result<(), EncodeError>)
        ensures
            final(self)@ == old(self)@,
            r == Err::<(), EncodeError>(EncodeError::UnsupportedShape),
    {
        Err(EncodeError::UnsupportedShape)
    }
}

} // verus!
