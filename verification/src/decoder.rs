//! Extraction of Unicode code points from a UTF-8 byte sequence.
//!
//! The decoder is deliberately lenient on truncated input: a continuation
//! byte that would lie past the end of the sequence is treated as the value
//! zero rather than as an error, and only continuation bytes whose value is
//! non-zero count towards the number of bytes consumed.  On well-formed
//! UTF-8 this never matters (continuation bytes are always `0x80..=0xBF`),
//! and [`lemma_code_points_of_encoding`] proves that the decoder then yields
//! exactly the scalar values of the original text.

use vstd::prelude::*;
use vstd::utf8::encode_scalar;
use vstd::utf8::encode_utf8;
use vstd::utf8::is_scalar;

verus! {

/// Mask of the value bits of a continuation byte.
pub const CONT_MASK: u8 = 0b0011_1111;

/// The byte at index `i`, or zero when `i` lies outside the sequence.
pub open spec fn byte_or_zero(bytes: Seq<u8>, i: int) -> u8 {
    if 0 <= i < bytes.len() {
        bytes[i]
    } else {
        0
    }
}

/// One when the continuation byte read at `i` (zero if out of bounds) counts
/// towards the bytes consumed, zero otherwise.
pub open spec fn cont_byte_count(bytes: Seq<u8>, i: int) -> int {
    if byte_or_zero(bytes, i) != 0 {
        1
    } else {
        0
    }
}

/// Number of bytes the decoder consumes for the code point starting at
/// `start`: one for the leading byte, plus one per continuation byte whose
/// (possibly synthesized) value is non-zero.
pub open spec fn decoded_width(bytes: Seq<u8>, start: int) -> int {
    let x = byte_or_zero(bytes, start);
    if x < 128 {
        1
    } else if x < 0xE0 {
        1 + cont_byte_count(bytes, start + 1)
    } else if x < 0xF0 {
        1 + cont_byte_count(bytes, start + 1) + cont_byte_count(bytes, start + 2)
    } else {
        1 + cont_byte_count(bytes, start + 1) + cont_byte_count(bytes, start + 2)
            + cont_byte_count(bytes, start + 3)
    }
}

/// The code point the decoder produces for the sequence starting at `start`,
/// accumulating six value bits per continuation byte.
pub open spec fn decoded_code_point(bytes: Seq<u8>, start: int) -> u32 {
    let x = byte_or_zero(bytes, start);
    if x < 128 {
        x as u32
    } else {
        let init = (x & 0x1F) as u32;
        let y = byte_or_zero(bytes, start + 1);
        if x < 0xE0 {
            (init << 6) | ((y & CONT_MASK) as u32)
        } else {
            let z = byte_or_zero(bytes, start + 2);
            let y_z = ((((y & CONT_MASK) as u32) << 6) | ((z & CONT_MASK) as u32)) as u32;
            if x < 0xF0 {
                (init << 12) | y_z
            } else {
                let w = byte_or_zero(bytes, start + 3);
                ((init & 7) << 18) | ((y_z << 6) | ((w & CONT_MASK) as u32))
            }
        }
    }
}

/// The decoder always consumes at least one byte and never walks past the
/// end of the sequence: a continuation byte only counts when it was read in
/// bounds, and the counted positions start right after the leading byte.
pub proof fn lemma_decoded_width_bounds(bytes: Seq<u8>, start: int)
    requires
        0 <= start < bytes.len(),
    ensures
        1 <= decoded_width(bytes, start),
        start + decoded_width(bytes, start) <= bytes.len(),
{
    assert(forall|i: int| cont_byte_count(bytes, i) == 1 ==> i < bytes.len());
}

/// The sequence of code points the decoder produces from `start` to the end
/// of the byte sequence.
pub open spec fn code_points_from(bytes: Seq<u8>, start: int) -> Seq<u32>
    decreases bytes.len() - start
        via code_points_from_decreases
{
    if start < 0 || start >= bytes.len() {
        Seq::empty()
    } else {
        seq![decoded_code_point(bytes, start)] + code_points_from(
            bytes,
            start + decoded_width(bytes, start),
        )
    }
}

#[via_fn]
proof fn code_points_from_decreases(bytes: Seq<u8>, start: int) {
    if 0 <= start < bytes.len() {
        lemma_decoded_width_bounds(bytes, start);
    }
}

/// The value bits of the leading byte of a multi-byte sequence: the bottom
/// `7 - width` bits.
pub(crate) fn utf8_first_byte(byte: u8, width: u32) -> (r: u32)
    requires
        width < 8,
    ensures
        r == (byte & (0x7Fu8 >> width)) as u32,
{
    (byte & (0x7F >> width)) as u32
}

/// The byte at `index`, or zero when `index` lies past the end of the slice.
pub(crate) fn unwrap_or_0(slice: &[u8], index: usize) -> (r: u8)
    ensures
        r == byte_or_zero(slice@, index as int),
{
    if slice.len() > index {
        slice[index]
    } else {
        0
    }
}

/// Shifts six new value bits from a continuation byte into the accumulator.
pub(crate) fn utf8_acc_cont_byte(ch: u32, byte: u8) -> (r: u32)
    ensures
        r == (ch << 6) | ((byte & CONT_MASK) as u32),
{
    (ch << 6) | ((byte & CONT_MASK) as u32)
}

/// Decodes the code point starting at offset `start`, returning it together
/// with the number of bytes consumed, or `None` when the sequence is
/// exhausted.
pub fn next_code_point(bytes: &[u8], start: usize) -> (r: Option<(u32, usize)>)
    requires
        start <= bytes@.len(),
    ensures
        r is Some <==> start < bytes@.len(),
        r matches Some(p) ==> {
            &&& p.0 == decoded_code_point(bytes@, start as int)
            &&& p.1 == decoded_width(bytes@, start as int)
            &&& start + p.1 <= bytes@.len()
        },
{
    if bytes.len() == start {
        return None;
    }
    let mut num_bytes: usize = 1;
    let x = bytes[start];
    if x < 128 {
        return Some((x as u32, num_bytes));
    }
    // Multibyte case: decode from a byte combination out of [[[x y] z] w].
    let init = utf8_first_byte(x, 2);
    proof {
        assert((0x7Fu8 >> 2u32) == 0x1Fu8) by (bit_vector);
    }
    let y = unwrap_or_0(bytes, start + 1);
    if y != 0 {
        num_bytes += 1;
    }
    let mut ch = utf8_acc_cont_byte(init, y);
    if x >= 0xE0 {
        // The subtraction guards keep the index computations below from
        // overflowing when the sequence ends here.
        let z = if bytes.len() - start > 2 {
            unwrap_or_0(bytes, start + 2)
        } else {
            0
        };
        if z != 0 {
            num_bytes += 1;
        }
        let y_z = utf8_acc_cont_byte((y & CONT_MASK) as u32, z);
        // The fifth bit of a leading byte in 0xE0..=0xEF is always clear, so
        // `init` already holds only the four value bits.
        ch = (init << 12) | y_z;
        if x >= 0xF0 {
            let w = if bytes.len() - start > 3 {
                unwrap_or_0(bytes, start + 3)
            } else {
                0
            };
            if w != 0 {
                num_bytes += 1;
            }
            // Only the lower three bits of `init` carry value bits here.
            ch = ((init & 7) << 18) | utf8_acc_cont_byte(y_z, w);
        }
    }
    proof {
        lemma_decoded_width_bounds(bytes@, start as int);
    }
    Some((ch, num_bytes))
}

/// The scalar values of a character sequence, one `u32` per character.
pub open spec fn scalar_values(text: Seq<char>) -> Seq<u32> {
    text.map_values(|c: char| c as u32)
}

/// Decoding reads only bytes at `start` and beyond, so a prefix can be cut
/// off without changing what is decoded after it.
proof fn lemma_decoded_shift(prefix: Seq<u8>, bytes: Seq<u8>, start: int)
    requires
        0 <= start,
    ensures
        decoded_width(prefix + bytes, prefix.len() + start) == decoded_width(bytes, start),
        decoded_code_point(prefix + bytes, prefix.len() + start) == decoded_code_point(
            bytes,
            start,
        ),
{
    assert(byte_or_zero(prefix + bytes, prefix.len() + start) == byte_or_zero(bytes, start));
    assert(byte_or_zero(prefix + bytes, prefix.len() + start + 1) == byte_or_zero(
        bytes,
        start + 1,
    ));
    assert(byte_or_zero(prefix + bytes, prefix.len() + start + 2) == byte_or_zero(
        bytes,
        start + 2,
    ));
    assert(byte_or_zero(prefix + bytes, prefix.len() + start + 3) == byte_or_zero(
        bytes,
        start + 3,
    ));
}

proof fn lemma_code_points_from_shift(prefix: Seq<u8>, bytes: Seq<u8>, start: int)
    requires
        0 <= start <= bytes.len(),
    ensures
        code_points_from(prefix + bytes, prefix.len() + start) == code_points_from(bytes, start),
    decreases bytes.len() - start,
{
    if start == bytes.len() {
        assert(code_points_from(prefix + bytes, prefix.len() + start) =~= code_points_from(
            bytes,
            start,
        ));
    } else {
        lemma_decoded_shift(prefix, bytes, start);
        lemma_decoded_width_bounds(bytes, start);
        let width = decoded_width(bytes, start);
        lemma_code_points_from_shift(prefix, bytes, start + width);
        assert(code_points_from(prefix + bytes, prefix.len() + start) =~= code_points_from(
            bytes,
            start,
        ));
    }
}

/// On the well-formed encoding of a single scalar value, followed by
/// anything, the decoder recovers that value and consumes exactly the bytes
/// of its encoding.
proof fn lemma_decode_encoded_scalar(v: u32, rest: Seq<u8>)
    requires
        is_scalar(v),
    ensures
        decoded_width(encode_scalar(v) + rest, 0) == encode_scalar(v).len(),
        decoded_code_point(encode_scalar(v) + rest, 0) == v,
{
    let s = encode_scalar(v);
    let all = s + rest;
    if v <= 0x7F {
        let b0 = (v & 0x7F) as u8;
        assert(all[0] == b0);
        assert(b0 < 128 && b0 as u32 == v) by (bit_vector)
            requires
                v <= 0x7F,
                b0 == (v & 0x7F) as u8,
        ;
    } else if v <= 0x7FF {
        let b0 = 0xC0 | (((v >> 6) & 0x1F) as u8);
        let b1 = 0x80 | ((v & 0x3F) as u8);
        assert(all[0] == b0 && all[1] == b1);
        assert(byte_or_zero(all, 1) == b1);
        assert(128 <= b0 && b0 < 0xE0 && b1 != 0 && ((((b0 & 0x1F) as u32) << 6) | ((b1
            & 0x3F) as u32)) == v) by (bit_vector)
            requires
                0x80 <= v <= 0x7FF,
                b0 == 0xC0 | (((v >> 6) & 0x1F) as u8),
                b1 == 0x80 | ((v & 0x3F) as u8),
        ;
    } else if v <= 0xFFFF {
        let b0 = 0xE0 | (((v >> 12) & 0x0F) as u8);
        let b1 = 0x80 | (((v >> 6) & 0x3F) as u8);
        let b2 = 0x80 | ((v & 0x3F) as u8);
        assert(all[0] == b0 && all[1] == b1 && all[2] == b2);
        assert(byte_or_zero(all, 1) == b1 && byte_or_zero(all, 2) == b2);
        assert(0xE0 <= b0 && b0 < 0xF0 && b1 != 0 && b2 != 0 && ((((b0 & 0x1F) as u32) << 12) | ((((
        b1 & 0x3F) as u32) << 6) | ((b2 & 0x3F) as u32))) == v) by (bit_vector)
            requires
                0x800 <= v <= 0xFFFF,
                b0 == 0xE0 | (((v >> 12) & 0x0F) as u8),
                b1 == 0x80 | (((v >> 6) & 0x3F) as u8),
                b2 == 0x80 | ((v & 0x3F) as u8),
        ;
    } else {
        let b0 = 0xF0 | (((v >> 18) & 0x07) as u8);
        let b1 = 0x80 | (((v >> 12) & 0x3F) as u8);
        let b2 = 0x80 | (((v >> 6) & 0x3F) as u8);
        let b3 = 0x80 | ((v & 0x3F) as u8);
        assert(all[0] == b0 && all[1] == b1 && all[2] == b2 && all[3] == b3);
        assert(byte_or_zero(all, 1) == b1 && byte_or_zero(all, 2) == b2 && byte_or_zero(all, 3)
            == b3);
        assert(0xF0 <= b0 && b1 != 0 && b2 != 0 && b3 != 0 && (((((b0 & 0x1F) as u32) & 7) << 18)
            | ((((((b1 & 0x3F) as u32) << 6) | ((b2 & 0x3F) as u32)) << 6) | ((b3
            & 0x3F) as u32))) == v) by (bit_vector)
            requires
                0x10000 <= v <= 0x10FFFF,
                b0 == 0xF0 | (((v >> 18) & 0x07) as u8),
                b1 == 0x80 | (((v >> 12) & 0x3F) as u8),
                b2 == 0x80 | (((v >> 6) & 0x3F) as u8),
                b3 == 0x80 | ((v & 0x3F) as u8),
        ;
    }
}

/// Decoder correctness on well-formed input: run over the UTF-8 encoding of
/// a character sequence, the decoder yields exactly its scalar values, in
/// order.
pub proof fn lemma_code_points_of_encoding(text: Seq<char>)
    ensures
        code_points_from(encode_utf8(text), 0) == scalar_values(text),
    decreases text.len(),
{
    if text.len() == 0 {
        assert(code_points_from(encode_utf8(text), 0) =~= scalar_values(text));
    } else {
        vstd::utf8::char_is_scalar(text[0]);
        let v = text[0] as u32;
        let s = encode_scalar(v);
        let rest = encode_utf8(text.drop_first());
        assert(encode_utf8(text) == s + rest);
        lemma_decode_encoded_scalar(v, rest);
        lemma_code_points_from_shift(s, rest, 0);
        lemma_code_points_of_encoding(text.drop_first());
        assert(code_points_from(encode_utf8(text), 0) =~= scalar_values(text));
    }
}

/// Walks a byte sequence and yields one Unicode code point per UTF-8
/// sequence, tracking the byte offset reached so far.
pub struct CodePointIterator<'a> {
    buffer: &'a [u8],
    offset: usize,
}

impl<'a> CodePointIterator<'a> {
    /// The offset never lies past the end of the byte sequence.
    pub closed spec fn wf(self) -> bool {
        self.offset <= self.buffer@.len()
    }

    /// The code points not yet yielded.
    pub closed spec fn remaining_code_points(self) -> Seq<u32> {
        code_points_from(self.buffer@, self.offset as int)
    }

    /// An iterator over all code points of `buffer`.
    pub fn new(buffer: &'a [u8]) -> (r: Self)
        ensures
            r.wf(),
            r.remaining_code_points() == code_points_from(buffer@, 0),
    {
        Self::new_with_offset(buffer, 0)
    }

    /// An iterator over the code points of `buffer` starting at byte
    /// `offset`.
    pub fn new_with_offset(buffer: &'a [u8], offset: usize) -> (r: Self)
        requires
            offset <= buffer@.len(),
        ensures
            r.wf(),
            r.remaining_code_points() == code_points_from(buffer@, offset as int),
    {
        Self { buffer, offset }
    }

    /// Yields the next code point together with the advanced iterator, or
    /// `None` once the byte sequence is exhausted.
    pub fn next(self) -> (r: Option<(Self, u32)>)
        requires
            self.wf(),
        ensures
            r is Some <==> self.remaining_code_points().len() > 0,
            r matches Some(p) ==> {
                &&& p.0.wf()
                &&& p.1 == self.remaining_code_points()[0]
                &&& p.0.remaining_code_points() == self.remaining_code_points().drop_first()
            },
    {
        if let Some((codepoint, num_utf8_bytes)) = next_code_point(self.buffer, self.offset) {
            proof {
                assert(vstd::slice::spec_slice_len(self.buffer) <= usize::MAX);
            }
            let it = Self::new_with_offset(self.buffer, self.offset + num_utf8_bytes);
            proof {
                assert(self.remaining_code_points().drop_first() =~= it.remaining_code_points());
            }
            Some((it, codepoint))
        } else {
            None
        }
    }
}

} // verus!
