//! The UTF-16 encoder: consumes the code points of a UTF-8 byte sequence
//! and writes one code unit, or a surrogate pair, per code point into a
//! bounded output buffer.
//!
//! Two conditions end a conversion without a result: a zero code point when
//! null rejection is requested, and a write that would pass the buffer's
//! capacity. Both are reported at the first offending code point.

use vstd::prelude::*;

use crate::decoder::code_points_from;
use crate::decoder::lemma_code_points_of_encoding;
use crate::decoder::scalar_values;
use crate::decoder::CodePointIterator;
use crate::utf16::decoded_utf16;
use crate::utf16::first_null;
use crate::utf16::lemma_first_null;
use crate::utf16::lemma_utf16_of_concat;
use crate::utf16::lemma_utf16_round_trip;
use crate::utf16::valid_utf16;
use crate::utf16::lemma_utf16_len_mono;
use crate::utf16::lemma_utf16_of_len;
use crate::utf16::lemma_utf16_of_push;
use crate::utf16::utf16_len;
use crate::utf16::utf16_of;

verus! {

/// Capacity of the output buffer, in code units.
pub const CAPACITY: usize = 1024;

/// Why a conversion returned no result.
#[derive(Clone, Copy, Debug, PartialEq, Eq, Structural)]
pub enum EncodeError {
    /// A zero code point was found while null rejection was requested.
    NullByte,
    /// The text's UTF-16 form needs more code units than the buffer holds.
    CapacityExceeded,
}

/// The conversion result: the code units actually written, never more than
/// [`CAPACITY`] of them. Its view is that unit sequence and nothing else.
#[derive(Debug)]
pub struct Utf16Buffer {
    units: Vec<u16>,
}

impl View for Utf16Buffer {
    type V = Seq<u16>;

    closed spec fn view(&self) -> Seq<u16> {
        self.units@
    }
}

impl Utf16Buffer {
    /// The written code units, in input order.
    pub fn as_slice(&self) -> (r: &[u16])
        ensures
            r@ == self@,
    {
        self.units.as_slice()
    }

    /// The logical length: how many code units were written.
    pub fn len(&self) -> (r: usize)
        ensures
            r == self@.len(),
    {
        self.units.len()
    }
}

impl PartialEq for Utf16Buffer {
    /// Equality compares the written units only, never any unused storage.
    fn eq(&self, other: &Self) -> (r: bool) {
        if self.units.len() != other.units.len() {
            return false;
        }
        let mut i: usize = 0;
        while i < self.units.len()
            invariant
                i <= self.units@.len(),
                self.units@.len() == other.units@.len(),
                forall|j: int| 0 <= j < i ==> self.units@[j] == other.units@[j],
            decreases self.units@.len() - i,
        {
            if self.units[i] != other.units[i] {
                return false;
            }
            i += 1;
        }
        proof {
            assert(self.units@ =~= other.units@);
        }
        true
    }
}

impl vstd::std_specs::cmp::PartialEqSpecImpl for Utf16Buffer {
    open spec fn obeys_eq_spec() -> bool {
        true
    }

    open spec fn eq_spec(&self, other: &Self) -> bool {
        self@ == other@
    }
}

/// How many code points the conversion pass examines before it stops: up to
/// the first zero code point when nulls are rejected, else all of them.
pub open spec fn checked_prefix(cps: Seq<u32>, reject_null: bool) -> int {
    if reject_null {
        first_null(cps)
    } else {
        cps.len() as int
    }
}

/// The outcome of converting the code points `cps`: the units written on
/// success, and otherwise which failure was hit first. A null is rejected
/// only when every code unit before it fit into the buffer; a capacity
/// failure is reported at the first unit that would not fit.
pub open spec fn conversion_result(
    cps: Seq<u32>,
    reject_null: bool,
    append_terminating_null: bool,
) -> Result<Seq<u16>, EncodeError> {
    let k = checked_prefix(cps, reject_null);
    let extra: int = if append_terminating_null {
        1
    } else {
        0
    };
    if utf16_len(cps.take(k)) + (if k == cps.len() {
        extra
    } else {
        0
    }) > CAPACITY as int {
        Err(EncodeError::CapacityExceeded)
    } else if k < cps.len() {
        Err(EncodeError::NullByte)
    } else {
        Ok(
            utf16_of(cps) + (if append_terminating_null {
                seq![0u16]
            } else {
                Seq::empty()
            }),
        )
    }
}

/// Converts a UTF-8 byte sequence into its UTF-16 code units, in a single
/// pass. With `reject_null` set, a zero code point anywhere ends the
/// conversion. With `append_terminating_null` set, one final zero unit is
/// written after the text, subject to the same capacity check.
pub fn encode_utf16(bytes: &[u8], reject_null: bool, append_terminating_null: bool) -> (r: Result<
    Utf16Buffer,
    EncodeError,
>)
    ensures
        ({
            let cps = code_points_from(bytes@, 0);
            match r {
                Ok(buffer) => conversion_result(cps, reject_null, append_terminating_null)
                    == Ok::<Seq<u16>, EncodeError>(buffer@),
                Err(e) => conversion_result(cps, reject_null, append_terminating_null) == Err::<
                    Seq<u16>,
                    EncodeError,
                >(e),
            }
        }),
{
    let ghost cps = code_points_from(bytes@, 0);
    let ghost k = checked_prefix(cps, reject_null);
    proof {
        lemma_first_null(cps);
        assert(cps.take(0) =~= Seq::<u32>::empty());
        assert(utf16_of(Seq::<u32>::empty()) =~= Seq::<u16>::empty());
        assert(cps.skip(0) =~= cps);
    }
    let mut units: Vec<u16> = Vec::new();
    let mut it = CodePointIterator::new(bytes);
    let ghost mut i: int = 0;
    loop
        invariant
            it.wf(),
            cps == code_points_from(bytes@, 0),
            0 <= i <= k <= cps.len(),
            k == checked_prefix(cps, reject_null),
            it.remaining_code_points() == cps.skip(i),
            units@ == utf16_of(cps.take(i)),
            units@.len() <= CAPACITY,
        ensures
            i == cps.len(),
            k == cps.len(),
            units@ == utf16_of(cps),
            units@.len() <= CAPACITY,
        decreases cps.len() - i,
    {
        match it.next() {
            None => {
                proof {
                    assert(i == cps.len());
                    assert(cps.take(i) =~= cps);
                }
                break ;
            },
            Some((next_it, code)) => {
                proof {
                    lemma_first_null(cps);
                    assert(i < cps.len());
                    assert(code == cps.skip(i)[0] == cps[i]);
                    assert(cps.skip(i).drop_first() =~= cps.skip(i + 1));
                    lemma_utf16_of_len(cps.take(i));
                }
                if code == 0 && reject_null {
                    proof {
                        // The null check passed for everything before `i`,
                        // so `i` is exactly the first null.
                        assert(i == k);
                    }
                    return Err(EncodeError::NullByte);
                }
                proof {
                    // Either nulls are not rejected (`k` is the length) or
                    // this code point is not null, so the first null lies
                    // beyond it.
                    assert(i + 1 <= k);
                    assert(cps.take(i + 1) =~= cps.take(i).push(cps[i]));
                    lemma_utf16_of_push(cps.take(i), cps[i]);
                    lemma_utf16_of_len(cps.take(i + 1));
                }
                if (code & 0xFFFF) == code {
                    proof {
                        assert(code <= 0xFFFF) by (bit_vector)
                            requires
                                code & 0xFFFF == code,
                        ;
                    }
                    if units.len() >= CAPACITY {
                        proof {
                            lemma_utf16_len_mono(cps, i + 1, k);
                        }
                        return Err(EncodeError::CapacityExceeded);
                    }
                    units.push(code as u16);
                } else {
                    proof {
                        assert(code > 0xFFFF) by (bit_vector)
                            requires
                                code & 0xFFFF != code,
                        ;
                    }
                    if units.len() + 2 > CAPACITY {
                        proof {
                            lemma_utf16_len_mono(cps, i + 1, k);
                        }
                        return Err(EncodeError::CapacityExceeded);
                    }
                    // Supplementary planes break into surrogate pairs.
                    let adjusted = code - 0x10000;
                    units.push(#[verifier::truncate] ((0xD800u32 | (adjusted >> 10)) as u16));
                    units.push(#[verifier::truncate] ((0xDC00u32 | (adjusted & 0x3FF)) as u16));
                }
                proof {
                    i = i + 1;
                }
                it = next_it;
            },
        }
    }
    if append_terminating_null {
        if units.len() >= CAPACITY {
            proof {
                lemma_utf16_of_len(cps);
            }
            return Err(EncodeError::CapacityExceeded);
        }
        units.push(0);
    }
    proof {
        lemma_utf16_of_len(cps);
        assert(cps.take(k) =~= cps);
        if append_terminating_null {
            assert(units@ =~= utf16_of(cps) + seq![0u16]);
        } else {
            assert(units@ =~= utf16_of(cps) + Seq::<u16>::empty());
        }
    }
    Ok(Utf16Buffer { units })
}

/// A character's scalar value is zero exactly when it is the null character.
proof fn lemma_null_char(c: char)
    ensures
        (c as u32 == 0) <==> (c == '\0'),
{
    vstd::utf8::char_u32_cast(c, c as u32);
    assert(('\0' as u32) == 0);
}

/// Converts `text` into its UTF-16 code units: no null rejection, no
/// appended terminator. Succeeds exactly when the converted text fits the
/// buffer, and then returns the unit sequence of the text's scalar values.
pub fn encode(text: &str) -> (r: Result<Utf16Buffer, EncodeError>)
    ensures
        ({
            let cps = scalar_values(text@);
            match r {
                Ok(buffer) => conversion_result(cps, false, false) == Ok::<Seq<u16>, EncodeError>(
                    buffer@,
                ),
                Err(e) => conversion_result(cps, false, false) == Err::<Seq<u16>, EncodeError>(e),
            }
        }),
        r is Ok <==> utf16_len(scalar_values(text@)) <= CAPACITY as int,
        r matches Ok(buffer) ==> buffer@ == utf16_of(scalar_values(text@)),
{
    proof {
        lemma_code_points_of_encoding(text@);
    }
    let r = encode_utf16(text.as_bytes(), false, false);
    proof {
        let cps = scalar_values(text@);
        assert(cps.take(cps.len() as int) =~= cps);
        assert(utf16_of(cps) + Seq::<u16>::empty() =~= utf16_of(cps));
    }
    r
}

/// Converts `text` into its UTF-16 code units with null rejection enabled,
/// then appends one terminating zero unit. Fails on any text holding a null
/// character anywhere; succeeds exactly on null-free text whose units plus
/// the terminator fit the buffer, and then returns the unit sequence of
/// [`encode`] followed by a single zero, the only zero unit in the result.
pub fn encode_with_terminating_null(text: &str) -> (r: Result<Utf16Buffer, EncodeError>)
    ensures
        ({
            let cps = scalar_values(text@);
            match r {
                Ok(buffer) => conversion_result(cps, true, true) == Ok::<Seq<u16>, EncodeError>(
                    buffer@,
                ),
                Err(e) => conversion_result(cps, true, true) == Err::<Seq<u16>, EncodeError>(e),
            }
        }),
        r is Ok <==> ((forall|j: int| 0 <= j < text@.len() ==> text@[j] != '\0') && utf16_len(
            scalar_values(text@),
        ) + 1 <= CAPACITY as int),
        r matches Ok(buffer) ==> buffer@ == utf16_of(scalar_values(text@)) + seq![0u16],
        (exists|j: int| 0 <= j < text@.len() && text@[j] == '\0') ==> r is Err,
{
    proof {
        lemma_code_points_of_encoding(text@);
    }
    let r = encode_utf16(text.as_bytes(), true, true);
    proof {
        let cps = scalar_values(text@);
        lemma_first_null(cps);
        let k = first_null(cps);
        if k == cps.len() {
            assert(cps.take(k) =~= cps);
            assert forall|j: int| 0 <= j < text@.len() implies text@[j] != '\0' by {
                assert(cps[j] == text@[j] as u32);
                lemma_null_char(text@[j]);
            }
        } else {
            lemma_null_char(text@[k]);
            assert(text@[k] == '\0');
        }
        if exists|j: int| 0 <= j < text@.len() && text@[j] == '\0' {
            let j0 = choose|j: int| 0 <= j < text@.len() && text@[j] == '\0';
            lemma_null_char(text@[j0]);
            assert(cps[j0] == 0);
            assert(k < cps.len());
        }
    }
    r
}

/// Null rejection: with rejection and terminator requested, conversion
/// fails on any text holding a null character anywhere; on null-free text
/// whose units and terminator fit the buffer it succeeds, and its units are
/// exactly those of the plain conversion followed by a single zero.
pub proof fn lemma_null_rejection(text: Seq<char>)
    ensures
        (exists|j: int| 0 <= j < text.len() && text[j] == '\0') ==> conversion_result(
            scalar_values(text),
            true,
            true,
        ) is Err,
        ((forall|j: int| 0 <= j < text.len() ==> text[j] != '\0') && utf16_len(scalar_values(text))
            + 1 <= CAPACITY as int) ==> {
            &&& conversion_result(scalar_values(text), true, true) == Ok::<Seq<u16>, EncodeError>(
                utf16_of(scalar_values(text)) + seq![0u16],
            )
            &&& conversion_result(scalar_values(text), false, false) == Ok::<Seq<u16>, EncodeError>(
                utf16_of(scalar_values(text)),
            )
        },
{
    let cps = scalar_values(text);
    lemma_first_null(cps);
    let k = first_null(cps);
    assert(cps.take(cps.len() as int) =~= cps);
    assert(utf16_of(cps) + Seq::<u16>::empty() =~= utf16_of(cps));
    if exists|j: int| 0 <= j < text.len() && text[j] == '\0' {
        let j0 = choose|j: int| 0 <= j < text.len() && text[j] == '\0';
        lemma_null_char(text[j0]);
        assert(cps[j0] == 0);
        assert(k < cps.len());
    }
    if forall|j: int| 0 <= j < text.len() ==> text[j] != '\0' {
        if k < cps.len() {
            lemma_null_char(text[k]);
        }
        assert(k == cps.len());
    }
}

/// Order preservation: the units of a concatenation are the units of the
/// first part followed by those of the second; output code units keep the
/// input text's order.
pub proof fn lemma_order_preserved(t1: Seq<char>, t2: Seq<char>)
    ensures
        utf16_of(scalar_values(t1 + t2)) == utf16_of(scalar_values(t1)) + utf16_of(
            scalar_values(t2),
        ),
{
    assert(scalar_values(t1 + t2) =~= scalar_values(t1) + scalar_values(t2));
    lemma_utf16_of_concat(scalar_values(t1), scalar_values(t2));
}

/// Round-trip correctness: the UTF-16 units of any character sequence are
/// well-formed UTF-16, and a standard UTF-16 decoder reads the original
/// characters back from them.
pub proof fn lemma_encode_round_trip(text: Seq<char>)
    ensures
        valid_utf16(utf16_of(scalar_values(text))),
        decoded_utf16(utf16_of(scalar_values(text))).map_values(|v: u32| v as char) == text,
{
    let cps = scalar_values(text);
    assert forall|j: int| 0 <= j < cps.len() implies vstd::utf8::is_scalar(#[trigger] cps[j]) by {
        vstd::utf8::char_is_scalar(text[j]);
    }
    lemma_utf16_round_trip(cps);
    assert forall|j: int| 0 <= j < text.len() implies decoded_utf16(utf16_of(cps)).map_values(
        |v: u32| v as char,
    )[j] == text[j] by {
        vstd::utf8::char_u32_cast(text[j], text[j] as u32);
    }
    assert(decoded_utf16(utf16_of(cps)).map_values(|v: u32| v as char) =~= text);
}

} // verus!
