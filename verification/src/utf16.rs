//! The UTF-16 encoding form, as a specification: the code units emitted for
//! each code point, their number, and a decoder used to state round-trip
//! correctness.

use vstd::prelude::*;
use vstd::utf8::is_scalar;

verus! {

/// Number of UTF-16 code units needed for one code point: one for values
/// that fit in sixteen bits, two (a surrogate pair) otherwise.
pub open spec fn units_for(cp: u32) -> int {
    if cp <= 0xFFFF {
        1
    } else {
        2
    }
}

/// The UTF-16 code units for one code point: the value itself when it fits
/// in sixteen bits, else a high surrogate carrying the upper ten bits of the
/// value less 0x10000, followed by a low surrogate carrying the lower ten.
pub open spec fn utf16_units(cp: u32) -> Seq<u16> {
    if cp <= 0xFFFF {
        seq![cp as u16]
    } else {
        let adjusted = (cp - 0x10000) as u32;
        seq![(0xD800 | (adjusted >> 10)) as u16, (0xDC00 | (adjusted & 0x3FF)) as u16]
    }
}

/// The UTF-16 code units for a sequence of code points, in input order.
pub open spec fn utf16_of(cps: Seq<u32>) -> Seq<u16>
    decreases cps.len(),
{
    if cps.len() == 0 {
        Seq::empty()
    } else {
        utf16_units(cps[0]) + utf16_of(cps.drop_first())
    }
}

/// The number of UTF-16 code units for a sequence of code points: the sum
/// of [`units_for`] over its elements.
pub open spec fn utf16_len(cps: Seq<u32>) -> int
    decreases cps.len(),
{
    if cps.len() == 0 {
        0
    } else {
        units_for(cps[0]) + utf16_len(cps.drop_first())
    }
}

/// The index of the first zero code point, or the length when none occurs.
pub open spec fn first_null(cps: Seq<u32>) -> int
    decreases cps.len(),
{
    if cps.len() == 0 {
        0
    } else if cps[0] == 0 {
        0
    } else {
        1 + first_null(cps.drop_first())
    }
}

pub proof fn lemma_first_null(cps: Seq<u32>)
    ensures
        0 <= first_null(cps) <= cps.len(),
        first_null(cps) < cps.len() ==> cps[first_null(cps)] == 0,
        forall|j: int| 0 <= j < first_null(cps) ==> cps[j] != 0,
    decreases cps.len(),
{
    if cps.len() > 0 && cps[0] != 0 {
        lemma_first_null(cps.drop_first());
        assert forall|j: int| 0 <= j < first_null(cps) implies cps[j] != 0 by {
            if j > 0 {
                assert(cps.drop_first()[j - 1] == cps[j]);
            }
        }
    }
}

/// The length invariant: the unit sequence for a sequence of code points is
/// exactly [`utf16_len`] of it long, the sum of the per-code-point counts.
pub proof fn lemma_utf16_of_len(cps: Seq<u32>)
    ensures
        utf16_of(cps).len() == utf16_len(cps),
    decreases cps.len(),
{
    if cps.len() > 0 {
        lemma_utf16_of_len(cps.drop_first());
    }
}

pub proof fn lemma_utf16_len_bounds(cps: Seq<u32>)
    ensures
        cps.len() <= utf16_len(cps) <= 2 * cps.len(),
    decreases cps.len(),
{
    if cps.len() > 0 {
        lemma_utf16_len_bounds(cps.drop_first());
    }
}

/// Order preservation: the units of a concatenation are the units of the
/// parts, concatenated. Output code units follow input order.
pub proof fn lemma_utf16_of_concat(a: Seq<u32>, b: Seq<u32>)
    ensures
        utf16_of(a + b) == utf16_of(a) + utf16_of(b),
        utf16_len(a + b) == utf16_len(a) + utf16_len(b),
    decreases a.len(),
{
    if a.len() == 0 {
        assert(a + b =~= b);
        assert(utf16_of(a + b) =~= utf16_of(a) + utf16_of(b));
    } else {
        assert((a + b).drop_first() =~= a.drop_first() + b);
        lemma_utf16_of_concat(a.drop_first(), b);
        assert(utf16_of(a + b) =~= utf16_of(a) + utf16_of(b));
    }
}

pub proof fn lemma_utf16_of_push(cps: Seq<u32>, cp: u32)
    ensures
        utf16_of(cps.push(cp)) == utf16_of(cps) + utf16_units(cp),
        utf16_len(cps.push(cp)) == utf16_len(cps) + units_for(cp),
{
    assert(cps.push(cp) =~= cps + seq![cp]);
    lemma_utf16_of_concat(cps, seq![cp]);
    assert(seq![cp].drop_first() =~= Seq::<u32>::empty());
    assert(utf16_of(Seq::<u32>::empty()) == Seq::<u16>::empty());
    assert(utf16_len(Seq::<u32>::empty()) == 0);
    assert(utf16_of(seq![cp]) =~= utf16_units(cp));
    assert(utf16_len(seq![cp]) == units_for(cp));
}

pub proof fn lemma_utf16_len_mono(cps: Seq<u32>, a: int, b: int)
    requires
        0 <= a <= b <= cps.len(),
    ensures
        utf16_len(cps.take(a)) <= utf16_len(cps.take(b)),
{
    assert(cps.take(b) =~= cps.take(a) + cps.subrange(a, b));
    lemma_utf16_of_concat(cps.take(a), cps.subrange(a, b));
    lemma_utf16_len_bounds(cps.subrange(a, b));
}

/// A unit in the high-surrogate range, the first of a pair.
pub open spec fn is_high_surrogate(u: u16) -> bool {
    0xD800 <= u <= 0xDBFF
}

/// A unit in the low-surrogate range, the second of a pair.
pub open spec fn is_low_surrogate(u: u16) -> bool {
    0xDC00 <= u <= 0xDFFF
}

/// The code point jointly encoded by a surrogate pair: ten bits from each,
/// offset by 0x10000.
pub open spec fn combined_surrogates(hi: u16, lo: u16) -> u32
    recommends
        is_high_surrogate(hi),
        is_low_surrogate(lo),
{
    (0x10000 + ((((hi & 0x3FF) as u32) << 10) | ((lo & 0x3FF) as u32))) as u32
}

/// True when the unit sequence is well-formed UTF-16: every high surrogate
/// begins a surrogate pair and no low surrogate stands alone.
pub open spec fn valid_utf16(units: Seq<u16>) -> bool
    decreases units.len(),
{
    if units.len() == 0 {
        true
    } else if !is_high_surrogate(units[0]) && !is_low_surrogate(units[0]) {
        valid_utf16(units.drop_first())
    } else if is_high_surrogate(units[0]) && units.len() >= 2 && is_low_surrogate(units[1]) {
        valid_utf16(units.skip(2))
    } else {
        false
    }
}

/// The code points read back from a unit sequence, pairing each high
/// surrogate with the low surrogate that follows it.
pub open spec fn decoded_utf16(units: Seq<u16>) -> Seq<u32>
    decreases units.len(),
{
    if units.len() == 0 {
        Seq::empty()
    } else if !is_high_surrogate(units[0]) && !is_low_surrogate(units[0]) {
        seq![units[0] as u32] + decoded_utf16(units.drop_first())
    } else if is_high_surrogate(units[0]) && units.len() >= 2 && is_low_surrogate(units[1]) {
        seq![combined_surrogates(units[0], units[1])] + decoded_utf16(units.skip(2))
    } else {
        Seq::empty()
    }
}

/// Round-trip correctness: the unit sequence for any sequence of Unicode
/// scalar values is well-formed UTF-16 and decodes back to the same values.
pub proof fn lemma_utf16_round_trip(cps: Seq<u32>)
    requires
        forall|i: int| 0 <= i < cps.len() ==> is_scalar(#[trigger] cps[i]),
    ensures
        valid_utf16(utf16_of(cps)),
        decoded_utf16(utf16_of(cps)) == cps,
    decreases cps.len(),
{
    if cps.len() == 0 {
        assert(decoded_utf16(utf16_of(cps)) =~= cps);
    } else {
        let cp = cps[0];
        let units = utf16_of(cps);
        let rest = utf16_of(cps.drop_first());
        lemma_utf16_round_trip(cps.drop_first());
        if cp <= 0xFFFF {
            let u = cp as u16;
            assert(units[0] == u);
            assert(!is_high_surrogate(u) && !is_low_surrogate(u));
            assert(units.drop_first() =~= rest);
            assert(decoded_utf16(units) =~= cps);
        } else {
            let adjusted = (cp - 0x10000) as u32;
            let hi = (0xD800 | (adjusted >> 10)) as u16;
            let lo = (0xDC00 | (adjusted & 0x3FF)) as u16;
            assert(units[0] == hi && units[1] == lo);
            assert(is_high_surrogate(hi) && is_low_surrogate(lo) && (0x10000 + ((((hi
                & 0x3FF) as u32) << 10) | ((lo & 0x3FF) as u32))) as u32 == cp) by (bit_vector)
                requires
                    adjusted <= 0xFFFFF,
                    adjusted + 0x10000 == cp,
                    hi == (0xD800 | (adjusted >> 10)) as u16,
                    lo == (0xDC00 | (adjusted & 0x3FF)) as u16,
            ;
            assert(units.skip(2) =~= rest);
            assert(decoded_utf16(units) =~= cps);
        }
    }
}

} // verus!
