use utf16_encode::decoder::next_code_point;
use utf16_encode::encoder::encode;
use utf16_encode::encoder::encode_utf16;
use utf16_encode::encoder::encode_with_terminating_null;
use utf16_encode::encoder::CAPACITY;
use utf16_encode::CodePointIterator;
use utf16_encode::EncodeError;

#[test]
fn encode_utf16_works() {
    const TEXT: &str = "Hello \0ä日本 語";
    let expected = TEXT.encode_utf16().collect::<Vec<_>>();
    let result = encode(TEXT).unwrap();

    assert_eq!(result.as_slice(), &expected[..]);
}

#[test]
fn encode_utf16_with_null_byte_works() {
    const TEXT: &str = "Hello ä日本 語";
    let result = TEXT.encode_utf16().collect::<Vec<_>>();
    let encoded = encode_with_terminating_null(TEXT).unwrap();
    let units = encoded.as_slice();

    assert_eq!(&units[0..result.len()], &result[..]);
    assert_eq!(&units[result.len()..result.len() + 1], &[0]);
}

#[test]
fn surrogate_pair_for_supplementary_code_point() {
    let result = encode("𝌆").unwrap();
    assert_eq!(result.as_slice(), &[0xD834, 0xDF06]);
}

#[test]
fn ascii_passthrough() {
    const TEXT: &str = "Hello, world!";
    let result = encode(TEXT).unwrap();
    assert_eq!(result.len(), 13);
    let widened = TEXT.bytes().map(|b| b as u16).collect::<Vec<_>>();
    assert_eq!(result.as_slice(), &widened[..]);
}

#[test]
fn mixed_script_unit_count_equals_char_count() {
    const TEXT: &str = "Hello ä日本 語";
    let result = encode(TEXT).unwrap();
    assert_eq!(result.len(), TEXT.chars().count());
}

#[test]
fn unit_count_exactly_at_capacity_succeeds() {
    let text = "a".repeat(CAPACITY);
    let result = encode(&text).unwrap();
    assert_eq!(result.len(), CAPACITY);
}

#[test]
fn unit_count_one_past_capacity_fails() {
    let text = "a".repeat(CAPACITY + 1);
    assert_eq!(encode(&text).unwrap_err(), EncodeError::CapacityExceeded);
}

#[test]
fn terminator_counts_against_capacity() {
    let fitting = "a".repeat(CAPACITY - 1);
    let result = encode_with_terminating_null(&fitting).unwrap();
    assert_eq!(result.len(), CAPACITY);

    let too_long = "a".repeat(CAPACITY);
    assert_eq!(
        encode_with_terminating_null(&too_long).unwrap_err(),
        EncodeError::CapacityExceeded
    );
}

#[test]
fn surrogate_pair_split_by_capacity_fails() {
    // 511 single-unit characters and 257 double-unit ones need 1025 units.
    let mut text = "a".repeat(511);
    for _ in 0..257 {
        text.push('𝌆');
    }
    assert_eq!(encode(&text).unwrap_err(), EncodeError::CapacityExceeded);
}

#[test]
fn embedded_null_is_rejected() {
    assert_eq!(
        encode_with_terminating_null("Hello \0ä日本 語").unwrap_err(),
        EncodeError::NullByte
    );
}

#[test]
fn trailing_null_is_rejected() {
    assert_eq!(
        encode_with_terminating_null("abc\0").unwrap_err(),
        EncodeError::NullByte
    );
}

#[test]
fn encode_keeps_null_when_not_rejecting() {
    let result = encode("a\0b").unwrap();
    assert_eq!(result.as_slice(), &[0x61, 0x00, 0x62]);
}

#[test]
fn null_terminated_result_extends_plain_result() {
    const TEXT: &str = "Hej 𝌆!";
    let plain = encode(TEXT).unwrap();
    let terminated = encode_with_terminating_null(TEXT).unwrap();
    let mut expected = plain.as_slice().to_vec();
    expected.push(0);
    assert_eq!(terminated.as_slice(), &expected[..]);
}

#[test]
fn buffer_equality_is_over_the_written_units() {
    assert!(encode("ab").unwrap() == encode("ab").unwrap());
    assert!(encode("ab").unwrap() != encode("ba").unwrap());
    assert!(encode("a").unwrap() != encode("ab").unwrap());
}

#[test]
fn iterator_yields_one_code_point_per_character() {
    const TEXT: &str = "aä日𝌆";
    let expected = TEXT.chars().map(|c| c as u32).collect::<Vec<_>>();
    let mut collected = Vec::new();
    let mut iterator = CodePointIterator::new(TEXT.as_bytes());
    while let Some((next, code)) = iterator.next() {
        iterator = next;
        collected.push(code);
    }
    assert_eq!(collected, expected);
}

#[test]
fn iterator_with_offset_skips_a_prefix() {
    const TEXT: &str = "aä";
    let iterator = CodePointIterator::new_with_offset(TEXT.as_bytes(), 1);
    let (iterator, code) = iterator.next().unwrap();
    assert_eq!(code, 0xE4);
    assert!(iterator.next().is_none());
}

#[test]
fn next_code_point_reports_bytes_consumed() {
    let bytes = "€rest".as_bytes();
    let (code, consumed) = next_code_point(bytes, 0).unwrap();
    assert_eq!(code, 0x20AC);
    assert_eq!(consumed, 3);
    assert_eq!(next_code_point(bytes, 3).unwrap(), (0x72, 1));
    assert!(next_code_point(bytes, bytes.len()).is_none());
}

#[test]
fn truncated_sequence_synthesizes_zero_continuation() {
    // A three-byte sequence cut off after two bytes: the missing byte is
    // read as zero and only the in-bounds bytes are consumed.
    let bytes: [u8; 2] = [0xE3, 0x81];
    let (code, consumed) = next_code_point(&bytes, 0).unwrap();
    assert_eq!(code, 0x3040);
    assert_eq!(consumed, 2);
    assert!(next_code_point(&bytes, 2).is_none());
}

#[test]
fn zero_continuation_byte_is_not_consumed() {
    // A zero byte where a continuation byte belongs is not counted as
    // consumed, so it is decoded again as its own code point.
    let bytes: [u8; 2] = [0xC3, 0x00];
    let result = encode_utf16(&bytes, false, false).unwrap();
    assert_eq!(result.as_slice(), &[0x00C0, 0x0000]);
}

#[test]
fn empty_text_encodes_to_no_units() {
    let result = encode("").unwrap();
    assert_eq!(result.len(), 0);
    let terminated = encode_with_terminating_null("").unwrap();
    assert_eq!(terminated.as_slice(), &[0]);
}

#[test]
fn flags_drive_rejection_and_terminator_independently() {
    let bytes = "ab".as_bytes();
    let plain = encode_utf16(bytes, false, false).unwrap();
    assert_eq!(plain.as_slice(), &[0x61, 0x62]);
    let terminated = encode_utf16(bytes, false, true).unwrap();
    assert_eq!(terminated.as_slice(), &[0x61, 0x62, 0x00]);
    let rejecting = encode_utf16("a\0".as_bytes(), true, false).unwrap_err();
    assert_eq!(rejecting, EncodeError::NullByte);
}
