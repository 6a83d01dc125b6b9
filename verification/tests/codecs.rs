use posting_codecs::codecs::{
    decode_doc_ids_only, decode_fields_only, decode_freqs_fields, decode_freqs_only,
    decode_numeric, encode_doc_ids_only, encode_fields_only, encode_freqs_fields,
    encode_freqs_only, encode_numeric, read_doc_ids_only, read_flags, read_freqs,
    read_freqs_flags, read_numeric, TestBuffer,
};
use posting_codecs::error::{DecodeError, EncodeError};
use posting_codecs::filter::NumericFilter;
use posting_codecs::numeric::NumericValue;
use posting_codecs::result::{RSIndexResult, RSResultData};

#[test]
fn test_encode_numeric() {
    let tests = [
        // Tiny int tests
        (2.0, 0, vec![0b010_00_000]),
        (7.0, 2, vec![0b111_00_001, 2]),
        (0.0, 256, vec![0b000_00_010, 0, 1]),
        // Pos int tests
        (16.0, 1, vec![0b000_10_001, 1, 16]),
        (256.0, 0, vec![0b001_10_000, 0, 1]),
        // Neg int tests
        (-16.0, 1, vec![0b000_11_001, 1, 16]),
        (-256.0, 0, vec![0b001_11_000, 0, 1]),
        // Pos small float test
        (3.125, 1, vec![0b000_01_001, 1, 0, 0, 72, 64]),
        (3.125, 0, vec![0b000_01_000, 0, 0, 72, 64]),
        // Neg small float test
        (-3.125, 1, vec![0b010_01_001, 1, 0, 0, 72, 64]),
        (-3.125, 0, vec![0b010_01_000, 0, 0, 72, 64]),
        // Pos infinite float test
        (f64::INFINITY, 1, vec![0b001_01_001, 1]),
        (f64::INFINITY, 0, vec![0b001_01_000]),
        // Neg infinite float test
        (f64::NEG_INFINITY, 1, vec![0b011_01_001, 1]),
        (f64::NEG_INFINITY, 0, vec![0b011_01_000]),
        // Pos big float test
        (
            3.124,
            1,
            vec![0b100_01_001, 1, 203, 161, 69, 182, 243, 253, 8, 64],
        ),
        (
            3.124,
            0,
            vec![0b100_01_000, 203, 161, 69, 182, 243, 253, 8, 64],
        ),
        // Neg big float test
        (
            -3.124,
            1,
            vec![0b110_01_001, 1, 203, 161, 69, 182, 243, 253, 8, 64],
        ),
        (
            -3.124,
            0,
            vec![0b110_01_000, 203, 161, 69, 182, 243, 253, 8, 64],
        ),
    ];

    for (input, delta, expected_encoding) in tests {
        let mut buffer = TestBuffer::with_capacity(16);

        let mut record = RSIndexResult::numeric(f64::to_bits(input)).doc_id(1_000);

        let written = encode_numeric(&mut buffer, &mut record, delta).unwrap();
        assert_eq!(written, expected_encoding.len());

        assert_eq!(
            buffer.0.as_slice(),
            expected_encoding,
            "does not match for input: {}",
            input
        );

        let base_id = 1_000 - delta;
        let (returned, decoded_result) = read_numeric(&buffer.0, base_id).unwrap();

        assert!(returned);
        assert_eq!(
            decoded_result, record,
            "does not match for input: {}",
            input
        );
        match decoded_result.data {
            RSResultData::Numeric(bits) => assert_eq!(f64::from_bits(bits), input),
            _ => panic!("not a number"),
        }
    }
}

#[test]
fn test_encode_freqs_only() {
    let tests = [
        // (frequency, delta, expected encoding)
        (0, 0, vec![0, 0, 0]),
        (0, 1, vec![0, 1, 0]),
        (2, 0, vec![0, 0, 2]),
        (2, 1, vec![0, 1, 2]),
        (256, 0, vec![4, 0, 0, 1]),
        (256, 256, vec![5, 0, 1, 0, 1]),
        (2, 65536, vec![2, 0, 0, 1, 2]),
        (
            u16::MAX as u32 + 1,
            u16::MAX as u64 + 1,
            vec![10, 0, 0, 1, 0, 0, 1],
        ),
        (2, u32::MAX as u64, vec![3, 255, 255, 255, 255, 2]),
        (
            u32::MAX,
            u32::MAX as u64,
            vec![15, 255, 255, 255, 255, 255, 255, 255, 255],
        ),
    ];
    let doc_id = 4294967296;

    for (freq, delta, expected_encoding) in tests {
        let mut buffer = TestBuffer::with_capacity(expected_encoding.len());
        let mut record = RSIndexResult::virt().doc_id(doc_id).frequency(freq);

        let written = encode_freqs_only(&mut buffer, &mut record, delta).unwrap();
        assert_eq!(written, expected_encoding.len());
        assert_eq!(buffer.0.as_slice(), expected_encoding);

        let base_id = doc_id - delta;
        let (returned, decoded_result) = read_freqs(&buffer.0, base_id).unwrap();
        assert!(returned);
        assert_eq!(decoded_result, record);
    }
}

#[test]
fn test_encode_freqs_fields() {
    let tests = [
        // (delta, frequency, field mask, expected encoding)
        (0, 1, 1, vec![0, 0, 1, 1]),
        (
            10,
            5,
            u32::MAX as u128,
            vec![48, 10, 5, 255, 255, 255, 255],
        ),
        (256, 1, 1, vec![1, 0, 1, 1, 1]),
        (65536, 1, 1, vec![2, 0, 0, 1, 1, 1]),
        (u16::MAX as u64, 1, 1, vec![1, 255, 255, 1, 1]),
        (u32::MAX as u64, 1, 1, vec![3, 255, 255, 255, 255, 1, 1]),
        (
            u32::MAX as u64,
            u32::MAX,
            u32::MAX as u128,
            vec![
                63, 255, 255, 255, 255, 255, 255, 255, 255, 255, 255, 255, 255,
            ],
        ),
    ];
    let doc_id = 4294967296;

    for (delta, freq, field_mask, expected_encoding) in tests {
        let mut buffer = TestBuffer::with_capacity(expected_encoding.len());

        let mut record = RSIndexResult::term()
            .doc_id(doc_id)
            .field_mask(field_mask)
            .frequency(freq);

        let written = encode_freqs_fields(&mut buffer, &mut record, delta, false).unwrap();
        assert_eq!(written, expected_encoding.len());
        assert_eq!(buffer.0.as_slice(), expected_encoding);

        let base_id = doc_id - delta;
        let (returned, decoded_result) = read_freqs_flags(&buffer.0, base_id, false).unwrap();
        assert!(returned);
        assert_eq!(decoded_result, record);
    }
}

#[test]
fn test_encode_freqs_fields_wide() {
    let tests = [
        // (delta, frequency, field mask, expected encoding)
        (0, 1, 1, vec![0, 0, 1, 1]),
        (
            10,
            5,
            u32::MAX as u128,
            vec![0, 10, 5, 142, 254, 254, 254, 127],
        ),
        (256, 1, 1, vec![1, 0, 1, 1, 1]),
        (65536, 1, 1, vec![2, 0, 0, 1, 1, 1]),
        (u16::MAX as u64, 1, 1, vec![1, 255, 255, 1, 1]),
        (u32::MAX as u64, 1, 1, vec![3, 255, 255, 255, 255, 1, 1]),
        // field mask larger than 32 bits
        (
            u32::MAX as u64,
            u32::MAX,
            u32::MAX as u128,
            vec![
                15, 255, 255, 255, 255, 255, 255, 255, 255, 142, 254, 254, 254, 127,
            ],
        ),
        (
            u32::MAX as u64,
            u32::MAX,
            u128::MAX,
            vec![
                15, 255, 255, 255, 255, 255, 255, 255, 255, 130, 254, 254, 254, 254, 254, 254,
                254, 254, 254, 254, 254, 254, 254, 254, 254, 254, 254, 127,
            ],
        ),
    ];
    let doc_id = 4294967296;

    for (delta, freq, field_mask, expected_encoding) in tests {
        let mut buffer = TestBuffer::with_capacity(expected_encoding.len());

        let mut record = RSIndexResult::term()
            .doc_id(doc_id)
            .field_mask(field_mask)
            .frequency(freq);

        let written = encode_freqs_fields(&mut buffer, &mut record, delta, true).unwrap();
        assert_eq!(written, expected_encoding.len());
        assert_eq!(buffer.0.as_slice(), expected_encoding);

        let base_id = doc_id - delta;
        let (returned, decoded_result) = read_freqs_flags(&buffer.0, base_id, true).unwrap();
        assert!(returned);
        assert_eq!(decoded_result, record);
    }
}

#[test]
fn test_encode_fields_only() {
    let tests = [
        // (delta, field mask, expected encoding)
        (0, 1, vec![0, 0, 1]),
        (
            10,
            u32::MAX as u128,
            vec![12, 10, 255, 255, 255, 255],
        ),
        (256, 1, vec![1, 0, 1, 1]),
        (65536, 1, vec![2, 0, 0, 1, 1]),
        (u16::MAX as u64, 1, vec![1, 255, 255, 1]),
        (u32::MAX as u64, 1, vec![3, 255, 255, 255, 255, 1]),
        (
            u32::MAX as u64,
            u32::MAX as u128,
            vec![15, 255, 255, 255, 255, 255, 255, 255, 255],
        ),
    ];
    let doc_id = 4294967296;

    for (delta, field_mask, expected_encoding) in tests {
        let mut buffer = TestBuffer::with_capacity(expected_encoding.len());

        let mut record = RSIndexResult::term()
            .doc_id(doc_id)
            .field_mask(field_mask);

        let written = encode_fields_only(&mut buffer, &mut record, delta, false).unwrap();
        assert_eq!(written, expected_encoding.len());
        assert_eq!(buffer.0.as_slice(), expected_encoding);

        let base_id = doc_id - delta;
        let (returned, decoded_result) = read_flags(&buffer.0, base_id, false).unwrap();
        assert!(returned);
        assert_eq!(decoded_result, record);
    }
}

#[test]
fn test_encode_fields_only_wide() {
    let tests = [
        // (delta, field mask, expected encoding)
        (0, 1, vec![0, 1]),
        (
            10,
            u32::MAX as u128,
            vec![10, 142, 254, 254, 254, 127],
        ),
        (256, 1, vec![129, 0, 1]),
        (65536, 1, vec![130, 255, 0, 1]),
        (u16::MAX as u64, 1, vec![130, 254, 127, 1]),
        (u32::MAX as u64, 1, vec![142, 254, 254, 254, 127, 1]),
        (
            u32::MAX as u64,
            u32::MAX as u128,
            vec![142, 254, 254, 254, 127, 142, 254, 254, 254, 127],
        ),
        // field mask larger than 32 bits
        (
            u32::MAX as u64,
            u32::MAX as u128,
            vec![142, 254, 254, 254, 127, 142, 254, 254, 254, 127],
        ),
        (
            u32::MAX as u64,
            u128::MAX,
            vec![
                142, 254, 254, 254, 127, 130, 254, 254, 254, 254, 254, 254, 254, 254, 254, 254,
                254, 254, 254, 254, 254, 254, 254, 127,
            ],
        ),
    ];
    let doc_id = 4294967296;

    for (delta, field_mask, expected_encoding) in tests {
        let mut buffer = TestBuffer::with_capacity(expected_encoding.len());

        let mut record = RSIndexResult::term()
            .doc_id(doc_id)
            .field_mask(field_mask)
            .frequency(1);

        let written = encode_fields_only(&mut buffer, &mut record, delta, true).unwrap();
        assert_eq!(written, expected_encoding.len());
        assert_eq!(buffer.0.as_slice(), expected_encoding);

        let base_id = doc_id - delta;
        let (returned, decoded_result) = read_flags(&buffer.0, base_id, true).unwrap();
        assert!(returned);
        assert_eq!(decoded_result, record);
    }
}

#[test]
fn test_doc_ids_only() {
    let tests = [
        // (delta, expected encoding)
        (0, vec![0]),
        (10, vec![10]),
        (256, vec![129, 0]),
        (65536, vec![130, 255, 0]),
        (u16::MAX as u64, vec![130, 254, 127]),
        (u32::MAX as u64, vec![142, 254, 254, 254, 127]),
    ];

    let doc_id = 4294967296;

    for (delta, expected_encoding) in tests {
        let mut buffer = TestBuffer::with_capacity(expected_encoding.len());

        let mut record = RSIndexResult::term().doc_id(doc_id).frequency(1);

        let written = encode_doc_ids_only(&mut buffer, &mut record, delta).unwrap();
        assert_eq!(written, expected_encoding.len());
        assert_eq!(buffer.0.as_slice(), expected_encoding);

        let base_id = doc_id - delta;
        let (returned, decoded_result) = read_doc_ids_only(&buffer.0, base_id).unwrap();
        assert!(returned);
        assert_eq!(decoded_result, record);
    }
}

#[test]
fn numeric_tiny_two_is_one_byte() {
    let mut buffer = TestBuffer::with_capacity(1);
    let record = RSIndexResult::numeric(2.0f64.to_bits());
    assert_eq!(encode_numeric(&mut buffer, &record, 0), Ok(1));
    assert_eq!(buffer.0, vec![0x40]);
    let (matched, decoded) = read_numeric(&buffer.0, 1000).unwrap();
    assert!(matched);
    assert_eq!(decoded.doc_id, 1000);
    assert_eq!(decoded.data, RSResultData::Numeric(2.0f64.to_bits()));
    assert_eq!(decoded, record.doc_id(1000));
}

#[test]
fn numeric_negative_small_float() {
    let mut buffer = TestBuffer::with_capacity(6);
    let record = RSIndexResult::numeric((-3.125f64).to_bits()).doc_id(8);
    assert_eq!(encode_numeric(&mut buffer, &record, 1), Ok(6));
    assert_eq!(buffer.0, vec![0x49, 0x01, 0x00, 0x00, 0x48, 0x40]);
    let (_, decoded) = read_numeric(&buffer.0, 7).unwrap();
    assert_eq!(decoded, record);
    assert_eq!(decoded.data, RSResultData::Numeric((-3.125f64).to_bits()));
    assert_eq!(
        posting_codecs::numeric::decode(&buffer.0, 0),
        Ok((1, NumericValue::Single { negative: true, bits: 3.125f32.to_bits() }, 6))
    );
}

#[test]
fn numeric_widest_integer_and_delta() {
    let mut buffer = TestBuffer::with_capacity(16);
    let value = NumericValue::Int { negative: true, magnitude: u64::MAX };
    assert_eq!(posting_codecs::numeric::encode(&mut buffer.0, 0x00FF_FFFF_FFFF_FFFF, value), Ok(16));
    let mut expected = vec![0b111_11_111u8];
    expected.extend_from_slice(&[255; 7]);
    expected.extend_from_slice(&[255; 8]);
    assert_eq!(buffer.0, expected);
    assert_eq!(posting_codecs::numeric::decode(&buffer.0, 0), Ok((0x00FF_FFFF_FFFF_FFFF, value, 16)));
    // no 64-bit float holds the number: the nearest one is read
    let nearest = RSIndexResult::numeric((-18446744073709551616.0f64).to_bits());
    assert_eq!(
        decode_numeric(&buffer.0, 0, 0, None),
        Ok((true, nearest.doc_id(0x00FF_FFFF_FFFF_FFFF), 16))
    );

    let mut buffer = TestBuffer::with_capacity(16);
    let record = RSIndexResult::numeric((-9223372036854775808.0f64).to_bits()).doc_id(9);
    assert_eq!(encode_numeric(&mut buffer, &record, 0x00FF_FFFF_FFFF_FFFF), Ok(16));
    assert_eq!(buffer.0[..8], expected[..8]);
    assert_eq!(buffer.0[8..], [0, 0, 0, 0, 0, 0, 0, 0x80]);
    assert_eq!(decode_numeric(&buffer.0, 0, 1, None), Ok((true, record.doc_id(1 << 56), 16)));
}

#[test]
fn numeric_tiny_integer_loses_its_sign() {
    let mut buffer = TestBuffer::with_capacity(1);
    let record = RSIndexResult::numeric((-3.0f64).to_bits());
    assert_eq!(encode_numeric(&mut buffer, &record, 0), Ok(1));
    assert_eq!(buffer.0, vec![0b011_00_000]);
    let (_, decoded) = read_numeric(&buffer.0, 0).unwrap();
    assert_eq!(decoded, RSIndexResult::numeric(3.0f64.to_bits()));

    let mut buffer = TestBuffer::with_capacity(1);
    let record = RSIndexResult::numeric((-0.0f64).to_bits());
    assert_eq!(encode_numeric(&mut buffer, &record, 0), Ok(1));
    assert_eq!(buffer.0, vec![0]);
    assert_eq!(read_numeric(&buffer.0, 0), Ok((true, RSIndexResult::numeric(0))));
}

#[test]
fn numeric_refuses_other_kinds_and_wide_deltas() {
    let mut buffer = TestBuffer::with_capacity(4);
    buffer.0.push(9);
    assert_eq!(encode_numeric(&mut buffer, &RSIndexResult::term(), 1), Err(EncodeError::WrongKind));
    assert_eq!(encode_numeric(&mut buffer, &RSIndexResult::virt(), 1), Err(EncodeError::WrongKind));
    let record = RSIndexResult::numeric(1.5f64.to_bits());
    assert_eq!(encode_numeric(&mut buffer, &record, 1 << 56), Err(EncodeError::DeltaTooLarge));
    assert_eq!(buffer.0, vec![9]);
}

#[test]
fn numeric_reserved_header_is_malformed() {
    // float, infinite and double width at once
    assert_eq!(read_numeric(&[0b101_01_000, 0, 0, 0, 0, 0, 0, 0, 0], 0), Err(DecodeError::Malformed));
    assert_eq!(read_numeric(&[0b111_01_000], 0), Err(DecodeError::Malformed));
}

#[test]
fn truncated_records_end_early() {
    assert_eq!(read_numeric(&[], 0), Err(DecodeError::UnexpectedEof));
    assert_eq!(read_numeric(&[0b000_01_001, 1, 0, 0, 72], 0), Err(DecodeError::UnexpectedEof));
    assert_eq!(read_numeric(&[0b000_10_010, 1], 0), Err(DecodeError::UnexpectedEof));
    assert_eq!(read_freqs(&[5, 0, 1, 0], 0), Err(DecodeError::UnexpectedEof));
    assert_eq!(read_freqs_flags(&[48, 10, 5, 255, 255, 255], 0, false), Err(DecodeError::UnexpectedEof));
    assert_eq!(read_freqs_flags(&[0, 10, 5, 142, 254], 0, true), Err(DecodeError::UnexpectedEof));
    assert_eq!(read_flags(&[12, 10, 255], 0, false), Err(DecodeError::UnexpectedEof));
    assert_eq!(read_flags(&[130, 254], 0, true), Err(DecodeError::UnexpectedEof));
    assert_eq!(read_flags(&[130, 254, 127], 0, true), Err(DecodeError::UnexpectedEof));
    assert_eq!(read_doc_ids_only(&[142, 254, 254], 0), Err(DecodeError::UnexpectedEof));
    assert_eq!(decode_doc_ids_only(&[1, 2], 2, 0), Err(DecodeError::UnexpectedEof));
    assert_eq!(decode_doc_ids_only(&[1, 2], 9, 0), Err(DecodeError::UnexpectedEof));
}

#[test]
fn unused_header_bits_are_malformed() {
    assert_eq!(read_freqs(&[16, 0, 0], 0), Err(DecodeError::Malformed));
    assert_eq!(read_flags(&[0x80, 0, 0], 0, false), Err(DecodeError::Malformed));
    assert_eq!(read_freqs_flags(&[64, 0, 0, 0], 0, false), Err(DecodeError::Malformed));
    assert_eq!(read_freqs_flags(&[16, 0, 0, 0], 0, true), Err(DecodeError::Malformed));
}

#[test]
fn values_too_wide_overflow() {
    // one more continuation byte than 32 bits can take
    assert_eq!(read_doc_ids_only(&[255, 255, 255, 255, 255, 0], 0), Err(DecodeError::Overflow));
    // the largest delta is fine, one more is not
    assert_eq!(
        read_doc_ids_only(&[142, 254, 254, 254, 127], 0),
        Ok((true, RSIndexResult::term().doc_id(u32::MAX as u64).frequency(1)))
    );
    assert_eq!(read_doc_ids_only(&[142, 254, 254, 254, 128, 0], 0), Err(DecodeError::Overflow));
    // the document id does not fit 64 bits
    assert_eq!(read_doc_ids_only(&[1], u64::MAX), Err(DecodeError::Overflow));
    assert_eq!(read_freqs(&[0, 1, 0], u64::MAX), Err(DecodeError::Overflow));
    assert_eq!(read_numeric(&[0b010_00_001, 1], u64::MAX), Err(DecodeError::Overflow));
    // twenty bytes of mask
    let mut bytes = vec![0u8];
    bytes.extend_from_slice(&[255; 19]);
    bytes.push(0);
    assert_eq!(read_flags(&bytes, 0, true), Err(DecodeError::Overflow));
}

#[test]
fn encoders_refuse_what_the_layout_cannot_hold() {
    let record = RSIndexResult::term().field_mask(1 << 32).frequency(1);
    let mut buffer = TestBuffer::with_capacity(0);
    let too_far = u32::MAX as u64 + 1;
    assert_eq!(encode_freqs_only(&mut buffer, &record, too_far), Err(EncodeError::DeltaTooLarge));
    assert_eq!(encode_freqs_fields(&mut buffer, &record, too_far, false), Err(EncodeError::DeltaTooLarge));
    assert_eq!(encode_freqs_fields(&mut buffer, &record, too_far, true), Err(EncodeError::DeltaTooLarge));
    assert_eq!(encode_fields_only(&mut buffer, &record, too_far, true), Err(EncodeError::DeltaTooLarge));
    assert_eq!(encode_doc_ids_only(&mut buffer, &record, too_far), Err(EncodeError::DeltaTooLarge));
    assert_eq!(encode_freqs_fields(&mut buffer, &record, 1, false), Err(EncodeError::MaskTooWide));
    assert_eq!(encode_fields_only(&mut buffer, &record, 1, false), Err(EncodeError::MaskTooWide));
    assert!(buffer.0.is_empty());
    assert_eq!(encode_fields_only(&mut buffer, &record, 1, true), Ok(6));
    assert_eq!(buffer.0, vec![1, 142, 254, 254, 255, 0]);
}

#[test]
fn a_record_that_misses_the_filter_is_still_read() {
    let mut buffer = TestBuffer::with_capacity(0);
    let record = RSIndexResult::term().doc_id(12).field_mask(0b110).frequency(3);
    encode_freqs_fields(&mut buffer, &record, 2, false).unwrap();
    encode_freqs_fields(&mut buffer, &record, 2, true).unwrap();
    assert_eq!(read_freqs_flags(&buffer.0, 10, false), Ok((false, record.clone())));
    assert_eq!(decode_freqs_fields(&buffer.0, 0, 10, false, 1), Ok((false, record.clone(), 4)));
    assert_eq!(decode_freqs_fields(&buffer.0, 0, 10, false, 0b100), Ok((true, record.clone(), 4)));
    assert_eq!(decode_freqs_fields(&buffer.0, 4, 10, true, 1), Ok((false, record.clone(), 8)));
    assert_eq!(decode_freqs_fields(&buffer.0, 4, 10, true, 2), Ok((true, record.clone(), 8)));

    let mut fields = TestBuffer::with_capacity(0);
    let narrow = RSIndexResult::term().doc_id(12).field_mask(0b110);
    encode_fields_only(&mut fields, &narrow, 2, false).unwrap();
    assert_eq!(decode_fields_only(&fields.0, 0, 10, false, 1), Ok((false, narrow.clone(), 3)));
    assert_eq!(decode_fields_only(&fields.0, 0, 10, false, 4), Ok((true, narrow, 3)));
}

#[test]
fn records_are_read_one_behind_the_other() {
    let mut buffer = TestBuffer::with_capacity(0);
    let first = RSIndexResult::virt().doc_id(5).frequency(300);
    let second = RSIndexResult::virt().doc_id(70000).frequency(1);
    encode_freqs_only(&mut buffer, &first, 5).unwrap();
    encode_freqs_only(&mut buffer, &second, 70000 - 5).unwrap();
    let (_, one, end) = decode_freqs_only(&buffer.0, 0, 0).unwrap();
    assert_eq!(one, first);
    assert_eq!(end, 4);
    let (_, two, end) = decode_freqs_only(&buffer.0, end, one.doc_id).unwrap();
    assert_eq!(two, second);
    assert_eq!(end, buffer.0.len());
}

#[test]
fn the_bytes_behind_the_delta_do_not_depend_on_it() {
    let record = RSIndexResult::term().field_mask(0xABCD).frequency(77);
    let mut near = TestBuffer::with_capacity(0);
    let mut far = TestBuffer::with_capacity(0);
    encode_freqs_fields(&mut near, &record, 3, false).unwrap();
    encode_freqs_fields(&mut far, &record, 3_000_000, false).unwrap();
    assert_eq!(near.0[2..], far.0[4..]);
    assert_eq!(near.0[2..], [77, 0xCD, 0xAB]);

    let mut near = TestBuffer::with_capacity(0);
    let mut far = TestBuffer::with_capacity(0);
    encode_fields_only(&mut near, &record, 3, true).unwrap();
    encode_fields_only(&mut far, &record, 3_000_000, true).unwrap();
    assert_eq!(near.0[1..], far.0[4..]);

    let number = RSIndexResult::numeric((-1234.0f64).to_bits());
    let mut near = TestBuffer::with_capacity(0);
    let mut far = TestBuffer::with_capacity(0);
    encode_numeric(&mut near, &number, 0).unwrap();
    encode_numeric(&mut far, &number, 1 << 40).unwrap();
    assert_eq!(near.0[1..], far.0[7..]);
    assert_eq!(near.0[1..], [0xD2, 0x04]);
}

#[test]
fn freqs_only_three_bytes_each() {
    let mut buffer = TestBuffer::with_capacity(7);
    let record = RSIndexResult::virt().doc_id(65536).frequency(65536);
    assert_eq!(encode_freqs_only(&mut buffer, &record, 65536), Ok(7));
    assert_eq!(buffer.0, vec![10, 0, 0, 1, 0, 0, 1]);
    assert_eq!(read_freqs(&buffer.0, 0), Ok((true, record)));
}

#[test]
fn fields_only_wide_widest() {
    let mut buffer = TestBuffer::with_capacity(24);
    let record = RSIndexResult::term().field_mask(u128::MAX).frequency(1).doc_id(u32::MAX as u64);
    assert_eq!(encode_fields_only(&mut buffer, &record, u32::MAX as u64, true), Ok(24));
    assert_eq!(
        buffer.0,
        vec![
            142, 254, 254, 254, 127, 130, 254, 254, 254, 254, 254, 254, 254, 254, 254, 254, 254,
            254, 254, 254, 254, 254, 254, 127
        ]
    );
    assert_eq!(decode_fields_only(&buffer.0, 0, 0, true, 1 << 127), Ok((true, record, 24)));
}

#[test]
fn a_number_passes_where_it_lies_in_the_range() {
    let mut buffer = TestBuffer::with_capacity(0);
    let record = RSIndexResult::numeric(3.125f64.to_bits()).doc_id(12);
    encode_numeric(&mut buffer, &record, 2).unwrap();
    let range = |min: f64, max: f64, min_inclusive: bool, max_inclusive: bool| {
        Some(NumericFilter { min: min.to_bits(), max: max.to_bits(), min_inclusive, max_inclusive })
    };
    let read = |filter| decode_numeric(&buffer.0, 0, 10, filter);
    assert_eq!(read(None), Ok((true, record.clone(), 6)));
    assert_eq!(read(range(3.0, 4.0, false, false)), Ok((true, record.clone(), 6)));
    assert_eq!(read(range(-1.0, 3.125, true, true)), Ok((true, record.clone(), 6)));
    assert_eq!(read(range(3.125, 3.125, true, true)), Ok((true, record.clone(), 6)));
    assert_eq!(read(range(f64::NEG_INFINITY, f64::INFINITY, false, false)), Ok((true, record.clone(), 6)));
    // a record that misses is read all the same
    assert_eq!(read(range(-1.0, 3.125, true, false)), Ok((false, record.clone(), 6)));
    assert_eq!(read(range(3.125, 9.0, false, true)), Ok((false, record.clone(), 6)));
    assert_eq!(read(range(4.0, 9.0, true, true)), Ok((false, record.clone(), 6)));
    assert_eq!(read(range(-9.0, -3.125, true, true)), Ok((false, record.clone(), 6)));
    assert_eq!(read(range(f64::NAN, 9.0, true, true)), Ok((false, record.clone(), 6)));
    assert_eq!(read(range(0.0, f64::NAN, true, true)), Ok((false, record.clone(), 6)));
}

#[test]
fn ranges_order_numbers_as_floats_do() {
    let values = [
        f64::NEG_INFINITY,
        f64::MIN,
        -3.5,
        -1.0,
        -f64::MIN_POSITIVE,
        -0.0,
        0.0,
        f64::from_bits(1),
        0.1,
        1.0,
        1.0000000000000002,
        7.0,
        1e300,
        f64::INFINITY,
        f64::NAN,
    ];
    for min in values {
        for max in values {
            for value in values {
                for (min_inclusive, max_inclusive) in [(true, true), (true, false), (false, true), (false, false)] {
                    let filter = NumericFilter {
                        min: min.to_bits(),
                        max: max.to_bits(),
                        min_inclusive,
                        max_inclusive,
                    };
                    let above = if min_inclusive { min <= value } else { min < value };
                    let below = if max_inclusive { value <= max } else { value < max };
                    assert_eq!(
                        filter.contains(value.to_bits()),
                        above && below,
                        "{} in {} to {}",
                        value,
                        min,
                        max
                    );
                }
            }
        }
    }
}
