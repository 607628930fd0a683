use lizard::{decode, DecodeError};

#[test]
fn literal_only_block_decodes_to_its_literals() {
    let block = [0x50, b'h', b'e', b'l', b'l', b'o'];
    assert_eq!(decode(5, &block), Ok(b"hello".to_vec()));
}

#[test]
fn match_at_distance_one_repeats_the_literal() {
    // One literal, a match of four bytes at distance one, and the closing
    // sequence without literals.
    let block = [0x10, b'a', 0x01, 0x00, 0x00];
    assert_eq!(decode(5, &block), Ok(b"aaaaa".to_vec()));
}

#[test]
fn block_that_ends_on_a_match_is_truncated() {
    let block = [0x10, b'a', 0x01, 0x00];
    assert_eq!(decode(5, &block), Err(DecodeError::Truncated));
}

#[test]
fn run_length_match_replicates_the_preceding_byte() {
    // offset 1, match length 4 + 6 = 10
    let block = [0x16, b'x', 0x01, 0x00, 0x00];
    assert_eq!(decode(11, &block), Ok(vec![b'x'; 11]));
}

#[test]
fn overlapping_match_repeats_a_pattern() {
    // "ab", then 7 bytes at distance 2
    let block = [0x23, b'a', b'b', 0x02, 0x00, 0x00];
    assert_eq!(decode(9, &block), Ok(b"ababababa".to_vec()));
}

#[test]
fn match_that_does_not_overlap_copies_earlier_bytes() {
    // "abcdef", then 4 bytes at distance 6, then "!"
    let block = [0x60, b'a', b'b', b'c', b'd', b'e', b'f', 0x06, 0x00, 0x10, b'!'];
    assert_eq!(decode(11, &block), Ok(b"abcdefabcd!".to_vec()));
}

#[test]
fn offset_zero_is_invalid() {
    let block = [0x10, b'a', 0x00, 0x00, 0x00];
    assert_eq!(decode(5, &block), Err(DecodeError::InvalidOffset));
    let later = [0x10, b'a', 0x01, 0x00, 0x10, b'b', 0x00, 0x00, 0x00];
    assert_eq!(decode(10, &later), Err(DecodeError::InvalidOffset));
}

#[test]
fn offset_past_the_output_is_invalid() {
    let block = [0x10, b'a', 0x02, 0x00, 0x00];
    assert_eq!(decode(5, &block), Err(DecodeError::InvalidOffset));
}

#[test]
fn offset_is_little_endian() {
    // 15 + 255 + 30 = 300 literals, then a match at distance 0x012C = 300
    let mut block = vec![0xF0, 255, 30];
    let literals: Vec<u8> = (0..300u32).map(|i| (i % 251) as u8).collect();
    block.extend_from_slice(&literals);
    block.extend_from_slice(&[0x2C, 0x01, 0x00]);
    assert_eq!(block.len(), 306);
    let mut expected = literals.clone();
    expected.extend_from_slice(&literals[..4]);
    assert_eq!(decode(304, &block), Ok(expected));
}

#[test]
fn short_content_is_a_size_mismatch() {
    let block = [0x80, 1, 2, 3, 4, 5, 6, 7, 8];
    assert_eq!(decode(10, &block), Err(DecodeError::SizeMismatch));
    assert_eq!(decode(8, &block), Ok(vec![1, 2, 3, 4, 5, 6, 7, 8]));
}

#[test]
fn long_content_is_a_size_mismatch() {
    let block = [0x80, 1, 2, 3, 4, 5, 6, 7, 8];
    assert_eq!(decode(7, &block), Err(DecodeError::SizeMismatch));
    let with_match = [0x10, b'a', 0x01, 0x00, 0x00];
    assert_eq!(decode(4, &with_match), Err(DecodeError::SizeMismatch));
}

#[test]
fn declared_size_zero_is_empty_content() {
    assert_eq!(decode(0, &[]), Ok(vec![]));
    assert_eq!(decode(0, &[0x00]), Ok(vec![]));
    assert_eq!(decode(0, &[0x50, b'h']), Ok(vec![]));
}

#[test]
fn empty_block_with_declared_content_is_truncated() {
    assert_eq!(decode(1, &[]), Err(DecodeError::Truncated));
}

#[test]
fn cut_short_fields_are_truncated() {
    // literal length extension without an end
    assert_eq!(decode(300, &[0xF0]), Err(DecodeError::Truncated));
    assert_eq!(decode(300, &[0xF0, 255]), Err(DecodeError::Truncated));
    // literals that run past the input
    assert_eq!(decode(4, &[0x40, b'a', 1, 0]), Err(DecodeError::Truncated));
    // one byte of an offset
    assert_eq!(decode(5, &[0x10, b'a', 0x01]), Err(DecodeError::Truncated));
    // match length extension without an end
    assert_eq!(decode(300, &[0x1F, b'a', 0x01, 0x00]), Err(DecodeError::Truncated));
    assert_eq!(decode(300, &[0x1F, b'a', 0x01, 0x00, 255]), Err(DecodeError::Truncated));
}

#[test]
fn extended_literal_length_adds_up() {
    // 15 + 255 + 3 = 273 literals
    let mut block = vec![0xF0, 255, 3];
    let literals = vec![7u8; 273];
    block.extend_from_slice(&literals);
    assert_eq!(decode(273, &block), Ok(literals));
}

#[test]
fn extension_byte_of_zero_ends_the_field() {
    // 15 + 0 = 15 literals
    let mut block = vec![0xF0, 0];
    let literals: Vec<u8> = (1..=15).collect();
    block.extend_from_slice(&literals);
    assert_eq!(decode(15, &block), Ok(literals));
}

#[test]
fn extended_match_length_adds_up() {
    // match length 4 + 15 + 255 + 1 = 275
    let block = [0x1F, b'z', 0x01, 0x00, 255, 1, 0x00];
    assert_eq!(decode(276, &block), Ok(vec![b'z'; 276]));
}

#[test]
fn input_after_a_literal_run_is_parsed_on() {
    // "ab" is not the end: an offset follows, and it is cut short.
    let block = [0x20, b'a', b'b', 0x01];
    assert_eq!(decode(2, &block), Err(DecodeError::Truncated));
}

#[test]
fn malformed_block_fails_the_same_way_each_time() {
    let block = [0x10, b'a', 0x00, 0x00, 0x00];
    let first = decode(5, &block);
    let second = decode(5, &block);
    assert_eq!(first, Err(DecodeError::InvalidOffset));
    assert_eq!(first, second);
}

#[test]
fn decodes_what_the_reference_encoder_produces() {
    let mut content: Vec<u8> = Vec::new();
    for i in 0..5000u32 {
        content.push((i % 7) as u8);
        content.push((i / 13) as u8);
        if i % 50 == 0 {
            content.extend_from_slice(b"a longer run that repeats, a longer run that repeats");
        }
    }
    let block = lz4_flex::block::compress(&content);
    assert!(block.len() < content.len());
    assert_eq!(decode(content.len() as u32, &block), Ok(content));
}

#[test]
fn decodes_short_content_from_the_reference_encoder() {
    for len in 0..40usize {
        let content: Vec<u8> = (0..len).map(|i| (i * 31 % 5) as u8).collect();
        let block = lz4_flex::block::compress(&content);
        assert_eq!(decode(len as u32, &block), Ok(content));
    }
}
