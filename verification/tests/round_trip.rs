use lizard::{decode, DecodeError};

/// A sequence that ends in a match.
struct Sequence {
    literals: Vec<u8>,
    offset: u16,
    match_len: usize,
}

fn length_code(len: usize) -> u8 {
    if len < 15 {
        len as u8
    } else {
        15
    }
}

fn push_extension(block: &mut Vec<u8>, len: usize) {
    if len >= 15 {
        let mut rest = len - 15;
        while rest >= 255 {
            block.push(255);
            rest -= 255;
        }
        block.push(rest as u8);
    }
}

fn block_bytes(sequences: &[Sequence], last: &[u8]) -> Vec<u8> {
    let mut block = Vec::new();
    for s in sequences {
        let extra = s.match_len - 4;
        block.push(16 * length_code(s.literals.len()) + length_code(extra));
        push_extension(&mut block, s.literals.len());
        block.extend_from_slice(&s.literals);
        block.extend_from_slice(&s.offset.to_le_bytes());
        push_extension(&mut block, extra);
    }
    block.push(16 * length_code(last.len()));
    push_extension(&mut block, last.len());
    block.extend_from_slice(last);
    block
}

fn content_of(sequences: &[Sequence], last: &[u8]) -> Vec<u8> {
    let mut out = Vec::new();
    for s in sequences {
        out.extend_from_slice(&s.literals);
        for _ in 0..s.match_len {
            out.push(out[out.len() - s.offset as usize]);
        }
    }
    out.extend_from_slice(last);
    out
}

fn assert_round_trip(sequences: &[Sequence], last: &[u8]) {
    let block = block_bytes(sequences, last);
    let content = content_of(sequences, last);
    assert_eq!(decode(content.len() as u32, &block), Ok(content));
}

#[test]
fn stored_content_decodes_to_itself() {
    for len in [1usize, 2, 14, 15, 16, 269, 270, 271, 524, 525, 526, 5000] {
        let content: Vec<u8> = (0..len).map(|i| (i * 7 % 256) as u8).collect();
        assert_round_trip(&[], &content);
    }
}

#[test]
fn stored_block_has_the_expected_bytes() {
    assert_eq!(block_bytes(&[], b"hello"), vec![0x50, b'h', b'e', b'l', b'l', b'o']);
    let long = vec![9u8; 270];
    let block = block_bytes(&[], &long);
    assert_eq!(&block[..3], &[0xF0, 255, 0]);
    assert_eq!(block.len(), 273);
}

#[test]
fn stored_content_full_of_255_decodes_to_itself() {
    let content = vec![255u8; 1000];
    assert_round_trip(&[], &content);
}

#[test]
fn sequences_with_matches_decode_to_their_content() {
    let sequences = [
        Sequence { literals: b"abc".to_vec(), offset: 3, match_len: 4 },
        Sequence { literals: vec![], offset: 1, match_len: 19 },
        Sequence { literals: b"0123456789abcdefghij".to_vec(), offset: 20, match_len: 300 },
        Sequence { literals: vec![1; 15], offset: 2, match_len: 18 },
        Sequence { literals: vec![2; 300], offset: 600, match_len: 274 },
    ];
    assert_round_trip(&sequences, b"");
    assert_round_trip(&sequences, b"tail");
    assert_round_trip(&sequences[..1], b"");
    assert_round_trip(&sequences[..2], &[7u8; 40]);
}

#[test]
fn match_with_the_largest_offset() {
    let literals: Vec<u8> = (0..65535u32).map(|i| (i % 241) as u8).collect();
    let sequences = [Sequence { literals, offset: 65535, match_len: 70000 }];
    assert_round_trip(&sequences, b"end");
}

#[test]
fn sound_block_decodes_under_its_own_size_only() {
    let sequences = [Sequence { literals: b"ab".to_vec(), offset: 2, match_len: 6 }];
    let block = block_bytes(&sequences, b"cd");
    let content = content_of(&sequences, b"cd");
    assert_eq!(content, b"ababababcd".to_vec());
    for size in 0..30u32 {
        let result = decode(size, &block);
        if size == 0 {
            assert_eq!(result, Ok(vec![]));
        } else if size == 10 {
            assert_eq!(result, Ok(content.clone()));
        } else {
            assert_eq!(result, Err(DecodeError::SizeMismatch));
        }
    }
}

#[test]
fn decoded_content_has_the_declared_size() {
    let content: Vec<u8> = (0..3000u32).map(|i| ((i / 5) % 11) as u8).collect();
    let block = lz4_flex::block::compress(&content);
    for size in [1u32, 2999, 3000, 3001, 100000] {
        match decode(size, &block) {
            Ok(bytes) => assert_eq!(bytes.len(), size as usize),
            Err(e) => assert_eq!(e, DecodeError::SizeMismatch),
        }
    }
    assert_eq!(decode(3000, &block).map(|bytes| bytes.len()), Ok(3000));
}
