//! The LZ4 block format as a mathematical model.
//!
//! A block is a run of sequences. A sequence is a token, an optional
//! extension of the literal length, the literals, and, unless the input ends
//! right after the literals, a two-byte offset, an optional extension of the
//! match length, and with them a match: a copy of bytes that the decoder has
//! already produced.

use vstd::prelude::*;
use crate::error::DecodeError;

verus! {

/// Every match is at least this long: its length field counts from here.
pub const MIN_MATCH: u8 = 4;

/// The code that says that extension bytes follow; a code below it is the
/// length itself.
pub const EXTENDED: u8 = 15;

/// The literal-length code of a token: its high nibble.
pub open spec fn literal_code(token: u8) -> nat {
    (token / 16) as nat
}

/// The match-length code of a token: its low nibble.
pub open spec fn match_code(token: u8) -> nat {
    (token % 16) as nat
}

/// The index of the first byte at or after `pos` that is not 255, or an
/// index at or past the end of `input` if there is none.
pub open spec fn run_end(input: Seq<u8>, pos: int) -> int
    decreases input.len() - pos,
{
    if pos >= input.len() {
        pos
    } else if input[pos] != 255 {
        pos
    } else {
        run_end(input, pos + 1)
    }
}

/// A decoded length field: the length, and where the field ends in the input.
pub struct LengthField {
    pub value: nat,
    pub end: int,
}

/// The length that a token's 4-bit `code` and the extension bytes from `pos`
/// on stand for, or `None` if the extension is cut short.
///
/// A code below 15 is the length, and no byte is read. A code of 15 is
/// extended by the bytes from `pos` up to and including the first one below
/// 255; the length is 15 plus their sum.
pub open spec fn length_field(input: Seq<u8>, pos: int, code: nat) -> Option<LengthField> {
    if code < EXTENDED {
        Some(LengthField { value: code, end: pos })
    } else {
        let last = run_end(input, pos);
        if last >= input.len() {
            None
        } else {
            Some(
                LengthField {
                    value: (EXTENDED + 255 * (last - pos) + input[last]) as nat,
                    end: last + 1,
                },
            )
        }
    }
}

/// The two bytes at `pos`, read as a little-endian number.
pub open spec fn offset_at(input: Seq<u8>, pos: int) -> nat {
    (input[pos] + 256 * input[pos + 1]) as nat
}

/// The bytes that a match of `len` bytes at distance `offset` appends to
/// `out`: the last `offset` bytes of `out`, repeated for as long as needed.
pub open spec fn match_bytes(out: Seq<u8>, offset: nat, len: nat) -> Seq<u8> {
    Seq::new(len, |i: int| out[out.len() - offset + i % (offset as int)])
}

/// `run_end` never goes backwards, the bytes that it passes over are all
/// 255, and the byte that it stops at, if it stops inside the input, is not.
pub proof fn lemma_run_end(input: Seq<u8>, pos: int)
    ensures
        pos <= run_end(input, pos),
        forall|i: int| pos <= i < run_end(input, pos) ==> input[i] == 255,
        0 <= run_end(input, pos) < input.len() ==> input[run_end(input, pos)] < 255,
    decreases input.len() - pos,
{
    if pos < input.len() && input[pos] == 255 {
        lemma_run_end(input, pos + 1);
    }
}

/// The result of decoding the sequences of `input` from `pos` on, when `out`
/// has been produced so far and `size` bytes were declared.
///
/// Each sequence is taken in the order of its fields, and the first fault
/// found decides the error: a missing token, a length extension that is cut
/// short, literals that run past the input (`Truncated`); literals that
/// exceed the declared size (`SizeMismatch`); an offset that is cut short
/// (`Truncated`), is zero or reaches past the output (`InvalidOffset`); a
/// match that exceeds the declared size (`SizeMismatch`). The block is
/// complete when the input ends right after a literal run, and only there.
pub open spec fn decode_from(input: Seq<u8>, pos: int, out: Seq<u8>, size: nat) -> Result<
    Seq<u8>,
    DecodeError,
>
    decreases input.len() - pos,
{
    if pos < 0 || pos >= input.len() {
        Err(DecodeError::Truncated)
    } else {
        match length_field(input, pos + 1, literal_code(input[pos])) {
            None => Err(DecodeError::Truncated),
            Some(literals) => {
                let literals_end = literals.end + literals.value;
                let grown = out + input.subrange(literals.end, literals_end);
                if literals_end > input.len() {
                    Err(DecodeError::Truncated)
                } else if grown.len() > size {
                    Err(DecodeError::SizeMismatch)
                } else if literals_end == input.len() {
                    if grown.len() == size {
                        Ok(grown)
                    } else {
                        Err(DecodeError::SizeMismatch)
                    }
                } else if literals_end + 2 > input.len() {
                    Err(DecodeError::Truncated)
                } else {
                    let offset = offset_at(input, literals_end);
                    if offset == 0 || offset > grown.len() {
                        Err(DecodeError::InvalidOffset)
                    } else {
                        match length_field(input, literals_end + 2, match_code(input[pos])) {
                            None => Err(DecodeError::Truncated),
                            Some(matched) => {
                                let len = matched.value + MIN_MATCH;
                                if grown.len() + len > size {
                                    Err(DecodeError::SizeMismatch)
                                } else {
                                    proof {
                                        lemma_run_end(input, pos + 1);
                                        lemma_run_end(input, literals_end + 2);
                                    }
                                    decode_from(
                                        input,
                                        matched.end,
                                        grown + match_bytes(grown, offset, len as nat),
                                        size,
                                    )
                                }
                            },
                        }
                    }
                }
            },
        }
    }
}

/// What a block of `input` decodes to when `size` bytes were declared.
///
/// A declared size of zero stands for empty content, whatever the block
/// holds.
pub open spec fn decode_block(size: nat, input: Seq<u8>) -> Result<Seq<u8>, DecodeError> {
    if size == 0 {
        Ok(Seq::empty())
    } else {
        decode_from(input, 0, Seq::empty(), size)
    }
}

} // verus!
