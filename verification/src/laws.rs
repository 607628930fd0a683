//! What holds of the decoder on every input.
//!
//! The proofs here are about the model of [`crate::format`]; the decoder
//! inherits them, since its result is the model's.

use vstd::prelude::*;
use vstd::arithmetic::div_mod::{lemma_mod_sub_multiples_vanish, lemma_small_mod};
use crate::container::{extracted, inflated};
use crate::decoder::outcome;
use crate::error::DecodeError;
use crate::format::{
    decode_block, decode_from, lemma_run_end, length_field, literal_code, match_bytes, match_code,
    offset_at, EXTENDED, MIN_MATCH,
};

verus! {

/// The sum of the bytes of `input` from `from` up to `to`.
pub open spec fn byte_sum(input: Seq<u8>, from: int, to: int) -> nat
    decreases to - from,
{
    if from >= to {
        0
    } else {
        input[from] as nat + byte_sum(input, from + 1, to)
    }
}

/// An extended length is 15 plus the sum of its extension bytes, the last
/// of which is the first one below 255.
pub proof fn lemma_extended_length_is_sum(input: Seq<u8>, pos: int)
    requires
        0 <= pos,
        length_field(input, pos, EXTENDED as nat) is Some,
    ensures
        ({
            let field = length_field(input, pos, EXTENDED as nat)->Some_0;
            &&& field.value == EXTENDED + byte_sum(input, pos, field.end)
            &&& pos < field.end <= input.len()
            &&& input[field.end - 1] < 255
            &&& forall|i: int| pos <= i < field.end - 1 ==> input[i] == 255
        }),
    decreases input.len() - pos,
{
    lemma_run_end(input, pos);
    if input[pos] == 255 {
        lemma_extended_length_is_sum(input, pos + 1);
    } else {
        assert(byte_sum(input, pos + 1, pos + 1) == 0);
    }
}

/// The decoder's errors are `Truncated`, `InvalidOffset` and
/// `SizeMismatch`: a block has no header to mismatch.
pub proof fn lemma_block_errors(input: Seq<u8>, pos: int, out: Seq<u8>, size: nat)
    ensures
        decode_from(input, pos, out, size) != Err::<Seq<u8>, DecodeError>(
            DecodeError::HeaderMismatch,
        ),
    decreases input.len() - pos,
{
    if 0 <= pos < input.len() {
        if let Some(literals) = length_field(input, pos + 1, literal_code(input[pos])) {
            let literals_end = literals.end + literals.value;
            let grown = out + input.subrange(literals.end, literals_end);
            if literals_end + 2 <= input.len() {
                if let Some(matched) = length_field(
                    input,
                    literals_end + 2,
                    match_code(input[pos]),
                ) {
                    let offset = offset_at(input, literals_end);
                    let len = (matched.value + MIN_MATCH) as nat;
                    lemma_run_end(input, pos + 1);
                    lemma_run_end(input, literals_end + 2);
                    lemma_block_errors(
                        input,
                        matched.end,
                        grown + match_bytes(grown, offset, len),
                        size,
                    );
                }
            }
        }
    }
}

/// Content that decodes has exactly the declared size: the decoder neither
/// pads nor cuts.
pub proof fn lemma_decoded_size(input: Seq<u8>, pos: int, out: Seq<u8>, size: nat)
    ensures
        decode_from(input, pos, out, size) matches Ok(content) ==> content.len() == size,
    decreases input.len() - pos,
{
    if 0 <= pos < input.len() {
        if let Some(literals) = length_field(input, pos + 1, literal_code(input[pos])) {
            let literals_end = literals.end + literals.value;
            let grown = out + input.subrange(literals.end, literals_end);
            if literals_end + 2 <= input.len() {
                if let Some(matched) = length_field(
                    input,
                    literals_end + 2,
                    match_code(input[pos]),
                ) {
                    let offset = offset_at(input, literals_end);
                    let len = (matched.value + MIN_MATCH) as nat;
                    lemma_run_end(input, pos + 1);
                    lemma_run_end(input, literals_end + 2);
                    lemma_decoded_size(
                        input,
                        matched.end,
                        grown + match_bytes(grown, offset, len),
                        size,
                    );
                }
            }
        }
    }
}

/// A block decodes under one declared size at most: if its sequences
/// produce `natural` bytes, then under any other size they fail, and the
/// error is `SizeMismatch`.
pub proof fn lemma_other_size_mismatches(
    input: Seq<u8>,
    pos: int,
    out: Seq<u8>,
    natural: nat,
    size: nat,
)
    requires
        decode_from(input, pos, out, natural) is Ok,
        size != natural,
    ensures
        decode_from(input, pos, out, size) == Err::<Seq<u8>, DecodeError>(
            DecodeError::SizeMismatch,
        ),
    decreases input.len() - pos,
{
    let literals = length_field(input, pos + 1, literal_code(input[pos]))->Some_0;
    let literals_end = literals.end + literals.value;
    let grown = out + input.subrange(literals.end, literals_end);
    if literals_end != input.len() && grown.len() <= size {
        let matched = length_field(input, literals_end + 2, match_code(input[pos]))->Some_0;
        let offset = offset_at(input, literals_end);
        let len = (matched.value + MIN_MATCH) as nat;
        if grown.len() + len <= size {
            lemma_run_end(input, pos + 1);
            lemma_run_end(input, literals_end + 2);
            lemma_other_size_mismatches(
                input,
                matched.end,
                grown + match_bytes(grown, offset, len),
                natural,
                size,
            );
        }
    }
}

/// The size invariant: for a block whose sequences are sound, which is to
/// say that they decode under some declared size `natural`, decoding under
/// any declared size gives content of exactly that size or fails with
/// `SizeMismatch`. It succeeds under `natural`, and under zero, which stands
/// for empty content.
pub proof fn lemma_size_invariant(block: Seq<u8>, natural: nat, size: nat)
    requires
        decode_from(block, 0, Seq::empty(), natural) is Ok,
    ensures
        match decode_block(size, block) {
            Ok(content) => content.len() == size && (size == natural || size == 0),
            Err(e) => e == DecodeError::SizeMismatch && size != natural,
        },
{
    lemma_decoded_size(block, 0, Seq::empty(), natural);
    if size != natural && size != 0 {
        lemma_other_size_mismatches(block, 0, Seq::empty(), natural, size);
    }
}

/// Whatever the block, content that comes out of `decode_block` is as long
/// as declared.
pub proof fn lemma_block_size(size: nat, block: Seq<u8>)
    ensures
        decode_block(size, block) matches Ok(content) ==> content.len() == size,
{
    lemma_decoded_size(block, 0, Seq::empty(), size);
}

/// Decoding is a function of the declared size and the block: two results
/// that the decoder may give for one input are the same content, or the
/// same error.
pub proof fn lemma_decode_deterministic(
    declared_size: u32,
    block: Seq<u8>,
    first: Result<Vec<u8>, DecodeError>,
    second: Result<Vec<u8>, DecodeError>,
)
    requires
        outcome(first) == decode_block(declared_size as nat, block),
        outcome(second) == decode_block(declared_size as nat, block),
    ensures
        outcome(first) == outcome(second),
        first is Err ==> second == first,
{
}

/// Inflating is a function of the body: a body that fails, fails with the
/// same error each time.
pub proof fn lemma_inflate_deterministic(
    body: Seq<u8>,
    first: Result<Vec<u8>, DecodeError>,
    second: Result<Vec<u8>, DecodeError>,
)
    requires
        outcome(first) == inflated(body),
        outcome(second) == inflated(body),
    ensures
        outcome(first) == outcome(second),
        first is Err ==> second == first,
{
}

/// Extraction is a function of the container: a container that fails, fails
/// with the same error each time.
pub proof fn lemma_extract_deterministic(
    container: Seq<u8>,
    first: Result<Vec<u8>, DecodeError>,
    second: Result<Vec<u8>, DecodeError>,
)
    requires
        outcome(first) == extracted(container),
        outcome(second) == extracted(container),
    ensures
        outcome(first) == outcome(second),
        first is Err ==> second == first,
{
}

/// A match is a forward copy, byte by byte: its byte number `len` is the
/// byte that lies `offset` behind the end of what has been written when the
/// `len` bytes before it are in place, be it a byte of `out` or one that
/// this match wrote.
pub proof fn lemma_match_copies_forward(out: Seq<u8>, offset: nat, len: nat)
    requires
        1 <= offset <= out.len(),
    ensures
        match_bytes(out, offset, len + 1) == match_bytes(out, offset, len).push(
            (out + match_bytes(out, offset, len))[out.len() + len - offset],
        ),
{
    if len < offset {
        lemma_small_mod(len, offset);
    } else {
        lemma_mod_sub_multiples_vanish(len as int, offset as int);
    }
    assert(match_bytes(out, offset, len + 1) =~= match_bytes(out, offset, len).push(
        (out + match_bytes(out, offset, len))[out.len() + len - offset],
    ));
}

/// A match at distance one repeats the last byte of the output, as often
/// as the match is long.
pub proof fn lemma_match_at_distance_one(out: Seq<u8>, len: nat)
    requires
        out.len() >= 1,
    ensures
        match_bytes(out, 1, len) == Seq::new(len, |i: int| out.last()),
{
    assert(match_bytes(out, 1, len) =~= Seq::new(len, |i: int| out.last()));
}

/// A match repeats with period `offset`: each of its bytes from number
/// `offset` on is the byte `offset` places before it, and the first
/// `offset` are the last bytes of `out`.
pub proof fn lemma_match_is_periodic(out: Seq<u8>, offset: nat, len: nat, i: int)
    requires
        1 <= offset <= out.len(),
        0 <= i < len,
    ensures
        i < offset ==> match_bytes(out, offset, len)[i] == out[out.len() - offset + i],
        i >= offset ==> match_bytes(out, offset, len)[i] == match_bytes(out, offset, len)[i
            - offset],
{
    if i < offset {
        lemma_small_mod(i as nat, offset);
    } else {
        lemma_mod_sub_multiples_vanish(i, offset as int);
    }
}

} // verus!
