//! The block decoder.
//!
//! [`decode`] walks the sequences of a block and rebuilds the content. Its
//! result is the one that the model of [`crate::format`] gives, for every
//! input: the bytes on success, and on failure the error of the first fault.

use vstd::prelude::*;
use vstd::arithmetic::div_mod::{lemma_mod_sub_multiples_vanish, lemma_small_mod};
use vstd::slice::slice_subrange;
use crate::error::DecodeError;
use crate::format::{
    decode_block, decode_from, length_field, match_bytes, run_end, LengthField, EXTENDED, MIN_MATCH,
};

verus! {

/// A decoder's result with the bytes taken as a sequence.
pub open spec fn outcome(r: Result<Vec<u8>, DecodeError>) -> Result<Seq<u8>, DecodeError> {
    match r {
        Ok(bytes) => Ok(bytes@),
        Err(e) => Err(e),
    }
}

/// Reads the length field that `code` opens at `pos`.
///
/// The length is returned as a `u128`: an extension of `n` bytes stands for
/// up to `15 + 255 * n`, which need not fit in a `usize`.
fn read_length(input: &[u8], pos: usize, code: u8) -> (r: Option<(u128, usize)>)
    requires
        pos <= input.len(),
        code <= EXTENDED,
    ensures
        match r {
            Some((value, end)) => {
                &&& length_field(input@, pos as int, code as nat) == Some(
                    LengthField { value: value as nat, end: end as int },
                )
                &&& pos <= end <= input.len()
                &&& value <= 15 + 255 * (end - pos)
            },
            None => length_field(input@, pos as int, code as nat) is None,
        },
{
    if code < EXTENDED {
        return Some((code as u128, pos));
    }
    let mut last: usize = pos;
    while last < input.len() && input[last] == 255
        invariant
            pos <= last <= input.len(),
            run_end(input@, pos as int) == run_end(input@, last as int),
        decreases input.len() - last,
    {
        last += 1;
    }
    if last >= input.len() {
        None
    } else {
        let value: u128 = EXTENDED as u128 + 255 * ((last - pos) as u128) + (input[last] as u128);
        Some((value, last + 1))
    }
}

/// Appends the bytes of `input` from `start` up to `end` to `out`.
fn append_literals(out: &mut Vec<u8>, input: &[u8], start: usize, end: usize)
    requires
        start <= end <= input.len(),
    ensures
        final(out)@ == old(out)@ + input@.subrange(start as int, end as int),
{
    let literals = slice_subrange(input, start, end);
    out.extend_from_slice(literals);
    assert(out@ =~= old(out)@ + input@.subrange(start as int, end as int));
}

/// Appends a match of `len` bytes at distance `offset` to `out`.
///
/// The bytes are copied one at a time, front to back: where the match is
/// longer than its distance, the copy reads bytes that it has written.
fn append_match(out: &mut Vec<u8>, offset: usize, len: usize)
    requires
        1 <= offset <= old(out).len(),
        old(out).len() + len <= usize::MAX,
    ensures
        final(out)@ == old(out)@ + match_bytes(old(out)@, offset as nat, len as nat),
{
    let ghost before = out@;
    let start: usize = out.len() - offset;
    let mut copied: usize = 0;
    while copied < len
        invariant
            copied <= len,
            1 <= offset <= before.len(),
            start == before.len() - offset,
            before.len() + len <= usize::MAX,
            out@ == before + match_bytes(before, offset as nat, copied as nat),
        decreases len - copied,
    {
        let byte = out[start + copied];
        proof {
            if copied < offset {
                lemma_small_mod(copied as nat, offset as nat);
            } else {
                lemma_mod_sub_multiples_vanish(copied as int, offset as int);
            }
        }
        out.push(byte);
        copied += 1;
        assert(out@ =~= before + match_bytes(before, offset as nat, copied as nat));
    }
}

/// Decodes the LZ4 block `compressed`, whose content was declared to be
/// `declared_size` bytes long.
///
/// The result is `decode_block(declared_size, compressed)`: the content, of
/// exactly `declared_size` bytes, or the error of the first fault in the
/// block. A declared size of zero gives empty content without a look at the
/// block.
pub fn decode(declared_size: u32, compressed: &[u8]) -> (r: Result<Vec<u8>, DecodeError>)
    ensures
        outcome(r) == decode_block(declared_size as nat, compressed@),
        r matches Ok(content) ==> content@.len() == declared_size,
        r matches Err(e) ==> e != DecodeError::HeaderMismatch,
{
    if declared_size == 0 {
        return Ok(Vec::new());
    }
    let size: usize = declared_size as usize;
    let mut out: Vec<u8> = Vec::with_capacity(size);
    let mut pos: usize = 0;
    loop
        invariant
            size == declared_size,
            pos <= compressed.len(),
            out.len() <= size,
            decode_from(compressed@, pos as int, out@, size as nat) == decode_block(
                declared_size as nat,
                compressed@,
            ),
        decreases compressed.len() - pos,
    {
        if pos >= compressed.len() {
            return Err(DecodeError::Truncated);
        }
        let token: u8 = compressed[pos];
        let (literal_len, literals_start) = match read_length(compressed, pos + 1, token / 16) {
            None => { return Err(DecodeError::Truncated); },
            Some(field) => field,
        };
        if literal_len > (compressed.len() - literals_start) as u128 {
            return Err(DecodeError::Truncated);
        }
        if literal_len > (size - out.len()) as u128 {
            return Err(DecodeError::SizeMismatch);
        }
        let literals_end: usize = literals_start + literal_len as usize;
        append_literals(&mut out, compressed, literals_start, literals_end);
        if literals_end == compressed.len() {
            if out.len() == size {
                return Ok(out);
            }
            return Err(DecodeError::SizeMismatch);
        }
        if compressed.len() - literals_end < 2 {
            return Err(DecodeError::Truncated);
        }
        let offset: usize = compressed[literals_end] as usize + 256 * (compressed[literals_end
            + 1] as usize);
        if offset == 0 || offset > out.len() {
            return Err(DecodeError::InvalidOffset);
        }
        let (match_extra, next) = match read_length(compressed, literals_end + 2, token % 16) {
            None => { return Err(DecodeError::Truncated); },
            Some(field) => field,
        };
        if match_extra + (MIN_MATCH as u128) > (size - out.len()) as u128 {
            return Err(DecodeError::SizeMismatch);
        }
        let match_len: usize = match_extra as usize + MIN_MATCH as usize;
        append_match(&mut out, offset, match_len);
        pos = next;
    }
}

} // verus!
