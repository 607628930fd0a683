//! The block format read the other way: from sequences to bytes.
//!
//! Nothing here runs. The functions say which bytes stand for a given run of
//! sequences, so that it can be stated what the decoder makes of them: it
//! turns whatever an encoder writes in this form back into the content, and
//! it refuses a match that points outside the output wherever it meets one.

use vstd::prelude::*;
use crate::error::DecodeError;
use crate::format::{
    decode_block, decode_from, length_field, literal_code, match_bytes, match_code, offset_at,
    run_end, LengthField,
};

verus! {

/// A sequence that ends in a match: literals, then `match_len` bytes copied
/// from `offset` behind the end of the output.
pub struct Sequence {
    pub literals: Seq<u8>,
    pub offset: nat,
    pub match_len: nat,
}

/// The 4-bit code that opens the field of a length.
pub open spec fn length_code(len: nat) -> nat {
    if len < 15 {
        len
    } else {
        15
    }
}

/// The bytes that add up to `rest`: as many of 255 as fit, and one below.
pub open spec fn extension_bytes(rest: nat) -> Seq<u8>
    decreases rest,
{
    if rest < 255 {
        seq![rest as u8]
    } else {
        seq![255u8] + extension_bytes((rest - 255) as nat)
    }
}

/// The bytes that extend the code of `len`: none for a length below 15.
pub open spec fn length_extension(len: nat) -> Seq<u8> {
    if len < 15 {
        Seq::empty()
    } else {
        extension_bytes((len - 15) as nat)
    }
}

/// The bytes that open a sequence: the token, made of the code of the
/// literal length and of `low`, the extension of the literal length, and the
/// literals.
pub open spec fn opening_bytes(literals: Seq<u8>, low: nat) -> Seq<u8> {
    seq![(16 * length_code(literals.len()) + low) as u8] + length_extension(literals.len())
        + literals
}

/// The two bytes of an offset, low byte first.
pub open spec fn offset_bytes(offset: nat) -> Seq<u8> {
    seq![(offset % 256) as u8, (offset / 256) as u8]
}

/// The bytes of a sequence that ends in a match.
pub open spec fn sequence_bytes(s: Sequence) -> Seq<u8> {
    opening_bytes(s.literals, length_code((s.match_len - 4) as nat)) + offset_bytes(s.offset)
        + length_extension((s.match_len - 4) as nat)
}

/// The bytes of the sequence that closes a block: literals and no match.
pub open spec fn closing_bytes(literals: Seq<u8>) -> Seq<u8> {
    opening_bytes(literals, 0)
}

/// The bytes of `sequences`, one after the other.
pub open spec fn sequences_bytes(sequences: Seq<Sequence>) -> Seq<u8>
    decreases sequences.len(),
{
    if sequences.len() == 0 {
        Seq::empty()
    } else {
        sequence_bytes(sequences[0]) + sequences_bytes(sequences.skip(1))
    }
}

/// The block that holds `sequences`, closed by the literals `last`.
pub open spec fn block_bytes(sequences: Seq<Sequence>, last: Seq<u8>) -> Seq<u8> {
    sequences_bytes(sequences) + closing_bytes(last)
}

/// `out` with one sequence applied: its literals, then its match.
pub open spec fn applied(out: Seq<u8>, s: Sequence) -> Seq<u8> {
    let grown = out + s.literals;
    grown + match_bytes(grown, s.offset, s.match_len)
}

/// `out` with `sequences` applied in turn.
pub open spec fn applied_all(out: Seq<u8>, sequences: Seq<Sequence>) -> Seq<u8>
    decreases sequences.len(),
{
    if sequences.len() == 0 {
        out
    } else {
        applied_all(applied(out, sequences[0]), sequences.skip(1))
    }
}

/// The content that `sequences` and the closing literals `last` stand for.
pub open spec fn content_of(sequences: Seq<Sequence>, last: Seq<u8>) -> Seq<u8> {
    applied_all(Seq::empty(), sequences) + last
}

/// Whether `sequences` can follow `out`: every match is four bytes or more,
/// and every offset fits in two bytes and points into what has been produced
/// by then.
pub open spec fn sound(out: Seq<u8>, sequences: Seq<Sequence>) -> bool
    decreases sequences.len(),
{
    sequences.len() == 0 || {
        let s = sequences[0];
        &&& s.match_len >= 4
        &&& 1 <= s.offset <= out.len() + s.literals.len()
        &&& s.offset <= 0xFFFF
        &&& sound(applied(out, s), sequences.skip(1))
    }
}

/// Whether the bytes of `part` stand in `input` from `pos` on.
pub open spec fn holds_at(input: Seq<u8>, pos: int, part: Seq<u8>) -> bool {
    &&& 0 <= pos
    &&& pos + part.len() <= input.len()
    &&& input.subrange(pos, pos + part.len()) == part
}

/// Where two parts stand in a row, each of them stands in its place.
proof fn lemma_holds_split(input: Seq<u8>, pos: int, first: Seq<u8>, second: Seq<u8>)
    requires
        holds_at(input, pos, first + second),
    ensures
        holds_at(input, pos, first),
        holds_at(input, pos + first.len(), second),
{
    let both = input.subrange(pos, pos + (first + second).len());
    assert forall|i: int| 0 <= i < first.len() implies input[pos + i] == first[i] by {
        assert(both[i] == (first + second)[i]);
    }
    assert forall|i: int| 0 <= i < second.len() implies input[pos + first.len() + i]
        == second[i] by {
        assert(both[first.len() + i] == (first + second)[first.len() + i]);
    }
    assert(input.subrange(pos, pos + first.len()) =~= first);
    assert(input.subrange(pos + first.len(), pos + first.len() + second.len()) =~= second);
}

/// Over the bytes that were written for `rest`, `run_end` stops at the last
/// one, and the bytes add up to `rest`.
proof fn lemma_run_over_extension(input: Seq<u8>, pos: int, rest: nat)
    requires
        holds_at(input, pos, extension_bytes(rest)),
    ensures
        run_end(input, pos) == pos + extension_bytes(rest).len() - 1,
        255 * (run_end(input, pos) - pos) + input[run_end(input, pos)] == rest,
    decreases rest,
{
    let bytes = extension_bytes(rest);
    assert(input.subrange(pos, pos + bytes.len())[0] == bytes[0]);
    if rest >= 255 {
        let shorter = extension_bytes((rest - 255) as nat);
        lemma_holds_split(input, pos, seq![255u8], shorter);
        lemma_run_over_extension(input, pos + 1, (rest - 255) as nat);
    }
}

/// A length field that was written for `len` is read as `len`.
proof fn lemma_reads_length(input: Seq<u8>, pos: int, len: nat)
    requires
        holds_at(input, pos, length_extension(len)),
    ensures
        length_field(input, pos, length_code(len)) == Some(
            LengthField { value: len, end: pos + length_extension(len).len() },
        ),
{
    if len >= 15 {
        lemma_run_over_extension(input, pos, (len - 15) as nat);
    }
}

/// The two bytes of an offset are read as the offset.
proof fn lemma_reads_offset(input: Seq<u8>, pos: int, offset: nat)
    requires
        holds_at(input, pos, offset_bytes(offset)),
        offset <= 0xFFFF,
    ensures
        offset_at(input, pos) == offset,
{
    let bytes = input.subrange(pos, pos + 2);
    assert(bytes[0] == offset_bytes(offset)[0]);
    assert(bytes[1] == offset_bytes(offset)[1]);
}

/// The opening of a sequence is read as it was written: the token gives both
/// codes, the literal length is read in full, and the literals follow it.
proof fn lemma_reads_opening(input: Seq<u8>, pos: int, literals: Seq<u8>, low: nat)
    requires
        holds_at(input, pos, opening_bytes(literals, low)),
        low <= 15,
    ensures
        0 <= pos < input.len(),
        match_code(input[pos]) == low,
        length_field(input, pos + 1, literal_code(input[pos])) == Some(
            LengthField {
                value: literals.len(),
                end: pos + 1 + length_extension(literals.len()).len(),
            },
        ),
        holds_at(input, pos + 1 + length_extension(literals.len()).len(), literals),
{
    let head = seq![(16 * length_code(literals.len()) + low) as u8];
    let ext = length_extension(literals.len());
    lemma_holds_split(input, pos, head + ext, literals);
    lemma_holds_split(input, pos, head, ext);
    assert(input.subrange(pos, pos + 1)[0] == head[0]);
    lemma_reads_length(input, pos + 1, literals.len());
}

/// Output only grows as sequences are applied.
proof fn lemma_applied_grows(out: Seq<u8>, sequences: Seq<Sequence>)
    ensures
        applied_all(out, sequences).len() >= out.len(),
    decreases sequences.len(),
{
    if sequences.len() > 0 {
        lemma_applied_grows(applied(out, sequences[0]), sequences.skip(1));
    }
}

/// Decoding the sequence that closes a block: where its bytes end the
/// input, the result is the output with the literals.
proof fn lemma_closing_step(input: Seq<u8>, pos: int, out: Seq<u8>, last: Seq<u8>)
    requires
        holds_at(input, pos, closing_bytes(last)),
        pos + closing_bytes(last).len() == input.len(),
    ensures
        decode_from(input, pos, out, out.len() + last.len()) == Ok::<Seq<u8>, DecodeError>(
            out + last,
        ),
{
    lemma_reads_opening(input, pos, last, 0);
}

/// Decoding a sequence that ends in a match: where its bytes stand at `pos`
/// and the declared size has room for what it produces, decoding goes on
/// behind it with the sequence applied to the output.
proof fn lemma_sequence_step(input: Seq<u8>, pos: int, out: Seq<u8>, s: Sequence, size: nat)
    requires
        holds_at(input, pos, sequence_bytes(s)),
        s.match_len >= 4,
        1 <= s.offset <= out.len() + s.literals.len(),
        s.offset <= 0xFFFF,
        applied(out, s).len() <= size,
    ensures
        decode_from(input, pos, out, size) == decode_from(
            input,
            pos + sequence_bytes(s).len(),
            applied(out, s),
            size,
        ),
{
    let extra = (s.match_len - 4) as nat;
    let opening = opening_bytes(s.literals, length_code(extra));
    lemma_holds_split(input, pos, opening + offset_bytes(s.offset), length_extension(extra));
    lemma_holds_split(input, pos, opening, offset_bytes(s.offset));
    lemma_reads_opening(input, pos, s.literals, length_code(extra));
    let literals_end = pos + opening.len();
    lemma_reads_offset(input, literals_end, s.offset);
    lemma_reads_length(input, literals_end + 2, extra);
}

/// Decoding passes over sound sequences: where their bytes stand at `pos`
/// and the declared size has room for what they produce, decoding goes on
/// behind them with all of them applied to the output.
pub proof fn lemma_decodes_sequences(
    input: Seq<u8>,
    pos: int,
    out: Seq<u8>,
    sequences: Seq<Sequence>,
    size: nat,
)
    requires
        holds_at(input, pos, sequences_bytes(sequences)),
        sound(out, sequences),
        applied_all(out, sequences).len() <= size,
    ensures
        decode_from(input, pos, out, size) == decode_from(
            input,
            pos + sequences_bytes(sequences).len(),
            applied_all(out, sequences),
            size,
        ),
    decreases sequences.len(),
{
    if sequences.len() > 0 {
        let s = sequences[0];
        let rest = sequences.skip(1);
        lemma_holds_split(input, pos, sequence_bytes(s), sequences_bytes(rest));
        lemma_applied_grows(applied(out, s), rest);
        lemma_sequence_step(input, pos, out, s, size);
        lemma_decodes_sequences(input, pos + sequence_bytes(s).len(), applied(out, s), rest, size);
    }
}

/// The round trip: a block that was written for sound sequences decodes,
/// under the size of their content, to that content.
pub proof fn lemma_round_trip(sequences: Seq<Sequence>, last: Seq<u8>)
    requires
        sound(Seq::empty(), sequences),
    ensures
        decode_block(content_of(sequences, last).len(), block_bytes(sequences, last)) == Ok::<
            Seq<u8>,
            DecodeError,
        >(content_of(sequences, last)),
{
    let input = block_bytes(sequences, last);
    let content = content_of(sequences, last);
    let produced = applied_all(Seq::empty(), sequences);
    if content.len() == 0 {
        assert(content =~= Seq::empty());
    } else {
        assert(input.subrange(0, input.len() as int) =~= input);
        lemma_holds_split(input, 0, sequences_bytes(sequences), closing_bytes(last));
        lemma_decodes_sequences(input, 0, Seq::empty(), sequences, content.len());
        lemma_closing_step(input, sequences_bytes(sequences).len() as int, produced, last);
    }
}

/// The round trip for content that is stored as it is, in one closing
/// sequence: it decodes to itself.
pub proof fn lemma_stored_round_trip(content: Seq<u8>)
    ensures
        decode_block(content.len(), closing_bytes(content)) == Ok::<Seq<u8>, DecodeError>(content),
{
    let none = Seq::<Sequence>::empty();
    lemma_round_trip(none, content);
    assert(content_of(none, content) =~= content);
    assert(block_bytes(none, content) =~= closing_bytes(content));
}

/// A match that points outside the output is refused wherever decoding
/// meets it: where a block opens with sound sequences, followed by literals
/// that the declared size has room for and by an offset that is zero or
/// larger than the output is long by then, the result is `InvalidOffset`,
/// whatever the other bytes of the block are.
pub proof fn lemma_bad_offset_is_invalid(
    block: Seq<u8>,
    sequences: Seq<Sequence>,
    literals: Seq<u8>,
    low: nat,
    offset: nat,
    size: nat,
)
    requires
        sound(Seq::empty(), sequences),
        low <= 15,
        offset <= 0xFFFF,
        offset == 0 || offset > applied_all(Seq::empty(), sequences).len() + literals.len(),
        0 < size,
        applied_all(Seq::empty(), sequences).len() + literals.len() <= size,
        holds_at(
            block,
            0,
            sequences_bytes(sequences) + opening_bytes(literals, low) + offset_bytes(offset),
        ),
    ensures
        decode_block(size, block) == Err::<Seq<u8>, DecodeError>(DecodeError::InvalidOffset),
{
    let produced = applied_all(Seq::empty(), sequences);
    let before = sequences_bytes(sequences);
    let opening = opening_bytes(literals, low);
    lemma_holds_split(block, 0, before + opening, offset_bytes(offset));
    lemma_holds_split(block, 0, before, opening);
    lemma_applied_grows(Seq::empty(), sequences);
    lemma_decodes_sequences(block, 0, Seq::empty(), sequences, size);
    let pos = before.len() as int;
    lemma_reads_opening(block, pos, literals, low);
    lemma_reads_offset(block, pos + opening.len(), offset);
}

} // verus!
