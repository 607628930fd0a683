//! The container around a block: magic bytes, declared size, block.

use vstd::prelude::*;
use vstd::slice::slice_subrange;
use crate::decoder::{decode, outcome};
use crate::error::DecodeError;
use crate::format::decode_block;
use crate::lz4::{content, decompress_size_prepended, lz4_size_prepended, FAST_PATH_LIMIT};

verus! {

/// The eight bytes that open every container: `mozLz40` and a zero byte.
pub const MAGIC_HEADER: [u8; 8] = [0x6D, 0x6F, 0x7A, 0x4C, 0x7A, 0x34, 0x30, 0x00];

/// The length of the header.
pub const HEADER_LEN: usize = 8;

/// The length of the size prefix that opens a body.
pub const PREFIX_LEN: usize = 4;

/// The magic bytes as a sequence.
pub open spec fn magic() -> Seq<u8> {
    seq![0x6Du8, 0x6Fu8, 0x7Au8, 0x4Cu8, 0x7Au8, 0x34u8, 0x30u8, 0x00u8]
}

/// A cursor over the bytes of a container, which are all in memory.
pub struct ContainerReader<'a> {
    bytes: &'a [u8],
    pos: usize,
}

impl<'a> ContainerReader<'a> {
    #[verifier::type_invariant]
    spec fn in_bounds(&self) -> bool {
        self.pos <= self.bytes@.len()
    }

    /// The bytes that have not been consumed yet.
    pub closed spec fn remaining(&self) -> Seq<u8> {
        self.bytes@.skip(self.pos as int)
    }

    /// A reader at the start of `bytes`.
    pub fn new(bytes: &'a [u8]) -> (reader: Self)
        ensures
            reader.remaining() == bytes@,
    {
        ContainerReader { bytes, pos: 0 }
    }
}

/// Consumes the header: the next eight bytes.
///
/// Where fewer than eight bytes remain, the reader consumes them all and the
/// result is `Truncated`.
pub fn consume_header(reader: &mut ContainerReader) -> (r: Result<[u8; 8], DecodeError>)
    ensures
        old(reader).remaining().len() >= HEADER_LEN ==> {
            &&& r is Ok
            &&& r->Ok_0@ == old(reader).remaining().take(HEADER_LEN as int)
            &&& final(reader).remaining() == old(reader).remaining().skip(HEADER_LEN as int)
        },
        old(reader).remaining().len() < HEADER_LEN ==> {
            &&& r == Err::<[u8; 8], DecodeError>(DecodeError::Truncated)
            &&& final(reader).remaining() == Seq::<u8>::empty()
        },
{
    proof {
        use_type_invariant(&*reader);
    }
    let bytes = reader.bytes;
    let pos = reader.pos;
    if bytes.len() - pos < HEADER_LEN {
        reader.pos = bytes.len();
        assert(reader.remaining() =~= Seq::<u8>::empty());
        return Err(DecodeError::Truncated);
    }
    let header: [u8; 8] = [
        bytes[pos],
        bytes[pos + 1],
        bytes[pos + 2],
        bytes[pos + 3],
        bytes[pos + 4],
        bytes[pos + 5],
        bytes[pos + 6],
        bytes[pos + 7],
    ];
    reader.pos = pos + HEADER_LEN;
    assert(header@ =~= old(reader).remaining().take(HEADER_LEN as int));
    assert(reader.remaining() =~= old(reader).remaining().skip(HEADER_LEN as int));
    Ok(header)
}

/// Consumes the body: all the bytes that remain.
pub fn consume_body(reader: &mut ContainerReader) -> (body: Vec<u8>)
    ensures
        body@ == old(reader).remaining(),
        final(reader).remaining() == Seq::<u8>::empty(),
{
    proof {
        use_type_invariant(&*reader);
    }
    let bytes = reader.bytes;
    let rest = slice_subrange(bytes, reader.pos, bytes.len());
    let mut body: Vec<u8> = Vec::with_capacity(rest.len());
    body.extend_from_slice(rest);
    reader.pos = bytes.len();
    assert(body@ =~= old(reader).remaining());
    assert(reader.remaining() =~= Seq::<u8>::empty());
    body
}

/// Accepts `header` if it is the magic bytes, and nothing else.
pub fn check_header(header: &[u8]) -> (r: Result<(), DecodeError>)
    ensures
        r is Ok <==> header@ == magic(),
        r is Err ==> r == Err::<(), DecodeError>(DecodeError::HeaderMismatch),
{
    if header.len() != HEADER_LEN {
        return Err(DecodeError::HeaderMismatch);
    }
    let mut i: usize = 0;
    while i < HEADER_LEN
        invariant
            i <= HEADER_LEN,
            header.len() == HEADER_LEN,
            forall|k: int| 0 <= k < i ==> header@[k] == magic()[k],
        decreases HEADER_LEN - i,
    {
        if header[i] != MAGIC_HEADER[i] {
            return Err(DecodeError::HeaderMismatch);
        }
        i += 1;
    }
    assert(header@ =~= magic());
    Ok(())
}

/// The declared size of a body: its first four bytes, read as a
/// little-endian number.
pub open spec fn size_prefix(body: Seq<u8>) -> nat {
    (body[0] + 256 * body[1] + 65536 * body[2] + 16777216 * body[3]) as nat
}

/// The block of a body: what follows the size prefix.
pub open spec fn block_of(body: Seq<u8>) -> Seq<u8> {
    body.skip(PREFIX_LEN as int)
}

/// What is returned for a block, given what the `lz4_flex` decompressor
/// made of it (`fast`, `None` where it was not asked or reported an error).
///
/// Content of the declared size is taken as it is. In every other case the
/// block is decoded again as the model of [`crate::format`] says, so that
/// each error is the model's.
pub open spec fn settled(size: nat, block: Seq<u8>, fast: Option<Seq<u8>>) -> Result<
    Seq<u8>,
    DecodeError,
> {
    match fast {
        Some(bytes) if bytes.len() == size => Ok(bytes),
        _ => decode_block(size, block),
    }
}

/// What a body inflates to.
///
/// A body of fewer than four bytes is `Truncated`, and a declared size of
/// zero stands for empty content. A body of at most [`FAST_PATH_LIMIT`]
/// bytes goes to the `lz4_flex` decompressor first; a longer one is decoded
/// by this crate alone.
pub open spec fn inflated(body: Seq<u8>) -> Result<Seq<u8>, DecodeError> {
    if body.len() < PREFIX_LEN {
        Err(DecodeError::Truncated)
    } else if size_prefix(body) == 0 {
        Ok(Seq::empty())
    } else if body.len() <= FAST_PATH_LIMIT {
        settled(size_prefix(body), block_of(body), lz4_size_prepended(body))
    } else {
        decode_block(size_prefix(body), block_of(body))
    }
}

/// What a container holds: the header is checked, then the body inflated.
pub open spec fn extracted(container: Seq<u8>) -> Result<Seq<u8>, DecodeError> {
    if container.len() < HEADER_LEN {
        Err(DecodeError::Truncated)
    } else if container.take(HEADER_LEN as int) != magic() {
        Err(DecodeError::HeaderMismatch)
    } else {
        inflated(container.skip(HEADER_LEN as int))
    }
}

/// Reads the size prefix of `body`, or `None` if `body` is too short to
/// hold one.
pub fn declared_size(body: &[u8]) -> (r: Option<u32>)
    ensures
        body@.len() < PREFIX_LEN ==> r is None,
        body@.len() >= PREFIX_LEN ==> r == Some(size_prefix(body@) as u32) && size_prefix(body@)
            <= u32::MAX,
{
    if body.len() < PREFIX_LEN {
        return None;
    }
    let size: u32 = body[0] as u32 + 256 * (body[1] as u32) + 65536 * (body[2] as u32) + 16777216
        * (body[3] as u32);
    Some(size)
}

/// Decides what is returned for `block`, whose content was declared to be
/// `size` bytes long, once the `lz4_flex` decompressor has answered with
/// `fast`.
///
/// Content of exactly `size` bytes is handed on. Otherwise the block is
/// decoded by [`decode`], which gives the content or names the fault.
pub fn settle(size: u32, block: &[u8], fast: Option<Vec<u8>>) -> (r: Result<Vec<u8>, DecodeError>)
    ensures
        outcome(r) == settled(size as nat, block@, content(fast)),
        r matches Ok(bytes) ==> bytes@.len() == size,
        r matches Err(e) ==> e != DecodeError::HeaderMismatch,
{
    match fast {
        Some(bytes) => {
            if bytes.len() == size as usize {
                Ok(bytes)
            } else {
                decode(size, block)
            }
        },
        None => decode(size, block),
    }
}

/// Inflates `input`, a body: a four-byte declared size and an LZ4 block.
///
/// The result is `inflated(input)`. On success the content has exactly the
/// declared size.
pub fn inflate(input: &[u8]) -> (r: Result<Vec<u8>, DecodeError>)
    ensures
        outcome(r) == inflated(input@),
        r matches Ok(bytes) ==> bytes@.len() == size_prefix(input@),
        r matches Err(e) ==> e != DecodeError::HeaderMismatch,
{
    let size: u32 = match declared_size(input) {
        None => { return Err(DecodeError::Truncated); },
        Some(size) => size,
    };
    if size == 0 {
        return Ok(Vec::new());
    }
    let block = slice_subrange(input, PREFIX_LEN, input.len());
    assert(block@ =~= block_of(input@));
    if input.len() <= FAST_PATH_LIMIT {
        let fast = decompress_size_prepended(input);
        settle(size, block, fast)
    } else {
        decode(size, block)
    }
}

/// Extracts the content of `container`: magic bytes, declared size, block.
///
/// The result is `extracted(container)`: `Truncated` for a container too
/// short to hold the header, `HeaderMismatch` for one that opens with other
/// bytes than the magic ones, and otherwise what the body inflates to.
pub fn extract(container: &[u8]) -> (r: Result<Vec<u8>, DecodeError>)
    ensures
        outcome(r) == extracted(container@),
        r matches Ok(bytes) ==> bytes@.len() == size_prefix(container@.skip(HEADER_LEN as int)),
{
    let mut reader = ContainerReader::new(container);
    let header: [u8; 8] = match consume_header(&mut reader) {
        Err(e) => { return Err(e); },
        Ok(header) => header,
    };
    match check_header(header.as_slice()) {
        Err(e) => { return Err(e); },
        Ok(()) => {},
    }
    proof {
        use_type_invariant(&reader);
    }
    let body = slice_subrange(reader.bytes, reader.pos, reader.bytes.len());
    assert(body@ =~= container@.skip(HEADER_LEN as int));
    inflate(body)
}

} // verus!
