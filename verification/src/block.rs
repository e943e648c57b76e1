//! The decoded record and its decoders.

use crate::error::BlockError;
use crate::layout::{
    body_of, header_of, le_i32, le_u32, payload_of, prefix_of, record_of, span, tail, Body, Header,
    Record, FIXED_LEN, HEADER_LEN, MAGIC_BYTE, PREFIX_LEN,
};
use vstd::prelude::*;
use vstd::slice::{slice_subrange, slice_to_vec};

verus! {

/// The fixed part of a payload.
#[derive(Debug, Clone, Copy, PartialEq, Eq)]
pub struct BlockHeader {
    pub version: i32,
    pub prev_block_hash: [u8; 32],
    pub merkle_hash: [u8; 32],
    pub time: u32,
    pub nbits: u32,
    pub nonce: u32,
}

/// A payload: header, entry count, and the entries as they lie in the file.
#[derive(Debug, PartialEq, Eq)]
pub struct TransactionBlock {
    pub block_header: BlockHeader,
    pub tx_count: u32,
    pub tx_data: Vec<u8>,
}

/// One record of the file.
#[derive(Debug, PartialEq, Eq)]
pub struct BitcoinBlock {
    pub magic_bytes: [u8; 4],
    pub size: u32,
    pub block: TransactionBlock,
}

impl View for BlockHeader {
    type V = Header;

    open spec fn view(&self) -> Header {
        Header {
            version: self.version,
            prev_block_hash: self.prev_block_hash@,
            merkle_hash: self.merkle_hash@,
            time: self.time,
            nbits: self.nbits,
            nonce: self.nonce,
        }
    }
}

impl View for TransactionBlock {
    type V = Body;

    open spec fn view(&self) -> Body {
        Body {
            block_header: self.block_header@,
            tx_count: self.tx_count,
            tx_data: self.tx_data@,
        }
    }
}

impl View for BitcoinBlock {
    type V = Record;

    open spec fn view(&self) -> Record {
        Record { magic_bytes: self.magic_bytes@, size: self.size, block: self.block@ }
    }
}

impl Clone for TransactionBlock {
    fn clone(&self) -> (r: Self)
        ensures
            r@ == self@,
    {
        TransactionBlock {
            block_header: self.block_header,
            tx_count: self.tx_count,
            tx_data: self.tx_data.clone(),
        }
    }
}

impl Clone for BitcoinBlock {
    fn clone(&self) -> (r: Self)
        ensures
            r@ == self@,
    {
        BitcoinBlock { magic_bytes: self.magic_bytes, size: self.size, block: self.block.clone() }
    }
}

/// Reads the little-endian `u32` at `at`.
fn read_u32_le(bytes: &[u8], at: usize) -> (r: u32)
    requires
        at + 4 <= bytes@.len(),
    ensures
        r == le_u32(bytes@.subrange(at as int, at + 4)),
{
    let b0: u32 = bytes[at] as u32;
    let b1: u32 = bytes[at + 1] as u32;
    let b2: u32 = bytes[at + 2] as u32;
    let b3: u32 = bytes[at + 3] as u32;
    b0 + 0x100 * b1 + 0x1_0000 * b2 + 0x100_0000 * b3
}

/// Reads the little-endian `i32` at `at`.
fn read_i32_le(bytes: &[u8], at: usize) -> (r: i32)
    requires
        at + 4 <= bytes@.len(),
    ensures
        r == le_i32(bytes@.subrange(at as int, at + 4)),
{
    let u: u32 = read_u32_le(bytes, at);
    if u < 0x8000_0000 {
        u as i32
    } else {
        let low: i32 = (u - 0x8000_0000) as i32;
        low + i32::MIN
    }
}

/// Copies the `N` bytes at `at`.
fn read_array<const N: usize>(bytes: &[u8], at: usize) -> (r: [u8; N])
    requires
        at + N <= bytes@.len(),
    ensures
        r@ == bytes@.subrange(at as int, at + N),
{
    let mut r = [0u8; N];
    let mut i: usize = 0;
    while i < N
        invariant
            i <= N,
            at + N <= bytes.len(),
            forall|j: int| 0 <= j < i ==> r@[j] == bytes@[at + j],
        decreases N - i,
    {
        r[i] = bytes[at + i];
        i += 1;
    }
    assert(r@ =~= bytes@.subrange(at as int, at + N));
    r
}

/// Whether the first four bytes are the marker.
pub(crate) fn starts_with_marker(bytes: &[u8]) -> (r: bool)
    requires
        bytes@.len() >= 4,
    ensures
        r == (bytes@.subrange(0, 4) == MAGIC_BYTE@),
{
    let r = bytes[0] == MAGIC_BYTE[0] && bytes[1] == MAGIC_BYTE[1] && bytes[2] == MAGIC_BYTE[2]
        && bytes[3] == MAGIC_BYTE[3];
    proof {
        if r {
            assert(bytes@.subrange(0, 4) =~= MAGIC_BYTE@);
        }
    }
    r
}

impl BlockHeader {
    /// Decodes the header that the first 80 bytes hold. Fewer bytes hold no
    /// header.
    pub fn parse_le(bytes: &[u8]) -> (r: Result<BlockHeader, BlockError>)
        ensures
            match r {
                Ok(header) => bytes@.len() >= HEADER_LEN && header@ == header_of(bytes@),
                Err(e) => bytes@.len() < HEADER_LEN && e == BlockError::MalformedPayload,
            },
    {
        if bytes.len() < HEADER_LEN {
            return Err(BlockError::MalformedPayload);
        }
        Ok(
            BlockHeader {
                version: read_i32_le(bytes, 0),
                prev_block_hash: read_array::<32>(bytes, 4),
                merkle_hash: read_array::<32>(bytes, 36),
                time: read_u32_le(bytes, 68),
                nbits: read_u32_le(bytes, 72),
                nonce: read_u32_le(bytes, 76),
            },
        )
    }
}

impl TransactionBlock {
    /// Decodes a payload: the header, the entry count, and all that follows
    /// as the entries. A payload under 84 bytes is malformed.
    pub fn parse_le(payload: &[u8]) -> (r: Result<TransactionBlock, BlockError>)
        ensures
            match r {
                Ok(body) => body_of(payload@) == Some(body@),
                Err(e) => body_of(payload@) is None && e == BlockError::MalformedPayload,
            },
    {
        if payload.len() < FIXED_LEN {
            return Err(BlockError::MalformedPayload);
        }
        let block_header = match BlockHeader::parse_le(payload) {
            Ok(header) => header,
            Err(e) => {
                return Err(e);
            },
        };
        let tx_count = read_u32_le(payload, HEADER_LEN);
        let tx_data = slice_to_vec(slice_subrange(payload, FIXED_LEN, payload.len()));
        Ok(TransactionBlock { block_header, tx_count, tx_data })
    }
}

/// Decodes a record's prefix: checks the marker and gives the payload length.
pub fn parse_prefix(bytes: &[u8]) -> (r: Result<u32, BlockError>)
    ensures
        r == prefix_of(bytes@),
{
    if bytes.len() < PREFIX_LEN {
        return Err(BlockError::TruncatedRead);
    }
    if !starts_with_marker(bytes) {
        return Err(BlockError::InvalidMarker);
    }
    Ok(read_u32_le(bytes, 4))
}

/// Decodes the payload of a record whose prefix declared `size` bytes, from
/// what a read of that many bytes gave.
pub fn parse_payload(size: u32, rest: &[u8]) -> (r: Result<TransactionBlock, BlockError>)
    ensures
        match r {
            Ok(body) => payload_of(size, rest@) == Ok::<Body, BlockError>(body@),
            Err(e) => payload_of(size, rest@) == Err::<Body, BlockError>(e),
        },
{
    if rest.len() < size as usize {
        return Err(BlockError::TruncatedRead);
    }
    TransactionBlock::parse_le(slice_subrange(rest, 0, size as usize))
}

/// Decodes the record that begins at `offset` in `data`, and gives with it
/// the number of bytes that the record occupies: the next record begins that
/// many bytes further on.
///
/// The marker is checked first, then that the file holds as many bytes as
/// the prefix declares, then that these hold a header and an entry count. At
/// and behind the end of `data` there is no prefix to read, which is a
/// truncated read here; [`crate::TxParser`] tells that case apart.
pub fn fetch_block(data: &[u8], offset: u64) -> (r: Result<(u64, BitcoinBlock), BlockError>)
    ensures
        match r {
            Ok((next_block_pos, block)) => record_of(tail(data@, offset as int)) == Ok::<
                Record,
                BlockError,
            >(block@) && next_block_pos == span(block@),
            Err(e) => record_of(tail(data@, offset as int)) == Err::<Record, BlockError>(e),
        },
{
    proof {
        reveal(record_of);
    }
    if offset > data.len() as u64 {
        return Err(BlockError::TruncatedRead);
    }
    let bytes = slice_subrange(data, offset as usize, data.len());
    let size = match parse_prefix(bytes) {
        Ok(size) => size,
        Err(e) => {
            return Err(e);
        },
    };
    let rest = slice_subrange(bytes, PREFIX_LEN, bytes.len());
    let block = match parse_payload(size, rest) {
        Ok(block) => block,
        Err(e) => {
            return Err(e);
        },
    };
    let magic_bytes = read_array::<4>(bytes, 0);
    let next_block_pos: u64 = size as u64 + 8;
    Ok((next_block_pos, BitcoinBlock { magic_bytes, size, block }))
}

} // verus!
