//! The on-disk layout of a record, as functions on byte sequences.

use crate::error::BlockError;
use vstd::prelude::*;

verus! {

/// The four bytes that open every record.
pub const MAGIC_BYTE: [u8; 4] = [0xf9, 0xbe, 0xb4, 0xd9];

/// Marker and payload length.
pub const PREFIX_LEN: usize = 8;

/// Version, two hashes, time, difficulty target and nonce.
pub const HEADER_LEN: usize = 80;

/// Header and entry count: the least a payload can hold.
pub const FIXED_LEN: usize = 84;

/// A decoded header.
pub struct Header {
    pub version: i32,
    pub prev_block_hash: Seq<u8>,
    pub merkle_hash: Seq<u8>,
    pub time: u32,
    pub nbits: u32,
    pub nonce: u32,
}

/// A decoded payload.
pub struct Body {
    pub block_header: Header,
    pub tx_count: u32,
    pub tx_data: Seq<u8>,
}

/// A decoded record.
pub struct Record {
    pub magic_bytes: Seq<u8>,
    pub size: u32,
    pub block: Body,
}

/// The unsigned integer that four bytes hold, least significant byte first.
pub open spec fn le_u32(b: Seq<u8>) -> u32
    recommends
        b.len() == 4,
{
    (b[0] + 0x100 * b[1] + 0x1_0000 * b[2] + 0x100_0000 * b[3]) as u32
}

/// The two's complement integer that four bytes hold, least significant byte
/// first.
pub open spec fn le_i32(b: Seq<u8>) -> i32
    recommends
        b.len() == 4,
{
    let u = le_u32(b);
    if u < 0x8000_0000 {
        u as i32
    } else {
        (u - 0x1_0000_0000) as i32
    }
}

/// The header that the first 80 bytes of `b` hold.
pub open spec fn header_of(b: Seq<u8>) -> Header
    recommends
        b.len() >= HEADER_LEN,
{
    Header {
        version: le_i32(b.subrange(0, 4)),
        prev_block_hash: b.subrange(4, 36),
        merkle_hash: b.subrange(36, 68),
        time: le_u32(b.subrange(68, 72)),
        nbits: le_u32(b.subrange(72, 76)),
        nonce: le_u32(b.subrange(76, 80)),
    }
}

/// The payload that `payload` holds: the header, the entry count, and every
/// byte after them as the entries. A payload shorter than header and entry
/// count holds none.
pub open spec fn body_of(payload: Seq<u8>) -> Option<Body> {
    if payload.len() < FIXED_LEN {
        None
    } else {
        Some(
            Body {
                block_header: header_of(payload),
                tx_count: le_u32(payload.subrange(80, 84)),
                tx_data: payload.subrange(84, payload.len() as int),
            },
        )
    }
}

/// The payload length that a record's first eight bytes declare.
pub open spec fn prefix_of(bytes: Seq<u8>) -> Result<u32, BlockError> {
    if bytes.len() < PREFIX_LEN {
        Err(BlockError::TruncatedRead)
    } else if bytes.subrange(0, 4) != MAGIC_BYTE@ {
        Err(BlockError::InvalidMarker)
    } else {
        Ok(le_u32(bytes.subrange(4, 8)))
    }
}

/// The payload that follows a prefix, where `rest` is what a read of `size`
/// bytes behind the prefix gave.
pub open spec fn payload_of(size: u32, rest: Seq<u8>) -> Result<Body, BlockError> {
    if rest.len() < size {
        Err(BlockError::TruncatedRead)
    } else {
        match body_of(rest.subrange(0, size as int)) {
            None => Err(BlockError::MalformedPayload),
            Some(body) => Ok(body),
        }
    }
}

/// The record that begins at the first byte of `bytes`, where `bytes` runs to
/// the end of the input.
#[verifier::opaque]
pub open spec fn record_of(bytes: Seq<u8>) -> Result<Record, BlockError> {
    match prefix_of(bytes) {
        Err(e) => Err(e),
        Ok(size) => match payload_of(size, bytes.subrange(8, bytes.len() as int)) {
            Err(e) => Err(e),
            Ok(block) => Ok(Record { magic_bytes: bytes.subrange(0, 4), size, block }),
        },
    }
}

/// What holds of every record that was decoded: it opens with the marker,
/// its hashes have their length, and its declared length is that of its
/// payload.
pub open spec fn decoded(r: Record) -> bool {
    &&& r.magic_bytes == MAGIC_BYTE@
    &&& r.block.block_header.prev_block_hash.len() == 32
    &&& r.block.block_header.merkle_hash.len() == 32
    &&& r.size == FIXED_LEN + r.block.tx_data.len()
}

/// The four bytes that hold an unsigned integer, least significant byte
/// first.
pub open spec fn u32_le(x: u32) -> Seq<u8> {
    seq![
        (x % 0x100) as u8,
        (x / 0x100 % 0x100) as u8,
        (x / 0x1_0000 % 0x100) as u8,
        (x / 0x100_0000) as u8,
    ]
}

/// The four bytes that hold an integer in two's complement, least
/// significant byte first.
pub open spec fn i32_le(x: i32) -> Seq<u8> {
    if x >= 0 {
        u32_le(x as u32)
    } else {
        u32_le((x + 0x1_0000_0000) as u32)
    }
}

/// The bytes of a header.
pub open spec fn header_bytes(h: Header) -> Seq<u8> {
    i32_le(h.version) + h.prev_block_hash + h.merkle_hash + u32_le(h.time) + u32_le(h.nbits)
        + u32_le(h.nonce)
}

/// The bytes of a payload.
pub open spec fn body_bytes(b: Body) -> Seq<u8> {
    header_bytes(b.block_header) + u32_le(b.tx_count) + b.tx_data
}

/// The bytes of a record.
pub open spec fn record_bytes(r: Record) -> Seq<u8> {
    r.magic_bytes + u32_le(r.size) + body_bytes(r.block)
}

/// The bytes of records laid end to end.
pub open spec fn chain_bytes(records: Seq<Record>) -> Seq<u8>
    decreases records.len(),
{
    if records.len() == 0 {
        Seq::empty()
    } else {
        record_bytes(records.first()) + chain_bytes(records.drop_first())
    }
}

/// What lies in `file` from `offset` on. Nothing lies at or behind the end.
pub open spec fn tail(file: Seq<u8>, offset: int) -> Seq<u8> {
    if 0 <= offset <= file.len() {
        file.subrange(offset, file.len() as int)
    } else {
        Seq::empty()
    }
}

/// What a read of `len` bytes at `offset` gives: the bytes asked for, or as
/// many of them as the file holds.
pub open spec fn read_at(file: Seq<u8>, offset: int, len: int) -> Seq<u8> {
    let rest = tail(file, offset);
    if 0 <= len <= rest.len() {
        rest.subrange(0, len)
    } else {
        rest
    }
}

/// The number of bytes that a record occupies: its prefix and its payload,
/// with nothing between it and the next record.
pub open spec fn span(r: Record) -> int {
    PREFIX_LEN + r.size
}

/// A payload that decodes, behind the marker and the length that it was read
/// with, makes a decoded record.
pub proof fn lemma_payload_decoded(size: u32, rest: Seq<u8>)
    requires
        payload_of(size, rest) is Ok,
    ensures
        decoded(Record { magic_bytes: MAGIC_BYTE@, size, block: payload_of(size, rest)->Ok_0 }),
{
}

/// A record that decodes is a decoded record.
pub proof fn lemma_record_decoded(bytes: Seq<u8>)
    requires
        record_of(bytes) is Ok,
    ensures
        decoded(record_of(bytes)->Ok_0),
        span(record_of(bytes)->Ok_0) <= bytes.len(),
{
    reveal(record_of);
    let size = prefix_of(bytes)->Ok_0;
    lemma_payload_decoded(size, bytes.subrange(8, bytes.len() as int));
}

/// Four bytes hold the integer that is read from them, and no other.
pub proof fn lemma_u32_round_trip(x: u32, b: Seq<u8>)
    ensures
        u32_le(x).len() == 4,
        le_u32(u32_le(x)) == x,
        b.len() == 4 ==> u32_le(le_u32(b)) == b,
{
    assert(x == x % 0x100 + 0x100 * (x / 0x100 % 0x100) + 0x1_0000 * (x / 0x1_0000 % 0x100)
        + 0x100_0000 * (x / 0x100_0000) && x / 0x100_0000 < 0x100) by (bit_vector);
    if b.len() == 4 {
        let (b0, b1, b2, b3) = (b[0], b[1], b[2], b[3]);
        let y = le_u32(b);
        assert(y % 0x100 == b0 && y / 0x100 % 0x100 == b1 && y / 0x1_0000 % 0x100 == b2 && y
            / 0x100_0000 == b3) by (bit_vector)
            requires
                y == b0 + 0x100 * b1 + 0x1_0000 * b2 + 0x100_0000 * b3,
        ;
        assert(u32_le(y) =~= b);
    }
}

/// Four bytes hold the signed integer that is read from them, and no other.
pub proof fn lemma_i32_round_trip(x: i32, b: Seq<u8>)
    ensures
        i32_le(x).len() == 4,
        le_i32(i32_le(x)) == x,
        b.len() == 4 ==> i32_le(le_i32(b)) == b,
{
    if x >= 0 {
        lemma_u32_round_trip(x as u32, b);
    } else {
        lemma_u32_round_trip((x + 0x1_0000_0000) as u32, b);
    }
    if b.len() == 4 {
        lemma_u32_round_trip(0, b);
        assert(i32_le(le_i32(b)) =~= b);
    }
}

/// The bytes of a decoded record, whatever follows them, decode to that
/// record, and they are as many as the record's span.
pub proof fn lemma_record_round_trip(r: Record, rest: Seq<u8>)
    requires
        decoded(r),
    ensures
        record_bytes(r).len() == span(r),
        record_of(record_bytes(r) + rest) == Ok::<Record, BlockError>(r),
{
    reveal(record_of);
    let h = r.block.block_header;
    let empty = Seq::<u8>::empty();
    lemma_u32_round_trip(r.size, empty);
    lemma_u32_round_trip(r.block.tx_count, empty);
    lemma_u32_round_trip(h.time, empty);
    lemma_u32_round_trip(h.nbits, empty);
    lemma_u32_round_trip(h.nonce, empty);
    lemma_i32_round_trip(h.version, empty);
    let bytes = record_bytes(r) + rest;
    assert(bytes.subrange(0, 4) =~= r.magic_bytes);
    assert(bytes.subrange(4, 8) =~= u32_le(r.size));
    let behind = bytes.subrange(8, bytes.len() as int);
    let payload = behind.subrange(0, r.size as int);
    assert(payload =~= body_bytes(r.block));
    assert(payload.subrange(0, 4) =~= i32_le(h.version));
    assert(payload.subrange(4, 36) =~= h.prev_block_hash);
    assert(payload.subrange(36, 68) =~= h.merkle_hash);
    assert(payload.subrange(68, 72) =~= u32_le(h.time));
    assert(payload.subrange(72, 76) =~= u32_le(h.nbits));
    assert(payload.subrange(76, 80) =~= u32_le(h.nonce));
    assert(payload.subrange(80, 84) =~= u32_le(r.block.tx_count));
    assert(payload.subrange(84, payload.len() as int) =~= r.block.tx_data);
    assert(header_of(payload) == h);
    assert(body_of(payload) == Some(r.block));
}

/// A record that decodes was decoded from its own bytes: the input opens
/// with them.
pub proof fn lemma_bytes_round_trip(bytes: Seq<u8>)
    requires
        record_of(bytes) is Ok,
    ensures
        record_bytes(record_of(bytes)->Ok_0) == bytes.subrange(0, span(record_of(bytes)->Ok_0)),
{
    reveal(record_of);
    let r = record_of(bytes)->Ok_0;
    let payload = bytes.subrange(8, bytes.len() as int).subrange(0, r.size as int);
    lemma_u32_round_trip(0, bytes.subrange(4, 8));
    lemma_u32_round_trip(0, payload.subrange(68, 72));
    lemma_u32_round_trip(0, payload.subrange(72, 76));
    lemma_u32_round_trip(0, payload.subrange(76, 80));
    lemma_u32_round_trip(0, payload.subrange(80, 84));
    lemma_i32_round_trip(0, payload.subrange(0, 4));
    assert(header_bytes(r.block.block_header) =~= payload.subrange(0, 80));
    assert(body_bytes(r.block) =~= payload);
    assert(record_bytes(r) =~= bytes.subrange(0, span(r)));
}

} // verus!
