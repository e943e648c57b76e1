use blockfile::{BlockHeader, TransactionBlock};
use nom_derive::Parse;

fn sample(len: usize, seed: u8) -> Vec<u8> {
    let mut bytes = Vec::with_capacity(len);
    let mut x = seed;
    for i in 0..len {
        x = x.wrapping_mul(167).wrapping_add(i as u8).wrapping_add(13);
        bytes.push(x);
    }
    bytes
}

fn fields_by_nom(input: &[u8]) -> Option<(i32, [u8; 32], [u8; 32], u32, u32, u32, u32, Vec<u8>)> {
    let (rest, version) = <i32 as Parse<&[u8]>>::parse_le(input).ok()?;
    let (rest, prev) = <[u8; 32] as Parse<&[u8]>>::parse_le(rest).ok()?;
    let (rest, merkle) = <[u8; 32] as Parse<&[u8]>>::parse_le(rest).ok()?;
    let (rest, time) = <u32 as Parse<&[u8]>>::parse_le(rest).ok()?;
    let (rest, nbits) = <u32 as Parse<&[u8]>>::parse_le(rest).ok()?;
    let (rest, nonce) = <u32 as Parse<&[u8]>>::parse_le(rest).ok()?;
    let (rest, tx_count) = <u32 as Parse<&[u8]>>::parse_le(rest).ok()?;
    let (rest, tx_data) = <Vec<u8> as Parse<&[u8]>>::parse_le(rest).ok()?;
    assert!(rest.is_empty());
    Some((version, prev, merkle, time, nbits, nonce, tx_count, tx_data))
}

#[test]
fn payload_decodes_as_the_field_parsers_do() {
    for seed in 0..=255u8 {
        let len = 84 + (seed as usize % 40);
        let payload = sample(len, seed);
        let body = TransactionBlock::parse_le(&payload).unwrap();
        let (version, prev, merkle, time, nbits, nonce, tx_count, tx_data) =
            fields_by_nom(&payload).unwrap();
        assert_eq!(body.block_header.version, version);
        assert_eq!(body.block_header.prev_block_hash, prev);
        assert_eq!(body.block_header.merkle_hash, merkle);
        assert_eq!(body.block_header.time, time);
        assert_eq!(body.block_header.nbits, nbits);
        assert_eq!(body.block_header.nonce, nonce);
        assert_eq!(body.tx_count, tx_count);
        assert_eq!(body.tx_data, tx_data);
    }
}

#[test]
fn short_payload_fails_where_the_field_parsers_fail() {
    for len in 0..84 {
        let payload = sample(len, 42);
        assert!(TransactionBlock::parse_le(&payload).is_err());
        assert!(fields_by_nom(&payload).is_none());
    }
}

#[test]
fn header_decodes_as_the_field_parsers_do() {
    let bytes = sample(84, 7);
    let header = BlockHeader::parse_le(&bytes[..80]).unwrap();
    let (version, prev, merkle, time, nbits, nonce, _, _) = fields_by_nom(&bytes).unwrap();
    assert_eq!(header.version, version);
    assert_eq!(header.prev_block_hash, prev);
    assert_eq!(header.merkle_hash, merkle);
    assert_eq!(header.time, time);
    assert_eq!(header.nbits, nbits);
    assert_eq!(header.nonce, nonce);
}
