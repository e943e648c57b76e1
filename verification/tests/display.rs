use blockfile::BlockHeader;

fn text_by_format(header: &BlockHeader) -> String {
    let mut prev = String::new();
    for byte in header.prev_block_hash.iter() {
        prev = prev + &format!("{:x}", byte);
    }
    let mut merkle = String::new();
    for byte in header.merkle_hash.iter() {
        merkle = merkle + &format!("{:x}", byte);
    }
    format!(
        "
Block version: {},
Previous block hash: {},
Merkle hash: {},
time: {},
nbits: {},
nonce: {},
",
        header.version, prev, merkle, header.time, header.nbits, header.nonce
    )
}

#[test]
fn header_with_zero_hashes_as_text() {
    let header = BlockHeader {
        version: 1,
        prev_block_hash: [0; 32],
        merkle_hash: [0; 32],
        time: 0,
        nbits: 0,
        nonce: 0,
    };
    let zeros = "00000000000000000000000000000000";
    let expected = format!(
        "\nBlock version: 1,\nPrevious block hash: {},\nMerkle hash: {},\ntime: 0,\nnbits: 0,\nnonce: 0,\n",
        zeros, zeros
    );
    assert_eq!(header.to_string(), expected);
}

#[test]
fn hash_bytes_are_written_without_leading_zeros() {
    let mut prev = [0u8; 32];
    prev[0] = 0x0a;
    prev[1] = 0xff;
    prev[2] = 0x10;
    prev[3] = 0x0f;
    prev[31] = 0x9c;
    let header = BlockHeader {
        version: 2,
        prev_block_hash: prev,
        merkle_hash: [0xab; 32],
        time: 1231006505,
        nbits: 486604799,
        nonce: 2083236893,
    };
    let expected = format!(
        "\nBlock version: 2,\nPrevious block hash: aff10f{}9c,\nMerkle hash: {},\ntime: 1231006505,\nnbits: 486604799,\nnonce: 2083236893,\n",
        "0".repeat(27),
        "ab".repeat(32)
    );
    assert_eq!(header.to_string(), expected);
}

#[test]
fn every_byte_is_written_as_the_formatter_writes_it() {
    for byte in 0..=255u8 {
        let header = BlockHeader {
            version: 0,
            prev_block_hash: [byte; 32],
            merkle_hash: [0; 32],
            time: 0,
            nbits: 0,
            nonce: 0,
        };
        assert_eq!(header.to_string(), text_by_format(&header));
    }
}

#[test]
fn numbers_are_written_in_decimal() {
    for (version, number) in [
        (0, 0u32),
        (-1, 9),
        (9, 10),
        (-10, 99),
        (i32::MAX, u32::MAX),
        (i32::MIN, 1_000_000_000),
        (-2147483647, 4294967295),
        (100, 101),
    ] {
        let header = BlockHeader {
            version,
            prev_block_hash: [1; 32],
            merkle_hash: [2; 32],
            time: number,
            nbits: number / 7,
            nonce: number.wrapping_mul(31),
        };
        assert_eq!(header.to_string(), text_by_format(&header));
    }
}

#[test]
fn least_version_keeps_its_sign_and_digits() {
    let header = BlockHeader {
        version: i32::MIN,
        prev_block_hash: [0; 32],
        merkle_hash: [0; 32],
        time: u32::MAX,
        nbits: 0,
        nonce: 0,
    };
    let text = header.to_string();
    assert!(text.starts_with("\nBlock version: -2147483648,\n"));
    assert!(text.contains(",\ntime: 4294967295,\n"));
    assert!(text.ends_with(",\nnonce: 0,\n"));
}
