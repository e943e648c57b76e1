use blockfile::{BlockError, Step, TxParser, MAGIC_BYTE};

fn record(version: i32, tx_count: u32, tx_data: &[u8]) -> Vec<u8> {
    let mut bytes = Vec::new();
    bytes.extend_from_slice(&MAGIC_BYTE);
    bytes.extend_from_slice(&(84 + tx_data.len() as u32).to_le_bytes());
    bytes.extend_from_slice(&version.to_le_bytes());
    bytes.extend_from_slice(&[0u8; 32]);
    bytes.extend_from_slice(&[0u8; 32]);
    bytes.extend_from_slice(&0u32.to_le_bytes());
    bytes.extend_from_slice(&0u32.to_le_bytes());
    bytes.extend_from_slice(&0u32.to_le_bytes());
    bytes.extend_from_slice(&tx_count.to_le_bytes());
    bytes.extend_from_slice(tx_data);
    bytes
}

/// Junk, then records whose versions are 100, 101, ... and whose entries
/// grow by one byte from record to record.
fn chain(junk: usize, records: u32) -> Vec<u8> {
    let mut file = vec![0x33; junk];
    for i in 0..records {
        let entries = vec![i as u8; i as usize];
        file.extend_from_slice(&record(100 + i as i32, i, &entries));
    }
    file
}

fn offset_of(junk: usize, height: u32) -> u64 {
    let mut offset = junk as u64;
    for i in 0..height {
        offset += 8 + 84 + i as u64;
    }
    offset
}

#[test]
fn scenario_one_record_behind_four_junk_bytes() {
    let mut file = vec![0, 0, 0, 0];
    file.extend_from_slice(&[0xf9, 0xbe, 0xb4, 0xd9]);
    file.extend_from_slice(&[84, 0, 0, 0]);
    file.extend_from_slice(&[1, 0, 0, 0]);
    file.extend_from_slice(&[0u8; 76]);
    file.extend_from_slice(&[0, 0, 0, 0]);
    assert_eq!(file.len(), 96);
    assert_eq!(blockfile::locator::locate(&file), Ok(4));
    let mut parser = TxParser::new(&file).unwrap();
    assert_eq!(parser.chain_start(), 4);
    let block = parser.read_block(&file, 0).unwrap();
    assert_eq!(block.magic_bytes, MAGIC_BYTE);
    assert_eq!(block.size, 84);
    assert_eq!(block.block.tx_count, 0);
    assert_eq!(block.block.block_header.version, 1);
    assert_eq!(block.block.block_header.prev_block_hash, [0; 32]);
    assert_eq!(block.block.block_header.merkle_hash, [0; 32]);
    assert_eq!(block.block.block_header.time, 0);
    assert_eq!(block.block.block_header.nbits, 0);
    assert_eq!(block.block.block_header.nonce, 0);
    assert!(block.block.tx_data.is_empty());
    assert_eq!(parser.read_block(&file, 1), Err(BlockError::HeightNotFound));
}

#[test]
fn every_height_gives_its_record() {
    let file = chain(5, 6);
    let mut parser = TxParser::new(&file).unwrap();
    for height in 0..6u32 {
        let block = parser.read_block(&file, height).unwrap();
        assert_eq!(block.block.block_header.version, 100 + height as i32);
        assert_eq!(block.block.tx_count, height);
        assert_eq!(block.size, 84 + height);
        assert_eq!(block.block.tx_data, vec![height as u8; height as usize]);
    }
}

#[test]
fn heights_in_any_order_give_the_same_records() {
    let file = chain(0, 8);
    let mut parser = TxParser::new(&file).unwrap();
    for height in [5u32, 2, 7, 0, 7, 3, 6, 1, 4, 5] {
        let block = parser.read_block(&file, height).unwrap();
        assert_eq!(block.block.block_header.version, 100 + height as i32);
        assert_eq!(block.block.tx_data.len(), height as usize);
    }
}

#[test]
fn lookup_twice_gives_the_same_block() {
    let file = chain(3, 4);
    let mut parser = TxParser::new(&file).unwrap();
    let first = parser.read_block(&file, 3).unwrap();
    let second = parser.read_block(&file, 3).unwrap();
    assert_eq!(first, second);
}

#[test]
fn second_lookup_does_not_look_at_the_file() {
    let file = chain(3, 4);
    let mut parser = TxParser::new(&file).unwrap();
    let first = parser.read_block(&file, 2).unwrap();
    let second = parser.read_block(&[], 2).unwrap();
    assert_eq!(first, second);
    assert_eq!(parser.begin(2), Step::Done(first));
}

#[test]
fn lookup_remembers_the_heights_on_the_way() {
    let file = chain(3, 5);
    let mut parser = TxParser::new(&file).unwrap();
    parser.read_block(&file, 4).unwrap();
    for height in 0..=4u32 {
        match parser.begin(height) {
            Step::Done(block) => assert_eq!(block.block.block_header.version, 100 + height as i32),
            other => panic!("height {} asked for {:?}", height, other),
        }
    }
}

#[test]
fn nearest_ancestor_is_the_greatest_remembered_height_below() {
    let file = chain(2, 6);
    let mut parser = TxParser::new(&file).unwrap();
    assert_eq!(parser.nearest_ancestor(0), None);
    assert_eq!(parser.nearest_ancestor(5), None);
    assert_eq!(parser.nearest_ancestor(70_000), None);
    parser.read_block(&file, 2).unwrap();
    assert_eq!(parser.nearest_ancestor(0), None);
    assert_eq!(parser.nearest_ancestor(1), Some(0));
    assert_eq!(parser.nearest_ancestor(2), Some(1));
    assert_eq!(parser.nearest_ancestor(3), Some(2));
    assert_eq!(parser.nearest_ancestor(5), Some(2));
    assert_eq!(parser.nearest_ancestor(1000), Some(2));
}

#[test]
fn lookup_of_height_zero_needs_no_ancestor() {
    let file = chain(9, 1);
    let mut parser = TxParser::new(&file).unwrap();
    assert_eq!(parser.begin(0), Step::Read { offset: 9, len: 8 });
    let block = parser.read_block(&file, 0).unwrap();
    assert_eq!(block.block.block_header.version, 100);
}

#[test]
fn height_past_the_end_is_not_found() {
    let file = chain(4, 3);
    let mut parser = TxParser::new(&file).unwrap();
    assert_eq!(parser.read_block(&file, 3), Err(BlockError::HeightNotFound));
    assert_eq!(parser.read_block(&file, 100), Err(BlockError::HeightNotFound));
    assert_eq!(parser.read_block(&file, 50_000), Err(BlockError::HeightNotFound));
}

#[test]
fn progress_before_a_failure_is_kept() {
    let file = chain(4, 3);
    let mut parser = TxParser::new(&file).unwrap();
    assert_eq!(parser.read_block(&file, 7), Err(BlockError::HeightNotFound));
    for height in 0..3u32 {
        match parser.begin(height) {
            Step::Done(block) => assert_eq!(block.block.block_header.version, 100 + height as i32),
            other => panic!("height {} asked for {:?}", height, other),
        }
    }
    assert_eq!(parser.begin(3), Step::Read { offset: offset_of(4, 3), len: 8 });
    let block = parser.read_block(&[], 1).unwrap();
    assert_eq!(block.block.block_header.version, 101);
}

#[test]
fn chain_in_an_empty_rest_is_not_found() {
    let mut file = vec![7u8; 6];
    file.extend_from_slice(&MAGIC_BYTE);
    let mut parser = TxParser::with_chain_start(file.len() as u64);
    assert_eq!(parser.read_block(&file, 0), Err(BlockError::HeightNotFound));
}

#[test]
fn record_cut_off_in_its_payload_is_truncated() {
    let mut file = chain(4, 3);
    file.truncate(file.len() - 1);
    let mut parser = TxParser::new(&file).unwrap();
    assert_eq!(parser.read_block(&file, 2), Err(BlockError::TruncatedRead));
    assert_eq!(parser.read_block(&file, 5), Err(BlockError::TruncatedRead));
    assert_eq!(parser.read_block(&file, 1).unwrap().block.block_header.version, 101);
}

#[test]
fn record_cut_off_in_its_prefix_is_truncated() {
    let mut file = chain(4, 2);
    file.extend_from_slice(&MAGIC_BYTE);
    file.extend_from_slice(&[84, 0, 0]);
    let mut parser = TxParser::new(&file).unwrap();
    assert_eq!(parser.read_block(&file, 2), Err(BlockError::TruncatedRead));
    assert_eq!(parser.read_block(&file, 1).unwrap().block.block_header.version, 101);
}

#[test]
fn record_with_a_damaged_marker_is_refused() {
    let mut file = chain(4, 4);
    let at = offset_of(4, 2) as usize;
    file[at + 3] ^= 0x01;
    let mut parser = TxParser::new(&file).unwrap();
    assert_eq!(parser.read_block(&file, 3), Err(BlockError::InvalidMarker));
    assert_eq!(parser.read_block(&file, 2), Err(BlockError::InvalidMarker));
    assert_eq!(parser.read_block(&file, 1).unwrap().block.block_header.version, 101);
    assert_eq!(parser.read_block(&file, 0).unwrap().block.block_header.version, 100);
}

#[test]
fn record_with_a_short_payload_is_malformed() {
    let mut file = chain(0, 1);
    file.extend_from_slice(&MAGIC_BYTE);
    file.extend_from_slice(&10u32.to_le_bytes());
    file.extend_from_slice(&[0u8; 10]);
    let mut parser = TxParser::new(&file).unwrap();
    assert_eq!(parser.read_block(&file, 1), Err(BlockError::MalformedPayload));
    assert_eq!(parser.read_block(&file, 0).unwrap().block.block_header.version, 100);
}

#[test]
fn failed_lookup_can_be_repeated_once_the_file_has_grown() {
    let whole = chain(4, 3);
    let part = &whole[..whole.len() - 20];
    let mut parser = TxParser::new(part).unwrap();
    assert_eq!(parser.read_block(part, 2), Err(BlockError::TruncatedRead));
    assert_eq!(parser.read_block(&whole, 2).unwrap().block.block_header.version, 102);
}

#[test]
fn records_lie_end_to_end() {
    let file = chain(13, 5);
    let mut offset = 13u64;
    for height in 0..5u32 {
        assert_eq!(offset, offset_of(13, height));
        let (span, block) = blockfile::fetch_block(&file, offset).unwrap();
        assert_eq!(span, 8 + block.size as u64);
        assert_eq!(block.block.block_header.version, 100 + height as i32);
        let mut parser = TxParser::new(&file).unwrap();
        assert_eq!(parser.read_block(&file, height), Ok(block));
        offset += span;
    }
    assert_eq!(offset as usize, file.len());
}
