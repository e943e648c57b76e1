use blockfile::image::read_at;
use blockfile::locator::{locate, probe, start, PROBE_LEN};
use blockfile::{BlockError, Step, TxParser, MAGIC_BYTE};

fn junk_then_marker(junk: usize) -> Vec<u8> {
    let mut file = vec![0x5a; junk];
    file.extend_from_slice(&MAGIC_BYTE);
    file.extend_from_slice(&[0; 8]);
    file
}

#[test]
fn locate_skips_leading_junk() {
    for junk in [0usize, 1, 2, 3, 4, 5, 17, 1000] {
        assert_eq!(locate(&junk_then_marker(junk)), Ok(junk as u64));
    }
}

#[test]
fn locate_finds_the_first_of_several_markers() {
    let mut file = junk_then_marker(6);
    file.extend_from_slice(&MAGIC_BYTE);
    assert_eq!(locate(&file), Ok(6));
}

#[test]
fn locate_is_not_misled_by_part_of_a_marker() {
    let mut file = vec![0xf9, 0xbe, 0xb4, 0xf9, 0xbe];
    file.extend_from_slice(&MAGIC_BYTE);
    assert_eq!(locate(&file), Ok(5));
}

#[test]
fn locate_finds_a_marker_at_an_odd_offset() {
    let mut file = vec![0xf9];
    file.extend_from_slice(&MAGIC_BYTE);
    assert_eq!(locate(&file), Ok(1));
}

#[test]
fn locate_finds_a_marker_that_ends_the_file() {
    let mut file = vec![1, 2, 3];
    file.extend_from_slice(&MAGIC_BYTE);
    assert_eq!(locate(&file), Ok(3));
}

#[test]
fn locate_without_marker_fails() {
    assert_eq!(locate(&[]), Err(BlockError::MarkerNotFound));
    assert_eq!(locate(&[0xf9, 0xbe, 0xb4]), Err(BlockError::MarkerNotFound));
    assert_eq!(locate(&[0; 64]), Err(BlockError::MarkerNotFound));
    assert_eq!(locate(&[0xd9, 0xb4, 0xbe, 0xf9, 0xd9]), Err(BlockError::MarkerNotFound));
}

#[test]
fn search_starts_with_a_probe_at_offset_zero() {
    assert_eq!(start(), Step::Read { offset: 0, len: 4 });
    assert_eq!(PROBE_LEN, 4);
}

#[test]
fn probe_that_gives_the_marker_ends_the_search() {
    assert_eq!(probe(9, &MAGIC_BYTE), Step::Done(9));
    assert_eq!(probe(u64::MAX, &MAGIC_BYTE), Step::Done(u64::MAX));
}

#[test]
fn probe_that_gives_other_bytes_moves_on_by_one() {
    assert_eq!(probe(9, &[0xf9, 0xbe, 0xb4, 0xd8]), Step::Read { offset: 10, len: 4 });
    assert_eq!(probe(0, &[0, 0, 0, 0]), Step::Read { offset: 1, len: 4 });
}

#[test]
fn probe_that_gives_too_little_fails() {
    assert_eq!(probe(9, &[0xf9, 0xbe, 0xb4]), Step::Failed(BlockError::MarkerNotFound));
    assert_eq!(probe(0, &[]), Step::Failed(BlockError::MarkerNotFound));
}

#[test]
fn probe_at_the_last_offset_cannot_move_on() {
    assert_eq!(probe(u64::MAX, &[0, 0, 0, 0]), Step::Failed(BlockError::MarkerNotFound));
}

#[test]
fn probes_driven_by_hand_agree_with_locate() {
    let file = junk_then_marker(11);
    let mut step = start();
    let mut reads = Vec::new();
    let found = loop {
        match step {
            Step::Done(offset) => break Ok(offset),
            Step::Failed(e) => break Err(e),
            Step::Read { offset, len } => {
                reads.push(offset);
                step = probe(offset, read_at(&file, offset, len));
            }
        }
    };
    assert_eq!(found, Ok(11));
    assert_eq!(found, locate(&file));
    assert_eq!(reads, (0..=11).collect::<Vec<u64>>());
}

#[test]
fn read_at_gives_what_the_file_holds() {
    let file = [1u8, 2, 3, 4, 5];
    assert_eq!(read_at(&file, 0, 5), &[1, 2, 3, 4, 5]);
    assert_eq!(read_at(&file, 1, 3), &[2, 3, 4]);
    assert_eq!(read_at(&file, 3, 4), &[4, 5]);
    assert_eq!(read_at(&file, 0, 0), &[] as &[u8]);
    assert_eq!(read_at(&file, 5, 4), &[] as &[u8]);
    assert_eq!(read_at(&file, 6, 4), &[] as &[u8]);
    assert_eq!(read_at(&file, u64::MAX, usize::MAX), &[] as &[u8]);
    assert_eq!(read_at(&file, 2, usize::MAX), &[3, 4, 5]);
}

#[test]
fn new_parser_begins_at_the_first_marker() {
    let parser = TxParser::new(&junk_then_marker(4)).unwrap();
    assert_eq!(parser.chain_start(), 4);
}

#[test]
fn new_parser_needs_a_marker() {
    assert_eq!(TxParser::new(&[1, 2, 3, 4, 5, 6]).err(), Some(BlockError::MarkerNotFound));
    assert_eq!(TxParser::new(&[]).err(), Some(BlockError::MarkerNotFound));
}
