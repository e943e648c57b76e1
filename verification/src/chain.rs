//! The chain that a file holds: records laid end to end from a first offset.

use crate::error::BlockError;
use crate::layout::{decoded, lemma_record_decoded, record_of, span, tail, Record};
use vstd::prelude::*;

verus! {

/// The record that begins at `offset` in `file`. At or behind the end of the
/// file the chain has ended.
#[verifier::opaque]
pub open spec fn entry_at(file: Seq<u8>, offset: int) -> Result<Record, BlockError> {
    if offset >= file.len() {
        Err(BlockError::HeightNotFound)
    } else {
        record_of(tail(file, offset))
    }
}

/// The offset reached from `start` behind `count` records, or the failure of
/// the first of them that does not decode.
pub open spec fn offset_after(file: Seq<u8>, start: int, count: nat) -> Result<int, BlockError>
    decreases count,
{
    if count == 0 {
        Ok(start)
    } else {
        match offset_after(file, start, (count - 1) as nat) {
            Err(e) => Err(e),
            Ok(offset) => match entry_at(file, offset) {
                Err(e) => Err(e),
                Ok(record) => Ok(offset + span(record)),
            },
        }
    }
}

/// The record that lies `count` records behind the one at `start`, with its
/// offset, or the failure of the first record on the way that does not
/// decode.
pub open spec fn walk(file: Seq<u8>, start: int, count: nat) -> Result<(int, Record), BlockError> {
    match offset_after(file, start, count) {
        Err(e) => Err(e),
        Ok(offset) => match entry_at(file, offset) {
            Err(e) => Err(e),
            Ok(record) => Ok((offset, record)),
        },
    }
}

/// The record at `height` of the chain that begins at `start`.
pub open spec fn chain_record(file: Seq<u8>, start: int, height: nat) -> Result<
    Record,
    BlockError,
> {
    match walk(file, start, height) {
        Err(e) => Err(e),
        Ok(entry) => Ok(entry.1),
    }
}

/// A record that decodes is a decoded record and ends within the file.
pub proof fn lemma_entry_within_file(file: Seq<u8>, offset: int)
    requires
        0 <= offset,
        entry_at(file, offset) is Ok,
    ensures
        offset + span(entry_at(file, offset)->Ok_0) <= file.len(),
        decoded(entry_at(file, offset)->Ok_0),
{
    reveal(entry_at);
    lemma_record_decoded(tail(file, offset));
}

/// A walk that fails at one record fails in the same way at every later one.
pub proof fn lemma_failure_persists(file: Seq<u8>, start: int, count: nat, later: nat)
    requires
        count <= later,
        walk(file, start, count) is Err,
    ensures
        walk(file, start, later) == Err::<(int, Record), BlockError>(
            walk(file, start, count)->Err_0,
        ),
    decreases later,
{
    if count < later {
        lemma_failure_persists(file, start, count, (later - 1) as nat);
    }
}

/// A walk that reaches a record has decoded every record before it.
pub proof fn lemma_earlier_records_decode(file: Seq<u8>, start: int, count: nat, earlier: nat)
    requires
        earlier <= count,
        walk(file, start, count) is Ok,
    ensures
        walk(file, start, earlier) is Ok,
{
    if walk(file, start, earlier) is Err {
        lemma_failure_persists(file, start, earlier, count);
    }
}

/// Offsets only grow along a walk that starts at or behind the file's first
/// byte.
pub proof fn lemma_offsets_grow(file: Seq<u8>, start: int, count: nat)
    requires
        0 <= start,
        offset_after(file, start, count) is Ok,
    ensures
        start <= offset_after(file, start, count)->Ok_0,
        count > 0 ==> offset_after(file, start, count)->Ok_0 <= file.len(),
    decreases count,
{
    if count > 0 {
        lemma_offsets_grow(file, start, (count - 1) as nat);
        lemma_entry_within_file(file, offset_after(file, start, (count - 1) as nat)->Ok_0);
    }
}

/// A walk can be taken up where an earlier walk ended.
pub proof fn lemma_walk_resumes(file: Seq<u8>, start: int, first: nat, more: nat)
    requires
        offset_after(file, start, first) is Ok,
    ensures
        offset_after(file, start, first + more) == offset_after(
            file,
            offset_after(file, start, first)->Ok_0,
            more,
        ),
        walk(file, start, first + more) == walk(
            file,
            offset_after(file, start, first)->Ok_0,
            more,
        ),
    decreases more,
{
    if more > 0 {
        lemma_walk_resumes(file, start, first, (more - 1) as nat);
    }
}

} // verus!
