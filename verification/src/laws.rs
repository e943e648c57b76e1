//! What holds of the layout, of a chain and of an index, whatever the file.

use crate::chain::{
    chain_record, entry_at, lemma_earlier_records_decode, lemma_entry_within_file,
    lemma_failure_persists, lemma_offsets_grow, lemma_walk_resumes, offset_after, walk,
};
use crate::error::BlockError;
use crate::index::Index;
use crate::layout::{
    chain_bytes, decoded, le_u32, lemma_payload_decoded, lemma_record_round_trip, prefix_of,
    record_of, span, tail, Record, MAGIC_BYTE, PREFIX_LEN,
};
use crate::locator::{chain_starts_at, marker_at};
use crate::step::Step;
use vstd::prelude::*;

verus! {

/// Chain continuity: where the record at `height` decodes, the record at the
/// next height is the one that begins `8 + size` bytes further on, with
/// nothing between the two.
pub proof fn lemma_chain_continuity(file: Seq<u8>, start: int, height: nat)
    requires
        walk(file, start, height) is Ok,
    ensures
        ({
            let (offset, record) = walk(file, start, height)->Ok_0;
            let next_offset = offset + 8 + record.size;
            &&& offset_after(file, start, height + 1) == Ok::<int, BlockError>(next_offset)
            &&& chain_record(file, start, height + 1) == entry_at(file, next_offset)
        }),
{
}

/// The chain begins at one offset only: behind `n` bytes in which the marker
/// does not lie and before the first marker, the chain begins at `n`.
pub proof fn lemma_chain_start_unique(file: Seq<u8>, n: int, m: int)
    requires
        chain_starts_at(file, n),
        chain_starts_at(file, m),
    ensures
        n == m,
{
}

/// A record whose prefix declares more bytes than the file holds behind it is
/// truncated; no part of it is given.
pub proof fn lemma_truncated_payload(file: Seq<u8>, offset: int)
    requires
        marker_at(file, offset),
        offset + PREFIX_LEN <= file.len(),
        le_u32(file.subrange(offset + 4, offset + 8)) > file.len() - offset - PREFIX_LEN,
    ensures
        entry_at(file, offset) == Err::<Record, BlockError>(BlockError::TruncatedRead),
{
    reveal(entry_at);
    reveal(record_of);
    let rest = tail(file, offset);
    assert(rest.subrange(0, 4) =~= file.subrange(offset, offset + 4));
    assert(rest.subrange(4, 8) =~= file.subrange(offset + 4, offset + 8));
}

/// `bytes` with one bit of the byte at `index` inverted.
pub open spec fn flip_bit(bytes: Seq<u8>, index: int, bit: u8) -> Seq<u8> {
    bytes.update(index, bytes[index] ^ (1u8 << bit))
}

/// A record that is whole but for one inverted bit in its marker is refused
/// for its marker: no header is decoded from it.
pub proof fn lemma_corrupted_marker(bytes: Seq<u8>, index: int, bit: u8)
    requires
        bytes.len() >= PREFIX_LEN,
        bytes.subrange(0, 4) == MAGIC_BYTE@,
        0 <= index < 4,
        bit < 8,
    ensures
        prefix_of(flip_bit(bytes, index, bit)) == Err::<u32, BlockError>(
            BlockError::InvalidMarker,
        ),
        record_of(flip_bit(bytes, index, bit)) == Err::<Record, BlockError>(
            BlockError::InvalidMarker,
        ),
{
    reveal(record_of);
    let before = bytes[index];
    let after = before ^ (1u8 << bit);
    assert(after != before) by (bit_vector)
        requires
            after == before ^ (1u8 << bit),
            bit < 8,
    ;
    let flipped = flip_bit(bytes, index, bit);
    assert(flipped.subrange(0, 4)[index] == after);
    assert(bytes.subrange(0, 4)[index] == before);
}

/// A height whose record would begin at or behind the end of the file is not
/// found: the chain is shorter than that.
pub proof fn lemma_height_past_end(file: Seq<u8>, start: int, height: nat)
    requires
        offset_after(file, start, height) is Ok,
        offset_after(file, start, height)->Ok_0 >= file.len(),
    ensures
        chain_record(file, start, height) == Err::<Record, BlockError>(
            BlockError::HeightNotFound,
        ),
{
    reveal(entry_at);
}

/// What a walk that set out from an index decodes at one height fits behind
/// what the walk decoded, or the index remembered, at the height before.
proof fn lemma_walked_entry(index: Index, file: Seq<u8>, height: u32, h: u32)
    requires
        index.wf(),
        file.len() <= u64::MAX,
        !index.cache.contains_key(height),
        index.resume_point(height).0 <= h <= height,
        walk(file, index.resume_point(height).1 as int, (h - index.resume_point(height).0) as nat)
            is Ok,
    ensures
        ({
            let (first, start) = index.resume_point(height);
            let after = index.lookup(file, height).0;
            let (offset, record) = walk(file, start as int, (h - first) as nat)->Ok_0;
            &&& !index.cache.contains_key(h)
            &&& after.cache.contains_key(h)
            &&& after.cache[h] == (offset as u64, record)
            &&& 0 <= offset
            &&& offset + span(record) <= file.len()
            &&& decoded(record)
            &&& h == 0 ==> offset == index.chain_start
            &&& h > 0 ==> after.cache.contains_key((h - 1) as u32) && offset == after.end_of(
                (h - 1) as u32,
            )
        }),
{
    let (first, start) = index.resume_point(height);
    let count = (h - first) as nat;
    let (offset, record) = walk(file, start as int, count)->Ok_0;
    index.lemma_nearest_ancestor(height);
    lemma_offsets_grow(file, start as int, count);
    lemma_entry_within_file(file, offset);
    if h > first {
        lemma_earlier_records_decode(file, start as int, count, (count - 1) as nat);
        let before = walk(file, start as int, (count - 1) as nat)->Ok_0;
        lemma_offsets_grow(file, start as int, (count - 1) as nat);
        lemma_entry_within_file(file, before.0);
    }
}

/// An index that remembers nothing is in order and agrees with every file.
pub proof fn lemma_empty_index(chain_start: u64, file: Seq<u8>)
    ensures
        Index::empty(chain_start).wf(),
        Index::empty(chain_start).agrees_with(file),
{
}

/// A lookup leaves the index in order.
pub proof fn lemma_lookup_keeps_order(index: Index, file: Seq<u8>, height: u32)
    requires
        index.wf(),
        file.len() <= u64::MAX,
    ensures
        index.lookup(file, height).0.wf(),
{
    let after = index.lookup(file, height).0;
    if !index.cache.contains_key(height) {
        let (first, start) = index.resume_point(height);
        index.lemma_nearest_ancestor(height);
        assert forall|h: u32, below: u32|
            #![trigger after.cache.contains_key(h), after.cache.contains_key(below)]
            below <= h && after.cache.contains_key(h) implies after.cache.contains_key(below) by {
            if !index.cache.contains_key(h) && below >= first {
                lemma_earlier_records_decode(
                    file,
                    start as int,
                    (h - first) as nat,
                    (below - first) as nat,
                );
            }
        }
        assert forall|h: u32| #[trigger] after.cache.contains_key(h) implies after.end_of(h)
            <= u64::MAX && decoded(after.cache[h].1) && (h > 0 ==> after.cache[h].0
            == after.end_of((h - 1) as u32)) && (h == 0 ==> after.cache[h].0
            == after.chain_start) by {
            if !index.cache.contains_key(h) {
                lemma_walked_entry(index, file, height, h);
            } else if h > 0 {
                assert(index.cache.contains_key((h - 1) as u32));
            }
        }
    }
}

/// A step leaves the index in order, whatever bytes it is handed.
pub proof fn lemma_step_keeps_order(index: Index, height: u32, bytes: Seq<u8>)
    requires
        index.wf(),
    ensures
        index.begin(height).0.wf(),
        index.resume(height, bytes).0.wf(),
{
    index.lemma_nearest_ancestor(height);
    let begun = index.begin(height).0;
    if !index.cache.contains_key(height) {
        assert(begun.fits(begun.walk->Some_0));
    }
    let after = index.resume(height, bytes).0;
    if index.walk is Some && index.walk->Some_0.target == height {
        let w = index.walk->Some_0;
        if w.staged is Some && after.cache.contains_key(w.height) {
            lemma_payload_decoded(w.staged->Some_0, bytes);
            assert forall|h: u32| h > 0 && #[trigger] after.cache.contains_key(h) implies
                after.cache[h].0 == after.end_of((h - 1) as u32) by {
                assert(after.cache.contains_key((h - 1) as u32));
                if h != w.height {
                    assert(index.cache.contains_key(h));
                    assert(index.cache.contains_key((h - 1) as u32));
                }
            }
        }
    }
}

/// A lookup only adds to what is remembered: nothing is dropped and nothing
/// is replaced.
pub proof fn lemma_lookup_only_adds(index: Index, file: Seq<u8>, height: u32, h: u32)
    requires
        index.cache.contains_key(h),
    ensures
        index.lookup(file, height).0.cache.contains_key(h),
        index.lookup(file, height).0.cache[h] == index.cache[h],
{
}

/// A step only adds to what is remembered, and adds a height that was not
/// remembered: no record is decoded twice.
pub proof fn lemma_step_only_adds(index: Index, height: u32, bytes: Seq<u8>, h: u32)
    requires
        index.wf(),
        index.cache.contains_key(h),
    ensures
        index.resume(height, bytes).0.cache.contains_key(h),
        index.resume(height, bytes).0.cache[h] == index.cache[h],
        index.begin(height).0.cache == index.cache,
{
}

/// Where an index agrees with a file, a walk sets out on the file's chain:
/// at the offset that the chain reaches behind the records below the height
/// at which the walk sets out.
pub proof fn lemma_resume_point_on_chain(index: Index, file: Seq<u8>, height: u32)
    requires
        index.wf(),
        index.agrees_with(file),
    ensures
        offset_after(file, index.chain_start as int, index.resume_point(height).0 as nat) == Ok::<
            int,
            BlockError,
        >(index.resume_point(height).1 as int),
{
    index.lemma_nearest_ancestor(height);
    match index.nearest_ancestor(height) {
        None => {},
        Some(ancestor) => {
            assert(index.cache.contains_key(ancestor));
        },
    }
}

/// Where an index agrees with a file, a lookup gives the record that the
/// file holds at that height, or the failure at which the file's chain breaks
/// off before it, whatever the index remembered. Afterwards the index agrees
/// with the file still.
pub proof fn lemma_lookup_follows_chain(index: Index, file: Seq<u8>, height: u32)
    requires
        index.wf(),
        index.agrees_with(file),
        file.len() <= u64::MAX,
    ensures
        index.lookup(file, height).1 == chain_record(
            file,
            index.chain_start as int,
            height as nat,
        ),
        index.lookup(file, height).0.agrees_with(file),
{
    let after = index.lookup(file, height).0;
    if index.cache.contains_key(height) {
    } else {
        let (first, start) = index.resume_point(height);
        index.lemma_nearest_ancestor(height);
        lemma_resume_point_on_chain(index, file, height);
        lemma_walk_resumes(file, index.chain_start as int, first as nat, (height - first) as nat);
        assert forall|h: u32| #[trigger] after.cache.contains_key(h) implies walk(
            file,
            index.chain_start as int,
            h as nat,
        ) == Ok::<(int, Record), BlockError>((after.cache[h].0 as int, after.cache[h].1)) by {
            if !index.cache.contains_key(h) {
                let count = (h - first) as nat;
                assert(first as nat + count == h as nat);
                lemma_walk_resumes(file, index.chain_start as int, first as nat, count);
                lemma_walked_entry(index, file, height, h);
            }
        }
    }
}

/// A second lookup of a height is answered from what the first one
/// remembered: its first step is the last, no read is asked for, and the
/// record is the same.
pub proof fn lemma_repeated_lookup(index: Index, file: Seq<u8>, height: u32)
    requires
        index.lookup(file, height).1 is Ok,
    ensures
        ({
            let (after, record) = index.lookup(file, height);
            &&& after.begin(height) == (after, Step::Done(record->Ok_0))
            &&& after.lookup(file, height) == (after, record)
        }),
{
    let (after, record) = index.lookup(file, height);
    index.lemma_nearest_ancestor(height);
    assert(after.idle() =~= after);
}

/// A lookup that succeeds has remembered every height below its own that was
/// not remembered before, so a lookup of any of them is answered without a
/// read.
pub proof fn lemma_lookup_remembers_path(index: Index, file: Seq<u8>, height: u32, below: u32)
    requires
        index.wf(),
        index.lookup(file, height).1 is Ok,
        below <= height,
    ensures
        ({
            let after = index.lookup(file, height).0;
            &&& after.cache.contains_key(below)
            &&& after.begin(below) == (after, Step::Done(after.cache[below].1))
        }),
{
    let after = index.lookup(file, height).0;
    assert(after.idle() =~= after);
    if index.cache.contains_key(height) {
        assert(index.cache.contains_key(below));
    } else {
        let (first, start) = index.resume_point(height);
        index.lemma_nearest_ancestor(height);
        if below >= first {
            lemma_earlier_records_decode(
                file,
                start as int,
                (height - first) as nat,
                (below - first) as nat,
            );
        } else {
            assert(index.cache.contains_key((first - 1) as u32));
            assert(index.cache.contains_key(below));
        }
    }
}

/// A walk sets out at the first height that is not remembered: every height
/// from there to the target is new, and the height before it, if there is
/// one, is the nearest remembered ancestor. No remembered height is decoded
/// again.
pub proof fn lemma_walk_skips_remembered(index: Index, height: u32, h: u32)
    requires
        index.wf(),
        !index.cache.contains_key(height),
    ensures
        ({
            let (after, step) = index.begin(height);
            let w = after.walk->Some_0;
            &&& after.walk is Some
            &&& step == Step::<Record>::Read { offset: w.offset, len: PREFIX_LEN }
            &&& w.height <= height
            &&& w.height <= h <= height ==> !index.cache.contains_key(h)
            &&& h < w.height ==> index.cache.contains_key(h)
            &&& w.height > 0 ==> index.nearest_ancestor(height) == Some((w.height - 1) as u32)
        }),
{
    index.lemma_nearest_ancestor(height);
    let (first, start) = index.resume_point(height);
    if first > 0 && h < first {
        assert(index.cache.contains_key((first - 1) as u32));
        assert(index.cache.contains_key(h));
    }
}

/// A lookup that fails keeps what it decoded on the way: a height below it
/// that the file's chain reaches is remembered afterwards and is answered
/// without a read, with the record that the file holds there.
pub proof fn lemma_progress_survives_failure(
    index: Index,
    file: Seq<u8>,
    height: u32,
    below: u32,
)
    requires
        index.wf(),
        index.agrees_with(file),
        file.len() <= u64::MAX,
        index.lookup(file, height).1 is Err,
        below < height,
        chain_record(file, index.chain_start as int, below as nat) is Ok,
    ensures
        ({
            let after = index.lookup(file, height).0;
            let record = chain_record(file, index.chain_start as int, below as nat);
            &&& after.begin(below) == (after, Step::Done(record->Ok_0))
            &&& after.lookup(file, below) == (after, record)
        }),
{
    let after = index.lookup(file, height).0;
    assert(after.idle() =~= after);
    lemma_lookup_follows_chain(index, file, height);
    let (first, start) = index.resume_point(height);
    index.lemma_nearest_ancestor(height);
    if below >= first {
        lemma_resume_point_on_chain(index, file, height);
        lemma_walk_resumes(file, index.chain_start as int, first as nat, (below - first) as nat);
        assert(first + (below - first) == below);
    } else {
        assert(index.cache.contains_key((first - 1) as u32));
        assert(index.cache.contains_key(below));
    }
    assert(after.cache.contains_key(below));
}

/// Every record of `records` is a decoded record.
pub open spec fn all_decoded(records: Seq<Record>) -> bool {
    forall|i: int| 0 <= i < records.len() ==> decoded(#[trigger] records[i])
}

/// Where a file holds the bytes of some records end to end from an offset
/// on, the first of them is the record at that offset, and the others
/// follow where it ends.
pub proof fn lemma_first_record(file: Seq<u8>, offset: int, records: Seq<Record>)
    requires
        0 <= offset <= file.len(),
        tail(file, offset) == chain_bytes(records),
        all_decoded(records),
        records.len() > 0,
    ensures
        entry_at(file, offset) == Ok::<Record, BlockError>(records.first()),
        offset + span(records.first()) <= file.len(),
        tail(file, offset + span(records.first())) == chain_bytes(records.drop_first()),
{
    reveal(entry_at);
    let first = records.first();
    let others = chain_bytes(records.drop_first());
    lemma_record_round_trip(first, others);
    assert(tail(file, offset + span(first)) =~= others) by {
        assert(tail(file, offset).len() == span(first) + others.len());
        assert(tail(file, offset + span(first)) =~= tail(file, offset).subrange(
            span(first),
            tail(file, offset).len() as int,
        ));
    }
}

/// A file that holds, from `start` on, the bytes of `records` end to end and
/// nothing else holds exactly these records: the walk reaches each of them
/// where the one before it ends, behind the last of them the file ends, and
/// the height behind the last is not found.
pub proof fn lemma_chain_of_records(file: Seq<u8>, start: int, records: Seq<Record>, height: nat)
    requires
        0 <= start <= file.len(),
        tail(file, start) == chain_bytes(records),
        all_decoded(records),
        height <= records.len(),
    ensures
        offset_after(file, start, height) is Ok,
        start <= offset_after(file, start, height)->Ok_0 <= file.len(),
        tail(file, offset_after(file, start, height)->Ok_0) == chain_bytes(
            records.skip(height as int),
        ),
        height < records.len() ==> chain_record(file, start, height) == Ok::<Record, BlockError>(
            records[height as int],
        ),
        height == records.len() ==> offset_after(file, start, height)->Ok_0 == file.len()
            && chain_record(file, start, height) == Err::<Record, BlockError>(
            BlockError::HeightNotFound,
        ),
    decreases height,
{
    if height == 0 {
        assert(records.skip(0) =~= records);
    } else {
        let before = (height - 1) as nat;
        lemma_chain_of_records(file, start, records, before);
        let offset = offset_after(file, start, before)->Ok_0;
        let left = records.skip(before as int);
        assert(left.drop_first() =~= records.skip(height as int));
        lemma_first_record(file, offset, left);
    }
    let here = offset_after(file, start, height)->Ok_0;
    let left = records.skip(height as int);
    assert(tail(file, here) == chain_bytes(left));
    if height < records.len() {
        lemma_first_record(file, here, left);
    } else {
        assert(chain_bytes(left) =~= Seq::empty());
        assert(tail(file, here).len() == file.len() - here);
        assert(here == file.len());
        assert(entry_at(file, here) == Err::<Record, BlockError>(BlockError::HeightNotFound)) by {
            reveal(entry_at);
        }
    }
}

/// In a file that holds the bytes of `records` end to end from the start of
/// the chain on, and nothing behind them, an index that agrees with the file
/// answers each height with the record of that place in `records`, and every
/// height behind them with height-not-found.
pub proof fn lemma_lookup_in_chain_of_records(
    index: Index,
    file: Seq<u8>,
    records: Seq<Record>,
    height: u32,
)
    requires
        index.wf(),
        index.agrees_with(file),
        file.len() <= u64::MAX,
        index.chain_start <= file.len(),
        tail(file, index.chain_start as int) == chain_bytes(records),
        all_decoded(records),
    ensures
        height < records.len() ==> index.lookup(file, height).1 == Ok::<Record, BlockError>(
            records[height as int],
        ),
        height >= records.len() ==> index.lookup(file, height).1 == Err::<Record, BlockError>(
            BlockError::HeightNotFound,
        ),
{
    let start = index.chain_start as int;
    lemma_lookup_follows_chain(index, file, height);
    if height < records.len() {
        lemma_chain_of_records(file, start, records, height as nat);
    } else {
        lemma_chain_of_records(file, start, records, records.len());
        lemma_failure_persists(file, start, records.len(), height as nat);
    }
}

} // verus!
