//! A lookup, step by step, against the bytes of one file.
//!
//! Whoever drives a lookup reads what each step asks for and hands it to the
//! next. This module proves that doing so against a file computes
//! [`Index::lookup`]: the steps end, they remember what the lookup remembers,
//! and they answer what it answers.

use crate::chain::{entry_at, lemma_failure_persists, offset_after, walk};
use crate::error::BlockError;
use crate::index::{Index, Walk};
use crate::layout::{
    payload_of, prefix_of, read_at, record_of, span, tail, Body, Record, MAGIC_BYTE, PREFIX_LEN,
};
use crate::step::Step;
use vstd::prelude::*;

verus! {

/// The record at `offset` as two reads find it: a read of the prefix, and a
/// read of as many bytes behind it as the prefix declares. A read of the
/// prefix that gives nothing has met the end of the file.
pub open spec fn entry_by_reads(file: Seq<u8>, offset: int) -> Result<Record, BlockError> {
    let head = read_at(file, offset, PREFIX_LEN as int);
    if head.len() == 0 {
        Err(BlockError::HeightNotFound)
    } else {
        match prefix_of(head) {
            Err(e) => Err(e),
            Ok(size) => match payload_of(size, read_at(file, offset + PREFIX_LEN, size as int)) {
                Err(e) => Err(e),
                Ok(block) => Ok(Record { magic_bytes: MAGIC_BYTE@, size, block }),
            },
        }
    }
}

/// Two reads find the record that lies at an offset, or the failure that
/// decoding meets there.
pub proof fn lemma_reads_give_entry(file: Seq<u8>, offset: int)
    requires
        0 <= offset,
    ensures
        entry_by_reads(file, offset) == entry_at(file, offset),
{
    reveal(entry_at);
    reveal(record_of);
    let head = read_at(file, offset, PREFIX_LEN as int);
    let rest = tail(file, offset);
    if rest.len() >= PREFIX_LEN {
        assert(head.subrange(0, 4) =~= rest.subrange(0, 4));
        assert(head.subrange(4, 8) =~= rest.subrange(4, 8));
        let size = prefix_of(head)->Ok_0;
        let bytes = read_at(file, offset + PREFIX_LEN, size as int);
        let behind = rest.subrange(PREFIX_LEN as int, rest.len() as int);
        assert(behind =~= tail(file, offset + PREFIX_LEN));
        if behind.len() >= size {
            assert(bytes.subrange(0, size as int) =~= behind.subrange(0, size as int));
        }
    }
}

/// A payload that would end behind the last offset that can be named does
/// not lie whole behind its prefix.
pub proof fn lemma_payload_beyond_reach(file: Seq<u8>, offset: int, size: u32)
    requires
        0 <= offset,
        file.len() <= u64::MAX,
        prefix_of(read_at(file, offset, PREFIX_LEN as int)) is Ok,
        offset + PREFIX_LEN + size > u64::MAX,
    ensures
        payload_of(size, read_at(file, offset + PREFIX_LEN, size as int)) == Err::<
            Body,
            BlockError,
        >(BlockError::TruncatedRead),
{
}

/// How far the steps of a lookup of `target` in `file` have come, where the
/// lookup set out from the index `origin`, the index is now `now`, and `step`
/// is the step that was given last.
///
/// A lookup that has ended has remembered and answered what
/// [`Index::lookup`] says. One that waits for bytes has remembered the
/// records below the height where its walk stands, stands at the offset
/// behind them, and asks for the prefix there or, with the prefix read, for
/// the payload that it declared.
pub open spec fn progress(
    origin: Index,
    file: Seq<u8>,
    target: u32,
    now: Index,
    step: Step<Record>,
) -> bool {
    match step {
        Step::Done(record) => {
            &&& now =~= origin.lookup(file, target).0
            &&& origin.lookup(file, target).1 == Ok::<Record, BlockError>(record)
        },
        Step::Failed(e) => {
            &&& now =~= origin.lookup(file, target).0
            &&& origin.lookup(file, target).1 == Err::<Record, BlockError>(e)
        },
        Step::Read { offset, len } => {
            &&& now.walk matches Some(w)
            &&& underway(origin, file, target, now, w)
            &&& match w.staged {
                None => offset == w.offset && len == PREFIX_LEN,
                Some(size) => {
                    &&& offset == w.offset + PREFIX_LEN
                    &&& len == size
                    &&& read_at(file, w.offset as int, PREFIX_LEN as int).len() > 0
                    &&& prefix_of(read_at(file, w.offset as int, PREFIX_LEN as int)) == Ok::<
                        u32,
                        BlockError,
                    >(size)
                },
            }
        },
    }
}

/// What holds of a walk `w` while a lookup waits for bytes, whatever it has
/// asked for: the walk is towards the target, the index remembers what it
/// remembered at the outset and the records that the walk has passed, and the
/// walk stands at the offset behind them.
pub open spec fn underway(origin: Index, file: Seq<u8>, target: u32, now: Index, w: Walk) -> bool {
    let (first, start) = origin.resume_point(target);
    &&& !origin.cache.contains_key(target)
    &&& now.chain_start == origin.chain_start
    &&& w.target == target
    &&& first <= w.height <= target
    &&& now.cache =~= origin.extended(file, first, start, w.height as int)
    &&& offset_after(file, start as int, (w.height - first) as nat) == Ok::<int, BlockError>(
        w.offset as int,
    )
}

/// What is left to do for a lookup that waits for bytes: two reads for each
/// record up to the target, less the prefix that has been read.
pub open spec fn remaining(now: Index, step: Step<Record>) -> nat {
    match (step, now.walk) {
        (Step::Read { .. }, Some(w)) => if w.height <= w.target {
            (2 * (w.target - w.height) + if w.staged is None {
                2nat
            } else {
                1nat
            }) as nat
        } else {
            0
        },
        _ => 0,
    }
}

/// The first step of a lookup is in order.
pub proof fn lemma_begin(origin: Index, file: Seq<u8>, target: u32)
    requires
        origin.wf(),
    ensures
        progress(origin, file, target, origin.begin(target).0, origin.begin(target).1),
{
    if !origin.cache.contains_key(target) {
        origin.lemma_nearest_ancestor(target);
        let (first, start) = origin.resume_point(target);
        assert(origin.cache =~= origin.extended(file, first, start, first as int));
    }
}

/// Where the record at the height of the walk does not decode, the lookup
/// fails with that failure and remembers nothing further.
proof fn lemma_walk_fails(origin: Index, file: Seq<u8>, target: u32, now: Index, w: Walk)
    requires
        underway(origin, file, target, now, w),
        entry_at(file, w.offset as int) is Err,
    ensures
        progress(
            origin,
            file,
            target,
            now.idle(),
            Step::Failed(entry_at(file, w.offset as int)->Err_0),
        ),
{
    let (first, start) = origin.resume_point(target);
    let here = (w.height - first) as nat;
    assert(walk(file, start as int, here) is Err);
    lemma_failure_persists(file, start as int, here, (target - first) as nat);
    let reached = origin.extended(file, first, start, w.height as int);
    let wanted = origin.extended(file, first, start, target + 1);
    assert forall|h: u32| #[trigger] wanted.contains_key(h) implies reached.contains_key(h) by {
        if h >= w.height && !origin.cache.contains_key(h) {
            lemma_failure_persists(file, start as int, here, (h - first) as nat);
        }
    }
    assert(reached =~= wanted);
}

/// Where the record at the height of the walk decodes, the index that
/// remembers it has come one record further.
proof fn lemma_walk_advances(
    origin: Index,
    file: Seq<u8>,
    target: u32,
    now: Index,
    w: Walk,
    record: Record,
)
    requires
        underway(origin, file, target, now, w),
        entry_at(file, w.offset as int) == Ok::<Record, BlockError>(record),
    ensures
        ({
            let (first, start) = origin.resume_point(target);
            &&& now.cache.insert(w.height, (w.offset, record)) =~= origin.extended(
                file,
                first,
                start,
                w.height + 1,
            )
            &&& walk(file, start as int, (w.height - first) as nat) == Ok::<
                (int, Record),
                BlockError,
            >((w.offset as int, record))
            &&& offset_after(file, start as int, (w.height - first + 1) as nat) == Ok::<
                int,
                BlockError,
            >(w.offset + span(record))
        }),
{
    let (first, start) = origin.resume_point(target);
    origin.lemma_nearest_ancestor(target);
    assert(!origin.cache.contains_key(w.height));
}

/// The step that follows the read of a prefix is in order.
proof fn lemma_resume_prefix(origin: Index, file: Seq<u8>, target: u32, now: Index, w: Walk)
    requires
        file.len() <= u64::MAX,
        now.walk == Some(w),
        w.staged is None,
        underway(origin, file, target, now, w),
    ensures
        ({
            let next = now.supply(w, read_at(file, w.offset as int, PREFIX_LEN as int));
            &&& progress(origin, file, target, next.0, next.1)
            &&& remaining(next.0, next.1) < remaining(now, Step::Read { offset: 0, len: 0 })
        }),
{
    let bytes = read_at(file, w.offset as int, PREFIX_LEN as int);
    lemma_reads_give_entry(file, w.offset as int);
    if bytes.len() == 0 || prefix_of(bytes) is Err {
        lemma_walk_fails(origin, file, target, now, w);
    } else {
        let size = prefix_of(bytes)->Ok_0;
        if w.offset + PREFIX_LEN + size > u64::MAX {
            lemma_payload_beyond_reach(file, w.offset as int, size);
            lemma_walk_fails(origin, file, target, now, w);
        }
    }
}

/// The step that follows the read of a payload is in order.
proof fn lemma_resume_payload(
    origin: Index,
    file: Seq<u8>,
    target: u32,
    now: Index,
    w: Walk,
    size: u32,
)
    requires
        now.walk == Some(w),
        w.staged == Some(size),
        w.offset + PREFIX_LEN + size <= u64::MAX,
        underway(origin, file, target, now, w),
        read_at(file, w.offset as int, PREFIX_LEN as int).len() > 0,
        prefix_of(read_at(file, w.offset as int, PREFIX_LEN as int)) == Ok::<u32, BlockError>(size),
    ensures
        ({
            let next = now.supply(w, read_at(file, w.offset + PREFIX_LEN, size as int));
            &&& progress(origin, file, target, next.0, next.1)
            &&& remaining(next.0, next.1) < remaining(now, Step::Read { offset: 0, len: 0 })
        }),
{
    let bytes = read_at(file, w.offset + PREFIX_LEN, size as int);
    lemma_reads_give_entry(file, w.offset as int);
    match payload_of(size, bytes) {
        Err(e) => {
            lemma_walk_fails(origin, file, target, now, w);
        },
        Ok(block) => {
            let record = Record { magic_bytes: MAGIC_BYTE@, size, block };
            lemma_walk_advances(origin, file, target, now, w, record);
        },
    }
}

/// Each step of a lookup that is driven with reads of `file` is in order,
/// and leaves less to do than the step before it.
pub proof fn lemma_resume(origin: Index, file: Seq<u8>, target: u32, now: Index, step: Step<Record>)
    requires
        origin.wf(),
        now.wf(),
        file.len() <= u64::MAX,
        step is Read,
        progress(origin, file, target, now, step),
    ensures
        ({
            let bytes = read_at(file, step->offset as int, step->len as int);
            let next = now.resume(target, bytes);
            &&& progress(origin, file, target, next.0, next.1)
            &&& remaining(next.0, next.1) < remaining(now, step)
        }),
{
    let w = now.walk->Some_0;
    match w.staged {
        None => {
            lemma_resume_prefix(origin, file, target, now, w);
        },
        Some(size) => {
            lemma_resume_payload(origin, file, target, now, w, size);
        },
    }
}

} // verus!
