//! Finding where the chain begins in a file that may open with other bytes.
//!
//! The search reads four bytes at offset 0, then at offset 1, and so on, and
//! stops at the first offset where they are the marker.

use crate::block::starts_with_marker;
use crate::error::BlockError;
use crate::image::read_at;
use crate::layout;
use crate::layout::MAGIC_BYTE;
use crate::step::Step;
use vstd::prelude::*;

verus! {

/// The length of a probe: the marker's.
pub const PROBE_LEN: usize = 4;

/// The marker lies in `file` at `offset`.
pub open spec fn marker_at(file: Seq<u8>, offset: int) -> bool {
    &&& 0 <= offset
    &&& offset + PROBE_LEN <= file.len()
    &&& file.subrange(offset, offset + PROBE_LEN) == MAGIC_BYTE@
}

/// `offset` is the least offset at which the marker lies in `file`.
pub open spec fn chain_starts_at(file: Seq<u8>, offset: int) -> bool {
    &&& marker_at(file, offset)
    &&& forall|k: int| 0 <= k < offset ==> !marker_at(file, k)
}

/// The marker lies nowhere in `file`.
pub open spec fn no_marker(file: Seq<u8>) -> bool {
    forall|k: int| !marker_at(file, k)
}

/// What follows a probe at `offset` that gave `bytes`: the search ends there,
/// fails where the file has ended, or goes on one byte further.
pub open spec fn probed(offset: u64, bytes: Seq<u8>) -> Step<u64> {
    if bytes.len() < PROBE_LEN {
        Step::Failed(BlockError::MarkerNotFound)
    } else if bytes.subrange(0, PROBE_LEN as int) == MAGIC_BYTE@ {
        Step::Done(offset)
    } else if offset == u64::MAX {
        Step::Failed(BlockError::MarkerNotFound)
    } else {
        Step::Read { offset: (offset + 1) as u64, len: PROBE_LEN }
    }
}

/// The first step of a search: a probe at offset 0.
pub fn start() -> (step: Step<u64>)
    ensures
        step == (Step::<u64>::Read { offset: 0, len: PROBE_LEN }),
{
    Step::Read { offset: 0, len: PROBE_LEN }
}

/// The step that follows a probe at `offset` that gave `bytes`.
pub fn probe(offset: u64, bytes: &[u8]) -> (step: Step<u64>)
    ensures
        step == probed(offset, bytes@),
{
    if bytes.len() < PROBE_LEN {
        return Step::Failed(BlockError::MarkerNotFound);
    }
    if starts_with_marker(bytes) {
        Step::Done(offset)
    } else if offset == u64::MAX {
        Step::Failed(BlockError::MarkerNotFound)
    } else {
        Step::Read { offset: offset + 1, len: PROBE_LEN }
    }
}

/// A probe of `file` ends the search exactly where the marker lies, and fails
/// only where no marker lies further on.
pub proof fn lemma_probe_finds_marker(file: Seq<u8>, offset: u64)
    requires
        file.len() <= u64::MAX,
    ensures
        probed(offset, layout::read_at(file, offset as int, PROBE_LEN as int)) == Step::Done(offset)
            <==> marker_at(file, offset as int),
        probed(offset, layout::read_at(file, offset as int, PROBE_LEN as int)) == Step::<
            u64,
        >::Failed(BlockError::MarkerNotFound) ==> forall|k: int|
            offset <= k ==> !marker_at(file, k),
{
    let bytes = layout::read_at(file, offset as int, PROBE_LEN as int);
    if offset + PROBE_LEN <= file.len() {
        assert(bytes =~= file.subrange(offset as int, offset + PROBE_LEN));
        assert(bytes.subrange(0, PROBE_LEN as int) =~= bytes);
    }
}

/// Finds where the chain begins in a file that lies in memory: behind `n`
/// leading bytes in which the marker does not lie, at `n`.
pub fn locate(data: &[u8]) -> (r: Result<u64, BlockError>)
    ensures
        match r {
            Ok(offset) => chain_starts_at(data@, offset as int),
            Err(e) => e == BlockError::MarkerNotFound && no_marker(data@),
        },
        forall|n: int| chain_starts_at(data@, n) ==> r == Ok::<u64, BlockError>(n as u64),
{
    let mut step = start();
    loop
        invariant
            step matches Step::Read { offset, len } ==> len == PROBE_LEN && offset <= data@.len()
                && forall|k: int| 0 <= k < offset ==> !marker_at(data@, k),
            step matches Step::Done(offset) ==> chain_starts_at(data@, offset as int),
            step matches Step::Failed(e) ==> e == BlockError::MarkerNotFound && no_marker(data@),
        decreases
                (if step is Read {
                    1 + data@.len() - step->offset
                } else {
                    0
                }),
    {
        match step {
            Step::Done(offset) => {
                return Ok(offset);
            },
            Step::Failed(e) => {
                return Err(e);
            },
            Step::Read { offset, len } => {
                proof {
                    assert(data@.len() == data.len());
                    lemma_probe_finds_marker(data@, offset);
                }
                step = probe(offset, read_at(data, offset, len));
            },
        }
    }
}

} // verus!
