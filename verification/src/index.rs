//! The index as a mathematical object: what is remembered, where a walk
//! stands, and how a step or a whole lookup changes both.

use crate::chain::walk;
use crate::error::BlockError;
use crate::layout::{decoded, payload_of, prefix_of, span, Record, MAGIC_BYTE, PREFIX_LEN};
use crate::step::Step;
use vstd::prelude::*;

verus! {

/// Where a walk towards `target` stands: the record at `height` begins at
/// `offset` and is the next to be decoded. Once its prefix has been read,
/// `staged` holds the payload length that the prefix declared.
#[derive(Debug, Clone, Copy, PartialEq, Eq)]
pub struct Walk {
    pub target: u32,
    pub height: u32,
    pub offset: u64,
    pub staged: Option<u32>,
}

/// The state of an index.
#[verifier::ext_equal]
pub struct Index {
    /// Where the record at height 0 begins.
    pub chain_start: u64,
    /// For each height reached so far, where its record begins and what it
    /// holds.
    pub cache: Map<u32, (u64, Record)>,
    /// The walk in progress, if a lookup is waiting for bytes.
    pub walk: Option<Walk>,
}

impl Index {
    /// An index that remembers nothing.
    pub open spec fn empty(chain_start: u64) -> Index {
        Index { chain_start, cache: Map::empty(), walk: None }
    }

    /// The same index with no walk in progress.
    pub open spec fn idle(self) -> Index {
        Index { walk: None, ..self }
    }

    /// Where the record behind the one at `height` begins.
    pub open spec fn end_of(self, height: u32) -> int {
        self.cache[height].0 + span(self.cache[height].1)
    }

    /// The walk `w` stands at the first height that is not remembered, at the
    /// offset where the remembered records end.
    pub open spec fn fits(self, w: Walk) -> bool {
        &&& w.height <= w.target
        &&& !self.cache.contains_key(w.height)
        &&& w.height == 0 ==> w.offset == self.chain_start
        &&& w.height > 0 ==> self.cache.contains_key((w.height - 1) as u32) && w.offset
            == self.end_of((w.height - 1) as u32)
        &&& w.staged matches Some(size) ==> w.offset + PREFIX_LEN + size <= u64::MAX
    }

    /// The invariant of an index: the remembered heights run from 0 upwards
    /// without a gap, each record begins where the one before it ends, and a
    /// walk in progress stands right behind them.
    pub open spec fn wf(self) -> bool {
        &&& forall|h: u32, below: u32|
            #![trigger self.cache.contains_key(h), self.cache.contains_key(below)]
            below <= h && self.cache.contains_key(h) ==> self.cache.contains_key(below)
        &&& forall|h: u32|
            h > 0 && #[trigger] self.cache.contains_key(h) ==> self.cache[h].0 == self.end_of(
                (h - 1) as u32,
            )
        &&& self.cache.contains_key(0) ==> self.cache[0].0 == self.chain_start
        &&& forall|h: u32| #[trigger]
            self.cache.contains_key(h) ==> self.end_of(h) <= u64::MAX && decoded(self.cache[h].1)
        &&& self.walk matches Some(w) ==> self.fits(w)
    }

    /// The greatest remembered height below `height`.
    pub open spec fn nearest_ancestor(self, height: u32) -> Option<u32>
        decreases height,
    {
        if height == 0 {
            None
        } else if self.cache.contains_key((height - 1) as u32) {
            Some((height - 1) as u32)
        } else {
            self.nearest_ancestor((height - 1) as u32)
        }
    }

    /// Where a walk towards `height` sets out: behind the nearest remembered
    /// ancestor, or at the start of the chain where there is none.
    pub open spec fn resume_point(self, height: u32) -> (u32, u64) {
        match self.nearest_ancestor(height) {
            None => (0, self.chain_start),
            Some(ancestor) => ((ancestor + 1) as u32, self.end_of(ancestor) as u64),
        }
    }

    /// The first step of a lookup. A remembered height is answered at once;
    /// for any other the walk sets out with a read of the first prefix.
    pub open spec fn begin(self, height: u32) -> (Index, Step<Record>) {
        if self.cache.contains_key(height) {
            (self.idle(), Step::Done(self.cache[height].1))
        } else {
            let (first, offset) = self.resume_point(height);
            (
                Index {
                    walk: Some(Walk { target: height, height: first, offset, staged: None }),
                    ..self
                },
                Step::Read { offset, len: PREFIX_LEN },
            )
        }
    }

    /// The step that follows when the walk `w` is handed the bytes it asked
    /// for.
    pub open spec fn supply(self, w: Walk, bytes: Seq<u8>) -> (Index, Step<Record>) {
        match w.staged {
            None => {
                if bytes.len() == 0 {
                    (self.idle(), Step::Failed(BlockError::HeightNotFound))
                } else {
                    match prefix_of(bytes) {
                        Err(e) => (self.idle(), Step::Failed(e)),
                        Ok(size) => {
                            if w.offset + PREFIX_LEN + size > u64::MAX {
                                (self.idle(), Step::Failed(BlockError::TruncatedRead))
                            } else {
                                (
                                    Index { walk: Some(Walk { staged: Some(size), ..w }), ..self },
                                    Step::Read {
                                        offset: (w.offset + PREFIX_LEN) as u64,
                                        len: size as usize,
                                    },
                                )
                            }
                        },
                    }
                }
            },
            Some(size) => match payload_of(size, bytes) {
                Err(e) => (self.idle(), Step::Failed(e)),
                Ok(block) => {
                    let record = Record { magic_bytes: MAGIC_BYTE@, size, block };
                    let cache = self.cache.insert(w.height, (w.offset, record));
                    if w.height == w.target {
                        (Index { cache, walk: None, ..self }, Step::Done(record))
                    } else {
                        let offset = (w.offset + PREFIX_LEN + size) as u64;
                        (
                            Index {
                                cache,
                                walk: Some(
                                    Walk {
                                        height: (w.height + 1) as u32,
                                        offset,
                                        staged: None,
                                        ..w
                                    },
                                ),
                                ..self
                            },
                            Step::Read { offset, len: PREFIX_LEN },
                        )
                    }
                },
            },
        }
    }

    /// The step that follows when the caller hands in `bytes` for a lookup of
    /// `height`. Where no walk towards `height` is in progress the bytes
    /// answer no read: they are dropped and the lookup begins.
    pub open spec fn resume(self, height: u32, bytes: Seq<u8>) -> (Index, Step<Record>) {
        match self.walk {
            Some(w) if w.target == height => self.supply(w, bytes),
            _ => self.begin(height),
        }
    }

    /// What is remembered once a walk that set out at height `first` and at
    /// `offset` has decoded the records of `file` below height `upto`.
    pub open spec fn extended(self, file: Seq<u8>, first: u32, offset: u64, upto: int) -> Map<
        u32,
        (u64, Record),
    > {
        Map::new(
            |h: u32|
                self.cache.contains_key(h) || (first <= h < upto && walk(
                    file,
                    offset as int,
                    (h - first) as nat,
                ) is Ok),
            |h: u32|
                if self.cache.contains_key(h) {
                    self.cache[h]
                } else {
                    let entry = walk(file, offset as int, (h - first) as nat)->Ok_0;
                    (entry.0 as u64, entry.1)
                },
        )
    }

    /// A whole lookup of `height` in `file`: the record and what is
    /// remembered afterwards. A remembered height is answered as it is
    /// remembered. For any other, the walk sets out behind the nearest
    /// remembered ancestor and remembers every record that it decodes, also
    /// where it fails further on.
    pub open spec fn lookup(self, file: Seq<u8>, height: u32) -> (Index, Result<
        Record,
        BlockError,
    >) {
        if self.cache.contains_key(height) {
            (self.idle(), Ok(self.cache[height].1))
        } else {
            let (first, offset) = self.resume_point(height);
            (
                Index {
                    cache: self.extended(file, first, offset, height + 1),
                    walk: None,
                    ..self
                },
                match walk(file, offset as int, (height - first) as nat) {
                    Err(e) => Err(e),
                    Ok(entry) => Ok(entry.1),
                },
            )
        }
    }

    /// Every remembered record is the record of `file` at that height, at
    /// the offset where it lies.
    pub open spec fn agrees_with(self, file: Seq<u8>) -> bool {
        forall|h: u32| #[trigger]
            self.cache.contains_key(h) ==> walk(file, self.chain_start as int, h as nat) == Ok::<
                (int, Record),
                BlockError,
            >((self.cache[h].0 as int, self.cache[h].1))
    }

    /// The nearest ancestor of `height` is remembered and lies below
    /// `height`, and nothing between the two is remembered.
    pub proof fn lemma_nearest_ancestor(self, height: u32)
        ensures
            match self.nearest_ancestor(height) {
                None => forall|h: u32| h < height ==> !self.cache.contains_key(h),
                Some(ancestor) => ancestor < height && self.cache.contains_key(ancestor)
                    && forall|h: u32| ancestor < h < height ==> !self.cache.contains_key(h),
            },
        decreases height,
    {
        if height > 0 && !self.cache.contains_key((height - 1) as u32) {
            self.lemma_nearest_ancestor((height - 1) as u32);
        }
    }
}

} // verus!
