//! The index over a block file: heights resolved to records, each record
//! decoded once.

use crate::block::{parse_payload, parse_prefix, BitcoinBlock};
use crate::chain::chain_record;
use crate::driving::{lemma_begin, lemma_resume, progress, remaining};
use crate::error::BlockError;
use crate::image::read_at;
use crate::index::{Index, Walk};
use crate::laws::lemma_lookup_follows_chain;
use crate::layout::{decoded, lemma_payload_decoded, Record, MAGIC_BYTE, PREFIX_LEN};
use crate::locator::{chain_starts_at, locate, no_marker};
use crate::step::Step;
use std::collections::HashMap;
use vstd::prelude::*;

verus! {

/// An index over one block file.
///
/// It remembers, for every height that a lookup has reached, where the record
/// begins and what it holds. A lookup of a height that is not remembered walks
/// forward from the nearest remembered height below it.
pub struct TxParser {
    blocks: HashMap<u32, (u64, BitcoinBlock)>,
    chain_start: u64,
    walk: Option<Walk>,
}

impl View for TxParser {
    type V = Index;

    closed spec fn view(&self) -> Index {
        Index { chain_start: self.chain_start, cache: cache_of(self.blocks@), walk: self.walk }
    }
}

/// What the map holds, each record taken by its view.
spec fn cache_of(blocks: Map<u32, (u64, BitcoinBlock)>) -> Map<u32, (u64, Record)> {
    blocks.map_values(|entry: (u64, BitcoinBlock)| (entry.0, entry.1@))
}

impl TxParser {
    #[verifier::type_invariant]
    spec fn inv(self) -> bool {
        self@.wf()
    }

    /// An index over the chain in `data`, a file that lies in memory, with
    /// nothing remembered yet. The chain begins at the first offset at which
    /// the marker lies; a file without the marker holds no chain.
    pub fn new(data: &[u8]) -> (r: Result<TxParser, BlockError>)
        ensures
            match r {
                Ok(parser) => chain_starts_at(data@, parser@.chain_start as int) && parser@
                    == Index::empty(parser@.chain_start),
                Err(e) => e == BlockError::MarkerNotFound && no_marker(data@),
            },
    {
        match locate(data) {
            Ok(chain_start) => Ok(TxParser::with_chain_start(chain_start)),
            Err(e) => Err(e),
        }
    }

    /// An index over the chain that begins at `chain_start`, with nothing
    /// remembered yet.
    pub fn with_chain_start(chain_start: u64) -> (parser: TxParser)
        ensures
            parser@ == Index::empty(chain_start),
            parser@.wf(),
    {
        let parser = TxParser { blocks: HashMap::new(), chain_start, walk: None };
        assert(parser@.cache =~= Map::empty());
        parser
    }

    /// Where the record at height 0 begins.
    pub fn chain_start(&self) -> (offset: u64)
        ensures
            offset == self@.chain_start,
    {
        self.chain_start
    }

    /// The greatest remembered height below `height`, found by going down
    /// from `height - 1`. Below height 0 there is nothing to look for.
    pub fn nearest_ancestor(&self, height: u32) -> (ancestor: Option<u32>)
        ensures
            ancestor == self@.nearest_ancestor(height),
    {
        let mut candidate = height;
        while candidate > 0
            invariant
                candidate <= height,
                self@.nearest_ancestor(height) == self@.nearest_ancestor(candidate),
            decreases candidate,
        {
            candidate -= 1;
            if self.blocks.contains_key(&candidate) {
                return Some(candidate);
            }
        }
        None
    }

    /// Where a walk towards `height` sets out, and at which height.
    fn resume_point(&self, height: u32) -> (point: (u32, u64))
        requires
            !self@.cache.contains_key(height),
        ensures
            point == self@.resume_point(height),
            point.0 <= height,
            self@.fits(Walk { target: height, height: point.0, offset: point.1, staged: None }),
    {
        proof {
            use_type_invariant(self);
            self@.lemma_nearest_ancestor(height);
        }
        match self.nearest_ancestor(height) {
            None => (0, self.chain_start),
            Some(ancestor) => {
                let entry = self.blocks.get(&ancestor).unwrap();
                (ancestor + 1, entry.0 + (entry.1.size as u64 + 8))
            },
        }
    }

    /// Begins a lookup of `height`.
    ///
    /// A remembered height is answered at once, with a copy of the record and
    /// without a read. For any other height the walk sets out behind the
    /// nearest remembered ancestor, or at the start of the chain where there
    /// is none, and the step asks for the prefix of the first record on the
    /// way. A walk that was in progress is given up.
    pub fn begin(&mut self, height: u32) -> (step: Step<BitcoinBlock>)
        ensures
            final(self)@ == old(self)@.begin(height).0,
            step@ == old(self)@.begin(height).1,
            final(self)@.wf(),
    {
        proof {
            use_type_invariant(&*self);
        }
        match self.blocks.get(&height) {
            Some(entry) => {
                let block = entry.1.clone();
                self.walk = None;
                Step::Done(block)
            },
            None => {
                let (first, offset) = self.resume_point(height);
                self.walk = Some(Walk { target: height, height: first, offset, staged: None });
                Step::Read { offset, len: PREFIX_LEN }
            },
        }
    }

    /// Takes the bytes that the last step asked for, for a lookup of
    /// `height`, and gives the next step.
    ///
    /// `bytes` is what the read gave: fewer bytes than were asked for where
    /// the file ends there, none at or behind its end. Where no walk towards
    /// `height` is in progress, `bytes` answers no read: it is dropped and the
    /// lookup begins as with [`TxParser::begin`].
    ///
    /// A prefix is checked and answered with a read of the payload it
    /// declares. A payload is decoded, the record is remembered, and the walk
    /// either ends there or goes on to the next prefix. Any failure ends the
    /// walk; what was remembered before it stays.
    pub fn resume(&mut self, height: u32, bytes: &[u8]) -> (step: Step<BitcoinBlock>)
        ensures
            final(self)@ == old(self)@.resume(height, bytes@).0,
            step@ == old(self)@.resume(height, bytes@).1,
            final(self)@.wf(),
    {
        proof {
            use_type_invariant(&*self);
        }
        let walk = match self.walk {
            Some(walk) => walk,
            None => {
                return self.begin(height);
            },
        };
        if walk.target != height {
            return self.begin(height);
        }
        self.walk = None;
        match walk.staged {
            None => {
                if bytes.len() == 0 {
                    return Step::Failed(BlockError::HeightNotFound);
                }
                let size = match parse_prefix(bytes) {
                    Ok(size) => size,
                    Err(e) => {
                        return Step::Failed(e);
                    },
                };
                let room = u64::MAX - walk.offset;
                if room < 8 || room - 8 < size as u64 {
                    return Step::Failed(BlockError::TruncatedRead);
                }
                self.walk = Some(Walk { staged: Some(size), ..walk });
                Step::Read { offset: walk.offset + 8, len: size as usize }
            },
            Some(size) => {
                let block = match parse_payload(size, bytes) {
                    Ok(block) => block,
                    Err(e) => {
                        return Step::Failed(e);
                    },
                };
                let record = BitcoinBlock { magic_bytes: MAGIC_BYTE, size, block };
                proof {
                    lemma_payload_decoded(size, bytes@);
                }
                if walk.height == walk.target {
                    let copy = record.clone();
                    self.remember(walk.height, walk.offset, record);
                    Step::Done(copy)
                } else {
                    self.remember(walk.height, walk.offset, record);
                    let offset = walk.offset + (size as u64 + 8);
                    self.walk = Some(
                        Walk { height: walk.height + 1, offset, staged: None, ..walk },
                    );
                    Step::Read { offset, len: PREFIX_LEN }
                }
            },
        }
    }

    /// Remembers the record at `height`, which begins at `offset`.
    fn remember(&mut self, height: u32, offset: u64, record: BitcoinBlock)
        requires
            old(self)@.walk is None,
            old(self)@.fits(Walk { target: height, height, offset, staged: Some(record.size) }),
            decoded(record@),
        ensures
            final(self)@ == (Index {
                cache: old(self)@.cache.insert(height, (offset, record@)),
                ..old(self)@
            }),
    {
        proof {
            use_type_invariant(&*self);
        }
        let ghost before = self@;
        let ghost after = Index { cache: before.cache.insert(height, (offset, record@)), ..before };
        // The map is taken out while it grows: the index is in order at every
        // moment at which it can be seen.
        let mut blocks = HashMap::new();
        assert(cache_of(blocks@) =~= Map::empty());
        std::mem::swap(&mut self.blocks, &mut blocks);
        blocks.insert(height, (offset, record));
        proof {
            assert(cache_of(blocks@) =~= after.cache);
            assert(after.wf()) by {
                assert forall|h: u32| h > 0 && #[trigger] after.cache.contains_key(h) implies
                    after.cache[h].0 == after.end_of((h - 1) as u32) by {
                    assert(after.cache.contains_key((h - 1) as u32));
                    assert(h == height || before.cache.contains_key(h));
                    if h != height {
                        assert(before.cache.contains_key((h - 1) as u32));
                    }
                }
            }
        }
        std::mem::swap(&mut self.blocks, &mut blocks);
    }

    /// The record at `block_height` of the chain in `data`, a file that lies
    /// in memory.
    ///
    /// The lookup is driven to its end: each read that a step asks for is
    /// made in `data`. A height that is remembered is answered without a
    /// look at `data`. For any other, every record on the way from the
    /// nearest remembered ancestor is decoded and remembered, and what was
    /// decoded before a failure stays remembered.
    ///
    /// An index that has only ever been used with this file agrees with it,
    /// and then the answer is the record that the file holds at that height,
    /// or the failure at which the file's chain breaks off before it.
    pub fn read_block(&mut self, data: &[u8], block_height: u32) -> (r: Result<
        BitcoinBlock,
        BlockError,
    >)
        ensures
            final(self)@ == old(self)@.lookup(data@, block_height).0,
            match r {
                Ok(block) => old(self)@.lookup(data@, block_height).1 == Ok::<Record, BlockError>(
                    block@,
                ),
                Err(e) => old(self)@.lookup(data@, block_height).1 == Err::<Record, BlockError>(e),
            },
            final(self)@.wf(),
            old(self)@.agrees_with(data@) ==> final(self)@.agrees_with(data@) && old(self)@.lookup(
                data@,
                block_height,
            ).1 == chain_record(data@, old(self)@.chain_start as int, block_height as nat),
    {
        let ghost origin = self@;
        proof {
            use_type_invariant(&*self);
            lemma_begin(origin, data@, block_height);
            assert(data@.len() == data.len());
            if origin.agrees_with(data@) {
                lemma_lookup_follows_chain(origin, data@, block_height);
            }
        }
        let mut step = self.begin(block_height);
        loop
            invariant
                origin == old(self)@,
                origin.agrees_with(data@) ==> origin.lookup(data@, block_height).0.agrees_with(
                    data@,
                ) && origin.lookup(data@, block_height).1 == chain_record(
                    data@,
                    origin.chain_start as int,
                    block_height as nat,
                ),
                origin.wf(),
                self@.wf(),
                data@.len() <= u64::MAX,
                progress(origin, data@, block_height, self@, step@),
            decreases remaining(self@, step@),
        {
            match step {
                Step::Done(block) => {
                    return Ok(block);
                },
                Step::Failed(e) => {
                    return Err(e);
                },
                Step::Read { offset, len } => {
                    proof {
                        lemma_resume(origin, data@, block_height, self@, step@);
                    }
                    step = self.resume(block_height, read_at(data, offset, len));
                },
            }
        }
    }
}

} // verus!
