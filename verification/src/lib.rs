//! Random access by height into a file of length-prefixed block records.
//!
//! A block file is a run of records laid end to end, possibly behind some
//! unrelated leading bytes. Each record is a four-byte marker, a little-endian
//! payload length, and a payload that holds an 80-byte header, an entry count
//! and the undecoded entries. The height of a record is its place in the run,
//! counted from 0.
//!
//! What the library computes:
//!
//! * [`block`] holds the decoded types and the decoders.
//! * [`locator`] finds where the first record begins.
//! * [`parser`] resolves heights to records, and remembers every record that
//!   it has decoded on the way.
//! * [`display`] renders a header as text.
//!
//! What it is proved against:
//!
//! * [`layout`] states the byte layout as functions on `Seq<u8>`.
//! * [`chain`] states which record a file holds at which height.
//! * [`index`] states what an index remembers and how a step and a whole
//!   lookup change it.
//! * [`driving`] proves that a lookup driven step by step against a file is
//!   the lookup that [`index`] states.
//! * [`laws`] proves what follows for every file.
//!
//! The library performs no input or output. Where it needs bytes that it has
//! not been given, it names the offset and the length in a [`step::Step`] and
//! takes the bytes in the next call. For a file that lies in memory,
//! [`image`] does the reading, and [`TxParser::new`] and
//! [`TxParser::read_block`] take the steps by themselves.

pub mod block;
pub mod chain;
pub mod display;
pub mod driving;
pub mod error;
pub mod image;
pub mod index;
pub mod laws;
pub mod layout;
pub mod locator;
pub mod parser;
pub mod step;

pub use block::{fetch_block, BitcoinBlock, BlockHeader, TransactionBlock};
pub use error::BlockError;
pub use layout::MAGIC_BYTE;
pub use parser::TxParser;
pub use step::Step;
