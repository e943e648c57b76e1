//! A header as text.

use crate::block::BlockHeader;
use crate::layout::Header;
use vstd::prelude::*;
use vstd::string::{StrSliceExecFns, StringExecFns};

verus! {

/// The character for one hexadecimal digit, lower case.
pub open spec fn hex_digit(d: int) -> char
    recommends
        0 <= d < 16,
{
    "0123456789abcdef"@[d]
}

/// A byte in hexadecimal: one digit below 16, else two.
pub open spec fn hex_byte(b: u8) -> Seq<char> {
    if b < 16 {
        seq![hex_digit(b as int)]
    } else {
        seq![hex_digit(b as int / 16), hex_digit(b as int % 16)]
    }
}

/// Bytes in hexadecimal, one after the other in their order, with nothing
/// between them.
pub open spec fn hex(bytes: Seq<u8>) -> Seq<char>
    decreases bytes.len(),
{
    if bytes.len() == 0 {
        Seq::empty()
    } else {
        hex(bytes.drop_last()) + hex_byte(bytes.last())
    }
}

/// A natural number in decimal, without leading zeros.
pub open spec fn decimal(n: nat) -> Seq<char>
    decreases n,
{
    if n < 10 {
        seq![hex_digit(n as int)]
    } else {
        decimal(n / 10).push(hex_digit(n as int % 10))
    }
}

/// An integer in decimal, with a minus sign where it is negative.
pub open spec fn signed_decimal(i: int) -> Seq<char> {
    if i < 0 {
        "-"@ + decimal((-i) as nat)
    } else {
        decimal(i as nat)
    }
}

/// The text of a header: each field on a line of its own, the hashes in
/// hexadecimal.
pub open spec fn header_text(h: Header) -> Seq<char> {
    "\nBlock version: "@ + signed_decimal(h.version as int) + ",\nPrevious block hash: "@ + hex(
        h.prev_block_hash,
    ) + ",\nMerkle hash: "@ + hex(h.merkle_hash) + ",\ntime: "@ + decimal(h.time as nat)
        + ",\nnbits: "@ + decimal(h.nbits as nat) + ",\nnonce: "@ + decimal(h.nonce as nat)
        + ",\n"@
}

/// Appends one hexadecimal digit.
fn push_digit(text: &mut String, d: u8)
    requires
        d < 16,
    ensures
        final(text)@ == old(text)@.push(hex_digit(d as int)),
{
    let digits = "0123456789abcdef";
    proof {
        reveal_strlit("0123456789abcdef");
    }
    let digit = digits.substring_ascii(d as usize, d as usize + 1);
    assert(digit@ =~= seq![hex_digit(d as int)]);
    text.append(digit);
    assert(text@ =~= old(text)@.push(hex_digit(d as int)));
}

/// Appends a byte in hexadecimal.
fn push_hex_byte(text: &mut String, b: u8)
    ensures
        final(text)@ == old(text)@ + hex_byte(b),
{
    if b >= 16 {
        push_digit(text, b / 16);
    }
    push_digit(text, b % 16);
    assert(text@ =~= old(text)@ + hex_byte(b));
}

/// Appends bytes in hexadecimal.
fn push_hex(text: &mut String, bytes: &[u8])
    ensures
        final(text)@ == old(text)@ + hex(bytes@),
{
    let mut i: usize = 0;
    assert(bytes@.subrange(0, 0) =~= Seq::empty());
    assert(text@ =~= old(text)@ + hex(bytes@.subrange(0, 0)));
    while i < bytes.len()
        invariant
            i <= bytes.len(),
            text@ == old(text)@ + hex(bytes@.subrange(0, i as int)),
        decreases bytes.len() - i,
    {
        push_hex_byte(text, bytes[i]);
        proof {
            let upto = bytes@.subrange(0, i + 1);
            assert(upto.drop_last() =~= bytes@.subrange(0, i as int));
            assert(text@ =~= old(text)@ + hex(upto));
        }
        i += 1;
    }
    assert(bytes@.subrange(0, i as int) =~= bytes@);
}

/// Appends a number in decimal.
fn push_decimal(text: &mut String, n: u32)
    ensures
        final(text)@ == old(text)@ + decimal(n as nat),
    decreases n,
{
    if n >= 10 {
        push_decimal(text, n / 10);
    }
    push_digit(text, (n % 10) as u8);
    assert(text@ =~= old(text)@ + decimal(n as nat));
}

/// Appends an integer in decimal.
fn push_signed(text: &mut String, i: i32)
    ensures
        final(text)@ == old(text)@ + signed_decimal(i as int),
{
    if i < 0 {
        text.append("-");
        let magnitude: u32 = (-(i as i64)) as u32;
        push_decimal(text, magnitude);
        assert(text@ =~= old(text)@ + signed_decimal(i as int));
    } else {
        push_decimal(text, i as u32);
    }
}

impl BlockHeader {
    /// The header as text: the version, the two hashes in lower-case
    /// hexadecimal without leading zeros or separators, then time,
    /// difficulty target and nonce, each on a line of its own.
    pub fn to_string(&self) -> (text: String)
        ensures
            text@ == header_text(self@),
    {
        let mut text = String::new();
        text.append("\nBlock version: ");
        push_signed(&mut text, self.version);
        text.append(",\nPrevious block hash: ");
        push_hex(&mut text, self.prev_block_hash.as_slice());
        text.append(",\nMerkle hash: ");
        push_hex(&mut text, self.merkle_hash.as_slice());
        text.append(",\ntime: ");
        push_decimal(&mut text, self.time);
        text.append(",\nnbits: ");
        push_decimal(&mut text, self.nbits);
        text.append(",\nnonce: ");
        push_decimal(&mut text, self.nonce);
        text.append(",\n");
        assert(text@ =~= header_text(self@));
        text
    }
}

} // verus!
