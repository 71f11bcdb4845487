//! A codec for the DNS wire message format of RFC 1035: domain-name label
//! encoding, the back-reference pointer dictionary with greedy suffix
//! compression, the bit-packed twelve-octet message header, and the
//! question / resource-record section framing.

use vstd::prelude::*;

pub mod compress;
pub mod header;
pub mod label;
pub mod label_map;
pub mod name;
pub mod question;
pub mod rdata;
pub mod resource_record;
pub mod rr_types;
pub mod types;
pub mod wire;

verus! {

/// A byte offset measured from the start of an entire DNS message.
pub type MessageOffset = u16;

/// All pointers must have `11` as their first two bits.
pub const POINTER_PREFIX: u16 = 0xC000;

/// Build the 16-bit wire form of a domain pointer: the two marker bits
/// followed by the low 14 bits of `offset`.
pub fn create_pointer(offset: u16) -> (r: u16)
    ensures
        r == (POINTER_PREFIX | offset),
        r as int == 0xC000 + (offset as int % 0x4000),
{
    proof {
        assert((0xC000u16 | offset) as int == 0xC000 + (offset as int % 0x4000)) by (bit_vector);
    }
    POINTER_PREFIX | offset
}

/// An error returned when parsing an item from its byte-serialized form
/// fails. A structural failure at any nesting level propagates to the caller
/// as a single failure for that component: a partially parsed message cannot
/// be meaningfully salvaged.
#[derive(Debug, Clone, Copy, PartialEq, Eq, Structural)]
pub enum ParseDataError {
    /// The buffer does not match the expected wire shape.
    InvalidByteStructure,
    /// There was nothing to parse.
    EmptyData,
    /// A compression pointer leads out of bounds or not strictly backwards.
    InvalidDomainPointer,
}

} // verus!
