//! The on-disk format of the log: fixed-size blocks holding records, each a
//! seven-byte header followed by its payload.

use vstd::prelude::*;
use crate::util::coding::fixed32;
use crate::util::crc32::{spec_mask, spec_value};

pub mod detection;
pub mod reader;
pub mod round_trip;
pub mod truncation;
pub mod writer;

verus! {

/// The size of a block of the log.
pub const BLOCK_SIZE: usize = 32768;

/// The size of a record's header: checksum (4), length (2), type (1).
pub const HEADER_SIZE: usize = 7;

/// What part of a user record a physical record holds.
#[derive(Debug, Clone, Copy, PartialEq, Eq, Structural)]
pub enum RecordType {
    /// Reserved: never written, read as damage or padding.
    Zero,
    /// A whole user record.
    Full,
    /// The first fragment of a user record.
    First,
    /// A fragment in the interior of a user record.
    Middle,
    /// The last fragment of a user record.
    Last,
}

impl RecordType {
    /// The tag stored in the header for this type.
    pub open spec fn spec_tag(self) -> u8 {
        match self {
            RecordType::Zero => 0,
            RecordType::Full => 1,
            RecordType::First => 2,
            RecordType::Middle => 3,
            RecordType::Last => 4,
        }
    }

    /// The type a stored tag stands for, if any.
    pub open spec fn spec_from_tag(tag: u8) -> Option<RecordType> {
        if tag == 0 {
            Some(RecordType::Zero)
        } else if tag == 1 {
            Some(RecordType::Full)
        } else if tag == 2 {
            Some(RecordType::First)
        } else if tag == 3 {
            Some(RecordType::Middle)
        } else if tag == 4 {
            Some(RecordType::Last)
        } else {
            None
        }
    }

    pub fn tag(self) -> (t: u8)
        ensures
            t == self.spec_tag(),
            t <= 4,
    {
        match self {
            RecordType::Zero => 0,
            RecordType::Full => 1,
            RecordType::First => 2,
            RecordType::Middle => 3,
            RecordType::Last => 4,
        }
    }

    pub fn from_tag(tag: u8) -> (t: Option<RecordType>)
        ensures
            t == Self::spec_from_tag(tag),
            t matches Some(k) ==> k.spec_tag() == tag,
            t.is_none() <==> tag > 4,
    {
        if tag == 0 {
            Some(RecordType::Zero)
        } else if tag == 1 {
            Some(RecordType::Full)
        } else if tag == 2 {
            Some(RecordType::First)
        } else if tag == 3 {
            Some(RecordType::Middle)
        } else if tag == 4 {
            Some(RecordType::Last)
        } else {
            None
        }
    }

    /// The type of a fragment by its place in the user record.
    pub open spec fn spec_of_fragment(begin: bool, end: bool) -> RecordType {
        if begin && end {
            RecordType::Full
        } else if begin {
            RecordType::First
        } else if end {
            RecordType::Last
        } else {
            RecordType::Middle
        }
    }

    pub fn of_fragment(begin: bool, end: bool) -> (t: RecordType)
        ensures
            t == Self::spec_of_fragment(begin, end),
    {
        if begin && end {
            RecordType::Full
        } else if begin {
            RecordType::First
        } else if end {
            RecordType::Last
        } else {
            RecordType::Middle
        }
    }
}

/// The checksum stored with a record: the masked CRC-32C of the type's tag
/// followed by the payload.
pub open spec fn record_checksum(tag: u8, payload: Seq<u8>) -> u32 {
    spec_mask(spec_value(seq![tag] + payload))
}

/// The header of a record: its checksum, the payload's length, and the tag,
/// the two numbers least significant byte first.
pub open spec fn header_bytes(kind: RecordType, payload: Seq<u8>) -> Seq<u8>
    recommends
        payload.len() <= 0xffff,
{
    fixed32(record_checksum(kind.spec_tag(), payload)) + seq![
        (payload.len() % 256) as u8,
        (payload.len() / 256) as u8,
        kind.spec_tag(),
    ]
}

/// A record as it lies in the log: header, then payload.
pub open spec fn record_bytes(kind: RecordType, payload: Seq<u8>) -> Seq<u8>
    recommends
        payload.len() <= 0xffff,
{
    header_bytes(kind, payload) + payload
}

/// `n` zero bytes.
pub open spec fn zeros(n: nat) -> Seq<u8> {
    Seq::new(n, |i: int| 0u8)
}

} // verus!
