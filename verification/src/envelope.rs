//! The versioned envelope: a three-byte header in front of a payload.
//!
//! ```text
//! [magic 0xCF][schema version][type code][payload ...]
//! ```

use crate::render::{decimal, hex_byte, push_decimal, push_hex_byte};
use vstd::prelude::*;
use vstd::string::StringExecFns;

verus! {

/// First byte of every envelope.
pub const MAGIC_BYTE: u8 = 0xCF;

/// Number of bytes in front of the payload.
pub const ENVELOPE_HEADER_SIZE: usize = 3;

/// The kind of value that an envelope carries.
#[derive(Debug, Clone, Copy, PartialEq, Eq, Hash, Structural)]
pub enum CrdtType {
    /// Grow-only counter.
    GCounter,
    /// Positive-negative counter.
    PNCounter,
    /// Grow-only set.
    GSet,
    /// Two-phase set.
    TwoPSet,
    /// Last-writer-wins register.
    LWWRegister,
    /// Multi-value register.
    MVRegister,
    /// Observed-remove set.
    ORSet,
    /// Replicated growable array.
    Rga,
    /// Collaborative text.
    TextCrdt,
    /// Application-defined composite.
    Custom,
}

/// The byte that stands for a type in the header.
pub open spec fn type_code(t: CrdtType) -> u8 {
    match t {
        CrdtType::GCounter => 1,
        CrdtType::PNCounter => 2,
        CrdtType::GSet => 3,
        CrdtType::TwoPSet => 4,
        CrdtType::LWWRegister => 5,
        CrdtType::MVRegister => 6,
        CrdtType::ORSet => 7,
        CrdtType::Rga => 8,
        CrdtType::TextCrdt => 9,
        CrdtType::Custom => 255,
    }
}

/// The type that a header byte stands for, if any.
pub open spec fn type_of_code(b: u8) -> Option<CrdtType> {
    if b == 1 {
        Some(CrdtType::GCounter)
    } else if b == 2 {
        Some(CrdtType::PNCounter)
    } else if b == 3 {
        Some(CrdtType::GSet)
    } else if b == 4 {
        Some(CrdtType::TwoPSet)
    } else if b == 5 {
        Some(CrdtType::LWWRegister)
    } else if b == 6 {
        Some(CrdtType::MVRegister)
    } else if b == 7 {
        Some(CrdtType::ORSet)
    } else if b == 8 {
        Some(CrdtType::Rga)
    } else if b == 9 {
        Some(CrdtType::TextCrdt)
    } else if b == 255 {
        Some(CrdtType::Custom)
    } else {
        None
    }
}

impl CrdtType {
    /// Reads a type from its header byte.
    pub fn from_byte(b: u8) -> (r: Option<Self>)
        ensures
            r == type_of_code(b),
    {
        match b {
            1 => Some(Self::GCounter),
            2 => Some(Self::PNCounter),
            3 => Some(Self::GSet),
            4 => Some(Self::TwoPSet),
            5 => Some(Self::LWWRegister),
            6 => Some(Self::MVRegister),
            7 => Some(Self::ORSet),
            8 => Some(Self::Rga),
            9 => Some(Self::TextCrdt),
            255 => Some(Self::Custom),
            _ => None,
        }
    }

    /// The header byte of this type.
    pub fn to_byte(&self) -> (b: u8)
        ensures
            b == type_code(*self),
            type_of_code(b) == Some(*self),
    {
        match self {
            Self::GCounter => 1,
            Self::PNCounter => 2,
            Self::GSet => 3,
            Self::TwoPSet => 4,
            Self::LWWRegister => 5,
            Self::MVRegister => 6,
            Self::ORSet => 7,
            Self::Rga => 8,
            Self::TextCrdt => 9,
            Self::Custom => 255,
        }
    }
}

/// Why bytes could not be read as an envelope.
#[derive(Debug, Clone, Copy, PartialEq, Eq, Structural)]
pub enum EnvelopeError {
    /// Fewer bytes than the header needs.
    TooShort,
    /// The first byte is not the magic byte; holds the byte found.
    InvalidMagic(u8),
    /// The type byte is none of the known codes; holds the byte found.
    UnknownCrdtType(u8),
}

impl EnvelopeError {
    /// The message of this error.
    pub open spec fn message(self) -> Seq<char> {
        match self {
            EnvelopeError::TooShort => "data too short for version envelope"@,
            EnvelopeError::InvalidMagic(b) => "invalid magic byte: 0x"@ + hex_byte(b)
                + ", expected 0xCF"@,
            EnvelopeError::UnknownCrdtType(b) => "unknown CRDT type: "@ + decimal(b as nat),
        }
    }

    /// Renders the error as a printable message.
    pub fn to_string(&self) -> (s: String)
        ensures
            s@ == self.message(),
    {
        match self {
            EnvelopeError::TooShort => String::from_str("data too short for version envelope"),
            EnvelopeError::InvalidMagic(b) => {
                let mut s = String::from_str("invalid magic byte: 0x");
                push_hex_byte(&mut s, *b);
                s.append(", expected 0xCF");
                s
            },
            EnvelopeError::UnknownCrdtType(b) => {
                let mut s = String::from_str("unknown CRDT type: ");
                push_decimal(&mut s, *b as u64);
                s
            },
        }
    }
}

/// The bytes of an envelope with the given header fields and payload.
pub open spec fn encode(version: u8, crdt_type: CrdtType, payload: Seq<u8>) -> Seq<u8> {
    seq![MAGIC_BYTE, version, type_code(crdt_type)] + payload
}

/// The header fields and payload that `data` holds, or why it holds none.
pub open spec fn decode(data: Seq<u8>) -> Result<(u8, CrdtType, Seq<u8>), EnvelopeError> {
    if data.len() < 3 {
        Err(EnvelopeError::TooShort)
    } else if data[0] != MAGIC_BYTE {
        Err(EnvelopeError::InvalidMagic(data[0]))
    } else {
        match type_of_code(data[2]) {
            None => Err(EnvelopeError::UnknownCrdtType(data[2])),
            Some(t) => Ok((data[1], t, data.skip(3))),
        }
    }
}

/// The schema version in the header of `data`, read without the payload.
pub open spec fn peek(data: Seq<u8>) -> Result<u8, EnvelopeError> {
    if data.len() < 2 {
        Err(EnvelopeError::TooShort)
    } else if data[0] != MAGIC_BYTE {
        Err(EnvelopeError::InvalidMagic(data[0]))
    } else {
        Ok(data[1])
    }
}

/// Whether `data` starts with the magic byte.
pub open spec fn starts_with_magic(data: Seq<u8>) -> bool {
    data.len() > 0 && data[0] == MAGIC_BYTE
}

/// Decoding an encoded envelope gives back the version, the type and the
/// payload.
pub proof fn lemma_envelope_round_trip(version: u8, crdt_type: CrdtType, payload: Seq<u8>)
    ensures
        decode(encode(version, crdt_type, payload)) == Ok::<
            (u8, CrdtType, Seq<u8>),
            EnvelopeError,
        >((version, crdt_type, payload)),
        peek(encode(version, crdt_type, payload)) == Ok::<u8, EnvelopeError>(version),
        starts_with_magic(encode(version, crdt_type, payload)),
{
    let data = encode(version, crdt_type, payload);
    assert(data.skip(3) =~= payload);
}

/// Whatever decodes was encoded from what it decodes to: the format has one
/// reading and one writing.
pub proof fn lemma_envelope_decode_encode(data: Seq<u8>)
    requires
        decode(data) is Ok,
    ensures
        encode(decode(data)->Ok_0.0, decode(data)->Ok_0.1, decode(data)->Ok_0.2) == data,
{
    let d = decode(data)->Ok_0;
    assert(encode(d.0, d.1, d.2) =~= data);
}

/// A payload together with its schema version and type.
#[derive(Debug, Clone, PartialEq, Eq)]
pub struct VersionedEnvelope {
    /// Schema version of the payload.
    pub version: u8,
    /// Kind of value in the payload.
    pub crdt_type: CrdtType,
    /// The serialized value.
    pub payload: Vec<u8>,
}

impl View for VersionedEnvelope {
    type V = (u8, CrdtType, Seq<u8>);

    open spec fn view(&self) -> (u8, CrdtType, Seq<u8>) {
        (self.version, self.crdt_type, self.payload@)
    }
}

impl VersionedEnvelope {
    /// Creates an envelope.
    pub fn new(version: u8, crdt_type: CrdtType, payload: Vec<u8>) -> (e: Self)
        ensures
            e@ == (version, crdt_type, payload@),
            e.payload == payload,
    {
        Self { version, crdt_type, payload }
    }

    /// Writes the header and the payload.
    pub fn to_bytes(&self) -> (bytes: Vec<u8>)
        ensures
            bytes@ == encode(self.version, self.crdt_type, self.payload@),
    {
        let mut bytes = Vec::new();
        bytes.push(MAGIC_BYTE);
        bytes.push(self.version);
        bytes.push(self.crdt_type.to_byte());
        let mut i: usize = 0;
        while i < self.payload.len()
            invariant
                i <= self.payload@.len(),
                bytes@ == seq![MAGIC_BYTE, self.version, type_code(self.crdt_type)]
                    + self.payload@.subrange(0, i as int),
            decreases self.payload@.len() - i,
        {
            bytes.push(self.payload[i]);
            i += 1;
            assert(bytes@ =~= seq![MAGIC_BYTE, self.version, type_code(self.crdt_type)]
                + self.payload@.subrange(0, i as int));
        }
        assert(self.payload@.subrange(0, i as int) =~= self.payload@);
        bytes
    }

    /// Reads an envelope.
    ///
    /// Fails with `TooShort` on fewer than three bytes, with `InvalidMagic` when
    /// the first byte is not the magic byte, and with `UnknownCrdtType` when the
    /// third byte is no type code.
    pub fn from_bytes(data: &[u8]) -> (r: Result<Self, EnvelopeError>)
        ensures
            match r {
                Ok(e) => decode(data@) == Ok::<(u8, CrdtType, Seq<u8>), EnvelopeError>(e@),
                Err(err) => decode(data@) == Err::<(u8, CrdtType, Seq<u8>), EnvelopeError>(err),
            },
    {
        if data.len() < ENVELOPE_HEADER_SIZE {
            return Err(EnvelopeError::TooShort);
        }
        if data[0] != MAGIC_BYTE {
            return Err(EnvelopeError::InvalidMagic(data[0]));
        }
        let version = data[1];
        let crdt_type = match CrdtType::from_byte(data[2]) {
            Some(t) => t,
            None => {
                return Err(EnvelopeError::UnknownCrdtType(data[2]));
            },
        };
        let mut payload: Vec<u8> = Vec::new();
        let mut i: usize = ENVELOPE_HEADER_SIZE;
        while i < data.len()
            invariant
                3 <= i <= data@.len(),
                payload@ == data@.subrange(3, i as int),
            decreases data@.len() - i,
        {
            payload.push(data[i]);
            i += 1;
            assert(payload@ =~= data@.subrange(3, i as int));
        }
        assert(payload@ =~= data@.skip(3));
        Ok(Self { version, crdt_type, payload })
    }

    /// Reads the schema version from the header alone.
    ///
    /// Fails with `TooShort` on fewer than two bytes and with `InvalidMagic`
    /// when the first byte is not the magic byte.
    pub fn peek_version(data: &[u8]) -> (r: Result<u8, EnvelopeError>)
        ensures
            r == peek(data@),
    {
        if data.len() < 2 {
            return Err(EnvelopeError::TooShort);
        }
        if data[0] != MAGIC_BYTE {
            return Err(EnvelopeError::InvalidMagic(data[0]));
        }
        Ok(data[1])
    }

    /// Whether the bytes start with the magic byte.
    pub fn is_versioned(data: &[u8]) -> (b: bool)
        ensures
            b == starts_with_magic(data@),
    {
        data.len() > 0 && data[0] == MAGIC_BYTE
    }
}

} // verus!
