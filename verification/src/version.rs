//! Schema versions of stored types.

use crate::envelope::CrdtType;
use vstd::prelude::*;
use vstd::string::StringExecFns;

verus! {

/// A replicated type with a serialization format that has a version.
pub trait Versioned: Sized {
    /// The version of the current serialization format.
    const CURRENT_VERSION: u8;

    /// The type code for the envelope.
    const CRDT_TYPE: CrdtType;
}

/// A stored type with a schema that has a version.
pub trait Schema: Sized {
    /// The current schema version.
    const VERSION: u32;

    /// The oldest schema version that can still be migrated.
    const MIN_SUPPORTED_VERSION: u32;

    /// The namespace in which values of this type are stored.
    const NAMESPACE: &'static str;
}

/// A type that the database stores: the schema version goes into the
/// envelope.
pub trait CrdtVersioned {
    /// The schema version of the type.
    const SCHEMA_VERSION: u8;
}

impl<T: Versioned> CrdtVersioned for T {
    const SCHEMA_VERSION: u8 = T::CURRENT_VERSION;
}

/// Why a value could not be written or read in its versioned format.
#[derive(Debug, Clone, PartialEq, Eq)]
pub enum VersionError {
    /// Writing failed.
    Serialize(String),
    /// Reading failed.
    Deserialize(String),
}

impl VersionError {
    /// The message of this error.
    pub open spec fn message(&self) -> Seq<char> {
        match self {
            VersionError::Serialize(msg) => "serialization error: "@ + msg@,
            VersionError::Deserialize(msg) => "deserialization error: "@ + msg@,
        }
    }

    /// Renders the error as a printable message.
    pub fn to_string(&self) -> (s: String)
        ensures
            s@ == self.message(),
    {
        match self {
            VersionError::Serialize(msg) => {
                let mut s = String::from_str("serialization error: ");
                s.append(msg.as_str());
                s
            },
            VersionError::Deserialize(msg) => {
                let mut s = String::from_str("deserialization error: ");
                s.append(msg.as_str());
                s
            },
        }
    }
}

} // verus!
