use crdt_kit::envelope::CrdtType;
use crdt_kit::version::{CrdtVersioned, Schema, VersionError, Versioned};

struct SensorV1;
struct SensorV2;
struct SensorV3;

impl CrdtVersioned for SensorV1 {
    const SCHEMA_VERSION: u8 = 1;
}

impl CrdtVersioned for SensorV2 {
    const SCHEMA_VERSION: u8 = 2;
}

impl CrdtVersioned for SensorV3 {
    const SCHEMA_VERSION: u8 = 3;
}

impl Schema for SensorV1 {
    const VERSION: u32 = 1;
    const MIN_SUPPORTED_VERSION: u32 = 1;
    const NAMESPACE: &'static str = "sensors";
}

impl Schema for SensorV2 {
    const VERSION: u32 = 2;
    const MIN_SUPPORTED_VERSION: u32 = 1;
    const NAMESPACE: &'static str = "sensors";
}

impl Schema for SensorV3 {
    const VERSION: u32 = 3;
    const MIN_SUPPORTED_VERSION: u32 = 1;
    const NAMESPACE: &'static str = "sensors";
}

struct Counter;

impl Versioned for Counter {
    const CURRENT_VERSION: u8 = 4;
    const CRDT_TYPE: CrdtType = CrdtType::GCounter;
}

#[test]
fn crdt_schema_generates_versioned_impl() {
    assert_eq!(SensorV1::SCHEMA_VERSION, 1);
    assert_eq!(SensorV2::SCHEMA_VERSION, 2);
    assert_eq!(SensorV3::SCHEMA_VERSION, 3);
}

#[test]
fn crdt_schema_generates_schema_impl() {
    assert_eq!(SensorV1::VERSION, 1);
    assert_eq!(SensorV1::NAMESPACE, "sensors");
    assert_eq!(SensorV1::MIN_SUPPORTED_VERSION, 1);

    assert_eq!(SensorV2::VERSION, 2);
    assert_eq!(SensorV2::NAMESPACE, "sensors");

    assert_eq!(SensorV3::VERSION, 3);
    assert_eq!(SensorV3::NAMESPACE, "sensors");
}

#[test]
fn versioned_types_are_stored_at_their_version() {
    assert_eq!(<Counter as CrdtVersioned>::SCHEMA_VERSION, 4);
    assert_eq!(Counter::CRDT_TYPE, CrdtType::GCounter);
    assert_eq!(
        VersionError::Serialize("full".to_string()).to_string(),
        "serialization error: full"
    );
    assert_eq!(
        VersionError::Deserialize("short".to_string()).to_string(),
        "deserialization error: short"
    );
}
