use crdt_kit::envelope::{
    CrdtType, EnvelopeError, VersionedEnvelope, ENVELOPE_HEADER_SIZE, MAGIC_BYTE,
};

#[test]
fn roundtrip() {
    let envelope = VersionedEnvelope::new(3, CrdtType::ORSet, b"test-payload".to_vec());
    let bytes = envelope.to_bytes();
    let decoded = VersionedEnvelope::from_bytes(&bytes).unwrap();
    assert_eq!(envelope, decoded);
}

#[test]
fn header_size() {
    let envelope = VersionedEnvelope::new(1, CrdtType::GCounter, vec![]);
    let bytes = envelope.to_bytes();
    assert_eq!(bytes.len(), ENVELOPE_HEADER_SIZE);
}

#[test]
fn peek_version() {
    let envelope = VersionedEnvelope::new(42, CrdtType::TextCrdt, b"data".to_vec());
    let bytes = envelope.to_bytes();
    assert_eq!(VersionedEnvelope::peek_version(&bytes).unwrap(), 42);
}

#[test]
fn is_versioned() {
    assert!(VersionedEnvelope::is_versioned(&[MAGIC_BYTE, 1, 1]));
    assert!(!VersionedEnvelope::is_versioned(&[0x00, 1, 1]));
    assert!(!VersionedEnvelope::is_versioned(&[]));
}

#[test]
fn error_too_short() {
    assert_eq!(
        VersionedEnvelope::from_bytes(&[MAGIC_BYTE]),
        Err(EnvelopeError::TooShort)
    );
}

#[test]
fn error_invalid_magic() {
    assert_eq!(
        VersionedEnvelope::from_bytes(&[0xAB, 1, 1]),
        Err(EnvelopeError::InvalidMagic(0xAB))
    );
}

#[test]
fn error_unknown_crdt_type() {
    assert_eq!(
        VersionedEnvelope::from_bytes(&[MAGIC_BYTE, 1, 200]),
        Err(EnvelopeError::UnknownCrdtType(200))
    );
}

#[test]
fn all_crdt_types_roundtrip() {
    let types = [
        CrdtType::GCounter,
        CrdtType::PNCounter,
        CrdtType::GSet,
        CrdtType::TwoPSet,
        CrdtType::LWWRegister,
        CrdtType::MVRegister,
        CrdtType::ORSet,
        CrdtType::Rga,
        CrdtType::TextCrdt,
        CrdtType::Custom,
    ];
    for ct in types {
        let envelope = VersionedEnvelope::new(1, ct, b"x".to_vec());
        let decoded = VersionedEnvelope::from_bytes(&envelope.to_bytes()).unwrap();
        assert_eq!(decoded.crdt_type, ct);
    }
}

#[test]
fn envelope_exact_bytes() {
    let envelope = VersionedEnvelope::new(7, CrdtType::Custom, vec![1, 2, 3]);
    assert_eq!(envelope.to_bytes(), vec![0xCF, 7, 255, 1, 2, 3]);
    let codes: Vec<u8> = [
        CrdtType::GCounter,
        CrdtType::PNCounter,
        CrdtType::GSet,
        CrdtType::TwoPSet,
        CrdtType::LWWRegister,
        CrdtType::MVRegister,
        CrdtType::ORSet,
        CrdtType::Rga,
        CrdtType::TextCrdt,
        CrdtType::Custom,
    ]
    .iter()
    .map(|t| t.to_byte())
    .collect();
    assert_eq!(codes, vec![1, 2, 3, 4, 5, 6, 7, 8, 9, 255]);
    assert_eq!(CrdtType::from_byte(0), None);
    assert_eq!(CrdtType::from_byte(10), None);
    assert_eq!(CrdtType::from_byte(9), Some(CrdtType::TextCrdt));
}

#[test]
fn envelope_edges() {
    assert_eq!(
        VersionedEnvelope::from_bytes(&[]),
        Err(EnvelopeError::TooShort)
    );
    assert_eq!(
        VersionedEnvelope::from_bytes(&[MAGIC_BYTE, 1]),
        Err(EnvelopeError::TooShort)
    );
    assert_eq!(
        VersionedEnvelope::from_bytes(&[0, 1]),
        Err(EnvelopeError::TooShort)
    );
    assert_eq!(
        VersionedEnvelope::peek_version(&[MAGIC_BYTE]),
        Err(EnvelopeError::TooShort)
    );
    assert_eq!(VersionedEnvelope::peek_version(&[MAGIC_BYTE, 9]), Ok(9));
    assert_eq!(
        VersionedEnvelope::peek_version(&[1, 9]),
        Err(EnvelopeError::InvalidMagic(1))
    );
    let empty = VersionedEnvelope::from_bytes(&[MAGIC_BYTE, 0, 1]).unwrap();
    assert_eq!(empty.payload, Vec::<u8>::new());
    assert_eq!(empty.version, 0);
}

#[test]
fn envelope_error_messages() {
    assert_eq!(
        EnvelopeError::TooShort.to_string(),
        "data too short for version envelope"
    );
    assert_eq!(
        EnvelopeError::InvalidMagic(171).to_string(),
        "invalid magic byte: 0xAB, expected 0xCF"
    );
    assert_eq!(
        EnvelopeError::UnknownCrdtType(200).to_string(),
        "unknown CRDT type: 200"
    );
    assert_eq!(EnvelopeError::UnknownCrdtType(0).to_string(), "unknown CRDT type: 0");
    assert_eq!(
        EnvelopeError::InvalidMagic(7).to_string(),
        "invalid magic byte: 0x07, expected 0xCF"
    );
}
