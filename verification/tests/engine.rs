use crdt_kit::engine::{MigrationConfig, MigrationEngine, MigrationError, MigrationStep};

struct SimpleStep {
    from: u32,
    to: u32,
    suffix: &'static [u8],
}

impl MigrationStep for SimpleStep {
    fn source_version(&self) -> u32 {
        self.from
    }

    fn target_version(&self) -> u32 {
        self.to
    }

    fn migrate(&self, data: &[u8]) -> Result<Vec<u8>, MigrationError> {
        let mut result = data.to_vec();
        result.extend_from_slice(self.suffix);
        Ok(result)
    }
}

struct FailingStep;

impl MigrationStep for FailingStep {
    fn source_version(&self) -> u32 {
        1
    }

    fn target_version(&self) -> u32 {
        2
    }

    fn migrate(&self, _data: &[u8]) -> Result<Vec<u8>, MigrationError> {
        Err(MigrationError::Deserialization("bad bytes".to_string()))
    }
}

#[test]
fn no_migration_needed() {
    let engine = MigrationEngine::<SimpleStep>::new(1);
    let data = b"hello";
    let result = engine.migrate_to_current(data, 1).unwrap();
    assert_eq!(result, b"hello");
}

#[test]
fn single_step_migration() {
    let mut engine = MigrationEngine::new(2);
    engine.register(Box::new(SimpleStep {
        from: 1,
        to: 2,
        suffix: b"+v2",
    }));

    let result = engine.migrate_to_current(b"data", 1).unwrap();
    assert_eq!(result, b"data+v2");
}

#[test]
fn multi_step_chain() {
    let mut engine = MigrationEngine::new(4);
    engine.register(Box::new(SimpleStep {
        from: 1,
        to: 2,
        suffix: b"+v2",
    }));
    engine.register(Box::new(SimpleStep {
        from: 2,
        to: 3,
        suffix: b"+v3",
    }));
    engine.register(Box::new(SimpleStep {
        from: 3,
        to: 4,
        suffix: b"+v4",
    }));

    let result = engine.migrate_to_current(b"v1", 1).unwrap();
    assert_eq!(result, b"v1+v2+v3+v4");

    let result = engine.migrate_to_current(b"v2", 2).unwrap();
    assert_eq!(result, b"v2+v3+v4");

    let result = engine.migrate_to_current(b"v3", 3).unwrap();
    assert_eq!(result, b"v3+v4");
}

#[test]
fn future_version_error() {
    let engine = MigrationEngine::<SimpleStep>::new(2);
    let err = engine.migrate_to_current(b"data", 5).unwrap_err();
    assert_eq!(
        err,
        MigrationError::FutureVersion {
            found: 5,
            current: 2
        }
    );
}

#[test]
fn gap_in_chain_error() {
    let mut engine = MigrationEngine::new(3);
    engine.register(Box::new(SimpleStep {
        from: 1,
        to: 2,
        suffix: b"+v2",
    }));

    let err = engine.migrate_to_current(b"data", 1).unwrap_err();
    assert_eq!(err, MigrationError::GapInChain { missing: 2 });
}

#[test]
fn validate_chain_ok() {
    let mut engine = MigrationEngine::new(3);
    engine.register(Box::new(SimpleStep {
        from: 1,
        to: 2,
        suffix: b"",
    }));
    engine.register(Box::new(SimpleStep {
        from: 2,
        to: 3,
        suffix: b"",
    }));

    assert!(engine.validate_chain(1).is_ok());
}

#[test]
fn validate_chain_gap() {
    let mut engine = MigrationEngine::new(3);
    engine.register(Box::new(SimpleStep {
        from: 1,
        to: 2,
        suffix: b"",
    }));

    let err = engine.validate_chain(1).unwrap_err();
    assert_eq!(err, MigrationError::GapInChain { missing: 2 });
}

#[test]
fn needs_migration() {
    let engine = MigrationEngine::<SimpleStep>::new(3);
    assert!(engine.needs_migration(1));
    assert!(engine.needs_migration(2));
    assert!(!engine.needs_migration(3));
}

#[test]
fn registered_steps_list() {
    let mut engine = MigrationEngine::new(3);
    engine.register(Box::new(SimpleStep {
        from: 2,
        to: 3,
        suffix: b"",
    }));
    engine.register(Box::new(SimpleStep {
        from: 1,
        to: 2,
        suffix: b"",
    }));

    let steps = engine.registered_steps();
    assert_eq!(steps, vec![(1, 2), (2, 3)]);
}

#[test]
fn step_failure_carries_the_reason() {
    let mut engine = MigrationEngine::new(2);
    engine.register(Box::new(FailingStep));
    let err = engine.migrate_to_current(b"data", 1).unwrap_err();
    assert_eq!(
        err,
        MigrationError::StepFailed {
            from: 1,
            to: 2,
            reason: "deserialization error: bad bytes".to_string()
        }
    );
    assert_eq!(
        err.to_string(),
        "migration v1\u{2192}v2 failed: deserialization error: bad bytes"
    );
}

#[test]
fn first_registered_step_of_a_version_is_used() {
    let mut engine = MigrationEngine::new(2);
    engine.register(Box::new(SimpleStep {
        from: 1,
        to: 2,
        suffix: b"+first",
    }));
    engine.register(Box::new(SimpleStep {
        from: 1,
        to: 2,
        suffix: b"+second",
    }));
    assert_eq!(engine.migrate_to_current(b"x", 1).unwrap(), b"x+first");
    assert_eq!(engine.registered_steps(), vec![(1, 2), (1, 2)]);
    assert_eq!(engine.current_version(), 2);
}

#[test]
fn chain_validity_from_one() {
    let mut engine = MigrationEngine::new(4);
    assert_eq!(
        engine.validate_chain(1),
        Err(MigrationError::GapInChain { missing: 1 })
    );
    engine.register(Box::new(SimpleStep {
        from: 3,
        to: 4,
        suffix: b"",
    }));
    engine.register(Box::new(SimpleStep {
        from: 1,
        to: 2,
        suffix: b"",
    }));
    assert_eq!(
        engine.validate_chain(1),
        Err(MigrationError::GapInChain { missing: 2 })
    );
    assert!(engine.validate_chain(3).is_ok());
    assert!(engine.validate_chain(4).is_ok());
    assert!(engine.validate_chain(9).is_ok());
    engine.register(Box::new(SimpleStep {
        from: 2,
        to: 3,
        suffix: b"",
    }));
    assert!(engine.validate_chain(1).is_ok());
}

#[test]
fn migration_error_messages() {
    assert_eq!(
        MigrationError::NoPath { from: 1, to: 3 }.to_string(),
        "no migration path from v1 to v3"
    );
    assert_eq!(
        MigrationError::GapInChain { missing: 12 }.to_string(),
        "missing migration step for v12"
    );
    assert_eq!(
        MigrationError::FutureVersion {
            found: 5,
            current: 2
        }
        .to_string(),
        "data version v5 is newer than current v2"
    );
    assert_eq!(
        MigrationError::Serialization("full".to_string()).to_string(),
        "serialization error: full"
    );
    let config = MigrationConfig::default();
    assert!(config.write_back_on_read);
    assert!(!config.eager_migration);
}

#[test]
fn validate_chain_refuses_two_steps_from_one_version() {
    let mut engine = MigrationEngine::new(2);
    engine.register(Box::new(SimpleStep {
        from: 1,
        to: 2,
        suffix: b"+first",
    }));
    assert!(engine.validate_chain(1).is_ok());
    engine.register(Box::new(SimpleStep {
        from: 1,
        to: 2,
        suffix: b"+second",
    }));
    assert_eq!(engine.count_at(1), 2);
    assert_eq!(engine.count_at(2), 0);
    assert_eq!(
        engine.validate_chain(1),
        Err(MigrationError::NoPath { from: 1, to: 2 })
    );
    assert!(engine.validate_chain(2).is_ok());
    assert_eq!(engine.migrate_to_current(b"x", 1).unwrap(), b"x+first");
}

#[test]
fn validate_chain_names_the_first_fault() {
    let mut engine = MigrationEngine::new(5);
    for (from, to) in [(1, 2), (3, 4), (3, 5), (2, 3)] {
        engine.register(Box::new(SimpleStep {
            from,
            to,
            suffix: b"",
        }));
    }
    assert_eq!(
        engine.validate_chain(1),
        Err(MigrationError::NoPath { from: 3, to: 5 })
    );
    assert_eq!(
        engine.validate_chain(4),
        Err(MigrationError::GapInChain { missing: 4 })
    );
    assert!(engine.validate_chain(5).is_ok());
}

#[test]
fn steps_of_several_types_share_an_engine() {
    let mut engine: MigrationEngine = MigrationEngine::new(3);
    engine.register(Box::new(SimpleStep {
        from: 2,
        to: 3,
        suffix: b"+v3",
    }));
    engine.register(Box::new(FailingStep));
    assert!(engine.validate_chain(1).is_ok());
    assert_eq!(engine.registered_steps(), vec![(1, 2), (2, 3)]);
    assert_eq!(engine.migrate_to_current(b"x", 2).unwrap(), b"x+v3");
    assert_eq!(
        engine.migrate_to_current(b"x", 1),
        Err(MigrationError::StepFailed {
            from: 1,
            to: 2,
            reason: "deserialization error: bad bytes".to_string()
        })
    );
}
