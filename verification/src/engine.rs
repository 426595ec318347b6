//! The migration engine: a chain of single-step transforms walked from the
//! version of stored bytes up to the current version.

use crate::render::{decimal, push_decimal};
use vstd::prelude::*;
use vstd::string::StringExecFns;

verus! {

/// Why a migration failed.
#[derive(Debug, Clone, PartialEq, Eq)]
pub enum MigrationError {
    /// No path leads from one version to the other.
    NoPath { from: u32, to: u32 },
    /// A step of the chain failed.
    StepFailed { from: u32, to: u32, reason: String },
    /// The chain has no step that starts at this version.
    GapInChain { missing: u32 },
    /// The data is newer than the current version.
    FutureVersion { found: u32, current: u32 },
    /// A step could not read its input.
    Deserialization(String),
    /// A step could not write its output.
    Serialization(String),
}

/// A migration error with its texts as sequences of characters.
pub enum MigrationFailure {
    NoPath { from: u32, to: u32 },
    StepFailed { from: u32, to: u32, reason: Seq<char> },
    GapInChain { missing: u32 },
    FutureVersion { found: u32, current: u32 },
    Deserialization(Seq<char>),
    Serialization(Seq<char>),
}

impl MigrationFailure {
    /// The message of this failure.
    pub open spec fn message(self) -> Seq<char> {
        match self {
            MigrationFailure::NoPath { from, to } => "no migration path from v"@ + decimal(
                from as nat,
            ) + " to v"@ + decimal(to as nat),
            MigrationFailure::StepFailed { from, to, reason } => "migration v"@ + decimal(
                from as nat,
            ) + "\u{2192}v"@ + decimal(to as nat) + " failed: "@ + reason,
            MigrationFailure::GapInChain { missing } => "missing migration step for v"@ + decimal(
                missing as nat,
            ),
            MigrationFailure::FutureVersion { found, current } => "data version v"@ + decimal(
                found as nat,
            ) + " is newer than current v"@ + decimal(current as nat),
            MigrationFailure::Deserialization(msg) => "deserialization error: "@ + msg,
            MigrationFailure::Serialization(msg) => "serialization error: "@ + msg,
        }
    }
}

impl View for MigrationError {
    type V = MigrationFailure;

    open spec fn view(&self) -> MigrationFailure {
        match self {
            MigrationError::NoPath { from, to } => MigrationFailure::NoPath {
                from: *from,
                to: *to,
            },
            MigrationError::StepFailed { from, to, reason } => MigrationFailure::StepFailed {
                from: *from,
                to: *to,
                reason: reason@,
            },
            MigrationError::GapInChain { missing } => MigrationFailure::GapInChain {
                missing: *missing,
            },
            MigrationError::FutureVersion { found, current } => MigrationFailure::FutureVersion {
                found: *found,
                current: *current,
            },
            MigrationError::Deserialization(msg) => MigrationFailure::Deserialization(msg@),
            MigrationError::Serialization(msg) => MigrationFailure::Serialization(msg@),
        }
    }
}

impl MigrationError {
    /// Renders the error as a printable message.
    pub fn to_string(&self) -> (s: String)
        ensures
            s@ == self@.message(),
    {
        match self {
            MigrationError::NoPath { from, to } => {
                let mut s = String::from_str("no migration path from v");
                push_decimal(&mut s, *from as u64);
                s.append(" to v");
                push_decimal(&mut s, *to as u64);
                s
            },
            MigrationError::StepFailed { from, to, reason } => {
                let mut s = String::from_str("migration v");
                push_decimal(&mut s, *from as u64);
                s.append("\u{2192}v");
                push_decimal(&mut s, *to as u64);
                s.append(" failed: ");
                s.append(reason.as_str());
                s
            },
            MigrationError::GapInChain { missing } => {
                let mut s = String::from_str("missing migration step for v");
                push_decimal(&mut s, *missing as u64);
                s
            },
            MigrationError::FutureVersion { found, current } => {
                let mut s = String::from_str("data version v");
                push_decimal(&mut s, *found as u64);
                s.append(" is newer than current v");
                push_decimal(&mut s, *current as u64);
                s
            },
            MigrationError::Deserialization(msg) => {
                let mut s = String::from_str("deserialization error: ");
                s.append(msg.as_str());
                s
            },
            MigrationError::Serialization(msg) => {
                let mut s = String::from_str("serialization error: ");
                s.append(msg.as_str());
                s
            },
        }
    }
}

/// The result of a step or of a chain, with bytes and texts as sequences.
pub open spec fn outcome_view(r: Result<Vec<u8>, MigrationError>) -> Result<
    Seq<u8>,
    MigrationFailure,
> {
    match r {
        Ok(bytes) => Ok(bytes@),
        Err(e) => Err(e@),
    }
}

/// One step of a chain: a transform of serialized data from one schema version
/// to a later one.
///
/// A step is a pure function of its input bytes: two replicas that migrate the
/// same bytes get the same result. `outcome` is that function; `source` and
/// `target` are the versions that the step always reports. An implementation
/// that is not verified leaves the three unspecified.
pub trait MigrationStep: Send + Sync {
    /// The version this step reads.
    open spec fn source(&self) -> u32 {
        arbitrary()
    }

    /// The version this step writes.
    open spec fn target(&self) -> u32 {
        arbitrary()
    }

    /// What the step makes of `data`.
    open spec fn outcome(&self, data: Seq<u8>) -> Result<Seq<u8>, MigrationFailure> {
        arbitrary()
    }

    /// The version this step reads.
    fn source_version(&self) -> (v: u32)
        ensures
            v == self.source(),
    ;

    /// The version this step writes.
    fn target_version(&self) -> (v: u32)
        ensures
            v == self.target(),
    ;

    /// Transforms serialized data from the source to the target version.
    fn migrate(&self, data: &[u8]) -> (r: Result<Vec<u8>, MigrationError>)
        ensures
            outcome_view(r) == self.outcome(data@),
    ;
}

/// How reads treat data of an older version.
#[derive(Debug, Clone, Copy, PartialEq, Eq)]
pub struct MigrationConfig {
    /// Write migrated data back to the store after a read.
    pub write_back_on_read: bool,
    /// Migrate everything at startup instead of on read.
    pub eager_migration: bool,
}

impl Default for MigrationConfig {
    fn default() -> (c: Self)
        ensures
            c.write_back_on_read,
            !c.eager_migration,
    {
        Self { write_back_on_read: true, eager_migration: false }
    }
}

/// The steps of a chain, in the order in which the engine keeps them.
pub type Steps<S> = Seq<Box<S>>;

/// Whether some step starts at `version`.
pub open spec fn has_step<S: MigrationStep + ?Sized>(steps: Steps<S>, version: u32) -> bool {
    exists|i: int| 0 <= i < steps.len() && #[trigger] steps[i].source() == version
}

/// How many steps start at `version`.
pub open spec fn count_steps<S: MigrationStep + ?Sized>(steps: Steps<S>, version: u32) -> nat
    decreases steps.len(),
{
    if steps.len() == 0 {
        0
    } else {
        count_steps(steps.drop_last(), version) + if steps.last().source() == version {
            1nat
        } else {
            0nat
        }
    }
}

/// The position of the first step that starts at `version`.
pub open spec fn first_step<S: MigrationStep + ?Sized>(steps: Steps<S>, version: u32) -> int {
    choose|i: int|
        0 <= i < steps.len() && #[trigger] steps[i].source() == version && forall|j: int|
            0 <= j < i ==> #[trigger] steps[j].source() != version
}

/// Every step leads to a later version.
pub open spec fn steps_advance<S: MigrationStep + ?Sized>(steps: Steps<S>) -> bool {
    forall|i: int| 0 <= i < steps.len() ==> #[trigger] steps[i].source() < steps[i].target()
}

/// The steps stand in increasing order of source version.
pub open spec fn steps_sorted<S: MigrationStep + ?Sized>(steps: Steps<S>) -> bool {
    forall|i: int, j: int|
        0 <= i < j < steps.len() ==> #[trigger] steps[i].source() <= #[trigger] steps[j].source()
}

/// Where a step that starts at `source` goes: behind every step that starts at
/// the same or an earlier version.
#[verifier::opaque]
pub open spec fn slot_for<S: MigrationStep + ?Sized>(steps: Steps<S>, source: u32) -> int
    decreases steps.len(),
{
    if steps.len() == 0 {
        0
    } else if steps.last().source() <= source {
        steps.len() as int
    } else {
        slot_for(steps.drop_last(), source)
    }
}

/// What [`slot_for`] says of a chain, by its last step.
pub proof fn lemma_slot_unfold<S: MigrationStep + ?Sized>(steps: Steps<S>, source: u32)
    ensures
        steps.len() == 0 ==> slot_for(steps, source) == 0,
        steps.len() > 0 && steps.last().source() <= source ==> slot_for(steps, source)
            == steps.len(),
        steps.len() > 0 && steps.last().source() > source ==> slot_for(steps, source) == slot_for(
            steps.drop_last(),
            source,
        ),
{
    reveal_with_fuel(slot_for, 2);
}

/// A step inserted behind the steps that start no later, and before those
/// that start later, leaves the chain sorted and advancing.
pub proof fn lemma_insert_keeps_order<S: MigrationStep + ?Sized>(before: Steps<S>, p: int, step: Box<S>)
    requires
        steps_sorted(before),
        steps_advance(before),
        0 <= p <= before.len(),
        step.source() < step.target(),
        forall|j: int| 0 <= j < p ==> #[trigger] before[j].source() <= step.source(),
        forall|j: int| p <= j < before.len() ==> #[trigger] before[j].source() > step.source(),
    ensures
        steps_sorted(before.insert(p, step)),
        steps_advance(before.insert(p, step)),
{
    let after = before.insert(p, step);
    before.insert_ensures(p, step);
    assert forall|i: int, j: int| 0 <= i < j < after.len() implies #[trigger] after[i].source()
        <= #[trigger] after[j].source() by {
        let oi = if i < p { i } else { i - 1 };
        let oj = if j < p { j } else { j - 1 };
        if i != p {
            assert(after[i] == before[oi]);
        }
        if j != p {
            assert(after[j] == before[oj]);
        }
        if i != p && j != p {
            assert(before[oi].source() <= before[oj].source());
        } else if i == p {
            assert(before[oj].source() > step.source());
        } else {
            assert(before[oi].source() <= step.source());
        }
    }
    assert forall|i: int| 0 <= i < after.len() implies #[trigger] after[i].source()
        < after[i].target() by {
        let oi = if i < p { i } else { i - 1 };
        if i != p {
            assert(after[i] == before[oi]);
            assert(before[oi].source() < before[oi].target());
        }
    }
}

/// The result of walking the chain from `version` with `data`.
///
/// While the version is below `current`, the first step that starts at the
/// version is applied. A version without a step is a gap; a step that fails
/// ends the walk with its reason.
pub open spec fn chain_outcome<S: MigrationStep + ?Sized>(steps: Steps<S>, data: Seq<u8>, version: u32, current: u32) -> Result<
    Seq<u8>,
    MigrationFailure,
>
    decreases (if version < current { current - version } else { 0 }),
{
    if version >= current {
        Ok(data)
    } else if !has_step(steps, version) {
        Err(MigrationFailure::GapInChain { missing: version })
    } else {
        let step = steps[first_step(steps, version)];
        match step.outcome(data) {
            Err(e) => Err(
                MigrationFailure::StepFailed {
                    from: version,
                    to: step.target(),
                    reason: e.message(),
                },
            ),
            Ok(next) => if step.target() > version {
                chain_outcome(steps, next, step.target(), current)
            } else {
                Err(MigrationFailure::NoPath { from: version, to: current })
            },
        }
    }
}

/// One step of the walk, spelled out.
pub proof fn lemma_chain_unfold<S: MigrationStep + ?Sized>(steps: Steps<S>, data: Seq<u8>, version: u32, current: u32)
    ensures
        version >= current ==> chain_outcome(steps, data, version, current) == Ok::<
            Seq<u8>,
            MigrationFailure,
        >(data),
        version < current && !has_step(steps, version) ==> chain_outcome(
            steps,
            data,
            version,
            current,
        ) == Err::<Seq<u8>, MigrationFailure>(MigrationFailure::GapInChain { missing: version }),
        version < current && has_step(steps, version) ==> ({
            let step = steps[first_step(steps, version)];
            chain_outcome(steps, data, version, current) == match step.outcome(data) {
                Err(e) => Err::<Seq<u8>, MigrationFailure>(
                    MigrationFailure::StepFailed {
                        from: version,
                        to: step.target(),
                        reason: e.message(),
                    },
                ),
                Ok(next) => if step.target() > version {
                    chain_outcome(steps, next, step.target(), current)
                } else {
                    Err::<Seq<u8>, MigrationFailure>(
                        MigrationFailure::NoPath { from: version, to: current },
                    )
                },
            }
        }),
{
}

/// The result of migrating `data` of version `from` to `current`.
pub open spec fn migration_outcome<S: MigrationStep + ?Sized>(steps: Steps<S>, data: Seq<u8>, from: u32, current: u32) -> Result<
    Seq<u8>,
    MigrationFailure,
> {
    if from == current {
        Ok(data)
    } else if from > current {
        Err(MigrationFailure::FutureVersion { found: from, current })
    } else {
        chain_outcome(steps, data, from, current)
    }
}

/// The smallest version from `min` up to `current` at which not exactly one
/// step starts, if any.
pub open spec fn first_fault<S: MigrationStep + ?Sized>(steps: Steps<S>, min: u32, current: u32) -> Option<
    u32,
>
    decreases current - min,
{
    if min >= current {
        None
    } else if count_steps(steps, min) != 1 {
        Some(min)
    } else {
        first_fault(steps, (min + 1) as u32, current)
    }
}

/// What is wrong at a version at which not exactly one step starts: a gap
/// where none starts, and no one path to `current` where several do.
pub open spec fn fault_at<S: MigrationStep + ?Sized>(steps: Steps<S>, version: u32, current: u32)
    -> MigrationFailure {
    if count_steps(steps, version) == 0 {
        MigrationFailure::GapInChain { missing: version }
    } else {
        MigrationFailure::NoPath { from: version, to: current }
    }
}

/// The chain has no fault from `min` exactly if exactly one step starts at
/// every version from `min` up to `current`.
pub proof fn lemma_first_fault<S: MigrationStep + ?Sized>(steps: Steps<S>, min: u32, current: u32)
    ensures
        first_fault(steps, min, current) is None <==> forall|v: u32|
            min <= v < current ==> count_steps(steps, v) == 1,
        first_fault(steps, min, current) matches Some(g) ==> min <= g < current && count_steps(
            steps,
            g,
        ) != 1 && forall|v: u32| min <= v < g ==> count_steps(steps, v) == 1,
    decreases current - min,
{
    if min < current && count_steps(steps, min) == 1 {
        lemma_first_fault(steps, (min + 1) as u32, current);
        assert forall|v: u32| min <= v < current && first_fault(steps, min, current)
            is None implies count_steps(steps, v) == 1 by {
            if v > min {
                assert((min + 1) as u32 <= v);
            }
        }
    }
}

/// A version with a step is a version that at least one step starts at.
pub proof fn lemma_count_steps<S: MigrationStep + ?Sized>(steps: Steps<S>, version: u32)
    ensures
        has_step(steps, version) <==> count_steps(steps, version) >= 1,
    decreases steps.len(),
{
    if steps.len() > 0 {
        let front = steps.drop_last();
        lemma_count_steps(front, version);
        if has_step(steps, version) {
            let i = choose|i: int| 0 <= i < steps.len() && #[trigger] steps[i].source() == version;
            if i < steps.len() - 1 {
                assert(front[i].source() == version);
            }
        }
        if has_step(front, version) {
            let i = choose|i: int| 0 <= i < front.len() && #[trigger] front[i].source() == version;
            assert(steps[i].source() == version);
        }
        if steps.last().source() == version {
            assert(steps[steps.len() - 1].source() == version);
        }
    }
}

/// What the walk makes of the result of the step from `from` to `to`: the
/// migrated bytes, or `StepFailed` with the message of the step's error.
pub open spec fn step_outcome_of(from: u32, to: u32, result: Result<Seq<u8>, MigrationFailure>)
    -> Result<Seq<u8>, MigrationFailure> {
    match result {
        Ok(bytes) => Ok(bytes),
        Err(e) => Err(MigrationFailure::StepFailed { from, to, reason: e.message() }),
    }
}

/// Turns the result of one step into the result of the walk so far.
pub fn step_outcome(from: u32, to: u32, result: Result<Vec<u8>, MigrationError>) -> (r: Result<
    Vec<u8>,
    MigrationError,
>)
    ensures
        outcome_view(r) == step_outcome_of(from, to, outcome_view(result)),
{
    match result {
        Ok(bytes) => Ok(bytes),
        Err(e) => {
            let reason = e.to_string();
            Err(MigrationError::StepFailed { from, to, reason })
        },
    }
}

/// Walks a chain of migration steps.
pub struct MigrationEngine<S: MigrationStep + ?Sized = dyn MigrationStep> {
    current_version: u32,
    steps: Vec<Box<S>>,
}

impl<S: MigrationStep + ?Sized> MigrationEngine<S> {
    /// The version this engine migrates to.
    pub closed spec fn current(&self) -> u32 {
        self.current_version
    }

    /// The registered steps, in increasing order of source version.
    pub closed spec fn chain(&self) -> Steps<S> {
        self.steps@
    }

    /// The steps are sorted by source version and each leads to a later one.
    pub open spec fn wf(&self) -> bool {
        &&& steps_sorted(self.chain())
        &&& steps_advance(self.chain())
    }

    /// Creates an engine that migrates to `current_version`, without steps.
    pub fn new(current_version: u32) -> (e: Self)
        ensures
            e.wf(),
            e.current() == current_version,
            e.chain().len() == 0,
    {
        Self { current_version, steps: Vec::new() }
    }

    /// Finds where a step that starts at `source` goes.
    fn find_slot(&self, source: u32) -> (pos: usize)
        requires
            steps_sorted(self.steps@),
        ensures
            pos as int == slot_for(self.steps@, source),
            pos <= self.steps@.len(),
            forall|j: int| 0 <= j < pos ==> #[trigger] self.steps@[j].source() <= source,
            forall|j: int| pos <= j < self.steps@.len() ==> #[trigger] self.steps@[j].source() > source,
    {
        let mut pos: usize = self.steps.len();
        assert(self.steps@.take(pos as int) =~= self.steps@);
        while pos > 0 && self.steps[pos - 1].source_version() > source
            invariant
                pos <= self.steps@.len(),
                slot_for(self.steps@, source) == slot_for(self.steps@.take(pos as int), source),
                forall|j: int| pos <= j < self.steps@.len() ==> #[trigger] self.steps@[j].source() > source,
            decreases pos,
        {
            proof {
                let front = self.steps@.take(pos as int);
                assert(front.last() == self.steps@[pos - 1]);
                assert(front.drop_last() =~= self.steps@.take(pos - 1));
                lemma_slot_unfold(front, source);
            }
            pos -= 1;
        }
        proof {
            let all = self.steps@;
            let front = all.take(pos as int);
            lemma_slot_unfold(front, source);
            if pos > 0 {
                assert(front.last() == all[pos - 1]);
                assert(all[pos - 1].source() <= source);
            }
            assert forall|j: int| 0 <= j < pos implies #[trigger] all[j].source() <= source by {
                if j < pos - 1 {
                    assert(all[j].source() <= all[pos - 1].source());
                }
            }
        }
        pos
    }

    /// Registers a step, behind the steps that start at the same or an earlier
    /// version.
    pub fn register(&mut self, step: Box<S>)
        requires
            old(self).wf(),
            step.source() < step.target(),
        ensures
            final(self).wf(),
            final(self).current() == old(self).current(),
            final(self).chain() == old(self).chain().insert(
                slot_for(old(self).chain(), step.source()),
                step,
            ),
            0 <= slot_for(old(self).chain(), step.source()) <= old(self).chain().len(),
    {
        let source = step.source_version();
        let pos = self.find_slot(source);
        let ghost before = self.steps@;
        self.steps.insert(pos, step);
        proof {
            lemma_insert_keeps_order(before, pos as int, step);
        }
    }

    /// The version this engine migrates to.
    pub fn current_version(&self) -> (v: u32)
        ensures
            v == self.current(),
    {
        self.current_version
    }

    /// Whether data of `data_version` differs from the current version.
    pub fn needs_migration(&self, data_version: u32) -> (b: bool)
        ensures
            b == (data_version != self.current()),
    {
        data_version != self.current_version
    }

    /// Finds the first step that starts at `version`.
    fn find_step(&self, version: u32) -> (r: Option<usize>)
        ensures
            r is Some <==> has_step(self.chain(), version),
            r matches Some(i) ==> i as int == first_step(self.chain(), version) && i
                < self.chain().len() && self.chain()[i as int].source() == version,
    {
        let mut i: usize = 0;
        while i < self.steps.len()
            invariant
                i <= self.steps@.len(),
                forall|j: int| 0 <= j < i ==> #[trigger] self.steps@[j].source() != version,
            decreases self.steps@.len() - i,
        {
            if self.steps[i].source_version() == version {
                proof {
                    let f = first_step(self.steps@, version);
                    if f < i {
                        assert(self.steps@[f].source() != version);
                    }
                    if f > i {
                        assert(self.steps@[i as int].source() != version);
                    }
                }
                return Some(i);
            }
            i += 1;
        }
        None
    }

    /// Applies the first step that starts at `version`.
    fn walk_one(&self, data: &Vec<u8>, version: u32) -> (r: Result<(Vec<u8>, u32), MigrationError>)
        requires
            self.wf(),
            version < self.current(),
        ensures
            match r {
                Ok((next, target)) => version < target && chain_outcome(
                    self.chain(),
                    data@,
                    version,
                    self.current(),
                ) == chain_outcome(self.chain(), next@, target, self.current()),
                Err(e) => chain_outcome(self.chain(), data@, version, self.current()) == Err::<
                    Seq<u8>,
                    MigrationFailure,
                >(e@),
            },
    {
        proof {
            lemma_chain_unfold(self.chain(), data@, version, self.current());
        }
        let idx = match self.find_step(version) {
            Some(i) => i,
            None => {
                return Err(MigrationError::GapInChain { missing: version });
            },
        };
        let target = self.steps[idx].target_version();
        let step_result = self.steps[idx].migrate(data.as_slice());
        assert(self.chain()[idx as int].source() < self.chain()[idx as int].target());
        match step_outcome(version, target, step_result) {
            Ok(next) => Ok((next, target)),
            Err(e) => Err(e),
        }
    }

    /// Migrates `data` from `from_version` to the current version.
    ///
    /// Data of the current version is returned unchanged; data of a later
    /// version is refused as `FutureVersion`. Otherwise the step that starts at
    /// the version reached so far is applied until the current version is
    /// reached; a version without a step gives `GapInChain`, a failing step
    /// `StepFailed` with the step's message as reason.
    pub fn migrate_to_current(&self, data: &[u8], from_version: u32) -> (r: Result<
        Vec<u8>,
        MigrationError,
    >)
        requires
            self.wf(),
        ensures
            outcome_view(r) == migration_outcome(
                self.chain(),
                data@,
                from_version,
                self.current(),
            ),
    {
        let mut current_data: Vec<u8> = Vec::new();
        let mut k: usize = 0;
        while k < data.len()
            invariant
                k <= data@.len(),
                current_data@ == data@.subrange(0, k as int),
            decreases data@.len() - k,
        {
            current_data.push(data[k]);
            k += 1;
            assert(current_data@ =~= data@.subrange(0, k as int));
        }
        assert(current_data@ =~= data@);
        if from_version == self.current_version {
            return Ok(current_data);
        }
        if from_version > self.current_version {
            return Err(
                MigrationError::FutureVersion { found: from_version, current: self.current_version },
            );
        }
        let mut version = from_version;
        let ghost goal = migration_outcome(self.chain(), data@, from_version, self.current());
        while version < self.current_version
            invariant
                self.wf(),
                goal == migration_outcome(self.chain(), data@, from_version, self.current()),
                chain_outcome(self.chain(), current_data@, version, self.current()) == goal,
            decreases (if version < self.current_version { self.current_version - version } else { 0 }),
        {
            match self.walk_one(&current_data, version) {
                Ok((next, target)) => {
                    current_data = next;
                    version = target;
                },
                Err(e) => {
                    return Err(e);
                },
            }
        }
        proof {
            lemma_chain_unfold(self.chain(), current_data@, version, self.current());
        }
        Ok(current_data)
    }

    /// Counts the steps that start at `version`.
    pub fn count_at(&self, version: u32) -> (n: usize)
        ensures
            n == count_steps(self.chain(), version),
    {
        let mut n: usize = 0;
        let mut i: usize = 0;
        while i < self.steps.len()
            invariant
                i <= self.steps@.len(),
                n <= i,
                n == count_steps(self.steps@.take(i as int), version),
            decreases self.steps@.len() - i,
        {
            proof {
                assert(self.steps@.take(i + 1).drop_last() =~= self.steps@.take(i as int));
            }
            if self.steps[i].source_version() == version {
                n += 1;
            }
            i += 1;
        }
        proof {
            assert(self.steps@.take(i as int) =~= self.steps@);
        }
        n
    }

    /// Checks that exactly one step starts at every version from
    /// `min_version` up to the current one, without running any step. The
    /// error names the first version where that fails: a gap where no step
    /// starts there, no path where several do.
    pub fn validate_chain(&self, min_version: u32) -> (r: Result<(), MigrationError>)
        ensures
            r is Ok <==> forall|v: u32|
                min_version <= v < self.current() ==> count_steps(self.chain(), v) == 1,
            r matches Err(e) ==> first_fault(self.chain(), min_version, self.current()) matches Some(
                g,
            ) && e@ == fault_at(self.chain(), g, self.current()),
    {
        let mut version = min_version;
        while version < self.current_version
            invariant
                first_fault(self.chain(), version, self.current()) == first_fault(
                    self.chain(),
                    min_version,
                    self.current(),
                ),
            decreases self.current_version - version,
        {
            let n = self.count_at(version);
            if n != 1 {
                proof {
                    lemma_first_fault(self.chain(), min_version, self.current());
                }
                if n == 0 {
                    return Err(MigrationError::GapInChain { missing: version });
                }
                return Err(MigrationError::NoPath { from: version, to: self.current_version });
            }
            version += 1;
        }
        proof {
            lemma_first_fault(self.chain(), min_version, self.current());
        }
        Ok(())
    }

    /// The registered steps as pairs of source and target version, in
    /// increasing order of source.
    pub fn registered_steps(&self) -> (r: Vec<(u32, u32)>)
        ensures
            r@.len() == self.chain().len(),
            forall|i: int|
                0 <= i < r@.len() ==> #[trigger] r@[i] == (
                    self.chain()[i].source(),
                    self.chain()[i].target(),
                ),
    {
        let mut out: Vec<(u32, u32)> = Vec::new();
        let mut i: usize = 0;
        while i < self.steps.len()
            invariant
                i <= self.steps@.len(),
                out@.len() == i,
                forall|j: int|
                    0 <= j < i ==> #[trigger] out@[j] == (
                        self.steps@[j].source(),
                        self.steps@[j].target(),
                    ),
            decreases self.steps@.len() - i,
        {
            let s = self.steps[i].source_version();
            let t = self.steps[i].target_version();
            out.push((s, t));
            i += 1;
        }
        out
    }
}

/// The chain is valid from version 1 exactly if exactly one step starts at
/// each version from 1 up to the current one. A valid chain has a step to
/// walk at each of these versions.
pub proof fn lemma_chain_validity<S: MigrationStep + ?Sized>(engine: &MigrationEngine<S>)
    ensures
        first_fault(engine.chain(), 1, engine.current()) is None <==> forall|v: u32|
            1 <= v < engine.current() ==> count_steps(engine.chain(), v) == 1,
        first_fault(engine.chain(), 1, engine.current()) is None ==> forall|v: u32|
            1 <= v < engine.current() ==> has_step(engine.chain(), v),
{
    lemma_first_fault(engine.chain(), 1, engine.current());
    assert forall|v: u32| has_step(engine.chain(), v) <==> count_steps(engine.chain(), v)
        >= 1 by {
        lemma_count_steps(engine.chain(), v);
    }
}

} // verus!
