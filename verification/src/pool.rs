use vstd::prelude::*;

verus! {

/// The lifecycle stage of a lazily initialized, memoized connection pool.
#[derive(Debug, Clone, Copy, PartialEq, Eq)]
pub enum PoolPhase {
    /// No pool is held; the next acquire must build one.
    Uninitialized,
    /// A pool is held and migrated; acquires hand out connections.
    Ready,
}

/// The stage at which providing a connection failed, as surfaced to callers.
#[derive(Debug, Clone, Copy, PartialEq, Eq)]
pub enum PoolFailure {
    /// Building the pool failed while opening its first connection.
    PoolInitConnection,
    /// Building the pool failed while running the schema migrations.
    PoolInitMigration,
    /// Handing a connection out of a ready pool failed.
    Connection,
}

/// What the surrounding runtime must do for one acquire request.
#[derive(Debug, Clone, Copy, PartialEq, Eq)]
pub enum PoolStep {
    /// Build a fresh pool; run the schema migrations first when asked to.
    Initialize { run_migrations: bool },
    /// Hand a connection out of the pool already held.
    HandOut,
}

/// The outcome the runtime reports back after an initialization attempt.
#[derive(Debug, Clone, Copy, PartialEq, Eq)]
pub enum InitOutcome {
    /// The pool was built and any migrations ran through.
    Connected,
    /// No connection could be opened; nothing was kept.
    ConnectionFailed,
    /// The migrations failed; the pool was discarded.
    MigrationFailed,
}

/// The decision core of a lazily initialized database pool: which action each
/// acquire requires, how initialization outcomes change the held state, and
/// what a reset discards. The runtime around it performs the actions (opening
/// connections, running migrations) and reports their outcomes back.
///
/// Migrations, when configured, run exactly once per pool lifetime: only an
/// acquire in the uninitialized phase asks for them, and a successful
/// initialization leaves the ready phase, where acquires only hand out.
#[derive(Debug, Clone, Copy)]
pub struct PoolLifecycle {
    phase: PoolPhase,
    has_migrations: bool,
}

impl PoolLifecycle {
    /// The current lifecycle stage.
    pub closed spec fn spec_phase(&self) -> PoolPhase {
        self.phase
    }

    /// Whether schema migrations are configured.
    pub closed spec fn spec_has_migrations(&self) -> bool {
        self.has_migrations
    }

    /// What the state after a reset is: uninitialized, configuration kept,
    /// everything else forgotten.
    pub closed spec fn spec_reset(self) -> PoolLifecycle {
        PoolLifecycle { phase: PoolPhase::Uninitialized, has_migrations: self.has_migrations }
    }

    /// The action an acquire requires in the current state.
    pub open spec fn spec_step(&self) -> PoolStep {
        match self.spec_phase() {
            PoolPhase::Uninitialized => PoolStep::Initialize {
                run_migrations: self.spec_has_migrations(),
            },
            PoolPhase::Ready => PoolStep::HandOut,
        }
    }

    /// What the state after an initialization outcome is: ready on success,
    /// unchanged (so the next acquire retries) on failure.
    pub closed spec fn spec_after_init(self, outcome: InitOutcome) -> PoolLifecycle {
        match outcome {
            InitOutcome::Connected => PoolLifecycle {
                phase: PoolPhase::Ready,
                has_migrations: self.has_migrations,
            },
            InitOutcome::ConnectionFailed => self,
            InitOutcome::MigrationFailed => self,
        }
    }

    /// Start a lifecycle with no pool held.
    pub fn new(has_migrations: bool) -> (r: Self)
        ensures
            r.spec_phase() == PoolPhase::Uninitialized,
            r.spec_has_migrations() == has_migrations,
    {
        PoolLifecycle { phase: PoolPhase::Uninitialized, has_migrations }
    }

    /// Decide what an acquire request needs in the current state.
    pub fn on_acquire(&self) -> (step: PoolStep)
        ensures
            step == self.spec_step(),
    {
        match self.phase {
            PoolPhase::Uninitialized => PoolStep::Initialize {
                run_migrations: self.has_migrations,
            },
            PoolPhase::Ready => PoolStep::HandOut,
        }
    }

    /// Record the outcome of an initialization attempt: success makes the
    /// pool ready; a failure keeps the lifecycle uninitialized, names the
    /// failed stage, and lets a later acquire try again.
    pub fn on_init_outcome(&mut self, outcome: InitOutcome) -> (r: Result<(), PoolFailure>)
        requires
            old(self).spec_phase() == PoolPhase::Uninitialized,
        ensures
            *final(self) == old(self).spec_after_init(outcome),
            final(self).spec_has_migrations() == old(self).spec_has_migrations(),
            match outcome {
                InitOutcome::Connected => final(self).spec_phase() == PoolPhase::Ready
                    && r == Ok::<(), PoolFailure>(()),
                InitOutcome::ConnectionFailed => final(self).spec_phase()
                    == PoolPhase::Uninitialized
                    && r == Err::<(), PoolFailure>(PoolFailure::PoolInitConnection),
                InitOutcome::MigrationFailed => final(self).spec_phase()
                    == PoolPhase::Uninitialized
                    && r == Err::<(), PoolFailure>(PoolFailure::PoolInitMigration),
            },
    {
        match outcome {
            InitOutcome::Connected => {
                self.phase = PoolPhase::Ready;
                Ok(())
            }
            InitOutcome::ConnectionFailed => Err(PoolFailure::PoolInitConnection),
            InitOutcome::MigrationFailed => Err(PoolFailure::PoolInitMigration),
        }
    }

    /// Interpret the outcome of handing a connection out of a ready pool;
    /// the held state is unaffected either way.
    pub fn on_handout_outcome(&self, ok: bool) -> (r: Result<(), PoolFailure>)
        ensures
            ok ==> r == Ok::<(), PoolFailure>(()),
            !ok ==> r == Err::<(), PoolFailure>(PoolFailure::Connection),
    {
        if ok {
            Ok(())
        } else {
            Err(PoolFailure::Connection)
        }
    }

    /// Discard the held pool: the next acquire rebuilds it from scratch,
    /// migrations included. Connections already handed out are unaffected.
    pub fn reset(&mut self)
        ensures
            *final(self) == old(self).spec_reset(),
            final(self).spec_phase() == PoolPhase::Uninitialized,
            final(self).spec_has_migrations() == old(self).spec_has_migrations(),
    {
        self.phase = PoolPhase::Uninitialized;
    }
}

/// Law: a reset erases all history, so any two lifecycles with the same
/// migration configuration agree after it; the acquire that follows a reset
/// always initializes afresh, running the migrations exactly when configured;
/// and once that one initialization succeeds, every further acquire only
/// hands a connection out — the migrations are not run again.
pub proof fn lemma_reset_runs_migrations_once(a: PoolLifecycle, b: PoolLifecycle)
    ensures
        a.spec_has_migrations() == b.spec_has_migrations() ==> a.spec_reset() == b.spec_reset(),
        a.spec_reset().spec_step() == (PoolStep::Initialize {
            run_migrations: a.spec_has_migrations(),
        }),
        a.spec_reset().spec_after_init(InitOutcome::Connected).spec_step() == PoolStep::HandOut,
{
}

} // verus!
