//! The sync backends behind one seam: the one that is used, and one with a script.

use crate::fileshare::{started, SyncCycle};
use crate::ipc::{SyncFolderConfig, SyncResolution, SyncStrategy};
use crate::probe::{nothing_found, GitLocator, GitProbe, Probe, ProbeStage};
use crate::sync::{SyncError, SyncOutcome, SyncProbe};
use vstd::prelude::*;

verus! {

/// One sync strategy. A backend keeps nothing between folders.
pub trait SyncBackend {
    /// The strategy that it implements.
    spec fn serves(&self) -> SyncStrategy;

    /// The strategy that it implements.
    fn strategy(&self) -> (r: SyncStrategy)
        ensures
            r == self.serves(),
    ;

    /// Inspects a folder without changing it.
    fn probe(&self, folder: &str, cfg: &SyncFolderConfig) -> (r: Result<GitProbe, SyncError>);

    /// Starts a sync cycle.
    fn sync(&self, folder: &str, cfg: &SyncFolderConfig) -> (r: Result<SyncCycle, SyncError>);

    /// Starts the resolution of a paused conflict.
    fn resolve(&self, folder: &str, cfg: &SyncFolderConfig, how: SyncResolution) -> (r: Result<
        SyncCycle,
        SyncError,
    >);
}

/// The Dolt backend, which is not implemented: it refuses every operation.
pub struct DoltBackend;

impl SyncBackend for DoltBackend {
    open spec fn serves(&self) -> SyncStrategy {
        SyncStrategy::Dolt
    }

    fn strategy(&self) -> (r: SyncStrategy) {
        SyncStrategy::Dolt
    }

    fn probe(&self, folder: &str, cfg: &SyncFolderConfig) -> (r: Result<GitProbe, SyncError>)
        ensures
            r == Err::<GitProbe, SyncError>(SyncError::Unsupported(SyncStrategy::Dolt)),
    {
        Err(SyncError::Unsupported(SyncStrategy::Dolt))
    }

    fn sync(&self, folder: &str, cfg: &SyncFolderConfig) -> (r: Result<SyncCycle, SyncError>)
        ensures
            r == Err::<SyncCycle, SyncError>(SyncError::Unsupported(SyncStrategy::Dolt)),
    {
        Err(SyncError::Unsupported(SyncStrategy::Dolt))
    }

    fn resolve(&self, folder: &str, cfg: &SyncFolderConfig, how: SyncResolution) -> (r: Result<
        SyncCycle,
        SyncError,
    >)
        ensures
            r == Err::<SyncCycle, SyncError>(SyncError::Unsupported(SyncStrategy::Dolt)),
    {
        Err(SyncError::Unsupported(SyncStrategy::Dolt))
    }
}

/// A probe at its start.
pub open spec fn probe_started(folder: Seq<char>, cfg: SyncFolderConfig) -> Probe {
    Probe {
        folder,
        branch: cfg.branch@,
        stage: ProbeStage::Opening,
        upstream: Seq::empty(),
        found: nothing_found(),
    }
}

/// Syncs a folder by treating its git repository as a fileshare.
pub struct GitFileshareBackend {
    pub git: GitLocator,
}

impl GitFileshareBackend {
    /// A backend over a git binary.
    pub fn new(git: GitLocator) -> (r: Self)
        ensures
            r.git == git,
    {
        GitFileshareBackend { git }
    }
}

impl SyncBackend for GitFileshareBackend {
    open spec fn serves(&self) -> SyncStrategy {
        SyncStrategy::Git
    }

    fn strategy(&self) -> (r: SyncStrategy) {
        SyncStrategy::Git
    }

    fn probe(&self, folder: &str, cfg: &SyncFolderConfig) -> (r: Result<GitProbe, SyncError>)
        ensures
            r is Ok,
            r matches Ok(p) ==> p@ == probe_started(folder@, *cfg),
    {
        Ok(GitProbe::new(folder, cfg))
    }

    fn sync(&self, folder: &str, cfg: &SyncFolderConfig) -> (r: Result<SyncCycle, SyncError>)
        ensures
            r is Ok,
            r matches Ok(c) ==> c@ == started(folder@, *cfg, None),
    {
        Ok(SyncCycle::sync(folder, cfg))
    }

    fn resolve(&self, folder: &str, cfg: &SyncFolderConfig, how: SyncResolution) -> (r: Result<
        SyncCycle,
        SyncError,
    >)
        ensures
            r is Ok,
            r matches Ok(c) ==> c@ == started(folder@, *cfg, Some(how)),
    {
        Ok(SyncCycle::resolve(folder, cfg, how))
    }
}

/// What syncs the folders of a workspace. What a probe or a cycle is, is left to it.
pub trait Syncer {
    type Look;

    type Run;

    /// Whether it can be called.
    spec fn ready(&self) -> bool;

    /// A short identifier.
    fn name(&self) -> (r: &str);

    /// Inspects a folder.
    fn probe(&mut self, folder: &str, cfg: &SyncFolderConfig) -> (r: Result<Self::Look, SyncError>)
        requires
            old(self).ready(),
    ;

    /// Runs a sync cycle.
    fn sync(&mut self, folder: &str, cfg: &SyncFolderConfig) -> (r: Result<Self::Run, SyncError>)
        requires
            old(self).ready(),
    ;

    /// Resolves a paused conflict.
    fn resolve(&mut self, folder: &str, cfg: &SyncFolderConfig, how: SyncResolution) -> (r: Result<
        Self::Run,
        SyncError,
    >)
        requires
            old(self).ready(),
    ;
}

/// The syncer that is used: a backend for each strategy.
pub struct DefaultSyncer {
    pub git: GitFileshareBackend,
    pub dolt: DoltBackend,
}

impl DefaultSyncer {
    /// The default backends, over plain `git`.
    pub fn new() -> (r: Self)
        ensures
            r.git.git.bin@ == "git"@,
    {
        Self::with_git(GitLocator::resolved(None))
    }

    /// The default backends, over a git binary.
    pub fn with_git(git: GitLocator) -> (r: Self)
        ensures
            r.git.git == git,
    {
        DefaultSyncer { git: GitFileshareBackend::new(git), dolt: DoltBackend }
    }
}

impl Default for DefaultSyncer {
    fn default() -> (r: Self)
        ensures
            r.git.git.bin@ == "git"@,
    {
        Self::new()
    }
}

impl Syncer for DefaultSyncer {
    type Look = GitProbe;

    type Run = SyncCycle;

    open spec fn ready(&self) -> bool {
        true
    }

    fn name(&self) -> (r: &str)
        ensures
            r@ == "default"@,
    {
        "default"
    }

    fn probe(&mut self, folder: &str, cfg: &SyncFolderConfig) -> (r: Result<GitProbe, SyncError>)
        ensures
            *final(self) == *old(self),
            match cfg.strategy {
                SyncStrategy::Git => r matches Ok(p) && p@ == probe_started(folder@, *cfg),
                SyncStrategy::Dolt => r == Err::<GitProbe, SyncError>(
                    SyncError::Unsupported(SyncStrategy::Dolt),
                ),
            },
    {
        match cfg.strategy {
            SyncStrategy::Git => self.git.probe(folder, cfg),
            SyncStrategy::Dolt => self.dolt.probe(folder, cfg),
        }
    }

    fn sync(&mut self, folder: &str, cfg: &SyncFolderConfig) -> (r: Result<SyncCycle, SyncError>)
        ensures
            *final(self) == *old(self),
            match cfg.strategy {
                SyncStrategy::Git => r matches Ok(c) && c@ == started(folder@, *cfg, None),
                SyncStrategy::Dolt => r == Err::<SyncCycle, SyncError>(
                    SyncError::Unsupported(SyncStrategy::Dolt),
                ),
            },
    {
        match cfg.strategy {
            SyncStrategy::Git => self.git.sync(folder, cfg),
            SyncStrategy::Dolt => self.dolt.sync(folder, cfg),
        }
    }

    fn resolve(&mut self, folder: &str, cfg: &SyncFolderConfig, how: SyncResolution) -> (r: Result<
        SyncCycle,
        SyncError,
    >)
        ensures
            *final(self) == *old(self),
            match cfg.strategy {
                SyncStrategy::Git => r matches Ok(c) && c@ == started(folder@, *cfg, Some(how)),
                SyncStrategy::Dolt => r == Err::<SyncCycle, SyncError>(
                    SyncError::Unsupported(SyncStrategy::Dolt),
                ),
            },
    {
        match cfg.strategy {
            SyncStrategy::Git => self.git.resolve(folder, cfg, how),
            SyncStrategy::Dolt => self.dolt.resolve(folder, cfg, how),
        }
    }
}

/// A syncer that gives outcomes in the order they were scripted, and counts its calls.
pub struct MockSyncer {
    /// The outcomes still to come.
    pub sync_outcomes: Vec<SyncOutcome>,
    pub probes: usize,
    pub syncs: usize,
    pub resolves: usize,
}

impl Default for MockSyncer {
    fn default() -> (r: Self)
        ensures
            r.sync_outcomes@.len() == 0,
            r.probes == 0,
            r.syncs == 0,
            r.resolves == 0,
    {
        MockSyncer { sync_outcomes: Vec::new(), probes: 0, syncs: 0, resolves: 0 }
    }
}

/// The outcome that a `sync` gives of those still to come: the first, and with none left that
/// all is up to date.
pub open spec fn next_outcome(queue: Seq<SyncOutcome>) -> SyncOutcome {
    if queue.len() > 0 {
        queue[0]
    } else {
        SyncOutcome::UpToDate
    }
}

/// The outcomes that are left after a `sync`.
pub open spec fn later_outcomes(queue: Seq<SyncOutcome>) -> Seq<SyncOutcome> {
    if queue.len() > 0 {
        queue.drop_first()
    } else {
        queue
    }
}

/// The outcomes that are left after a number of `sync` calls.
pub open spec fn outcomes_after(queue: Seq<SyncOutcome>, n: nat) -> Seq<SyncOutcome>
    decreases n,
{
    if n == 0 {
        queue
    } else {
        later_outcomes(outcomes_after(queue, (n - 1) as nat))
    }
}

impl MockSyncer {
    /// Queues the outcome of a `sync`: the first that is queued comes first, and with none
    /// left all is up to date.
    pub fn script_sync(&mut self, outcome: SyncOutcome)
        ensures
            final(self).sync_outcomes@ == old(self).sync_outcomes@.push(outcome),
            final(self).probes == old(self).probes,
            final(self).syncs == old(self).syncs,
            final(self).resolves == old(self).resolves,
    {
        self.sync_outcomes.push(outcome);
    }

    /// How many times `probe` has been called.
    pub fn probe_calls(&self) -> (r: usize)
        ensures
            r == self.probes,
    {
        self.probes
    }

    /// How many times `sync` has been called.
    pub fn sync_calls(&self) -> (r: usize)
        ensures
            r == self.syncs,
    {
        self.syncs
    }

    /// How many times `resolve` has been called.
    pub fn resolve_calls(&self) -> (r: usize)
        ensures
            r == self.resolves,
    {
        self.resolves
    }
}

impl Syncer for MockSyncer {
    type Look = SyncProbe;

    type Run = SyncOutcome;

    open spec fn ready(&self) -> bool {
        self.probes < usize::MAX && self.syncs < usize::MAX && self.resolves < usize::MAX
    }

    fn name(&self) -> (r: &str)
        ensures
            r@ == "mock"@,
    {
        "mock"
    }

    fn probe(&mut self, folder: &str, cfg: &SyncFolderConfig) -> (r: Result<SyncProbe, SyncError>)
        ensures
            final(self).sync_outcomes == old(self).sync_outcomes,
            final(self).probes == old(self).probes + 1,
            final(self).syncs == old(self).syncs,
            final(self).resolves == old(self).resolves,
            r matches Ok(p) && p.manageable && p.has_remote && (p.branch matches Some(b) && b@
                == "main"@) && p.ahead == 0 && p.behind == 0 && !p.conflicted && p.detail is None,
    {
        self.probes = self.probes + 1;
        Ok(
            SyncProbe {
                manageable: true,
                has_remote: true,
                branch: Some("main".to_owned()),
                ahead: 0,
                behind: 0,
                conflicted: false,
                detail: None,
            },
        )
    }

    fn sync(&mut self, folder: &str, cfg: &SyncFolderConfig) -> (r: Result<SyncOutcome, SyncError>)
        ensures
            final(self).probes == old(self).probes,
            final(self).syncs == old(self).syncs + 1,
            final(self).resolves == old(self).resolves,
            r matches Ok(outcome) && outcome == next_outcome(old(self).sync_outcomes@),
            final(self).sync_outcomes@ == later_outcomes(old(self).sync_outcomes@),
    {
        self.syncs = self.syncs + 1;
        if self.sync_outcomes.len() > 0 {
            let first = self.sync_outcomes.remove(0);
            assert(self.sync_outcomes@ =~= old(self).sync_outcomes@.drop_first());
            Ok(first)
        } else {
            Ok(SyncOutcome::UpToDate)
        }
    }

    fn resolve(&mut self, folder: &str, cfg: &SyncFolderConfig, how: SyncResolution) -> (r: Result<
        SyncOutcome,
        SyncError,
    >)
        ensures
            final(self).sync_outcomes == old(self).sync_outcomes,
            final(self).probes == old(self).probes,
            final(self).syncs == old(self).syncs,
            final(self).resolves == old(self).resolves + 1,
            r == Ok::<SyncOutcome, SyncError>(SyncOutcome::UpToDate),
    {
        self.resolves = self.resolves + 1;
        Ok(SyncOutcome::UpToDate)
    }
}

// -------------------------------------------------------------------------- laws

proof fn lemma_outcomes_after(queue: Seq<SyncOutcome>, n: nat)
    ensures
        outcomes_after(queue, n) == queue.skip(
            if n < queue.len() {
                n as int
            } else {
                queue.len() as int
            },
        ),
    decreases n,
{
    if n > 0 {
        lemma_outcomes_after(queue, (n - 1) as nat);
        if n <= queue.len() {
            assert(queue.skip(n - 1).drop_first() =~= queue.skip(n as int));
        }
    } else {
        assert(queue.skip(0) =~= queue);
    }
}

/// Outcomes come in the order in which they were queued: a newly queued one comes after all
/// that were queued before it, and behind it everything is up to date.
pub proof fn queued_outcomes_come_in_order(queue: Seq<SyncOutcome>, outcome: SyncOutcome, n: nat)
    ensures
        next_outcome(outcomes_after(queue.push(outcome), n)) == if n < queue.len() {
            queue[n as int]
        } else if n == queue.len() {
            outcome
        } else {
            SyncOutcome::UpToDate
        },
{
    lemma_outcomes_after(queue.push(outcome), n);
}

} // verus!
