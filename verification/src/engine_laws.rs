//! What the engine's answers come to: what is asked of the workers of a workspace, and that no
//! other workspace is touched.

use crate::autosync::SyncTriggers;
use crate::engine::{
    asked_view, at_depth, opened_with, sync_was_set, Asked, CoreError, Engine, WorkspaceHandle,
};
use crate::enriching::EnrichJob;
use crate::events::Status;
use crate::ipc::SyncFolderConfig;
use crate::kb::{Kb, KbProvider};
use crate::sorted::SortedMap;
use crate::workspace::{sync_configuration_is_what_was_set, Workspace};
use vstd::prelude::*;

verus! {

/// A folder whose sync was enabled is configured as was said, known to be syncing, and asked to
/// be synced once the configurations have been read again; one whose sync was disabled is not
/// configured any more, and nothing is known of it. Other folders stay as they were.
pub proof fn setting_a_sync_asks_for_it<K: Kb>(
    before: WorkspaceHandle<K>,
    after: WorkspaceHandle<K>,
    wid: Seq<char>,
    cfg: SyncFolderConfig,
    other: SyncFolderConfig,
)
    requires
        sync_was_set(before, after, wid, cfg),
        other.folder@ != cfg.folder@,
    ensures
        ({
            let was = asked_view(before.sync_jobs@);
            let now = asked_view(after.sync_jobs@);
            &&& cfg.enabled ==> {
                &&& after.sync.cfgs@.contains(cfg)
                &&& after.sync@.state.dom().contains(cfg.folder@)
                &&& after.sync@.state[cfg.folder@].status == Status::Syncing
                &&& now.len() == was.len() + 2
                &&& now[was.len() as int] == Asked::ReloadConfigs
                &&& now.last() == Asked::SyncNow(cfg.folder@)
            }
            &&& !cfg.enabled ==> {
                &&& !after.sync@.state.dom().contains(cfg.folder@)
                &&& now == was.push(Asked::ReloadConfigs)
            }
            &&& !cfg.enabled ==> forall|c: SyncFolderConfig|
                c.folder@ == cfg.folder@ ==> !after.sync.cfgs@.contains(c)
            &&& after.sync.cfgs@.contains(other) == before.sync.cfgs@.contains(other)
            &&& after.sync@.state.dom().contains(other.folder@)
                == before.sync@.state.dom().contains(other.folder@)
            &&& after.kb == before.kb
        }),
{
    sync_configuration_is_what_was_set(before.sync.cfgs@, cfg, cfg);
    sync_configuration_is_what_was_set(before.sync.cfgs@, cfg, other);
    assert forall|c: SyncFolderConfig| !cfg.enabled && c.folder@ == cfg.folder@ implies !(
    #[trigger] after.sync.cfgs@.contains(c)) by {
        sync_configuration_is_what_was_set(before.sync.cfgs@, cfg, c);
    }
}

/// What is asked of the sync worker or the enrichment worker of an open workspace stands behind
/// all that was asked before, and nothing else changes; of one that is not open it is refused.
pub proof fn jobs_are_asked_in_order<P: KbProvider>(
    before: Engine<P>,
    after: Engine<P>,
    id: Seq<char>,
    other: Seq<char>,
    job: Asked,
    enrich: EnrichJob,
    r: Result<(), CoreError>,
)
    requires
        other != id,
    ensures
        after.asked_sync(&before, id, job, r) && before.handle(id) is Some ==> {
            let was = before.handle(id)->0;
            let now = after.handle(id)->0;
            &&& r is Ok && after.handle(id) is Some
            &&& asked_view(now.sync_jobs@) == asked_view(was.sync_jobs@).push(job)
            &&& now.kb == was.kb && now.signals == was.signals && now.sync == was.sync
            &&& now.enrich_jobs == was.enrich_jobs && now.enrich_cfg == was.enrich_cfg
            &&& after.handle(other) == before.handle(other)
        },
        after.asked_enrich(&before, id, enrich, r) && before.handle(id) is Some ==> {
            let was = before.handle(id)->0;
            let now = after.handle(id)->0;
            &&& r is Ok && after.handle(id) is Some
            &&& now.enrich_jobs@ == was.enrich_jobs@.push(enrich)
            &&& now.kb == was.kb && now.signals == was.signals && now.sync == was.sync
            &&& now.sync_jobs == was.sync_jobs && now.enrich_cfg == was.enrich_cfg
            &&& after.handle(other) == before.handle(other)
        },
        (after.asked_sync(&before, id, job, r) || after.asked_enrich(&before, id, enrich, r))
            && before.handle(id) is None ==> r is Err && after.handle(other) == before.handle(other)
            && after.handle(id) is None,
{
}

/// A workspace that has just been opened has its own configuration, and nothing is asked of its
/// workers yet. Pausing changes only how often it is paused.
pub proof fn workspaces_open_with_their_configuration<K: Kb>(
    h: WorkspaceHandle<K>,
    w: Workspace,
    canonical: SortedMap<String>,
    triggers: SyncTriggers,
    depth: usize,
)
    requires
        opened_with(h, w, canonical, triggers),
    ensures
        h.sync.wid@ == w.id.0@,
        h.sync.kb_dir@ == w.kb_dir@,
        h.sync.cfgs@ == w.sync@,
        h.sync.triggers == triggers,
        h.enrich_cfg == w.enrichment,
        h.sync_jobs@.len() == 0,
        h.enrich_jobs@.len() == 0,
        !h.signals.rebuild && !h.signals.rescan && !h.signals.reconcile,
        h.signals.removals@.len() == 0,
        h.signals.ingestion.depth == 0,
        h.sync@.state.dom() =~= Set::<Seq<char>>::empty(),
        at_depth(h, depth).signals.ingestion.depth == depth,
        at_depth(h, depth).signals.ingestion.pending == h.signals.ingestion.pending,
        at_depth(h, depth).kb == h.kb,
        at_depth(h, depth).sync == h.sync,
{
}

} // verus!
