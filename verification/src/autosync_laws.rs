//! What auto-sync is for: which folders are synced when, and what is known of them afterwards.

use crate::autosync::{
    cfg_from, cfg_of, enabled, finished, ignoring_sidecars, listed, not_ready, paused, ready,
    take_up, touched, turn, with_times, Ahead, Board, Run,
};
use crate::engine::fresh_state;
use crate::events::{state_view, Event, Status};
use crate::ipc::{SyncDirection, SyncFolderConfig, SyncFolderState, SyncResolution};
use crate::link::same_place;
use crate::sorted::SortedMap;
use crate::sync::{failure_text, SyncError, SyncOutcome};
use crate::text::{contains, starts, trim_end, CharSet};
use crate::text_laws::lemma_contains_part;
use vstd::prelude::*;

verus! {

/// Every enabled folder is among those that are synced, and no other.
pub proof fn every_enabled_folder_counts(cfgs: Seq<SyncFolderConfig>)
    ensures
        forall|i: int|
            0 <= i < cfgs.len() && (#[trigger] cfgs[i]).enabled ==> enabled(cfgs).contains(
                cfgs[i].folder@,
            ),
        forall|k: int|
            0 <= k < enabled(cfgs).len() ==> has_enabled(cfgs, #[trigger] enabled(cfgs)[k]),
    decreases cfgs.len(),
{
    if cfgs.len() > 0 {
        let rest = cfgs.drop_last();
        every_enabled_folder_counts(rest);
        let before = enabled(rest);
        let all = enabled(cfgs);
        assert forall|i: int|
            0 <= i < cfgs.len() && (#[trigger] cfgs[i]).enabled implies all.contains(
            cfgs[i].folder@,
        ) by {
            if i < rest.len() {
                assert(rest[i] == cfgs[i]);
                let k = choose|k: int| 0 <= k < before.len() && before[k] == cfgs[i].folder@;
                assert(all[k] == cfgs[i].folder@);
            } else {
                assert(all[before.len() as int] == cfgs[i].folder@);
            }
        }
        assert forall|k: int| 0 <= k < all.len() implies has_enabled(cfgs, #[trigger] all[k]) by {
            if k < before.len() {
                assert(all[k] == before[k]);
                assert(has_enabled(rest, before[k]));
                let i = choose|i: int|
                    0 <= i < rest.len() && (#[trigger] rest[i]).enabled && rest[i].folder@
                        == before[k];
                assert(cfgs[i].enabled && cfgs[i].folder@ == all[k]);
            } else {
                assert(cfgs[cfgs.len() - 1].enabled);
            }
        }
    }
}

/// Whether a folder has an enabled configuration.
pub open spec fn has_enabled(cfgs: Seq<SyncFolderConfig>, folder: Seq<char>) -> bool {
    exists|i: int|
        0 <= i < cfgs.len() && (#[trigger] cfgs[i]).enabled && cfgs[i].folder@ == folder
}

/// A folder is synced by its first enabled configuration.
pub proof fn folders_are_synced_by_their_configuration(
    cfgs: Seq<SyncFolderConfig>,
    folder: Seq<char>,
    k: int,
)
    requires
        0 <= k < cfgs.len(),
    ensures
        cfgs[k].enabled && cfgs[k].folder@ == folder && (forall|j: int|
            0 <= j < k ==> !((#[trigger] cfgs[j]).enabled && cfgs[j].folder@ == folder)) ==> cfg_of(
            cfgs,
            folder,
        ) == Some(cfgs[k]),
        !has_enabled(cfgs, folder) ==> cfg_of(cfgs, folder) is None,
{
    if cfgs[k].enabled && cfgs[k].folder@ == folder && (forall|j: int|
        0 <= j < k ==> !((#[trigger] cfgs[j]).enabled && cfgs[j].folder@ == folder)) {
        lemma_cfg(cfgs, folder, k, 0);
    }
    if !has_enabled(cfgs, folder) {
        assert forall|j: int| 0 <= j < cfgs.len() implies !((#[trigger] cfgs[j]).enabled
            && cfgs[j].folder@ == folder) by {}
        lemma_cfg(cfgs, folder, cfgs.len() as int, 0);
    }
}

proof fn lemma_cfg(cfgs: Seq<SyncFolderConfig>, folder: Seq<char>, k: int, i: int)
    requires
        0 <= i <= k <= cfgs.len(),
        k < cfgs.len() ==> cfgs[k].enabled && cfgs[k].folder@ == folder,
        forall|j: int|
            i <= j < k ==> !((#[trigger] cfgs[j]).enabled && cfgs[j].folder@ == folder),
    ensures
        cfg_from(cfgs, folder, i) == k,
    decreases k - i,
{
    if i < k {
        assert(!(cfgs[i].enabled && cfgs[i].folder@ == folder));
        lemma_cfg(cfgs, folder, k, i + 1);
    }
}

/// A change in a folder that pushes makes every enabled configuration of that place due, and
/// nothing else.
pub proof fn changes_make_pushing_folders_due(
    cfgs: Seq<SyncFolderConfig>,
    canonical: SortedMap<String>,
    folder: Seq<char>,
)
    ensures
        forall|i: int|
            0 <= i < cfgs.len() && (#[trigger] cfgs[i]).enabled && cfgs[i].direction
                == SyncDirection::PullPush && same_place(canonical, cfgs[i].folder@, folder)
                ==> touched(cfgs, canonical, folder).contains(cfgs[i].folder@),
        forall|k: int|
            0 <= k < touched(cfgs, canonical, folder).len() ==> same_place(
                canonical,
                #[trigger] touched(cfgs, canonical, folder)[k],
                folder,
            ),
    decreases cfgs.len(),
{
    if cfgs.len() > 0 {
        let rest = cfgs.drop_last();
        changes_make_pushing_folders_due(rest, canonical, folder);
        let before = touched(rest, canonical, folder);
        let all = touched(cfgs, canonical, folder);
        assert forall|i: int|
            0 <= i < cfgs.len() && (#[trigger] cfgs[i]).enabled && cfgs[i].direction
                == SyncDirection::PullPush && same_place(
                canonical,
                cfgs[i].folder@,
                folder,
            ) implies all.contains(cfgs[i].folder@) by {
            if i < rest.len() {
                assert(rest[i] == cfgs[i]);
                let k = choose|k: int| 0 <= k < before.len() && before[k] == cfgs[i].folder@;
                assert(all[k] == cfgs[i].folder@);
            } else {
                assert(all[before.len() as int] == cfgs[i].folder@);
            }
        }
    }
}

/// Folders that became due are due at the time that was set, and the others when they were.
pub proof fn due_folders_have_their_time(
    m: Map<Seq<char>, u64>,
    folders: Seq<Seq<char>>,
    t: u64,
    f: Seq<char>,
)
    ensures
        folders.contains(f) ==> with_times(m, folders, t).dom().contains(f) && with_times(
            m,
            folders,
            t,
        )[f] == t,
        !folders.contains(f) ==> with_times(m, folders, t).dom().contains(f) == m.dom().contains(
            f,
        ) && (m.dom().contains(f) ==> with_times(m, folders, t)[f] == m[f]),
    decreases folders.len(),
{
    if folders.len() > 0 {
        let rest = folders.drop_last();
        due_folders_have_their_time(m, rest, t, f);
        if folders.contains(f) {
            let i = choose|i: int| 0 <= i < folders.len() && folders[i] == f;
            if i < rest.len() {
                assert(rest[i] == f);
            }
        } else {
            assert(!rest.contains(f)) by {
                if rest.contains(f) {
                    let i = choose|i: int| 0 <= i < rest.len() && rest[i] == f;
                    assert(folders[i] == f);
                }
            }
            assert(folders[folders.len() - 1] != f);
        }
    }
}

/// A folder whose time has come is taken up, and is not due any more; one whose time has not
/// come waits.
pub proof fn folders_are_taken_up_when_due(
    entries: Seq<(String, u64)>,
    m: Map<Seq<char>, u64>,
    now: u64,
    i: int,
    f: Seq<char>,
)
    requires
        0 <= i < entries.len(),
    ensures
        entries[i].1 <= now ==> ready(entries, now).contains(entries[i].0@),
        not_ready(m, now).dom().contains(f) <==> m.dom().contains(f) && m[f] > now,
        m.dom().contains(f) && m[f] > now ==> not_ready(m, now)[f] == m[f],
    decreases entries.len(),
{
    let rest = entries.drop_last();
    let before = ready(rest, now);
    let all = ready(entries, now);
    if entries[i].1 <= now {
        if i < rest.len() {
            folders_are_taken_up_when_due(rest, m, now, i, f);
            let k = choose|k: int| 0 <= k < before.len() && before[k] == entries[i].0@;
            assert(all[k] == entries[i].0@);
        } else {
            assert(all[before.len() as int] == entries[i].0@);
        }
    }
}

/// What the worker carries out of what is before it: a sync that is asked for, at once and as it
/// is asked; one after a change or at an interval only where the folder is not paused; and it is
/// told that it runs. One without a configuration is not run.
pub proof fn asked_syncs_are_run(
    b: Board,
    folder: Seq<char>,
    how: SyncResolution,
    now: u64,
    cfg: SyncFolderConfig,
    interval: u64,
)
    requires
        cfg_of(b.cfgs, folder) == Some(cfg),
    ensures
        take_up(b, Ahead::Run(folder), now).run == Some(
            Run {
                folder,
                is_kb: same_place(b.canonical, folder, b.kb_dir),
                cfg,
                how: None,
                at: None,
            },
        ),
        take_up(b, Ahead::Resolve(folder, how), now).run == Some(
            Run {
                folder,
                is_kb: same_place(b.canonical, folder, b.kb_dir),
                cfg,
                how: Some(how),
                at: None,
            },
        ),
        !paused(b, folder) ==> take_up(b, Ahead::Due(folder), now).run == Some(
            Run {
                folder,
                is_kb: same_place(b.canonical, folder, b.kb_dir),
                cfg,
                how: None,
                at: Some(b.woke),
            },
        ),
        !paused(b, folder) && b.triggers.periodic == Some(interval)
            && !b.last_sync.dom().contains(folder) ==> take_up(
            b,
            Ahead::Periodic(folder),
            now,
        ).run is Some,
        !paused(b, folder) && b.triggers.periodic == Some(interval) && b.last_sync.dom().contains(
            folder,
        ) && b.woke >= b.last_sync[folder] + interval ==> take_up(
            b,
            Ahead::Periodic(folder),
            now,
        ).run is Some,
        b.triggers.periodic is None ==> take_up(b, Ahead::Periodic(folder), now).run is None,
        take_up(b, Ahead::Run(folder), now).board.state.dom().contains(folder),
        take_up(b, Ahead::Run(folder), now).board.state[folder].status == Status::Syncing,
{
}

/// At an interval the worker goes through every enabled folder, in their order.
pub proof fn a_sweep_goes_through_the_enabled_folders(b: Board, now: u64)
    requires
        b.triggers.periodic is Some,
    ensures
        ({
            let todo = take_up(b, Ahead::Sweep, now).board.todo;
            let fs = enabled(b.cfgs);
            &&& todo.len() == b.todo.len() + fs.len()
            &&& forall|i: int|
                0 <= i < fs.len() ==> todo[todo.len() - 1 - i] == Ahead::Periodic(#[trigger] fs[i])
        }),
{
}

/// What a sync came to is told, and is what is known of its folder: when it went through and
/// what it did; the files in conflict, all of them; or why it failed. The time of the sync counts
/// either way.
pub proof fn outcomes_are_told(
    b: Board,
    run: Run,
    outcome: Result<SyncOutcome, SyncError>,
    now: u64,
    stamp: Seq<char>,
)
    ensures
        ({
            let (after, event) = finished(b, run, outcome, now, stamp);
            let f = run.folder;
            &&& after.state.dom().contains(f)
            &&& after.last_sync.dom().contains(f)
            &&& after.last_sync[f] == match run.at {
                Some(t) => t,
                None => now,
            }
            &&& outcome matches Ok(SyncOutcome::UpToDate) ==> after.state[f].status
                == Status::Synced && event == (Event::SyncSucceeded {
                workspace_id: b.wid,
                folder: f,
                pulled: false,
                pushed: false,
            })
            &&& outcome matches Ok(SyncOutcome::Updated { pulled, pushed }) ==> after.state[f].status
                == Status::Synced && event == (Event::SyncSucceeded {
                workspace_id: b.wid,
                folder: f,
                pulled,
                pushed,
            })
            &&& outcome matches Ok(SyncOutcome::Conflict { files }) ==> {
                let paths = Seq::new(files@.len(), |i: int| files@[i].path@);
                after.state[f].status == Status::Conflict(paths) && event == (
                Event::SyncConflict { workspace_id: b.wid, folder: f, paths })
            }
            &&& outcome matches Err(e) ==> after.state[f].status == Status::Error(
                failure_text(e@),
            ) && after.state[f].last_error == Some(failure_text(e@)) && event == (
            Event::SyncFailed { workspace_id: b.wid, folder: f, reason: failure_text(e@) })
        }),
{
    if let Ok(SyncOutcome::Conflict { files }) = outcome {
        assert(crate::sync::files_view(files@).map_values(
            |x: (Seq<char>, Option<Seq<char>>)| x.0,
        ) =~= Seq::new(files@.len(), |i: int| files@[i].path@));
    }
}

/// The ignore file of a knowledge base keeps what it held, and ignores the machine-local files.
pub proof fn ignoring_keeps_what_was_ignored(current: Seq<char>)
    ensures
        ignoring_sidecars(current) matches Some(s) ==> {
            &&& starts(s, trim_end(current, CharSet::White))
            &&& contains(s, "scan-cursor.json\n"@)
            &&& contains(s, ".htmlcache/\n"@)
            &&& contains(s, ".corpus/\n"@)
        },
        ignoring_sidecars(current) is None <==> contains(current, "scan-cursor.json"@),
{
    let managed =
        "# Looper-managed (machine-local; do not sync)\nscan-cursor.json\n.htmlcache/\n.corpus/\n"@;
    if let Some(s) = ignoring_sidecars(current) {
        reveal_strlit(
            "# Looper-managed (machine-local; do not sync)\nscan-cursor.json\n.htmlcache/\n.corpus/\n",
        );
        reveal_strlit("scan-cursor.json\n");
        reveal_strlit(".htmlcache/\n");
        reveal_strlit(".corpus/\n");
        let base = trim_end(current, CharSet::White);
        let front = s.take(s.len() - managed.len());
        assert(s =~= front + managed);
        let n = managed.len();
        assert(s =~= (front + managed.take(46)) + "scan-cursor.json\n"@ + managed.skip(63));
        lemma_contains_part(front + managed.take(46), "scan-cursor.json\n"@, managed.skip(63));
        assert(s =~= (front + managed.take(63)) + ".htmlcache/\n"@ + managed.skip(75));
        lemma_contains_part(front + managed.take(63), ".htmlcache/\n"@, managed.skip(75));
        assert(s =~= (front + managed.take(75)) + ".corpus/\n"@ + managed.skip(84));
        lemma_contains_part(front + managed.take(75), ".corpus/\n"@, managed.skip(84));
        if current.len() == 0 {
            assert(base =~= Seq::empty());
        }
        assert(s.subrange(0, base.len() as int) =~= base);
    }
}

/// The worker takes up what was asked for last, and goes on to the one before where nothing came
/// of that; with nothing left it runs nothing.
pub proof fn turns_take_up_what_is_ahead(b: Board, ahead: Ahead, now: u64)
    ensures
        ({
            let asked = Board { todo: b.todo.push(ahead), ..b };
            let t = take_up(b, ahead, now);
            &&& t.run is Some ==> turn(asked, now) == t
            &&& t.run is None ==> turn(asked, now) == turn(t.board, now)
        }),
        b.todo.len() == 0 ==> turn(b, now).run is None && turn(b, now).board == b,
{
    let asked = Board { todo: b.todo.push(ahead), ..b };
    assert(asked.todo.drop_last() =~= b.todo);
    assert(Board { todo: asked.todo.drop_last(), ..asked } == b);
}

/// The enabled folders, those that a change touches and those that are due come in their order.
pub proof fn folders_come_in_order(
    a: Seq<SyncFolderConfig>,
    b: Seq<SyncFolderConfig>,
    canonical: SortedMap<String>,
    folder: Seq<char>,
    x: Seq<(String, u64)>,
    y: Seq<(String, u64)>,
    now: u64,
)
    ensures
        enabled(a + b) == enabled(a) + enabled(b),
        touched(a + b, canonical, folder) == touched(a, canonical, folder) + touched(
            b,
            canonical,
            folder,
        ),
        ready(x + y, now) == ready(x, now) + ready(y, now),
    decreases b.len() + y.len(),
{
    if b.len() > 0 {
        folders_come_in_order(a, b.drop_last(), canonical, folder, x, y, now);
        assert((a + b).drop_last() =~= a + b.drop_last());
        assert((a + b).last() == b.last());
        assert(enabled(a + b) =~= enabled(a) + enabled(b));
        assert(touched(a + b, canonical, folder) =~= touched(a, canonical, folder) + touched(
            b,
            canonical,
            folder,
        ));
    } else {
        assert(a + b =~= a);
        assert(enabled(a) + enabled(b) =~= enabled(a));
        assert(touched(a, canonical, folder) + touched(b, canonical, folder) =~= touched(
            a,
            canonical,
            folder,
        ));
        if y.len() > 0 {
            folders_come_in_order(a, b, canonical, folder, x, y.drop_last(), now);
            assert((x + y).drop_last() =~= x + y.drop_last());
            assert((x + y).last() == y.last());
            assert(ready(x + y, now) =~= ready(x, now) + ready(y, now));
        } else {
            assert(x + y =~= x);
            assert(ready(x, now) + ready(y, now) =~= ready(x, now));
        }
    }
}

/// Every state is listed, as it is.
pub proof fn every_state_is_listed(m: SortedMap<SyncFolderState>, i: int)
    requires
        0 <= i < m.entries@.len(),
    ensures
        listed(m).len() == m.entries@.len(),
        listed(m)[i] == state_view(m.entries@[i].1),
{
}

/// A folder whose sync has just been set is syncing, or off where it is disabled; nothing is
/// known of it yet.
pub proof fn folders_begin_anew(wid: Seq<char>, cfg: SyncFolderConfig)
    ensures
        ({
            let s = fresh_state(wid, cfg);
            &&& s.workspace_id == wid && s.folder == cfg.folder@ && s.is_kb == cfg.is_kb
            &&& s.last_sync is None && s.last_error is None
            &&& cfg.enabled ==> s.status == Status::Syncing
            &&& !cfg.enabled ==> s.status == Status::Off
        }),
{
}

} // verus!
