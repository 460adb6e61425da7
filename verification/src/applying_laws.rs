//! What indexing a workspace is for: the id that a document gets, what a change comes to, and
//! the order of the work.

use crate::applying::{applied, Counts};
use crate::events::Event;
use crate::ingest::prepared;
use crate::kb::KbCall;
use crate::lifecycle::{after_turns, concept_id_of, home_from, turn, Asked, Do, Phase, Worker};
use crate::path::{beyond, components, extension_of, is_under, name_of};
use crate::path_laws::{are_components, paths_have_the_components_they_are_made_of};
use crate::scan::{ChangeKind, ChangeView};
use crate::text::{join, texts};
use vstd::prelude::*;

verus! {

// --------------------------------------------------------------------------------- ids

proof fn lemma_home(path: Seq<char>, folders: Seq<Seq<char>>, k: int, i: int)
    requires
        0 <= i <= k <= folders.len(),
        k < folders.len() ==> is_under(path, folders[k]),
        forall|j: int| i <= j < k ==> !is_under(path, #[trigger] folders[j]),
    ensures
        home_from(path, folders, i) == k,
    decreases k - i,
{
    if i < k {
        assert(!is_under(path, folders[i]));
        lemma_home(path, folders, k, i + 1);
    }
}

/// A document is known by the name of the first folder that it lies in and its path from there,
/// extension and all; one in no folder is not known.
pub proof fn documents_are_known_by_folder_and_path(
    folders: Seq<Seq<char>>,
    k: int,
    name: Seq<char>,
    parts: Seq<Seq<char>>,
    other: Seq<char>,
)
    requires
        0 <= k < folders.len(),
        folders[k].len() > 0,
        name_of(folders[k]) == Some(name),
        parts.len() > 0,
        are_components(parts),
        forall|j: int|
            0 <= j < k ==> !is_under(
                folders[k] + seq!['/'] + join(parts, seq!['/']),
                #[trigger] folders[j],
            ),
        forall|j: int| 0 <= j < folders.len() ==> !is_under(other, #[trigger] folders[j]),
    ensures
        concept_id_of(folders[k] + seq!['/'] + join(parts, seq!['/']), folders) == Some(
            name + seq!['/'] + join(parts, seq!['/']),
        ),
        concept_id_of(other, folders) is None,
{
    reveal_strlit("/");
    let folder = folders[k];
    let path = folder + seq!['/'] + join(parts, seq!['/']);
    paths_have_the_components_they_are_made_of(folder, parts);
    assert(components(folder) =~= components(path).subrange(0, components(folder).len() as int));
    assert(beyond(path, folder) =~= parts);
    lemma_home(path, folders, k, 0);
    lemma_home(other, folders, folders.len() as int, 0);
    assert("/"@ =~= seq!['/']);
    let all = seq![name] + parts;
    assert(all.drop_first() =~= parts);
    assert(all[0] == name);
}

// ----------------------------------------------------------------------------- changes

/// A document that was created or changed, or that moved, is indexed under its path with its id
/// and what it was prepared into; where it moved, the one at the old path is removed first. The
/// answer is told, and counted where it was indexed.
pub proof fn a_changed_document_is_indexed(
    wid: Seq<char>,
    c: ChangeView,
    folders: Seq<Seq<char>>,
    raw: String,
    before: Counts,
    calls: Seq<KbCall>,
    events: Seq<Event>,
    after: Counts,
    id: Seq<char>,
    ext: Seq<char>,
)
    requires
        applied(wid, c, folders, Ok(raw), before, calls, events, after),
        c.kind != ChangeKind::Removed,
        concept_id_of(c.path, folders) == Some(id),
        extension_of(c.path) == Some(ext),
    ensures
        calls.len() > 0,
        calls.last() matches KbCall::Index { source_path, concept_id, content, answer } && {
            &&& source_path == c.path
            &&& concept_id == id
            &&& prepared(ext, raw@, id) matches Some(text) ==> content == text
            &&& prepared(ext, raw@, id) is None ==> content == raw@
            &&& events.len() > 0
            &&& answer matches Ok(r) ==> events.last() == (Event::DocIndexed {
                workspace_id: wid,
                concept_id: r.concept_id@,
                okf_id: r.okf_id@,
                path: c.path,
                title: r.title@,
                labels: texts(r.labels@),
            }) && after.indexed == before.indexed + 1
            &&& answer matches Err(e) ==> events.last() == (Event::Warning {
                workspace_id: wid,
                message: e.text(),
            }) && after.indexed == before.indexed
        },
        after.removed == before.removed,
        c.kind == ChangeKind::Moved && c.moved_from is Some ==> calls.len() == 2 && (calls[0] matches KbCall::Remove {
            source_path,
            ..
        } && source_path == c.moved_from->0),
        c.kind != ChangeKind::Moved ==> calls.len() == 1,
{
}

/// A document that is gone is removed, told so and counted; one that cannot be read is told so,
/// and what is indexed of it stays.
pub proof fn a_removed_document_is_removed(
    wid: Seq<char>,
    c: ChangeView,
    folders: Seq<Seq<char>>,
    read: Result<String, String>,
    before: Counts,
    calls: Seq<KbCall>,
    events: Seq<Event>,
    after: Counts,
)
    requires
        applied(wid, c, folders, read, before, calls, events, after),
    ensures
        c.kind == ChangeKind::Removed ==> calls.len() == 1 && (calls[0] matches KbCall::Remove {
            source_path,
            answer,
        } && {
            &&& source_path == c.path
            &&& answer is Ok ==> events == seq![
                Event::DocRemoved { workspace_id: wid, path: c.path },
            ] && after.removed == before.removed + 1
            &&& answer matches Err(e) ==> events == seq![
                Event::Warning { workspace_id: wid, message: e.text() },
            ] && after.removed == before.removed
        }) && after.indexed == before.indexed,
        (c.kind == ChangeKind::Created || c.kind == ChangeKind::Modified) && concept_id_of(
            c.path,
            folders,
        ) is Some && read is Err ==> calls.len() == 0 && after == before && events == seq![
            Event::Warning {
                workspace_id: wid,
                message: "could not read source: "@ + read->Err_0@,
            },
        ],
{
}

// ------------------------------------------------------------------------------ the work

/// What a worker does in its next turns, in order, while nothing more is asked of it.
pub open spec fn steps(w: Worker, a: Asked, n: nat) -> Seq<Do>
    decreases n,
{
    if n == 0 {
        Seq::empty()
    } else {
        let t = turn(w, a, false);
        seq![t.step] + steps(t.worker, t.asked, (n - 1) as nat)
    }
}

proof fn lemma_steps_concat(w: Worker, a: Asked, n: nat, m: nat)
    ensures
        steps(w, a, n + m) == steps(w, a, n) + steps(
            after_turns(w, a, n).0,
            after_turns(w, a, n).1,
            m,
        ),
        after_turns(w, a, n + m) == after_turns(
            after_turns(w, a, n).0,
            after_turns(w, a, n).1,
            m,
        ),
    decreases n,
{
    if n == 0 {
        assert(steps(w, a, 0) + steps(w, a, m) =~= steps(w, a, m));
    } else {
        let t = turn(w, a, false);
        lemma_steps_concat(t.worker, t.asked, (n - 1) as nat, m);
        let (v, b) = after_turns(w, a, n);
        let k = (n - 1) as nat;
        assert((n + m - 1) as nat == k + m);
        assert(seq![t.step] + (steps(t.worker, t.asked, k) + steps(v, b, m)) =~= steps(w, a, n)
            + steps(v, b, m));
    }
}

proof fn lemma_migrating(w: Worker, a: Asked, n: nat)
    requires
        w.phase == Phase::Migrate,
        n <= w.folders.len(),
    ensures
        after_turns(w, a, n) == (
            Worker { folders: w.folders.take(w.folders.len() - n), ..w },
            a,
        ),
        steps(w, a, n) == Seq::new(n, |i: int| Do::Migrate(w.folders[w.folders.len() - 1 - i])),
    decreases n,
{
    let want = Seq::new(n, |i: int| Do::Migrate(w.folders[w.folders.len() - 1 - i]));
    if n == 0 {
        assert(w.folders.take(w.folders.len() as int) =~= w.folders);
        assert(steps(w, a, n) =~= want);
    } else {
        let t = turn(w, a, false);
        let k = (n - 1) as nat;
        lemma_migrating(t.worker, t.asked, k);
        let rest = w.folders.drop_last();
        assert(rest.take(w.folders.len() - n) =~= w.folders.take(w.folders.len() - n));
        assert(steps(w, a, n) =~= want);
    }
}

proof fn lemma_step(w: Worker, a: Asked, n: nat)
    ensures
        steps(w, a, n + 1) == seq![turn(w, a, false).step] + steps(
            turn(w, a, false).worker,
            turn(w, a, false).asked,
            n,
        ),
{
}

proof fn lemma_after_migration(w: Worker, a: Asked)
    requires
        w.phase == Phase::Migrate,
        w.folders.len() == 0,
    ensures
        w.enrich ==> steps(w, a, 5) == seq![
            Do::Discover,
            Do::OpenScan,
            Do::FullScan,
            Do::EnrichAfterScan,
            Do::Watch,
        ],
        !w.enrich ==> steps(w, a, 4) == seq![
            Do::Discover,
            Do::OpenScan,
            Do::FullScan,
            Do::Watch,
        ],
{
    let scan = Worker { phase: Phase::OpenScan, ..w };
    let first = Worker { phase: Phase::FirstScan, ..w };
    let enrich = Worker { phase: Phase::Enrich, ..w };
    let watch = Worker { phase: Phase::Watch, ..w };
    let done = Worker { phase: Phase::Rebuild, ..w };
    assert(steps(done, a, 0) =~= Seq::empty());
    lemma_step(watch, a, 0);
    assert(steps(watch, a, 1) =~= seq![Do::Watch]);
    let n: nat = if w.enrich {
        2
    } else {
        1
    };
    lemma_step(enrich, a, (n - 1) as nat);
    let last = if w.enrich {
        seq![Do::EnrichAfterScan, Do::Watch]
    } else {
        seq![Do::Watch]
    };
    assert(steps(enrich, a, n) =~= last);
    lemma_step(first, a, n);
    lemma_step(scan, a, n + 1);
    lemma_step(w, a, n + 2);
    assert(steps(w, a, n + 3) =~= seq![Do::Discover, Do::OpenScan, Do::FullScan] + last);
}

/// How a workspace begins: its opening is told; old links are moved in each folder, in their
/// order; the repositories are found; everything is scanned once, and enriched where that is
/// wanted; and only then is it watched.
pub proof fn a_workspace_is_scanned_before_it_is_watched(
    folders: Seq<Seq<char>>,
    enrich: bool,
    a: Asked,
)
    ensures
        ({
            let w = Worker {
                phase: Phase::Announce,
                folders: folders.reverse(),
                enrich,
                queue: Seq::empty(),
            };
            let first = seq![Do::Announce] + Seq::new(
                folders.len(),
                |i: int| Do::Migrate(folders[i]),
            ) + seq![Do::Discover, Do::OpenScan, Do::FullScan];
            let want = if enrich {
                first + seq![Do::EnrichAfterScan, Do::Watch]
            } else {
                first + seq![Do::Watch]
            };
            steps(w, a, want.len()) == want
        }),
{
    let w = Worker {
        phase: Phase::Announce,
        folders: folders.reverse(),
        enrich,
        queue: Seq::empty(),
    };
    let n = folders.len();
    let w1 = turn(w, a, false).worker;
    lemma_migrating(w1, a, n);
    let moves = Seq::new(n, |i: int| Do::Migrate(folders[i]));
    assert(steps(w1, a, n) =~= moves);
    let rest: nat = if enrich {
        5
    } else {
        4
    };
    let (w2, b) = after_turns(w1, a, n);
    assert(w2.folders.len() == 0);
    lemma_steps_concat(w1, a, n, rest);
    let tail = if enrich {
        seq![Do::Discover, Do::OpenScan, Do::FullScan, Do::EnrichAfterScan, Do::Watch]
    } else {
        seq![Do::Discover, Do::OpenScan, Do::FullScan, Do::Watch]
    };
    lemma_after_migration(w2, b);
    let all = seq![Do::Announce] + (moves + tail);
    assert(all.len() == 1 + n + rest);
    assert((1 + n + rest - 1) as nat == n + rest);
    assert(steps(w, a, 1 + n + rest) == seq![Do::Announce] + steps(w1, a, n + rest));
    let first = seq![Do::Announce] + moves + seq![Do::Discover, Do::OpenScan, Do::FullScan];
    let want = if enrich {
        first + seq![Do::EnrichAfterScan, Do::Watch]
    } else {
        first + seq![Do::Watch]
    };
    assert(want =~= all);
}

proof fn lemma_queue(w: Worker, a: Asked, n: nat)
    requires
        n <= w.queue.len(),
        w.phase == Phase::Removing || w.phase == Phase::Draining,
    ensures
        after_turns(w, a, n) == (Worker { queue: w.queue.take(w.queue.len() - n), ..w }, a),
        w.phase == Phase::Removing ==> steps(w, a, n) == Seq::new(
            n,
            |i: int| Do::Remove(w.queue[w.queue.len() - 1 - i]),
        ),
        w.phase == Phase::Draining ==> steps(w, a, n) == Seq::new(
            n,
            |i: int| Do::Ingest(w.queue[w.queue.len() - 1 - i]),
        ),
    decreases n,
{
    if n == 0 {
        assert(w.queue.take(w.queue.len() as int) =~= w.queue);
        assert(steps(w, a, n) =~= Seq::empty());
        assert(Seq::new(n, |i: int| Do::Remove(w.queue[w.queue.len() - 1 - i])) =~= Seq::empty());
        assert(Seq::new(n, |i: int| Do::Ingest(w.queue[w.queue.len() - 1 - i])) =~= Seq::empty());
    } else {
        let t = turn(w, a, false);
        let k = (n - 1) as nat;
        lemma_queue(t.worker, t.asked, k);
        let rest = w.queue.drop_last();
        assert(rest.take(w.queue.len() - n) =~= w.queue.take(w.queue.len() - n));
        if w.phase == Phase::Removing {
            assert(steps(w, a, n) =~= Seq::new(
                n,
                |i: int| Do::Remove(w.queue[w.queue.len() - 1 - i]),
            ));
        } else {
            assert(steps(w, a, n) =~= Seq::new(
                n,
                |i: int| Do::Ingest(w.queue[w.queue.len() - 1 - i]),
            ));
        }
    }
}

/// What a round ends with: the removals, in order, and the changes that were held back, in order,
/// unless ingestion is paused; then the worker waits.
pub open spec fn round_end(a: Asked) -> Seq<Do> {
    let removals = Seq::new(a.removals.len(), |i: int| Do::Remove(a.removals[i]));
    let ingests = if a.depth == 0 {
        Seq::new(a.pending.len(), |i: int| Do::Ingest(a.pending[i]))
    } else {
        Seq::empty()
    };
    removals + ingests + seq![Do::Receive]
}

proof fn lemma_draining_end(w: Worker, a: Asked, v: Worker)
    requires
        v.phase == Phase::Drain || (v.phase == Phase::Removing && v.queue.len() == 0),
    ensures
        ({
            let ingests = if a.depth == 0 {
                Seq::new(a.pending.len(), |i: int| Do::Ingest(a.pending[i]))
            } else {
                Seq::empty()
            };
            steps(v, a, ingests.len() + 1) == ingests + seq![Do::Receive]
        }),
{
    reveal_with_fuel(steps, 3);
    if a.depth == 0 {
        let started = Worker { phase: Phase::Draining, queue: a.pending.reverse(), ..v };
        let rest = Asked { pending: Seq::empty(), ..a };
        let n = a.pending.len();
        assert(turn(v, a, false) == turn(started, rest, false));
        lemma_queue(started, rest, n);
        lemma_steps_concat(started, rest, n, 1);
        let (last, b) = after_turns(started, rest, n);
        assert(last.queue.len() == 0);
        assert(steps(last, b, 1) =~= seq![Do::Receive]);
        let ingests = Seq::new(n, |i: int| Do::Ingest(a.pending[i]));
        assert(steps(started, rest, n) =~= ingests);
        assert(steps(v, a, n + 1) == steps(started, rest, n + 1));
    } else {
        assert(steps(v, a, 1) =~= Seq::<Do>::empty() + seq![Do::Receive]);
    }
}

proof fn lemma_round_end(w: Worker, a: Asked)
    requires
        w.phase == Phase::Remove,
    ensures
        steps(w, a, round_end(a).len()) == round_end(a),
{
    let started = Worker { phase: Phase::Removing, queue: a.removals.reverse(), ..w };
    let rest = Asked { removals: Seq::empty(), ..a };
    let n = a.removals.len();
    assert(turn(w, a, false) == turn(started, rest, false));
    lemma_queue(started, rest, n);
    let (v, b) = after_turns(started, rest, n);
    assert(b == rest);
    assert(v.queue.len() == 0);
    lemma_draining_end(started, b, v);
    let ingests = if a.depth == 0 {
        Seq::new(a.pending.len(), |i: int| Do::Ingest(a.pending[i]))
    } else {
        Seq::empty()
    };
    lemma_steps_concat(started, rest, n, ingests.len() + 1);
    let removals = Seq::new(n, |i: int| Do::Remove(a.removals[i]));
    assert(steps(started, rest, n) =~= removals);
    assert(removals + (ingests + seq![Do::Receive]) =~= round_end(a));
    assert(steps(w, a, round_end(a).len()) == steps(started, rest, round_end(a).len()));
}

/// A round does everything that was asked before the worker waits again, each once: a rebuild,
/// which brings a scan with it; a scan; a reconciliation; the removals, in order; and the changes
/// that were held back, in order, unless ingestion is paused.
pub proof fn a_round_does_all_that_was_asked(w: Worker, a: Asked)
    requires
        w.phase == Phase::Rebuild,
    ensures
        ({
            let rebuild = if a.rebuild {
                seq![Do::Rebuild]
            } else {
                Seq::empty()
            };
            let scan = if a.rebuild || a.rescan {
                seq![Do::FullScan]
            } else {
                Seq::empty()
            };
            let reconcile = if a.reconcile {
                seq![Do::Reconcile]
            } else {
                Seq::empty()
            };
            let want = rebuild + scan + reconcile + round_end(a);
            steps(w, a, want.len()) == want
        }),
{
    let rebuild = if a.rebuild {
        seq![Do::Rebuild]
    } else {
        Seq::empty()
    };
    let scan = if a.rebuild || a.rescan {
        seq![Do::FullScan]
    } else {
        Seq::empty()
    };
    let reconcile = if a.reconcile {
        seq![Do::Reconcile]
    } else {
        Seq::empty()
    };
    let a1 = Asked { rebuild: false, rescan: a.rebuild || a.rescan, ..a };
    let a2 = Asked { rebuild: false, rescan: false, ..a };
    let a3 = Asked { rebuild: false, rescan: false, reconcile: false, ..a };
    let w1 = Worker { phase: Phase::Rescan, ..w };
    let w2 = Worker { phase: Phase::Reconcile, ..w };
    let w3 = Worker { phase: Phase::Remove, ..w };
    lemma_round_end(w3, a3);
    let r3 = round_end(a3);
    assert(r3 =~= round_end(a));
    let r2 = reconcile + r3;
    assert(steps(w2, a2, r2.len()) == r2) by {
        if a.reconcile {
            let t = turn(w2, a2, false);
            assert((r2.len() - 1) as nat == r3.len());
            assert(steps(w2, a2, r2.len()) =~= seq![Do::Reconcile] + r3);
        } else {
            assert(turn(w2, a2, false) == turn(w3, a3, false));
            assert(r2 =~= r3);
        }
    }
    let r1 = scan + r2;
    assert(steps(w1, a1, r1.len()) == r1) by {
        if a1.rescan {
            assert((r1.len() - 1) as nat == r2.len());
            assert(steps(w1, a1, r1.len()) =~= seq![Do::FullScan] + r2);
        } else {
            assert(turn(w1, a1, false) == turn(w2, a2, false));
            assert(r1 =~= r2);
        }
    }
    let r0 = rebuild + r1;
    assert(steps(w, a, r0.len()) == r0) by {
        if a.rebuild {
            assert((r0.len() - 1) as nat == r1.len());
            assert(steps(w, a, r0.len()) =~= seq![Do::Rebuild] + r1);
        } else {
            assert(turn(w, a, false) == turn(w1, a1, false));
            assert(r0 =~= r1);
        }
    }
    assert(rebuild + scan + reconcile + round_end(a) =~= r0);
}

} // verus!
