//! What scanning is for: which files are tracked, and which changes are told.

use crate::path::{beyond, components, is_under, same_ignoring_case};
use crate::path_laws::{
    are_components, paths_are_called_by_their_last_component,
    paths_have_the_components_they_are_made_of,
};
use crate::scan::{
    below_pruned, collected, created, gone_from, has_extension, is_pruned_name, kept_paths, moved,
    new_to, observed, observed_change, origin_from, origin_of, placement, reconciled, removed,
    taken_after, under_any, ChangeKind, ChangeView, Entry, FileFingerprint, FileRead, ScanConfig,
    Snapshot, Walked, WalkedFile,
};
use crate::text::{join, texts};
use vstd::prelude::*;

verus! {

/// Whether a configuration lists an extension, whatever the case of its letters.
pub open spec fn lists(config: ScanConfig, ext: Seq<char>) -> bool {
    exists|i: int|
        0 <= i < config.extensions@.len() && same_ignoring_case(
            (#[trigger] config.extensions@[i])@,
            ext,
        )
}

/// A file is watched exactly where its extension is listed, whatever the case of its letters, and
/// it lies at or under nothing that is excluded. A file without an extension is not.
pub proof fn files_are_watched_by_their_extension(
    config: ScanConfig,
    dir: Seq<char>,
    stem: Seq<char>,
    ext: Seq<char>,
    name: Seq<char>,
)
    requires
        dir.len() > 0,
        stem.len() > 0,
        !stem.contains('/'),
        !ext.contains('/'),
        !ext.contains('.'),
        stem + seq!['.'] + ext != ".."@,
        name.len() > 0,
        !name.contains('/'),
        !name.contains('.'),
    ensures
        ({
            let path = dir + seq!['/'] + (stem + seq!['.'] + ext);
            config.watched(path) <==> lists(config, ext) && forall|i: int|
                0 <= i < config.excluded_prefixes@.len() ==> !is_under(
                    path,
                    (#[trigger] config.excluded_prefixes@[i])@,
                )
        }),
        !config.watched(dir + seq!['/'] + name),
        !config.watched(dir + seq!['/'] + (seq!['.'] + name)),
{
    paths_are_called_by_their_last_component(dir, stem, ext, name);
    let path = dir + seq!['/'] + (stem + seq!['.'] + ext);
    let exts = texts(config.extensions@);
    let out = texts(config.excluded_prefixes@);
    assert(has_extension(path, exts) == lists(config, ext)) by {
        if lists(config, ext) {
            let i = choose|i: int|
                0 <= i < config.extensions@.len() && same_ignoring_case(
                    (#[trigger] config.extensions@[i])@,
                    ext,
                );
            assert(same_ignoring_case(exts[i], ext));
        }
        if has_extension(path, exts) {
            let i = choose|i: int|
                0 <= i < exts.len() && same_ignoring_case(#[trigger] exts[i], ext);
            assert(same_ignoring_case(config.extensions@[i]@, ext));
        }
    }
    if under_any(path, out) {
        let i = choose|i: int| 0 <= i < out.len() && is_under(path, #[trigger] out[i]);
        assert(is_under(path, config.excluded_prefixes@[i]@));
    } else {
        assert forall|i: int| 0 <= i < config.excluded_prefixes@.len() implies !is_under(
            path,
            (#[trigger] config.excluded_prefixes@[i])@,
        ) by {
            assert(out[i] == config.excluded_prefixes@[i]@);
        }
    }
}

/// Nothing at or below what is excluded is walked, watched or collected.
pub proof fn nothing_excluded_is_tracked(
    config: ScanConfig,
    i: int,
    names: Seq<Seq<char>>,
    root: Seq<char>,
    is_dir: bool,
)
    requires
        0 <= i < config.excluded_prefixes@.len(),
        config.excluded_prefixes@[i]@.len() > 0,
        names.len() > 0,
        are_components(names),
    ensures
        ({
            let top = config.excluded_prefixes@[i]@;
            let below = top + seq!['/'] + join(names, seq!['/']);
            &&& !config.watched(top) && !config.watched(below)
            &&& !config.walked(top, is_dir) && !config.walked(below, is_dir)
            &&& !config.collects(root, top) && !config.collects(root, below)
        }),
{
    let top = config.excluded_prefixes@[i]@;
    let below = top + seq!['/'] + join(names, seq!['/']);
    let out = texts(config.excluded_prefixes@);
    paths_have_the_components_they_are_made_of(top, names);
    assert(components(top) =~= components(below).subrange(0, components(top).len() as int));
    assert(components(top) =~= components(top).subrange(0, components(top).len() as int));
    assert(out[i] == top);
    assert(is_under(top, out[i]) && is_under(below, out[i]));
}

/// A file below a root is collected where it is watched, unless one of the directories between
/// them is `.git`, `node_modules` or `target`.
pub proof fn files_below_a_root_are_collected(
    config: ScanConfig,
    root: Seq<char>,
    dirs: Seq<Seq<char>>,
    name: Seq<char>,
)
    requires
        root.len() > 0,
        are_components(dirs.push(name)),
    ensures
        ({
            let path = root + seq!['/'] + join(dirs.push(name), seq!['/']);
            config.collects(root, path) <==> config.watched(path) && forall|i: int|
                0 <= i < dirs.len() ==> (#[trigger] dirs[i]) != ".git"@ && dirs[i]
                    != "node_modules"@ && dirs[i] != "target"@
        }),
{
    let names = dirs.push(name);
    let path = root + seq!['/'] + join(names, seq!['/']);
    paths_have_the_components_they_are_made_of(root, names);
    assert(components(root) =~= components(path).subrange(0, components(root).len() as int));
    assert(beyond(path, root) =~= names);
    if below_pruned(root, path) {
        let i = choose|i: int|
            0 <= i < beyond(path, root).len() - 1 && is_pruned_name(
                #[trigger] beyond(path, root)[i],
            );
        assert(dirs[i] == names[i]);
    } else {
        assert forall|i: int| 0 <= i < dirs.len() implies (#[trigger] dirs[i]) != ".git"@ && dirs[i]
            != "node_modules"@ && dirs[i] != "target"@ by {
            assert(beyond(path, root)[i] == dirs[i]);
        }
    }
}

/// Every file that walks came to and that is collected is kept, in their order, and no other.
pub proof fn every_collected_path_is_kept(config: ScanConfig, found: Seq<(String, String)>)
    ensures
        forall|k: int|
            0 <= k < found.len() && config.collects((#[trigger] found[k]).0@, found[k].1@)
                ==> kept_paths(config, found).contains(found[k].1@),
        forall|i: int|
            0 <= i < kept_paths(config, found).len() ==> came_to(
                config,
                found,
                #[trigger] kept_paths(config, found)[i],
            ),
    decreases found.len(),
{
    if found.len() > 0 {
        let rest = found.drop_last();
        every_collected_path_is_kept(config, rest);
        let before = kept_paths(config, rest);
        let all = kept_paths(config, found);
        assert forall|k: int|
            0 <= k < found.len() && config.collects(
                (#[trigger] found[k]).0@,
                found[k].1@,
            ) implies all.contains(found[k].1@) by {
            if k < rest.len() {
                assert(rest[k] == found[k]);
                let i = choose|i: int| 0 <= i < before.len() && before[i] == found[k].1@;
                assert(all[i] == found[k].1@);
            } else {
                assert(all[before.len() as int] == found[k].1@);
            }
        }
        assert forall|i: int| 0 <= i < all.len() implies came_to(
            config,
            found,
            #[trigger] all[i],
        ) by {
            if i < before.len() {
                assert(all[i] == before[i]);
                assert(came_to(config, rest, before[i]));
                let k = choose|k: int|
                    0 <= k < rest.len() && config.collects(
                        (#[trigger] rest[k]).0@,
                        rest[k].1@,
                    ) && rest[k].1@ == before[i];
                assert(config.collects(found[k].0@, found[k].1@));
            } else {
                assert(config.collects(found[found.len() - 1].0@, found[found.len() - 1].1@));
            }
        }
    }
}

/// Whether walks came to a path that is collected.
pub open spec fn came_to(
    config: ScanConfig,
    found: Seq<(String, String)>,
    path: Seq<char>,
) -> bool {
    exists|k: int|
        0 <= k < found.len() && config.collects((#[trigger] found[k]).0@, found[k].1@)
            && found[k].1@ == path
}

/// Every file that is collected and was read is in the scan with its fingerprint.
pub proof fn every_collected_file_is_scanned(config: ScanConfig, files: Seq<WalkedFile>, k: int)
    requires
        0 <= k < files.len(),
    ensures
        config.collects(files[k].root@, files[k].path@) && files[k].fingerprint is Some
            ==> collected(config, files).contains((files[k].path@, files[k].fingerprint->0)),
    decreases files.len(),
{
    let rest = files.drop_last();
    let before = collected(config, rest);
    let all = collected(config, files);
    if config.collects(files[k].root@, files[k].path@) && files[k].fingerprint is Some {
        let e = (files[k].path@, files[k].fingerprint->0);
        if k < rest.len() {
            every_collected_file_is_scanned(config, rest, k);
            let i = choose|i: int| 0 <= i < before.len() && before[i] == e;
            assert(all[i] == e);
        } else {
            assert(all[before.len() as int] == e);
        }
    }
}

// ------------------------------------------------------------------------------- moves

proof fn lemma_taken_hash(fresh: Seq<Entry>, gone: Seq<Entry>, n: int, i: int)
    requires
        0 <= n <= fresh.len(),
        taken_after(fresh, gone, n).contains(i),
    ensures
        0 <= i < gone.len(),
        exists|m: int| 0 <= m < n && (#[trigger] fresh[m]).1.hash@ == gone[i].1.hash@,
    decreases n,
{
    if n > 0 {
        let taken = taken_after(fresh, gone, n - 1);
        let at = origin_from(gone, taken, fresh[n - 1].1.hash@, 0);
        lemma_origin_from(gone, taken, fresh[n - 1].1.hash@, 0);
        if taken.contains(i) {
            lemma_taken_hash(fresh, gone, n - 1, i);
            let m = choose|m: int|
                0 <= m < n - 1 && (#[trigger] fresh[m]).1.hash@ == gone[i].1.hash@;
            assert(fresh[m].1.hash@ == gone[i].1.hash@);
        } else {
            assert(i == at);
            assert(fresh[n - 1].1.hash@ == gone[i].1.hash@);
        }
    }
}

proof fn lemma_origin_from(gone: Seq<Entry>, taken: Set<int>, hash: Seq<char>, i: int)
    requires
        0 <= i,
    ensures
        ({
            let at = origin_from(gone, taken, hash, i);
            &&& at < gone.len() ==> i <= at && gone[at].1.hash@ == hash && !taken.contains(at)
            &&& at >= gone.len() ==> forall|j: int|
                i <= j < gone.len() && (#[trigger] gone[j]).1.hash@ == hash ==> taken.contains(j)
        }),
    decreases gone.len() - i,
{
    if i < gone.len() && !(gone[i].1.hash@ == hash && !taken.contains(i)) {
        lemma_origin_from(gone, taken, hash, i + 1);
    }
}

/// A file that appears with the content of one that is gone has moved, where no other that
/// appears has that content; one with a content that none of those gone had is new.
pub proof fn a_file_with_the_content_of_a_gone_one_has_moved(
    fresh: Seq<Entry>,
    gone: Seq<Entry>,
    n: int,
    g: int,
)
    requires
        0 <= n < fresh.len(),
        0 <= g < gone.len(),
    ensures
        gone[g].1.hash@ == fresh[n].1.hash@ && (forall|m: int|
            0 <= m < n ==> (#[trigger] fresh[m]).1.hash@ != fresh[n].1.hash@) ==> {
            let c = placement(fresh, gone, n);
            &&& c.kind == ChangeKind::Moved
            &&& c.path == fresh[n].0
            &&& c.fingerprint == Some(fresh[n].1)
            &&& exists|j: int|
                0 <= j < gone.len() && (#[trigger] gone[j]).1.hash@ == fresh[n].1.hash@
                    && c.moved_from == Some(gone[j].0)
        },
        (forall|j: int|
            0 <= j < gone.len() ==> (#[trigger] gone[j]).1.hash@ != fresh[n].1.hash@)
            ==> placement(fresh, gone, n) == (ChangeView {
            path: fresh[n].0,
            kind: ChangeKind::Created,
            fingerprint: Some(fresh[n].1),
            moved_from: None,
        }),
{
    let taken = taken_after(fresh, gone, n);
    let hash = fresh[n].1.hash@;
    let at = origin_of(fresh, gone, n);
    lemma_origin_from(gone, taken, hash, 0);
    if gone[g].1.hash@ == hash && (forall|m: int|
        0 <= m < n ==> (#[trigger] fresh[m]).1.hash@ != hash) {
        if taken.contains(g) {
            lemma_taken_hash(fresh, gone, n, g);
        }
        assert(at < gone.len());
        assert(gone[at].1.hash@ == hash);
    }
}

// --------------------------------------------------------------------------- reconciling

proof fn lemma_gone(entries: Seq<Entry>, walked: Walked)
    ensures
        forall|k: int|
            0 <= k < entries.len() && !walked.has_key((#[trigger] entries[k]).0) ==> gone_from(
                entries,
                walked,
            ).contains(entries[k].0),
        forall|i: int|
            0 <= i < gone_from(entries, walked).len() ==> !walked.has_key(
                #[trigger] gone_from(entries, walked)[i],
            ),
    decreases entries.len(),
{
    if entries.len() > 0 {
        let rest = entries.drop_last();
        lemma_gone(rest, walked);
        let before = gone_from(rest, walked);
        let all = gone_from(entries, walked);
        assert forall|k: int|
            0 <= k < entries.len() && !walked.has_key(
                (#[trigger] entries[k]).0,
            ) implies all.contains(entries[k].0) by {
            if k < rest.len() {
                assert(rest[k] == entries[k]);
                let i = choose|i: int| 0 <= i < before.len() && before[i] == entries[k].0;
                assert(all[i] == entries[k].0);
            } else {
                assert(all[before.len() as int] == entries[k].0);
            }
        }
    }
}

proof fn lemma_new(found: Seq<(String, Option<FileFingerprint>)>, cursor: Snapshot)
    ensures
        forall|k: int|
            0 <= k < found.len() && (#[trigger] found[k]).1 is Some && cursor.fingerprint_of(
                found[k].0@,
            ) is None ==> new_to(found, cursor).contains((found[k].0@, found[k].1->0)),
        forall|i: int|
            0 <= i < new_to(found, cursor).len() ==> cursor.fingerprint_of(
                (#[trigger] new_to(found, cursor)[i]).0,
            ) is None,
    decreases found.len(),
{
    if found.len() > 0 {
        let rest = found.drop_last();
        lemma_new(rest, cursor);
        let before = new_to(rest, cursor);
        let all = new_to(found, cursor);
        assert forall|k: int|
            0 <= k < found.len() && (#[trigger] found[k]).1 is Some && cursor.fingerprint_of(
                found[k].0@,
            ) is None implies all.contains((found[k].0@, found[k].1->0)) by {
            let e = (found[k].0@, found[k].1->0);
            if k < rest.len() {
                assert(rest[k] == found[k]);
                let i = choose|i: int| 0 <= i < before.len() && before[i] == e;
                assert(all[i] == e);
            } else {
                assert(all[before.len() as int] == e);
            }
        }
    }
}

/// A reconcile reports every tracked file that the walk no longer finds as removed, and every
/// file that it finds, was read and is not tracked as created.
pub proof fn a_reconcile_reports_what_came_and_went(cursor: Snapshot, walked: Walked, k: int)
    ensures
        0 <= k < cursor.entries().len() && !walked.has_key(cursor.entries()[k].0) ==> reconciled(
            cursor,
            walked,
        ).contains(
            (ChangeView {
                path: cursor.entries()[k].0,
                kind: ChangeKind::Removed,
                fingerprint: None,
                moved_from: None,
            }),
        ),
        0 <= k < walked.entries@.len() && walked.entries@[k].1 is Some && cursor.fingerprint_of(
            walked.entries@[k].0@,
        ) is None ==> reconciled(cursor, walked).contains(
            (ChangeView {
                path: walked.entries@[k].0@,
                kind: ChangeKind::Created,
                fingerprint: walked.entries@[k].1,
                moved_from: None,
            }),
        ),
        forall|i: int|
            0 <= i < reconciled(cursor, walked).len() ==> {
                let c = #[trigger] reconciled(cursor, walked)[i];
                ||| c.kind == ChangeKind::Removed && !walked.has_key(c.path)
                ||| c.kind == ChangeKind::Created && cursor.fingerprint_of(c.path) is None
            },
{
    let gone = gone_from(cursor.entries(), walked);
    let fresh = new_to(walked.entries@, cursor);
    let all = reconciled(cursor, walked);
    lemma_gone(cursor.entries(), walked);
    lemma_new(walked.entries@, cursor);
    if 0 <= k < cursor.entries().len() && !walked.has_key(cursor.entries()[k].0) {
        let i = choose|i: int| 0 <= i < gone.len() && gone[i] == cursor.entries()[k].0;
        assert(all[i] == removed(cursor.entries()[k].0));
    }
    if 0 <= k < walked.entries@.len() && walked.entries@[k].1 is Some && cursor.fingerprint_of(
        walked.entries@[k].0@,
    ) is None {
        let e = (walked.entries@[k].0@, walked.entries@[k].1->0);
        let i = choose|i: int| 0 <= i < fresh.len() && fresh[i] == e;
        assert(all[gone.len() + i] == created(e.0, e.1));
    }
    assert forall|i: int| 0 <= i < all.len() implies {
        let c = #[trigger] all[i];
        ||| c.kind == ChangeKind::Removed && !walked.has_key(c.path)
        ||| c.kind == ChangeKind::Created && cursor.fingerprint_of(c.path) is None
    } by {
        if i < gone.len() {
            assert(all[i] == removed(gone[i]));
        } else {
            let e = fresh[i - gone.len()];
            assert(all[i] == created(e.0, e.1));
        }
    }
}

// ----------------------------------------------------------------------------- observing

/// Whether a file is there and has another content, or is not where it was, or the other way
/// round.
pub open spec fn differs(was: Option<FileFingerprint>, now: Option<FileFingerprint>) -> bool {
    match (was, now) {
        (Some(a), Some(b)) => a.hash@ != b.hash@,
        (None, None) => false,
        _ => true,
    }
}

/// Observing a path brings what is known of it in step with what was read, and reports a change
/// exactly where the two differ: one that came as created, one that went as removed, one of
/// another content as modified.
pub proof fn observing_reports_how_a_file_changed(
    path: Seq<char>,
    was: Option<FileFingerprint>,
    read: FileRead,
)
    ensures
        ({
            let now = observed(was, read);
            let told = observed_change(path, was, read);
            &&& read matches FileRead::Found(fp) ==> now is Some && now->0.hash@ == fp.hash@
            &&& read is Missing ==> now is None
            &&& (read is Unreadable || read is Ignored) ==> now == was
            &&& told is Some <==> differs(was, now)
            &&& told matches Some(c) ==> {
                &&& c.path == path
                &&& c.fingerprint == now
                &&& c.moved_from is None
                &&& c.kind == match (was, now) {
                    (None, _) => ChangeKind::Created,
                    (_, None) => ChangeKind::Removed,
                    _ => ChangeKind::Modified,
                }
            }
        }),
{
}

} // verus!
