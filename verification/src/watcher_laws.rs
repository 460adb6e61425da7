//! What the watcher is for: every change of a document is passed on, and nothing else.

use crate::lifecycle::filters_for;
use crate::path::lowered;
use crate::path_laws::paths_are_called_by_their_last_component;
use crate::scan::under_any;
use crate::text::{contains, decimal, texts};
use crate::text_laws::contained_texts_are_parts;
use crate::watcher::{
    existing, forwarded, health_of, remedy_to, route_of, suggested, ChangeKind, InotifyLimits,
    PathSet, Platform, RawEvent, Route, WatchFilter, WatchStatus,
};
use vstd::prelude::*;

verus! {

/// A file with one of the extensions, in capital letters or small ones, is passed on, and so is
/// one of the names, whatever its extension, unless it lies where nothing is watched.
pub proof fn files_pass_by_their_extension_or_name(
    filter: WatchFilter,
    base: Seq<char>,
    stem: Seq<char>,
    ext: Seq<char>,
    watched: Vec<String>,
)
    requires
        base.len() > 0,
        stem.len() > 0,
        !stem.contains('/'),
        !ext.contains('/'),
        !ext.contains('.'),
        stem + seq!['.'] + ext != ".."@,
        filter.extensions == Some(watched),
    ensures
        ({
            let path = base + seq!['/'] + (stem + seq!['.'] + ext);
            let lies_open = !under_any(path, texts(filter.ignored_prefixes@))
                && !filter.has_ignored_component(path);
            &&& filter.passes(path) ==> lies_open
            &&& lies_open && texts(watched@).contains(lowered(ext)) ==> filter.passes(path)
            &&& lies_open && texts(filter.filenames@).contains(stem + seq!['.'] + ext)
                ==> filter.passes(path)
            &&& filter.passes(path) ==> texts(watched@).contains(lowered(ext)) || texts(
                filter.filenames@,
            ).contains(stem + seq!['.'] + ext)
        }),
{
    paths_are_called_by_their_last_component(base, stem, ext, seq!['a']);
}

/// Without extensions every file passes that does not lie where nothing is watched.
pub proof fn all_files_pass_a_filter_without_extensions(filter: WatchFilter, path: Seq<char>)
    requires
        filter.extensions is None,
    ensures
        filter.passes(path) <==> !under_any(path, texts(filter.ignored_prefixes@))
            && !filter.has_ignored_component(path),
{
}

/// A change that the filter accepts is passed on, with its path and its kind, in its place among
/// the others; but a new directory, or a watched one that is gone, is looked into instead. What
/// the filter does not accept is not passed on.
pub proof fn every_accepted_change_is_passed_on(
    before: Seq<RawEvent>,
    e: RawEvent,
    after: Seq<RawEvent>,
    watched: PathSet,
    filter: WatchFilter,
)
    ensures
        ({
            let directory = (e.kind == ChangeKind::Created && e.is_dir) || (e.kind
                == ChangeKind::Removed && watched.has_key(e.path@));
            let all = forwarded(before + seq![e] + after, watched, filter);
            let b = forwarded(before, watched, filter);
            let a = forwarded(after, watched, filter);
            &&& directory ==> route_of(e, watched, filter) == Route::Resync && all == b + a
            &&& !directory && filter.passes(e.path@) ==> all == b + seq![(e.path@, e.kind)] + a
            &&& !directory && !filter.passes(e.path@) ==> all == b + a
        }),
{
    let one = seq![e];
    lemma_forwarded_concat(before + one, after, watched, filter);
    lemma_forwarded_concat(before, one, watched, filter);
    let none = Seq::<RawEvent>::empty();
    assert(one.drop_last() =~= none);
    assert(forwarded(none, watched, filter) =~= Seq::empty());
    let b = forwarded(before, watched, filter);
    let a = forwarded(after, watched, filter);
    assert(forwarded(one, watched, filter) =~= if route_of(e, watched, filter) == Route::Forward {
        seq![(e.path@, e.kind)]
    } else {
        Seq::empty()
    });
    assert(b + Seq::<(Seq<char>, ChangeKind)>::empty() =~= b);
}

proof fn lemma_forwarded_concat(
    a: Seq<RawEvent>,
    b: Seq<RawEvent>,
    watched: PathSet,
    filter: WatchFilter,
)
    ensures
        forwarded(a + b, watched, filter) == forwarded(a, watched, filter) + forwarded(
            b,
            watched,
            filter,
        ),
    decreases b.len(),
{
    if b.len() == 0 {
        assert(a + b =~= a);
        assert(forwarded(b, watched, filter) =~= Seq::empty());
        assert(forwarded(a, watched, filter) + forwarded(b, watched, filter) =~= forwarded(
            a,
            watched,
            filter,
        ));
    } else {
        lemma_forwarded_concat(a, b.drop_last(), watched, filter);
        assert((a + b).drop_last() =~= a + b.drop_last());
        assert((a + b).last() == b.last());
        assert(forwarded(a + b, watched, filter) =~= forwarded(a, watched, filter) + forwarded(
            b,
            watched,
            filter,
        ));
    }
}

/// Every accepted file of a directory that came is told as created, and nothing else is.
pub proof fn files_of_new_directories_are_told(
    entries: Seq<(String, bool)>,
    filter: WatchFilter,
    path: Seq<char>,
    kind: ChangeKind,
)
    ensures
        existing(entries, filter).contains((path, kind)) <==> kind == ChangeKind::Created
            && filter.passes(path) && exists|i: int|
            0 <= i < entries.len() && (#[trigger] entries[i]).1 && entries[i].0@ == path,
    decreases entries.len(),
{
    let all = existing(entries, filter);
    if entries.len() > 0 {
        let rest = entries.drop_last();
        let before = existing(rest, filter);
        files_of_new_directories_are_told(rest, filter, path, kind);
        let e = entries.last();
        if before.contains((path, kind)) {
            let k = choose|k: int| 0 <= k < before.len() && before[k] == (path, kind);
            assert(all[k] == (path, kind));
            let i = choose|i: int|
                0 <= i < rest.len() && (#[trigger] rest[i]).1 && rest[i].0@ == path;
            assert(entries[i].1 && entries[i].0@ == path);
        }
        if all.contains((path, kind)) && !before.contains((path, kind)) {
            let k = choose|k: int| 0 <= k < all.len() && all[k] == (path, kind);
            if k < before.len() {
                assert(before[k] == all[k]);
            }
            assert(entries[entries.len() - 1] == e);
        }
        if kind == ChangeKind::Created && filter.passes(path) && exists|i: int|
            0 <= i < entries.len() && (#[trigger] entries[i]).1 && entries[i].0@ == path {
            let i = choose|i: int|
                0 <= i < entries.len() && (#[trigger] entries[i]).1 && entries[i].0@ == path;
            if i < rest.len() {
                assert(rest[i] == entries[i]);
            } else {
                assert(all[before.len() as int] == (path, kind));
            }
        }
    }
}

/// Watching is healthy below four fifths of the limit, and beyond it from the limit on; the
/// health says how many directories and which limits it is about, and how to raise a limit that
/// is near: to one that leaves room for as many again.
pub proof fn health_goes_by_the_limit(watched: usize, l: InotifyLimits, platform: Platform)
    ensures
        ({
            let h = health_of(watched, Some(l), platform);
            let limit = l.max_user_watches;
            &&& h.watched_dirs == watched
            &&& h.limits == Some(l)
            &&& watched * 5 < limit * 4 ==> h.status == WatchStatus::Healthy
            &&& watched * 5 >= limit * 4 && watched < limit ==> h.status == WatchStatus::Approaching
            &&& watched >= limit ==> h.status == WatchStatus::Exceeded
            &&& h.remediation matches Some(r) ==> {
                let target = suggested(
                    if watched > limit {
                        watched
                    } else {
                        limit
                    },
                );
                &&& r.requires_root
                &&& contains(r.summary, decimal(target as nat))
                &&& forall|i: int|
                    0 <= i < r.commands.len() ==> contains(
                        #[trigger] r.commands[i],
                        "fs.inotify.max_user_watches="@ + decimal(target as nat),
                    )
                &&& r.commands.len() == 2
            }
        }),
        health_of(watched, None, platform).status == WatchStatus::Healthy,
        health_of(watched, None, platform).watched_dirs == watched,
{
    let h = health_of(watched, Some(l), platform);
    let limit = l.max_user_watches;
    if let Some(r) = h.remediation {
        let target = suggested(
            if watched > limit {
                watched
            } else {
                limit
            },
        );
        let n = decimal(target as nat);
        assert(r == remedy_to(target));
        let setting = "fs.inotify.max_user_watches="@ + n;
        let e = Seq::<char>::empty();
        contained_texts_are_parts(r.summary, n);
        assert(r.summary =~= "Raise the inotify watch limit to at least "@ + n + "."@);
        reveal_strlit("sudo sysctl -w fs.inotify.max_user_watches=");
        reveal_strlit("sudo sysctl -w ");
        reveal_strlit("echo 'fs.inotify.max_user_watches=");
        reveal_strlit("echo '");
        reveal_strlit("fs.inotify.max_user_watches=");
        contained_texts_are_parts(r.commands[0], setting);
        assert(r.commands[0] =~= "sudo sysctl -w "@ + setting + e);
        contained_texts_are_parts(r.commands[1], setting);
        let tail = "' | sudo tee /etc/sysctl.d/99-looper-inotify.conf"@;
        assert(r.commands[1] =~= "echo '"@ + setting + tail);
    }
}

/// The filter of a workspace lets through the files of its extensions, in capital letters or
/// small ones, and ignore files, unless they lie where nothing is watched.
pub proof fn files_of_the_workspace_pass(
    filter: WatchFilter,
    extensions: Seq<Seq<char>>,
    excluded: Seq<Seq<char>>,
    base: Seq<char>,
    stem: Seq<char>,
    ext: Seq<char>,
    k: int,
)
    requires
        filters_for(filter, extensions, excluded),
        base.len() > 0,
        stem.len() > 0,
        !stem.contains('/'),
        !ext.contains('/'),
        !ext.contains('.'),
        stem + seq!['.'] + ext != ".."@,
        0 <= k < extensions.len(),
        lowered(ext) == lowered(extensions[k]),
        ({
            let path = base + seq!['/'] + (stem + seq!['.'] + ext);
            !under_any(path, excluded) && !filter.has_ignored_component(path)
        }),
    ensures
        filter.passes(base + seq!['/'] + (stem + seq!['.'] + ext)),
{
    let watched = filter.extensions->0;
    files_pass_by_their_extension_or_name(filter, base, stem, ext, watched);
    let small = extensions.map_values(|s: Seq<char>| lowered(s));
    assert(texts(watched@) =~= small);
    assert(small[k] == lowered(ext));
}

} // verus!
