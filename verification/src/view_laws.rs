//! What the values behind results show: all that the results hold. Two results that are alike
//! as values have the same in every place.

use crate::activity::{row_view, rows_view, Activity};
use crate::bundle::SearchEntry;
use crate::events::{repo_view, repos_view, state_view, states_view};
use crate::fence::{spans_of, Region};
use crate::ipc::{ConflictFile, RepoInfo, SyncFolderState};
use crate::kb::{hits_view, opt_text, summaries_view, DocSummary, SearchHit, TagCount};
use crate::okf::{counts_view, IndexEntry};
use crate::scan::{changes_view, Change};
use crate::sync::{files_view, GitOutput};
use crate::text::texts;
use crate::viz::{concepts_view, Concept};
use crate::watcher::{events_view, WatchEvent};
use vstd::prelude::*;

verus! {

/// Search hits, catalog entries and tag counts that are alike have the same in every place.
pub proof fn answers_show_all_that_they_hold(
    a: Seq<SearchHit>,
    b: Seq<SearchHit>,
    c: Seq<DocSummary>,
    d: Seq<DocSummary>,
    e: Seq<TagCount>,
    f: Seq<TagCount>,
    i: int,
)
    requires
        hits_view(a) == hits_view(b),
        summaries_view(c) == summaries_view(d),
        counts_view(e) == counts_view(f),
    ensures
        a.len() == b.len(),
        c.len() == d.len(),
        e.len() == f.len(),
        0 <= i < a.len() ==> a[i].concept_id@ == b[i].concept_id@ && a[i].title@ == b[i].title@
            && a[i].snippet@ == b[i].snippet@ && a[i].path@ == b[i].path@ && texts(a[i].labels@)
            == texts(b[i].labels@),
        0 <= i < c.len() ==> c[i].path@ == d[i].path@ && c[i].kb_path@ == d[i].kb_path@ && opt_text(
            c[i].title,
        ) == opt_text(d[i].title) && texts(c[i].labels@) == texts(d[i].labels@),
        0 <= i < e.len() ==> e[i].tag@ == f[i].tag@ && e[i].count == f[i].count,
{
    assert(hits_view(a).len() == a.len() && hits_view(b).len() == b.len());
    assert(summaries_view(c).len() == c.len() && summaries_view(d).len() == d.len());
    assert(counts_view(e).len() == e.len() && counts_view(f).len() == f.len());
    if 0 <= i < a.len() {
        assert(hits_view(a)[i] == a[i]@ && hits_view(b)[i] == b[i]@);
    }
    if 0 <= i < c.len() {
        assert(summaries_view(c)[i] == c[i]@ && summaries_view(d)[i] == d[i]@);
    }
    if 0 <= i < e.len() {
        assert(counts_view(e)[i] == (e[i].tag@, e[i].count));
        assert(counts_view(f)[i] == (f[i].tag@, f[i].count));
    }
}

/// Entries of the index and of the search that are alike have the same in every place.
pub proof fn entries_show_all_that_they_hold(
    a: IndexEntry,
    b: IndexEntry,
    c: SearchEntry,
    d: SearchEntry,
)
    requires
        a@ == b@,
        c@ == d@,
    ensures
        a.okf_id@ == b.okf_id@,
        a.concept_id@ == b.concept_id@,
        a.content_hash@ == b.content_hash@,
        opt_text(a.title) == opt_text(b.title),
        texts(a.labels@) == texts(b.labels@),
        a.revision == b.revision,
        opt_text(a.updated_at) == opt_text(b.updated_at),
        c.title@ == d.title@,
        c.body@ == d.body@,
        c.haystack@ == d.haystack@,
        c.source_path@ == d.source_path@,
        texts(c.labels@) == texts(d.labels@),
{
}

/// Changes of files and of the watcher that are alike have the same in every place.
pub proof fn changes_show_all_that_they_hold(
    a: Seq<Change>,
    b: Seq<Change>,
    c: Seq<WatchEvent>,
    d: Seq<WatchEvent>,
    i: int,
)
    requires
        changes_view(a) == changes_view(b),
        events_view(c) == events_view(d),
    ensures
        a.len() == b.len(),
        c.len() == d.len(),
        0 <= i < a.len() ==> a[i].path@ == b[i].path@ && a[i].kind == b[i].kind && a[i].fingerprint
            == b[i].fingerprint && opt_text(a[i].moved_from) == opt_text(b[i].moved_from),
        0 <= i < c.len() ==> c[i].path@ == d[i].path@ && c[i].kind == d[i].kind,
{
    assert(changes_view(a).len() == a.len() && changes_view(b).len() == b.len());
    assert(events_view(c).len() == c.len() && events_view(d).len() == d.len());
    if 0 <= i < a.len() {
        assert(changes_view(a)[i] == a[i]@ && changes_view(b)[i] == b[i]@);
    }
    if 0 <= i < c.len() {
        assert(events_view(c)[i] == (c[i].path@, c[i].kind));
        assert(events_view(d)[i] == (d[i].path@, d[i].kind));
    }
}

/// Concepts of a bundle and regions of a body that are alike have the same in every place.
pub proof fn documents_show_all_that_they_hold(
    a: Seq<Concept>,
    b: Seq<Concept>,
    c: Seq<Region>,
    d: Seq<Region>,
    i: int,
)
    requires
        concepts_view(a) == concepts_view(b),
        spans_of(c) == spans_of(d),
    ensures
        a.len() == b.len(),
        c.len() == d.len(),
        0 <= i < a.len() ==> a[i].id@ == b[i].id@ && a[i].ty@ == b[i].ty@ && a[i].title@
            == b[i].title@ && a[i].description@ == b[i].description@ && a[i].resource@
            == b[i].resource@ && texts(a[i].tags@) == texts(b[i].tags@) && a[i].body@ == b[i].body@
            && texts(a[i].links_to@) == texts(b[i].links_to@),
        0 <= i < c.len() ==> c[i].start == d[i].start && c[i].inner_start == d[i].inner_start
            && c[i].inner_end == d[i].inner_end && c[i].end == d[i].end,
{
    assert(concepts_view(a).len() == a.len() && concepts_view(b).len() == b.len());
    assert(spans_of(c).len() == c.len() && spans_of(d).len() == d.len());
    if 0 <= i < a.len() {
        assert(concepts_view(a)[i] == a[i]@ && concepts_view(b)[i] == b[i]@);
    }
    if 0 <= i < c.len() {
        assert(spans_of(c)[i] == c[i]@ && spans_of(d)[i] == d[i]@);
    }
}

/// Conflicts, outputs of git, repositories, sync states and rows of the view that are alike have
/// the same in every place.
pub proof fn reports_show_all_that_they_hold(
    a: Seq<ConflictFile>,
    b: Seq<ConflictFile>,
    c: Seq<RepoInfo>,
    d: Seq<RepoInfo>,
    e: Seq<SyncFolderState>,
    f: Seq<SyncFolderState>,
    g: Seq<Activity>,
    h: Seq<Activity>,
    o: GitOutput,
    p: GitOutput,
    i: int,
)
    requires
        files_view(a) == files_view(b),
        repos_view(c) == repos_view(d),
        states_view(e) == states_view(f),
        rows_view(g) == rows_view(h),
        o@ == p@,
    ensures
        a.len() == b.len(),
        c.len() == d.len(),
        e.len() == f.len(),
        g.len() == h.len(),
        0 <= i < a.len() ==> a[i].path@ == b[i].path@ && opt_text(a[i].detail) == opt_text(
            b[i].detail,
        ),
        0 <= i < c.len() ==> c[i].name@ == d[i].name@ && opt_text(c[i].branch) == opt_text(
            d[i].branch,
        ) && c[i].work_dir@ == d[i].work_dir@ && c[i].linked == d[i].linked,
        0 <= i < e.len() ==> e[i].workspace_id@ == f[i].workspace_id@ && e[i].folder@
            == f[i].folder@ && e[i].is_kb == f[i].is_kb && opt_text(e[i].last_sync) == opt_text(
            f[i].last_sync,
        ) && opt_text(e[i].last_error) == opt_text(f[i].last_error),
        0 <= i < g.len() ==> g[i].time@ == h[i].time@ && g[i].kind == h[i].kind && g[i].title@
            == h[i].title@ && g[i].detail@ == h[i].detail@ && opt_text(g[i].path) == opt_text(
            h[i].path,
        ),
        o.success == p.success,
        o.code == p.code,
        o.stdout@ == p.stdout@,
        o.stderr@ == p.stderr@,
{
    assert(files_view(a).len() == a.len() && files_view(b).len() == b.len());
    assert(repos_view(c).len() == c.len() && repos_view(d).len() == d.len());
    assert(states_view(e).len() == e.len() && states_view(f).len() == f.len());
    assert(rows_view(g).len() == g.len() && rows_view(h).len() == h.len());
    if 0 <= i < a.len() {
        assert(files_view(a)[i].0 == a[i].path@ && files_view(b)[i].0 == b[i].path@);
        assert(files_view(a)[i].1 == opt_text(a[i].detail));
        assert(files_view(b)[i].1 == opt_text(b[i].detail));
    }
    if 0 <= i < c.len() {
        assert(repos_view(c)[i] == repo_view(c[i]) && repos_view(d)[i] == repo_view(d[i]));
    }
    if 0 <= i < e.len() {
        assert(states_view(e)[i] == state_view(e[i]) && states_view(f)[i] == state_view(f[i]));
    }
    if 0 <= i < g.len() {
        assert(rows_view(g)[i] == row_view(g[i]) && rows_view(h)[i] == row_view(h[i]));
    }
}

} // verus!
