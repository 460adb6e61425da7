//! What probing and testing a folder is for: what git said of it, from the first command to the
//! last.

use crate::fileshare::remote_of;
use crate::fileshare_laws::{count_text, counts_read_back};
use crate::git::HeadState;
use crate::ipc::SyncFolderConfig;
use crate::path::joined_path;
use crate::probe::{
    blank_report, first_file, git_places, head_branch, nothing_found, probe_after, probe_command,
    probe_opened, remarks, summary_of, test_after, test_command, test_opened, Found, Probe,
    ProbeStage, Report, Test, TestStage,
};
use crate::sync::{Output, Reply};
use crate::syncer::probe_started;
use crate::text::{contains, decimal, lines, starts, trim_white};
use crate::text_laws::{
    bare, contained_texts_are_parts, decimals_read_back, lemma_bare_is_trimmed,
    lemma_contains_joined,
};
use vstd::prelude::*;

verus! {

/// The reply of a command that ran with success and printed something.
pub open spec fn said(stdout: Seq<char>) -> Reply {
    Reply::Ran(Output { success: true, code: Some(0), stdout, stderr: Seq::empty() })
}

/// A probe that its repository and four replies have been told to, each to the command that it
/// asked for.
pub open spec fn probed(
    p: Probe,
    head: HeadState,
    remotes: Reply,
    upstream: Reply,
    count: Reply,
    conflicts: Reply,
) -> Probe {
    let p = probe_opened(p, Some(head));
    let p = probe_after(p, probe_command(p), remotes);
    let p = probe_after(p, probe_command(p), upstream);
    let p = probe_after(p, probe_command(p), count);
    probe_after(p, probe_command(p), conflicts)
}

/// A probe of a folder with an upstream tells all that git said: the branch, whether there is a
/// remote, how far the branch is ahead and behind, and whether files are in conflict. Each is
/// asked of git, and the count between the branch and its upstream.
pub proof fn a_probe_tells_what_git_said(
    start: Probe,
    head: HeadState,
    remotes: Seq<char>,
    up: Seq<char>,
    ahead: u32,
    behind: u32,
    conflicts: Seq<char>,
)
    requires
        start.stage == ProbeStage::Opening,
        start.found == nothing_found(),
        bare(up),
    ensures
        ({
            let done = probed(
                start,
                head,
                said(remotes),
                said(up),
                said(count_text(ahead, behind)),
                said(conflicts),
            );
            &&& done.stage == ProbeStage::Finished
            &&& done.found == (Found {
                manageable: true,
                has_remote: trim_white(remotes).len() > 0,
                branch: head_branch(head),
                ahead,
                behind,
                conflicted: trim_white(conflicts).len() > 0,
                detail: None,
            })
            &&& done.upstream == up
        }),
{
    lemma_bare_is_trimmed(up);
    counts_read_back(ahead, behind);
    let counts = count_text(ahead, behind);
    decimals_read_back(ahead as nat);
    decimals_read_back(behind as nat);
    assert(counts[0] == decimal(ahead as nat)[0]);
    assert(counts.last() == decimal(behind as nat).last());
    assert(bare(counts));
    lemma_bare_is_trimmed(counts);
    let p1 = probe_opened(start, Some(head));
    let p2 = probe_after(p1, probe_command(p1), said(remotes));
    assert(p2.stage == ProbeStage::Upstream);
    let p3 = probe_after(p2, probe_command(p2), said(up));
    assert(p3.stage == ProbeStage::Count && p3.upstream == up);
    let p4 = probe_after(p3, probe_command(p3), said(count_text(ahead, behind)));
    assert(p4.stage == ProbeStage::Conflicts && p4.found.ahead == ahead && p4.found.behind
        == behind);
    let p5 = probe_after(p4, probe_command(p4), said(conflicts));
    let out = trim_white(conflicts);
    assert((lines(out).len() > 0) == (out.len() > 0));
}

/// What a probe of a folder asks of git, in turn: the remotes, the upstream of the branch that
/// is configured, the count between the two, and the files in conflict.
pub proof fn a_probe_asks_about_the_branch(
    folder: Seq<char>,
    cfg: SyncFolderConfig,
    head: HeadState,
    remotes: Reply,
    up: Seq<char>,
    count: Reply,
)
    requires
        bare(up),
    ensures
        ({
            let p0 = probe_started(folder, cfg);
            let p1 = probe_opened(p0, Some(head));
            let p2 = probe_after(p1, probe_command(p1), remotes);
            let p3 = probe_after(p2, probe_command(p2), said(up));
            let p4 = probe_after(p3, probe_command(p3), count);
            &&& p0.folder == folder && p0.found == nothing_found()
            &&& p0.stage == ProbeStage::Opening
            &&& probe_command(p1) == seq!["remote"@]
            &&& probe_command(p2) == seq![
                "rev-parse"@,
                "--abbrev-ref"@,
                cfg.branch@ + "@{upstream}"@,
            ]
            &&& probe_command(p3) == seq![
                "rev-list"@,
                "--left-right"@,
                "--count"@,
                cfg.branch@ + "..."@ + up,
            ]
            &&& probe_command(p4) == seq!["diff"@, "--name-only"@, "--diff-filter=U"@]
        }),
{
    lemma_bare_is_trimmed(up);
}

/// A folder without a repository is told to be none, and one without an upstream is looked at
/// for conflicts all the same.
pub proof fn a_probe_without_an_upstream_looks_for_conflicts(
    start: Probe,
    head: HeadState,
    remotes: Reply,
    upstream: Reply,
    conflicts: Seq<char>,
)
    requires
        start.stage == ProbeStage::Opening,
        start.found == nothing_found(),
        !(upstream matches Reply::Ran(o) && o.success && trim_white(o.stdout).len() > 0),
    ensures
        probe_opened(start, None).stage == ProbeStage::Finished,
        !probe_opened(start, None).found.manageable,
        ({
            let p1 = probe_opened(start, Some(head));
            let p2 = probe_after(p1, probe_command(p1), remotes);
            let p3 = probe_after(p2, probe_command(p2), upstream);
            let p4 = probe_after(p3, probe_command(p3), said(conflicts));
            &&& p4.stage == ProbeStage::Finished
            &&& p4.found.manageable
            &&& p4.found.conflicted == (trim_white(conflicts).len() > 0)
            &&& p4.found.ahead == 0 && p4.found.behind == 0
        }),
{
    let out = trim_white(conflicts);
    assert((lines(out).len() > 0) == (out.len() > 0));
    let p1 = probe_opened(start, Some(head));
    let p2 = probe_after(p1, probe_command(p1), remotes);
    let p3 = probe_after(p2, probe_command(p2), upstream);
    assert(p3.stage == ProbeStage::Conflicts);
}

/// A folder is ready to be synced where git runs, it is a repository that git can look at, and
/// the remote of its upstream answers; and the report says all that was found.
pub proof fn a_test_tells_what_git_said(
    start: Test,
    version: Seq<char>,
    head: HeadState,
    status: Seq<char>,
    up: Seq<char>,
    answer: Reply,
)
    requires
        start.stage == TestStage::Version,
        start.report == blank_report(),
        bare(up),
    ensures
        ({
            let t1 = test_after(start, test_command(start), said(version));
            let t2 = test_opened(t1, Some(head));
            let t3 = test_after(t2, test_command(t2), said(status));
            let t4 = test_after(t3, test_command(t3), said(up));
            let t5 = test_after(t4, test_command(t4), answer);
            let reached = answer matches Reply::Ran(o) && o.success;
            &&& t4.remote == remote_of(up)
            &&& t5.stage == TestStage::Finished
            &&& t5.report.ok == reached
            &&& t5.report.git == Some((start.git_bin, trim_white(version)))
            &&& t5.report.is_repo && t5.report.has_remote
            &&& t5.report.branch == head_branch(head)
            &&& t5.report.remote_reachable == Some(reached)
            &&& t5.report.summary == summary_of(t5.report)
        }),
{
    lemma_bare_is_trimmed(up);
    let t1 = test_after(start, test_command(start), said(version));
    let t2 = test_opened(t1, Some(head));
    let t3 = test_after(t2, test_command(t2), said(status));
    assert(t3.stage == TestStage::Upstream);
    let t4 = test_after(t3, test_command(t3), said(up));
    assert(t4.stage == TestStage::Reach);
    let t5 = test_after(t4, test_command(t4), answer);
    let blank = Report { summary: Seq::empty(), ..t5.report };
    assert(remarks(t5.report) =~= remarks(blank));
}

/// A folder is not ready where git does not run, or cannot look at it, or it has no upstream.
pub proof fn a_test_that_fails_says_so(t: Test, failed: Reply)
    requires
        !t.report.ok,
        !(failed matches Reply::Ran(o) && o.success),
        t.stage == TestStage::Version || t.stage == TestStage::Status || t.stage
            == TestStage::Upstream || t.stage == TestStage::Reach,
    ensures
        ({
            let after = test_after(t, test_command(t), failed);
            &&& after.stage == TestStage::Finished
            &&& !after.report.ok
            &&& after.report.summary.len() > 0
        }),
        test_opened(t, None).stage == TestStage::Finished,
        !test_opened(t, None).report.ok,
{
    reveal_strlit("git not found / not runnable at ");
    reveal_strlit("`git status` failed: ");
    reveal_strlit("Not ready");
    reveal_strlit("Ready to sync");
}

/// Git is the first program of that name in the directories that are searched, or at the path
/// that is given, where one is.
pub proof fn git_is_found_where_it_stands(
    places: Seq<Seq<char>>,
    files: Seq<Seq<char>>,
    k: int,
    custom: Seq<char>,
)
    requires
        0 <= k < places.len(),
    ensures
        files.contains(joined_path(places[k], "git"@)) && (forall|j: int|
            0 <= j < k ==> !files.contains(joined_path(#[trigger] places[j], "git"@)))
            ==> first_file(git_places(None, places), files) == Some(
            joined_path(places[k], "git"@),
        ),
        trim_white(custom).len() > 0 ==> git_places(Some(custom), places) == seq![custom],
        trim_white(custom).len() == 0 ==> git_places(Some(custom), places) == git_places(
            None,
            places,
        ),
{
    let all = git_places(None, places);
    if files.contains(joined_path(places[k], "git"@)) && (forall|j: int|
        0 <= j < k ==> !files.contains(joined_path(#[trigger] places[j], "git"@))) {
        assert forall|j: int| 0 <= j < k implies !files.contains(#[trigger] all[j]) by {
            assert(all[j] == joined_path(places[j], "git"@));
        }
        lemma_first_file(all, files, k);
    }
}

proof fn lemma_first_file(places: Seq<Seq<char>>, files: Seq<Seq<char>>, k: int)
    requires
        0 <= k < places.len(),
        files.contains(places[k]),
        forall|j: int| 0 <= j < k ==> !files.contains(#[trigger] places[j]),
    ensures
        first_file(places, files) == Some(places[k]),
    decreases k,
{
    if k > 0 {
        assert(!files.contains(places[0]));
        let rest = places.drop_first();
        assert forall|j: int| 0 <= j < k - 1 implies !files.contains(#[trigger] rest[j]) by {
            assert(rest[j] == places[j + 1]);
        }
        lemma_first_file(rest, files, k - 1);
    }
}

/// A summary begins with whether the folder is ready, and tells the branch, the upstream and the
/// remote.
pub proof fn summaries_tell_what_was_found(r: Report, b: Seq<char>)
    ensures
        r.ok ==> starts(summary_of(r), "Ready to sync"@),
        !r.ok ==> starts(summary_of(r), "Not ready"@),
        r.branch == Some(b) ==> contains(summary_of(r), "on `"@ + b + "`"@),
        r.has_remote ==> contains(summary_of(r), "upstream configured"@),
        !r.has_remote ==> contains(summary_of(r), "no upstream — push the branch first"@),
        r.remote_reachable == Some(true) ==> contains(summary_of(r), "remote reachable"@),
        r.remote_reachable == Some(false) ==> contains(
            summary_of(r),
            "remote NOT reachable (network or auth)"@,
        ),
{
    let head = if r.ok {
        "Ready to sync"@
    } else {
        "Not ready"@
    };
    let s = summary_of(r);
    assert(s.subrange(0, head.len() as int) =~= head);
    let rs = remarks(r);
    let at: int = if r.branch is Some {
        1
    } else {
        0
    };
    if r.branch is Some {
        lemma_remarked(r, 0);
    }
    lemma_remarked(r, at);
    if r.remote_reachable is Some {
        lemma_remarked(r, at + 1);
    }
}

proof fn lemma_remarked(r: Report, k: int)
    requires
        0 <= k < remarks(r).len(),
    ensures
        contains(summary_of(r), remarks(r)[k]),
{
    let head = if r.ok {
        "Ready to sync"@
    } else {
        "Not ready"@
    };
    let rs = remarks(r);
    let (a, b) = lemma_contains_joined(rs, ", "@, k);
    let s = summary_of(r);
    contained_texts_are_parts(s, rs[k]);
    assert(s =~= (head + " — "@ + a) + rs[k] + (b + "."@));
}

} // verus!
