//! What a sync of a folder runs and what it comes to, from its start to its end.
//!
//! Each law follows a whole cycle: given what git replies to one command after the other, it
//! states which commands are run, in their order, and the outcome.

use crate::fileshare::{
    after, after_opening, command, conflicts_at, counted, numbers, remote_of, started, unresolved,
    Cycle, Stage,
};
use crate::git::HeadState;
use crate::ipc::{SyncDirection, SyncFolderConfig, SyncResolution};
use crate::sync::{tells_of_auth, Failure, Outcome, Output, Reply};
use crate::text::{contains, decimal, join, lines, trim_white, white_words, without_return};
use crate::text_laws::{
    bare, decimals_read_back, lemma_index_behind, lines_begin_with_the_first,
    words_begin_with_the_first,
};
use vstd::prelude::*;

verus! {

/// A git command: its arguments.
pub type Words = Seq<Seq<char>>;

/// Where a cycle is once git has replied to the commands that it asked for, in order.
#[verifier::opaque]
pub open spec fn run(c: Cycle, secs: u64, replies: Seq<Reply>) -> Cycle
    decreases replies.len(),
{
    if replies.len() == 0 {
        c
    } else {
        let before = run(c, secs, replies.drop_last());
        after(before, command(before, secs), replies.last())
    }
}

/// The commands that a cycle asked for, where git replied to them in order.
#[verifier::opaque]
pub open spec fn asked(c: Cycle, secs: u64, replies: Seq<Reply>) -> Seq<Words>
    decreases replies.len(),
{
    if replies.len() == 0 {
        Seq::empty()
    } else {
        asked(c, secs, replies.drop_last()).push(
            command(run(c, secs, replies.drop_last()), secs),
        )
    }
}

/// A cycle of a folder whose repository was opened and is on the sync branch.
pub open spec fn opened(
    folder: Seq<char>,
    cfg: SyncFolderConfig,
    resolution: Option<SyncResolution>,
) -> Cycle {
    after_opening(started(folder, cfg, resolution), Some(HeadState::Branch(cfg.branch)))
}

/// Whether git ran a command with success and printed a text, white space around it aside.
pub open spec fn printing(r: Reply, text: Seq<char>) -> bool {
    r matches Reply::Ran(o) && o.success && trim_white(o.stdout) == text
}

/// Whether git ran a command with success.
pub open spec fn succeeding(r: Reply) -> bool {
    r matches Reply::Ran(o) && o.success
}

/// Whether git ran a command, which failed.
pub open spec fn failing(r: Reply) -> bool {
    r matches Reply::Ran(o) && !o.success
}

/// Whether the remote rejected a push for being behind.
pub open spec fn rejected(r: Reply) -> bool {
    &&& r matches Reply::Ran(o)
    &&& !o.success
    &&& !tells_of_auth(o.stderr)
    &&& contains(o.stderr, "rejected"@) || contains(o.stderr, "non-fast-forward"@) || contains(
        o.stderr,
        "fetch first"@,
    )
}

/// The failure that a command which failed is told as.
pub open spec fn failure_of(folder: Seq<char>, words: Words, o: Output) -> Failure {
    if tells_of_auth(o.stderr) {
        Failure::Auth(folder, o.stderr)
    } else {
        Failure::GitCli(join(words, " "@), o.code, o.stderr)
    }
}

/// What git prints of the commits that are ahead and behind.
pub open spec fn count_text(ahead: u32, behind: u32) -> Seq<char> {
    decimal(ahead as nat) + seq!['\t'] + decimal(behind as nat)
}

/// Paths as git lists them.
pub open spec fn listed(paths: Seq<Seq<char>>) -> Seq<char> {
    join(paths, seq!['\n'])
}

/// Whether texts can be listed one on a line.
pub open spec fn are_lines(paths: Seq<Seq<char>>) -> bool {
    forall|k: int|
        0 <= k < paths.len() ==> bare(#[trigger] paths[k]) && !paths[k].contains('\n')
}

/// Files in conflict, of which nothing more is known.
pub open spec fn in_conflict(paths: Seq<Seq<char>>) -> Outcome {
    Outcome::Conflict(
        Seq::new(paths.len(), |i: int| (paths[i], None::<Seq<char>>)),
    )
}

// -------------------------------------------------------------------------- lemmas

/// The counts that git prints are read as the numbers they are.
pub proof fn counts_read_back(ahead: u32, behind: u32)
    ensures
        counted(count_text(ahead, behind)) == (ahead, behind),
{
    let a = decimal(ahead as nat);
    let b = decimal(behind as nat);
    decimals_read_back(ahead as nat);
    decimals_read_back(behind as nat);
    words_begin_with_the_first(a, '\t', b);
    words_begin_with_the_first(b, '\t', b);
    let words = white_words(count_text(ahead, behind));
    assert(words =~= seq![a, b]);
    assert(words.drop_last() =~= seq![a]);
    assert(seq![a].drop_last() =~= Seq::empty());
    assert(numbers(Seq::<Seq<char>>::empty()) =~= Seq::<u32>::empty());
    assert(numbers(seq![a]) =~= seq![ahead]);
    assert(numbers(words) =~= seq![ahead, behind]);
}

/// The remote of an upstream is what stands before its first slash, or `origin`.
pub proof fn upstreams_name_their_remote(remote: Seq<char>, rest: Seq<char>, alone: Seq<char>)
    requires
        !remote.contains('/'),
        !alone.contains('/'),
    ensures
        remote_of(remote + "/"@ + rest) == remote,
        remote_of(alone) == "origin"@,
{
    reveal_strlit("/");
    assert("/"@ =~= seq!['/']);
    let up = remote + "/"@ + rest;
    lemma_index_behind(remote, '/', rest);
    assert(up[remote.len() as int] == '/');
    assert(up.take(remote.len() as int) =~= remote);
}

/// Paths that git lists are read as those paths, in their order.
pub proof fn listed_paths_read_back(paths: Seq<Seq<char>>)
    requires
        are_lines(paths),
    ensures
        lines(listed(paths)) == paths,
        paths.len() > 0 ==> trim_white(listed(paths)) == listed(paths) && listed(paths).len() > 0,
    decreases paths.len(),
{
    if paths.len() == 0 {
        assert(lines(listed(paths)) =~= paths);
    } else {
        let first = paths[0];
        assert(bare(first));
        lemma_listed_is_bare(paths);
        crate::text_laws::lemma_bare_is_trimmed(listed(paths));
        assert(without_return(first) == first);
        if paths.len() == 1 {
            lines_begin_with_the_first(first, Seq::empty());
            assert(lines(first) =~= paths);
        } else {
            let rest = paths.drop_first();
            assert forall|k: int| 0 <= k < rest.len() implies bare(#[trigger] rest[k])
                && !rest[k].contains('\n') by {
                assert(rest[k] == paths[k + 1]);
            }
            listed_paths_read_back(rest);
            lines_begin_with_the_first(first, listed(rest));
            assert(listed(paths) == first + seq!['\n'] + listed(rest));
            assert(seq![first] + rest =~= paths);
        }
    }
}

proof fn lemma_listed_is_bare(paths: Seq<Seq<char>>)
    requires
        are_lines(paths),
        paths.len() > 0,
    ensures
        bare(listed(paths)),
    decreases paths.len(),
{
    assert(bare(paths[0]));
    if paths.len() > 1 {
        let rest = paths.drop_first();
        assert forall|k: int| 0 <= k < rest.len() implies bare(#[trigger] rest[k])
            && !rest[k].contains('\n') by {
            assert(rest[k] == paths[k + 1]);
        }
        lemma_listed_is_bare(rest);
        let all = paths[0] + seq!['\n'] + listed(rest);
        assert(all[0] == paths[0][0]);
        assert(all.last() == listed(rest).last());
    }
}

proof fn lemma_conflicts(paths: Seq<Seq<char>>)
    ensures
        Outcome::Conflict(conflicts_at(paths)) == in_conflict(paths),
{
    assert(conflicts_at(paths) =~= Seq::new(
        paths.len(),
        |i: int| (paths[i], None::<Seq<char>>),
    ));
}

// ----------------------------------------------------------------- single steps

proof fn lemma_step(c: Cycle, secs: u64, before: Seq<Reply>, r: Reply)
    ensures
        run(c, secs, before.push(r)) == after(
            run(c, secs, before),
            command(run(c, secs, before), secs),
            r,
        ),
        asked(c, secs, before.push(r)) == asked(c, secs, before).push(
            command(run(c, secs, before), secs),
        ),
{
    reveal(run);
    reveal(asked);
    assert(before.push(r).drop_last() =~= before);
}

proof fn lemma_none(c: Cycle, secs: u64)
    ensures
        run(c, secs, Seq::empty()) == c,
        asked(c, secs, Seq::empty()) == Seq::<Words>::empty(),
{
    reveal(run);
    reveal(asked);
}

proof fn lemma_ended(c: Cycle, secs: u64)
    requires
        c.stage == Stage::Finished,
    ensures
        command(c, secs).len() == 0,
{
}

/// Whether a reply takes a cycle from a state, where it asked for some words, to another.
spec fn goes(
    c: Cycle,
    secs: u64,
    before: Seq<Reply>,
    r: Reply,
    words: Words,
    next: Cycle,
) -> bool {
    &&& run(c, secs, before.push(r)) == next
    &&& asked(c, secs, before.push(r)) == asked(c, secs, before).push(words)
}

proof fn step_no_conflicts(c: Cycle, secs: u64, before: Seq<Reply>, r: Reply)
    requires
        run(c, secs, before).stage == Stage::Conflicts,
        run(c, secs, before).resolution is None,
        printing(r, Seq::empty()),
    ensures
        ({
            let s = run(c, secs, before);
            goes(c, secs, before, r, seq!["diff"@, "--name-only"@, "--diff-filter=U"@], (Cycle {
                stage: if s.direction == SyncDirection::PullOnly {
                    Stage::FetchOnly
                } else {
                    Stage::Add
                },
                ..s
            }))
        }),
{
    lemma_step(c, secs, before, r);
    assert(lines(Seq::<char>::empty()) =~= Seq::<Seq<char>>::empty());
}

proof fn step_conflicts(c: Cycle, secs: u64, before: Seq<Reply>, r: Reply, paths: Seq<Seq<char>>)
    requires
        run(c, secs, before).stage == Stage::Conflicts,
        are_lines(paths),
        printing(r, listed(paths)),
        run(c, secs, before).resolution is Some || paths.len() > 0,
    ensures
        ({
            let s = run(c, secs, before);
            goes(c, secs, before, r, seq!["diff"@, "--name-only"@, "--diff-filter=U"@], match s.resolution {
                None => Cycle {
                    stage: Stage::Finished,
                    outcome: Some(Ok::<Outcome, Failure>(in_conflict(paths))),
                    ..s
                },
                Some(SyncResolution::MarkResolved) => Cycle { stage: Stage::MarkAdd, ..s },
                Some(_) => Cycle {
                    stage: if paths.len() > 0 {
                        Stage::Checkout
                    } else {
                        Stage::ResolvedAdd
                    },
                    paths: paths.reverse(),
                    ..s
                },
            })
        }),
{
    lemma_step(c, secs, before, r);
    listed_paths_read_back(paths);
    lemma_conflicts(paths);
    if paths.len() == 0 {
        assert(listed(paths) =~= Seq::empty());
    }
}

proof fn step_marking(c: Cycle, secs: u64, before: Seq<Reply>, r: Reply)
    requires
        run(c, secs, before).stage == Stage::Conflicts,
        run(c, secs, before).resolution == Some(SyncResolution::MarkResolved),
        succeeding(r),
    ensures
        ({
            let s = run(c, secs, before);
            goes(c, secs, before, r, seq!["diff"@, "--name-only"@, "--diff-filter=U"@], (Cycle { stage: Stage::MarkAdd, ..s }))
        }),
{
    lemma_step(c, secs, before, r);
}

proof fn step_add(c: Cycle, secs: u64, before: Seq<Reply>, r: Reply)
    requires
        run(c, secs, before).stage == Stage::Add,
        succeeding(r),
    ensures
        ({
            let s = run(c, secs, before);
            goes(c, secs, before, r, seq!["add"@, "-A"@], (Cycle { stage: Stage::Staged, ..s }))
        }),
{
    lemma_step(c, secs, before, r);
}

proof fn step_staged(c: Cycle, secs: u64, before: Seq<Reply>, r: Reply)
    requires
        run(c, secs, before).stage == Stage::Staged,
        succeeding(r) || failing(r),
    ensures
        ({
            let s = run(c, secs, before);
            goes(c, secs, before, r, seq!["diff"@, "--cached"@, "--quiet"@], (Cycle {
                stage: if succeeding(r) {
                    Stage::Fetch
                } else {
                    Stage::Commit
                },
                ..s
            }))
        }),
{
    lemma_step(c, secs, before, r);
}

proof fn step_commit(c: Cycle, secs: u64, before: Seq<Reply>, r: Reply)
    requires
        run(c, secs, before).stage == Stage::Commit,
        succeeding(r),
    ensures
        ({
            let s = run(c, secs, before);
            goes(c, secs, before, r, seq![
                "commit"@,
                "--no-edit"@,
                "-m"@,
                "looper auto-sync @ "@ + decimal(secs as nat),
            ], (Cycle { stage: Stage::Fetch, committed: true, ..s }))
        }),
{
    lemma_step(c, secs, before, r);
}

proof fn step_fetch(c: Cycle, secs: u64, before: Seq<Reply>, r: Reply)
    requires
        run(c, secs, before).stage == Stage::Fetch,
        succeeding(r),
    ensures
        ({
            let s = run(c, secs, before);
            goes(c, secs, before, r, seq!["fetch"@, s.remote, s.branch], (Cycle { stage: Stage::Count, ..s }))
        }),
{
    lemma_step(c, secs, before, r);
}

proof fn step_count(c: Cycle, secs: u64, before: Seq<Reply>, r: Reply, ahead: u32, behind: u32)
    requires
        run(c, secs, before).stage == Stage::Count,
        printing(r, count_text(ahead, behind)),
    ensures
        ({
            let s = run(c, secs, before);
            goes(c, secs, before, r, seq!["rev-list"@, "--left-right"@, "--count"@, s.branch + "..."@ + (s.remote + "/"@ + s.branch)], (Cycle {
                stage: if behind == 0 {
                    Stage::Recount
                } else if ahead == 0 {
                    Stage::FastForward
                } else {
                    Stage::Merge
                },
                ..s
            }))
        }),
{
    lemma_step(c, secs, before, r);
    counts_read_back(ahead, behind);
}

proof fn step_forward(c: Cycle, secs: u64, before: Seq<Reply>, r: Reply)
    requires
        run(c, secs, before).stage == Stage::FastForward,
        succeeding(r),
    ensures
        ({
            let s = run(c, secs, before);
            goes(c, secs, before, r, seq!["merge"@, "--ff-only"@, s.remote + "/"@ + s.branch], (Cycle { stage: Stage::Recount, pulled: true, ..s }))
        }),
{
    lemma_step(c, secs, before, r);
}

proof fn step_merge(c: Cycle, secs: u64, before: Seq<Reply>, r: Reply)
    requires
        run(c, secs, before).stage == Stage::Merge,
        succeeding(r),
    ensures
        ({
            let s = run(c, secs, before);
            goes(c, secs, before, r, seq!["merge"@, "--no-edit"@, s.remote + "/"@ + s.branch], (Cycle { stage: Stage::Recount, pulled: true, ..s }))
        }),
{
    lemma_step(c, secs, before, r);
}

proof fn step_merge_failed(c: Cycle, secs: u64, before: Seq<Reply>, o: Output)
    requires
        run(c, secs, before).stage == Stage::Merge,
        !o.success,
    ensures
        ({
            let s = run(c, secs, before);
            goes(c, secs, before, Reply::Ran(o), seq!["merge"@, "--no-edit"@, s.remote + "/"@ + s.branch], (Cycle { stage: Stage::MergeConflicts, merge: Some(o), ..s }))
        }),
{
    lemma_step(c, secs, before, Reply::Ran(o));
}

proof fn step_merge_conflicts(c: Cycle, secs: u64, before: Seq<Reply>, r: Reply, paths: Seq<Seq<char>>, o: Output)
    requires
        run(c, secs, before).stage == Stage::MergeConflicts,
        run(c, secs, before).merge == Some(o),
        are_lines(paths),
        printing(r, listed(paths)),
    ensures
        ({
            let s = run(c, secs, before);
            goes(c, secs, before, r, seq!["diff"@, "--name-only"@, "--diff-filter=U"@], (Cycle {
                stage: Stage::Finished,
                outcome: Some(
                    if paths.len() > 0 {
                        Ok::<Outcome, Failure>(in_conflict(paths))
                    } else {
                        Err::<Outcome, Failure>(
                            failure_of(
                                s.folder,
                                seq!["merge"@, "--no-edit"@, s.remote + "/"@ + s.branch],
                                o,
                            ),
                        )
                    },
                ),
                ..s
            }))
        }),
{
    lemma_step(c, secs, before, r);
    listed_paths_read_back(paths);
    lemma_conflicts(paths);
    if paths.len() == 0 {
        assert(listed(paths) =~= Seq::empty());
    }
}

proof fn step_recount(c: Cycle, secs: u64, before: Seq<Reply>, r: Reply, ahead: u32, behind: u32)
    requires
        run(c, secs, before).stage == Stage::Recount,
        printing(r, count_text(ahead, behind)),
    ensures
        ({
            let s = run(c, secs, before);
            goes(c, secs, before, r, seq!["rev-list"@, "--left-right"@, "--count"@, s.branch + "..."@ + (s.remote + "/"@ + s.branch)], if ahead > 0 {
                Cycle { stage: Stage::Push, ..s }
            } else {
                Cycle {
                    stage: Stage::Finished,
                    outcome: Some(
                        Ok::<Outcome, Failure>(
                            if s.committed || s.pulled {
                                Outcome::Updated { pulled: s.pulled, pushed: false }
                            } else {
                                Outcome::UpToDate
                            },
                        ),
                    ),
                    ..s
                }
            })
        }),
{
    lemma_step(c, secs, before, r);
    counts_read_back(ahead, behind);
}

proof fn step_push(c: Cycle, secs: u64, before: Seq<Reply>, r: Reply)
    requires
        run(c, secs, before).stage == Stage::Push,
        succeeding(r) || rejected(r),
    ensures
        ({
            let s = run(c, secs, before);
            goes(c, secs, before, r, seq!["push"@, s.remote, s.branch], (Cycle {
                stage: Stage::Finished,
                outcome: Some(
                    Ok::<Outcome, Failure>(
                        if s.committed || s.pulled || succeeding(r) {
                            Outcome::Updated { pulled: s.pulled, pushed: succeeding(r) }
                        } else {
                            Outcome::UpToDate
                        },
                    ),
                ),
                ..s
            }))
        }),
{
    lemma_step(c, secs, before, r);
}

proof fn step_fetch_only(c: Cycle, secs: u64, before: Seq<Reply>, r: Reply)
    requires
        run(c, secs, before).stage == Stage::FetchOnly,
        succeeding(r),
    ensures
        ({
            let s = run(c, secs, before);
            goes(c, secs, before, r, seq!["fetch"@, s.remote, s.branch], (Cycle { stage: Stage::CountOnly, ..s }))
        }),
{
    lemma_step(c, secs, before, r);
}

proof fn step_count_only(c: Cycle, secs: u64, before: Seq<Reply>, r: Reply, ahead: u32, behind: u32)
    requires
        run(c, secs, before).stage == Stage::CountOnly,
        printing(r, count_text(ahead, behind)),
    ensures
        ({
            let s = run(c, secs, before);
            goes(c, secs, before, r, seq!["rev-list"@, "--left-right"@, "--count"@, s.branch + "..."@ + (s.remote + "/"@ + s.branch)], if behind == 0 {
                Cycle {
                    stage: Stage::Finished,
                    outcome: Some(Ok::<Outcome, Failure>(Outcome::UpToDate)),
                    ..s
                }
            } else {
                Cycle { stage: Stage::PullMerge, ..s }
            })
        }),
{
    lemma_step(c, secs, before, r);
    counts_read_back(ahead, behind);
}

proof fn step_pull_merge(c: Cycle, secs: u64, before: Seq<Reply>, o: Output)
    requires
        run(c, secs, before).stage == Stage::PullMerge,
    ensures
        ({
            let s = run(c, secs, before);
            goes(c, secs, before, Reply::Ran(o), seq!["merge"@, "--ff-only"@, s.remote + "/"@ + s.branch], (Cycle {
                stage: Stage::Finished,
                outcome: Some(
                    if o.success {
                        Ok::<Outcome, Failure>(Outcome::Updated { pulled: true, pushed: false })
                    } else {
                        Err::<Outcome, Failure>(
                            Failure::GitCli(
                                "merge --ff-only"@,
                                o.code,
                                "pull-only: local changes block a fast-forward — commit/push or stash them"@,
                            ),
                        )
                    },
                ),
                ..s
            }))
        }),
{
    lemma_step(c, secs, before, Reply::Ran(o));
}

proof fn step_mark_add(c: Cycle, secs: u64, before: Seq<Reply>, r: Reply)
    requires
        run(c, secs, before).stage == Stage::MarkAdd,
        succeeding(r),
    ensures
        ({
            let s = run(c, secs, before);
            goes(c, secs, before, r, seq!["add"@, "-A"@], (Cycle { stage: Stage::MarkConflicts, ..s }))
        }),
{
    lemma_step(c, secs, before, r);
}

proof fn step_mark_conflicts(c: Cycle, secs: u64, before: Seq<Reply>, r: Reply, paths: Seq<Seq<char>>)
    requires
        run(c, secs, before).stage == Stage::MarkConflicts,
        are_lines(paths),
        printing(r, listed(paths)),
    ensures
        ({
            let s = run(c, secs, before);
            goes(c, secs, before, r, seq!["diff"@, "--name-only"@, "--diff-filter=U"@], if paths.len() > 0 {
                Cycle {
                stage: Stage::Finished,
                outcome: Some(
                    Err::<Outcome, Failure>(
                        Failure::GitCli(
                            "resolve"@,
                            None,
                            "unresolved conflicts remain — fix the marked files first"@,
                        ),
                    ),
                ),
                ..s
            }
            } else {
                Cycle { stage: Stage::MarkCheck, ..s }
            })
        }),
{
    lemma_step(c, secs, before, r);
    listed_paths_read_back(paths);
    if paths.len() == 0 {
        assert(listed(paths) =~= Seq::empty());
    }
}

proof fn step_mark_check(c: Cycle, secs: u64, before: Seq<Reply>, r: Reply)
    requires
        run(c, secs, before).stage == Stage::MarkCheck,
        succeeding(r) || failing(r),
    ensures
        ({
            let s = run(c, secs, before);
            goes(c, secs, before, r, seq!["diff"@, "--check"@], if failing(r) {
                Cycle {
                stage: Stage::Finished,
                outcome: Some(
                    Err::<Outcome, Failure>(
                        Failure::GitCli(
                            "resolve"@,
                            None,
                            "unresolved conflicts remain — fix the marked files first"@,
                        ),
                    ),
                ),
                ..s
            }
            } else {
                Cycle { stage: Stage::ResolvedAdd, ..s }
            })
        }),
{
    lemma_step(c, secs, before, r);
}

proof fn step_resolved_add(c: Cycle, secs: u64, before: Seq<Reply>, r: Reply)
    requires
        run(c, secs, before).stage == Stage::ResolvedAdd,
        succeeding(r),
    ensures
        ({
            let s = run(c, secs, before);
            goes(c, secs, before, r, seq!["add"@, "-A"@], (Cycle { stage: Stage::ResolvedCommit, ..s }))
        }),
{
    lemma_step(c, secs, before, r);
}

proof fn step_resolved_commit(c: Cycle, secs: u64, before: Seq<Reply>, r: Reply)
    requires
        run(c, secs, before).stage == Stage::ResolvedCommit,
        succeeding(r),
    ensures
        ({
            let s = run(c, secs, before);
            goes(c, secs, before, r, seq!["commit"@, "--no-edit"@], (Cycle { stage: Stage::ResolvedPush, ..s }))
        }),
{
    lemma_step(c, secs, before, r);
}

proof fn step_resolved_push(c: Cycle, secs: u64, before: Seq<Reply>, r: Reply)
    requires
        run(c, secs, before).stage == Stage::ResolvedPush,
        succeeding(r) || rejected(r),
    ensures
        ({
            let s = run(c, secs, before);
            goes(c, secs, before, r, seq!["push"@, s.remote, s.branch], (Cycle {
                stage: Stage::Finished,
                outcome: Some(
                    Ok::<Outcome, Failure>(
                        Outcome::Updated { pulled: true, pushed: succeeding(r) },
                    ),
                ),
                ..s
            }))
        }),
{
    lemma_step(c, secs, before, r);
}

proof fn step_checkout(c: Cycle, secs: u64, before: Seq<Reply>, r: Reply, theirs: bool)
    requires
        run(c, secs, before).stage == Stage::Checkout,
        run(c, secs, before).paths.len() > 0,
        run(c, secs, before).resolution == Some(
            if theirs {
                SyncResolution::UseTheirs
            } else {
                SyncResolution::UseMine
            },
        ),
        succeeding(r),
    ensures
        ({
            let s = run(c, secs, before);
            goes(
                c,
                secs,
                before,
                r,
                seq![
                    "checkout"@,
                    if theirs {
                        "--theirs"@
                    } else {
                        "--ours"@
                    },
                    "--"@,
                    s.paths.last(),
                ],
                Cycle {
                    stage: if s.paths.len() > 1 {
                        Stage::Checkout
                    } else {
                        Stage::ResolvedAdd
                    },
                    paths: s.paths.drop_last(),
                    ..s
                },
            )
        }),
{
    lemma_step(c, secs, before, r);
}

// ------------------------------------------------------------------ the beginning

/// How every cycle begins: it asks for the upstream of the branch, and then for the files in
/// conflict. Here git has replied to the first.
proof fn lemma_upstream(
    folder: Seq<char>,
    cfg: SyncFolderConfig,
    resolution: Option<SyncResolution>,
    secs: u64,
    remote: Seq<char>,
    rest: Seq<char>,
    up: Reply,
)
    requires
        !remote.contains('/'),
        printing(up, remote + "/"@ + rest),
    ensures
        ({
            let c = opened(folder, cfg, resolution);
            let b = cfg.branch@;
            let rs = seq![up];
            &&& run(c, secs, rs) == (Cycle { stage: Stage::Conflicts, remote, ..c })
            &&& asked(c, secs, rs) == seq![
                seq!["rev-parse"@, "--abbrev-ref"@, b + "@{upstream}"@],
            ]
            &&& c == (Cycle {
                folder,
                branch: b,
                direction: cfg.direction,
                resolution,
                stage: Stage::Upstream,
                remote: Seq::empty(),
                committed: false,
                pulled: false,
                paths: Seq::empty(),
                merge: None,
                outcome: None,
            })
        }),
{
    let c = opened(folder, cfg, resolution);
    upstreams_name_their_remote(remote, rest, Seq::empty());
    lemma_none(c, secs);
    lemma_step(c, secs, Seq::empty(), up);
    assert(Seq::<Reply>::empty().push(up) =~= seq![up]);
    reveal_strlit("/");
    assert((remote + "/"@ + rest).len() > 0);
    assert(asked(c, secs, seq![up]) =~= seq![
        seq!["rev-parse"@, "--abbrev-ref"@, cfg.branch@ + "@{upstream}"@],
    ]);
}

/// A folder is synced on its branch alone: one that is no repository, that is on another branch
/// or on none, or that has no upstream is told so, and nothing is run in it.
pub proof fn only_the_sync_branch_is_synced(
    folder: Seq<char>,
    cfg: SyncFolderConfig,
    resolution: Option<SyncResolution>,
    secs: u64,
    other: String,
    hash: String,
    reply: Reply,
)
    requires
        other@ != cfg.branch@,
        !succeeding(reply) || printing(reply, Seq::empty()),
    ensures
        ({
            let c = started(folder, cfg, resolution);
            &&& c.outcome is None && c.stage == Stage::Opening
            &&& after_opening(c, None).outcome == Some(
                Err::<Outcome, Failure>(Failure::NotARepo(folder)),
            )
            &&& after_opening(c, Some(HeadState::Branch(other))).outcome == Some(
                Err::<Outcome, Failure>(Failure::NotOnSyncBranch(cfg.branch@, other@)),
            )
            &&& after_opening(c, Some(HeadState::Detached(hash))).outcome == Some(
                Err::<Outcome, Failure>(
                    Failure::NotOnSyncBranch(cfg.branch@, "detached or unborn HEAD"@),
                ),
            )
            &&& after_opening(c, Some(HeadState::Unborn)).outcome == Some(
                Err::<Outcome, Failure>(
                    Failure::NotOnSyncBranch(cfg.branch@, "detached or unborn HEAD"@),
                ),
            )
            &&& run(opened(folder, cfg, resolution), secs, seq![reply]).outcome == Some(
                Err::<Outcome, Failure>(Failure::NoRemote(folder)),
            )
        }),
{
    let c = opened(folder, cfg, resolution);
    lemma_none(c, secs);
    lemma_step(c, secs, Seq::empty(), reply);
    assert(Seq::<Reply>::empty().push(reply) =~= seq![reply]);
}

/// A sync that finds files in conflict reports all of them, in their order, and runs nothing
/// more.
pub proof fn a_sync_stops_at_conflicts(
    folder: Seq<char>,
    cfg: SyncFolderConfig,
    secs: u64,
    remote: Seq<char>,
    rest: Seq<char>,
    up: Reply,
    paths: Seq<Seq<char>>,
    conflicts: Reply,
)
    requires
        !remote.contains('/'),
        printing(up, remote + "/"@ + rest),
        paths.len() > 0,
        are_lines(paths),
        printing(conflicts, listed(paths)),
    ensures
        ({
            let c = opened(folder, cfg, None);
            let rs = seq![up, conflicts];
            &&& asked(c, secs, rs) == seq![
                seq!["rev-parse"@, "--abbrev-ref"@, cfg.branch@ + "@{upstream}"@],
                seq!["diff"@, "--name-only"@, "--diff-filter=U"@],
            ]
            &&& run(c, secs, rs).outcome == Some(Ok::<Outcome, Failure>(in_conflict(paths)))
            &&& command(run(c, secs, rs), secs).len() == 0
        }),
{
    let c = opened(folder, cfg, None);
    lemma_upstream(folder, cfg, None, secs, remote, rest, up);
    step_conflicts(c, secs, seq![up], conflicts, paths);
    assert(seq![up].push(conflicts) =~= seq![up, conflicts]);
    lemma_ended(run(c, secs, seq![up, conflicts]), secs);
    assert(asked(c, secs, seq![up, conflicts]) =~= seq![
        seq!["rev-parse"@, "--abbrev-ref"@, cfg.branch@ + "@{upstream}"@],
        seq!["diff"@, "--name-only"@, "--diff-filter=U"@],
    ]);
}

// ----------------------------------------------------------------- pulling and pushing

/// The replies to a sync that pulls and pushes, up to the count that tells what to pull.
pub open spec fn local_replies(
    up: Reply,
    conflicts: Reply,
    add: Reply,
    staged: Reply,
    commit: Reply,
    fetch: Reply,
    count: Reply,
) -> Seq<Reply> {
    let clean = seq![up, conflicts, add, staged];
    (if succeeding(staged) {
        clean
    } else {
        clean.push(commit)
    }).push(fetch).push(count)
}

/// The commands of a sync that pulls and pushes, up to the count that tells what to pull: local
/// changes are committed, if there are any, and the branch is fetched.
pub open spec fn local_commands(
    branch: Seq<char>,
    remote: Seq<char>,
    secs: u64,
    changed: bool,
) -> Seq<Words> {
    let clean = seq![
        seq!["rev-parse"@, "--abbrev-ref"@, branch + "@{upstream}"@],
        seq!["diff"@, "--name-only"@, "--diff-filter=U"@],
        seq!["add"@, "-A"@],
        seq!["diff"@, "--cached"@, "--quiet"@],
    ];
    (if changed {
        clean.push(
            seq!["commit"@, "--no-edit"@, "-m"@, "looper auto-sync @ "@ + decimal(secs as nat)],
        )
    } else {
        clean
    }).push(seq!["fetch"@, remote, branch]).push(
        seq![
            "rev-list"@,
            "--left-right"@,
            "--count"@,
            branch + "..."@ + (remote + "/"@ + branch),
        ],
    )
}

/// Whether git replies to a sync that pulls and pushes, up to the count, as it does where
/// nothing is wrong.
pub open spec fn local_work(
    remote: Seq<char>,
    rest: Seq<char>,
    ahead: u32,
    behind: u32,
    up: Reply,
    conflicts: Reply,
    add: Reply,
    staged: Reply,
    commit: Reply,
    fetch: Reply,
    count: Reply,
) -> bool {
    &&& !remote.contains('/')
    &&& printing(up, remote + "/"@ + rest)
    &&& printing(conflicts, Seq::empty())
    &&& succeeding(add)
    &&& succeeding(staged) || failing(staged)
    &&& succeeding(commit)
    &&& succeeding(fetch)
    &&& printing(count, count_text(ahead, behind))
}

proof fn lemma_local(
    folder: Seq<char>,
    cfg: SyncFolderConfig,
    secs: u64,
    remote: Seq<char>,
    rest: Seq<char>,
    ahead: u32,
    behind: u32,
    up: Reply,
    conflicts: Reply,
    add: Reply,
    staged: Reply,
    commit: Reply,
    fetch: Reply,
    count: Reply,
)
    requires
        cfg.direction == SyncDirection::PullPush,
        local_work(
            remote,
            rest,
            ahead,
            behind,
            up,
            conflicts,
            add,
            staged,
            commit,
            fetch,
            count,
        ),
    ensures
        ({
            let c = opened(folder, cfg, None);
            let rs = local_replies(up, conflicts, add, staged, commit, fetch, count);
            &&& asked(c, secs, rs) == local_commands(
                cfg.branch@,
                remote,
                secs,
                !succeeding(staged),
            )
            &&& run(c, secs, rs) == (Cycle {
                stage: if behind == 0 {
                    Stage::Recount
                } else if ahead == 0 {
                    Stage::FastForward
                } else {
                    Stage::Merge
                },
                remote,
                committed: !succeeding(staged),
                ..c
            })
        }),
{
    let c = opened(folder, cfg, None);
    lemma_upstream(folder, cfg, None, secs, remote, rest, up);
    let r1 = seq![up];
    let r2 = r1.push(conflicts);
    let r3 = r2.push(add);
    let r4 = r3.push(staged);
    step_no_conflicts(c, secs, r1, conflicts);
    step_add(c, secs, r2, add);
    step_staged(c, secs, r3, staged);
    assert(r4 =~= seq![up, conflicts, add, staged]);
    let r5 = if succeeding(staged) {
        r4
    } else {
        r4.push(commit)
    };
    if !succeeding(staged) {
        step_commit(c, secs, r4, commit);
    }
    let r6 = r5.push(fetch);
    step_fetch(c, secs, r5, fetch);
    step_count(c, secs, r6, count, ahead, behind);
    let clean = seq![
        seq!["rev-parse"@, "--abbrev-ref"@, cfg.branch@ + "@{upstream}"@],
        seq!["diff"@, "--name-only"@, "--diff-filter=U"@],
        seq!["add"@, "-A"@],
        seq!["diff"@, "--cached"@, "--quiet"@],
    ];
    assert(asked(c, secs, r4) =~= clean);
}

/// A sync that pulls and pushes, where nothing is wrong: local changes are committed, if there
/// are any; the branch is fetched; what the upstream has is taken over, by moving on to it where
/// there is nothing of one's own, else by a merge; and whatever is ahead of the upstream then is
/// pushed, whether or not anything was pulled. Nothing is pushed only where nothing is ahead.
///
/// The outcome says what was pulled and what went through; it is up to date only where nothing
/// was committed, pulled or pushed. A push that the remote rejects for being behind is no
/// failure.
pub proof fn a_sync_pulls_and_pushes(
    folder: Seq<char>,
    cfg: SyncFolderConfig,
    secs: u64,
    remote: Seq<char>,
    rest: Seq<char>,
    ahead: u32,
    behind: u32,
    ahead_now: u32,
    behind_now: u32,
    up: Reply,
    conflicts: Reply,
    add: Reply,
    staged: Reply,
    commit: Reply,
    fetch: Reply,
    count: Reply,
    merge: Reply,
    recount: Reply,
    push: Reply,
)
    requires
        cfg.direction == SyncDirection::PullPush,
        local_work(
            remote,
            rest,
            ahead,
            behind,
            up,
            conflicts,
            add,
            staged,
            commit,
            fetch,
            count,
        ),
        succeeding(merge),
        printing(recount, count_text(ahead_now, behind_now)),
        succeeding(push) || rejected(push),
    ensures
        ({
            let c = opened(folder, cfg, None);
            let b = cfg.branch@;
            let counting = seq![
                "rev-list"@,
                "--left-right"@,
                "--count"@,
                b + "..."@ + (remote + "/"@ + b),
            ];
            let local = local_replies(up, conflicts, add, staged, commit, fetch, count);
            let pulled = (if behind > 0 {
                local.push(merge)
            } else {
                local
            }).push(recount);
            let rs = if ahead_now > 0 {
                pulled.push(push)
            } else {
                pulled
            };
            let changed = !succeeding(staged);
            let ran = local_commands(b, remote, secs, changed);
            let taken = (if behind > 0 {
                ran.push(
                    seq![
                        "merge"@,
                        if ahead == 0 {
                            "--ff-only"@
                        } else {
                            "--no-edit"@
                        },
                        remote + "/"@ + b,
                    ],
                )
            } else {
                ran
            }).push(counting);
            let went_through = ahead_now > 0 && succeeding(push);
            &&& asked(c, secs, rs) == if ahead_now > 0 {
                taken.push(seq!["push"@, remote, b])
            } else {
                taken
            }
            &&& run(c, secs, rs).outcome == Some(
                Ok::<Outcome, Failure>(
                    if changed || behind > 0 || went_through {
                        Outcome::Updated { pulled: behind > 0, pushed: went_through }
                    } else {
                        Outcome::UpToDate
                    },
                ),
            )
            &&& command(run(c, secs, rs), secs).len() == 0
        }),
{
    let c = opened(folder, cfg, None);
    lemma_local(
        folder,
        cfg,
        secs,
        remote,
        rest,
        ahead,
        behind,
        up,
        conflicts,
        add,
        staged,
        commit,
        fetch,
        count,
    );
    let local = local_replies(up, conflicts, add, staged, commit, fetch, count);
    if behind > 0 {
        if ahead == 0 {
            step_forward(c, secs, local, merge);
        } else {
            step_merge(c, secs, local, merge);
        }
    }
    let taken = if behind > 0 {
        local.push(merge)
    } else {
        local
    };
    step_recount(c, secs, taken, recount, ahead_now, behind_now);
    if ahead_now > 0 {
        step_push(c, secs, taken.push(recount), push);
        lemma_ended(run(c, secs, taken.push(recount).push(push)), secs);
    } else {
        lemma_ended(run(c, secs, taken.push(recount)), secs);
    }
}

/// A merge that fails over files in conflict reports all of them, in their order; one that fails
/// otherwise is a failure, told by what git said of the merge. Either way nothing is pushed.
pub proof fn a_merge_that_fails_is_told(
    folder: Seq<char>,
    cfg: SyncFolderConfig,
    secs: u64,
    remote: Seq<char>,
    rest: Seq<char>,
    ahead: u32,
    behind: u32,
    up: Reply,
    conflicts: Reply,
    add: Reply,
    staged: Reply,
    commit: Reply,
    fetch: Reply,
    count: Reply,
    merge: Output,
    paths: Seq<Seq<char>>,
    found: Reply,
)
    requires
        cfg.direction == SyncDirection::PullPush,
        local_work(
            remote,
            rest,
            ahead,
            behind,
            up,
            conflicts,
            add,
            staged,
            commit,
            fetch,
            count,
        ),
        ahead > 0,
        behind > 0,
        !merge.success,
        are_lines(paths),
        printing(found, listed(paths)),
    ensures
        ({
            let c = opened(folder, cfg, None);
            let b = cfg.branch@;
            let words = seq!["merge"@, "--no-edit"@, remote + "/"@ + b];
            let rs = local_replies(up, conflicts, add, staged, commit, fetch, count).push(
                Reply::Ran(merge),
            ).push(found);
            &&& asked(c, secs, rs) == local_commands(b, remote, secs, !succeeding(staged)).push(
                words,
            ).push(seq!["diff"@, "--name-only"@, "--diff-filter=U"@])
            &&& run(c, secs, rs).outcome == Some(
                if paths.len() > 0 {
                    Ok::<Outcome, Failure>(in_conflict(paths))
                } else {
                    Err::<Outcome, Failure>(failure_of(folder, words, merge))
                },
            )
            &&& command(run(c, secs, rs), secs).len() == 0
        }),
{
    let c = opened(folder, cfg, None);
    lemma_local(
        folder,
        cfg,
        secs,
        remote,
        rest,
        ahead,
        behind,
        up,
        conflicts,
        add,
        staged,
        commit,
        fetch,
        count,
    );
    let local = local_replies(up, conflicts, add, staged, commit, fetch, count);
    let failed = local.push(Reply::Ran(merge));
    step_merge_failed(c, secs, local, merge);
    step_merge_conflicts(c, secs, failed, found, paths, merge);
    lemma_ended(run(c, secs, failed.push(found)), secs);
}

// --------------------------------------------------------------------- pulling only

/// A sync that only pulls: the branch is fetched, and where the upstream has something, the
/// folder moves on to it. Where local changes are in the way, that is the failure.
pub proof fn a_sync_that_only_pulls_pulls(
    folder: Seq<char>,
    cfg: SyncFolderConfig,
    secs: u64,
    remote: Seq<char>,
    rest: Seq<char>,
    ahead: u32,
    behind: u32,
    up: Reply,
    conflicts: Reply,
    fetch: Reply,
    count: Reply,
    merge: Output,
)
    requires
        cfg.direction == SyncDirection::PullOnly,
        !remote.contains('/'),
        printing(up, remote + "/"@ + rest),
        printing(conflicts, Seq::empty()),
        succeeding(fetch),
        printing(count, count_text(ahead, behind)),
    ensures
        ({
            let c = opened(folder, cfg, None);
            let b = cfg.branch@;
            let fetched = seq![up, conflicts, fetch, count];
            let rs = if behind > 0 {
                fetched.push(Reply::Ran(merge))
            } else {
                fetched
            };
            let ran = seq![
                seq!["rev-parse"@, "--abbrev-ref"@, b + "@{upstream}"@],
                seq!["diff"@, "--name-only"@, "--diff-filter=U"@],
                seq!["fetch"@, remote, b],
                seq!["rev-list"@, "--left-right"@, "--count"@, b + "..."@ + (remote + "/"@ + b)],
            ];
            &&& asked(c, secs, rs) == if behind > 0 {
                ran.push(seq!["merge"@, "--ff-only"@, remote + "/"@ + b])
            } else {
                ran
            }
            &&& run(c, secs, rs).outcome == Some(
                if behind == 0 {
                    Ok::<Outcome, Failure>(Outcome::UpToDate)
                } else if merge.success {
                    Ok::<Outcome, Failure>(Outcome::Updated { pulled: true, pushed: false })
                } else {
                    Err::<Outcome, Failure>(
                        Failure::GitCli(
                            "merge --ff-only"@,
                            merge.code,
                            "pull-only: local changes block a fast-forward — commit/push or stash them"@,
                        ),
                    )
                },
            )
            &&& command(run(c, secs, rs), secs).len() == 0
        }),
{
    let c = opened(folder, cfg, None);
    lemma_upstream(folder, cfg, None, secs, remote, rest, up);
    let r1 = seq![up];
    let r2 = r1.push(conflicts);
    let r3 = r2.push(fetch);
    let r4 = r3.push(count);
    step_no_conflicts(c, secs, r1, conflicts);
    step_fetch_only(c, secs, r2, fetch);
    step_count_only(c, secs, r3, count, ahead, behind);
    if behind > 0 {
        step_pull_merge(c, secs, r4, merge);
        lemma_ended(run(c, secs, r4.push(Reply::Ran(merge))), secs);
    } else {
        lemma_ended(run(c, secs, r4), secs);
    }
    assert(r4 =~= seq![up, conflicts, fetch, count]);
    let b = cfg.branch@;
    assert(asked(c, secs, r4) =~= seq![
        seq!["rev-parse"@, "--abbrev-ref"@, b + "@{upstream}"@],
        seq!["diff"@, "--name-only"@, "--diff-filter=U"@],
        seq!["fetch"@, remote, b],
        seq!["rev-list"@, "--left-right"@, "--count"@, b + "..."@ + (remote + "/"@ + b)],
    ]);
}

// ------------------------------------------------------------------------- resolving

/// The commands that take one side of each file in conflict.
pub open spec fn checkouts(theirs: bool, paths: Seq<Seq<char>>) -> Seq<Words> {
    Seq::new(
        paths.len(),
        |i: int|
            seq![
                "checkout"@,
                if theirs {
                    "--theirs"@
                } else {
                    "--ours"@
                },
                "--"@,
                paths[i],
            ],
    )
}

proof fn lemma_checkouts(
    c: Cycle,
    secs: u64,
    before: Seq<Reply>,
    theirs: bool,
    paths: Seq<Seq<char>>,
    replies: Seq<Reply>,
    n: int,
)
    requires
        0 <= n <= paths.len(),
        replies.len() == paths.len(),
        paths.len() > 0,
        forall|i: int| 0 <= i < replies.len() ==> succeeding(#[trigger] replies[i]),
        ({
            let s = run(c, secs, before);
            &&& s.stage == Stage::Checkout
            &&& s.paths == paths.reverse()
            &&& s.resolution == Some(
                if theirs {
                    SyncResolution::UseTheirs
                } else {
                    SyncResolution::UseMine
                },
            )
        }),
    ensures
        ({
            let s = run(c, secs, before);
            let rs = before + replies.take(n);
            &&& run(c, secs, rs) == (Cycle {
                stage: if n < paths.len() {
                    Stage::Checkout
                } else {
                    Stage::ResolvedAdd
                },
                paths: paths.skip(n).reverse(),
                ..s
            })
            &&& asked(c, secs, rs) == asked(c, secs, before) + checkouts(theirs, paths).take(n)
        }),
    decreases n,
{
    let s = run(c, secs, before);
    if n == 0 {
        assert(before + replies.take(0) =~= before);
        assert(paths.skip(0) =~= paths);
        assert(checkouts(theirs, paths).take(0) =~= Seq::empty());
        assert(asked(c, secs, before) + Seq::<Words>::empty() =~= asked(c, secs, before));
    } else {
        lemma_checkouts(c, secs, before, theirs, paths, replies, n - 1);
        let so_far = before + replies.take(n - 1);
        let r = replies[n - 1];
        assert(succeeding(r));
        assert(before + replies.take(n) =~= so_far.push(r));
        let left = paths.skip(n - 1).reverse();
        step_checkout(c, secs, so_far, r, theirs);
        assert(left.last() == paths[n - 1]);
        assert(left.drop_last() =~= paths.skip(n).reverse());
        let all = checkouts(theirs, paths);
        assert(all.take(n) =~= all.take(n - 1).push(all[n - 1]));
        assert(asked(c, secs, before) + all.take(n) =~= (asked(c, secs, before) + all.take(
            n - 1,
        )).push(all[n - 1]));
    }
}

/// A conflict that is resolved by taking one side: that side of every file in conflict is checked
/// out, in their order, everything is staged, committed and pushed. The outcome says whether the
/// push went through.
pub proof fn taking_a_side_resolves_every_file(
    folder: Seq<char>,
    cfg: SyncFolderConfig,
    theirs: bool,
    secs: u64,
    remote: Seq<char>,
    rest: Seq<char>,
    paths: Seq<Seq<char>>,
    up: Reply,
    conflicts: Reply,
    taken: Seq<Reply>,
    add: Reply,
    commit: Reply,
    push: Reply,
)
    requires
        !remote.contains('/'),
        printing(up, remote + "/"@ + rest),
        are_lines(paths),
        printing(conflicts, listed(paths)),
        taken.len() == paths.len(),
        forall|i: int| 0 <= i < taken.len() ==> succeeding(#[trigger] taken[i]),
        succeeding(add),
        succeeding(commit),
        succeeding(push) || rejected(push),
    ensures
        ({
            let how = if theirs {
                SyncResolution::UseTheirs
            } else {
                SyncResolution::UseMine
            };
            let c = opened(folder, cfg, Some(how));
            let b = cfg.branch@;
            let rs = (seq![up, conflicts] + taken).push(add).push(commit).push(push);
            &&& asked(c, secs, rs) == (seq![
                seq!["rev-parse"@, "--abbrev-ref"@, b + "@{upstream}"@],
                seq!["diff"@, "--name-only"@, "--diff-filter=U"@],
            ] + checkouts(theirs, paths)).push(seq!["add"@, "-A"@]).push(
                seq!["commit"@, "--no-edit"@],
            ).push(seq!["push"@, remote, b])
            &&& run(c, secs, rs).outcome == Some(
                Ok::<Outcome, Failure>(
                    Outcome::Updated { pulled: true, pushed: succeeding(push) },
                ),
            )
            &&& command(run(c, secs, rs), secs).len() == 0
        }),
{
    let how = if theirs {
        SyncResolution::UseTheirs
    } else {
        SyncResolution::UseMine
    };
    let c = opened(folder, cfg, Some(how));
    let b = cfg.branch@;
    lemma_upstream(folder, cfg, Some(how), secs, remote, rest, up);
    let r1 = seq![up];
    let r2 = r1.push(conflicts);
    step_conflicts(c, secs, r1, conflicts, paths);
    assert(r2 =~= seq![up, conflicts]);
    let first = seq![
        seq!["rev-parse"@, "--abbrev-ref"@, b + "@{upstream}"@],
        seq!["diff"@, "--name-only"@, "--diff-filter=U"@],
    ];
    assert(asked(c, secs, r2) =~= first);
    let r3 = r2 + taken;
    if paths.len() > 0 {
        lemma_checkouts(c, secs, r2, theirs, paths, taken, paths.len() as int);
        assert(taken.take(taken.len() as int) =~= taken);
        let all = checkouts(theirs, paths);
        assert(all.take(all.len() as int) =~= all);
    } else {
        assert(r3 =~= r2);
        assert(first + checkouts(theirs, paths) =~= first);
    }
    let r4 = r3.push(add);
    let r5 = r4.push(commit);
    step_resolved_add(c, secs, r3, add);
    step_resolved_commit(c, secs, r4, commit);
    step_resolved_push(c, secs, r5, push);
    lemma_ended(run(c, secs, r5.push(push)), secs);
}

/// A conflict that the user has resolved: everything is staged, and committed and pushed only
/// where git finds neither a file in conflict nor a conflict marker any more.
pub proof fn marking_resolved_checks_for_leftovers(
    folder: Seq<char>,
    cfg: SyncFolderConfig,
    secs: u64,
    remote: Seq<char>,
    rest: Seq<char>,
    up: Reply,
    conflicts: Reply,
    add: Reply,
    paths: Seq<Seq<char>>,
    left: Reply,
    check: Reply,
    stage: Reply,
    commit: Reply,
    push: Reply,
)
    requires
        !remote.contains('/'),
        printing(up, remote + "/"@ + rest),
        succeeding(conflicts),
        succeeding(add),
        are_lines(paths),
        printing(left, listed(paths)),
        succeeding(check) || failing(check),
        succeeding(stage),
        succeeding(commit),
        succeeding(push) || rejected(push),
    ensures
        ({
            let c = opened(folder, cfg, Some(SyncResolution::MarkResolved));
            let b = cfg.branch@;
            let staged = seq![up, conflicts, add, left];
            let ran = seq![
                seq!["rev-parse"@, "--abbrev-ref"@, b + "@{upstream}"@],
                seq!["diff"@, "--name-only"@, "--diff-filter=U"@],
                seq!["add"@, "-A"@],
                seq!["diff"@, "--name-only"@, "--diff-filter=U"@],
            ];
            let refused = Some(
                Err::<Outcome, Failure>(
                    Failure::GitCli(
                        "resolve"@,
                        None,
                        "unresolved conflicts remain — fix the marked files first"@,
                    ),
                ),
            );
            if paths.len() > 0 {
                &&& asked(c, secs, staged) == ran
                &&& run(c, secs, staged).outcome == refused
                &&& command(run(c, secs, staged), secs).len() == 0
            } else if failing(check) {
                let rs = staged.push(check);
                &&& asked(c, secs, rs) == ran.push(seq!["diff"@, "--check"@])
                &&& run(c, secs, rs).outcome == refused
                &&& command(run(c, secs, rs), secs).len() == 0
            } else {
                let rs = staged.push(check).push(stage).push(commit).push(push);
                &&& asked(c, secs, rs) == ran.push(seq!["diff"@, "--check"@]).push(
                    seq!["add"@, "-A"@],
                ).push(seq!["commit"@, "--no-edit"@]).push(seq!["push"@, remote, b])
                &&& run(c, secs, rs).outcome == Some(
                    Ok::<Outcome, Failure>(
                        Outcome::Updated { pulled: true, pushed: succeeding(push) },
                    ),
                )
                &&& command(run(c, secs, rs), secs).len() == 0
            }
        }),
{
    let how = Some(SyncResolution::MarkResolved);
    let c = opened(folder, cfg, how);
    let b = cfg.branch@;
    lemma_upstream(folder, cfg, how, secs, remote, rest, up);
    let r1 = seq![up];
    let r2 = r1.push(conflicts);
    let r3 = r2.push(add);
    let r4 = r3.push(left);
    step_marking(c, secs, r1, conflicts);
    step_mark_add(c, secs, r2, add);
    step_mark_conflicts(c, secs, r3, left, paths);
    assert(r4 =~= seq![up, conflicts, add, left]);
    assert(asked(c, secs, r4) =~= seq![
        seq!["rev-parse"@, "--abbrev-ref"@, b + "@{upstream}"@],
        seq!["diff"@, "--name-only"@, "--diff-filter=U"@],
        seq!["add"@, "-A"@],
        seq!["diff"@, "--name-only"@, "--diff-filter=U"@],
    ]);
    let r5 = r4.push(check);
    let r6 = r5.push(stage);
    let r7 = r6.push(commit);
    if paths.len() > 0 {
        lemma_ended(run(c, secs, r4), secs);
    } else {
        step_mark_check(c, secs, r4, check);
        if failing(check) {
            lemma_ended(run(c, secs, r5), secs);
        } else {
            step_resolved_add(c, secs, r5, stage);
            step_resolved_commit(c, secs, r6, commit);
            step_resolved_push(c, secs, r7, push);
            lemma_ended(run(c, secs, r7.push(push)), secs);
        }
    }
}

// -------------------------------------------------------------------------- failures

/// Whether the command that a cycle asks for is one whose failure tells something: whether
/// there is an upstream, anything staged, a conflict, a marker left, or a remote that is ahead.
pub open spec fn asks_a_question(c: Cycle) -> bool {
    c.stage == Stage::Upstream || c.stage == Stage::Staged || c.stage == Stage::Merge || c.stage
        == Stage::PullMerge || c.stage == Stage::MarkCheck || c.stage == Stage::Push || c.stage
        == Stage::ResolvedPush
}

/// A command that fails ends the cycle with that failure, and so does git where it cannot be
/// run; but for the questions, of which a push still fails unless it was rejected.
pub proof fn failures_end_the_cycle(c: Cycle, secs: u64, o: Output, m: Seq<char>)
    requires
        c.stage != Stage::Opening,
        c.stage != Stage::Finished,
        !o.success,
    ensures
        ({
            let words = command(c, secs);
            let failed = after(c, words, Reply::Ran(o));
            let unrun = after(c, words, Reply::Failed(m));
            &&& words.len() > 0
            &&& !asks_a_question(c) ==> failed.outcome == Some(
                Err::<Outcome, Failure>(failure_of(c.folder, words, o)),
            ) && command(failed, secs).len() == 0
            &&& (c.stage == Stage::Push || c.stage == Stage::ResolvedPush) && !rejected(
                Reply::Ran(o),
            ) ==> failed.outcome == Some(
                Err::<Outcome, Failure>(failure_of(c.folder, words, o)),
            ) && command(failed, secs).len() == 0
            &&& c.stage != Stage::Upstream ==> unrun.outcome == Some(
                Err::<Outcome, Failure>(Failure::Io(m)),
            ) && command(unrun, secs).len() == 0
        }),
{
}

} // verus!
