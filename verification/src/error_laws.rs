//! What errors say: all that they are about.

use crate::engine::CoreError;
use crate::enrichment::EnrichError;
use crate::kb::KbError;
use crate::state::StateError;
use crate::text::{contains, decimal};
use crate::text_laws::contained_texts_are_parts;
use crate::workspace::WorkspaceError;
use vstd::prelude::*;

verus! {

proof fn lemma_says(a: Seq<char>, p: Seq<char>, b: Seq<char>, s: Seq<char>)
    requires
        s =~= a + p + b,
    ensures
        contains(s, p),
{
    contained_texts_are_parts(s, p);
}

/// An error of a state file says which file it is about, and why; one of its version which
/// version was found, and which is known.
pub proof fn state_errors_say_what_they_are_about(
    path: String,
    message: String,
    found: u32,
    current: u32,
)
    ensures
        contains(StateError::Read { path, message }.text(), path@),
        contains(StateError::Read { path, message }.text(), message@),
        contains(StateError::Write { path, message }.text(), path@),
        contains(StateError::Write { path, message }.text(), message@),
        contains(StateError::Persist { path, message }.text(), path@),
        contains(StateError::Persist { path, message }.text(), message@),
        contains(StateError::Parse { path, message }.text(), path@),
        contains(StateError::Parse { path, message }.text(), message@),
        contains(StateError::InvalidPath { path }.text(), path@),
        contains(StateError::Serialize { message }.text(), message@),
        contains(StateError::FutureVersion { found, current }.text(), decimal(found as nat)),
        contains(StateError::FutureVersion { found, current }.text(), decimal(current as nat)),
        contains(StateError::UnsupportedVersion { found, current }.text(), decimal(found as nat)),
        contains(StateError::UnsupportedVersion { found, current }.text(), decimal(current as nat)),
{
    let e = Seq::<char>::empty();
    let (p, m) = (path@, message@);
    lemma_two("failed to read state file "@, p, m, StateError::Read { path, message }.text());
    lemma_two("failed to write state at "@, p, m, StateError::Write { path, message }.text());
    lemma_two(
        "failed to atomically persist state file "@,
        p,
        m,
        StateError::Persist { path, message }.text(),
    );
    lemma_two("failed to parse state file "@, p, m, StateError::Parse { path, message }.text());
    lemma_says(
        "state file path "@,
        p,
        " has no parent directory"@,
        StateError::InvalidPath { path }.text(),
    );
    lemma_says("failed to serialize state: "@, m, e, StateError::Serialize { message }.text());
    let (f, c) = (decimal(found as nat), decimal(current as nat));
    let t = StateError::FutureVersion { found, current }.text();
    let middle = " is newer than supported version "@;
    lemma_says("state schema version "@, f, middle + c + "; upgrade Looper"@, t);
    lemma_says("state schema version "@ + f + middle, c, "; upgrade Looper"@, t);
    let t = StateError::UnsupportedVersion { found, current }.text();
    let front = "no migration available from schema version "@;
    lemma_says(front, f, " (current "@ + c + ")"@, t);
    lemma_says(front + f + " (current "@, c, ")"@, t);
}

proof fn lemma_two(front: Seq<char>, p: Seq<char>, m: Seq<char>, s: Seq<char>)
    requires
        s =~= front + p + ": "@ + m,
    ensures
        contains(s, p),
        contains(s, m),
{
    lemma_says(front, p, ": "@ + m, s);
    lemma_says(front + p + ": "@, m, Seq::empty(), s);
}

/// An error of a workspace says which link, file, folder or workspace it is about, and why.
pub proof fn workspace_errors_say_what_they_are_about(
    link: String,
    target: String,
    message: String,
    s: StateError,
)
    ensures
        contains(WorkspaceError::Link { link, target, message }.text(), link@),
        contains(WorkspaceError::Link { link, target, message }.text(), target@),
        contains(WorkspaceError::Link { link, target, message }.text(), message@),
        contains(WorkspaceError::Unlink { link, message }.text(), link@),
        contains(WorkspaceError::Unlink { link, message }.text(), message@),
        contains(WorkspaceError::LinkOccupied(link).text(), link@),
        contains(WorkspaceError::Gitignore { path: link, message }.text(), link@),
        contains(WorkspaceError::Gitignore { path: link, message }.text(), message@),
        contains(WorkspaceError::NotADirectory(link).text(), link@),
        contains(WorkspaceError::FolderDiscovery { path: link, message }.text(), link@),
        contains(WorkspaceError::FolderDiscovery { path: link, message }.text(), message@),
        contains(WorkspaceError::NotFound(link).text(), link@),
        contains(WorkspaceError::State(s).text(), s.text()),
{
    let e = Seq::<char>::empty();
    let (l, t, m) = (link@, target@, message@);
    let x = WorkspaceError::Link { link, target, message }.text();
    let front = "failed to create .looper link "@;
    lemma_says(front, l, " -> "@ + t + ": "@ + m, x);
    lemma_says(front + l + " -> "@, t, ": "@ + m, x);
    lemma_says(front + l + " -> "@ + t + ": "@, m, e, x);
    lemma_two(
        "failed to remove .looper link "@,
        l,
        m,
        WorkspaceError::Unlink { link, message }.text(),
    );
    lemma_says(
        "a non-link entry already exists at "@,
        l,
        "; refusing to overwrite it"@,
        WorkspaceError::LinkOccupied(link).text(),
    );
    lemma_two(
        "failed to update .gitignore at "@,
        l,
        m,
        WorkspaceError::Gitignore { path: link, message }.text(),
    );
    lemma_says("not a folder: "@, l, e, WorkspaceError::NotADirectory(link).text());
    lemma_two(
        "failed to inspect workspace folders under "@,
        l,
        m,
        WorkspaceError::FolderDiscovery { path: link, message }.text(),
    );
    lemma_says("workspace not found: "@, l, e, WorkspaceError::NotFound(link).text());
    lemma_says("workspace state error: "@, s.text(), e, WorkspaceError::State(s).text());
}

/// An error of the engine, of a knowledge base or of enrichment says what it is about, and why.
pub proof fn engine_errors_say_what_they_are_about(path: String, message: String, k: KbError)
    ensures
        contains(CoreError::WorkspaceAlreadyOpen(path).text(), path@),
        contains(CoreError::WorkspaceNotOpen(path).text(), path@),
        contains(CoreError::Kb(k).text(), k.text()),
        contains(CoreError::Io { path, message }.text(), path@),
        contains(CoreError::Io { path, message }.text(), message@),
        contains(KbError::Io { path, message }.text(), path@),
        contains(KbError::Io { path, message }.text(), message@),
        contains(KbError::Backend(message).text(), message@),
        contains(EnrichError::Spawn(message).text(), message@),
        contains(EnrichError::Tool(message).text(), message@),
        contains(EnrichError::Keychain(message).text(), message@),
        EnrichError::Io(message).text() == message@,
{
    let e = Seq::<char>::empty();
    let (p, m) = (path@, message@);
    lemma_says(
        "workspace `"@,
        p,
        "` is already open"@,
        CoreError::WorkspaceAlreadyOpen(path).text(),
    );
    lemma_says("workspace `"@, p, "` is not open"@, CoreError::WorkspaceNotOpen(path).text());
    lemma_says("KB error: "@, k.text(), e, CoreError::Kb(k).text());
    lemma_two("I/O error at "@, p, m, CoreError::Io { path, message }.text());
    lemma_two("knowledge-base I/O error at "@, p, m, KbError::Io { path, message }.text());
    lemma_says("knowledge-base backend error: "@, m, e, KbError::Backend(message).text());
    lemma_says(
        "could not start the enrichment tool: "@,
        m,
        e,
        EnrichError::Spawn(message).text(),
    );
    lemma_says("enrichment tool failed: "@, m, e, EnrichError::Tool(message).text());
    lemma_says("keychain error: "@, m, e, EnrichError::Keychain(message).text());
}

} // verus!
