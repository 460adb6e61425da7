//! Applying changes to a knowledge base, and telling of it.

use crate::events::{said, warn, warn_of, warning, Event};
use crate::ingest::{prepare, prepared};
use crate::ipc::EngineEvent;
use crate::kb::{ConceptRef, Kb, KbCall, KbError, SourceDoc};
use crate::lifecycle::{
    concept_id_for, concept_id_of, containing_folder, home_from, map_change_kind, told_kind, Signals,
};
use crate::path::{extension, extension_of, file_name, name_of};
use crate::scan::{Change, ChangeKind, ChangeView};
use crate::text::{same, texts};
use vstd::prelude::*;

verus! {

/// How many documents were indexed and removed.
#[derive(Debug, Clone, Copy, PartialEq, Eq, Structural)]
pub struct Counts {
    pub indexed: u32,
    pub removed: u32,
}

impl Default for Counts {
    fn default() -> (r: Self)
        ensures
            r.indexed == 0,
            r.removed == 0,
    {
        Counts { indexed: 0, removed: 0 }
    }
}

/// What a change comes to.
#[derive(Debug)]
pub enum ChangePlan {
    /// The document is taken out of the index.
    Remove,
    /// The document is indexed, after the one it moved from was taken out.
    Index { drop_first: Option<String>, concept_id: String, extension: String },
    /// The document is under no folder: only the one it moved from is taken out.
    Nothing { drop_first: Option<String> },
}

/// What a change comes to, as a value.
pub enum Plan {
    Remove,
    Index { drop_first: Option<Seq<char>>, concept_id: Seq<char>, extension: Seq<char> },
    Nothing { drop_first: Option<Seq<char>> },
}

impl ChangePlan {
    pub open spec fn view(&self) -> Plan {
        match self {
            ChangePlan::Remove => Plan::Remove,
            ChangePlan::Index { drop_first, concept_id, extension } => Plan::Index {
                drop_first: crate::events::opt_text(*drop_first),
                concept_id: concept_id@,
                extension: extension@,
            },
            ChangePlan::Nothing { drop_first } => Plan::Nothing {
                drop_first: crate::events::opt_text(*drop_first),
            },
        }
    }
}

/// The path that a document moved from.
pub open spec fn origin(c: ChangeView) -> Option<Seq<char>> {
    if c.kind == ChangeKind::Moved {
        c.moved_from
    } else {
        None
    }
}

/// The extension of a path, empty where it has none.
pub open spec fn extension_or_none(path: Seq<char>) -> Seq<char> {
    match extension_of(path) {
        Some(e) => e,
        None => Seq::empty(),
    }
}

/// What a change comes to.
pub open spec fn plan_of(c: ChangeView, folders: Seq<Seq<char>>) -> Plan {
    if c.kind == ChangeKind::Removed {
        Plan::Remove
    } else {
        match concept_id_of(c.path, folders) {
            Some(id) => Plan::Index {
                drop_first: origin(c),
                concept_id: id,
                extension: extension_or_none(c.path),
            },
            None => Plan::Nothing { drop_first: origin(c) },
        }
    }
}

/// What a change comes to.
pub fn plan_change(change: &Change, folders: &Vec<String>) -> (r: ChangePlan)
    ensures
        r@ == plan_of(change@, texts(folders@)),
{
    match change.kind {
        ChangeKind::Removed => ChangePlan::Remove,
        _ => {
            let drop_first = match change.kind {
                ChangeKind::Moved => match &change.moved_from {
                    Some(p) => Some(p.clone()),
                    None => None,
                },
                _ => None,
            };
            match concept_id_for(change.path.as_str(), folders) {
                Some(concept_id) => {
                    let ext = match extension(change.path.as_str()) {
                        Some(e) => e,
                        None => {
                            let e = String::new();
                            assert(e@ =~= Seq::empty());
                            e
                        },
                    };
                    ChangePlan::Index { drop_first, concept_id, extension: ext }
                },
                None => ChangePlan::Nothing { drop_first },
            }
        },
    }
}

/// The event of a removal.
pub open spec fn removal_event(
    wid: Seq<char>,
    path: Seq<char>,
    result: Result<(), KbError>,
) -> Event {
    match result {
        Ok(()) => Event::DocRemoved { workspace_id: wid, path },
        Err(e) => warning(wid, e.text()),
    }
}

/// Tells of a removal, and counts it.
pub fn finish_remove(wid: &str, path: &str, result: &Result<(), KbError>, counts: &mut Counts) -> (r:
    EngineEvent)
    requires
        old(counts).removed < u32::MAX,
    ensures
        r@ == removal_event(wid@, path@, *result),
        final(counts).indexed == old(counts).indexed,
        final(counts).removed == old(counts).removed + if *result is Ok {
            1int
        } else {
            0
        },
{
    match result {
        Ok(()) => {
            counts.removed = counts.removed + 1;
            EngineEvent::DocRemoved { workspace_id: wid.to_owned(), path: path.to_owned() }
        },
        Err(e) => warn(wid, e.message()),
    }
}

/// The document that is indexed for a source that was read: what the source is prepared
/// into, or the source itself where it cannot be prepared.
pub open spec fn source_for(
    path: Seq<char>,
    concept_id: Seq<char>,
    extension: Seq<char>,
    raw: Seq<char>,
) -> (Seq<char>, Seq<char>, Seq<char>) {
    (path, concept_id, match prepared(extension, raw, concept_id) {
        Some(content) => content,
        None => raw,
    })
}

/// Makes the document to index of what was read at `path`. Gives warnings to tell, and no
/// document where nothing could be read.
pub fn prepare_source(
    wid: &str,
    path: &str,
    concept_id: &str,
    extension: &str,
    read: &Result<String, String>,
) -> (r: (Vec<EngineEvent>, Option<SourceDoc>))
    ensures
        match read {
            Err(e) => r.1 is None && said(r.0@) == seq![
                warning(wid@, "could not read source: "@ + e@),
            ],
            Ok(raw) => {
                &&& r.1 matches Some(d) && (d.source_path@, d.concept_id@, d.content@)
                    == source_for(path@, concept_id@, extension@, raw@)
                &&& if prepared(extension@, raw@, concept_id@) is Some {
                    r.0@.len() == 0
                } else {
                    exists|m: Seq<char>|
                        said(r.0@) == seq![
                            #[trigger] warning(wid@, "ingest prepare failed: "@ + m),
                        ]
                }
            },
        },
{
    let mut out: Vec<EngineEvent> = Vec::new();
    match read {
        Err(e) => {
            out.push(warn_of(wid, "could not read source: ", e.as_str()));
            assert(said(out@) =~= seq![warning(wid@, "could not read source: "@ + e@)]);
            (out, None)
        },
        Ok(raw) => {
            let content = match prepare(extension, raw.as_str(), concept_id) {
                Ok(content) => content,
                Err(e) => {
                    let m = e.message();
                    out.push(warn_of(wid, "ingest prepare failed: ", m.as_str()));
                    assert(said(out@) =~= seq![warning(wid@, "ingest prepare failed: "@ + m@)]);
                    raw.clone()
                },
            };
            let doc = SourceDoc {
                source_path: path.to_owned(),
                concept_id: concept_id.to_owned(),
                content,
            };
            (out, Some(doc))
        },
    }
}

/// The event of indexing a document.
pub open spec fn index_event(
    wid: Seq<char>,
    path: Seq<char>,
    result: Result<ConceptRef, KbError>,
) -> Event {
    match result {
        Ok(c) => Event::DocIndexed {
            workspace_id: wid,
            concept_id: c.concept_id@,
            okf_id: c.okf_id@,
            path,
            title: c.title@,
            labels: texts(c.labels@),
        },
        Err(e) => warning(wid, e.text()),
    }
}

/// Tells of the indexing of a document, and counts it.
pub fn finish_index(
    wid: &str,
    path: &str,
    result: Result<ConceptRef, KbError>,
    counts: &mut Counts,
) -> (r: EngineEvent)
    requires
        old(counts).indexed < u32::MAX,
    ensures
        r@ == index_event(wid@, path@, result),
        final(counts).removed == old(counts).removed,
        final(counts).indexed == old(counts).indexed + if result is Ok {
            1int
        } else {
            0
        },
{
    match result {
        Ok(c) => {
            counts.indexed = counts.indexed + 1;
            EngineEvent::DocIndexed {
                workspace_id: wid.to_owned(),
                concept_id: c.concept_id,
                okf_id: c.okf_id,
                path: path.to_owned(),
                title: c.title,
                labels: c.labels,
            }
        },
        Err(e) => warn(wid, e.message()),
    }
}

/// What a knowledge base was told between two moments.
pub open spec fn since(before: Seq<KbCall>, after: Seq<KbCall>) -> Seq<KbCall> {
    after.skip(before.len() as int)
}

/// How many calls take out the document that a change moved from.
pub open spec fn drops(c: ChangeView) -> nat {
    if origin(c) is Some {
        1
    } else {
        0
    }
}

/// Whether the first of the calls takes out the document that a change moved from, where it
/// moved.
pub open spec fn drops_first(c: ChangeView, calls: Seq<KbCall>) -> bool {
    origin(c) matches Some(from) ==> calls.len() > 0 && (calls[0] matches KbCall::Remove {
        source_path,
        ..
    } && source_path == from)
}

/// Whether calls, events and counts are what a change comes to, with what was read at its
/// path. The document that it moved from is removed first, and not told. Then the one at its
/// path is removed, or indexed as it was prepared; the answer to that call is told and
/// counted.
pub open spec fn applied(
    wid: Seq<char>,
    c: ChangeView,
    folders: Seq<Seq<char>>,
    read: Result<String, String>,
    before: Counts,
    calls: Seq<KbCall>,
    events: Seq<Event>,
    after: Counts,
) -> bool {
    match plan_of(c, folders) {
        Plan::Remove => {
            &&& calls.len() == 1
            &&& calls[0] matches KbCall::Remove { source_path, answer }
            &&& source_path == c.path
            &&& events == seq![removal_event(wid, c.path, answer)]
            &&& after.indexed == before.indexed
            &&& after.removed == before.removed + if answer is Ok {
                1int
            } else {
                0
            }
        },
        Plan::Nothing { .. } => {
            &&& calls.len() == drops(c)
            &&& drops_first(c, calls)
            &&& events.len() == 0
            &&& after == before
        },
        Plan::Index { concept_id, extension, .. } => match read {
            Err(e) => {
                &&& calls.len() == drops(c)
                &&& drops_first(c, calls)
                &&& events == seq![warning(wid, "could not read source: "@ + e@)]
                &&& after == before
            },
            Ok(raw) => {
                &&& calls.len() == drops(c) + 1
                &&& drops_first(c, calls)
                &&& calls.last() matches KbCall::Index {
                    source_path,
                    concept_id: id,
                    content,
                    answer,
                }
                &&& (source_path, id, content) == source_for(c.path, concept_id, extension, raw@)
                &&& events.len() > 0
                &&& events.last() == index_event(wid, c.path, answer)
                &&& after.removed == before.removed
                &&& after.indexed == before.indexed + if answer is Ok {
                    1int
                } else {
                    0
                }
                &&& if prepared(extension, raw@, concept_id) is Some {
                    events.len() == 1
                } else {
                    exists|m: Seq<char>|
                        events.drop_last() == seq![
                            #[trigger] warning(wid, "ingest prepare failed: "@ + m),
                        ]
                }
            },
        },
    }
}

/// Applies one change to the knowledge base, with what was read at its path, and gives the
/// events to tell. A document that moved is taken out under its old path first.
pub fn apply_and_emit<K: Kb>(
    kb: &mut K,
    wid: &str,
    folders: &Vec<String>,
    change: &Change,
    read: &Result<String, String>,
    counts: &mut Counts,
) -> (r: Vec<EngineEvent>)
    requires
        old(kb).wf(),
        old(kb).can_mint(),
        old(counts).indexed < u32::MAX,
        old(counts).removed < u32::MAX,
    ensures
        final(kb).wf(),
        final(kb).told() == old(kb).told() + since(old(kb).told(), final(kb).told()),
        applied(
            wid@,
            change@,
            texts(folders@),
            *read,
            *old(counts),
            since(old(kb).told(), final(kb).told()),
            said(r@),
            *final(counts),
        ),
{
    let mut out: Vec<EngineEvent> = Vec::new();
    let path = change.path.as_str();
    let ghost first_told = kb.told();
    match plan_change(change, folders) {
        ChangePlan::Remove => {
            let result = kb.remove(path);
            assert(kb.told() =~= first_told + since(first_told, kb.told()));
            out.push(finish_remove(wid, path, &result, counts));
            assert(said(out@) =~= seq![removal_event(wid@, path@, result)]);
            out
        },
        ChangePlan::Nothing { drop_first } => {
            if let Some(from) = drop_first {
                let dropped = kb.remove(from.as_str());
            }
            assert(kb.told() =~= first_told + since(first_told, kb.told()));
            out
        },
        ChangePlan::Index { drop_first, concept_id, extension } => {
            if let Some(from) = drop_first {
                let dropped = kb.remove(from.as_str());
            }
            let (warnings, doc) = prepare_source(
                wid,
                path,
                concept_id.as_str(),
                extension.as_str(),
                read,
            );
            match doc {
                None => {
                    assert(kb.told() =~= first_told + since(first_told, kb.told()));
                    warnings
                },
                Some(doc) => {
                    let mut out = warnings;
                    let ghost first = said(out@);
                    let result = kb.index(&doc);
                    assert(kb.told() =~= first_told + since(first_told, kb.told()));
                    let ghost answer = result;
                    out.push(finish_index(wid, path, result, counts));
                    proof {
                        let e = index_event(wid@, path@, answer);
                        assert(said(out@) =~= first.push(e));
                        assert(said(out@).last() == e);
                        assert(said(out@).drop_last() =~= first);
                    }
                    out
                },
            }
        },
    }
}

// ------------------------------------------------------------------------------- scans

/// The application of the changes that a scan found.
pub struct ScanRun {
    pub changes: Vec<Change>,
    /// How many changes were applied.
    pub done: usize,
    pub counts: Counts,
}

impl ScanRun {
    pub open spec fn wf(&self) -> bool {
        self.done <= self.changes@.len() && self.changes@.len() < u32::MAX && self.counts.indexed
            <= self.done && self.counts.removed <= self.done
    }

    /// Starts to apply changes, and tells of it.
    pub fn start(wid: &str, changes: Vec<Change>) -> (r: (Self, EngineEvent))
        requires
            changes@.len() < u32::MAX,
        ensures
            r.0.wf(),
            r.0.changes == changes,
            r.0.done == 0,
            r.0.counts == (Counts { indexed: 0, removed: 0 }),
            r.1@ == (Event::ScanStarted { workspace_id: wid@, total: changes@.len() as u32 }),
    {
        let total: u32 = changes.len() as u32;
        let e = EngineEvent::ScanStarted { workspace_id: wid.to_owned(), total };
        (ScanRun { changes, done: 0, counts: Counts { indexed: 0, removed: 0 } }, e)
    }

    /// The change to apply next; `None` at the end, or where the worker is to stop.
    pub fn next(&self, stop: bool) -> (r: Option<&Change>)
        requires
            self.wf(),
        ensures
            r is Some == (!stop && self.done < self.changes@.len()),
            r matches Some(c) ==> *c == self.changes@[self.done as int],
    {
        if stop || self.done >= self.changes.len() {
            None
        } else {
            Some(&self.changes[self.done])
        }
    }

    /// Records that the next change was applied, which brought the counts to `counts`, and
    /// tells of the progress.
    pub fn applied(&mut self, wid: &str, counts: Counts) -> (r: EngineEvent)
        requires
            old(self).wf(),
            old(self).done < old(self).changes@.len(),
            counts.indexed <= old(self).done + 1,
            counts.removed <= old(self).done + 1,
        ensures
            final(self).wf(),
            final(self).changes == old(self).changes,
            final(self).done == old(self).done + 1,
            final(self).counts == counts,
            r@ == (Event::ScanProgress {
                workspace_id: wid@,
                done: (old(self).done + 1) as u32,
                total: old(self).changes@.len() as u32,
                path: old(self).changes@[old(self).done as int].path@,
            }),
    {
        let path = self.changes[self.done].path.clone();
        self.done = self.done + 1;
        self.counts = counts;
        EngineEvent::ScanProgress {
            workspace_id: wid.to_owned(),
            done: self.done as u32,
            total: self.changes.len() as u32,
            path,
        }
    }

    /// Tells that the changes are applied.
    pub fn completed(&self, wid: &str) -> (r: EngineEvent)
        ensures
            r@ == (Event::ScanCompleted {
                workspace_id: wid@,
                indexed: self.counts.indexed,
                removed: self.counts.removed,
            }),
    {
        EngineEvent::ScanCompleted {
            workspace_id: wid.to_owned(),
            indexed: self.counts.indexed,
            removed: self.counts.removed,
        }
    }
}

// --------------------------------------------------------------------------- ingestion

/// Whether a path is that of an ignore file of ours.
pub open spec fn is_ignore_file(path: Seq<char>) -> bool {
    name_of(path) == Some(".looperignore"@)
}

/// Begins to ingest a changed path: an ignore file asks for a reconciliation, any other
/// path is to be observed. Gives whether it is.
pub fn begin_ingest(path: &str, signals: &mut Signals) -> (r: bool)
    ensures
        r == !is_ignore_file(path@),
        *final(signals) == (if is_ignore_file(path@) {
            Signals { reconcile: true, ..*old(signals) }
        } else {
            *old(signals)
        }),
{
    if let Some(name) = file_name(path) {
        if same(name.as_str(), ".looperignore") {
            signals.reconcile = true;
            return false;
        }
    }
    true
}

/// Tells of a change that was observed, and which folder it touched.
pub fn observed(wid: &str, change: &Change, folders: &Vec<String>) -> (r: (
    EngineEvent,
    Option<String>,
))
    ensures
        r.0@ == (Event::FileChanged {
            workspace_id: wid@,
            path: change.path@,
            kind: told_kind(change.kind),
        }),
        ({
            let i = home_from(change.path@, texts(folders@), 0);
            match r.1 {
                Some(f) => i < folders@.len() && f@ == folders@[i]@,
                None => i == folders@.len(),
            }
        }),
{
    (
        EngineEvent::FileChanged {
            workspace_id: wid.to_owned(),
            path: change.path.clone(),
            kind: map_change_kind(change.kind),
        },
        containing_folder(change.path.as_str(), folders),
    )
}

// -------------------------------------------------------------------------- laws

/// A change to a document is told by exactly one event that it was indexed, removed or
/// could not be, but for a warning about its preparation; one under no folder is not told.
pub proof fn a_change_is_told_once(
    wid: Seq<char>,
    c: ChangeView,
    folders: Seq<Seq<char>>,
    read: Result<String, String>,
    before: Counts,
    calls: Seq<KbCall>,
    events: Seq<Event>,
    after: Counts,
)
    requires
        applied(wid, c, folders, read, before, calls, events, after),
    ensures
        calls.len() <= 2,
        events.len() <= 2,
        events.len() == 0 <==> plan_of(c, folders) is Nothing,
        after.indexed + after.removed <= before.indexed + before.removed + 1,
        forall|i: int| 0 <= i < events.len() - 1 ==> #[trigger] events[i] is Warning,
{
    if let Plan::Index { concept_id, extension, .. } = plan_of(c, folders) {
        if let Ok(raw) = read {
            if prepared(extension, raw@, concept_id) is None {
                let m = choose|m: Seq<char>|
                    events.drop_last() == seq![
                        #[trigger] warning(wid, "ingest prepare failed: "@ + m),
                    ];
                assert(events.drop_last().len() == 1);
                assert(events.drop_last()[0] == events[0]);
            }
        }
    }
}

} // verus!
