//! What enrichment tells: every document that changed, in order, and why one did not.

use crate::enriching::{all_events, answer_events, one_event, refreshes};
use crate::enrichment::{EnrichError, EnrichedDoc};
use crate::events::{delta_view, warning, Event};
use crate::ipc::EnrichmentDelta;
use crate::kb::KbCall;
use vstd::prelude::*;

verus! {

/// A document's enrichment is told with what changed, or with the reason that it failed.
pub proof fn enrichments_are_told(wid: Seq<char>, path: Seq<char>, d: EnrichmentDelta, e: EnrichError)
    ensures
        one_event(wid, path, Ok(d)) == (Event::EnrichSucceeded {
            workspace_id: wid,
            path,
            delta: delta_view(d),
        }),
        one_event(wid, path, Err(e)) == (Event::EnrichFailed {
            workspace_id: wid,
            path,
            reason: e.text(),
        }),
{
}

/// Each document of a batch is told, in order, between the start and the end, and the catalog is
/// brought in step with it; of a batch that failed the reason is told, and nothing is refreshed.
pub proof fn every_enriched_document_is_told(
    wid: Seq<char>,
    docs: Vec<EnrichedDoc>,
    e: EnrichError,
    i: int,
)
    requires
        0 <= i < docs@.len(),
    ensures
        all_events(wid, Ok(docs))[1 + i] == (Event::EnrichSucceeded {
            workspace_id: wid,
            path: docs@[i].source_path@,
            delta: delta_view(docs@[i].delta),
        }),
        refreshes(Ok(docs)).len() == docs@.len(),
        refreshes(Ok(docs))[i] == (KbCall::Refresh { source_path: docs@[i].source_path@ }),
        all_events(wid, Err(e)) == seq![
            Event::EnrichAllStarted { workspace_id: wid },
            warning(wid, "enrich-all failed: "@ + e.text()),
            Event::EnrichAllFinished { workspace_id: wid, enriched: 0 },
        ],
        refreshes(Err(e)).len() == 0,
{
    let ok: Result<Vec<EnrichedDoc>, EnrichError> = Ok(docs);
    let failed: Result<Vec<EnrichedDoc>, EnrichError> = Err(e);
    assert(answer_events(wid, ok)[i] == all_events(wid, ok)[1 + i]);
    assert(all_events(wid, failed) =~= seq![
        Event::EnrichAllStarted { workspace_id: wid },
        warning(wid, "enrich-all failed: "@ + e.text()),
        Event::EnrichAllFinished { workspace_id: wid, enriched: 0 },
    ]);
}

} // verus!
