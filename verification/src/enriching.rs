//! The enrichment worker of a workspace: it has documents enriched, brings the catalog in
//! step, and tells of it.

use crate::enrichment::{EnrichAllCall, EnrichError, EnrichedDoc, Enricher};
use crate::events::{delta_view, said, warn_of, warning, Event};
use crate::ipc::{EngineEvent, EnrichmentConfig, EnrichmentDelta};
use crate::kb::{Kb, KbCall};
use crate::text::copy_texts;
use vstd::prelude::*;

verus! {

/// What is asked of the enrichment worker.
#[derive(Debug)]
pub enum EnrichJob {
    /// Enrich one document: its concept id, and the source path that it is known by.
    Doc { concept_id: String, path: String },
    /// Enrich every document, where that is wanted after a scan.
    AfterScan,
    /// Enrich every document now.
    All,
}

/// Whether documents are enriched after a scan.
pub fn wants_after_scan(config: &EnrichmentConfig) -> (r: bool)
    ensures
        r == (config.enabled && config.enrich_after_scan),
{
    config.enabled && config.enrich_after_scan
}

/// The event of a document's enrichment.
pub open spec fn one_event(
    wid: Seq<char>,
    path: Seq<char>,
    result: Result<EnrichmentDelta, EnrichError>,
) -> Event {
    match result {
        Ok(d) => Event::EnrichSucceeded { workspace_id: wid, path, delta: delta_view(d) },
        Err(e) => Event::EnrichFailed { workspace_id: wid, path, reason: e.text() },
    }
}

/// Tells what came of a document's enrichment.
pub fn finish_one(wid: &str, path: &str, result: Result<EnrichmentDelta, EnrichError>) -> (r:
    EngineEvent)
    ensures
        r@ == one_event(wid@, path@, result),
{
    match result {
        Ok(delta) => EngineEvent::EnrichSucceeded {
            workspace_id: wid.to_owned(),
            path: path.to_owned(),
            delta,
        },
        Err(e) => EngineEvent::EnrichFailed {
            workspace_id: wid.to_owned(),
            path: path.to_owned(),
            reason: e.message(),
        },
    }
}

/// Tells that a document is about to be enriched.
pub fn start_one(wid: &str, path: &str) -> (r: EngineEvent)
    ensures
        r@ == (Event::EnrichStarted { workspace_id: wid@, path: path@ }),
{
    EngineEvent::EnrichStarted { workspace_id: wid.to_owned(), path: path.to_owned() }
}

/// Takes the enricher's answer for a document: the catalog is brought in step before a success
/// is told.
pub fn conclude_one<K: Kb>(
    kb: &mut K,
    wid: &str,
    path: &str,
    result: Result<EnrichmentDelta, EnrichError>,
) -> (r: EngineEvent)
    requires
        old(kb).wf(),
    ensures
        final(kb).wf(),
        final(kb).told() == old(kb).told() + (if result is Ok {
            seq![KbCall::Refresh { source_path: path@ }]
        } else {
            Seq::empty()
        }),
        r@ == one_event(wid@, path@, result),
{
    if result.is_ok() {
        let refreshed = kb.refresh_indexed(path);
    }
    assert(kb.told() =~= old(kb).told() + (if result is Ok {
        seq![KbCall::Refresh { source_path: path@ }]
    } else {
        Seq::empty()
    }));
    finish_one(wid, path, result)
}

/// Enriches one document. Whatever the enricher answers, the start is told first and then
/// the answer; the catalog is brought in step before a success is told.
pub fn enrich_one<E: Enricher, K: Kb>(
    enricher: &mut E,
    kb: &mut K,
    wid: &str,
    kb_dir: &str,
    config: &EnrichmentConfig,
    concept_id: &str,
    path: &str,
) -> (r: Vec<EngineEvent>)
    requires
        old(kb).wf(),
    ensures
        final(kb).wf(),
        final(enricher).asked_all() == old(enricher).asked_all(),
        ({
            let calls = final(enricher).asked();
            let call = calls.last();
            &&& calls == old(enricher).asked().push(call)
            &&& call.bundle_dir == kb_dir@
            &&& call.concept_id == concept_id@
            &&& call.source == config.api_key_source
            &&& call.workspace_id == wid@
            &&& final(kb).told() == old(kb).told() + (if call.answer is Ok {
                seq![KbCall::Refresh { source_path: path@ }]
            } else {
                Seq::empty()
            })
            &&& said(r@) == seq![
                Event::EnrichStarted { workspace_id: wid@, path: path@ },
                one_event(wid@, path@, call.answer),
            ]
        }),
{
    let mut out: Vec<EngineEvent> = Vec::new();
    out.push(start_one(wid, path));
    let result = enricher.enrich(kb_dir, concept_id, config.api_key_source, wid);
    let ghost answer = result;
    out.push(conclude_one(kb, wid, path, result));
    assert(said(out@) =~= seq![
        Event::EnrichStarted { workspace_id: wid@, path: path@ },
        one_event(wid@, path@, answer),
    ]);
    out
}

/// The events of documents that were enriched, in order.
pub open spec fn doc_events(wid: Seq<char>, docs: Seq<EnrichedDoc>) -> Seq<Event> {
    docs.map_values(
        |d: EnrichedDoc|
            Event::EnrichSucceeded {
                workspace_id: wid,
                path: d.source_path@,
                delta: delta_view(d.delta),
            },
    )
}

/// The events of a batch's answer: each document that changed, and the end with their number.
/// A batch that failed is a warning, and changed none.
pub open spec fn answer_events(
    wid: Seq<char>,
    result: Result<Vec<EnrichedDoc>, EnrichError>,
) -> Seq<Event> {
    match result {
        Ok(docs) => doc_events(wid, docs@).push(
            Event::EnrichAllFinished { workspace_id: wid, enriched: docs@.len() as u32 },
        ),
        Err(e) => seq![
            warning(wid, "enrich-all failed: "@ + e.text()),
            Event::EnrichAllFinished { workspace_id: wid, enriched: 0 },
        ],
    }
}

/// The events of a batch: its start, and those of its answer.
pub open spec fn all_events(wid: Seq<char>, result: Result<Vec<EnrichedDoc>, EnrichError>) -> Seq<
    Event,
> {
    seq![Event::EnrichAllStarted { workspace_id: wid }] + answer_events(wid, result)
}

/// Tells that a batch is about to start.
pub fn start_all(wid: &str) -> (r: EngineEvent)
    ensures
        r@ == (Event::EnrichAllStarted { workspace_id: wid@ }),
{
    EngineEvent::EnrichAllStarted { workspace_id: wid.to_owned() }
}

/// Tells what came of a batch.
pub fn finish_all(wid: &str, result: &Result<Vec<EnrichedDoc>, EnrichError>) -> (r: Vec<
    EngineEvent,
>)
    ensures
        said(r@) == answer_events(wid@, *result),
{
    let mut out: Vec<EngineEvent> = Vec::new();
    match result {
        Ok(docs) => {
            let ghost all = doc_events(wid@, docs@);
            let mut i: usize = 0;
            assert(said(out@) =~= all.take(0));
            while i < docs.len()
                invariant
                    i <= docs@.len(),
                    all == doc_events(wid@, docs@),
                    said(out@) == all.take(i as int),
                decreases docs.len() - i,
            {
                let ghost before = said(out@);
                let delta = EnrichmentDelta {
                    labels_added: copy_texts(&docs[i].delta.labels_added),
                    content_added: copy_texts(&docs[i].delta.content_added),
                };
                out.push(
                    EngineEvent::EnrichSucceeded {
                        workspace_id: wid.to_owned(),
                        path: docs[i].source_path.clone(),
                        delta,
                    },
                );
                proof {
                    assert(said(out@) =~= before.push(all[i as int]));
                    assert(all.take(i + 1) =~= before.push(all[i as int]));
                }
                i = i + 1;
            }
            assert(all.take(all.len() as int) =~= all);
            let ghost before = said(out@);
            let enriched: u32 = docs.len() as u32;
            out.push(
                EngineEvent::EnrichAllFinished { workspace_id: wid.to_owned(), enriched },
            );
            assert(said(out@) =~= before.push(
                Event::EnrichAllFinished { workspace_id: wid@, enriched },
            ));
        },
        Err(e) => {
            out.push(warn_of(wid, "enrich-all failed: ", e.message().as_str()));
            out.push(
                EngineEvent::EnrichAllFinished { workspace_id: wid.to_owned(), enriched: 0 },
            );
            assert(said(out@) =~= answer_events(wid@, *result));
        },
    }
    out
}

/// The calls that bring the catalog in step with the documents that a batch changed, in order;
/// none where it failed.
pub open spec fn refreshes(result: Result<Vec<EnrichedDoc>, EnrichError>) -> Seq<KbCall> {
    match result {
        Ok(docs) => docs@.map_values(
            |d: EnrichedDoc| KbCall::Refresh { source_path: d.source_path@ },
        ),
        Err(_) => Seq::empty(),
    }
}

/// Whether a batch was asked of the enricher for a workspace, its answer was told, and the
/// catalog was brought in step with each document that changed.
pub open spec fn batched(
    asked: (Seq<EnrichAllCall>, Seq<EnrichAllCall>),
    told: (Seq<KbCall>, Seq<KbCall>),
    wid: Seq<char>,
    kb_dir: Seq<char>,
    config: EnrichmentConfig,
    events: Seq<Event>,
) -> bool {
    let call = asked.1.last();
    &&& asked.1 == asked.0.push(call)
    &&& call.bundle_dir == kb_dir
    &&& call.source == config.api_key_source
    &&& call.workspace_id == wid
    &&& told.1 == told.0 + refreshes(call.answer)
    &&& events == all_events(wid, call.answer)
}

/// Takes the enricher's answer for a batch: the catalog is brought in step with each document
/// that changed, and the answer is told.
pub fn conclude_all<K: Kb>(
    kb: &mut K,
    wid: &str,
    result: &Result<Vec<EnrichedDoc>, EnrichError>,
) -> (r: Vec<EngineEvent>)
    requires
        old(kb).wf(),
    ensures
        final(kb).wf(),
        final(kb).told() == old(kb).told() + refreshes(*result),
        said(r@) == answer_events(wid@, *result),
{
    let ghost all = refreshes(*result);
    let ghost first = kb.told();
    if let Ok(docs) = result {
        let mut i: usize = 0;
        assert(kb.told() =~= first + all.take(0));
        while i < docs.len()
            invariant
                kb.wf(),
                i <= docs@.len(),
                all == refreshes(Ok::<Vec<EnrichedDoc>, EnrichError>(*docs)),
                kb.told() == first + all.take(i as int),
            decreases docs.len() - i,
        {
            let ghost before = kb.told();
            let refreshed = kb.refresh_indexed(docs[i].source_path.as_str());
            assert(kb.told() =~= before.push(all[i as int]));
            assert(first + all.take(i + 1) =~= before.push(all[i as int]));
            i = i + 1;
        }
        assert(all.take(all.len() as int) =~= all);
    }
    assert(kb.told() =~= first + all);
    finish_all(wid, result)
}

/// Enriches every document. Whatever the enricher answers, the events are those of that
/// answer; the catalog is brought in step with each document that changed.
pub fn enrich_all_now<E: Enricher, K: Kb>(
    enricher: &mut E,
    kb: &mut K,
    wid: &str,
    kb_dir: &str,
    config: &EnrichmentConfig,
) -> (r: Vec<EngineEvent>)
    requires
        old(kb).wf(),
    ensures
        final(kb).wf(),
        final(enricher).asked() == old(enricher).asked(),
        batched(
            (old(enricher).asked_all(), final(enricher).asked_all()),
            (old(kb).told(), final(kb).told()),
            wid@,
            kb_dir@,
            *config,
            said(r@),
        ),
{
    let mut out: Vec<EngineEvent> = Vec::new();
    out.push(start_all(wid));
    let ghost first = out@;
    let result = enricher.enrich_all(kb_dir, config.api_key_source, wid);
    let mut rest = conclude_all(kb, wid, &result);
    let ghost then_told = rest@;
    out.append(&mut rest);
    assert(out@ == first + then_told);
    assert(said(out@) =~= all_events(wid@, result)) by {
        assert(said(then_told) == answer_events(wid@, result));
        assert(said(out@) =~= said(first) + said(then_told));
        assert(said(first) =~= seq![Event::EnrichAllStarted { workspace_id: wid@ }]);
    }
    out
}

/// Enriches every document after a scan, where that is wanted.
pub fn enrich_after_scan<E: Enricher, K: Kb>(
    enricher: &mut E,
    kb: &mut K,
    wid: &str,
    kb_dir: &str,
    config: &EnrichmentConfig,
) -> (r: Vec<EngineEvent>)
    requires
        old(kb).wf(),
    ensures
        final(kb).wf(),
        if config.enabled && config.enrich_after_scan {
            &&& final(enricher).asked() == old(enricher).asked()
            &&& batched(
                (old(enricher).asked_all(), final(enricher).asked_all()),
                (old(kb).told(), final(kb).told()),
                wid@,
                kb_dir@,
                *config,
                said(r@),
            )
        } else {
            r@.len() == 0 && *final(kb) == *old(kb) && *final(enricher) == *old(enricher)
        },
{
    if wants_after_scan(config) {
        enrich_all_now(enricher, kb, wid, kb_dir, config)
    } else {
        Vec::new()
    }
}

// -------------------------------------------------------------------------- laws

/// A batch that started also ends, whatever the enricher answers, and the number it ends
/// with is that of the documents it told of, as far as that fits.
pub proof fn batches_end(wid: Seq<char>, result: Result<Vec<EnrichedDoc>, EnrichError>)
    ensures
        all_events(wid, result).len() >= 2,
        all_events(wid, result)[0] == (Event::EnrichAllStarted { workspace_id: wid }),
        all_events(wid, result).last() is EnrichAllFinished,
        result matches Ok(docs) ==> all_events(wid, result).len() == docs@.len() + 2 && (docs@.len()
            <= u32::MAX ==> all_events(wid, result).last() == (Event::EnrichAllFinished {
            workspace_id: wid,
            enriched: docs@.len() as u32,
        })),
        result is Err ==> all_events(wid, result).last() == (Event::EnrichAllFinished {
            workspace_id: wid,
            enriched: 0,
        }),
{
}

} // verus!
