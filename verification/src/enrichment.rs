//! Enrichment of bundle documents: the seam behind which it happens, and one with a
//! script.

use crate::ipc::{EnrichmentApiKeySource, EnrichmentDelta};
use vstd::prelude::*;

verus! {

/// Errors of running enrichment.
#[derive(Debug)]
pub enum EnrichError {
    /// No API key is configured.
    MissingApiKey,
    /// The enrichment tool could not be started.
    Spawn(String),
    /// The enrichment tool ran but failed.
    Tool(String),
    /// The enrichment tool exceeded its time and was stopped.
    Timeout,
    /// The keychain could not be read or written.
    Keychain(String),
    /// Reading the bundle document failed.
    Io(String),
}

impl EnrichError {
    /// What the error says.
    pub open spec fn text(&self) -> Seq<char> {
        match self {
            EnrichError::MissingApiKey => "no Gemini API key configured"@,
            EnrichError::Spawn(m) => "could not start the enrichment tool: "@ + m@,
            EnrichError::Tool(m) => "enrichment tool failed: "@ + m@,
            EnrichError::Timeout => "enrichment timed out"@,
            EnrichError::Keychain(m) => "keychain error: "@ + m@,
            EnrichError::Io(m) => m@,
        }
    }

    /// What the error says.
    pub fn message(&self) -> (r: String)
        ensures
            r@ == self.text(),
    {
        match self {
            EnrichError::MissingApiKey => "no Gemini API key configured".to_owned(),
            EnrichError::Spawn(m) => {
                let mut s = "could not start the enrichment tool: ".to_owned();
                s.append(m.as_str());
                s
            },
            EnrichError::Tool(m) => {
                let mut s = "enrichment tool failed: ".to_owned();
                s.append(m.as_str());
                s
            },
            EnrichError::Timeout => "enrichment timed out".to_owned(),
            EnrichError::Keychain(m) => {
                let mut s = "keychain error: ".to_owned();
                s.append(m.as_str());
                s
            },
            EnrichError::Io(m) => m.clone(),
        }
    }
}

/// One document's outcome of a batch run.
#[derive(Debug, Clone, PartialEq, Eq)]
pub struct EnrichedDoc {
    /// The document's source path.
    pub source_path: String,
    /// What enrichment added to this document.
    pub delta: EnrichmentDelta,
}

/// What an enricher was asked for one document, and what it answered.
pub struct EnrichCall {
    pub bundle_dir: Seq<char>,
    pub concept_id: Seq<char>,
    pub source: EnrichmentApiKeySource,
    pub workspace_id: Seq<char>,
    pub answer: Result<EnrichmentDelta, EnrichError>,
}

/// What an enricher was asked for every document of a bundle, and what it answered.
pub struct EnrichAllCall {
    pub bundle_dir: Seq<char>,
    pub source: EnrichmentApiKeySource,
    pub workspace_id: Seq<char>,
    pub answer: Result<Vec<EnrichedDoc>, EnrichError>,
}

/// What an enricher was asked for single documents, in order.
pub type EnrichCalls = Seq<EnrichCall>;

/// What an enricher was asked for whole bundles, in order.
pub type EnrichAllCalls = Seq<EnrichAllCall>;

/// Enriches one bundle document, or every document of a bundle. The implementor finds its
/// own API key.
pub trait Enricher {
    /// What it was asked for single documents, with its answers, in order.
    spec fn asked(&self) -> EnrichCalls;

    /// What it was asked for whole bundles, with its answers, in order.
    spec fn asked_all(&self) -> EnrichAllCalls;

    /// Enriches one document, giving what it added.
    fn enrich(
        &mut self,
        bundle_dir: &str,
        concept_id: &str,
        source: EnrichmentApiKeySource,
        workspace_id: &str,
    ) -> (r: Result<EnrichmentDelta, EnrichError>)
        ensures
            final(self).asked() == old(self).asked().push(
                EnrichCall {
                    bundle_dir: bundle_dir@,
                    concept_id: concept_id@,
                    source,
                    workspace_id: workspace_id@,
                    answer: r,
                },
            ),
            final(self).asked_all() == old(self).asked_all(),
    ;

    /// Enriches every document, giving those that changed.
    fn enrich_all(
        &mut self,
        bundle_dir: &str,
        source: EnrichmentApiKeySource,
        workspace_id: &str,
    ) -> (r: Result<Vec<EnrichedDoc>, EnrichError>)
        ensures
            final(self).asked() == old(self).asked(),
            final(self).asked_all() == old(self).asked_all().push(
                EnrichAllCall {
                    bundle_dir: bundle_dir@,
                    source,
                    workspace_id: workspace_id@,
                    answer: r,
                },
            ),
    ;
}

/// An enricher that gives what was scripted, in order, and records its calls.
pub struct MockEnricher {
    pub scripted: Vec<EnrichmentDelta>,
    pub called: Vec<(String, String)>,
    pub scripted_all: Vec<Vec<EnrichedDoc>>,
    pub called_all: Vec<String>,
    pub log: Ghost<Seq<EnrichCall>>,
    pub log_all: Ghost<Seq<EnrichAllCall>>,
}

impl MockEnricher {
    /// An enricher that adds nothing.
    pub fn new() -> (r: Self)
        ensures
            r.scripted@.len() == 0,
            r.called@.len() == 0,
            r.scripted_all@.len() == 0,
            r.called_all@.len() == 0,
            r.asked().len() == 0,
            r.asked_all().len() == 0,
    {
        MockEnricher {
            scripted: Vec::new(),
            called: Vec::new(),
            scripted_all: Vec::new(),
            called_all: Vec::new(),
            log: Ghost(Seq::empty()),
            log_all: Ghost(Seq::empty()),
        }
    }

    /// Queues what an `enrich` gives: what is queued first comes first.
    pub fn script(&mut self, delta: EnrichmentDelta)
        ensures
            final(self).scripted@ == old(self).scripted@.push(delta),
            final(self).called == old(self).called,
            final(self).scripted_all == old(self).scripted_all,
            final(self).called_all == old(self).called_all,
            final(self).asked() == old(self).asked(),
            final(self).asked_all() == old(self).asked_all(),
    {
        self.scripted.push(delta);
    }

    /// Queues what an `enrich_all` gives: what is queued first comes first.
    pub fn script_all(&mut self, docs: Vec<EnrichedDoc>)
        ensures
            final(self).scripted_all@ == old(self).scripted_all@.push(docs),
            final(self).called == old(self).called,
            final(self).scripted == old(self).scripted,
            final(self).called_all == old(self).called_all,
            final(self).asked() == old(self).asked(),
            final(self).asked_all() == old(self).asked_all(),
    {
        self.scripted_all.push(docs);
    }

    /// The bundle directories and concept ids that `enrich` was called with, in order.
    pub fn calls(&self) -> (r: &Vec<(String, String)>)
        ensures
            *r == self.called,
    {
        &self.called
    }

    /// The bundle directories that `enrich_all` was called with, in order.
    pub fn all_calls(&self) -> (r: &Vec<String>)
        ensures
            *r == self.called_all,
    {
        &self.called_all
    }
}

impl Default for MockEnricher {
    fn default() -> (r: Self)
        ensures
            r.scripted@.len() == 0,
            r.called@.len() == 0,
            r.scripted_all@.len() == 0,
            r.called_all@.len() == 0,
            r.asked().len() == 0,
            r.asked_all().len() == 0,
    {
        Self::new()
    }
}

impl Enricher for MockEnricher {
    open spec fn asked(&self) -> EnrichCalls {
        self.log@
    }

    open spec fn asked_all(&self) -> EnrichAllCalls {
        self.log_all@
    }

    fn enrich(
        &mut self,
        bundle_dir: &str,
        concept_id: &str,
        source: EnrichmentApiKeySource,
        workspace_id: &str,
    ) -> (r: Result<EnrichmentDelta, EnrichError>)
        ensures
            final(self).called@.len() == old(self).called@.len() + 1,
            final(self).called@.drop_last() == old(self).called@,
            final(self).called@.last().0@ == bundle_dir@,
            final(self).called@.last().1@ == concept_id@,
            final(self).scripted_all == old(self).scripted_all,
            final(self).called_all == old(self).called_all,
            if old(self).scripted@.len() > 0 {
                r == Ok::<EnrichmentDelta, EnrichError>(old(self).scripted@[0])
                    && final(self).scripted@ == old(self).scripted@.drop_first()
            } else {
                r matches Ok(d) && d.labels_added@.len() == 0 && d.content_added@.len() == 0
                    && final(self).scripted@ == old(self).scripted@
            },
    {
        self.called.push((bundle_dir.to_owned(), concept_id.to_owned()));
        assert(self.called@.drop_last() =~= old(self).called@);
        let r = if self.scripted.len() > 0 {
            let first = self.scripted.remove(0);
            assert(self.scripted@ =~= old(self).scripted@.drop_first());
            Ok(first)
        } else {
            Ok(EnrichmentDelta { labels_added: Vec::new(), content_added: Vec::new() })
        };
        self.log = Ghost(
            self.log@.push(
                EnrichCall {
                    bundle_dir: bundle_dir@,
                    concept_id: concept_id@,
                    source,
                    workspace_id: workspace_id@,
                    answer: r,
                },
            ),
        );
        r
    }

    fn enrich_all(
        &mut self,
        bundle_dir: &str,
        source: EnrichmentApiKeySource,
        workspace_id: &str,
    ) -> (r: Result<Vec<EnrichedDoc>, EnrichError>)
        ensures
            final(self).called_all@.len() == old(self).called_all@.len() + 1,
            final(self).called_all@.drop_last() == old(self).called_all@,
            final(self).called_all@.last()@ == bundle_dir@,
            final(self).scripted == old(self).scripted,
            final(self).called == old(self).called,
            if old(self).scripted_all@.len() > 0 {
                r == Ok::<Vec<EnrichedDoc>, EnrichError>(old(self).scripted_all@[0])
                    && final(self).scripted_all@ == old(self).scripted_all@.drop_first()
            } else {
                r matches Ok(d) && d@.len() == 0 && final(self).scripted_all@ == old(
                    self,
                ).scripted_all@
            },
    {
        self.called_all.push(bundle_dir.to_owned());
        assert(self.called_all@.drop_last() =~= old(self).called_all@);
        let r = if self.scripted_all.len() > 0 {
            let first = self.scripted_all.remove(0);
            assert(self.scripted_all@ =~= old(self).scripted_all@.drop_first());
            Ok(first)
        } else {
            Ok(Vec::new())
        };
        self.log_all = Ghost(
            self.log_all@.push(
                EnrichAllCall {
                    bundle_dir: bundle_dir@,
                    source,
                    workspace_id: workspace_id@,
                    answer: r,
                },
            ),
        );
        r
    }
}

} // verus!
