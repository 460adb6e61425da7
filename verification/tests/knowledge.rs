//! The knowledge base: bundles, identities, revisions, tags, search and the graph page.

use std::collections::{BTreeMap, HashSet};

use looper::bundle::{frontmatter_str, frontmatter_tags};
use looper::calendar::{civil_from_days, format_unix_utc};
use looper::frontmatter::Document;
use looper::kb::{ConceptRef, KbError, SearchHit, SourceDoc};
use looper::okf::{into_kb_error, migrate_concept_id, OkfError, OkfIndex, OkfKb, OkfProvider};
use looper::path::join_path;
use looper::sorted::{KeyOrder, SortedMap};
use looper::state::{migrate_to_current, StateError, Versioned};
use looper::viz::{
    edges, escape_markup, extract_links, palette_color, render_visualization, walk_concepts, VizDoc,
};
use serde_yaml_ng::Value;

const NOW: &str = "2026-07-01T00:00:00+00:00";

fn doc(source: &str, concept: &str, content: &str) -> SourceDoc {
    SourceDoc {
        source_path: source.to_string(),
        concept_id: concept.to_string(),
        content: content.to_string(),
    }
}

/// A knowledge base with the files that it has written.
struct Library {
    kb: OkfKb,
    files: BTreeMap<String, String>,
}

impl Library {
    fn new() -> Self {
        let (kb, _) = OkfKb::open("/kb/b".to_string(), OkfIndex::empty(), &Vec::new());
        Library {
            kb,
            files: BTreeMap::new(),
        }
    }

    fn index(&mut self, doc: &SourceDoc) -> ConceptRef {
        let previous = self.files.get(&self.kb.concept_path(&doc.concept_id)).cloned();
        let pending = self.kb.begin_index(doc, previous.as_deref(), NOW).unwrap();
        self.files.insert(pending.path.clone(), pending.markdown.clone());
        self.kb.finish_index(pending)
    }

    fn read_indexed(&self, source: &str) -> Option<String> {
        self.kb
            .indexed_path(source)
            .and_then(|p| self.files.get(&p).cloned())
    }

    fn write_indexed(&mut self, source: &str, content: &str) -> bool {
        let Some(path) = self.kb.indexed_path(source) else {
            return false;
        };
        self.files.insert(path, content.to_string());
        self.kb.refresh_indexed(source, Some(content));
        true
    }

    fn refresh(&mut self, source: &str) -> Option<ConceptRef> {
        let bundle = self.read_indexed(source);
        self.kb.refresh_indexed(source, bundle.as_deref())
    }

    fn remove(&mut self, source: &str) {
        if let Some(path) = self.kb.remove(source) {
            self.files.remove(&path);
        }
    }

    fn reopen(self) -> (Self, bool) {
        let mut bundles = Vec::new();
        for (_, e) in &self.kb.index.entries.entries {
            bundles.push(self.files.get(&join_path("/kb/b", &e.concept_id)).cloned());
        }
        let (kb, changed) = OkfKb::open("/kb/b".to_string(), self.kb.index, &bundles);
        (
            Library {
                kb,
                files: self.files,
            },
            changed,
        )
    }

    fn enrich(&mut self, source: &str) {
        let bundle = self.read_indexed(source).unwrap();
        let mut document = Document::parse(&bundle);
        document
            .frontmatter
            .insert(Value::from("gemini_enriched_at"), Value::from("t"));
        document
            .frontmatter
            .insert(Value::from("description"), Value::from("AI summary."));
        document.body = format!(
            "{}\n\n::: {{.enrichment gemini-model=\"m\" enriched-at=\"t\" from-revision=\"1\"}}\n# AI Enrichment\n\n- a point\n\n:::\n",
            document.body.trim_end()
        );
        assert!(self.write_indexed(source, &document.to_markdown().unwrap()));
    }
}

const A: &str = "/ws/docs/a.md";

#[test]
fn revision_bumps_on_content_change_and_holds_on_noop_reindex() {
    let mut kb = Library::new();
    kb.index(&doc(A, "docs/a.md", "# A\n\nv1\n"));
    let first = kb.read_indexed(A).unwrap();
    assert!(first.contains("okf_revision: 1"));
    assert!(first.contains("okf_updated_at: "));

    kb.index(&doc(A, "docs/a.md", "# A\n\nv1\n"));
    assert_eq!(kb.read_indexed(A).unwrap(), first);

    kb.index(&doc(A, "docs/a.md", "# A\n\nv2\n"));
    assert!(kb.read_indexed(A).unwrap().contains("okf_revision: 2"));
}

#[test]
fn reindex_carries_enrichment_fence_and_frontmatter_forward() {
    let mut kb = Library::new();
    kb.index(&doc(A, "docs/a.md", "# A\n\noriginal body\n"));
    kb.enrich(A);

    kb.index(&doc(A, "docs/a.md", "# A\n\nEDITED body\n"));
    let out = kb.read_indexed(A).unwrap();

    assert!(out.contains("EDITED body"));
    assert!(out.contains("::: {.enrichment gemini-model=\"m\""));
    assert!(out.contains("- a point"));
    assert!(out.contains("gemini_enriched_at: t"));
    assert!(out.contains("description: AI summary."));
    assert_eq!(out.matches("::: {.enrichment").count(), 1);
    assert!(out.contains("okf_revision: 2"));
    assert!(out.contains("from-revision=\"1\""));
}

#[test]
fn source_authored_preserved_fence_wins_over_carry_over() {
    let mut kb = Library::new();
    kb.index(&doc(A, "docs/a.md", "# A\n\nbody\n"));
    kb.enrich(A);

    let authored = "# A\n\n::: {.enrichment}\nauthor took ownership\n:::\n";
    kb.index(&doc(A, "docs/a.md", authored));
    let out = kb.read_indexed(A).unwrap();
    assert!(out.contains("author took ownership"));
    assert_eq!(out.matches("::: {.enrichment").count(), 1);
    assert!(!out.contains("- a point"));
}

#[test]
fn source_frontmatter_wins_over_restored_keys() {
    let mut kb = Library::new();
    kb.index(&doc(A, "docs/a.md", "# A\n\nbody\n"));
    kb.enrich(A);

    kb.index(&doc(
        A,
        "docs/a.md",
        "---\ndescription: Author's own.\n---\n# A\n\nbody v2\n",
    ));
    let out = kb.read_indexed(A).unwrap();
    assert!(out.contains("description: Author's own."));
    assert!(!out.contains("AI summary."));
    assert!(out.contains("gemini_enriched_at: t"));
}

#[test]
fn reindexing_an_enriched_document_again_changes_nothing() {
    let mut kb = Library::new();
    kb.index(&doc(A, "docs/a.md", "# A\n\noriginal body\n"));
    kb.enrich(A);
    kb.index(&doc(A, "docs/a.md", "# A\n\nEDITED body\n"));
    let first = kb.read_indexed(A).unwrap();
    assert!(first.contains("::: {.enrichment"));
    kb.index(&doc(A, "docs/a.md", "# A\n\nEDITED body\n"));
    assert_eq!(kb.read_indexed(A).unwrap(), first);
    assert_eq!(kb.kb.doc_count(), 1);
}

#[test]
fn indexing_twice_keeps_the_identity_and_the_count() {
    let mut kb = Library::new();
    let r1 = kb.index(&doc(A, "docs/a.md", "---\ntags: [x]\n---\n# A\n\n---\n\nv1\n"));
    let first = kb.read_indexed(A).unwrap();
    let r2 = kb.index(&doc(A, "docs/a.md", "---\ntags: [x]\n---\n# A\n\n---\n\nv1\n"));
    assert_eq!(r2.okf_id, r1.okf_id);
    assert_eq!(kb.read_indexed(A).unwrap(), first);
    assert_eq!(kb.kb.doc_count(), 1);

    let r3 = kb.index(&doc(A, "docs/a.md", "# A\n\nv2\n"));
    assert_eq!(r3.okf_id, r1.okf_id);
    assert_eq!(kb.kb.doc_count(), 1);
    let entry = kb.kb.index.entries.get(A).unwrap();
    assert_eq!(entry.revision, 2);
    assert_eq!(kb.kb.index.next_seq, 1);
}

#[test]
fn an_index_without_numbers_left_is_not_begun() {
    let mut kb = Library::new();
    let named = doc("/ws/n.md", "n.md", "---\nokf_id: urn:custom:1\n---\n# N\n");
    kb.index(&doc(A, "docs/a.md", "# A\n"));

    kb.kb.index.next_seq = u64::MAX;
    let fresh = doc("/ws/b.md", "b.md", "# B\n");
    assert!(kb.kb.try_begin_index(&fresh, None, NOW).is_none());
    assert_eq!(kb.kb.index.next_seq, u64::MAX);
    let pending = kb.kb.try_begin_index(&named, None, NOW).unwrap().unwrap();
    assert_eq!(pending.okf_id, "urn:custom:1");
    let known = doc(A, "docs/a.md", "# A\n\nmore\n");
    let pending = kb.kb.try_begin_index(&known, None, NOW).unwrap().unwrap();
    assert_eq!(pending.revision, 2);

    let mut last = pending;
    last.revision = u64::MAX;
    kb.kb.finish_index(last);
    let pending = kb.kb.try_begin_index(&known, None, NOW).unwrap().unwrap();
    assert_eq!(pending.revision, u64::MAX);
    let changed = doc(A, "docs/a.md", "# A\n\nand more\n");
    assert!(kb.kb.try_begin_index(&changed, None, NOW).is_none());
}

#[test]
fn written_frontmatter_never_closes_early() {
    let texts = [
        "---",
        "---\n",
        "\n---\n",
        "a\n---\nb",
        "a\n---\n",
        " \n---\n",
        "a \n---\n",
        "\r\n---\r\n",
        "- - -",
        "\u{85}---\n",
        "a\u{2028}---\n",
        "x\u{2029}\n---",
        "",
        "~",
        "\t\n---\n",
    ];
    let mut values: Vec<Value> = texts.iter().map(|t| Value::from(*t)).collect();
    values.push(Value::Null);
    values.push(Value::Sequence(Vec::new()));
    values.push(Value::Mapping(serde_yaml_ng::Mapping::new()));
    let nested: Vec<Value> = values
        .iter()
        .map(|v| {
            let mut m = serde_yaml_ng::Mapping::new();
            m.insert(v.clone(), Value::Sequence(vec![v.clone(), v.clone()]));
            Value::Sequence(vec![Value::Sequence(vec![Value::Mapping(m)])])
        })
        .collect();
    values.extend(nested);
    for key in &values {
        for value in &values {
            let mut document = Document::default();
            document.frontmatter.insert(key.clone(), value.clone());
            document.frontmatter.insert(Value::from("k"), value.clone());
            document.body = "# A\n\n---\n\nb\n".to_string();
            let text = document.to_markdown().unwrap();
            assert_eq!(Document::parse(&text).body, document.body, "{text}");
        }
    }
}

#[test]
fn a_separator_at_the_end_joins_the_closing_line() {
    for end in ["\u{2028}", "\u{2029}"] {
        let mut document = Document::default();
        let value = format!("a\nb{end}");
        document.frontmatter.insert(Value::from("k"), Value::from(value));
        document.body = "b\n".to_string();
        let text = document.to_markdown().unwrap();
        assert!(text.ends_with(&format!("{end}---\nb\n")));
        assert_eq!(Document::parse(&text).body, text);
    }
}

#[test]
fn unenriched_docs_reindex_exactly_as_before() {
    let mut kb = Library::new();
    kb.index(&doc(A, "docs/a.md", "# A\n\nv1\n"));
    kb.index(&doc(A, "docs/a.md", "# A\n\nv2\n"));
    let out = kb.read_indexed(A).unwrap();
    assert!(out.contains("v2") && !out.contains("v1"));
    assert!(!out.contains(":::"));
}

#[test]
fn write_indexed_requires_an_indexed_doc_and_refreshes_labels() {
    let mut kb = Library::new();
    assert!(!kb.write_indexed(A, "x"));
    kb.index(&doc(A, "docs/a.md", "# A\n\nbody\n"));
    assert!(kb.write_indexed(A, "---\ntitle: A\ntags:\n- fresh\n---\n# A\n\nbody\n"));
    let labels: Vec<String> = kb.kb.tag_counts().into_iter().map(|t| t.tag).collect();
    assert!(labels.contains(&"fresh".to_string()));
}

#[test]
fn index_emits_conformant_bundle_and_preserves_okf_id() {
    let src = "/ws/docs/readme.md";
    let mut kb = Library::new();
    let r = kb.index(&doc(src, "docs/readme.md", "# Readme\n\nhello\n"));
    assert_eq!(r.concept_id, "docs/readme.md");
    assert!(r.okf_id.starts_with("urn:looper:doc:"));

    let emitted = kb.files.get("/kb/b/docs/readme.md").unwrap();
    let parsed = Document::parse(emitted);
    assert_eq!(
        frontmatter_str(&parsed.frontmatter, "type").as_deref(),
        Some("Document")
    );
    assert_eq!(
        frontmatter_str(&parsed.frontmatter, "title").as_deref(),
        Some("Readme")
    );
    assert_eq!(
        frontmatter_str(&parsed.frontmatter, "okf_id"),
        Some(r.okf_id.clone())
    );
    assert_eq!(parsed.body, "# Readme\n\nhello\n");

    let r2 = kb.index(&doc(src, "docs/readme.md", "# Readme\n\nedited\n"));
    assert_eq!(r.okf_id, r2.okf_id);
}

#[test]
fn honors_okf_id_in_source_frontmatter() {
    let mut kb = Library::new();
    let content = "---\nokf_id: urn:custom:42\ntype: Spec\n---\n# T\nbody\n";
    let r = kb.index(&doc("/ws/a.md", "a.md", content));
    assert_eq!(r.okf_id, "urn:custom:42");
    let emitted = kb.files.get("/kb/b/a.md").unwrap();
    assert_eq!(
        frontmatter_str(&Document::parse(emitted).frontmatter, "type").as_deref(),
        Some("Spec")
    );
}

#[test]
fn read_indexed_returns_the_emitted_bundle_markdown() {
    let mut kb = Library::new();
    kb.index(&doc("/ws/a.md", "a.md", "# T\nbody\n"));
    let indexed = kb.read_indexed("/ws/a.md").expect("indexed doc is readable");
    assert!(
        indexed.contains("okf_id"),
        "indexed view carries producer metadata"
    );
    assert!(indexed.contains("body"), "indexed view keeps the body");
    assert!(kb.read_indexed("/ws/missing.md").is_none());
}

#[test]
fn remove_search_and_persistence() {
    let mut kb = Library::new();
    kb.index(&doc("/ws/b.md", "b.md", "# B\nbanana\n"));
    let r = kb.index(&doc("/ws/a.md", "a.md", "# A\napple\n"));

    let (mut kb, _) = kb.reopen();
    let r2 = kb.index(&doc("/ws/a.md", "a.md", "# A\napple again\n"));
    assert_eq!(r.okf_id, r2.okf_id);

    let hits = kb.kb.search("banana", 10);
    assert_eq!(hits.len(), 1);
    assert_eq!(hits[0].concept_id, "b.md");

    kb.remove("/ws/b.md");
    assert!(!kb.files.contains_key("/kb/b/b.md"));
    assert!(kb.kb.search("banana", 10).is_empty());
}

#[test]
fn search_index_is_rebuilt_on_reopen_without_reindexing() {
    let mut kb = Library::new();
    kb.index(&doc("/ws/x.md", "notes/x.md", "# X\nplankton recipe\n"));
    let (kb, changed) = kb.reopen();
    assert!(!changed);
    let by_body = kb.kb.search("plankton", 10);
    assert_eq!(by_body.len(), 1);
    assert_eq!(by_body[0].concept_id, "notes/x.md");
    assert_eq!(kb.kb.search("notes/x", 10).len(), 1);
}

#[test]
fn tag_counts_and_documents_by_tag_track_index_and_remove() {
    let mut kb = Library::new();
    kb.index(&doc("/ws/a.md", "a.md", "---\ntags: [api]\n---\n# A\n"));
    kb.index(&doc("/ws/b.md", "b.md", "---\ntags: [api, infra]\n---\n# B\n"));

    let counts = kb.kb.tag_counts();
    assert_eq!(counts[0].tag, "api");
    assert_eq!(counts[0].count, 2);
    assert!(counts.iter().any(|c| c.tag == "infra" && c.count == 1));
    assert_eq!(kb.kb.documents_by_tag("infra").len(), 1);
    assert_eq!(kb.kb.documents_by_tag("api").len(), 2);

    kb.index(&doc("/ws/a.md", "a.md", "# A no tags\n"));
    assert!(kb
        .kb
        .tag_counts()
        .iter()
        .any(|c| c.tag == "api" && c.count == 1));

    kb.remove("/ws/b.md");
    assert!(kb
        .kb
        .tag_counts()
        .iter()
        .all(|c| c.tag != "api" && c.tag != "infra"));
}

#[test]
fn catalog_survives_when_the_bundle_output_is_missing() {
    let mut kb = Library::new();
    kb.index(&doc(
        "/ws/a.md",
        "a.md",
        "---\ntags: [Product, Roadmap]\n---\n# A\nbody\n",
    ));
    kb.files.clear();
    let (kb, _) = kb.reopen();

    let docs = kb.kb.list_documents();
    assert_eq!(docs.len(), 1);
    assert_eq!(docs[0].title.as_deref(), Some("A"));
    assert_eq!(
        docs[0].labels,
        vec!["Product".to_string(), "Roadmap".to_string()]
    );

    let counts = kb.kb.tag_counts();
    assert_eq!(counts.len(), 2);
    assert!(counts.iter().any(|c| c.tag == "Product" && c.count == 1));
    assert_eq!(kb.kb.documents_by_tag("Roadmap").len(), 1);
}

#[test]
fn reopen_reflects_tags_added_to_the_bundle_output() {
    let mut kb = Library::new();
    kb.index(&doc("/ws/a.md", "a.md", "# A\nbody\n"));
    assert!(kb.kb.tag_counts().is_empty());
    kb.files.insert(
        "/kb/b/a.md".to_string(),
        "---\ntype: Document\ntitle: A\ntags:\n  - enriched\n---\n# A\nbody\n".to_string(),
    );

    let (kb, changed) = kb.reopen();
    assert!(changed);
    assert!(kb.kb.tag_counts().iter().any(|c| c.tag == "enriched"));
    assert_eq!(kb.kb.list_documents()[0].labels, vec!["enriched".to_string()]);
}

#[test]
fn refresh_indexed_picks_up_enrichment_tags_live() {
    let mut kb = Library::new();
    kb.index(&doc("/ws/a.md", "a.md", "# A\nbody\n"));
    assert!(kb.kb.tag_counts().is_empty());

    kb.files.insert(
        "/kb/b/a.md".to_string(),
        "---\ntype: Document\ntitle: A\ntags:\n  - enriched\n  - looper\n---\n# A\nbody\n"
            .to_string(),
    );

    let cref = kb.refresh("/ws/a.md").expect("doc is indexed");
    assert_eq!(
        cref.labels,
        vec!["enriched".to_string(), "looper".to_string()]
    );
    assert!(kb
        .kb
        .tag_counts()
        .iter()
        .any(|c| c.tag == "enriched" && c.count == 1));
    assert_eq!(kb.kb.documents_by_tag("looper").len(), 1);
    assert!(kb.kb.list_documents()[0].kb_path.ends_with("a.md"));
    assert!(kb.refresh("/ws/nope.md").is_none());
}

#[test]
fn old_sidecar_without_tags_is_backfilled_on_open() {
    let mut kb = Library::new();
    kb.index(&doc("/ws/a.md", "a.md", "---\ntags: [api]\n---\n# A\n"));
    for (_, entry) in &mut kb.kb.index.entries.entries {
        entry.title = None;
        entry.labels = Vec::new();
    }

    let (kb, changed) = kb.reopen();
    assert!(changed);
    assert_eq!(kb.kb.documents_by_tag("api").len(), 1);
    assert_eq!(kb.kb.list_documents()[0].labels, vec!["api".to_string()]);
}

#[test]
fn sidecar_v1_concept_ids_are_backfilled_with_extension_on_open() {
    let mut kb = Library::new();
    kb.index(&doc("/ws/notes/x.md", "notes/x.md", "# X\nplankton\n"));
    let mut raw: Vec<(String, Option<String>)> = Vec::new();
    for (source, _) in &kb.kb.index.entries.entries {
        raw.push((source.clone(), Some("notes/x".to_string())));
    }

    let migrated = migrate_to_current::<OkfIndex>(1, raw).unwrap();
    for (i, (_, entry)) in kb.kb.index.entries.entries.iter_mut().enumerate() {
        entry.concept_id = migrated[i].1.clone().unwrap();
    }
    let (kb, _) = kb.reopen();
    let hits = kb.kb.search("plankton", 10);
    assert_eq!(hits.len(), 1);
    assert_eq!(hits[0].concept_id, "notes/x.md");
}

#[test]
fn migrating_an_id_twice_changes_nothing() {
    assert_eq!(migrate_concept_id("/ws/notes/x.md", "notes/x"), "notes/x.md");
    assert_eq!(migrate_concept_id("/ws/notes/x.md", "notes/x.md"), "notes/x.md");
    assert_eq!(migrate_concept_id("/ws/notes/x", "notes/x"), "notes/x");
}

#[test]
fn search_keeps_to_its_limit_and_ignores_case() {
    let mut kb = Library::new();
    kb.index(&doc("/ws/a.md", "a.md", "# A\nÄpfel und BIRNEN\n"));
    kb.index(&doc("/ws/b.md", "b.md", "# B\nbirnen\n"));
    let hits: Vec<SearchHit> = kb.kb.search("Birnen", 10);
    assert_eq!(hits.len(), 2);
    assert_eq!(kb.kb.search("birnen", 1).len(), 1);
    assert_eq!(kb.kb.search("ÄPFEL", 10).len(), 1);
    assert!(kb.kb.search("cherries", 10).is_empty());
    assert_eq!(kb.kb.search_for("birnen", 10).len(), 2);
}

#[test]
fn clearing_drops_every_document() {
    let mut kb = Library::new();
    kb.index(&doc("/ws/a.md", "a.md", "---\ntags: [x]\n---\n# A\n"));
    kb.index(&doc("/ws/b.md", "b.md", "# B\n"));
    assert_eq!(kb.kb.doc_count(), 2);
    assert_eq!(kb.kb.source_paths(), vec!["/ws/a.md", "/ws/b.md"]);
    assert_eq!(kb.kb.clear(), vec!["/kb/b/a.md", "/kb/b/b.md"]);
    assert_eq!(kb.kb.doc_count(), 0);
    assert!(kb.kb.tag_counts().is_empty());
    assert!(kb.kb.search("a", 10).is_empty());
    assert_eq!(kb.kb.bundle_dir(), "/kb/b");
}

#[test]
fn identities_differ_and_the_provider_knows_its_files() {
    let mut kb = Library::new();
    let a = kb.index(&doc("/ws/a.md", "a.md", "# A\n"));
    let b = kb.index(&doc("/ws/b.md", "b.md", "# B\n"));
    assert_ne!(a.okf_id, b.okf_id);
    assert_eq!(OkfProvider.name(), "okf");
    assert_eq!(OkfProvider.index_path("/kb"), "/kb/okf-index.json");
}

#[test]
fn tags_are_texts_or_lists_of_them() {
    let m = Document::parse("---\ntags: [a, b]\n---\n").frontmatter;
    assert_eq!(frontmatter_tags(&m), vec!["a", "b"]);
    let none = Document::parse("---\ntitle: T\n---\n").frontmatter;
    assert!(frontmatter_tags(&none).is_empty());
}

#[test]
fn bundle_errors_become_backend_errors() {
    let e = into_kb_error(OkfError::BundleNotFound {
        path: "/kb".to_string(),
    });
    assert!(matches!(e, KbError::Backend(m) if m == "OKF bundle directory not found: /kb"));
    let io = into_kb_error(OkfError::Io {
        path: "/kb".to_string(),
        message: "denied".to_string(),
    });
    assert!(matches!(io, KbError::Io { path, message } if path == "/kb" && message == "denied"));
    let state = OkfError::State(StateError::FutureVersion {
        found: 3,
        current: 2,
    });
    assert_eq!(
        state.message(),
        "OKF state error: state schema version 3 is newer than supported version 2; upgrade Looper"
    );
    let yaml = serde_yaml_ng::from_str::<u32>("x").unwrap_err();
    assert_eq!(
        OkfError::Yaml(serde_yaml_ng::from_str::<u32>("x").unwrap_err()).message(),
        format!("OKF YAML error: {yaml}")
    );
    let json = serde_json::from_str::<u32>("x").unwrap_err();
    assert_eq!(
        OkfError::Json(serde_json::from_str::<u32>("x").unwrap_err()).message(),
        format!("OKF JSON error: {json}")
    );
}

// ------------------------------------------------------------------------ graph page

const TEMPLATE: &str = "<html><head><title>OKF Bundle Viewer</title>\
    <meta http-equiv=\"Content-Security-Policy\" content=\"script-src 'self'\">\
    <script src=\"/viz/cytoscape.min.js\"></script><script src=\"/viz/marked.min.js\"></script>\
    </head><script type=\"application/json\" id=\"okf-data\">__OKF_DATA__</script></html>";

fn bundle_of(files: &[(&str, &str)]) -> SortedMap<String> {
    let mut out = SortedMap::new(KeyOrder::Path);
    for (path, content) in files {
        out.insert(path.to_string(), content.to_string());
    }
    out
}

fn make_bundle() -> SortedMap<String> {
    bundle_of(&[
        (
            "/t/bundle/datasets/my_dataset.md",
            "---\ntype: BigQuery Dataset\ntitle: My dataset\ndescription: A test dataset.\n\
             resource: https://example.com/dataset\ntags: [test]\n---\n\
             Parent dataset for [users](/tables/users.md).\n",
        ),
        (
            "/t/bundle/tables/users.md",
            "---\ntype: BigQuery Table\ntitle: Users\ndescription: User profiles.\n\
             resource: https://example.com/users\ntags: [users]\n---\n\
             Joinable with [events](/tables/events.md) and see [DAU](/references/metrics/dau.md).\n",
        ),
        (
            "/t/bundle/tables/events.md",
            "---\ntype: BigQuery Table\ntitle: Events\ndescription: User events.\n\
             resource: https://example.com/events\ntags: [events]\n---\n\
             See [users](/tables/users.md).\n",
        ),
        (
            "/t/bundle/references/metrics/dau.md",
            "---\ntype: Reference\ntitle: Daily active users\ndescription: DAU metric.\n\
             resource: https://example.com/dau\ntags: [metric]\n---\n\
             COUNT(DISTINCT user_id) per day.\n",
        ),
        (
            "/t/bundle/index.md",
            "# My Bundle\n- tables/users\n- tables/events\n",
        ),
    ])
}

fn rendered(files: &SortedMap<String>, name: Option<&str>) -> VizDoc {
    render_visualization("/t/bundle", Some(files), name, Some("/t/bundle"), TEMPLATE).unwrap()
}

fn payload(html: &str) -> serde_json::Value {
    let open = "<script type=\"application/json\" id=\"okf-data\">";
    let start = html.find(open).expect("island present") + open.len();
    let end = start + html[start..].find("</script>").expect("island closed");
    serde_json::from_str(&html[start..end]).expect("island is valid JSON")
}

fn node_ids(graph: &serde_json::Value) -> HashSet<String> {
    graph["nodes"]
        .as_array()
        .unwrap()
        .iter()
        .map(|n| n["data"]["id"].as_str().unwrap().to_string())
        .collect()
}

fn edge_pairs(graph: &serde_json::Value) -> HashSet<(String, String)> {
    graph["edges"]
        .as_array()
        .unwrap()
        .iter()
        .map(|e| {
            (
                e["data"]["source"].as_str().unwrap().to_string(),
                e["data"]["target"].as_str().unwrap().to_string(),
            )
        })
        .collect()
}

#[test]
fn writes_self_contained_offline_html() {
    let doc = rendered(&make_bundle(), Some("My Bundle"));
    assert_eq!(doc.stats.concepts, 4);
    assert!(doc.stats.bytes > 0);
    assert_eq!(doc.stats.bytes, doc.html.len());

    let html = doc.html;
    assert!(html.contains("<title>OKF Bundle Viewer</title>"));
    assert!(html.to_lowercase().contains("cytoscape"));
    assert!(html.to_lowercase().contains("marked"));
    assert!(html.contains("\"My Bundle\""));
    assert!(html.contains("/viz/cytoscape.min.js"));
    assert!(html.contains("script-src 'self'"));
    assert!(!html.contains("cdn.jsdelivr.net"));
    assert!(!html.contains("window.BUNDLE"));
}

#[test]
fn render_returns_html_without_writing_a_file() {
    let doc = rendered(&make_bundle(), Some("My Bundle"));
    assert_eq!(doc.stats.concepts, 4);
    assert!(doc.html.contains("<title>OKF Bundle Viewer</title>"));
    assert!(doc.html.contains("/viz/cytoscape.min.js"));
    assert!(doc.html.contains("\"My Bundle\""));
}

#[test]
fn index_md_is_not_a_concept() {
    let graph = payload(&rendered(&make_bundle(), None).html)["graph"].clone();
    let ids = node_ids(&graph);
    assert!(!ids.contains("index"));
    assert_eq!(
        ids,
        HashSet::from([
            "datasets/my_dataset".to_string(),
            "tables/users".to_string(),
            "tables/events".to_string(),
            "references/metrics/dau".to_string(),
        ])
    );
}

#[test]
fn cross_links_become_edges() {
    let doc = rendered(&make_bundle(), None);
    let graph = payload(&doc.html)["graph"].clone();
    let pairs = edge_pairs(&graph);
    let want = |a: &str, b: &str| (a.to_string(), b.to_string());
    assert!(pairs.contains(&want("datasets/my_dataset", "tables/users")));
    assert!(pairs.contains(&want("tables/users", "tables/events")));
    assert!(pairs.contains(&want("tables/users", "references/metrics/dau")));
    assert!(pairs.contains(&want("tables/events", "tables/users")));
    assert_eq!(doc.stats.edges, 4);
}

#[test]
fn missing_link_targets_are_skipped() {
    let files = bundle_of(&[(
        "/t/bundle/tables/lonely.md",
        "---\ntype: BigQuery Table\ntitle: Lonely\ndescription: Has a dangling link.\n---\n\
         Links to [missing](/tables/missing.md).\n",
    )]);
    let graph = payload(&rendered(&files, None).html)["graph"].clone();
    assert!(graph["edges"].as_array().unwrap().is_empty());
    assert_eq!(graph["nodes"].as_array().unwrap().len(), 1);
}

#[test]
fn node_colors_match_palette() {
    let graph = payload(&rendered(&make_bundle(), None).html)["graph"].clone();
    let color = |id: &str| {
        graph["nodes"]
            .as_array()
            .unwrap()
            .iter()
            .find(|n| n["data"]["id"] == id)
            .unwrap()["data"]["color"]
            .as_str()
            .unwrap()
            .to_string()
    };
    assert_eq!(color("datasets/my_dataset"), "#8b5cf6");
    assert_eq!(color("tables/users"), "#3b82f6");
    assert_eq!(color("references/metrics/dau"), "#10b981");
}

#[test]
fn errors_when_bundle_missing() {
    let err = match render_visualization("/t/nope", None, None, None, TEMPLATE) {
        Ok(_) => panic!("rendered a missing bundle"),
        Err(e) => e,
    };
    assert!(matches!(err, OkfError::BundleNotFound { .. }));
}

#[test]
fn script_breakout_in_body_is_neutralized() {
    let files = bundle_of(&[(
        "/t/bundle/danger.md",
        "---\ntype: Reference\ntitle: Danger\n---\nInline: </script><b>x</b>\n",
    )]);
    let html = rendered(&files, None).html;
    assert!(html.contains("\\u003c/script>"));
    let graph = payload(&html)["graph"].clone();
    assert!(graph["bodies"]["danger"]
        .as_str()
        .unwrap()
        .contains("</script>"));
}

#[test]
fn a_bundle_without_a_name_goes_by_its_directory() {
    let files = bundle_of(&[]);
    let doc = rendered(&files, None);
    assert_eq!(payload(&doc.html)["name"].as_str(), Some("bundle"));
    assert_eq!(doc.stats.concepts, 0);
    assert_eq!(escape_markup("a<b"), "a\\u003cb");
    assert_eq!(
        extract_links("[a](/x.md), [b](/y/z.md#s), [c](https://e.com), [d](/x.md), [e](u.md)"),
        vec!["x", "y/z"]
    );
    assert_eq!(palette_color("Reference"), "#10b981");
    assert_eq!(walk_concepts("/t/bundle", &make_bundle()).len(), 4);
    assert_eq!(edges(&walk_concepts("/t/bundle", &make_bundle())).len(), 4);
}

#[test]
fn concept_ids_take_the_extension_off() {
    let names = ["..md", "...md", ".md", "a..md", "a.md", "b.c.md", ".h.md", "....md"];
    let expected = ["..", "..", ".md", "a.", "a", "b.c", ".h", "..."];
    for (name, stem) in names.iter().zip(expected) {
        let mut files = SortedMap::new(KeyOrder::Path);
        files.insert(format!("/t/bundle/x/{name}"), "# A\n".to_string());
        let concepts = walk_concepts("/t/bundle", &files);
        let path = std::path::PathBuf::from(format!("x/{name}")).with_extension("");
        let parts: Vec<String> = path
            .components()
            .map(|c| c.as_os_str().to_string_lossy().into_owned())
            .collect();
        assert_eq!(concepts[0].id, parts.join("/"));
        assert_eq!(concepts[0].id, format!("x/{stem}"));
    }
}

#[test]
fn tags_of_other_kinds_are_written_out() {
    let mut files = SortedMap::new(KeyOrder::Path);
    let content = "---\ntags: [a, 7, 1.5, true, false, [b, c], null, !t x]\n---\n# A\n";
    files.insert("/t/bundle/a.md".to_string(), content.to_string());
    files.insert("/t/bundle/b.md".to_string(), "---\ntags: 12\n---\n".to_string());
    files.insert("/t/bundle/c.md".to_string(), "---\ntags: null\n---\n".to_string());
    let concepts = walk_concepts("/t/bundle", &files);
    assert_eq!(
        concepts[0].tags,
        vec!["a", "7", "1.5", "true", "false", "- b\n- c", "null", "!t x"]
    );
    assert_eq!(concepts[1].tags, vec!["12"]);
    assert!(concepts[2].tags.is_empty());
}

// ----------------------------------------------------------------------------- state

struct Doc;

impl Versioned for Doc {
    type Raw = (String, u32);

    fn current() -> u32 {
        1
    }

    fn step(_: u32, _: Self::Raw, result: Result<Self::Raw, StateError>) -> bool {
        result.is_err()
    }

    fn schema_version() -> u32 {
        1
    }

    fn migrate(from: u32, _value: Self::Raw) -> Result<Self::Raw, StateError> {
        Err(StateError::UnsupportedVersion {
            found: from,
            current: 1,
        })
    }
}

struct DocV2;

impl Versioned for DocV2 {
    type Raw = (String, u32, Option<bool>);

    fn current() -> u32 {
        2
    }

    fn step(from: u32, _: Self::Raw, result: Result<Self::Raw, StateError>) -> bool {
        result.is_ok() == (from == 1)
    }

    fn schema_version() -> u32 {
        2
    }

    fn migrate(from: u32, value: Self::Raw) -> Result<Self::Raw, StateError> {
        if from == 1 {
            Ok((value.0, value.1, Some(true)))
        } else {
            Err(StateError::UnsupportedVersion {
                found: from,
                current: 2,
            })
        }
    }
}

#[test]
fn migrates_old_version_on_load() {
    assert_eq!(
        migrate_to_current::<DocV2>(1, ("x".to_string(), 2, None)).unwrap(),
        ("x".to_string(), 2, Some(true))
    );
    assert_eq!(
        migrate_to_current::<DocV2>(2, ("x".to_string(), 2, None)).unwrap(),
        ("x".to_string(), 2, None)
    );
}

#[test]
fn rejects_future_version() {
    assert!(matches!(
        migrate_to_current::<Doc>(99, ("x".to_string(), 0)),
        Err(StateError::FutureVersion {
            found: 99,
            current: 1
        })
    ));
    assert!(matches!(
        migrate_to_current::<OkfIndex>(0, Vec::new()),
        Err(StateError::UnsupportedVersion {
            found: 0,
            current: 2
        })
    ));
}

// -------------------------------------------------------------------------- calendar

#[test]
fn moments_are_written_as_dates() {
    assert_eq!(civil_from_days(0), (1970, 1, 1));
    assert_eq!(civil_from_days(19_782), (2024, 2, 29));
    assert_eq!(civil_from_days(-1), (1969, 12, 31));
    assert_eq!(format_unix_utc(0), "1970-01-01T00:00:00+00:00");
    assert_eq!(format_unix_utc(1_709_210_096), "2024-02-29T12:34:56+00:00");
    assert_eq!(format_unix_utc(-1), "1969-12-31T23:59:59+00:00");
}

#[test]
fn hits_show_the_text_around_the_match() {
    let mut kb = Library::new();
    let body = format!("# A\n\n{} Needle {}\n", "a".repeat(90), "z".repeat(90));
    kb.index(&doc(A, "docs/a.md", &body));
    let hits: Vec<SearchHit> = kb.kb.search("NEEDLE", 10);
    assert_eq!(
        hits[0].snippet,
        format!("{} Needle {}", "a".repeat(36), "z".repeat(36))
    );
    // What only the id has is found without standing in the body.
    assert_eq!(kb.kb.search("docs/a", 10)[0].snippet.chars().count(), 80);
}
