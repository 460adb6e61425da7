//! Reading and preparing documents: frontmatter, fences, ingestion and titles.

use looper::fence::{
    has_preserved, opener_attr, preserved_regions, preserved_texts, regions_with_class,
    strip_preserved, tokens_of_info,
};
use looper::frontmatter::{render_markdown, sections_of, split_frontmatter, Document};
use looper::ingest::{
    filename_stem, parse_adoc_header, parse_attribute, prepare, AdocIngestor, Ingestor,
    MarkdownPassthrough,
};
use looper::kb::{
    derive_title, frontmatter_title, mint, segment_of, snippet, snippet_at, strip_doc_extension, ConceptRef, Kb,
    KbError, KbProvider, MockKb, MockKbProvider, SourceDoc,
};
use serde_yaml_ng::Value;

fn body_after_frontmatter(envelope: &str) -> &str {
    let rest = envelope.strip_prefix("---\n").expect("has frontmatter");
    let idx = rest.find("\n---\n").expect("closing delimiter");
    &rest[idx + "\n---\n".len()..]
}

#[test]
fn markdown_passes_through_unchanged() {
    let src = "---\ntitle: X\n---\n# X\n\nbody\n";
    assert_eq!(prepare("md", src, "notes/x.md").unwrap(), src);
    assert_eq!(prepare("txt", "plain", "notes/x.txt").unwrap(), "plain");
}

#[test]
fn adoc_lifts_doctitle_and_keeps_body_verbatim() {
    let raw = "= Beta\n\nworld\n";
    let out = prepare("adoc", raw, "notes/b.adoc").unwrap();
    assert!(out.starts_with("---\ntitle: Beta\n"));
    assert_eq!(body_after_frontmatter(&out), raw);
}

#[test]
fn adoc_lifts_keywords_and_attributes() {
    let raw = "= Guide\n:keywords: login, session\n:author: Jane\n\nbody\n";
    let out = prepare("asciidoc", raw, "docs/guide.adoc").unwrap();
    let doc = serde_yaml_ng::from_str::<serde_yaml_ng::Mapping>(
        out.strip_prefix("---\n")
            .unwrap()
            .split("\n---\n")
            .next()
            .unwrap(),
    )
    .unwrap();
    assert_eq!(doc.get("title").unwrap().as_str(), Some("Guide"));
    assert_eq!(doc.get("author").unwrap().as_str(), Some("Jane"));
    let tags: Vec<&str> = doc
        .get("tags")
        .unwrap()
        .as_sequence()
        .unwrap()
        .iter()
        .filter_map(serde_yaml_ng::Value::as_str)
        .collect();
    assert_eq!(tags, vec!["login", "session"]);
    assert_eq!(body_after_frontmatter(&out), raw);
}

#[test]
fn adoc_without_doctitle_falls_back_to_filename_stem() {
    let raw = "no title here\n\njust body\n";
    let out = prepare("adoc", raw, "notes/sub/readme.adoc").unwrap();
    assert!(out.starts_with("---\ntitle: readme\n"), "got: {out}");
    assert_eq!(body_after_frontmatter(&out), raw);
}

#[test]
fn adoc_with_existing_yaml_frontmatter_passes_through() {
    let raw = "---\ntitle: Pre\n---\n= Body\n";
    assert_eq!(prepare("adoc", raw, "x.adoc").unwrap(), raw);
}

#[test]
fn section_headings_are_not_mistaken_for_the_doctitle() {
    let raw = "== Section\n\nbody\n";
    let out = prepare("adoc", raw, "a/notes.adoc").unwrap();
    assert!(out.starts_with("---\ntitle: notes\n"), "got: {out}");
    assert_eq!(body_after_frontmatter(&out), raw);
}

#[test]
fn ingestors_know_their_extensions() {
    assert_eq!(MarkdownPassthrough.extensions(), vec!["md", "markdown", "mdx"]);
    assert_eq!(AdocIngestor.extensions(), vec!["adoc", "asciidoc"]);
    assert_eq!(MarkdownPassthrough.prepare("x", "y").unwrap(), "x");
    assert_eq!(AdocIngestor.prepare("= T\n", "y").unwrap(), prepare("adoc", "= T\n", "y").unwrap());
}

#[test]
fn adoc_headers_are_read_up_to_the_first_blank_line() {
    let h = parse_adoc_header("= Guide\n:author: Jane\n\n:later: x\n");
    assert_eq!(h.doctitle.as_deref(), Some("Guide"));
    assert_eq!(h.attributes, vec![("author".to_string(), "Jane".to_string())]);
    assert_eq!(
        parse_attribute(":keywords: a, b"),
        Some(("keywords".to_string(), "a, b".to_string()))
    );
    assert_eq!(parse_attribute("keywords: a"), None);
    assert_eq!(filename_stem("a/b/readme.adoc"), "readme");
}

fn doc(path: &str, concept: &str, content: &str) -> SourceDoc {
    SourceDoc {
        source_path: path.to_string(),
        concept_id: concept.to_string(),
        content: content.to_string(),
    }
}

#[test]
fn derive_title_prefers_h1_then_filename() {
    assert_eq!(derive_title("# Hello\n\nbody", "x/y"), "Hello");
    assert_eq!(derive_title("no heading", "x/readme"), "readme");
    assert_eq!(derive_title("no heading", "x/readme.md"), "readme");
    assert_eq!(derive_title("no heading", "docs/guide.adoc"), "guide");
    assert_eq!(derive_title("no heading", "data.v2"), "data.v2");
}

#[test]
fn mock_index_preserves_okf_id_and_searches() {
    let mut kb = MockKb::default();
    let a = kb
        .index(&doc("/ws/a.md", "a", "# Alpha\nhello world"))
        .unwrap();
    let b = kb.index(&doc("/ws/b.md", "b", "# Beta\ngoodbye")).unwrap();
    assert_ne!(a.okf_id, b.okf_id);

    let a2 = kb.index(&doc("/ws/a.md", "a", "# Alpha\nedited")).unwrap();
    assert_eq!(a.okf_id, a2.okf_id);

    let hits = kb.search("goodbye", 10).unwrap();
    assert_eq!(hits.len(), 1);
    assert_eq!(hits[0].concept_id, "b");
    assert_eq!(hits[0].title, "Beta");

    kb.remove("/ws/b.md").unwrap();
    assert!(kb.search("goodbye", 10).unwrap().is_empty());
}

fn indexed_by<K: Kb>(kb: &mut K, doc: &SourceDoc) -> Result<ConceptRef, KbError> {
    kb.index(doc)
}

#[test]
fn mock_is_usable_as_trait_object() {
    let provider = MockKbProvider;
    assert_eq!(provider.name(), "mock");
    let mut kb = provider.open("/kb").unwrap();
    assert_eq!(kb.name(), "mock");
    indexed_by(&mut kb, &doc("/x.md", "x", "hi")).unwrap();
    assert_eq!(kb.doc_count(), 1);
}

#[test]
fn mock_index_prefers_frontmatter_title_then_falls_back() {
    let mut kb = MockKb::default();
    let r = kb
        .index(&doc(
            "/ws/g.adoc",
            "docs/g.adoc",
            "---\ntitle: Guide\n---\n= Guide\nbody",
        ))
        .unwrap();
    assert_eq!(r.title, "Guide");
    let r2 = kb
        .index(&doc("/ws/h.adoc", "notes/h.adoc", "= H\nbody"))
        .unwrap();
    assert_eq!(r2.title, "h");

    let listed = kb.list_documents();
    assert_eq!(listed[0].path, "/ws/g.adoc");
    assert_eq!(listed[0].title.as_deref(), Some("Guide"));
    assert_eq!(listed[1].title.as_deref(), Some("h"));
    let hits = kb.search("guide", 10).unwrap();
    assert_eq!(hits.len(), 1);
    assert_eq!(hits[0].title, "Guide");
}

#[test]
fn snippets_stand_around_the_match() {
    let start = "a".repeat(100);
    let end = "z".repeat(100);
    let text = format!("{start} Needle {end}");
    assert_eq!(
        snippet_at(&text, "needle"),
        format!("{} Needle {}", "a".repeat(36), "z".repeat(36))
    );
    assert_eq!(snippet_at("a Needle b", "needle"), "a Needle b");
    assert_eq!(snippet_at(&text, "absent"), "a".repeat(80));
    assert_eq!(snippet_at(&text, ""), "a".repeat(80));
    let long = "n".repeat(90);
    assert_eq!(snippet_at(&format!("xy{long}"), &long), "n".repeat(80));
    // One character may be more than one in small letters.
    let dotted = format!("{}\u{130}stanbul", "b".repeat(90));
    let found = snippet_at(&dotted, &"\u{130}stanbul".to_lowercase());
    assert!(found.contains("\u{130}stanbul"));

    let mut kb = MockKb::default();
    kb.index(&doc("/ws/a.md", "a", &text)).unwrap();
    assert!(kb.search("NEEDLE", 10).unwrap()[0].snippet.contains("Needle"));
}

#[test]
fn sources_keep_their_first_spelling() {
    let mut kb = MockKb::default();
    kb.index(&doc("/ws/b.md", "b", "one")).unwrap();
    kb.index(&doc("/ws/a.md", "a", "two")).unwrap();
    kb.index(&doc("/ws//b.md", "b", "three")).unwrap();
    let paths: Vec<String> = kb.list_documents().into_iter().map(|d| d.path).collect();
    assert_eq!(paths, vec!["/ws/a.md", "/ws/b.md"]);
}

#[test]
fn mock_reads_and_writes_what_was_indexed() {
    let mut kb = MockKb::default();
    kb.index(&doc("/ws/a.md", "a", "# Alpha\nhello")).unwrap();
    assert_eq!(kb.read_indexed("/ws/a.md"), None);
    assert!(kb.write_indexed("/ws/a.md", "changed").unwrap());
    assert!(!kb.write_indexed("/ws/z.md", "changed").unwrap());
    assert_eq!(kb.read_indexed("/ws/a.md").as_deref(), Some("changed"));
    assert_eq!(kb.doc_count(), 1);
    assert_eq!(kb.list_documents().len(), 1);
    assert!(kb.tag_counts().is_empty());
    assert!(kb.documents_by_tag("x").is_empty());
    assert!(kb.source_paths().is_empty());
    assert!(kb.refresh_indexed("/ws/a.md").is_none());
    kb.clear().unwrap();
    assert_eq!(kb.doc_count(), 1);
    kb.remove("/ws/a.md").unwrap();
    assert_eq!(kb.doc_count(), 0);
    assert!(!kb.write_indexed("/ws/a.md", "again").unwrap());
}

#[test]
fn kb_errors_say_what_failed() {
    let io = KbError::Io {
        path: "/kb/x.md".to_string(),
        message: "denied".to_string(),
    };
    assert_eq!(io.message(), "knowledge-base I/O error at /kb/x.md: denied");
    assert_eq!(
        KbError::Backend("broken".to_string()).message(),
        "knowledge-base backend error: broken"
    );
}

#[test]
fn names_and_snippets() {
    assert_eq!(segment_of("a/b/c"), "c");
    assert_eq!(strip_doc_extension("x.md"), "x");
    assert_eq!(strip_doc_extension("data.v2"), "data.v2");
    assert_eq!(frontmatter_title("---\ntitle: T\n---\nx").as_deref(), Some("T"));
    assert_eq!(frontmatter_title("no frontmatter"), None);
    assert_eq!(snippet("one\ntwo"), "one\ntwo");
    assert_eq!(snippet(&"x".repeat(100)), "x".repeat(80));
    assert_ne!(mint(1), mint(2));
}

fn region_text(body: &str) -> Option<(&str, &str)> {
    preserved_regions(body)
        .last()
        .map(|r| (&body[r.start..r.end], &body[r.inner_start..r.inner_end]))
}

#[test]
fn finds_a_basic_enrichment_region() {
    let body =
        "intro\n\n::: {.enrichment gemini-model=\"m\"}\n# AI Enrichment\n\n- a\n:::\n\ntail\n";
    let (region, inner) = region_text(body).unwrap();
    assert!(region.starts_with("::: {.enrichment"));
    assert!(region.ends_with(":::"));
    assert_eq!(inner.trim(), "# AI Enrichment\n\n- a");
}

#[test]
fn non_preserved_fences_do_not_match() {
    assert!(preserved_regions("::: note\nbody\n:::\n").is_empty());
    assert!(preserved_regions("::: {.other}\nbody\n:::\n").is_empty());
    assert!(!preserved_regions("::: enrichment\nbody\n:::\n").is_empty());
}

#[test]
fn code_blocks_cannot_spoof_a_region() {
    let body = "```\n::: {.enrichment}\n:::\n```\n";
    assert!(preserved_regions(body).is_empty());
}

#[test]
fn nested_divs_stay_inside_the_region() {
    let body = "::: {.enrichment}\n::: {.inner}\ndeep\n:::\nafter inner\n:::\ntail\n";
    let (region, inner) = region_text(body).unwrap();
    assert!(inner.contains("after inner"));
    assert!(!region.contains("tail"));
}

#[test]
fn code_inside_the_region_shields_its_colons() {
    let body = "::: {.enrichment}\n```\n:::\n```\nreal content\n:::\ntail\n";
    let (_, inner) = region_text(body).unwrap();
    assert!(inner.contains("real content"));
}

#[test]
fn unclosed_region_runs_to_end_of_input() {
    let body = "before\n\n::: {.enrichment}\nrest";
    let (region, inner) = region_text(body).unwrap();
    assert!(region.ends_with("rest"));
    assert_eq!(inner, "rest");
}

#[test]
fn multiple_regions_come_back_in_order() {
    let body = "::: {.enrichment}\nfirst\n:::\n\n::: {.enrichment}\nsecond\n:::\n";
    let regions = preserved_regions(body);
    assert_eq!(regions.len(), 2);
    assert!(body[regions[0].start..regions[0].end].contains("first"));
    assert!(body[regions[1].start..regions[1].end].contains("second"));
}

#[test]
fn strip_preserved_removes_regions_and_keeps_author_content() {
    let body = "intro\n\n::: {.enrichment}\nadded\n:::\n\ntail\n";
    assert_eq!(strip_preserved(body), "intro\n\ntail\n");
    assert_eq!(strip_preserved("::: {.enrichment}\nonly\n:::\n"), "");
    assert_eq!(strip_preserved("no fences here\n"), "no fences here\n");
}

#[test]
fn opener_attr_reads_a_regions_attribute() {
    let body = "::: {.enrichment from-revision=\"3\" enriched-at=\"t\"}\nbody\n:::\n";
    let region = preserved_regions(body)[0];
    assert_eq!(
        opener_attr(body, &region, "from-revision").as_deref(),
        Some("3")
    );
    assert_eq!(
        opener_attr(body, &region, "enriched-at").as_deref(),
        Some("t")
    );
    assert_eq!(opener_attr(body, &region, "revision"), None);
    assert_eq!(opener_attr(body, &region, "missing"), None);
}

#[test]
fn quoted_attribute_values_keep_spaces() {
    let tokens = tokens_of_info(" {.enrichment title=\"a b c\"}");
    assert_eq!(tokens, vec![".enrichment", "title=\"a b c\""]);
}

#[test]
fn regions_are_ordered_and_their_offsets_are_bytes() {
    let body = "naïve\n::: {.enrichment}\nfür\n:::\n\n::: {.enrichment}\nzwei\n:::\n";
    let rs = preserved_regions(body);
    assert_eq!(rs.len(), 2);
    assert!(rs[0].start < rs[0].inner_start);
    assert!(rs[0].inner_end <= rs[0].end);
    assert!(rs[0].end <= rs[1].start);
    assert_eq!(
        preserved_texts(body),
        vec![
            body[rs[0].start..rs[0].end].to_string(),
            body[rs[1].start..rs[1].end].to_string()
        ]
    );
    assert!(has_preserved(body));
    assert!(!has_preserved(&strip_preserved(body)));
    assert_eq!(regions_with_class(body, "enrichment").len(), 2);
    assert!(regions_with_class(body, "other").is_empty());
}

#[test]
fn parse_emit_preserves_key_order_and_body() {
    let src = "---\nzeta: 1\nalpha: 2\n---\n# Title\n\nbody text\n";
    let doc = Document::parse(src);
    assert_eq!(doc.body, "# Title\n\nbody text\n");
    let out = doc.to_markdown().unwrap();
    let z = out.find("zeta").unwrap();
    let a = out.find("alpha").unwrap();
    assert!(z < a, "insertion order must be preserved, got:\n{out}");
    assert!(out.starts_with("---\n"));
    assert!(out.ends_with("body text\n"));
}

#[test]
fn no_frontmatter_is_passthrough() {
    let doc = Document::parse("just a body\n");
    assert!(doc.frontmatter.is_empty());
    assert_eq!(doc.to_markdown().unwrap(), "just a body\n");
}

#[test]
fn what_was_written_is_read_back() {
    let text = render_markdown("title: T\ntags:\n- a\n", "# T\nbody\n");
    assert_eq!(text, "---\ntitle: T\ntags:\n- a\n---\n# T\nbody\n");
    assert_eq!(
        sections_of(&text),
        Some(("title: T\ntags:\n- a".to_string(), "# T\nbody\n".to_string()))
    );
    assert_eq!(sections_of("plain\n"), None);
    assert_eq!(
        split_frontmatter("a: 1\n---\nb"),
        Some(("a: 1".to_string(), "b".to_string()))
    );
    assert_eq!(split_frontmatter("a: 1\n---"), Some(("a: 1".to_string(), String::new())));
    assert_eq!(split_frontmatter("a: 1\n"), None);
}

#[test]
fn a_document_survives_writing_and_reading() {
    let doc = Document::parse("---\ntitle: T\nnested:\n  b: [1, 2]\n  a: x\n---\n# T\n\n---\nbody\n");
    assert_eq!(doc.frontmatter.len(), 2);
    let again = Document::parse(&doc.to_markdown().unwrap());
    assert_eq!(again, doc);
    assert_eq!(Document::parse(""), Document::default());

    let mut last = Document::default();
    last.frontmatter.insert(Value::from("note"), Value::from("a\n---\n"));
    last.body = "body\n".to_string();
    let again = Document::parse(&last.to_markdown().unwrap());
    assert_eq!(again.body, "body\n");
    assert_eq!(again.frontmatter.get("note").and_then(Value::as_str), Some("a\n---"));
}

#[test]
fn broken_frontmatter_is_kept_as_body() {
    let src = "---\n: : :\n- [\n---\nbody\n";
    let doc = Document::parse(src);
    assert!(doc.frontmatter.is_empty());
}

#[test]
fn stripping_keeps_the_lines_of_the_author() {
    let body = "::: {.enrichment}\na\n:::\n\nfirst  \n\n::: {.enrichment}\n::: note\nb\n:::\n:::\n```\n::: {.enrichment}\n```\nlast  \n::: enrichment\nopen";
    let kept = strip_preserved(body);
    assert_eq!(
        kept,
        "first  \n\n```\n::: {.enrichment}\n```\nlast\n"
    );
    assert!(!has_preserved(&kept));
    assert_eq!(strip_preserved(&kept), kept);
    // An indented opener is no opener until the indentation in front of all is trimmed.
    assert!(has_preserved(&strip_preserved("  ::: {.enrichment}\nx\n:::")));
}

#[test]
fn every_opener_lies_in_a_region() {
    let body = "x\n::: {.enrichment}\n::: {.enrichment}\ninner\n:::\n:::\n~~~\n::: {.enrichment}\n~~~\n::: enrichment\nend\n";
    let regions = preserved_regions(body);
    assert_eq!(regions.len(), 2);
    for (at, _) in body.match_indices("::: {.enrichment}").take(2) {
        assert!(regions.iter().any(|r| r.start <= at && at < r.end));
    }
    for r in &regions {
        assert!(r.start == 0 || body.as_bytes()[r.start - 1] == b'\n');
        assert!(r.end == body.len() || body.as_bytes()[r.end] == b'\n');
        assert!(body[r.start..].starts_with(":::"));
    }
}

#[test]
fn of_two_json_members_with_one_key_the_later_counts() {
    let one = serde_json::Value::from(1);
    let two = serde_json::Value::from(2);
    let v = looper::json::object_value(vec![
        ("b".to_string(), one.clone()),
        ("a".to_string(), one),
        ("b".to_string(), two),
    ]);
    assert_eq!(v.to_string(), "{\"a\":1,\"b\":2}");
}
