use htldev::cli::{print_hits, run_search, SearchRoute};
use htldev::document::{
    DocumentRecord, DocumentStatus, LineMatch, SearchHit, SearchMode, SearchQuery,
};
use htldev::error::SearchError;
use htldev::fs_source::{
    compile_glob_filter, is_markdown, path_matches, regex_hits, search_mode_name,
    FilesystemSource, SourceFile,
};
use htldev::index::{
    build_fts_query, document_row, first_lookup, full_text_hits, full_text_request,
    index_documents, is_contentless, like_hits, like_pattern, list_below, list_documents, resolve_document,
    row_to_document, take_kept, IndexStats, Lookup, Resolution, SearchStep, StoredDocument,
    TextRow,
};
use htldev::service::{
    ensure_file_exists, map_preview, open_in_browser, PreviewStep, SearchRequest, SearchService,
};

const GATED: &str = "Error parsing markdown: Error: You do not have the required permissions to view this content.";

fn file(rel_path: &str, content: &str) -> SourceFile {
    SourceFile {
        rel_path: rel_path.to_string(),
        name: rel_path.rsplit(['/', '\\']).next().unwrap_or(rel_path).to_string(),
        named: true,
        raw: content.as_bytes().to_vec(),
        modified: Some(12),
    }
}

fn source() -> FilesystemSource {
    FilesystemSource::new("mirror".to_string())
}

fn query(text: &str, path_filter: Option<&str>, limit: usize) -> SearchQuery {
    SearchQuery {
        text: text.to_string(),
        mode: SearchMode::Regex,
        path_filter: path_filter.map(|p| p.to_string()),
        limit,
    }
}

fn full_text(text: &str, path_filter: Option<&str>, limit: usize) -> SearchQuery {
    SearchQuery { mode: SearchMode::FullText, ..query(text, path_filter, limit) }
}

fn hit(doc_id: i64, path: &str) -> SearchHit {
    SearchHit {
        doc_id,
        path: path.to_string(),
        title: format!("title {doc_id}"),
        score: Some("-1.500".to_string()),
        snippet: "a [match]".to_string(),
        line_matches: vec![],
    }
}

fn row(id: i64, path: &str, body: &str) -> TextRow {
    TextRow {
        id,
        display_path: path.to_string(),
        title: format!("title {id}"),
        body: body.to_string(),
    }
}

fn stored(doc: &DocumentRecord) -> StoredDocument {
    row_to_document(document_row(doc))
}

#[test]
fn regex_search_respects_status_and_path_filter() {
    let source = source();
    let docs = source.scan_documents(&vec![
        file("nested/docker.md", "# Docker\ncompose up\n"),
        file("gated.md", GATED),
    ]);
    assert_eq!(docs.len(), 2);
    assert!(docs.iter().any(|doc| doc.status == DocumentStatus::PermissionDenied));

    let hits = source
        .regex_search(&docs, &query("compose", Some("nested/*.md"), 10))
        .expect("regex search");
    assert_eq!(hits.len(), 1);
    assert_eq!(hits[0].title, "Docker");
    assert_eq!(hits[0].doc_id, 0);
    assert_eq!(hits[0].path, "nested/docker.md");
    assert_eq!(hits[0].snippet, "compose up");
    assert_eq!(hits[0].line_matches.len(), 1);
    assert_eq!(hits[0].line_matches[0].line_number, 2);
    assert_eq!(hits[0].line_matches[0].line, "compose up");

    let elsewhere = source.regex_search(&docs, &query("compose", Some("other/*.md"), 10));
    assert!(elsewhere.expect("regex search").is_empty());
    let gated = source.regex_search(&docs, &query("permissions", None, 10));
    assert!(gated.expect("regex search").is_empty());
}

#[test]
fn indexes_and_searches_documents() {
    let docs = source().scan_documents(&vec![
        file("quarkus.md", "# Quarkus REST\n\nPanache is used here.\n"),
        file("docker.md", "# Docker Compose\n\nUse docker compose for local dev.\n"),
    ]);
    let plan = index_documents(&vec![], &docs);
    assert_eq!(plan.stats.indexed, 2);

    let request = full_text_request(&full_text("docker", None, 10)).expect("no filter");
    assert_eq!(request.fts_query, "docker*");
    assert_eq!(request.row_limit, 100);
    let found: Vec<SearchHit> = docs
        .iter()
        .enumerate()
        .filter(|(_, doc)| doc.body.contains("docker"))
        .map(|(i, doc)| SearchHit {
            title: doc.title.clone(),
            ..hit(i as i64, &doc.display_path)
        })
        .collect();
    let SearchStep::Done(hits) =
        full_text_hits(found, &request.matcher, &full_text("docker", None, 10))
    else {
        panic!("hits expected")
    };
    assert_eq!(hits.len(), 1);
    assert_eq!(hits[0].title, "Docker Compose");

    let Lookup::ByPath { display_path, .. } = first_lookup("docker.md") else {
        panic!("no number")
    };
    let resolved = docs.iter().find(|doc| doc.display_path == display_path);
    assert!(resolved.is_some());
}

#[test]
fn search_and_preview_use_same_document() {
    let service = SearchService::new("mirror".to_string(), Some("index.sqlite3".to_string()));
    let (docs, plan) = service
        .index_documents(
            true,
            &vec![file("docker.md", "# Docker Compose\n\nUse docker compose for local dev.\n")],
            &vec![],
        )
        .expect("index docs");
    assert_eq!(plan.changed, vec![0]);
    let rows: Vec<StoredDocument> = docs.iter().map(stored).collect();

    let SearchRequest::FullText(query) = service.search("docker", 10) else {
        panic!("full text")
    };
    let request = full_text_request(&query).expect("no filter");
    let word = request.fts_query.trim_end_matches('*');
    let found: Vec<SearchHit> = rows
        .iter()
        .enumerate()
        .filter(|(_, doc)| doc.body.contains(word))
        .map(|(i, doc)| SearchHit {
            title: doc.title.clone(),
            ..hit(i as i64, &doc.display_path)
        })
        .collect();
    let SearchStep::Done(hits) = full_text_hits(found, &request.matcher, &query) else {
        panic!("hits expected")
    };
    assert_eq!(hits.len(), 1);
    let Lookup::ById(id) = service.preview_for_hit(&hits[0]) else {
        panic!("by number")
    };
    let preview = service
        .preview_by_id(rows.get(id as usize).cloned())
        .expect("preview exists");
    assert_eq!(preview.title, hits[0].title);
    assert!(preview.body_lines.iter().any(|line| line.contains("docker compose")));
    assert!(service.preview_by_id(None).is_none());
}

#[test]
fn permission_denied_preview_shows_message() {
    let docs = source().scan_documents(&vec![file("gated.md", GATED)]);
    let service = SearchService::new("mirror".to_string(), None);
    let lookup = first_lookup("gated.md");
    let PreviewStep::Show(preview) =
        service.preview_for_target(&lookup, "gated.md", Some(stored(&docs[0])))
    else {
        panic!("preview exists")
    };
    assert_eq!(preview.status, DocumentStatus::PermissionDenied);
    assert!(preview.body_lines[0].contains("permission-gated"));
    assert_eq!(preview.body_lines.len(), 1);
    assert_eq!(docs[0].body, "");
}

#[test]
fn documents_are_read_as_they_are() {
    let doc = source().read_document(&file("a\\b.md", "# T\n[x](y)\n"));
    assert_eq!(doc.rel_path, "a\\b.md");
    assert_eq!(doc.display_path, "a/b.md");
    assert_eq!(doc.title, "T");
    assert_eq!(doc.body, "# T\n[x](y)\n");
    assert_eq!(doc.headings, vec!["T"]);
    assert_eq!(doc.links, vec!["y"]);
    assert_eq!(doc.status, DocumentStatus::Okay);
    assert_eq!(doc.modified_at, Some("12".to_string()));
    assert_eq!(doc.hash.len(), 64);
}

#[test]
fn invalid_bytes_are_replaced() {
    let mut broken = file("x.md", "");
    broken.raw = vec![0x23, 0x20, 0xff, 0x61];
    assert_eq!(source().read_document(&broken).title, "\u{fffd}a");
    broken.raw = vec![];
    broken.named = false;
    assert_eq!(source().read_document(&broken).title, "Untitled");
}

#[test]
fn scanned_documents_are_in_the_order_of_their_paths() {
    let docs = source().scan_documents(&vec![
        file("b.md", "1"),
        file("a/z.md", "2"),
        file("B.md", "3"),
        file("b.md", "4"),
    ]);
    let order: Vec<(&str, &str)> =
        docs.iter().map(|d| (d.rel_path.as_str(), d.body.as_str())).collect();
    assert_eq!(order, vec![("B.md", "3"), ("a/z.md", "2"), ("b.md", "1"), ("b.md", "4")]);
    assert_eq!(source().root(), "mirror");
}

#[test]
fn markdown_files_are_told_by_their_extension() {
    assert!(is_markdown("a/b.md"));
    assert!(!is_markdown("a/b.markdown"));
    assert!(!is_markdown("a.md/b"));
    assert!(!is_markdown(".md"));
    assert!(!is_markdown("md"));
    assert!(is_markdown("C:\\mirror\\docs\\a.md"));
    assert!(!is_markdown("C:\\mirror\\docs\\a.txt"));
    assert!(is_markdown("docs\\..md"));
}

#[test]
fn only_markdown_files_are_scanned() {
    let docs = source().scan_documents(&vec![
        file("z.md", "1"),
        file("notes.txt", "2"),
        file("a\\b.md", "3"),
        file("assets/x.md.png", "4"),
        file("a/.md", "5"),
    ]);
    let paths: Vec<&str> = docs.iter().map(|d| d.rel_path.as_str()).collect();
    assert_eq!(paths, vec!["a\\b.md", "z.md"]);
    assert!(docs[0].title == "b" || docs[0].title == "a\\b");
}

#[test]
fn backslashes_in_filters_escape_or_separate() {
    let set = compile_glob_filter(Some("a\\*.md")).expect("valid").expect("a filter");
    let escaped = path_matches(Some(&set), "a*.md") && !path_matches(Some(&set), "a/b.md");
    let separated = path_matches(Some(&set), "a/b.md") && !path_matches(Some(&set), "a*.md");
    assert!(escaped || separated);
    match full_text_request(&full_text("x", Some("a\\"), 1)) {
        Ok(request) => assert!(request.matcher.is_some()),
        Err(error) => assert_eq!(error.message(), "invalid glob: a\\"),
    }
}

#[test]
fn regex_search_shows_five_lines_and_stops_at_the_limit() {
    let source = source();
    let docs = source.scan_documents(&vec![
        file("a.md", "x1\ny\nx2\nx3\nx4\nx5\nx6\n"),
        file("b.md", "x\n"),
        file("c.md", "none\n"),
    ]);
    let hits = source.regex_search(&docs, &query("^x", None, 10)).expect("valid");
    assert_eq!(hits.len(), 2);
    let numbers: Vec<usize> = hits[0].line_matches.iter().map(|m| m.line_number).collect();
    assert_eq!(numbers, vec![1, 3, 4, 5, 6]);
    assert_eq!(source.regex_search(&docs, &query("^x", None, 1)).expect("valid").len(), 1);
    assert_eq!(source.regex_search(&docs, &query("^x", None, 0)).expect("valid").len(), 0);
    assert_eq!(source.regex_search(&docs, &query("x", Some("b*"), 9)).expect("valid").len(), 1);
}

#[test]
fn invalid_patterns_are_refused() {
    let source = source();
    let docs = vec![];
    let both = source.regex_search(&docs, &query("(", Some("["), 1)).expect_err("bad glob");
    let cause = "error parsing glob '[': unclosed character class; missing ']'";
    assert_eq!(
        both,
        SearchError::InvalidGlob { pattern: "[".to_string(), cause: cause.to_string() }
    );
    assert_eq!(both.cause(), Some(cause.to_string()));
    assert_eq!(both.message(), "invalid glob: [");
    let regex = source.regex_search(&docs, &query("(", None, 1)).expect_err("bad regex");
    assert!(matches!(&regex, SearchError::InvalidRegex { query, .. } if query == "("));
    assert!(regex.cause().expect("a cause").contains("unclosed group"));
    assert_eq!(regex.message(), "invalid regex query: (");
    let glob = full_text_request(&full_text("x", Some("[a"), 1)).err().expect("bad glob");
    assert!(matches!(&glob, SearchError::InvalidGlob { pattern, .. } if pattern == "[a"));
    let failed = SearchError::GlobSet { cause: "too large".to_string() };
    assert_eq!(failed.message(), "too large");
    assert_eq!(failed.cause(), None);
}

#[test]
fn hits_follow_from_what_is_kept_and_what_matches() {
    let docs = source().scan_documents(&vec![file("a.md", "1\n2"), file("b.md", "3")]);
    let hits = regex_hits(&docs, &vec![false, true], &vec![vec![true, true], vec![true]], 5);
    assert_eq!(hits.len(), 1);
    assert_eq!(hits[0].path, "b.md");
    let hits = regex_hits(&docs, &vec![true, true], &vec![vec![false, true], vec![false]], 5);
    assert_eq!(hits.len(), 1);
    assert_eq!(hits[0].snippet, "2");
    assert_eq!(hits[0].line_matches[0].line_number, 2);
}

#[test]
fn globs_filter_paths() {
    let set = compile_glob_filter(Some("technologies/*")).expect("valid").expect("a filter");
    assert!(path_matches(Some(&set), "technologies/docker.md"));
    assert!(!path_matches(Some(&set), "exercises/docker.md"));
    assert!(compile_glob_filter(None).expect("valid").is_none());
    assert!(path_matches(None, "anything"));
    assert_eq!(search_mode_name(SearchMode::FullText), "full-text");
    assert_eq!(search_mode_name(SearchMode::Regex), "regex");
}

#[test]
fn full_text_queries_are_prefixes_without_punctuation() {
    assert_eq!(build_fts_query("docker compose"), "docker* compose*");
    assert_eq!(build_fts_query(" \"git-rebase\", (now) "), "git-rebase* now*");
    assert_eq!(build_fts_query("... !"), "... !");
    assert_eq!(build_fts_query(""), "");
    assert_eq!(like_pattern("a%b"), "%a%b%");
}

#[test]
fn full_text_rows_are_filtered_and_limited() {
    let request = full_text_request(&full_text("x", Some("a/*"), 2)).expect("valid");
    let rows = vec![hit(1, "a/1"), hit(2, "b/2"), hit(3, "a/3"), hit(4, "a/4")];
    let SearchStep::Done(hits) =
        full_text_hits(rows, &request.matcher, &full_text("x", Some("a/*"), 2))
    else {
        panic!("hits expected")
    };
    let ids: Vec<i64> = hits.iter().map(|h| h.doc_id).collect();
    assert_eq!(ids, vec![1, 3]);

    let SearchStep::Fallback { like, row_limit } =
        full_text_hits(vec![hit(2, "b/2")], &request.matcher, &full_text("x", Some("a/*"), 2))
    else {
        panic!("no hits expected")
    };
    assert_eq!(like, "%x%");
    assert_eq!(row_limit, 2);
    let kept = take_kept(vec![hit(1, "p"), hit(2, "q")], &vec![false, true], 7);
    assert_eq!(kept[0].doc_id, 2);
}

#[test]
fn rows_with_bodies_show_their_first_line_of_text() {
    let matcher = compile_glob_filter(Some("*.md")).expect("valid");
    let hits = like_hits(vec![row(1, "x.md", " \n\n first \nsecond"), row(2, "y.txt", "")], &matcher);
    assert_eq!(hits.len(), 1);
    assert_eq!(hits[0].snippet, " first ");
    assert_eq!(hits[0].score, None);
    let all = list_documents(vec![row(1, "x.md", "\t"), row(2, "y", "z")]);
    assert_eq!(all.len(), 2);
    assert_eq!(all[0].snippet, "");
    assert_eq!(all[1].snippet, "z");
}

#[test]
fn only_changed_documents_are_written() {
    let docs = source().scan_documents(&vec![file("a.md", "1"), file("b.md", "2"), file("c.md", "3")]);
    let existing = vec![
        ("a.md".to_string(), docs[0].hash.clone()),
        ("b.md".to_string(), "old".to_string()),
        ("gone.md".to_string(), "x".to_string()),
    ];
    let plan = index_documents(&existing, &docs);
    assert_eq!(plan.changed, vec![1, 2]);
    assert_eq!(plan.removed, vec!["gone.md"]);
    assert_eq!(
        plan.stats,
        IndexStats { indexed: 3, updated: 2, unchanged: 1, removed: 1 }
    );

    let now: Vec<(String, String)> =
        docs.iter().map(|d| (d.rel_path.clone(), d.hash.clone())).collect();
    let again = index_documents(&now, &docs);
    assert!(again.changed.is_empty());
    assert!(again.removed.is_empty());
    assert_eq!(again.stats.unchanged, 3);
}

#[test]
fn stored_documents_read_back() {
    let doc = source().read_document(&file("a.md", "# A\n## B\n[x](y) [z](w)\nbody"));
    let back = stored(&doc);
    assert_eq!(back.rel_path, doc.rel_path);
    assert_eq!(back.title, doc.title);
    assert_eq!(back.body, doc.body);
    assert_eq!(back.headings, doc.headings);
    assert_eq!(back.links, doc.links);
    assert_eq!(back.status, doc.status);
    assert_eq!(back.modified_at, doc.modified_at);
    assert_eq!(document_row(&doc).links, "y\nw");
    assert_eq!(document_row(&doc).status, "Ok");
}

#[test]
fn documents_are_looked_up_by_number_path_and_title() {
    let first = first_lookup("42");
    assert_eq!(first, Lookup::ById(42));
    let Resolution::Try(second) = resolve_document(&first, "42", None) else {
        panic!("goes on")
    };
    assert_eq!(
        second,
        Lookup::ByPath { rel_path: "42".to_string(), display_path: "42".to_string() }
    );
    let Resolution::Try(third) = resolve_document(&second, "42", None) else {
        panic!("goes on")
    };
    assert_eq!(third, Lookup::ByTitle("%42%".to_string()));
    assert!(matches!(resolve_document(&third, "42", None), Resolution::Missing));
    assert_eq!(
        first_lookup("a/b.md"),
        Lookup::ByPath { rel_path: "a\\b.md".to_string(), display_path: "a/b.md".to_string() }
    );
    let doc = stored(&source().read_document(&file("a.md", "# A")));
    let Resolution::Found(found) = resolve_document(&third, "42", Some(doc)) else {
        panic!("found")
    };
    assert_eq!(found.title, "A");
}

#[test]
fn contentless_tables_are_recognised() {
    assert!(is_contentless(Some("CREATE VIRTUAL TABLE t USING fts5(a, content='')")));
    assert!(is_contentless(Some("fts5(a, content = '')")));
    assert!(!is_contentless(Some("fts5(a, b)")));
    assert!(!is_contentless(None));
}

#[test]
fn services_know_their_places() {
    let service = SearchService::new("m".to_string(), None);
    assert_eq!(service.source(), "m");
    assert!(service.index_path().ends_with("index.sqlite3"));
    assert!(service.ensure_source_exists(true).is_ok());
    let missing = service.ensure_source_exists(false).expect_err("missing");
    assert_eq!(missing, SearchError::SourceMissing("m".to_string()));
    assert_eq!(missing.message(), "source directory does not exist: m");
    assert!(service.index_documents(false, &vec![], &vec![]).is_err());
    assert_eq!(ensure_file_exists("f".to_string(), true), Ok("f".to_string()));
    let gone = ensure_file_exists("f".to_string(), false).expect_err("missing");
    assert_eq!(gone.message(), "file does not exist: f");
    assert_eq!(
        SearchError::DocumentNotFound("x".to_string()).message(),
        "document not found: x"
    );
}

#[test]
fn blank_searches_list_documents() {
    let service = SearchService::new("m".to_string(), None);
    assert!(matches!(
        service.search("  ", 5),
        SearchRequest::List { row_limit: 5, path_filter: None, limit: 5 }
    ));
    let SearchRoute::Index(SearchRequest::List { row_limit, path_filter, limit }) =
        run_search(&service, &full_text(" ", Some("a/*"), 1))
    else {
        panic!("a list")
    };
    assert_eq!((row_limit, limit), (-1, 1));
    let matcher = compile_glob_filter(path_filter.as_deref()).expect("valid");
    let rows = vec![row(1, "b/1", ""), row(2, "a/2", ""), row(3, "a/3", "")];
    let listed: Vec<i64> = list_below(rows, &matcher, limit).iter().map(|h| h.doc_id).collect();
    assert_eq!(listed, vec![2]);
    let SearchRequest::FullText(q) = service.search(" docker ", 5) else {
        panic!("full text")
    };
    assert_eq!(q.text, " docker ");
    assert_eq!(q.limit, 5);
    assert_eq!(q.mode, SearchMode::FullText);

    let SearchRoute::Index(SearchRequest::FullText(filtered)) =
        run_search(&service, &full_text("kubernetes", Some("technologies/*"), 20))
    else {
        panic!("full text")
    };
    assert_eq!(filtered.path_filter, Some("technologies/*".to_string()));
    assert!(matches!(run_search(&service, &query("x", None, 1)), SearchRoute::Files));
}

#[test]
fn targets_lead_to_files_and_pages() {
    let service = SearchService::new("m".to_string(), None);
    assert_eq!(service.open_hit(&hit(-7, "p")), "-7");
    let doc = Some(stored(&source().read_document(&file("a b.md", "# A"))));
    let path = service.open_target(&doc, "whatever");
    assert!(path == "m/a b.md" || path == "m\\a b.md");
    let direct = service.open_target(&None, "x/y.md");
    assert!(direct == "m/x/y.md" || direct == "m\\x/y.md");
    assert_eq!(service.open_target(&None, "/etc/hosts"), "/etc/hosts");
    let slashed = SearchService::new("mirror/".to_string(), None);
    assert_eq!(slashed.open_target(&None, "x.md"), "mirror/x.md");
    let server = SearchService::new("\\\\srv\\m".to_string(), None);
    let path = server.open_target(&None, "x.md");
    assert!(path == "\\\\srv\\m/x.md" || path == "\\\\srv\\m\\x.md");
    assert_eq!(SearchService::new(String::new(), None).read_direct_file("x.md"), "x.md");
    assert_eq!(service.read_direct_file("x"), service.open_target(&None, "x"));
    assert_eq!(service.page_of_target(&doc, "whatever"), "a b.md");
    assert_eq!(service.page_of_target(&None, "x\\y.md"), "x/y.md");
    assert_eq!(open_in_browser("a b.md"), "https://htl.dev/md/a%20b.md");
}

#[test]
fn previews_follow_lookups() {
    let service = SearchService::new("m".to_string(), None);
    let first = first_lookup("a.md");
    let doc = stored(&source().read_document(&file("a.md", "# A\nline")));
    let PreviewStep::Show(preview) = service.preview_for_target(&first, "a.md", Some(doc)) else {
        panic!("found")
    };
    assert_eq!(preview.body_lines, vec!["# A", "line"]);
    assert!(matches!(
        service.preview_for_target(&first, "a.md", None),
        PreviewStep::Try(Lookup::ByTitle(_))
    ));
    assert!(matches!(
        service.preview_for_target(&Lookup::ByTitle("%a.md%".to_string()), "a.md", None),
        PreviewStep::Missing
    ));
    let broken = StoredDocument {
        status: DocumentStatus::ParseError,
        ..stored(&source().read_document(&file("a.md", "# A\nline")))
    };
    assert_eq!(
        map_preview(broken).body_lines,
        vec!["This document was indexed with a parse error."]
    );
}

#[test]
fn hits_are_printed() {
    assert_eq!(print_hits(&vec![]), vec!["No matches found."]);
    let mut second = hit(9, "b.md");
    second.score = None;
    second.snippet = "  ".to_string();
    second.line_matches = vec![LineMatch { line_number: 3, line: "  text ".to_string() }];
    assert_eq!(
        print_hits(&vec![hit(4, "a.md"), second]),
        vec![
            "1. title 4 [4]",
            "   a.md",
            "   score: -1.500",
            "   a [match]",
            "",
            "2. title 9 [9]",
            "   b.md",
            "   3: text",
            "",
        ]
    );
}
