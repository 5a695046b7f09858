use htldev::cli::{
    files_line, indexed_line, run, run_doctor, run_index, run_open, run_show, show_target, Cli, Command,
    IndexArgs, ScrapeArgs, SearchArgs, TargetArgs, Task, DEFAULT_LIMIT,
};
use htldev::document::{DocumentStatus, SearchHit, SearchMode, DEFAULT_SOURCE_STR};
use htldev::error::SearchError;
use htldev::index::IndexStats;
use htldev::service::{PreviewDocument, SearchService};
use htldev::tui::{
    first_match_line, path_spans, query_cursor, scroll_to_match, App, KeyAction, KeyCode, KeyPress, DEBOUNCE_MS, HELP,
    SEARCH_LIMIT,
};

const MS: u64 = 1_000_000;

fn hit(path: &str) -> SearchHit {
    SearchHit {
        doc_id: 1,
        path: path.to_string(),
        title: "t".to_string(),
        score: None,
        snippet: String::new(),
        line_matches: vec![],
    }
}

fn preview(lines: &[&str]) -> PreviewDocument {
    PreviewDocument {
        title: "T".to_string(),
        path: "p.md".to_string(),
        status: DocumentStatus::Okay,
        modified_at: Some("5".to_string()),
        headings: vec!["T".to_string(), "U".to_string()],
        links: vec!["x".to_string()],
        body_lines: lines.iter().map(|s| s.to_string()).collect(),
    }
}

fn key(code: KeyCode) -> KeyPress {
    KeyPress { code, control: false, alt: false, shift: false }
}

#[test]
fn debounce_requires_elapsed_time() {
    let now: u64 = 1_000 * MS;
    let mut app = App::new(now);
    app.dirty = true;
    // An edit just now.
    app.last_edit = now;
    assert!(!app.should_search(now));

    // An edit 200 ms ago.
    app.last_edit = now - 200 * MS;
    assert!(app.should_search(now));
}

#[test]
fn set_results_clamps_selection() {
    let mut app = App::new(0);
    app.selected = 5;
    app.set_results(vec![]);
    assert_eq!(app.selected, 0);
}

#[test]
fn debounce_is_exact_and_needs_an_edit() {
    let mut app = App::new(0);
    assert_eq!(DEBOUNCE_MS, 150);
    assert!(!app.should_search(150 * MS - 1));
    assert!(app.should_search(150 * MS));
    app.dirty = false;
    assert!(!app.should_search(150 * MS));
    app.mark_dirty(500 * MS);
    assert!(!app.should_search(150 * MS));
    assert!(app.should_search(650 * MS));
}

#[test]
fn selection_stays_among_the_results() {
    let mut app = App::new(0);
    app.move_down();
    assert_eq!(app.selected, 0);
    assert!(app.selected_hit().is_none());
    app.set_results(vec![hit("a"), hit("b")]);
    app.move_down();
    app.move_down();
    assert_eq!(app.selected, 1);
    assert_eq!(app.selected_hit().map(|h| h.path.clone()), Some("b".to_string()));
    app.move_up();
    app.move_up();
    assert_eq!(app.selected, 0);
}

#[test]
fn keys_edit_the_query() {
    let mut app = App::new(0);
    assert_eq!(app.handle_key(key(KeyCode::Char('q')), 1), KeyAction::Nothing);
    assert_eq!(app.handle_key(key(KeyCode::Char('ä')), 2), KeyAction::Nothing);
    assert_eq!(app.query, "qä");
    assert_eq!(app.last_edit, 2);
    app.handle_key(key(KeyCode::Backspace), 3);
    assert_eq!(app.query, "q");
    app.handle_key(key(KeyCode::Esc), 4);
    assert_eq!(app.query, "");
    app.handle_key(key(KeyCode::Backspace), 5);
    assert_eq!(app.query, "");
    assert!(app.dirty);
    assert_eq!(app.last_edit, 5);
    let control = KeyPress { control: true, ..key(KeyCode::Char('x')) };
    assert_eq!(app.handle_key(control, 6), KeyAction::Nothing);
    assert_eq!(app.query, "");
    assert_eq!(app.last_edit, 5);
}

#[test]
fn keys_ask_for_actions() {
    let mut app = App::new(0);
    app.set_results(vec![hit("a"), hit("b")]);
    let alt = |c: char| KeyPress { alt: true, ..key(KeyCode::Char(c)) };
    let control_c = KeyPress { control: true, ..key(KeyCode::Char('c')) };
    assert_eq!(app.handle_key(control_c, 1), KeyAction::Quit);
    assert_eq!(app.handle_key(alt('q'), 1), KeyAction::Quit);
    assert_eq!(app.handle_key(alt('r'), 1), KeyAction::RebuildIndex);
    assert_eq!(app.query, "");
    assert_eq!(app.handle_key(alt('x'), 1), KeyAction::Nothing);
    assert_eq!(app.query, "x");
    assert_eq!(app.handle_key(key(KeyCode::Down), 1), KeyAction::RefreshPreview);
    assert_eq!(app.selected, 1);
    assert_eq!(app.handle_key(key(KeyCode::Up), 1), KeyAction::RefreshPreview);
    assert_eq!(app.selected, 0);
    assert_eq!(app.handle_key(key(KeyCode::Enter), 1), KeyAction::OpenSelected);
    let shift = KeyPress { shift: true, ..key(KeyCode::Enter) };
    assert_eq!(app.handle_key(shift, 1), KeyAction::OpenInBrowser);
    assert_eq!(app.handle_key(key(KeyCode::Other), 1), KeyAction::Nothing);
    app.handle_key(key(KeyCode::Tab), 1);
    assert!(!app.show_preview);
}

#[test]
fn page_keys_scroll_within_bounds() {
    let mut app = App::new(0);
    app.handle_key(key(KeyCode::PageDown), 1);
    assert_eq!(app.preview_scroll, 10);
    app.handle_key(key(KeyCode::PageUp), 1);
    app.handle_key(key(KeyCode::PageUp), 1);
    assert_eq!(app.preview_scroll, 0);
    app.preview_scroll = u16::MAX - 3;
    app.handle_key(key(KeyCode::PageDown), 1);
    assert_eq!(app.preview_scroll, u16::MAX);
}

#[test]
fn searches_set_results_and_status() {
    let mut app = App::new(0);
    app.query = "x".to_string();
    assert!(app.do_search(Ok(vec![])));
    assert_eq!(app.status, "No results for 'x'.");
    assert!(!app.dirty);
    app.query = " ".to_string();
    assert!(app.do_search(Ok(vec![])));
    assert_eq!(app.status, "");
    app.dirty = true;
    assert!(!app.do_search(Err("boom".to_string())));
    assert_eq!(app.status, "Index error: boom. Press r to build.");
    assert!(!app.dirty);
    app.selected = 3;
    assert!(app.do_search(Ok(vec![hit("a")])));
    assert_eq!(app.selected, 0);
    assert_eq!(app.results.len(), 1);
}

#[test]
fn previews_scroll_to_the_first_match() {
    let lines = ["zero", "one", "two", "three", "The Docker line", "docker"];
    assert_eq!(first_match_line(&Some(preview(&lines)), "docker"), 4);
    assert_eq!(first_match_line(&Some(preview(&lines)), "ONE"), 1);
    assert_eq!(first_match_line(&Some(preview(&["a", "b", "c", "d", "Run Docker"])), "docker"), 4);
    assert_eq!(first_match_line(&Some(preview(&lines)), "none"), 0);
    assert_eq!(first_match_line(&Some(preview(&lines)), ""), 0);
    assert_eq!(first_match_line(&None, "docker"), 0);
    let mut app = App::new(0);
    app.query = "docker".to_string();
    app.refresh_preview(Some(preview(&lines)));
    assert_eq!(app.preview_scroll, 4);
    assert!(app.preview.is_some());
}

#[test]
fn long_previews_scroll_as_far_as_they_can() {
    let mut lines = vec!["filler"; 65540];
    lines.push("needle");
    assert_eq!(first_match_line(&Some(preview(&lines)), "needle"), u16::MAX);
    let exact = vec!["x".to_string(), "yz".to_string()];
    assert_eq!(scroll_to_match(&exact, &vec!["z".to_string()]), 1);
}

#[test]
fn the_status_line_tells_what_happened() {
    let mut app = App::new(0);
    assert_eq!(app.status_line(), HELP);
    app.open_selected();
    assert_eq!(app.status_line(), "No document selected.");
    app.open_in_browser();
    assert_eq!(app.status, "No document selected.");
    app.set_results(vec![hit("a/b.md")]);
    app.open_selected();
    assert_eq!(app.status, "Opened a/b.md");
    app.open_in_browser();
    assert_eq!(app.status, "Opened in browser: htl.dev/md/a/b.md");
    let stats = IndexStats { indexed: 4, updated: 1, unchanged: 3, removed: 2 };
    app.dirty = false;
    app.rebuild_index(stats, 9);
    assert_eq!(app.status, "Indexed 4 docs, updated 1, unchanged 3, removed 2.");
    assert!(app.dirty);
    assert_eq!(app.last_edit, 9);
    assert_eq!(app.results_title(), " Results (1) ");
    app.set_results(vec![]);
    assert_eq!(app.results_title(), " Results ");
    assert_eq!(SEARCH_LIMIT, 50);
}

#[test]
fn paths_are_shown_in_two_parts() {
    let spans = path_spans("presentations/Access.md");
    assert_eq!(spans.parent, Some("presentations/".to_string()));
    assert_eq!(spans.name, "Access.md");
    let spans = path_spans("a\\b\\c.md");
    assert_eq!(spans.parent, Some("a\\b\\".to_string()));
    assert_eq!(spans.name, "c.md");
    let spans = path_spans("a\\b/c\\d");
    assert_eq!(spans.parent, Some("a\\b/".to_string()));
    assert_eq!(spans.name, "c\\d");
    let spans = path_spans("Access.md");
    assert_eq!(spans.parent, None);
    assert_eq!(spans.name, "Access.md");
}

fn cli(command: Command) -> Cli {
    Cli { source: Some("global".to_string()), index_db: Some("db".to_string()), command }
}

#[test]
fn arguments_become_tasks() {
    let args = IndexArgs { source: Some("own".to_string()) };
    let Task::Index { service } = run(cli(Command::Index(args))) else {
        panic!("index")
    };
    assert_eq!(service.source(), "own");
    assert_eq!(service.index_path(), "db");
    let Task::Index { service } = run(cli(Command::Index(IndexArgs { source: None }))) else {
        panic!("index")
    };
    assert_eq!(service.source(), "global");

    let args = SearchArgs {
        query: "q".to_string(),
        regex: true,
        path: Some("p".to_string()),
        limit: DEFAULT_LIMIT,
    };
    let Task::Search { query, .. } = run(cli(Command::Search(args.clone()))) else {
        panic!("search")
    };
    assert_eq!(query.text, "q");
    assert_eq!(query.mode, SearchMode::Regex);
    assert_eq!(query.path_filter, Some("p".to_string()));
    assert_eq!(query.limit, 20);
    let plain = SearchArgs { regex: false, ..args };
    let bare = Cli { source: None, index_db: None, command: Command::Search(plain) };
    let Task::Search { query, service } = run(bare) else {
        panic!("search")
    };
    assert_eq!(query.mode, SearchMode::FullText);
    assert_eq!(service.source(), DEFAULT_SOURCE_STR);

    let target = || TargetArgs { target: "t".to_string() };
    assert!(matches!(run(cli(Command::Show(target()))), Task::Show { target, .. } if target == "t"));
    assert!(matches!(run(cli(Command::Open(target()))), Task::Open { target, .. } if target == "t"));
    assert!(matches!(run(cli(Command::Doctor)), Task::Doctor { .. }));
    assert!(matches!(run(cli(Command::Tui)), Task::Tui { .. }));
    let scrape = ScrapeArgs { username: None, password: None, sync: true, fresh: false };
    assert!(matches!(run(cli(Command::Scrape(scrape))), Task::Scrape(args) if args.sync && !args.fresh));
}

#[test]
fn reports_are_printed() {
    let service = SearchService::new("s".to_string(), Some("i".to_string()));
    let stats = IndexStats { indexed: 4, updated: 1, unchanged: 3, removed: 2 };
    assert_eq!(
        run_index(&service, stats),
        vec!["Indexed source: s", "Database: i", "documents: 4", "updated: 1", "unchanged: 3", "removed: 2"]
    );
    assert_eq!(
        run_doctor(&service, true, false),
        vec!["source: s", "source_exists: true", "index_db: i", "index_exists: false"]
    );
    assert_eq!(indexed_line(-1), "indexed_documents: -1");
    assert_eq!(files_line(12), "source_markdown_files: 12");
    assert_eq!(run_open("x.md"), "Opened x.md");
}

#[test]
fn documents_are_printed() {
    assert_eq!(
        run_show(&preview(&["# T", "text"])),
        vec!["T", "p.md", "status: Ok", "modified_at: 5", "headings: T | U", "links: 1", "", "# T", "text"]
    );
    let mut bare = preview(&[]);
    bare.modified_at = None;
    bare.headings = vec![];
    bare.links = vec![];
    bare.status = DocumentStatus::ParseError;
    assert_eq!(run_show(&bare), vec!["T", "p.md", "status: ParseError", ""]);
}

#[test]
fn the_cursor_stands_behind_the_query() {
    assert_eq!(query_cursor(2, 3, 10, "abc"), Some((6, 4)));
    assert_eq!(query_cursor(2, 3, 10, "ä"), Some((5, 4)));
    assert_eq!(query_cursor(0, 0, 10, "abcdefg"), Some((8, 1)));
    assert_eq!(query_cursor(0, 0, 10, "abcdefgh"), None);
    assert_eq!(query_cursor(0, 0, 1, ""), None);
}

#[test]
fn targets_are_shown_or_refused() {
    let document = preview(&["line"]);
    assert_eq!(
        show_target(Some(document.clone()), Some("file".to_string()), "t"),
        Ok(run_show(&document))
    );
    assert_eq!(show_target(None, Some("a\nb".to_string()), "t"), Ok(vec!["a\nb".to_string()]));
    assert_eq!(
        show_target(None, None, "t"),
        Err(SearchError::DocumentNotFound("t".to_string()))
    );
}
