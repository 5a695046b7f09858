use htldev::dom::{Found, FoundIn};
use htldev::mirror::{
    asset_file, asset_of_src, document_address, fill_form, page_address, page_of_href, rate_limit,
    DiscoveryStep, FetchKind, HtlScraper, LoginError, LoginStep, Phase, ScraperEvent,
    ScraperState, MAX_ROUNDS,
};
use htldev::page::{
    code_block, code_language, dir_of_page, download_markdown, escape_html, html_to_markdown,
    normalize_links_in_html, page_from_content, page_from_markdown, postprocess_markdown, preprocess_html,
    remove_elements, remove_tags_with_class, replace_blocks, rewrite_links,
    transform_shiki_blocks, PageError,
};

fn scraper(sync: bool) -> HtlScraper {
    HtlScraper::new("out".to_string(), sync)
}

fn log(line: &str) -> ScraperEvent {
    ScraperEvent::Log(line.to_string())
}

fn found(attr: Option<&str>, html: &str, text: &str) -> Found {
    Found {
        attrs: vec![attr.map(|s| s.to_string())],
        html: html.to_string(),
        text: text.to_string(),
    }
}

const LOGIN: &str = "<html><body><h1>Sign in to your account</h1>\
<form id=\"kc-form-login\" action=\"https://auth.example/x?a=1&amp;amp;b=2\">\
<input name=\"username\"><input name=\"password\" type=\"password\">\
<input type=\"hidden\" name=\"token\" value=\"t1\"><input type=\"submit\" value=\"Go\">\
<input name=\"username\" type=\"hidden\" value=\"kept\"></form></body></html>";

#[test]
fn forms_are_filled_in() {
    let mut s = scraper(false);
    s.begin_authentication("ann");
    let Ok(LoginStep::Submit(form)) = s.authenticate(LOGIN, "ann", "secret word") else {
        panic!("a form")
    };
    assert_eq!(form.action, "https://auth.example/x?a=1&b=2");
    let fields: Vec<(&str, &str)> =
        form.fields.iter().map(|(n, v)| (n.as_str(), v.as_str())).collect();
    assert_eq!(
        fields,
        vec![("username", "ann"), ("password", "secret word"), ("token", "t1"), ("username", "kept")]
    );
    assert_eq!(s.take_events(), vec![log("Authenticating as: ann")]);
}

#[test]
fn signing_in_can_fail() {
    let mut s = scraper(false);
    assert!(matches!(s.authenticate("<p>Welcome</p>", "a", "b"), Ok(LoginStep::SignedIn)));
    assert_eq!(s.take_events(), vec![log("[OK] Already authenticated")]);
    let none = s.authenticate("Sign in to your account", "a", "b").err();
    assert_eq!(none, Some(LoginError::NoForm));
    let bare = s
        .authenticate("Sign in to your account <form id=\"kc-form-login\"></form>", "a", "b")
        .err();
    assert_eq!(bare, Some(LoginError::NoAction));
    assert_eq!(LoginError::NoForm.message(), "login form not found");
    assert_eq!(LoginError::NoAction.message(), "form has no action");
    assert_eq!(LoginError::Selector.message(), "invalid selector");
    assert!(!s.finish_authentication("Sign in to your account"));
    assert!(s.finish_authentication("Welcome"));
    assert_eq!(
        s.take_events(),
        vec![
            log("[ERROR] Authentication failed — check credentials"),
            log("[OK] Authentication successful"),
        ]
    );
}

#[test]
fn found_forms_are_filled_in() {
    assert_eq!(fill_form(&vec![], "a", "b").err(), Some(LoginError::NoForm));
    let input = Found {
        attrs: vec![Some("username".to_string()), Some("text".to_string()), None],
        html: String::new(),
        text: String::new(),
    };
    let forms = vec![FoundIn { outer: found(Some("/go"), "", ""), inner: vec![input] }];
    let form = fill_form(&forms, "a", "b").expect("a form");
    assert_eq!(form.action, "/go");
    assert_eq!(form.fields, vec![("username".to_string(), "a".to_string())]);
}

#[test]
fn links_lead_to_pages() {
    assert_eq!(page_of_href("https://htl.dev/md/a.md"), Some("/md/a.md".to_string()));
    assert_eq!(page_of_href("/md/b/c.md"), Some("/md/b/c.md".to_string()));
    assert_eq!(page_of_href("/md/b/"), None);
    assert_eq!(page_of_href("/b.md"), None);
    assert_eq!(page_of_href("https://example.com/md/a.md"), None);
    assert_eq!(asset_of_src("https://htl.dev/x.png"), Some("https://htl.dev/x.png".to_string()));
    assert_eq!(
        asset_of_src("/md/assets/x.png"),
        Some("https://htl.dev/md/assets/x.png".to_string())
    );
    assert_eq!(asset_of_src("../assets/x.png"), Some("../assets/x.png".to_string()));
    assert_eq!(asset_of_src("x.png"), None);
    assert_eq!(page_address("/md/"), "https://htl.dev/md/");
    assert_eq!(document_address("/md/a.md"), "https://htl.dev/md/a.md?document=true");
    assert_eq!(asset_file("https://htl.dev/md/assets/a%20b.png"), "a b.png");
}

#[test]
fn pages_are_collected_once() {
    let mut s = scraper(false);
    let body = "<a href=\"/md/a.md\">1</a><a href='/md/b.md'>2</a><a name=x>3</a>\
<a href=\"https://htl.dev/md/a.md\">4</a><a href=\"/other\">5</a>";
    assert!(s.discover_from_html_page(body));
    assert_eq!(s.state.discovered_files.to_vec(), vec!["/md/a.md", "/md/b.md"]);
    s.collect_md_href("/md/c.md");
    assert_eq!(s.state.discovered_files.len(), 3);
}

#[test]
fn only_the_content_of_a_page_counts() {
    let mut s = scraper(false);
    let body = "<a href=\"/md/nav.md\">n</a><div id=\"markdown-content\">\
<a href=\"/md/in.md\">i</a><img src=\"/md/assets/p.png\"><img src=\"logo.png\"></div>\
<img src=\"/md/assets/q.png\">";
    assert!(s.discover_from_markdown(body));
    assert_eq!(s.state.discovered_files.to_vec(), vec!["/md/in.md"]);
    assert_eq!(s.state.discovered_assets.to_vec(), vec!["https://htl.dev/md/assets/p.png"]);
    assert!(s.discover_from_markdown("<p>nothing</p>"));
    assert_eq!(s.state.discovered_files.len(), 1);
}

#[test]
fn discovery_follows_links_in_rounds() {
    let mut s = scraper(false);
    let mut d = s.discover_all_files();
    let mut fetched: Vec<String> = vec![];
    let mut steps = 0;
    loop {
        steps += 1;
        assert!(steps < 1000);
        match s.discover_step(&mut d) {
            DiscoveryStep::Fetch { path, kind } => {
                if path == "/" {
                    assert_eq!(kind, FetchKind::Root);
                    assert!(s.discover_from(kind, "<a href=\"/md/a.md\">a</a>"));
                } else if path == "/md/a.md" {
                    assert_eq!(kind, FetchKind::Document);
                    assert!(s.discover_from(
                        kind,
                        "<div id=markdown-content><a href=\"/md/b.md\">b</a></div>"
                    ));
                } else if path.ends_with('/') {
                    assert_eq!(kind, FetchKind::Links);
                }
                fetched.push(path);
            }
            DiscoveryStep::Continue => {}
            DiscoveryStep::Finished => break,
        }
    }
    assert_eq!(
        fetched,
        vec![
            "/",
            "/md/contacts/",
            "/md/exercises/",
            "/md/presentations/",
            "/md/technologies/",
            "/md/diploma-examination/",
            "/md/assets/",
            "/md/a.md",
            "/md/index.md",
            "/md/a.md",
            "/md/index.md",
            "/md/b.md",
        ]
    );
    assert_eq!(
        s.take_events(),
        vec![
            log("[1/4] Discovering markdown files..."),
            log("  Iteration 1: +1 files (total: 3)"),
            log("[OK] Discovered 3 files"),
        ]
    );
    assert_eq!(d.phase, Phase::Finished);
    assert!(matches!(s.discover_step(&mut d), DiscoveryStep::Finished));
}

#[test]
fn discovery_ends_after_the_last_round() {
    let mut s = scraper(false);
    let mut d = s.discover_all_files();
    let mut n = 0;
    loop {
        match s.discover_step(&mut d) {
            DiscoveryStep::Fetch { kind, .. } => {
                if kind == FetchKind::Document {
                    n += 1;
                    let link = format!("/md/{n}.md");
                    s.collect_md_href(&link);
                }
            }
            DiscoveryStep::Continue => {}
            DiscoveryStep::Finished => break,
        }
    }
    assert_eq!(d.iteration, MAX_ROUNDS - 1);
    let rounds = s
        .take_events()
        .into_iter()
        .filter(|e| matches!(e, ScraperEvent::Log(line) if line.starts_with("  Iteration")))
        .count();
    assert_eq!(rounds, 10);
}

#[test]
fn downloads_are_counted() {
    let mut s = scraper(false);
    s.collect_md_href("/md/b.md");
    s.collect_md_href("/md/a%20x.md");
    let mut run = s.download_all_files();
    assert_eq!(run.todo, vec!["/md/a%20x.md", "/md/b.md"]);
    assert!(!s.record_download(&mut run, Some("h1".to_string())));
    assert!(s.record_download(&mut run, None));
    s.finish_downloads(&run);
    assert_eq!(
        s.take_events(),
        vec![
            log("[2/4] Downloading markdown files..."),
            ScraperEvent::Progress { current: 1, total: 2 },
            ScraperEvent::Progress { current: 2, total: 2 },
            log("  Progress: 2/2 (100%)"),
            log("[OK] Processed 2 files:"),
            log("  - 1 new"),
            log("  - 1 failed"),
        ]
    );
    assert_eq!(s.state.failed_files.to_vec(), vec!["/md/b.md"]);

    let mut again = s.download_all_files();
    assert_eq!(again.todo, vec!["/md/b.md"]);
    assert!(s.record_download(&mut again, Some("h2".to_string())));
    assert_eq!(s.take_events()[1], log("  1 already downloaded, 1 new"));
    let done = s.download_all_files();
    assert!(done.todo.is_empty());
    assert_eq!(
        s.take_events(),
        vec![
            log("[2/4] Downloading markdown files..."),
            log("  2 already downloaded, 0 new"),
            log("[OK] All files already downloaded"),
        ]
    );

    s.sync_mode = true;
    let mut sync = s.download_all_files();
    assert_eq!(sync.todo.len(), 2);
    s.record_download(&mut sync, Some("changed".to_string()));
    s.record_download(&mut sync, Some("h2".to_string()));
    assert_eq!(sync.updated_count, 1);
    assert_eq!(sync.unchanged_count, 1);
    s.finish_downloads(&sync);
    assert_eq!(
        s.take_events(),
        vec![
            log("[2/4] Downloading markdown files..."),
            log("[SYNC] Checking 2 files for updates..."),
            log("  [UPDATED] /md/a x.md"),
            ScraperEvent::Progress { current: 1, total: 2 },
            ScraperEvent::Progress { current: 2, total: 2 },
            log("  Progress: 2/2 (100%)"),
            log("[OK] Processed 2 files:"),
            log("  - 1 updated"),
            log("  - 1 unchanged"),
        ]
    );
}

#[test]
fn state_is_kept_after_every_tenth_page() {
    let mut s = scraper(false);
    for n in 10..31 {
        let link = format!("/md/{n}.md");
        s.collect_md_href(&link);
    }
    let mut run = s.download_all_files();
    let kept: Vec<usize> =
        (1..=21).filter(|_| s.record_download(&mut run, Some("h".to_string()))).collect();
    assert_eq!(kept, vec![10, 20, 21]);
    assert!(s.take_events().contains(&log("  Progress: 10/21 (47%)")));
}

#[test]
fn assets_are_downloaded_once() {
    let mut s = scraper(false);
    assert!(s.discover_from_markdown(
        "<div id=markdown-content><img src=\"/md/assets/a.png\"><img src=\"x/assets/b.png\"></div>"
    ));
    let mut run = s.download_all_assets();
    assert_eq!(run.todo, vec!["https://htl.dev/md/assets/a.png", "x/assets/b.png"]);
    assert!(!s.record_asset(&mut run, true));
    assert!(s.record_asset(&mut run, false));
    s.finish_assets();
    assert_eq!(
        s.take_events(),
        vec![
            log("[3/4] Downloading 2 assets..."),
            log("  Assets: 2/2 (100%)"),
            log("[OK] Downloaded 1 assets"),
        ]
    );
    assert_eq!(s.download_all_assets().todo, vec!["x/assets/b.png"]);
    s.state = ScraperState::new();
    s.take_events();
    s.download_all_assets();
    assert_eq!(
        s.take_events(),
        vec![log("[3/4] Downloading 0 assets..."), log("[OK] All assets already downloaded")]
    );
}

#[test]
fn runs_tell_how_they_begin_and_end() {
    let mut s = scraper(false);
    s.begin_run();
    s.load_state(Err("bad".to_string()));
    s.state.downloaded_files.insert("/md/a.md");
    let state = s.state.clone();
    s.load_state(Ok(state));
    s.state.failed_files.insert("/md/b.md");
    s.finish_run();
    assert_eq!(
        s.take_events(),
        vec![
            log("HTL.dev Scraper"),
            log("Output: out"),
            log("[WARN] Could not load state: bad"),
            log("[OK] Loaded previous state (1 files downloaded)"),
            log("DONE"),
            log("Total: 1 markdown files, 0 assets"),
            log("Failed: 1 (run again to retry)"),
        ]
    );
    assert!(s.md_dir() == "out/md" || s.md_dir() == "out\\md");
    assert!(s.assets_dir().ends_with("assets"));
    assert!(s.state_file().ends_with("scraper_state.json"));
    assert_eq!(rate_limit(100_000_000), 200_000_000);
    assert_eq!(rate_limit(300_000_000), 0);
}

#[test]
fn elements_are_taken_out() {
    let html = "<h1>A<span class=\"docanchor\">#</span></h1>";
    assert_eq!(remove_tags_with_class(html, "docanchor"), Some("<h1>A</h1>".to_string()));
    assert_eq!(remove_tags_with_class(html, "other"), Some(html.to_string()));
    assert_eq!(remove_tags_with_class(html, "]["), None);
    assert_eq!(remove_elements("axbx", &vec![found(None, "x", "")]), "ab");
}

#[test]
fn code_blocks_lose_their_highlighting() {
    let html = "<p>x</p><pre class=\"shiki one-dark-pro language-rust\"><code>\
<span class=\"line\"><span>let a</span> = 1 &lt; 2;</span>\n<span class=\"line\">b &amp;&amp; c</span>\
</code></pre>";
    assert_eq!(
        transform_shiki_blocks(html),
        Some(
            "<p>x</p><pre><code class=\"language-rust\">let a = 1 &lt; 2;\nb &amp;&amp; c</code></pre>"
                .to_string()
        )
    );
    let plain = "<pre class=\"shiki\"><span class=\"line\">a</span></pre>";
    assert_eq!(transform_shiki_blocks(plain), Some("<pre><code>a</code></pre>".to_string()));
    assert_eq!(code_language("shiki fragment language-language-c++ x"), "c++");
    assert_eq!(code_language("shiki"), "");
    assert_eq!(escape_html("<a & b>"), "&lt;a &amp; b&gt;");
    assert_eq!(code_block("", "<"), "<pre><code>&lt;</code></pre>");
    let block = FoundIn {
        outer: found(None, "OLD", ""),
        inner: vec![found(None, "", "1"), found(None, "", "2")],
    };
    assert_eq!(replace_blocks("xOLDyOLD", &vec![block]), "x<pre><code>1\n2</code></pre>yOLD");
}

#[test]
fn pages_are_prepared() {
    assert_eq!(
        preprocess_html("<p data-fragment-index=\"3\">a<b class=\"docanchor\">x</b></p>"),
        Some("<p data-rm=\"3\">a</p>".to_string())
    );
}

#[test]
fn links_of_pages_become_local() {
    let html = "<a href=\"/md/b/c.md\">x</a><a href=\"https://example.com\">y</a>\
<img src=\"/md/assets/i.png\">";
    assert_eq!(
        normalize_links_in_html(html, "/md/a"),
        Some(
            "<a href=\"../b/c.md\">x</a><a href=\"https://example.com\">y</a>\
<img src=\"../assets/i.png\">"
                .to_string()
        )
    );
    let links = vec![found(Some("/md/x.md"), "", ""), found(None, "", "")];
    assert_eq!(rewrite_links("href=\"/md/x.md\"", &links, "href", "/md", false), "href=\"x.md\"");
}

#[test]
fn html_becomes_markdown() {
    assert_eq!(html_to_markdown("<h1>Hello</h1>", "/md"), Some("# Hello".to_string()));
    assert_eq!(
        html_to_markdown("<p>See <a href=\"/md/x.md\">x</a></p>", "/md"),
        Some("See [x](x.md)".to_string())
    );
}

#[test]
fn blank_lines_collapse() {
    assert_eq!(postprocess_markdown("\n\na\n\n\n\n\nb\n \n\t\n\nc\n\n"), "a\n\n\nb\n\n\nc");
    assert_eq!(postprocess_markdown("a\r\nb"), "a\nb");
    assert_eq!(postprocess_markdown(" \n"), "");
}

#[test]
fn stored_markdown_has_no_three_blank_lines() {
    let md = postprocess_markdown("x\n\n\n\n\n\ny\n\n\n \n\n z");
    assert_eq!(md, "x\n\n\ny\n\n\n z");
    let mut blank = 0;
    for line in md.lines() {
        blank = if line.trim().is_empty() { blank + 1 } else { 0 };
        assert!(blank <= 2);
    }
}

#[test]
fn pages_are_downloaded() {
    let body = "<html><body><nav>n</nav><div id=\"markdown-content\">\
<h1>T<span class=\"docanchor\">#</span></h1><p>See <a href=\"/md/a/y.md\">y</a></p></div></body></html>";
    let page = download_markdown("/md/a/x%20z.md", body).expect("a page");
    assert_eq!(page.markdown, "# T\n\nSee [y](y.md)");
    assert_eq!(page.rel_path, "md/a/x z.md");
    assert_eq!(page.hash, htldev::digest::page_hash("# T\n\nSee [y](y.md)"));
    assert_eq!(
        download_markdown("/md/x.md", "<p>none</p>").err(),
        Some(PageError::NoContent)
    );
    let alone = page_from_content("x.md", "<h2>A</h2>").expect("a page");
    assert_eq!(alone.markdown, "## A");
    assert_eq!(dir_of_page("/md/a/x.md"), "/md/a");
    assert_eq!(dir_of_page("x.md"), "x.md");
}

#[test]
fn links_only_add_pages() {
    let mut s = scraper(false);
    s.collect_md_href("/md/a.md");
    s.collect_links(&vec![found(Some("/md/b.md"), "", ""), found(Some("nowhere"), "", "")]);
    s.collect_images(&vec![found(Some("x/assets/i.png"), "", ""), found(None, "", "")]);
    assert_eq!(s.state.discovered_files.to_vec(), vec!["/md/a.md", "/md/b.md"]);
    assert_eq!(s.state.discovered_assets.to_vec(), vec!["x/assets/i.png"]);
}

#[test]
fn pages_follow_from_their_markdown() {
    let page = page_from_markdown("/md/a%20b.md", "# T\n\n\n\n\ntext\n");
    assert_eq!(page.markdown, "# T\n\n\ntext");
    assert_eq!(page.rel_path, "md/a b.md");
    assert_eq!(page.hash, htldev::digest::page_hash("# T\n\n\ntext"));
    let list = page_from_content("/md/x.md", "<ol><li>a</li><li>b</li></ol>").expect("a page");
    assert!(list.markdown.starts_with("1."));
    assert!(list.markdown.contains("2."));
}

#[test]
fn discovery_needs_the_first_page_only() {
    assert!(FetchKind::Root.is_required());
    assert!(!FetchKind::Links.is_required());
    assert!(!FetchKind::Document.is_required());
}
