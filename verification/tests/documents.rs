use htldev::digest::{content_hash, md5_digest, page_hash};
use htldev::document::{
    default_index_path, default_source_path, detect_status, display_path_from_rel,
    extract_headings, extract_links, extract_title, join_lines, modified_at_string, split_lines,
    title_or, DocumentStatus, DEFAULT_SOURCE_STR,
};

#[test]
fn extracts_title_headings_and_links() {
    let markdown =
        "# Docker\n\n## Compose\nSee [Guide](docs/guide.md) and [Site](https://htl.dev).";
    assert_eq!(extract_title(markdown, "fallback.md"), "Docker");
    assert_eq!(extract_headings(markdown), vec!["Docker", "Compose"]);
    assert_eq!(
        extract_links(markdown),
        vec!["docs/guide.md", "https://htl.dev"]
    );
}

#[test]
fn falls_back_to_filename_and_detects_permission_stub() {
    let content = "Error parsing markdown: Error: You do not have the required permissions to view this content.";
    assert_eq!(extract_title("", "Tools.md"), "Tools");
    assert_eq!(detect_status(content), DocumentStatus::PermissionDenied);
}

#[test]
fn status_names_read_back() {
    for status in [
        DocumentStatus::Okay,
        DocumentStatus::PermissionDenied,
        DocumentStatus::ParseError,
    ] {
        assert_eq!(DocumentStatus::from_db(status.as_str()), status);
    }
    assert_eq!(DocumentStatus::Okay.as_str(), "Ok");
    assert_eq!(DocumentStatus::PermissionDenied.as_str(), "PermissionDenied");
    assert_eq!(DocumentStatus::ParseError.as_str(), "ParseError");
    assert_eq!(DocumentStatus::from_db("whatever"), DocumentStatus::Okay);
}

#[test]
fn other_content_is_readable() {
    assert_eq!(detect_status("# Hello"), DocumentStatus::Okay);
    assert_eq!(
        detect_status("  \n Error parsing markdown: Error: You do not have the required permissions to view this content. And more"),
        DocumentStatus::PermissionDenied
    );
    assert_eq!(
        detect_status("x Error parsing markdown: Error: You do not have the required permissions to view this content."),
        DocumentStatus::Okay
    );
}

#[test]
fn titles_come_from_the_first_heading_of_the_first_level() {
    assert_eq!(extract_title("## Second\n#  \n  #   Third  \n# Fourth", "a.md"), "Third");
    assert_eq!(extract_title("#Tight", "dir/some.file.md"), "some.file");
    assert_eq!(extract_title("", "dir/.hidden"), ".hidden");
    assert_eq!(extract_title("", ".."), "Untitled");
    assert_eq!(title_or("text", None), "Untitled");
    assert_eq!(title_or("text", Some("stem".to_string())), "stem");
}

#[test]
fn headings_of_all_levels() {
    assert_eq!(
        extract_headings("#Tight\r\n ### Three # \n####\ntext\n##  "),
        vec!["Tight", "Three #"]
    );
}

#[test]
fn links_need_brackets_and_parentheses() {
    assert_eq!(extract_links("[a](b) [c] (d) [e]( f ) [g]() [h](i"), vec!["b", "f"]);
    assert_eq!(extract_links("[a [b](c)"), vec!["c"]);
    assert_eq!(extract_links("[ä](ö)"), vec!["ö"]);
    assert_eq!(extract_links("[a](foo\nbar)"), vec!["foo\nbar"]);
    assert!(extract_links("").is_empty());
}

#[test]
fn lists_of_lines_read_back() {
    let lines = vec!["one".to_string(), "two".to_string(), "three".to_string()];
    assert_eq!(join_lines(&lines), "one\ntwo\nthree");
    assert_eq!(split_lines(&join_lines(&lines)), lines);
    assert_eq!(split_lines("\n\na\n\nb\n"), vec!["a", "b"]);
    assert!(split_lines("").is_empty());
    let headings = extract_headings("# A\n## B");
    assert_eq!(split_lines(&join_lines(&headings)), headings);
    let broken = extract_links("[a](foo\nbar)");
    assert_ne!(split_lines(&join_lines(&broken)), broken);
}

#[test]
fn paths_and_times() {
    assert_eq!(default_source_path(), DEFAULT_SOURCE_STR);
    assert_eq!(
        DEFAULT_SOURCE_STR,
        r"C:\Users\Deniz\Documents\School\WMC\htl-dev-scraper\htl_dev_backup\md"
    );
    let index = default_index_path();
    assert!(index == ".htldev/index.sqlite3" || index == ".htldev\\index.sqlite3");
    assert_eq!(display_path_from_rel("a\\b\\c.md"), "a/b/c.md");
    assert_eq!(modified_at_string(Some(1700000000)), Some("1700000000".to_string()));
    assert_eq!(modified_at_string(Some(0)), Some("0".to_string()));
    assert_eq!(modified_at_string(None), None);
}

#[test]
fn digests() {
    assert_eq!(
        content_hash(""),
        "af1349b9f5f9a1a6a0404dea36dcc9499bcb25c9adc112b7cc9a93cae41f3262"
    );
    assert_eq!(md5_digest(b""), 0x49c9dc36ea4d40a0a6a1f9f5b94913af);
    assert_eq!(page_hash(""), "49c9dc36ea4d40a0a6a1f9f5b94913af");
    assert_ne!(content_hash("a"), content_hash("b"));
    assert_eq!(content_hash("ä").len(), 64);
}
