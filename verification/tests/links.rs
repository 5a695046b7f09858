use htldev::highlight::{cut_spans, highlight_line, mark_characters, tokens_of, TextSpan};
use htldev::links::{depth_of, last_part_of, normalize_url, percent_encode, url_decode};

#[test]
fn decoding() {
    assert_eq!(url_decode("/md/a%20b.md"), "/md/a b.md");
    assert_eq!(url_decode("100%"), "100%");
    assert_eq!(url_decode("%4"), "%4");
    assert_eq!(url_decode("%41"), "A");
    assert_eq!(url_decode("%zz"), "%zz");
    assert_eq!(url_decode("%c3%a4"), "\u{c3}\u{a4}");
    assert_eq!(url_decode("%+1"), "\u{1}");
}

#[test]
fn encoding() {
    assert_eq!(percent_encode("a b/c_d-e.f~g.md"), "a%20b/c_d-e.f~g.md");
    assert_eq!(percent_encode("ä?"), "%C3%A4%3F");
    assert_eq!(percent_encode(""), "");
}

#[test]
fn decoding_undoes_encoding_of_ascii() {
    let s = "a b?c=d&e%f#g.md";
    assert_eq!(url_decode(&percent_encode(s)), s);
}

#[test]
fn links_become_relative() {
    assert_eq!(normalize_url("/md/a/b.md", "/md/a", false), "b.md");
    assert_eq!(normalize_url("/md/a/b.md", "/md/c", false), "../a/b.md");
    assert_eq!(normalize_url("/md/b.md", "/md/c/d", false), "../../b.md");
    assert_eq!(normalize_url("https://htl.dev/md/a.md?x=1", "/md", false), "a.md");
    assert_eq!(normalize_url("https://www.htl.dev/md/a%20b.md", "/md", false), "a b.md");
    assert_eq!(normalize_url("https://example.com/md/a.md", "/md", false), "https://example.com/md/a.md");
    assert_eq!(normalize_url("", "/md", false), "");
    assert_eq!(normalize_url("other.md", "/md", false), "other.md");
    assert_eq!(normalize_url("#part", "/md", false), "#part");
    assert_eq!(normalize_url("/about", "/md", false), "/about");
}

#[test]
fn assets_become_relative() {
    assert_eq!(normalize_url("/md/assets/x.png", "/md/a/b", true), "../../assets/x.png");
    assert_eq!(normalize_url("https://htl.dev/md/assets/d/x.png?v=1", "/md", true), "assets/x.png");
    assert_eq!(normalize_url("/md/assets/x.png", "/md/a", false), "/md/assets/x.png");
    assert_eq!(depth_of("/md/a/b"), 2);
    assert_eq!(last_part_of("a/b/"), "");
}

fn shown(text: &str, query: &str) -> Vec<(String, bool)> {
    highlight_line(text, query)
        .into_iter()
        .map(|span| (span.text, span.highlighted))
        .collect()
}

fn span(text: &str, highlighted: bool) -> (String, bool) {
    (text.to_string(), highlighted)
}

#[test]
fn words_of_the_query_are_highlighted() {
    assert_eq!(
        shown("Use Docker compose", "docker COMPOSE"),
        vec![span("Use ", false), span("Docker", true), span(" ", false), span("compose", true)]
    );
    assert_eq!(shown("abcd", "abc bcd"), vec![span("abcd", true)]);
    assert_eq!(shown("abcdef", "ab cd"), vec![span("abcd", true), span("ef", false)]);
    assert_eq!(shown("nothing", "docker"), vec![span("nothing", false)]);
    assert_eq!(shown("nothing", "  "), vec![span("nothing", false)]);
    assert_eq!(shown("aaa", "aa"), vec![span("aaa", true)]);
    assert_eq!(shown("", "a"), vec![span("", false)]);
    assert_eq!(shown("Über", "über"), vec![span("Über", true)]);
    assert_eq!(tokens_of(" A  b "), vec!["a", "b"]);
}

#[test]
fn highlighted_spans_make_up_the_line() {
    let line = "Grüße aus der HTL: Docker, docker.";
    let whole: String = shown(line, "docker htl").into_iter().map(|(text, _)| text).collect();
    assert_eq!(whole, line);
}

#[test]
fn characters_whose_lower_case_form_is_longer_keep_their_place() {
    assert_eq!(shown("\u{130}x", "x"), vec![span("\u{130}", false), span("x", true)]);
    assert_eq!(
        shown("\u{130}ab", "a"),
        vec![span("\u{130}", false), span("a", true), span("b", false)]
    );
    assert_eq!(shown("x\u{130}y", "i"), vec![span("x", false), span("\u{130}", true), span("y", false)]);
    assert_eq!(shown("\u{130}\u{130}ä", "Ä"), vec![span("\u{130}\u{130}", false), span("ä", true)]);
    assert_eq!(shown("\u{212a}elvin", "kelvin"), vec![span("\u{212a}elvin", true)]);
}

#[test]
fn letters_may_depend_on_those_around_them() {
    assert_eq!(shown("ΟΔΟΣ x", "οδος"), vec![span("ΟΔΟΣ", true), span(" x", false)]);
    assert_eq!(shown("x οδος", "ΟΔΟΣ"), vec![span("x ", false), span("οδος", true)]);
}

#[test]
fn marks_follow_from_forms_and_widths() {
    let form: Vec<char> = "i\u{307}ab".chars().collect();
    let marks = mark_characters(&form, &vec![2, 1, 1], &vec!["a".to_string()]);
    assert_eq!(marks, vec![false, true, false]);
    let part = mark_characters(&form, &vec![2, 1, 1], &vec!["i".to_string(), "b".to_string()]);
    assert_eq!(part, vec![true, false, true]);
    let spans = cut_spans("xyz", &vec![true, true, false]);
    assert_eq!(spans.len(), 2);
    assert_eq!(spans[0], TextSpan { text: "xy".to_string(), highlighted: true });
    assert_eq!(spans[1], TextSpan { text: "z".to_string(), highlighted: false });
}

/// Where a relative link leads from a directory.
fn follow(dir: &str, link: &str) -> String {
    let mut parts: Vec<&str> = dir.split('/').filter(|p| !p.is_empty()).collect();
    for part in link.split('/') {
        if part == ".." {
            parts.pop();
        } else {
            parts.push(part);
        }
    }
    format!("/{}", parts.join("/"))
}

#[test]
fn relative_links_lead_to_the_page() {
    for dir in ["/md", "/md/a", "/md/a/b", "/md/c/d/e"] {
        for page in ["/md/x.md", "/md/a/x.md", "/md/a/b/c/x.md", "/md/c/y.md"] {
            let link = normalize_url(page, dir, false);
            assert_eq!(follow(dir, &link), page, "{dir} {link}");
        }
    }
}

#[test]
fn separate_occurrences_are_highlighted_whole_and_nothing_else() {
    assert_eq!(
        shown("ab-ab xab", "AB"),
        vec![
            span("ab", true),
            span("-", false),
            span("ab", true),
            span(" x", false),
            span("ab", true)
        ]
    );
}
