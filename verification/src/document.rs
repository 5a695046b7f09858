//! Documents: what is read out of a markdown file, and how searches speak of it.

use crate::number::{decimal, push_numeral};
use crate::paths::{file_stem, is_stem, join_path, opt_text};
use crate::pattern::{repeated, replace, replaced, starts_with};
use crate::pieces::{
    are_pieces, lemma_next_in_shift, lemma_parted_joined, lemma_picked, parted, parts_on, rises,
};
use crate::text::{
    blank, find_in, from_chars, in_class, is_space, join, joined, lemma_next_in, lemma_run_end,
    lemma_texts_push, lemma_trim_of, lines, lines_from, lines_of, next_in, owned, run_end, same,
    skip_run, texts, to_chars, trim, trim_range, trim_start_of, trimmed, CharClass,
};
use vstd::prelude::*;
use vstd::string::*;

verus! {

/// The mirror that is indexed where none is named.
pub const DEFAULT_SOURCE_STR: &'static str =
    "C:\\Users\\Deniz\\Documents\\School\\WMC\\htl-dev-scraper\\htl_dev_backup\\md";

/// The directory of the index where none is named.
pub const DEFAULT_INDEX_DIR: &'static str = ".htldev";

/// The file of the index in its directory.
pub const DEFAULT_INDEX_FILE: &'static str = "index.sqlite3";

/// What the site writes in place of a document that the reader may not see.
pub const PERMISSION_DENIED_PREFIX: &'static str =
    "Error parsing markdown: Error: You do not have the required permissions to view this content.";

/// Whether a document could be read.
#[derive(Debug, Clone, Copy, PartialEq, Eq, Structural)]
pub enum DocumentStatus {
    Okay,
    PermissionDenied,
    ParseError,
}

/// The name under which a status is stored.
pub open spec fn status_name(status: DocumentStatus) -> Seq<char> {
    match status {
        DocumentStatus::Okay => "Ok"@,
        DocumentStatus::PermissionDenied => "PermissionDenied"@,
        DocumentStatus::ParseError => "ParseError"@,
    }
}

/// The status that a stored name stands for; an unknown name counts as readable.
pub open spec fn status_from_name(name: Seq<char>) -> DocumentStatus {
    if name == "PermissionDenied"@ {
        DocumentStatus::PermissionDenied
    } else if name == "ParseError"@ {
        DocumentStatus::ParseError
    } else {
        DocumentStatus::Okay
    }
}

impl DocumentStatus {
    /// The name under which the status is stored.
    pub fn as_str(self) -> (r: &'static str)
        ensures
            r@ == status_name(self),
    {
        match self {
            DocumentStatus::Okay => "Ok",
            DocumentStatus::PermissionDenied => "PermissionDenied",
            DocumentStatus::ParseError => "ParseError",
        }
    }

    /// The status that a stored name stands for.
    pub fn from_db(value: &str) -> (r: Self)
        ensures
            r == status_from_name(value@),
    {
        if same(value, "PermissionDenied") {
            DocumentStatus::PermissionDenied
        } else if same(value, "ParseError") {
            DocumentStatus::ParseError
        } else {
            DocumentStatus::Okay
        }
    }
}

/// Reading a status back from the name it is stored under gives the status.
pub proof fn law_status_round_trip(status: DocumentStatus)
    ensures
        status_from_name(status_name(status)) == status,
{
    reveal_strlit("Ok");
    reveal_strlit("PermissionDenied");
    reveal_strlit("ParseError");
    assert("Ok"@.len() != "PermissionDenied"@.len());
    assert("Ok"@.len() != "ParseError"@.len());
    assert("PermissionDenied"@.len() != "ParseError"@.len());
}

/// A document as it is indexed.
#[derive(Debug, Clone)]
pub struct DocumentRecord {
    pub rel_path: String,
    pub display_path: String,
    pub title: String,
    pub body: String,
    pub headings: Vec<String>,
    pub links: Vec<String>,
    pub status: DocumentStatus,
    pub modified_at: Option<String>,
    pub hash: String,
}

/// How the text of a query is looked for.
#[derive(Debug, Clone, Copy, PartialEq, Eq, Structural)]
pub enum SearchMode {
    FullText,
    Regex,
}

/// A search.
#[derive(Debug, Clone)]
pub struct SearchQuery {
    pub text: String,
    pub mode: SearchMode,
    pub path_filter: Option<String>,
    pub limit: usize,
}

/// A document that a search found. The score is held as it is shown.
#[derive(Debug, Clone)]
pub struct SearchHit {
    pub doc_id: i64,
    pub path: String,
    pub title: String,
    pub score: Option<String>,
    pub snippet: String,
    pub line_matches: Vec<LineMatch>,
}

/// A line that a regular expression matched, and its number from one on.
#[derive(Debug, Clone)]
pub struct LineMatch {
    pub line_number: usize,
    pub line: String,
}

/// A document by its texts.
#[verifier::ext_equal]
pub struct RecordView {
    pub rel_path: Seq<char>,
    pub display_path: Seq<char>,
    pub title: Seq<char>,
    pub body: Seq<char>,
    pub headings: Seq<Seq<char>>,
    pub links: Seq<Seq<char>>,
    pub status: DocumentStatus,
    pub modified_at: Option<Seq<char>>,
    pub hash: Seq<char>,
}

impl View for DocumentRecord {
    type V = RecordView;

    open spec fn view(&self) -> RecordView {
        RecordView {
            rel_path: self.rel_path@,
            display_path: self.display_path@,
            title: self.title@,
            body: self.body@,
            headings: texts(self.headings@),
            links: texts(self.links@),
            status: self.status,
            modified_at: opt_text(self.modified_at),
            hash: self.hash@,
        }
    }
}

/// A line with its number.
#[verifier::ext_equal]
pub struct LineView {
    pub number: int,
    pub line: Seq<char>,
}

impl View for LineMatch {
    type V = LineView;

    open spec fn view(&self) -> LineView {
        LineView { number: self.line_number as int, line: self.line@ }
    }
}

/// The lines by their texts.
pub open spec fn line_views(v: Seq<LineMatch>) -> Seq<LineView> {
    Seq::new(v.len(), |i: int| v[i]@)
}

/// A hit by its texts.
#[verifier::ext_equal]
pub struct HitView {
    pub doc_id: i64,
    pub path: Seq<char>,
    pub title: Seq<char>,
    pub score: Option<Seq<char>>,
    pub snippet: Seq<char>,
    pub line_matches: Seq<LineView>,
}

impl View for SearchHit {
    type V = HitView;

    open spec fn view(&self) -> HitView {
        HitView {
            doc_id: self.doc_id,
            path: self.path@,
            title: self.title@,
            score: opt_text(self.score),
            snippet: self.snippet@,
            line_matches: line_views(self.line_matches@),
        }
    }
}

/// The hits by their texts.
pub open spec fn hit_views(v: Seq<SearchHit>) -> Seq<HitView> {
    Seq::new(v.len(), |i: int| v[i]@)
}

/// The mirror that is indexed where none is named.
pub fn default_source_path() -> (r: String)
    ensures
        r@ == DEFAULT_SOURCE_STR@,
{
    owned(DEFAULT_SOURCE_STR)
}

/// Whether `path` is the index in its default place.
pub open spec fn is_default_index_path(path: Seq<char>) -> bool {
    path == DEFAULT_INDEX_DIR@ + "/"@ + DEFAULT_INDEX_FILE@ || path == DEFAULT_INDEX_DIR@ + "\\"@
        + DEFAULT_INDEX_FILE@
}

/// The index where none is named, with the separator of the system.
pub fn default_index_path() -> (r: String)
    ensures
        is_default_index_path(r@),
{
    proof {
        reveal_strlit(".htldev");
        reveal_strlit("index.sqlite3");
    }
    join_path(DEFAULT_INDEX_DIR, DEFAULT_INDEX_FILE)
}

/// A relative path as it is shown: with slashes.
pub fn display_path_from_rel(rel_path: &str) -> (r: String)
    ensures
        r@ == replaced(rel_path@, "\\"@, "/"@),
{
    replace(rel_path, "\\", "/")
}

/// A time of modification, given in seconds since the epoch, as it is stored.
pub fn modified_at_string(seconds: Option<u64>) -> (r: Option<String>)
    ensures
        opt_text(r) == (match seconds {
            Some(n) => Some(decimal(n as int)),
            None => None,
        }),
{
    match seconds {
        Some(n) => {
            let mut out: String = String::new();
            push_numeral(&mut out, n as u128, 10);
            assert(out@ =~= decimal(n as int));
            Some(out)
        },
        None => None,
    }
}

// ---------------------------------------------------------------------------
// Status, title, headings and links
// ---------------------------------------------------------------------------

/// The status of a document, by its content.
pub open spec fn content_status(content: Seq<char>) -> DocumentStatus {
    if PERMISSION_DENIED_PREFIX@.is_prefix_of(trimmed(content)) {
        DocumentStatus::PermissionDenied
    } else {
        DocumentStatus::Okay
    }
}

/// The status of a document, by its content.
pub fn detect_status(content: &str) -> (r: DocumentStatus)
    ensures
        r == content_status(content@),
{
    let t: String = trim(content);
    if starts_with(t.as_str(), PERMISSION_DENIED_PREFIX) {
        DocumentStatus::PermissionDenied
    } else {
        DocumentStatus::Okay
    }
}

/// The title that a line gives: what follows `# `, where that is not blank.
pub open spec fn line_title(line: Seq<char>) -> Option<Seq<char>> {
    let t = trimmed(line);
    if "# "@.is_prefix_of(t) && trimmed(t.skip(2)).len() > 0 {
        Some(trimmed(t.skip(2)))
    } else {
        None
    }
}

/// The title that the first line to give one gives.
pub open spec fn first_title(v: Seq<Seq<char>>) -> Option<Seq<char>>
    decreases v.len(),
{
    if v.len() == 0 {
        None
    } else if line_title(v[0]) is Some {
        line_title(v[0])
    } else {
        first_title(v.drop_first())
    }
}

/// The title of a document: that of its first heading of the first level, else the
/// stem of its file name, else a fixed word.
pub open spec fn title_of(content: Seq<char>, stem: Option<Seq<char>>) -> Seq<char> {
    match first_title(lines_of(content)) {
        Some(title) => title,
        None => match stem {
            Some(s) => s,
            None => "Untitled"@,
        },
    }
}

/// The title that a line gives.
fn title_in_line(line: &str) -> (r: Option<String>)
    ensures
        opt_text(r) == line_title(line@),
{
    let v: Vec<char> = to_chars(line);
    let (a, b): (usize, usize) = trim_range(&v, CharClass::Space, 0, v.len());
    let ghost t = trimmed(line@);
    proof {
        reveal_strlit("# ");
        assert(v@.subrange(0, v@.len() as int) =~= line@);
        assert(t == v@.subrange(a as int, b as int));
    }
    if b - a < 2 || v[a] != '#' || v[a + 1] != ' ' {
        proof {
            if "# "@.is_prefix_of(t) {
                assert(t[0] == "# "@[0]);
                assert(t[1] == "# "@[1]);
            }
        }
        return None;
    }
    assert("# "@ =~= t.subrange(0, 2));
    let (c, d): (usize, usize) = trim_range(&v, CharClass::Space, a + 2, b);
    assert(v@.subrange(a + 2, b as int) =~= t.skip(2));
    if c == d {
        return None;
    }
    Some(from_chars(&v, c, d))
}

/// The title of a document whose file name has the stem `stem`.
pub fn title_or(content: &str, stem: Option<String>) -> (r: String)
    ensures
        r@ == title_of(content@, opt_text(stem)),
{
    let all: Vec<String> = lines(content);
    let ghost ls = lines_of(content@);
    let mut i: usize = 0;
    assert(ls.skip(0) =~= ls);
    while i < all.len()
        invariant
            texts(all@) == ls,
            ls == lines_of(content@),
            i <= all@.len(),
            first_title(ls) == first_title(ls.skip(i as int)),
        decreases all@.len() - i,
    {
        assert(ls.skip(i as int)[0] == all@[i as int]@);
        assert(ls.skip(i as int).drop_first() =~= ls.skip(i + 1));
        if let Some(title) = title_in_line(all[i].as_str()) {
            return title;
        }
        i += 1;
    }
    assert(first_title(ls) is None);
    match stem {
        Some(s) => s,
        None => owned("Untitled"),
    }
}

/// The title of a document, whose file name stands in for one that it lacks.
///
/// The file name is taken from the path as the system reads it.
pub fn extract_title(content: &str, fallback_path: &str) -> (r: String)
    ensures
        exists|stem: Option<Seq<char>>|
            is_stem(fallback_path@, stem) && r@ == #[trigger] title_of(content@, stem),
{
    let stem: Option<String> = file_stem(fallback_path);
    title_or(content, stem)
}

/// The heading that a line gives: what follows its number signs, where that is not
/// blank.
pub open spec fn line_heading(line: Seq<char>) -> Option<Seq<char>> {
    let t = trimmed(line);
    let h = trimmed(trim_start_of(t, CharClass::Just('#')));
    if t.len() > 0 && t[0] == '#' && h.len() > 0 {
        Some(h)
    } else {
        None
    }
}

/// The headings of a document.
pub open spec fn headings_of(content: Seq<char>) -> Seq<Seq<char>> {
    lines_of(content).filter_map(|line: Seq<char>| line_heading(line))
}

/// The heading that a line gives.
fn heading_in_line(line: &str) -> (r: Option<String>)
    ensures
        opt_text(r) == line_heading(line@),
{
    let v: Vec<char> = to_chars(line);
    let (a, b): (usize, usize) = trim_range(&v, CharClass::Space, 0, v.len());
    let ghost t = trimmed(line@);
    proof {
        assert(v@.subrange(0, v@.len() as int) =~= line@);
        assert(t == v@.subrange(a as int, b as int));
    }
    if a == b || v[a] != '#' {
        return None;
    }
    let m: usize = skip_run(&v, CharClass::Just('#'), a, b);
    assert(v@.subrange(m as int, b as int) =~= trim_start_of(t, CharClass::Just('#')));
    let (c, d): (usize, usize) = trim_range(&v, CharClass::Space, m, b);
    if c == d {
        return None;
    }
    Some(from_chars(&v, c, d))
}

/// The headings of a document, of all levels, in order.
pub fn extract_headings(content: &str) -> (r: Vec<String>)
    ensures
        texts(r@) == headings_of(content@),
{
    let all: Vec<String> = lines(content);
    let ghost ls = lines_of(content@);
    let ghost f = |line: Seq<char>| line_heading(line);
    let mut out: Vec<String> = Vec::new();
    let mut i: usize = 0;
    proof {
        reveal(Seq::filter_map);
        assert(texts(out@) =~= ls.take(0).filter_map(f));
    }
    while i < all.len()
        invariant
            texts(all@) == ls,
            f == (|line: Seq<char>| line_heading(line)),
            i <= all@.len(),
            texts(out@) == ls.take(i as int).filter_map(f),
        decreases all@.len() - i,
    {
        proof {
            reveal(Seq::filter_map);
            assert(ls.take(i + 1).drop_last() =~= ls.take(i as int));
            assert(ls.take(i + 1).last() == all@[i as int]@);
        }
        if let Some(h) = heading_in_line(all[i].as_str()) {
            let ghost before = out@;
            out.push(h);
            proof {
                lemma_texts_push(before, h);
                assert(texts(out@) =~= ls.take(i as int).filter_map(f) + seq![h@]);
            }
        }
        i += 1;
    }
    assert(ls.take(i as int) =~= ls);
    out
}

/// The targets of the links from position `i` on: `[`, anything up to `](`, and
/// the target up to `)`, without white space around it, where it is not blank.
pub open spec fn links_from(s: Seq<char>, i: int) -> Seq<Seq<char>>
    decreases s.len() - i,
{
    if i < 0 || i >= s.len() {
        seq![]
    } else {
        let j = next_in(s, CharClass::Just(']'), i + 1);
        let k = next_in(s, CharClass::Just(')'), j + 2);
        if s[i] == '[' && i < j && j + 1 < s.len() && s[j + 1] == '(' && j + 2 <= k < s.len() {
            let link = trimmed(s.subrange(j + 2, k));
            (if link.len() > 0 {
                seq![link]
            } else {
                seq![]
            }) + links_from(s, k + 1)
        } else {
            links_from(s, i + 1)
        }
    }
}

/// The targets of the links of a document.
pub open spec fn links_of(content: Seq<char>) -> Seq<Seq<char>> {
    links_from(content, 0)
}

/// The targets of the links of a document, in order.
pub fn extract_links(content: &str) -> (r: Vec<String>)
    ensures
        texts(r@) == links_of(content@),
{
    let v: Vec<char> = to_chars(content);
    let n: usize = v.len();
    let mut out: Vec<String> = Vec::new();
    let mut i: usize = 0;
    assert(texts(out@) =~= seq![]);
    while i < n
        invariant
            v@ == content@,
            n == v@.len(),
            i <= n,
            texts(out@) + links_from(content@, i as int) =~= links_of(content@),
        decreases n - i,
    {
        if v[i] == '[' {
            let j: usize = find_in(&v, CharClass::Just(']'), i + 1);
            if j < n && n - j > 1 && v[j + 1] == '(' {
                let k: usize = find_in(&v, CharClass::Just(')'), j + 2);
                if k < n {
                    let (a, b): (usize, usize) = trim_range(&v, CharClass::Space, j + 2, k);
                    if a < b {
                        let link: String = from_chars(&v, a, b);
                        let ghost before = out@;
                        out.push(link);
                        proof {
                            lemma_texts_push(before, link);
                        }
                    }
                    i = k + 1;
                    continue;
                }
            }
        }
        i += 1;
    }
    assert(links_from(content@, i as int) =~= seq![]);
    out
}

// ---------------------------------------------------------------------------
// Lists of lines
// ---------------------------------------------------------------------------

/// The lines as one text.
pub fn join_lines(lines: &Vec<String>) -> (r: String)
    ensures
        r@ == joined(texts(lines@), "\n"@),
{
    join(lines, "\n")
}

/// The lines of a text, without the empty ones.
pub fn split_lines(value: &str) -> (r: Vec<String>)
    ensures
        texts(r@) == parted(value@, '\n'),
{
    parts_on(value, '\n')
}

/// Lines that are not empty and hold no line feed come back from one text.
pub proof fn law_lines_round_trip(v: Seq<Seq<char>>)
    requires
        are_pieces(v, '\n'),
    ensures
        parted(joined(v, "\n"@), '\n') == v,
{
    reveal_strlit("\n");
    assert("\n"@ =~= seq!['\n']);
    lemma_parted_joined(v, '\n');
}

/// No line holds a line feed.
pub proof fn lemma_lines_hold_no_break(s: Seq<char>, i: int)
    requires
        0 <= i,
    ensures
        forall|k: int| 0 <= k < lines_from(s, i).len() ==> !(#[trigger] lines_from(s, i)[k]).contains('\n'),
    decreases s.len() - i,
{
    if i < s.len() {
        let j = next_in(s, CharClass::Just('\n'), i);
        lemma_next_in(s, CharClass::Just('\n'), i);
        let line = s.subrange(i, j);
        assert forall|m: int| 0 <= m < line.len() implies line[m] != '\n' by {
            assert(line[m] == s[i + m]);
        }
        if j < s.len() {
            lemma_lines_hold_no_break(s, j + 1);
            let rest = lines_from(s, j + 1);
            assert forall|k: int| 0 <= k < lines_from(s, i).len() implies !(
            #[trigger] lines_from(s, i)[k]).contains('\n') by {
                if k > 0 {
                    assert(lines_from(s, i)[k] == rest[k - 1]);
                }
            }
        }
    }
}

proof fn lemma_headings_are_pieces(v: Seq<Seq<char>>)
    requires
        forall|k: int| 0 <= k < v.len() ==> !(#[trigger] v[k]).contains('\n'),
    ensures
        are_pieces(v.filter_map(|line: Seq<char>| line_heading(line)), '\n'),
    decreases v.len(),
{
    let f = |line: Seq<char>| line_heading(line);
    reveal(Seq::filter_map);
    if v.len() > 0 {
        assert forall|k: int| 0 <= k < v.drop_last().len() implies !(
        #[trigger] v.drop_last()[k]).contains('\n') by {
            assert(v.drop_last()[k] == v[k]);
        }
        lemma_headings_are_pieces(v.drop_last());
        let line = v[v.len() - 1];
        if f(line) is Some {
            let (a, b) = lemma_trim_of(line, CharClass::Space);
            let t = trimmed(line);
            let u = trim_start_of(t, CharClass::Just('#'));
            lemma_run_end(t, CharClass::Just('#'), 0);
            let (c, d) = lemma_trim_of(u, CharClass::Space);
            let h = trimmed(u);
            let off = run_end(t, CharClass::Just('#'), 0);
            assert forall|m: int| 0 <= m < h.len() implies h[m] != '\n' by {
                assert(h[m] == line[a + off + c + m]);
            }
        }
    }
}

/// The headings of a document are lists of lines that come back from one text.
pub proof fn law_headings_are_lines(content: Seq<char>)
    ensures
        are_pieces(headings_of(content), '\n'),
        parted(joined(headings_of(content), "\n"@), '\n') == headings_of(content),
{
    lemma_lines_hold_no_break(content, 0);
    lemma_headings_are_pieces(lines_of(content));
    law_lines_round_trip(headings_of(content));
}

proof fn lemma_links_are_not_empty(s: Seq<char>, i: int)
    ensures
        forall|k: int| 0 <= k < links_from(s, i).len() ==> (#[trigger] links_from(s, i)[k]).len() > 0,
    decreases s.len() - i,
{
    if 0 <= i < s.len() {
        let j = next_in(s, CharClass::Just(']'), i + 1);
        let k = next_in(s, CharClass::Just(')'), j + 2);
        if s[i] == '[' && i < j && j + 1 < s.len() && s[j + 1] == '(' && j + 2 <= k < s.len() {
            lemma_links_are_not_empty(s, k + 1);
            let rest = links_from(s, k + 1);
            let link = trimmed(s.subrange(j + 2, k));
            assert forall|m: int| 0 <= m < links_from(s, i).len() implies (
            #[trigger] links_from(s, i)[m]).len() > 0 by {
                if link.len() == 0 {
                    assert(links_from(s, i) =~= rest);
                } else if m > 0 {
                    assert(links_from(s, i)[m] == rest[m - 1]);
                }
            }
        } else {
            lemma_links_are_not_empty(s, i + 1);
            assert(links_from(s, i) == links_from(s, i + 1));
        }
    } else {
        assert(links_from(s, i) =~= seq![]);
    }
}

/// The links of a document come back from one text where none runs over a line's end.
pub proof fn law_links_are_lines(content: Seq<char>)
    requires
        forall|k: int| 0 <= k < links_of(content).len() ==> !(#[trigger] links_of(content)[k]).contains('\n'),
    ensures
        are_pieces(links_of(content), '\n'),
        parted(joined(links_of(content), "\n"@), '\n') == links_of(content),
{
    lemma_links_are_not_empty(content, 0);
    law_lines_round_trip(links_of(content));
}

// ---------------------------------------------------------------------------
// Laws of reading
// ---------------------------------------------------------------------------

/// A document is one that the reader may not see exactly where, after white space, it
/// begins with the site's message.
pub proof fn law_status_follows_the_message(content: Seq<char>)
    ensures
        content_status(content) == DocumentStatus::PermissionDenied <==> exists|n: int|
            {
                &&& 0 <= n <= content.len()
                &&& PERMISSION_DENIED_PREFIX@.is_prefix_of(#[trigger] content.skip(n))
                &&& forall|i: int| 0 <= i < n ==> is_space(#[trigger] content[i])
            },
        content_status(content) != DocumentStatus::PermissionDenied ==> content_status(content)
            == DocumentStatus::Okay,
{
    let p = PERMISSION_DENIED_PREFIX@;
    reveal_strlit(
        "Error parsing markdown: Error: You do not have the required permissions to view this content.",
    );
    let (lo, hi) = lemma_trim_of(content, CharClass::Space);
    let t = trimmed(content);
    assert(!is_space(p[0]) && !is_space(p.last()));
    if p.is_prefix_of(t) {
        assert(p =~= content.skip(lo).subrange(0, p.len() as int)) by {
            assert forall|i: int| 0 <= i < p.len() implies p[i] == content.skip(lo)[i] by {
                assert(t.subrange(0, p.len() as int)[i] == t[i]);
            }
        }
        assert(p.is_prefix_of(content.skip(lo)));
    }
    if exists|n: int|
        {
            &&& 0 <= n <= content.len()
            &&& p.is_prefix_of(#[trigger] content.skip(n))
            &&& forall|i: int| 0 <= i < n ==> is_space(#[trigger] content[i])
        } {
        let n = choose|n: int|
            {
                &&& 0 <= n <= content.len()
                &&& p.is_prefix_of(#[trigger] content.skip(n))
                &&& forall|i: int| 0 <= i < n ==> is_space(#[trigger] content[i])
            };
        let q = content.skip(n);
        assert forall|i: int| 0 <= i < p.len() implies #[trigger] p[i] == content[n + i] by {
            assert(q.subrange(0, p.len() as int)[i] == q[i]);
        }
        assert(p[0] == content[n]);
        assert(p[p.len() - 1] == content[n + p.len() - 1]);
        assert(lo <= n && n < hi);
        assert(t[0] == content[lo]);
        assert(lo == n);
        assert(n + p.len() <= hi);
        assert(p =~= t.subrange(0, p.len() as int));
    }
}

/// The title of a document is what follows the number sign and the blank of the first line
/// that begins with them, white space aside. Where no line does, it is the stem of the file
/// name, or a fixed word where that has none.
pub proof fn law_title(content: Seq<char>, stem: Option<Seq<char>>, k: int)
    ensures
        0 <= k < lines_of(content).len() && "# "@.is_prefix_of(trimmed(lines_of(content)[k])) && (
        forall|j: int| 0 <= j < k ==> !"# "@.is_prefix_of(trimmed(#[trigger] lines_of(content)[j])))
            ==> title_of(content, stem) == trimmed(trimmed(lines_of(content)[k]).skip(2)),
        (forall|j: int|
            0 <= j < lines_of(content).len() ==> !"# "@.is_prefix_of(
                trimmed(#[trigger] lines_of(content)[j]),
            )) ==> title_of(content, stem) == (match stem {
            Some(s) => s,
            None => "Untitled"@,
        }),
{
    let ls = lines_of(content);
    if 0 <= k < ls.len() && "# "@.is_prefix_of(trimmed(ls[k])) && (forall|j: int|
        0 <= j < k ==> !"# "@.is_prefix_of(trimmed(#[trigger] ls[j]))) {
        lemma_line_title(ls[k]);
        lemma_first_title(ls, k);
    }
    if forall|j: int| 0 <= j < ls.len() ==> !"# "@.is_prefix_of(trimmed(#[trigger] ls[j])) {
        lemma_no_title(ls);
    }
}

proof fn lemma_line_title(line: Seq<char>)
    requires
        "# "@.is_prefix_of(trimmed(line)),
    ensures
        line_title(line) == Some(trimmed(trimmed(line).skip(2))),
{
    reveal_strlit("# ");
    let t = trimmed(line);
    lemma_trim_of(line, CharClass::Space);
    assert(t.subrange(0, 2)[1] == ' ');
    assert(t[1] == ' ');
    assert(t.len() > 2);
    let rest = t.skip(2);
    let (a, b) = lemma_trim_of(rest, CharClass::Space);
    assert(rest[rest.len() - 1] == t.last());
}

proof fn lemma_first_title(ls: Seq<Seq<char>>, k: int)
    requires
        0 <= k < ls.len(),
        line_title(ls[k]) is Some,
        forall|j: int| 0 <= j < k ==> !"# "@.is_prefix_of(trimmed(#[trigger] ls[j])),
    ensures
        first_title(ls) == line_title(ls[k]),
    decreases k,
{
    if k > 0 {
        assert(!"# "@.is_prefix_of(trimmed(ls[0])));
        assert forall|j: int| 0 <= j < k - 1 implies !"# "@.is_prefix_of(
            trimmed(#[trigger] ls.drop_first()[j]),
        ) by {
            assert(ls.drop_first()[j] == ls[j + 1]);
        }
        lemma_first_title(ls.drop_first(), k - 1);
    }
}

proof fn lemma_no_title(ls: Seq<Seq<char>>)
    requires
        forall|j: int| 0 <= j < ls.len() ==> !"# "@.is_prefix_of(trimmed(#[trigger] ls[j])),
    ensures
        first_title(ls) is None,
    decreases ls.len(),
{
    if ls.len() > 0 {
        assert(!"# "@.is_prefix_of(trimmed(ls[0])));
        assert forall|j: int| 0 <= j < ls.len() - 1 implies !"# "@.is_prefix_of(
            trimmed(#[trigger] ls.drop_first()[j]),
        ) by {
            assert(ls.drop_first()[j] == ls[j + 1]);
        }
        lemma_no_title(ls.drop_first());
    }
}

/// Whether a line is a heading with a text: it begins with number signs, white space
/// aside, and something else follows them.
pub open spec fn is_heading(line: Seq<char>, heading: Seq<char>) -> bool {
    exists|n: nat, rest: Seq<char>|
        {
            &&& n > 0
            &&& trimmed(line) == #[trigger] (repeated(seq!['#'], n) + rest)
            &&& rest.len() > 0 ==> rest[0] != '#'
            &&& !blank(rest)
            &&& heading == trimmed(rest)
        }
}

/// The headings of a document are those of its lines, every one of them and in order.
pub proof fn law_headings(content: Seq<char>)
    ensures
        exists|at: Seq<int>|
            {
                &&& #[trigger] rises(at)
                &&& at.len() == headings_of(content).len()
                &&& forall|k: int|
                    0 <= k < at.len() ==> 0 <= #[trigger] at[k] < lines_of(content).len() && is_heading(
                        lines_of(content)[at[k]],
                        headings_of(content)[k],
                    )
                &&& forall|i: int, heading: Seq<char>|
                    0 <= i < lines_of(content).len() && #[trigger] is_heading(
                        lines_of(content)[i],
                        heading,
                    ) ==> at.contains(i)
            },
{
    let ls = lines_of(content);
    let f = |line: Seq<char>| line_heading(line);
    let at = lemma_picked(ls, f);
    let keep = |i: int| f(ls[i]) is Some;
    assert forall|k: int| 0 <= k < at.len() implies 0 <= #[trigger] at[k] < ls.len() && is_heading(
        ls[at[k]],
        headings_of(content)[k],
    ) by {
        assert(keep(at[k]));
        lemma_heading(ls[at[k]], headings_of(content)[k]);
    }
    assert forall|i: int, heading: Seq<char>|
        0 <= i < ls.len() && #[trigger] is_heading(ls[i], heading) implies at.contains(i) by {
        lemma_heading(ls[i], heading);
        assert(keep(i));
    }
    assert(rises(at));
}

proof fn lemma_heading(line: Seq<char>, heading: Seq<char>)
    ensures
        line_heading(line) == Some(heading) <==> is_heading(line, heading),
{
    let t = trimmed(line);
    let k = CharClass::Just('#');
    let m = run_end(t, k, 0);
    lemma_run_end(t, k, 0);
    if line_heading(line) == Some(heading) {
        let rest = t.skip(m);
        lemma_signs(m as nat);
        assert(t =~= repeated(seq!['#'], m as nat) + rest);
        assert(in_class(k, t[0]));
        assert(m > 0);
    }
    if is_heading(line, heading) {
        let (n, rest) = choose|n: nat, rest: Seq<char>|
            {
                &&& n > 0
                &&& t == #[trigger] (repeated(seq!['#'], n) + rest)
                &&& rest.len() > 0 ==> rest[0] != '#'
                &&& !blank(rest)
                &&& heading == trimmed(rest)
            };
        lemma_signs(n);
        assert(t[0] == repeated(seq!['#'], n)[0]);
        if m < n {
            assert(t[m] == repeated(seq!['#'], n)[m]);
        }
        if m > n {
            assert(in_class(k, t[n as int]));
            assert(t[n as int] == rest[0]);
        }
        assert(m == n);
        assert(t.skip(m) =~= rest);
    }
}

proof fn lemma_signs(n: nat)
    ensures
        repeated(seq!['#'], n).len() == n,
        forall|i: int| 0 <= i < n ==> #[trigger] repeated(seq!['#'], n)[i] == '#',
    decreases n,
{
    if n > 0 {
        lemma_signs((n - 1) as nat);
    }
}

proof fn lemma_links_shift(a: Seq<char>, t: Seq<char>, i: int)
    requires
        0 <= i <= t.len(),
    ensures
        links_from(a + t, a.len() + i) == links_from(t, i),
    decreases t.len() - i,
{
    let s = a + t;
    if i < t.len() {
        let n = a.len() as int;
        lemma_next_in_shift(a, t, CharClass::Just(']'), i + 1);
        let j = next_in(t, CharClass::Just(']'), i + 1);
        lemma_next_in(t, CharClass::Just(']'), i + 1);
        assert(s[n + i] == t[i]);
        if j + 1 < t.len() {
            assert(s[n + j + 1] == t[j + 1]);
            lemma_next_in_shift(a, t, CharClass::Just(')'), j + 2);
            lemma_next_in(t, CharClass::Just(')'), j + 2);
            let k = next_in(t, CharClass::Just(')'), j + 2);
            if k < t.len() {
                assert(s.subrange(n + j + 2, n + k) =~= t.subrange(j + 2, k));
                lemma_links_shift(a, t, k + 1);
            }
        }
        lemma_links_shift(a, t, i + 1);
    }
}

proof fn lemma_no_links(s: Seq<char>, i: int, n: int)
    requires
        0 <= i <= n <= s.len(),
        forall|m: int| i <= m < n ==> #[trigger] s[m] != '[',
    ensures
        links_from(s, i) == links_from(s, n),
    decreases n - i,
{
    if i < n {
        lemma_no_links(s, i + 1, n);
    }
}

/// A link of a document is a text in square brackets with a target in round brackets right
/// behind it. Its target is found, white space aside, unless it is blank, and so are the
/// links behind it; a text without an opening square bracket holds none.
pub proof fn law_links(a: Seq<char>, x: Seq<char>, y: Seq<char>, b: Seq<char>)
    requires
        !a.contains('['),
        !x.contains(']'),
        !y.contains(')'),
    ensures
        links_of(a) == Seq::<Seq<char>>::empty(),
        links_of(a + seq!['['] + x + seq![']', '('] + y + seq![')'] + b) == (if blank(y) {
            Seq::<Seq<char>>::empty()
        } else {
            seq![trimmed(y)]
        }) + links_of(b),
{
    assert forall|m: int| 0 <= m < a.len() implies #[trigger] a[m] != '[' by {
        assert(a.contains(a[m]));
    }
    lemma_no_links(a, 0, a.len() as int);
    assert(links_from(a, a.len() as int) =~= Seq::<Seq<char>>::empty());
    let front = a + seq!['['] + x + seq![']', '('] + y + seq![')'];
    let s = front + b;
    let n = a.len() as int;
    let j = n + 1 + x.len();
    let k = j + 2 + y.len();
    assert forall|m: int| 0 <= m < n implies #[trigger] s[m] != '[' by {
        assert(s[m] == a[m]);
    }
    lemma_no_links(s, 0, n);
    assert(s[n] == '[');
    assert forall|m: int| n + 1 <= m < j implies #[trigger] s[m] != ']' by {
        assert(s[m] == x[m - n - 1]);
        assert(x.contains(x[m - n - 1]));
    }
    assert(s[j] == ']' && s[j + 1] == '(');
    lemma_next_in_is(s, ']', n + 1, j);
    assert forall|m: int| j + 2 <= m < k implies #[trigger] s[m] != ')' by {
        assert(s[m] == y[m - j - 2]);
        assert(y.contains(y[m - j - 2]));
    }
    assert(s[k] == ')');
    lemma_next_in_is(s, ')', j + 2, k);
    assert(s.subrange(j + 2, k) =~= y);
    lemma_links_shift(front, b, 0);
    assert(front.len() == k + 1);
}

proof fn lemma_next_in_is(s: Seq<char>, c: char, i: int, j: int)
    requires
        0 <= i <= j < s.len(),
        s[j] == c,
        forall|m: int| i <= m < j ==> #[trigger] s[m] != c,
    ensures
        next_in(s, CharClass::Just(c), i) == j,
    decreases j - i,
{
    if i < j {
        lemma_next_in_is(s, c, i + 1, j);
    }
}

/// The names that statuses are stored under differ, and any other name counts as that of a
/// document that can be read.
pub proof fn law_status_names(name: Seq<char>)
    ensures
        status_from_name(name) == DocumentStatus::PermissionDenied <==> name == status_name(
            DocumentStatus::PermissionDenied,
        ),
        status_from_name(name) == DocumentStatus::ParseError <==> name == status_name(
            DocumentStatus::ParseError,
        ),
{
    law_status_round_trip(DocumentStatus::ParseError);
    law_status_round_trip(DocumentStatus::PermissionDenied);
}

/// The index lies in its own directory where none is named, with the separator of the system.
pub proof fn law_default_index(path: Seq<char>)
    ensures
        is_default_index_path(path) <==> path == ".htldev/index.sqlite3"@ || path
            == ".htldev\\index.sqlite3"@,
{
    reveal_strlit(".htldev");
    reveal_strlit("index.sqlite3");
    reveal_strlit("/");
    reveal_strlit("\\");
    reveal_strlit(".htldev/index.sqlite3");
    reveal_strlit(".htldev\\index.sqlite3");
    assert(".htldev"@ + "/"@ + "index.sqlite3"@ =~= ".htldev/index.sqlite3"@);
    assert(".htldev"@ + "\\"@ + "index.sqlite3"@ =~= ".htldev\\index.sqlite3"@);
}

} // verus!
