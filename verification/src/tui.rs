//! The terminal interface: its state, what a key does to it, and what it shows.

use crate::document::SearchHit;
use crate::highlight::lowercase;
use crate::index::IndexStats;
use crate::number::{count_text, decimal};
use crate::paths::last_at;
use crate::pattern::{contains, has};
use crate::service::PreviewDocument;
use crate::text::{blank, from_chars, is_blank, owned, texts, to_chars, words, words_of};
use vstd::prelude::*;
use vstd::string::*;
use vstd::utf8::*;

verus! {

/// How many results are asked for.
pub const SEARCH_LIMIT: usize = 50;

/// How long the query has to rest before it is searched for, in milliseconds.
pub const DEBOUNCE_MS: u64 = 150;

/// How far a page key scrolls.
pub const PAGE_SCROLL: u16 = 10;

/// What is shown of the keys while there is nothing to say.
pub const HELP: &'static str =
    "[↑↓] select  [Enter] open  [Shift+Enter] browser  [Tab] preview  [PgUp/Dn] scroll  [Alt+R] reindex  [Esc] clear  [Ctrl+C] quit";

/// The state of the interface. Times are in nanoseconds of a clock that never goes
/// back.
#[derive(Debug, Clone)]
pub struct App {
    pub query: String,
    pub results: Vec<SearchHit>,
    pub selected: usize,
    pub preview: Option<PreviewDocument>,
    pub show_preview: bool,
    pub preview_scroll: u16,
    pub status: String,
    pub dirty: bool,
    pub last_edit: u64,
}

/// The state of the interface by its texts.
#[verifier::ext_equal]
pub struct AppView {
    pub query: Seq<char>,
    pub results: Seq<SearchHit>,
    pub selected: int,
    pub preview: Option<PreviewDocument>,
    pub show_preview: bool,
    pub preview_scroll: int,
    pub status: Seq<char>,
    pub dirty: bool,
    pub last_edit: int,
}

impl View for App {
    type V = AppView;

    open spec fn view(&self) -> AppView {
        AppView {
            query: self.query@,
            results: self.results@,
            selected: self.selected as int,
            preview: self.preview,
            show_preview: self.show_preview,
            preview_scroll: self.preview_scroll as int,
            status: self.status@,
            dirty: self.dirty,
            last_edit: self.last_edit as int,
        }
    }
}

impl AppView {
    /// Whether the selection lies among the results, if there are any.
    pub open spec fn wf(self) -> bool {
        self.selected < self.results.len() || self.selected == 0
    }

    /// The state after an edit of the query.
    pub open spec fn edited(self, query: Seq<char>, now: int) -> AppView {
        AppView { query, dirty: true, last_edit: now, ..self }
    }

    /// The state with the selection one up.
    pub open spec fn up(self) -> AppView {
        AppView {
            selected: if self.selected > 0 {
                self.selected - 1
            } else {
                0
            },
            ..self
        }
    }

    /// The state with the selection one down, but not below the last result.
    pub open spec fn down(self) -> AppView {
        if self.results.len() == 0 {
            self
        } else if self.selected + 1 < self.results.len() {
            AppView { selected: self.selected + 1, ..self }
        } else {
            AppView { selected: self.results.len() - 1, ..self }
        }
    }
}

/// A key.
#[derive(Debug, Clone, Copy, PartialEq, Eq, Structural)]
pub enum KeyCode {
    Char(char),
    Tab,
    Up,
    Down,
    Enter,
    PageUp,
    PageDown,
    Esc,
    Backspace,
    Other,
}

/// A key that was pressed, with what was held down.
#[derive(Debug, Clone, Copy, PartialEq, Eq, Structural)]
pub struct KeyPress {
    pub code: KeyCode,
    pub control: bool,
    pub alt: bool,
    pub shift: bool,
}

/// What has to be done after a key.
#[derive(Debug, Clone, Copy, PartialEq, Eq, Structural)]
pub enum KeyAction {
    Nothing,
    Quit,
    RefreshPreview,
    OpenSelected,
    OpenInBrowser,
    RebuildIndex,
}

/// What has to be done after a key.
pub open spec fn key_action(key: KeyPress) -> KeyAction {
    if key.control && key.code == KeyCode::Char('c') {
        KeyAction::Quit
    } else if key.alt && key.code == KeyCode::Char('q') {
        KeyAction::Quit
    } else if key.alt && key.code == KeyCode::Char('r') {
        KeyAction::RebuildIndex
    } else {
        match key.code {
            KeyCode::Up => KeyAction::RefreshPreview,
            KeyCode::Down => KeyAction::RefreshPreview,
            KeyCode::Enter => if key.shift {
                KeyAction::OpenInBrowser
            } else {
                KeyAction::OpenSelected
            },
            _ => KeyAction::Nothing,
        }
    }
}

/// The state after a key.
pub open spec fn after_key(app: AppView, key: KeyPress, now: int) -> AppView {
    if key_action(key) == KeyAction::Quit || key_action(key) == KeyAction::RebuildIndex {
        app
    } else {
        match key.code {
            KeyCode::Tab => AppView { show_preview: !app.show_preview, ..app },
            KeyCode::Up => app.up(),
            KeyCode::Down => app.down(),
            KeyCode::PageDown => AppView {
                preview_scroll: if app.preview_scroll + PAGE_SCROLL > u16::MAX {
                    u16::MAX as int
                } else {
                    app.preview_scroll + PAGE_SCROLL
                },
                ..app
            },
            KeyCode::PageUp => AppView {
                preview_scroll: if app.preview_scroll < PAGE_SCROLL {
                    0
                } else {
                    app.preview_scroll - PAGE_SCROLL
                },
                ..app
            },
            KeyCode::Esc => app.edited(seq![], now),
            KeyCode::Backspace => app.edited(
                if app.query.len() > 0 {
                    app.query.drop_last()
                } else {
                    app.query
                },
                now,
            ),
            KeyCode::Char(ch) => if key.control {
                app
            } else {
                app.edited(app.query.push(ch), now)
            },
            _ => app,
        }
    }
}

/// The result of a search, by its texts.
pub open spec fn after_search(app: AppView, outcome: Result<Vec<SearchHit>, String>) -> AppView {
    match outcome {
        Ok(results) => AppView {
            results: results@,
            selected: 0,
            dirty: false,
            status: if results@.len() == 0 && !blank(app.query) {
                "No results for '"@ + app.query + "'."@
            } else {
                seq![]
            },
            ..app
        },
        Err(e) => AppView {
            status: "Index error: "@ + e@ + ". Press r to build."@,
            dirty: false,
            ..app
        },
    }
}

/// The words of a query in lower case.
pub open spec fn lower_words(query: Seq<char>) -> Seq<Seq<char>> {
    words_of(query).map_values(|w: Seq<char>| lowercase(w))
}

/// Whether a text holds one of the words.
pub open spec fn holds_one(text: Seq<char>, tokens: Seq<Seq<char>>) -> bool {
    exists|i: int| 0 <= i < tokens.len() && has(text, #[trigger] tokens[i])
}

/// The first line from `i` on that holds one of the words.
pub open spec fn matching_line(ls: Seq<Seq<char>>, tokens: Seq<Seq<char>>, i: int) -> Option<int>
    decreases ls.len() - i,
{
    if i < 0 || i >= ls.len() {
        None
    } else if holds_one(ls[i], tokens) {
        Some(i)
    } else {
        matching_line(ls, tokens, i + 1)
    }
}

/// How far a preview is scrolled: to the first line that holds one of the words, as far
/// as a preview can be scrolled, or not at all where there is none.
pub open spec fn scroll_to(ls: Seq<Seq<char>>, tokens: Seq<Seq<char>>) -> int {
    match matching_line(ls, tokens, 0) {
        Some(i) => if i <= u16::MAX {
            i
        } else {
            u16::MAX as int
        },
        None => 0,
    }
}

/// Lines in lower case.
pub open spec fn lower_lines(ls: Seq<Seq<char>>) -> Seq<Seq<char>> {
    ls.map_values(|line: Seq<char>| lowercase(line))
}

/// How far the preview of a document is scrolled: to the first line that holds a word of
/// the query, without regard to case.
pub open spec fn preview_scroll_for(preview: Option<PreviewDocument>, query: Seq<char>) -> int {
    match preview {
        Some(p) => scroll_to(lower_lines(texts(p.body_lines@)), lower_words(query)),
        None => 0,
    }
}

fn lowered(all: &Vec<String>) -> (r: Vec<String>)
    ensures
        texts(r@) == lower_lines(texts(all@)),
{
    let mut out: Vec<String> = Vec::new();
    let mut i: usize = 0;
    while i < all.len()
        invariant
            i <= all@.len(),
            out@.len() == i,
            forall|j: int| 0 <= j < i ==> (#[trigger] out@[j])@ == lowercase(all@[j]@),
        decreases all@.len() - i,
    {
        out.push(all[i].as_str().to_lowercase());
        i += 1;
    }
    assert(texts(out@) =~= lower_lines(texts(all@)));
    out
}

fn holds_word(text: &str, tokens: &Vec<String>) -> (r: bool)
    ensures
        r == holds_one(text@, texts(tokens@)),
{
    let mut i: usize = 0;
    while i < tokens.len()
        invariant
            i <= tokens@.len(),
            forall|j: int| 0 <= j < i ==> !(has(text@, #[trigger] texts(tokens@)[j])),
        decreases tokens@.len() - i,
    {
        assert(texts(tokens@)[i as int] == tokens@[i as int]@);
        if contains(text, tokens[i].as_str()) {
            return true;
        }
        i += 1;
    }
    false
}

/// How far a preview is scrolled, where its lines and the words to look for are given as
/// they are to be matched.
pub fn scroll_to_match(all: &Vec<String>, tokens: &Vec<String>) -> (r: u16)
    ensures
        r == scroll_to(texts(all@), texts(tokens@)),
{
    let ghost ls = texts(all@);
    let ghost toks = texts(tokens@);
    let n: usize = all.len();
    let mut i: usize = 0;
    while i < n
        invariant
            n == all@.len(),
            ls == texts(all@),
            toks == texts(tokens@),
            i <= n,
            matching_line(ls, toks, 0) == matching_line(ls, toks, i as int),
        decreases n - i,
    {
        assert(ls[i as int] == all@[i as int]@);
        if holds_word(all[i].as_str(), tokens) {
            return if i <= 0xffff {
                i as u16
            } else {
                0xffff
            };
        }
        i += 1;
    }
    0
}

/// The index of the first line of a preview that holds a word of the query, so that the
/// scroll offset jumps straight to it.
pub fn first_match_line(preview: &Option<PreviewDocument>, query: &str) -> (r: u16)
    ensures
        r == preview_scroll_for(*preview, query@),
{
    match preview {
        None => 0,
        Some(p) => {
            let tokens: Vec<String> = lowered(&words(query));
            let all: Vec<String> = lowered(&p.body_lines);
            assert(texts(tokens@) =~= lower_words(query@));
            scroll_to_match(&all, &tokens)
        },
    }
}

impl App {
    /// The interface at its start, with a search due.
    pub fn new(now: u64) -> (r: Self)
        ensures
            r@ == (AppView {
                query: seq![],
                results: seq![],
                selected: 0,
                preview: None,
                show_preview: true,
                preview_scroll: 0,
                status: seq![],
                dirty: true,
                last_edit: now as int,
            }),
            r@.wf(),
    {
        let r: App = App {
            query: String::new(),
            results: Vec::new(),
            selected: 0,
            preview: None,
            show_preview: true,
            preview_scroll: 0,
            status: String::new(),
            dirty: true,
            last_edit: now,
        };
        assert(r.query@ =~= seq![]);
        assert(r.status@ =~= seq![]);
        assert(r.results@ =~= seq![]);
        r
    }

    /// Notes an edit of the query.
    pub fn mark_dirty(&mut self, now: u64)
        ensures
            final(self)@ == old(self)@.edited(old(self)@.query, now as int),
    {
        self.dirty = true;
        self.last_edit = now;
    }

    /// Whether the query was edited and has rested long enough.
    pub fn should_search(&self, now: u64) -> (r: bool)
        ensures
            r == (self.dirty && now - self.last_edit >= DEBOUNCE_MS * 1_000_000),
            r == search_is_due(self@, now as int),
    {
        self.dirty && now >= self.last_edit && now - self.last_edit >= DEBOUNCE_MS * 1_000_000
    }

    /// Shows results, with the first selected.
    pub fn set_results(&mut self, results: Vec<SearchHit>)
        ensures
            final(self)@ == (AppView { results: results@, selected: 0, ..old(self)@ }),
            final(self)@.wf(),
    {
        self.results = results;
        self.selected = 0;
    }

    /// Selects the result above.
    pub fn move_up(&mut self)
        ensures
            final(self)@ == old(self)@.up(),
            old(self)@.selected > 0 ==> final(self)@.selected == old(self)@.selected - 1,
            old(self)@.wf() ==> final(self)@.wf(),
    {
        if self.selected > 0 {
            self.selected = self.selected - 1;
        }
    }

    /// Selects the result below, if there is one.
    pub fn move_down(&mut self)
        ensures
            final(self)@ == old(self)@.down(),
            old(self)@.selected + 1 < old(self)@.results.len() ==> final(self)@.selected == old(
                self,
            )@.selected + 1,
            old(self)@.wf() ==> final(self)@.wf(),
    {
        let n: usize = self.results.len();
        if n > 0 {
            if self.selected < n - 1 {
                self.selected = self.selected + 1;
            } else {
                self.selected = n - 1;
            }
        }
    }

    /// The selected result.
    pub fn selected_hit(&self) -> (r: Option<&SearchHit>)
        ensures
            match r {
                Some(hit) => self.selected < self.results@.len() && *hit
                    == self.results@[self.selected as int],
                None => self.selected >= self.results@.len(),
            },
    {
        if self.selected < self.results.len() {
            Some(&self.results[self.selected])
        } else {
            None
        }
    }

    /// Takes a key, at a time, and says what has to be done.
    pub fn handle_key(&mut self, key: KeyPress, now: u64) -> (r: KeyAction)
        ensures
            r == key_action(key),
            final(self)@ == after_key(old(self)@, key, now as int),
            old(self)@.wf() ==> final(self)@.wf(),
    {
        if key.control && key.code == KeyCode::Char('c') {
            return KeyAction::Quit;
        }
        match key.code {
            KeyCode::Tab => {
                self.show_preview = !self.show_preview;
                KeyAction::Nothing
            },
            KeyCode::Up => {
                self.move_up();
                KeyAction::RefreshPreview
            },
            KeyCode::Down => {
                self.move_down();
                KeyAction::RefreshPreview
            },
            KeyCode::Enter => if key.shift {
                KeyAction::OpenInBrowser
            } else {
                KeyAction::OpenSelected
            },
            KeyCode::PageDown => {
                self.preview_scroll =
                if self.preview_scroll > u16::MAX - PAGE_SCROLL {
                    u16::MAX
                } else {
                    self.preview_scroll + PAGE_SCROLL
                };
                KeyAction::Nothing
            },
            KeyCode::PageUp => {
                self.preview_scroll =
                if self.preview_scroll < PAGE_SCROLL {
                    0
                } else {
                    self.preview_scroll - PAGE_SCROLL
                };
                KeyAction::Nothing
            },
            KeyCode::Esc => {
                self.query = String::new();
                assert(self.query@ =~= seq![]);
                self.mark_dirty(now);
                KeyAction::Nothing
            },
            KeyCode::Backspace => {
                let v: Vec<char> = to_chars(self.query.as_str());
                if v.len() > 0 {
                    self.query = from_chars(&v, 0, v.len() - 1);
                    assert(self.query@ =~= v@.drop_last());
                }
                self.mark_dirty(now);
                KeyAction::Nothing
            },
            KeyCode::Char(ch) => {
                if key.alt && ch == 'q' {
                    return KeyAction::Quit;
                }
                if key.alt && ch == 'r' {
                    return KeyAction::RebuildIndex;
                }
                if !key.control {
                    self.query.push(ch);
                    self.mark_dirty(now);
                }
                KeyAction::Nothing
            },
            KeyCode::Other => KeyAction::Nothing,
        }
    }

    /// Takes the outcome of a search for the query. The result says whether the preview
    /// has to be refreshed.
    pub fn do_search(&mut self, outcome: Result<Vec<SearchHit>, String>) -> (r: bool)
        ensures
            r == outcome is Ok,
            final(self)@ == after_search(old(self)@, outcome),
            old(self)@.wf() ==> final(self)@.wf(),
    {
        match outcome {
            Ok(results) => {
                let none_found: bool = results.len() == 0;
                self.set_results(results);
                self.dirty = false;
                if none_found && !is_blank(self.query.as_str()) {
                    self.status =
                    owned("No results for '").concat(self.query.as_str()).concat("'.");
                } else {
                    self.status = String::new();
                    assert(self.status@ =~= seq![]);
                }
                true
            },
            Err(e) => {
                self.status =
                owned("Index error: ").concat(e.as_str()).concat(". Press r to build.");
                self.dirty = false;
                false
            },
        }
    }

    /// Shows the preview of the selected result.
    pub fn refresh_preview(&mut self, preview: Option<PreviewDocument>)
        ensures
            final(self)@ == (AppView {
                preview,
                preview_scroll: preview_scroll_for(preview, old(self)@.query),
                ..old(self)@
            }),
            old(self)@.wf() ==> final(self)@.wf(),
    {
        self.preview_scroll = first_match_line(&preview, self.query.as_str());
        self.preview = preview;
    }

    /// Tells what indexing did; a search is due.
    pub fn rebuild_index(&mut self, stats: IndexStats, now: u64)
        ensures
            final(self)@ == (AppView {
                status: "Indexed "@ + decimal(stats.indexed as int) + " docs, updated "@ + decimal(
                    stats.updated as int,
                ) + ", unchanged "@ + decimal(stats.unchanged as int) + ", removed "@ + decimal(
                    stats.removed as int,
                ) + "."@,
                dirty: true,
                last_edit: now as int,
                ..old(self)@
            }),
            old(self)@.wf() ==> final(self)@.wf(),
    {
        self.status =
        owned("Indexed ").concat(count_text(stats.indexed).as_str()).concat(
            " docs, updated ",
        ).concat(count_text(stats.updated).as_str()).concat(", unchanged ").concat(
            count_text(stats.unchanged).as_str(),
        ).concat(", removed ").concat(count_text(stats.removed).as_str()).concat(".");
        self.mark_dirty(now);
    }

    /// Tells that the selected result was opened, or that none is selected.
    pub fn open_selected(&mut self)
        ensures
            final(self)@ == (AppView {
                status: if old(self)@.selected < old(self)@.results.len() {
                    "Opened "@ + old(self)@.results[old(self)@.selected].path@
                } else {
                    "No document selected."@
                },
                ..old(self)@
            }),
            old(self)@.wf() ==> final(self)@.wf(),
    {
        let line: String = match self.selected_hit() {
            Some(hit) => owned("Opened ").concat(hit.path.as_str()),
            None => owned("No document selected."),
        };
        self.status = line;
    }

    /// Tells that the selected result was opened in the browser, or that none is
    /// selected.
    pub fn open_in_browser(&mut self)
        ensures
            final(self)@ == (AppView {
                status: if old(self)@.selected < old(self)@.results.len() {
                    "Opened in browser: htl.dev/md/"@
                        + old(self)@.results[old(self)@.selected].path@
                } else {
                    "No document selected."@
                },
                ..old(self)@
            }),
            old(self)@.wf() ==> final(self)@.wf(),
    {
        let line: String = match self.selected_hit() {
            Some(hit) => owned("Opened in browser: htl.dev/md/").concat(hit.path.as_str()),
            None => owned("No document selected."),
        };
        self.status = line;
    }

    /// The title of the list of results.
    pub fn results_title(&self) -> (r: String)
        ensures
            r@ == (if self.results@.len() == 0 {
                " Results "@
            } else {
                " Results ("@ + decimal(self.results@.len() as int) + ") "@
            }),
    {
        let n: usize = self.results.len();
        if n == 0 {
            owned(" Results ")
        } else {
            owned(" Results (").concat(count_text(n).as_str()).concat(") ")
        }
    }

    /// The line at the bottom: the status, or what the keys do.
    pub fn status_line(&self) -> (r: &str)
        ensures
            r@ == (if self.status@.len() == 0 {
                HELP@
            } else {
                self.status@
            }),
    {
        if self.status.as_str().is_empty() {
            HELP
        } else {
            self.status.as_str()
        }
    }
}

/// The column of the cursor behind the query, counted in bytes of sixteen bits, in a box
/// that begins at column `x`.
pub open spec fn cursor_column(x: int, query: Seq<char>) -> int {
    x + 1 + encode_utf8(query).len() % 0x10000
}

/// Where the cursor stands in the box of the query, if it is not behind its end.
pub fn query_cursor(x: u16, y: u16, width: u16, query: &str) -> (r: Option<(u16, u16)>)
    requires
        cursor_column(x as int, query@) <= u16::MAX,
        y < u16::MAX,
        1 <= x + width <= u16::MAX,
    ensures
        match r {
            Some(at) => at.0 == cursor_column(x as int, query@) && at.1 == y + 1 && at.0 < x + width
                - 1,
            None => cursor_column(x as int, query@) >= x + width - 1,
        },
{
    let bytes: &[u8] = query.as_bytes();
    let length: u16 = (bytes.len() % 0x10000) as u16;
    let column: u16 = x + 1 + length;
    if column < x + width - 1 {
        Some((column, y + 1))
    } else {
        None
    }
}

/// A path as it is shown: the directory, with the separator after it, and the name.
#[derive(Debug, Clone)]
pub struct PathSpans {
    pub parent: Option<String>,
    pub name: String,
}

/// The character that parts the names of a path: a slash where it holds one, else a
/// backslash.
pub open spec fn separator_of(path: Seq<char>) -> char {
    if path.contains('/') {
        '/'
    } else {
        '\\'
    }
}

/// The directory and the name of a path.
pub fn path_spans(path: &str) -> (r: PathSpans)
    ensures
        ({
            let at = last_at(path@, separator_of(path@), path@.len() as int);
            if at >= 0 {
                &&& r.parent matches Some(parent) && parent@ == path@.take(at + 1)
                &&& r.name@ == path@.skip(at + 1)
            } else {
                &&& r.parent is None
                &&& r.name@ == path@
            }
        }),
{
    let v: Vec<char> = to_chars(path);
    let n: usize = v.len();
    let mut slash: bool = false;
    let mut i: usize = 0;
    while i < n
        invariant
            v@ == path@,
            n == v@.len(),
            i <= n,
            slash == exists|j: int| 0 <= j < i && path@[j] == '/',
        decreases n - i,
    {
        if v[i] == '/' {
            slash = true;
        }
        i += 1;
    }
    let sep: char = if slash {
        '/'
    } else {
        '\\'
    };
    assert(sep == separator_of(path@));
    let mut j: usize = n;
    while j > 0 && v[j - 1] != sep
        invariant
            v@ == path@,
            n == v@.len(),
            j <= n,
            last_at(path@, sep, n as int) == last_at(path@, sep, j as int),
        decreases j,
    {
        j -= 1;
    }
    if j == 0 {
        PathSpans { parent: None, name: owned(path) }
    } else {
        assert(path@.take(j as int) =~= v@.subrange(0, j as int));
        assert(path@.skip(j as int) =~= v@.subrange(j as int, n as int));
        PathSpans { parent: Some(from_chars(&v, 0, j)), name: from_chars(&v, j, n) }
    }
}

/// The directory and the name that a path is shown as make up the path.
pub proof fn law_path_spans_are_the_path(path: Seq<char>, at: int)
    requires
        at == last_at(path, separator_of(path), path.len() as int),
        at >= 0,
    ensures
        path.take(at + 1) + path.skip(at + 1) == path,
        path.take(at + 1).last() == separator_of(path),
        !path.skip(at + 1).contains(separator_of(path)),
{
    lemma_last_at(path, separator_of(path), path.len() as int);
    assert(path.take(at + 1) + path.skip(at + 1) =~= path);
    let name = path.skip(at + 1);
    assert forall|i: int| 0 <= i < name.len() implies name[i] != separator_of(path) by {
        assert(name[i] == path[at + 1 + i]);
    }
}

proof fn lemma_last_at(s: Seq<char>, c: char, j: int)
    requires
        0 <= j <= s.len(),
    ensures
        -1 <= last_at(s, c, j) < j || j == 0,
        last_at(s, c, j) >= 0 ==> s[last_at(s, c, j)] == c,
        forall|i: int| last_at(s, c, j) < i < j ==> s[i] != c,
    decreases j,
{
    if j > 0 && s[j - 1] != c {
        lemma_last_at(s, c, j - 1);
    }
}

/// Whatever keys are pressed, the selection stays among the results.
pub proof fn law_keys_keep_the_selection(app: AppView, key: KeyPress, now: int)
    requires
        app.wf(),
        0 <= app.selected,
    ensures
        after_key(app, key, now).wf(),
        after_key(app, key, now).results == app.results,
{
}

/// A key that is typed and then taken back leaves the query as it was.
pub proof fn law_backspace_undoes_a_key(app: AppView, ch: char, first: int, second: int)
    ensures
        ({
            let plain = KeyPress {
                code: KeyCode::Char(ch),
                control: false,
                alt: false,
                shift: false,
            };
            let back = KeyPress {
                code: KeyCode::Backspace,
                control: false,
                alt: false,
                shift: false,
            };
            after_key(after_key(app, plain, first), back, second).query == app.query
        }),
{
    assert(app.query.push(ch).drop_last() =~= app.query);
}

/// The key for down selects the result below the selected one, and the key for up takes
/// that back. At the last result, and without results, the key for down changes nothing, and
/// neither does the key for up at the first. Nothing but the selection changes.
pub proof fn law_down_and_up(app: AppView, down: KeyPress, up: KeyPress, first: int, second: int)
    requires
        app.wf(),
        0 <= app.selected,
        down.code == KeyCode::Down,
        up.code == KeyCode::Up,
    ensures
        app.selected + 1 < app.results.len() ==> after_key(app, down, first) == (AppView {
            selected: app.selected + 1,
            ..app
        }),
        app.selected + 1 < app.results.len() ==> after_key(
            after_key(app, down, first),
            up,
            second,
        ) == app,
        app.selected + 1 >= app.results.len() ==> after_key(app, down, first) == app,
        app.selected > 0 ==> after_key(app, up, first) == (AppView {
            selected: app.selected - 1,
            ..app
        }),
        app.selected > 0 ==> after_key(after_key(app, up, first), down, second) == app,
        app.selected == 0 ==> after_key(app, up, first) == app,
        app.down() == after_key(app, down, first),
        app.up() == after_key(app, up, first),
{
}

/// Every result can be selected: pressing the key for down as often as there are results
/// before it leads there from the first one.
pub proof fn law_every_result_can_be_selected(app: AppView, n: nat)
    requires
        app.selected == 0,
        n < app.results.len(),
    ensures
        pressed_down(app, n).selected == n,
        pressed_down(app, n).results == app.results,
    decreases n,
{
    if n > 0 {
        law_every_result_can_be_selected(app, (n - 1) as nat);
    }
}

/// The state after the key for down was pressed so often.
pub open spec fn pressed_down(app: AppView, n: nat) -> AppView
    decreases n,
{
    if n == 0 {
        app
    } else {
        pressed_down(app, (n - 1) as nat).down()
    }
}

/// A character that is typed stands at the end of the query; the backspace takes the last
/// one away, and escape all of them. Each is an edit, at its time, after which a search is
/// due. A character that is typed with the control key held down changes nothing.
pub proof fn law_editing(app: AppView, key: KeyPress, ch: char, now: int)
    ensures
        key.code == KeyCode::Char(ch) && !key.control && !(key.alt && (ch == 'q' || ch == 'r'))
            ==> after_key(app, key, now) == (AppView {
            query: app.query + seq![ch],
            dirty: true,
            last_edit: now,
            ..app
        }),
        key.code == KeyCode::Char(ch) && key.control ==> after_key(app, key, now) == app,
        key.code == KeyCode::Backspace ==> after_key(app, key, now) == (AppView {
            query: app.query.take(
                if app.query.len() > 0 {
                    app.query.len() - 1
                } else {
                    0
                },
            ),
            dirty: true,
            last_edit: now,
            ..app
        }),
        key.code == KeyCode::Esc ==> after_key(app, key, now) == (AppView {
            query: Seq::<char>::empty(),
            dirty: true,
            last_edit: now,
            ..app
        }),
{
    assert(app.query.push(ch) =~= app.query + seq![ch]);
    if app.query.len() > 0 {
        assert(app.query.drop_last() =~= app.query.take(app.query.len() - 1));
    } else {
        assert(app.query.take(0) =~= app.query);
    }
}

/// The page keys scroll the preview by ten lines, to its beginning or to the last line that
/// can be scrolled to where fewer are left. Tab shows or hides the preview, and a second time
/// takes that back. Enter and other keys change nothing.
pub proof fn law_scrolling(app: AppView, key: KeyPress, now: int)
    requires
        0 <= app.preview_scroll <= 65535,
    ensures
        key.code == KeyCode::PageDown && app.preview_scroll <= 65525 ==> after_key(app, key, now) == (
        AppView { preview_scroll: app.preview_scroll + 10, ..app }),
        key.code == KeyCode::PageDown && app.preview_scroll > 65525 ==> after_key(app, key, now) == (
        AppView { preview_scroll: 65535, ..app }),
        key.code == KeyCode::PageUp && app.preview_scroll >= 10 ==> after_key(app, key, now) == (
        AppView { preview_scroll: app.preview_scroll - 10, ..app }),
        key.code == KeyCode::PageUp && app.preview_scroll < 10 ==> after_key(app, key, now) == (
        AppView { preview_scroll: 0, ..app }),
        key.code == KeyCode::Tab ==> after_key(app, key, now) == (AppView {
            show_preview: !app.show_preview,
            ..app
        }),
        key.code == KeyCode::Tab ==> after_key(after_key(app, key, now), key, now) == app,
        key.code == KeyCode::Enter || key.code == KeyCode::Other ==> after_key(app, key, now) == app,
{
}

/// What is done after a key: the program ends after control and c, or alt and q; alt and r
/// builds the index anew; the keys for up and down show another preview; enter opens the
/// selected result, with shift in the browser; and after any other key nothing is done.
pub proof fn law_actions(key: KeyPress)
    ensures
        key_action(key) == KeyAction::Quit <==> (key.control && key.code == KeyCode::Char('c')) || (
        key.alt && key.code == KeyCode::Char('q')),
        key_action(key) == KeyAction::RebuildIndex <==> key.alt && key.code == KeyCode::Char('r'),
        key_action(key) == KeyAction::RefreshPreview <==> key.code == KeyCode::Up || key.code
            == KeyCode::Down,
        key_action(key) == KeyAction::OpenSelected <==> key.code == KeyCode::Enter && !key.shift,
        key_action(key) == KeyAction::OpenInBrowser <==> key.code == KeyCode::Enter && key.shift,
{
}

/// After a search its results are shown, all of them and with the first selected. No other
/// search is due. That nothing was found is told, unless nothing was asked for. After one
/// that failed, the results before it are still shown, and why it failed is told.
pub proof fn law_results_are_shown(app: AppView, outcome: Result<Vec<SearchHit>, String>)
    ensures
        after_search(app, outcome).query == app.query,
        !after_search(app, outcome).dirty,
        after_search(app, outcome).show_preview == app.show_preview,
        after_search(app, outcome).preview == app.preview,
        after_search(app, outcome).preview_scroll == app.preview_scroll,
        after_search(app, outcome).last_edit == app.last_edit,
        outcome matches Ok(found) ==> {
            let after = after_search(app, outcome);
            &&& after.results == found@
            &&& after.selected == 0
            &&& found@.len() > 0 || blank(app.query) ==> after.status.len() == 0
            &&& found@.len() == 0 && !blank(app.query) ==> after.status == "No results for '"@
                + app.query + "'."@
        },
        outcome matches Err(e) ==> {
            let after = after_search(app, outcome);
            &&& after.results == app.results
            &&& after.selected == app.selected
            &&& after.status == "Index error: "@ + e@ + ". Press r to build."@
        },
{
}

/// Whether a line holds a word of a query, without regard to case.
pub open spec fn line_has_word(line: Seq<char>, query: Seq<char>) -> bool {
    exists|w: int|
        0 <= w < words_of(query).len() && has(
            lowercase(line),
            lowercase(#[trigger] words_of(query)[w]),
        )
}

/// A preview is scrolled to the first of its lines that holds a word of the query, as far as
/// it can be scrolled; to its beginning where none does.
pub proof fn law_preview_begins_at_the_match(preview: PreviewDocument, query: Seq<char>)
    ensures
        forall|l: int|
            0 <= l < preview.body_lines@.len() && line_has_word(
                #[trigger] preview.body_lines@[l]@,
                query,
            ) && (forall|m: int|
                0 <= m < l ==> !line_has_word(#[trigger] preview.body_lines@[m]@, query))
                ==> preview_scroll_for(Some(preview), query) == (if l < 65535 {
                l
            } else {
                65535
            }),
        (forall|m: int|
            0 <= m < preview.body_lines@.len() ==> !line_has_word(
                #[trigger] preview.body_lines@[m]@,
                query,
            )) ==> preview_scroll_for(Some(preview), query) == 0,
        preview_scroll_for(None, query) == 0,
{
    let ls = lower_lines(texts(preview.body_lines@));
    let tokens = lower_words(query);
    assert forall|m: int| 0 <= m < ls.len() implies holds_one(#[trigger] ls[m], tokens)
        == line_has_word(preview.body_lines@[m]@, query) by {
        let line = preview.body_lines@[m]@;
        assert(ls[m] == lowercase(line));
        if holds_one(ls[m], tokens) {
            let w = choose|w: int| 0 <= w < tokens.len() && has(ls[m], #[trigger] tokens[w]);
            assert(tokens[w] == lowercase(words_of(query)[w]));
        }
        if line_has_word(line, query) {
            let w = choose|w: int|
                0 <= w < words_of(query).len() && has(
                    lowercase(line),
                    lowercase(#[trigger] words_of(query)[w]),
                );
            assert(has(ls[m], tokens[w]));
        }
    }
    assert forall|l: int|
        0 <= l < preview.body_lines@.len() && line_has_word(
            #[trigger] preview.body_lines@[l]@,
            query,
        ) && (forall|m: int|
            0 <= m < l ==> !line_has_word(#[trigger] preview.body_lines@[m]@, query)) implies
        preview_scroll_for(Some(preview), query) == (if l < 65535 {
        l
    } else {
        65535
    }) by {
        assert forall|m: int| 0 <= m < l implies !holds_one(#[trigger] ls[m], tokens) by {
            assert(!line_has_word(preview.body_lines@[m]@, query));
        }
        assert(holds_one(ls[l], tokens));
        lemma_matching_line(ls, tokens, 0, l);
    }
    if forall|m: int|
        0 <= m < preview.body_lines@.len() ==> !line_has_word(
            #[trigger] preview.body_lines@[m]@,
            query,
        ) {
        assert forall|m: int| 0 <= m < ls.len() implies !holds_one(#[trigger] ls[m], tokens) by {
            assert(!line_has_word(preview.body_lines@[m]@, query));
        }
        lemma_matching_line(ls, tokens, 0, ls.len() as int);
    }
}

proof fn lemma_matching_line(ls: Seq<Seq<char>>, tokens: Seq<Seq<char>>, i: int, l: int)
    requires
        0 <= i <= l <= ls.len(),
        forall|m: int| i <= m < l ==> !holds_one(#[trigger] ls[m], tokens),
        l < ls.len() ==> holds_one(ls[l], tokens),
    ensures
        matching_line(ls, tokens, i) == (if l < ls.len() {
            Some(l)
        } else {
            None
        }),
    decreases l - i,
{
    if i < l {
        lemma_matching_line(ls, tokens, i + 1, l);
    }
}

/// A path is parted at its last slash, or at its last backslash where it holds no slash.
pub proof fn law_separator(path: Seq<char>)
    ensures
        path.contains('/') ==> separator_of(path) == '/',
        !path.contains('/') ==> separator_of(path) == '\\',
{
}

/// Behind a query of ASCII characters that is shorter than sixteen bits can count the cursor
/// stands one column for each of them behind the beginning of the text.
pub proof fn law_cursor(x: int, query: Seq<char>)
    requires
        is_ascii_chars(query),
        query.len() < 65536,
    ensures
        cursor_column(x, query) == x + 1 + query.len(),
{
    is_ascii_chars_encode_utf8(query);
}

/// A query rests for a hundred and fifty milliseconds before it is searched for, and up to
/// fifty results are asked for.
pub proof fn law_search_as_you_type()
    ensures
        DEBOUNCE_MS == 150,
        SEARCH_LIMIT == 50,
{
}

/// Whether the query was edited and has rested long enough.
pub open spec fn search_is_due(app: AppView, now: int) -> bool {
    app.dirty && now - app.last_edit >= DEBOUNCE_MS * 1_000_000
}

/// After an edit a search is due once a hundred and fifty milliseconds have passed without
/// another one, and not before. After a search none is due until the next edit, and keys that
/// edit nothing do not matter.
pub proof fn law_search_is_due(
    app: AppView,
    key: KeyPress,
    outcome: Result<Vec<SearchHit>, String>,
    edited: int,
    now: int,
)
    ensures
        key.code == KeyCode::Esc || key.code == KeyCode::Backspace || (key.code matches KeyCode::Char(
            ch,
        ) && !key.control && !key.alt) ==> (search_is_due(after_key(app, key, edited), now) <==> now
            - edited >= 150_000_000),
        key.code == KeyCode::Up || key.code == KeyCode::Down || key.code == KeyCode::Tab || key.code
            == KeyCode::PageUp || key.code == KeyCode::PageDown || key.code == KeyCode::Enter ==> (
        search_is_due(after_key(app, key, edited), now) <==> search_is_due(app, now)),
        !search_is_due(after_search(app, outcome), now),
{
}

} // verus!
