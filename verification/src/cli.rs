//! The command line: its arguments, what they ask for, and what is printed.

use crate::document::{
    default_source_path, is_default_index_path, status_name, SearchHit, SearchMode, SearchQuery,
    DEFAULT_SOURCE_STR,
};
use crate::error::SearchError;
use crate::index::{copy_opt, IndexStats};
use crate::number::{count_text, decimal, int_text};
use crate::paths::opt_text;
use crate::pattern::occurs_at;
use crate::service::{is_request_for, PreviewDocument, SearchRequest, SearchService};
use crate::text::{blank, is_blank, join, joined, lemma_texts_push, owned, texts, trim, trimmed};
use vstd::prelude::*;
use vstd::string::*;

verus! {

/// The arguments of the program.
#[derive(Debug, Clone)]
pub struct Cli {
    pub source: Option<String>,
    pub index_db: Option<String>,
    pub command: Command,
}

/// What the program is asked to do.
#[derive(Debug, Clone)]
pub enum Command {
    Index(IndexArgs),
    Search(SearchArgs),
    Show(TargetArgs),
    Open(TargetArgs),
    Doctor,
    Tui,
    Scrape(ScrapeArgs),
}

/// The arguments of `index`.
#[derive(Debug, Clone)]
pub struct IndexArgs {
    pub source: Option<String>,
}

/// The arguments of `search`.
#[derive(Debug, Clone)]
pub struct SearchArgs {
    pub query: String,
    pub regex: bool,
    pub path: Option<String>,
    pub limit: usize,
}

/// The arguments of `show` and `open`.
#[derive(Debug, Clone)]
pub struct TargetArgs {
    pub target: String,
}

/// The arguments of `scrape`.
#[derive(Debug, Clone)]
pub struct ScrapeArgs {
    pub username: Option<String>,
    pub password: Option<String>,
    /// Whether pages that were downloaded before are looked at again.
    pub sync: bool,
    /// Whether what earlier runs noted is left aside.
    pub fresh: bool,
}

/// How many results a search gives where no limit is named.
pub const DEFAULT_LIMIT: usize = 20;

/// What is left to do once the arguments are sorted out.
#[derive(Debug, Clone)]
pub enum Task {
    Index { service: SearchService },
    Search { service: SearchService, query: SearchQuery },
    Show { service: SearchService, target: String },
    Open { service: SearchService, target: String },
    Doctor { service: SearchService },
    Tui { service: SearchService },
    Scrape(ScrapeArgs),
}

/// Whether a service is for a mirror and an index, each in its default place where
/// none is named.
pub open spec fn is_service_for(
    service: SearchService,
    source: Option<String>,
    index_db: Option<String>,
) -> bool {
    &&& service.source_path() == (match source {
        Some(path) => path@,
        None => DEFAULT_SOURCE_STR@,
    })
    &&& match index_db {
        Some(path) => service.index_file() == path@,
        None => is_default_index_path(service.index_file()),
    }
}

/// Whether a query is what the arguments of `search` ask for.
pub open spec fn is_query_for(query: SearchQuery, args: SearchArgs) -> bool {
    &&& query.text == args.query
    &&& query.mode == (if args.regex {
        SearchMode::Regex
    } else {
        SearchMode::FullText
    })
    &&& query.path_filter == args.path
    &&& query.limit == args.limit
}

/// Whether a task is what the arguments ask for.
pub open spec fn is_task_for(task: Task, cli: Cli) -> bool {
    match cli.command {
        Command::Index(args) => task matches Task::Index { service } && is_service_for(
            service,
            if args.source is Some {
                args.source
            } else {
                cli.source
            },
            cli.index_db,
        ),
        Command::Search(args) => task matches Task::Search { service, query } && is_service_for(
            service,
            cli.source,
            cli.index_db,
        ) && is_query_for(query, args),
        Command::Show(args) => task matches Task::Show { service, target } && is_service_for(
            service,
            cli.source,
            cli.index_db,
        ) && target == args.target,
        Command::Open(args) => task matches Task::Open { service, target } && is_service_for(
            service,
            cli.source,
            cli.index_db,
        ) && target == args.target,
        Command::Doctor => task matches Task::Doctor { service } && is_service_for(
            service,
            cli.source,
            cli.index_db,
        ),
        Command::Tui => task matches Task::Tui { service } && is_service_for(
            service,
            cli.source,
            cli.index_db,
        ),
        Command::Scrape(args) => task == Task::Scrape(args),
    }
}

fn service_for(source: Option<String>, index_db: Option<String>) -> (r: SearchService)
    ensures
        is_service_for(r, source, index_db),
{
    let mirror: String = match source {
        Some(path) => path,
        None => default_source_path(),
    };
    SearchService::new(mirror, index_db)
}

/// What the arguments ask for.
pub fn run(cli: Cli) -> (r: Task)
    ensures
        is_task_for(r, cli),
{
    let Cli { source, index_db, command } = cli;
    match command {
        Command::Index(args) => {
            let mirror: Option<String> = match args.source {
                Some(path) => Some(path),
                None => source,
            };
            Task::Index { service: service_for(mirror, index_db) }
        },
        Command::Search(args) => {
            let mode: SearchMode = if args.regex {
                SearchMode::Regex
            } else {
                SearchMode::FullText
            };
            let query: SearchQuery = SearchQuery {
                text: args.query,
                mode,
                path_filter: args.path,
                limit: args.limit,
            };
            Task::Search { service: service_for(source, index_db), query }
        },
        Command::Show(args) => Task::Show {
            service: service_for(source, index_db),
            target: args.target,
        },
        Command::Open(args) => Task::Open {
            service: service_for(source, index_db),
            target: args.target,
        },
        Command::Doctor => Task::Doctor { service: service_for(source, index_db) },
        Command::Tui => Task::Tui { service: service_for(source, index_db) },
        Command::Scrape(args) => Task::Scrape(args),
    }
}

/// Where a search is done.
#[derive(Debug, Clone)]
pub enum SearchRoute {
    /// In the files of the mirror, by regular expression.
    Files,
    /// In the index.
    Index(SearchRequest),
}

/// Where a search is done, and what it asks of the index; a path filter holds in both
/// places.
pub fn run_search(service: &SearchService, query: &SearchQuery) -> (r: SearchRoute)
    ensures
        match r {
            SearchRoute::Files => query.mode == SearchMode::Regex,
            SearchRoute::Index(request) => query.mode == SearchMode::FullText && is_request_for(
                query.text@,
                opt_text(query.path_filter),
                query.limit,
                request,
            ),
        },
{
    if query.mode == SearchMode::Regex {
        SearchRoute::Files
    } else {
        SearchRoute::Index(
            service.search_below(
                query.text.as_str(),
                copy_opt(&query.path_filter),
                query.limit,
            ),
        )
    }
}

// ---------------------------------------------------------------------------
// Reports
// ---------------------------------------------------------------------------

/// What is printed after indexing.
pub open spec fn index_report(source: Seq<char>, index_path: Seq<char>, stats: IndexStats) -> Seq<
    Seq<char>,
> {
    seq![
        "Indexed source: "@ + source,
        "Database: "@ + index_path,
        "documents: "@ + decimal(stats.indexed as int),
        "updated: "@ + decimal(stats.updated as int),
        "unchanged: "@ + decimal(stats.unchanged as int),
        "removed: "@ + decimal(stats.removed as int),
    ]
}

/// What is printed after indexing.
pub fn run_index(service: &SearchService, stats: IndexStats) -> (r: Vec<String>)
    ensures
        texts(r@) == index_report(service.source_path(), service.index_file(), stats),
{
    let mut out: Vec<String> = Vec::new();
    out.push(owned("Indexed source: ").concat(service.source()));
    out.push(owned("Database: ").concat(service.index_path()));
    out.push(owned("documents: ").concat(count_text(stats.indexed).as_str()));
    out.push(owned("updated: ").concat(count_text(stats.updated).as_str()));
    out.push(owned("unchanged: ").concat(count_text(stats.unchanged).as_str()));
    out.push(owned("removed: ").concat(count_text(stats.removed).as_str()));
    assert(texts(out@) =~= index_report(service.source_path(), service.index_file(), stats));
    out
}

/// What is printed of the lines that matched.
pub open spec fn match_lines(hit: SearchHit, n: int) -> Seq<Seq<char>>
    decreases n,
{
    if n <= 0 {
        seq![]
    } else {
        let m = hit.line_matches@[n - 1];
        match_lines(hit, n - 1).push(
            "   "@ + decimal(m.line_number as int) + ": "@ + trimmed(m.line@),
        )
    }
}

/// What is printed of the score of a hit, where it has one.
pub open spec fn score_lines(hit: SearchHit) -> Seq<Seq<char>> {
    match hit.score {
        Some(score) => seq!["   score: "@ + score@],
        None => seq![],
    }
}

/// What is printed of the text of a hit, where it is not blank.
pub open spec fn snippet_lines(hit: SearchHit) -> Seq<Seq<char>> {
    if blank(hit.snippet@) {
        seq![]
    } else {
        seq!["   "@ + trimmed(hit.snippet@)]
    }
}

/// What is printed of a hit.
pub open spec fn hit_lines(position: int, hit: SearchHit) -> Seq<Seq<char>> {
    seq![
        decimal(position) + ". "@ + hit.title@ + " ["@ + decimal(hit.doc_id as int) + "]"@,
        "   "@ + hit.path@,
    ] + score_lines(hit) + snippet_lines(hit) + match_lines(hit, hit.line_matches@.len() as int)
        + seq![""@]
}

fn put(out: &mut Vec<String>, line: String)
    ensures
        texts(final(out)@) == texts(old(out)@).push(line@),
{
    let ghost before = out@;
    out.push(line);
    proof {
        lemma_texts_push(before, line);
    }
}

/// Prints a hit to a list of lines.
fn print_hit(out: &mut Vec<String>, position: usize, hit: &SearchHit)
    ensures
        texts(final(out)@) == texts(old(out)@) + hit_lines(position as int, *hit),
{
    let ghost begun = texts(out@);
    let head: String = count_text(position).concat(". ").concat(hit.title.as_str()).concat(
        " [",
    ).concat(int_text(hit.doc_id).as_str()).concat("]");
    let ghost first = seq![head@, "   "@ + hit.path@];
    put(out, head);
    put(out, owned("   ").concat(hit.path.as_str()));
    assert(texts(out@) =~= begun + first);
    if let Some(score) = &hit.score {
        put(out, owned("   score: ").concat(score.as_str()));
    }
    assert(texts(out@) =~= begun + (first + score_lines(*hit)));
    if !is_blank(hit.snippet.as_str()) {
        let shown: String = trim(hit.snippet.as_str());
        put(out, owned("   ").concat(shown.as_str()));
    }
    let ghost top = first + score_lines(*hit) + snippet_lines(*hit);
    assert(texts(out@) =~= begun + top);
    let n: usize = hit.line_matches.len();
    let mut i: usize = 0;
    while i < n
        invariant
            n == hit.line_matches@.len(),
            i <= n,
            texts(out@) == begun + (top + match_lines(*hit, i as int)),
        decreases n - i,
    {
        let number: String = count_text(hit.line_matches[i].line_number);
        let shown: String = trim(hit.line_matches[i].line.as_str());
        let line: String = owned("   ").concat(number.as_str()).concat(": ").concat(shown.as_str());
        put(out, line);
        assert(texts(out@) =~= begun + (top + match_lines(*hit, i + 1)));
        i += 1;
    }
    put(out, owned(""));
    assert(texts(out@) =~= begun + (top + match_lines(*hit, n as int) + seq![""@]));
}

/// What is printed of the first `n` hits.
pub open spec fn hits_lines(hits: Seq<SearchHit>, n: int) -> Seq<Seq<char>>
    decreases n,
{
    if n <= 0 {
        seq![]
    } else {
        hits_lines(hits, n - 1) + hit_lines(n, hits[n - 1])
    }
}

/// What is printed of the hits of a search.
pub fn print_hits(hits: &Vec<SearchHit>) -> (r: Vec<String>)
    ensures
        texts(r@) == (if hits@.len() == 0 {
            seq!["No matches found."@]
        } else {
            hits_lines(hits@, hits@.len() as int)
        }),
{
    let n: usize = hits.len();
    let mut out: Vec<String> = Vec::new();
    assert(texts(out@) =~= seq![]);
    if n == 0 {
        put(&mut out, owned("No matches found."));
        assert(texts(out@) =~= seq!["No matches found."@]);
        return out;
    }
    let mut i: usize = 0;
    while i < n
        invariant
            n == hits@.len(),
            i <= n,
            texts(out@) == hits_lines(hits@, i as int),
        decreases n - i,
    {
        print_hit(&mut out, i + 1, &hits[i]);
        i += 1;
    }
    out
}

/// What is printed of the time of modification, where it is known.
pub open spec fn modified_lines(preview: PreviewDocument) -> Seq<Seq<char>> {
    match preview.modified_at {
        Some(modified) => seq!["modified_at: "@ + modified@],
        None => seq![],
    }
}

/// What is printed of the headings, where there are any.
pub open spec fn heading_lines(preview: PreviewDocument) -> Seq<Seq<char>> {
    if preview.headings@.len() > 0 {
        seq!["headings: "@ + joined(texts(preview.headings@), " | "@)]
    } else {
        seq![]
    }
}

/// What is printed of the links, where there are any.
pub open spec fn link_lines(preview: PreviewDocument) -> Seq<Seq<char>> {
    if preview.links@.len() > 0 {
        seq!["links: "@ + decimal(preview.links@.len() as int)]
    } else {
        seq![]
    }
}

/// What is printed of a document.
pub open spec fn show_lines(preview: PreviewDocument) -> Seq<Seq<char>> {
    seq![preview.title@, preview.path@, "status: "@ + status_name(preview.status)]
        + modified_lines(preview) + heading_lines(preview) + link_lines(preview) + seq![""@] + texts(
        preview.body_lines@,
    )
}

/// What is printed of a document.
pub fn run_show(preview: &PreviewDocument) -> (r: Vec<String>)
    ensures
        texts(r@) == show_lines(*preview),
{
    let mut out: Vec<String> = Vec::new();
    assert(texts(out@) =~= seq![]);
    put(&mut out, preview.title.clone());
    put(&mut out, preview.path.clone());
    put(&mut out, owned("status: ").concat(preview.status.as_str()));
    let ghost top = seq![preview.title@, preview.path@, "status: "@ + status_name(preview.status)];
    assert(texts(out@) =~= top);
    if let Some(modified) = &preview.modified_at {
        put(&mut out, owned("modified_at: ").concat(modified.as_str()));
    }
    assert(texts(out@) =~= top + modified_lines(*preview));
    if preview.headings.len() > 0 {
        let list: String = join(&preview.headings, " | ");
        put(&mut out, owned("headings: ").concat(list.as_str()));
    }
    assert(texts(out@) =~= top + modified_lines(*preview) + heading_lines(*preview));
    let links: usize = preview.links.len();
    if links > 0 {
        put(&mut out, owned("links: ").concat(count_text(links).as_str()));
    }
    put(&mut out, owned(""));
    let ghost head = top + modified_lines(*preview) + heading_lines(*preview) + link_lines(*preview)
        + seq![""@];
    assert(texts(out@) =~= head);
    let ghost body = texts(preview.body_lines@);
    let mut i: usize = 0;
    assert(head + body.take(0) =~= head);
    while i < preview.body_lines.len()
        invariant
            body == texts(preview.body_lines@),
            i <= preview.body_lines@.len(),
            texts(out@) == head + body.take(i as int),
        decreases preview.body_lines@.len() - i,
    {
        put(&mut out, preview.body_lines[i].clone());
        assert(texts(out@) =~= head + body.take(i + 1));
        i += 1;
    }
    assert(body.take(i as int) =~= body);
    out
}

/// What is printed for a target: of the document that the index has for it, else the
/// text of the file that the mirror has for it. Where it has neither, the target is
/// refused.
pub fn show_target(
    preview: Option<PreviewDocument>,
    text: Option<String>,
    target: &str,
) -> (r: Result<Vec<String>, SearchError>)
    ensures
        preview matches Some(p) ==> r is Ok && texts(r->Ok_0@) == show_lines(p),
        preview is None && text is Some ==> r is Ok && texts(r->Ok_0@) == seq![text->0@],
        preview is None && text is None ==> (r matches Err(SearchError::DocumentNotFound(name))
            && name@ == target@),
{
    match preview {
        Some(p) => Ok(run_show(&p)),
        None => match text {
            Some(content) => {
                let mut out: Vec<String> = Vec::new();
                assert(texts(out@) =~= seq![]);
                put(&mut out, content);
                assert(texts(out@) =~= seq![content@]);
                Ok(out)
            },
            None => Err(SearchError::DocumentNotFound(owned(target))),
        },
    }
}

/// A truth value as it is printed.
pub open spec fn truth(b: bool) -> Seq<char> {
    if b {
        "true"@
    } else {
        "false"@
    }
}

fn truth_text(b: bool) -> (r: &'static str)
    ensures
        r@ == truth(b),
{
    if b {
        "true"
    } else {
        "false"
    }
}

/// Where a mirror and its index are, and whether they are there, as it is printed.
pub fn run_doctor(service: &SearchService, source_exists: bool, index_exists: bool) -> (r: Vec<
    String,
>)
    ensures
        texts(r@) == seq![
            "source: "@ + service.source_path(),
            "source_exists: "@ + truth(source_exists),
            "index_db: "@ + service.index_file(),
            "index_exists: "@ + truth(index_exists),
        ],
{
    let mut out: Vec<String> = Vec::new();
    out.push(owned("source: ").concat(service.source()));
    out.push(owned("source_exists: ").concat(truth_text(source_exists)));
    out.push(owned("index_db: ").concat(service.index_path()));
    out.push(owned("index_exists: ").concat(truth_text(index_exists)));
    assert(texts(out@) =~= seq![
        "source: "@ + service.source_path(),
        "source_exists: "@ + truth(source_exists),
        "index_db: "@ + service.index_file(),
        "index_exists: "@ + truth(index_exists),
    ]);
    out
}

/// How many documents the index holds, as it is printed.
pub fn indexed_line(count: i64) -> (r: String)
    ensures
        r@ == "indexed_documents: "@ + decimal(count as int),
{
    owned("indexed_documents: ").concat(int_text(count).as_str())
}

/// How many markdown files the mirror holds, as it is printed.
pub fn files_line(count: usize) -> (r: String)
    ensures
        r@ == "source_markdown_files: "@ + decimal(count as int),
{
    owned("source_markdown_files: ").concat(count_text(count).as_str())
}

/// What is printed once a target was opened.
pub fn run_open(target: &str) -> (r: String)
    ensures
        r@ == "Opened "@ + target@,
{
    owned("Opened ").concat(target)
}

// ---------------------------------------------------------------------------
// Laws
// ---------------------------------------------------------------------------

proof fn lemma_match_lines(hit: SearchHit, n: int)
    requires
        0 <= n,
    ensures
        match_lines(hit, n).len() == n,
        forall|k: int|
            0 <= k < n ==> #[trigger] match_lines(hit, n)[k] == "   "@ + decimal(
                hit.line_matches@[k].line_number as int,
            ) + ": "@ + trimmed(hit.line_matches@[k].line@),
    decreases n,
{
    if n > 0 {
        lemma_match_lines(hit, n - 1);
    }
}

/// Of a hit its position, title and number are printed, then its path, its score if it
/// has one, its text unless that is blank, every line that matched with its number, and an
/// empty line.
pub proof fn law_hit_is_printed(position: int, hit: SearchHit)
    ensures
        ({
            let lines = hit_lines(position, hit);
            let scores: int = if hit.score is Some {
                1
            } else {
                0
            };
            let texts: int = if blank(hit.snippet@) {
                0
            } else {
                1
            };
            &&& lines.len() == 3 + scores + texts + hit.line_matches@.len()
            &&& lines[0] == decimal(position) + ". "@ + hit.title@ + " ["@ + decimal(
                hit.doc_id as int,
            ) + "]"@
            &&& lines[1] == "   "@ + hit.path@
            &&& hit.score matches Some(score) ==> lines[2] == "   score: "@ + score@
            &&& !blank(hit.snippet@) ==> lines[2 + scores] == "   "@ + trimmed(hit.snippet@)
            &&& forall|k: int|
                0 <= k < hit.line_matches@.len() ==> lines[2 + scores + texts + k] == "   "@ + decimal(
                    (#[trigger] hit.line_matches@[k]).line_number as int,
                ) + ": "@ + trimmed(hit.line_matches@[k].line@)
            &&& lines.last() == ""@
        }),
{
    let n = hit.line_matches@.len() as int;
    lemma_match_lines(hit, n);
    let lines = hit_lines(position, hit);
    let scores: int = if hit.score is Some {
        1
    } else {
        0
    };
    let texts: int = if blank(hit.snippet@) {
        0
    } else {
        1
    };
    assert forall|k: int| 0 <= k < n implies lines[2 + scores + texts + k] == "   "@ + decimal(
        (#[trigger] hit.line_matches@[k]).line_number as int,
    ) + ": "@ + trimmed(hit.line_matches@[k].line@) by {
        assert(lines[2 + scores + texts + k] == match_lines(hit, n)[k]);
    }
}

/// Every hit is printed, numbered from one on, right behind the ones before it.
pub proof fn law_every_hit_is_printed(hits: Seq<SearchHit>, n: int, i: int)
    requires
        0 <= i < n <= hits.len(),
    ensures
        occurs_at(
            hits_lines(hits, n),
            hit_lines(i + 1, hits[i]),
            hits_lines(hits, i).len() as int,
        ),
        hits_lines(hits, i).is_prefix_of(hits_lines(hits, n)),
        i + 1 == n ==> hits_lines(hits, n).len() == hits_lines(hits, i).len() + hit_lines(
            n,
            hits[i],
        ).len(),
        hits_lines(hits, 0).len() == 0,
    decreases n,
{
    let before = hits_lines(hits, i);
    let all = hits_lines(hits, n);
    let part = hit_lines(i + 1, hits[i]);
    if i + 1 == n {
        assert(all.subrange(before.len() as int, (before.len() + part.len()) as int) =~= part);
        assert(before =~= all.subrange(0, before.len() as int));
    } else {
        law_every_hit_is_printed(hits, n - 1, i);
        let most = hits_lines(hits, n - 1);
        let lo = before.len() as int;
        let hi = (before.len() + part.len()) as int;
        assert(all.subrange(lo, hi) =~= most.subrange(lo, hi));
        assert(before =~= all.subrange(0, lo)) by {
            assert(most.subrange(0, lo) =~= before);
        }
    }
}

/// Of a document its title, path and status are printed, then its time of modification, its
/// headings and how many links it has, where it has any, an empty line, and every line of
/// it, as it is.
pub proof fn law_document_is_printed(preview: PreviewDocument)
    ensures
        ({
            let lines = show_lines(preview);
            let times: int = if preview.modified_at is Some {
                1
            } else {
                0
            };
            let headings: int = if preview.headings@.len() > 0 {
                1
            } else {
                0
            };
            let links: int = if preview.links@.len() > 0 {
                1
            } else {
                0
            };
            let top = 4 + times + headings + links;
            &&& lines.len() == top + preview.body_lines@.len()
            &&& lines[0] == preview.title@
            &&& lines[1] == preview.path@
            &&& lines[2] == "status: "@ + status_name(preview.status)
            &&& preview.modified_at matches Some(time) ==> lines[3] == "modified_at: "@ + time@
            &&& preview.headings@.len() > 0 ==> lines[3 + times] == "headings: "@ + joined(
                texts(preview.headings@),
                " | "@,
            )
            &&& preview.links@.len() > 0 ==> lines[3 + times + headings] == "links: "@ + decimal(
                preview.links@.len() as int,
            )
            &&& lines[top - 1] == ""@
            &&& forall|k: int|
                0 <= k < preview.body_lines@.len() ==> lines[top + k]
                    == (#[trigger] preview.body_lines@[k])@
        }),
{
    let lines = show_lines(preview);
    let body = texts(preview.body_lines@);
    let head = lines.len() - body.len();
    assert forall|k: int| 0 <= k < preview.body_lines@.len() implies lines[head + k]
        == (#[trigger] preview.body_lines@[k])@ by {
        assert(lines[head + k] == body[k]);
    }
}

/// What the arguments ask for is done with the mirror and the index that they name, or those
/// in their default places; a mirror that is named for indexing alone comes first.
pub proof fn law_arguments(task: Task, cli: Cli)
    requires
        is_task_for(task, cli),
    ensures
        cli.command matches Command::Index(args) ==> (task matches Task::Index { service } && (
        args.source matches Some(path) ==> service.source_path() == path@) && (args.source is None
            && cli.source is Some ==> service.source_path() == cli.source->0@) && (
        cli.index_db matches Some(path) ==> service.index_file() == path@)),
        cli.command matches Command::Search(args) ==> (task matches Task::Search { service, query }
            && query.text@ == args.query@ && query.limit == args.limit && opt_text(query.path_filter)
            == opt_text(args.path) && (query.mode == SearchMode::Regex <==> args.regex) && (
        cli.source matches Some(path) ==> service.source_path() == path@) && (
        cli.index_db matches Some(path) ==> service.index_file() == path@)),
        cli.command matches Command::Show(args) ==> (task matches Task::Show { service, target }
            && target@ == args.target@ && (cli.source matches Some(path) ==> service.source_path()
            == path@) && (cli.index_db matches Some(path) ==> service.index_file() == path@)),
        cli.command matches Command::Open(args) ==> (task matches Task::Open { service, target }
            && target@ == args.target@ && (cli.source matches Some(path) ==> service.source_path()
            == path@) && (cli.index_db matches Some(path) ==> service.index_file() == path@)),
        cli.command is Doctor <==> task is Doctor,
        cli.command is Tui <==> task is Tui,
        cli.command matches Command::Scrape(args) ==> task == Task::Scrape(args),
{
}

/// After indexing, the mirror, the index and the four counts are printed, each in its line.
pub proof fn law_indexing_is_reported(source: Seq<char>, index: Seq<char>, stats: IndexStats)
    ensures
        index_report(source, index, stats).len() == 6,
        source.is_suffix_of(index_report(source, index, stats)[0]),
        index.is_suffix_of(index_report(source, index, stats)[1]),
        index_report(source, index, stats)[2] == "documents: "@ + decimal(stats.indexed as int),
        index_report(source, index, stats)[3] == "updated: "@ + decimal(stats.updated as int),
        index_report(source, index, stats)[4] == "unchanged: "@ + decimal(stats.unchanged as int),
        index_report(source, index, stats)[5] == "removed: "@ + decimal(stats.removed as int),
        truth(true) == "true"@,
        truth(false) == "false"@,
{
    let a = index_report(source, index, stats)[0];
    let b = index_report(source, index, stats)[1];
    assert(source =~= a.subrange(a.len() - source.len(), a.len() as int));
    assert(index =~= b.subrange(b.len() - index.len(), b.len() as int));
}

} // verus!
