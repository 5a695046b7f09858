//! The requests that the command line and the terminal interface make: what is looked
//! up for each of them, and what is shown of what was found.

use crate::document::{
    default_index_path, display_path_from_rel, is_default_index_path, DocumentRecord,
    DocumentStatus, SearchHit, SearchMode, SearchQuery,
};
use crate::error::SearchError;
use crate::fs_source::{is_scan_of, FilesystemSource, SourceFile};
use crate::index::{
    first_lookup_of, index_documents, is_index_plan, next_lookup_of, resolve_document, row_count,
    row_limit_of, IndexPlan, Lookup, LookupView, Resolution, StoredDocument, StoredView,
};
use crate::links::{percent_encode, percent_encoded, url_decoded};
use crate::number::{decimal, int_text};
use crate::order::is_sort_of;
use crate::paths::{is_joined_path, join_path, opt_text};
use crate::pattern::replaced;
use crate::text::{blank, is_blank, is_space, lines, lines_of, owned, texts};
use crate::text_set::entry_map;
use vstd::prelude::*;
use vstd::string::*;
use vstd::utf8::*;

verus! {

/// A document as it is shown.
#[derive(Debug, Clone)]
pub struct PreviewDocument {
    pub title: String,
    pub path: String,
    pub status: DocumentStatus,
    pub modified_at: Option<String>,
    pub headings: Vec<String>,
    pub links: Vec<String>,
    pub body_lines: Vec<String>,
}

/// A shown document by its texts.
#[verifier::ext_equal]
pub struct PreviewView {
    pub title: Seq<char>,
    pub path: Seq<char>,
    pub status: DocumentStatus,
    pub modified_at: Option<Seq<char>>,
    pub headings: Seq<Seq<char>>,
    pub links: Seq<Seq<char>>,
    pub body_lines: Seq<Seq<char>>,
}

impl View for PreviewDocument {
    type V = PreviewView;

    open spec fn view(&self) -> PreviewView {
        PreviewView {
            title: self.title@,
            path: self.path@,
            status: self.status,
            modified_at: opt_text(self.modified_at),
            headings: texts(self.headings@),
            links: texts(self.links@),
            body_lines: texts(self.body_lines@),
        }
    }
}

/// What is shown of a document that the reader may not see.
pub const GATED_MESSAGE: &'static str =
    "This document is indexed as permission-gated and does not store searchable body text.";

/// What is shown of a document that could not be parsed.
pub const PARSE_ERROR_MESSAGE: &'static str = "This document was indexed with a parse error.";

/// The lines that are shown of a stored document.
pub open spec fn shown_lines(doc: StoredView) -> Seq<Seq<char>> {
    match doc.status {
        DocumentStatus::Okay => lines_of(doc.body),
        DocumentStatus::PermissionDenied => seq![GATED_MESSAGE@],
        DocumentStatus::ParseError => seq![PARSE_ERROR_MESSAGE@],
    }
}

/// What is shown of a stored document.
pub open spec fn preview_of(doc: StoredView) -> PreviewView {
    PreviewView {
        title: doc.title,
        path: doc.display_path,
        status: doc.status,
        modified_at: doc.modified_at,
        headings: doc.headings,
        links: doc.links,
        body_lines: shown_lines(doc),
    }
}

fn one_line(line: &str) -> (r: Vec<String>)
    ensures
        texts(r@) == seq![line@],
{
    let mut out: Vec<String> = Vec::new();
    out.push(owned(line));
    assert(texts(out@) =~= seq![line@]);
    out
}

/// What is shown of a stored document.
pub fn map_preview(doc: StoredDocument) -> (r: PreviewDocument)
    ensures
        r@ == preview_of(doc@),
{
    let body_lines: Vec<String> = match doc.status {
        DocumentStatus::Okay => lines(doc.body.as_str()),
        DocumentStatus::PermissionDenied => one_line(GATED_MESSAGE),
        DocumentStatus::ParseError => one_line(PARSE_ERROR_MESSAGE),
    };
    PreviewDocument {
        title: doc.title,
        path: doc.display_path,
        status: doc.status,
        modified_at: doc.modified_at,
        headings: doc.headings,
        links: doc.links,
        body_lines,
    }
}

/// What a search asks of the index.
#[derive(Debug, Clone)]
pub enum SearchRequest {
    /// The first documents in the order of their titles, of those whose path the filter
    /// lets through. So many rows are asked for, or all where the number is negative.
    List { row_limit: i64, path_filter: Option<String>, limit: usize },
    /// The documents that a full-text query finds.
    FullText(SearchQuery),
}

/// Whether a request is what a search for a text asks: the list of documents where
/// the text is blank. All rows are asked for where a filter may drop some.
pub open spec fn is_request_for(
    text: Seq<char>,
    filter: Option<Seq<char>>,
    limit: usize,
    request: SearchRequest,
) -> bool {
    match request {
        SearchRequest::List { row_limit, path_filter, limit: most } => {
            &&& blank(text)
            &&& row_limit == (if filter is None {
                row_count(limit as int)
            } else {
                -1
            })
            &&& opt_text(path_filter) == filter
            &&& most == limit
        },
        SearchRequest::FullText(query) => {
            &&& !blank(text)
            &&& query.text@ == text
            &&& query.mode == SearchMode::FullText
            &&& opt_text(query.path_filter) == filter
            &&& query.limit == limit
        },
    }
}

/// How the search for a document to show goes on.
pub enum PreviewStep {
    Show(PreviewDocument),
    Try(Lookup),
    Missing,
}

/// A mirror and its index.
#[derive(Debug, Clone)]
pub struct SearchService {
    source: String,
    index_path: String,
}

impl SearchService {
    /// The directory of the mirror.
    pub closed spec fn source_path(&self) -> Seq<char> {
        self.source@
    }

    /// The file of the index.
    pub closed spec fn index_file(&self) -> Seq<char> {
        self.index_path@
    }

    /// The service for a mirror, with its index in the default place where none is
    /// named.
    pub fn new(source: String, index_db: Option<String>) -> (r: Self)
        ensures
            r.source_path() == source@,
            index_db matches Some(path) ==> r.index_file() == path@,
            index_db is None ==> is_default_index_path(r.index_file()),
    {
        let index_path: String = match index_db {
            Some(path) => path,
            None => default_index_path(),
        };
        SearchService { source, index_path }
    }

    /// The directory of the mirror.
    pub fn source(&self) -> (r: &str)
        ensures
            r@ == self.source_path(),
    {
        self.source.as_str()
    }

    /// The file of the index.
    pub fn index_path(&self) -> (r: &str)
        ensures
            r@ == self.index_file(),
    {
        self.index_path.as_str()
    }

    /// An error where the mirror is not there.
    pub fn ensure_source_exists(&self, exists: bool) -> (r: Result<(), SearchError>)
        ensures
            r is Ok == exists,
            r matches Err(e) ==> e matches SearchError::SourceMissing(path) && path@
                == self.source_path(),
    {
        if exists {
            Ok(())
        } else {
            Err(SearchError::SourceMissing(self.source.clone()))
        }
    }

    /// The documents of the mirror, and what has to be done so that the index, whose
    /// paths and hashes are `existing`, holds them.
    pub fn index_documents(
        &self,
        exists: bool,
        files: &Vec<SourceFile>,
        existing: &Vec<(String, String)>,
    ) -> (r: Result<(Vec<DocumentRecord>, IndexPlan), SearchError>)
        ensures
            r is Ok == exists,
            r matches Err(e) ==> e matches SearchError::SourceMissing(path) && path@
                == self.source_path(),
            r matches Ok((docs, plan)) ==> is_index_plan(entry_map(existing@), docs@, plan)
                && is_scan_of(files@, docs@),
    {
        match self.ensure_source_exists(exists) {
            Ok(_) => {
                let docs: Vec<DocumentRecord> = FilesystemSource::new(
                    self.source.clone(),
                ).scan_documents(files);
                let plan: IndexPlan = index_documents(existing, &docs);
                Ok((docs, plan))
            },
            Err(e) => Err(e),
        }
    }

    /// What a search for a text asks of the index.
    pub fn search(&self, query_text: &str, limit: usize) -> (r: SearchRequest)
        ensures
            is_request_for(query_text@, None, limit, r),
    {
        self.search_below(query_text, None, limit)
    }

    /// What a search for a text asks of the index, in the paths that a filter lets
    /// through.
    pub fn search_below(&self, query_text: &str, path_filter: Option<String>, limit: usize) -> (r:
        SearchRequest)
        ensures
            is_request_for(query_text@, opt_text(path_filter), limit, r),
    {
        if is_blank(query_text) {
            let row_limit: i64 = match &path_filter {
                None => row_limit_of(limit),
                Some(_) => -1,
            };
            SearchRequest::List { row_limit, path_filter, limit }
        } else {
            SearchRequest::FullText(
                SearchQuery {
                    text: owned(query_text),
                    mode: SearchMode::FullText,
                    path_filter,
                    limit,
                },
            )
        }
    }

    /// How the document of a hit is looked up.
    pub fn preview_for_hit(&self, hit: &SearchHit) -> (r: Lookup)
        ensures
            r@ == LookupView::ById(hit.doc_id),
    {
        Lookup::ById(hit.doc_id)
    }

    /// What is shown of the document that a number was found to stand for.
    pub fn preview_by_id(&self, found: Option<StoredDocument>) -> (r: Option<PreviewDocument>)
        ensures
            match found {
                Some(doc) => r matches Some(preview) && preview@ == preview_of(doc@),
                None => r is None,
            },
    {
        match found {
            Some(doc) => Some(map_preview(doc)),
            None => None,
        }
    }

    /// How the search for a document to show goes on after a lookup.
    pub fn preview_for_target(
        &self,
        lookup: &Lookup,
        target: &str,
        found: Option<StoredDocument>,
    ) -> (r: PreviewStep)
        ensures
            match found {
                Some(doc) => r matches PreviewStep::Show(preview) && preview@ == preview_of(doc@),
                None => match next_lookup_of(lookup@, target@) {
                    Some(next) => r matches PreviewStep::Try(l) && l@ == next,
                    None => r is Missing,
                },
            },
    {
        match resolve_document(lookup, target, found) {
            Resolution::Found(doc) => PreviewStep::Show(map_preview(doc)),
            Resolution::Try(next) => PreviewStep::Try(next),
            Resolution::Missing => PreviewStep::Missing,
        }
    }

    /// The target under which the document of a hit is opened.
    pub fn open_hit(&self, hit: &SearchHit) -> (r: String)
        ensures
            r@ == decimal(hit.doc_id as int),
            first_lookup_of(r@) == LookupView::ById(hit.doc_id),
    {
        proof {
            crate::index::law_number_is_looked_up(hit.doc_id);
        }
        int_text(hit.doc_id)
    }

    /// The file to open for a target: that of the document that was found, else the
    /// target itself, each looked up from the mirror.
    pub fn open_target(&self, found: &Option<StoredDocument>, target: &str) -> (r: String)
        ensures
            is_joined_path(
                self.source_path(),
                match *found {
                    Some(doc) => doc.rel_path@,
                    None => target@,
                },
                r@,
            ),
    {
        match found {
            Some(doc) => join_path(self.source.as_str(), doc.rel_path.as_str()),
            None => join_path(self.source.as_str(), target),
        }
    }

    /// The path that the page of a target is shown under: that of the document that
    /// was found, else the target itself.
    pub fn page_of_target(&self, found: &Option<StoredDocument>, target: &str) -> (r: String)
        ensures
            r@ == (match *found {
                Some(doc) => doc.display_path@,
                None => replaced(target@, "\\"@, "/"@),
            }),
    {
        match found {
            Some(doc) => doc.display_path.clone(),
            None => display_path_from_rel(target),
        }
    }

    /// The file of a target that the index does not know.
    pub fn read_direct_file(&self, target: &str) -> (r: String)
        ensures
            is_joined_path(self.source_path(), target@, r@),
    {
        join_path(self.source.as_str(), target)
    }
}

/// The path of a file to open, or an error where it is not there.
pub fn ensure_file_exists(path: String, exists: bool) -> (r: Result<String, SearchError>)
    ensures
        exists ==> r == Ok::<String, SearchError>(path),
        !exists ==> r == Err::<String, SearchError>(SearchError::FileMissing(path)),
{
    if exists {
        Ok(path)
    } else {
        Err(SearchError::FileMissing(path))
    }
}

/// The address of a page on the site.
pub open spec fn page_url(display_path: Seq<char>) -> Seq<char> {
    "https://htl.dev/md/"@ + percent_encoded(display_path)
}

/// The address that the browser opens for a path.
pub fn open_in_browser(display_path: &str) -> (r: String)
    ensures
        r@ == page_url(display_path@),
{
    let encoded: String = percent_encode(display_path);
    owned("https://htl.dev/md/").concat(encoded.as_str())
}

/// A document that the reader may not see is shown as one line, which says so.
pub proof fn law_gated_preview_shows_message(doc: StoredView)
    requires
        doc.status == DocumentStatus::PermissionDenied,
    ensures
        preview_of(doc).status == DocumentStatus::PermissionDenied,
        preview_of(doc).body_lines == seq![GATED_MESSAGE@],
{
}

/// What is shown of a document is what is stored of it: every line of a text that can be
/// read, and else one line that says why there is none.
pub proof fn law_preview_shows_the_document(doc: StoredView)
    ensures
        preview_of(doc).title == doc.title,
        preview_of(doc).path == doc.display_path,
        preview_of(doc).status == doc.status,
        preview_of(doc).modified_at == doc.modified_at,
        preview_of(doc).headings == doc.headings,
        preview_of(doc).links == doc.links,
        doc.status == DocumentStatus::Okay ==> preview_of(doc).body_lines == lines_of(doc.body),
        doc.status == DocumentStatus::ParseError ==> preview_of(doc).body_lines == seq![
            PARSE_ERROR_MESSAGE@,
        ],
{
}

/// A search for a blank text lists documents, as many as are wanted, or all where a filter
/// may drop some. Any other search looks for its text, in the paths that its filter lets
/// through.
pub proof fn law_search_requests(
    text: Seq<char>,
    filter: Option<Seq<char>>,
    limit: usize,
    request: SearchRequest,
)
    requires
        is_request_for(text, filter, limit, request),
    ensures
        request is List <==> forall|i: int| 0 <= i < text.len() ==> is_space(#[trigger] text[i]),
        request matches SearchRequest::List { row_limit, path_filter, limit: most } ==> {
            &&& opt_text(path_filter) == filter
            &&& most == limit
            &&& filter is Some ==> row_limit < 0
            &&& filter is None && limit <= i64::MAX ==> row_limit == limit
        },
        request matches SearchRequest::FullText(query) ==> {
            &&& query.text@ == text
            &&& query.mode == SearchMode::FullText
            &&& opt_text(query.path_filter) == filter
            &&& query.limit == limit
        },
{
    crate::text::law_trimmed(text);
}

/// The page of a document is found on the site under its path below the content root, which
/// decoding gives back where it is ASCII.
pub proof fn law_page_url(path: Seq<char>)
    ensures
        "https://htl.dev/md/"@.is_prefix_of(page_url(path)),
        is_ascii_chars(path) ==> url_decoded(
            page_url(path).skip("https://htl.dev/md/"@.len() as int),
        ) == path,
{
    let base = "https://htl.dev/md/"@;
    assert(base =~= page_url(path).subrange(0, base.len() as int));
    assert(page_url(path).skip(base.len() as int) =~= percent_encoded(path));
    if is_ascii_chars(path) {
        crate::links::law_decode_of_encode_ascii(path);
    }
}

} // verus!
