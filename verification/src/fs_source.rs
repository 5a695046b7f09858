//! The mirror as a source of documents: reading files, and searching them by regular
//! expression.

use crate::digest::{content_hash, content_hash_of};
use crate::document::{
    content_status, detect_status, display_path_from_rel, extract_headings, extract_links,
    extract_title, headings_of, hit_views, line_views, links_of, modified_at_string, title_of,
    title_or, DocumentRecord, DocumentStatus, HitView, LineMatch, LineView, RecordView, SearchHit,
    SearchMode, SearchQuery,
};
use crate::error::SearchError;
use crate::number::decimal;
use crate::order::{is_sort_of, sort_by_text, text_less, Keyed};
use crate::paths::{
    begins_with_two_separators, extension, has_plain_extension, is_extension, is_plain_path,
    is_separator, is_stem, last_at, opt_text, path_extension,
};
use crate::pattern::{law_replaced_character, replaced};
use crate::pieces::{are_places, lemma_places_push, rises};
use crate::text::{lines, lines_of, owned, same, texts, trimmed};
use vstd::prelude::*;
use vstd::string::*;
use vstd::utf8::*;

verus! {

// ---------------------------------------------------------------------------
// Globs
// ---------------------------------------------------------------------------

/// Whether a text means the same as a path or a glob on every system: it holds no
/// backslash.
pub open spec fn portable(s: Seq<char>) -> bool {
    !s.contains('\\')
}

/// A set of glob patterns that is ready to match.
#[verifier::external_type_specification]
#[verifier::external_body]
pub struct ExGlobSet(globset::GlobSet);

/// The patterns that a set was built from.
pub uninterp spec fn glob_patterns(set: globset::GlobSet) -> Seq<Seq<char>>;

/// Why a text is not a glob pattern, where backslashes separate names or else escape;
/// nothing where it is one.
pub uninterp spec fn glob_refusal(pattern: Seq<char>, separates: bool) -> Option<Seq<char>>;

/// Why no set can be built of a text, where backslashes separate names or else escape
/// and machine words have so many bits; nothing where one can be built.
pub uninterp spec fn glob_set_refusal(pattern: Seq<char>, separates: bool, word_bits: u32) -> Option<
    Seq<char>,
>;

/// Whether a path matches a glob pattern, where backslashes separate names or else
/// escape.
pub uninterp spec fn glob_match(pattern: Seq<char>, separates: bool, path: Seq<char>) -> bool;

/// `globset::Glob::new`: the text of its error, which depends on the pattern alone;
/// nothing where it gives none.
///
/// A backslash separates or escapes, as the system has it, so a pattern that holds one
/// is read in one of these two ways.
#[verifier::external_body]
fn glob_error(pattern: &str) -> (r: Option<String>)
    ensures
        exists|separates: bool| opt_text(r) == #[trigger] glob_refusal(pattern@, separates),
        portable(pattern@) ==> opt_text(r) == glob_refusal(pattern@, false),
{
    globset::Glob::new(pattern).err().map(|e| e.to_string())
}

/// Why a set was not built; nothing where it was.
pub open spec fn failure_of(r: Result<globset::GlobSet, String>) -> Option<Seq<char>> {
    match r {
        Ok(_) => None,
        Err(cause) => Some(cause@),
    }
}

/// `globset::GlobSetBuilder::build`, on the one glob of a pattern: a set of that pattern,
/// or the text of an error that depends on the pattern alone, and on the width of
/// machine words, since what a pattern is compiled to may not take too much memory.
///
/// A backslash separates or escapes, as the system has it, so a pattern that holds one
/// is read in one of these two ways.
#[verifier::external_body]
fn build_glob_set(pattern: &str) -> (r: Result<globset::GlobSet, String>)
    ensures
        exists|separates: bool|
            failure_of(r) == #[trigger] glob_set_refusal(pattern@, separates, usize::BITS),
        portable(pattern@) ==> failure_of(r) == glob_set_refusal(pattern@, false, usize::BITS),
        r matches Ok(set) ==> glob_patterns(set) == seq![pattern@],
{
    let glob = globset::Glob::new(pattern).map_err(|e| e.to_string())?;
    globset::GlobSetBuilder::new().add(glob).build().map_err(|e| e.to_string())
}

/// `globset::GlobSet::is_match`: whether any pattern of the set matches the path.
///
/// Backslashes in the patterns separate or escape, and those in the path separate or
/// stand for themselves, as the system has it, so they are read in one of these two ways.
#[verifier::external_body]
fn glob_set_matches(set: &globset::GlobSet, path: &str) -> (r: bool)
    ensures
        r == (exists|i: int|
            0 <= i < glob_patterns(*set).len() && glob_match(
                #[trigger] glob_patterns(*set)[i],
                false,
                path@,
            )) || r == (exists|i: int|
            0 <= i < glob_patterns(*set).len() && glob_match(
                #[trigger] glob_patterns(*set)[i],
                true,
                path@,
            )),
        portable(path@) && all_portable(*set) ==> r == (exists|i: int|
            0 <= i < glob_patterns(*set).len() && glob_match(
                #[trigger] glob_patterns(*set)[i],
                false,
                path@,
            )),
{
    set.is_match(path)
}

/// Whether the patterns of a set mean the same on every system.
pub open spec fn all_portable(set: globset::GlobSet) -> bool {
    forall|i: int|
        0 <= i < glob_patterns(set).len() ==> portable(#[trigger] glob_patterns(set)[i])
}

/// Whether any pattern of a set matches a path.
pub open spec fn any_match(set: globset::GlobSet, separates: bool, path: Seq<char>) -> bool {
    exists|i: int|
        0 <= i < glob_patterns(set).len() && glob_match(
            #[trigger] glob_patterns(set)[i],
            separates,
            path,
        )
}

/// Whether `answer` says if a set matches a path, as some system reads them.
pub open spec fn is_set_answer(set: globset::GlobSet, path: Seq<char>, answer: bool) -> bool {
    &&& exists|separates: bool| answer == #[trigger] any_match(set, separates, path)
    &&& portable(path) && all_portable(set) ==> answer == any_match(set, false, path)
}

/// Whether a path filter, if there is one, lets a path through.
pub open spec fn path_kept(filter: Option<Seq<char>>, separates: bool, path: Seq<char>) -> bool {
    match filter {
        Some(pattern) => glob_match(pattern, separates, path),
        None => true,
    }
}

/// Whether a path filter, if there is one, means the same on every system.
pub open spec fn portable_filter(filter: Option<Seq<char>>) -> bool {
    match filter {
        Some(pattern) => portable(pattern),
        None => true,
    }
}

/// Whether `refusal` says why a text is not a glob pattern, or that it is one, as some
/// system reads it.
pub open spec fn is_glob_refusal(pattern: Seq<char>, refusal: Option<Seq<char>>) -> bool {
    &&& exists|separates: bool| refusal == #[trigger] glob_refusal(pattern, separates)
    &&& portable(pattern) ==> refusal == glob_refusal(pattern, false)
}

/// Whether `refusal` says why no set can be built of a text, or that one can be, as some
/// system reads it.
pub open spec fn is_set_refusal(pattern: Seq<char>, refusal: Option<Seq<char>>) -> bool {
    &&& exists|separates: bool|
        refusal == #[trigger] glob_set_refusal(pattern, separates, usize::BITS)
    &&& portable(pattern) ==> refusal == glob_set_refusal(pattern, false, usize::BITS)
}

/// Whether a path filter, if there is one, is a glob pattern of which a set can be built,
/// as some system reads it.
pub open spec fn may_be_valid(filter: Option<Seq<char>>) -> bool {
    match filter {
        Some(pattern) => is_glob_refusal(pattern, None) && is_set_refusal(pattern, None),
        None => true,
    }
}

/// Whether a path filter that means the same on every system, if there is one, is a glob
/// pattern of which a set can be built.
pub open spec fn valid_filter(filter: Option<Seq<char>>) -> bool {
    match filter {
        Some(pattern) => glob_refusal(pattern, false) is None && glob_set_refusal(
            pattern,
            false,
            usize::BITS,
        ) is None,
        None => true,
    }
}

/// The pattern of a matcher that was made of a path filter.
pub open spec fn matcher_of(filter: Option<Seq<char>>, matcher: Option<globset::GlobSet>) -> bool {
    match filter {
        Some(pattern) => matcher matches Some(set) && glob_patterns(set) == seq![pattern],
        None => matcher is None,
    }
}

/// An optional text by its characters.
pub open spec fn opt_str(s: Option<&str>) -> Option<Seq<char>> {
    match s {
        Some(t) => Some(t@),
        None => None,
    }
}

/// Whether an error is what a path filter is refused with: why it is not a glob pattern,
/// or else why no matcher can be built of it.
pub open spec fn is_filter_error(filter: Option<Seq<char>>, error: SearchError) -> bool {
    match filter {
        Some(p) => match error {
            SearchError::InvalidGlob { pattern, cause } => pattern@ == p && is_glob_refusal(
                p,
                Some(cause@),
            ),
            SearchError::GlobSet { cause } => is_glob_refusal(p, None) && is_set_refusal(
                p,
                Some(cause@),
            ),
            _ => false,
        },
        None => false,
    }
}

/// The matcher of a path filter; none where there is no filter.
pub fn compile_glob_filter(pattern: Option<&str>) -> (r: Result<
    Option<globset::GlobSet>,
    SearchError,
>)
    ensures
        portable_filter(opt_str(pattern)) ==> r is Ok == valid_filter(opt_str(pattern)),
        r matches Ok(matcher) ==> may_be_valid(opt_str(pattern)) && matcher_of(
            opt_str(pattern),
            matcher,
        ),
        r matches Err(e) ==> is_filter_error(opt_str(pattern), e),
{
    match pattern {
        None => Ok(None),
        Some(p) => match glob_error(p) {
            Some(cause) => Err(SearchError::InvalidGlob { pattern: owned(p), cause }),
            None => match build_glob_set(p) {
                Ok(set) => Ok(Some(set)),
                Err(cause) => Err(SearchError::GlobSet { cause }),
            },
        },
    }
}

/// Whether a matcher, if there is one, lets a path through.
pub fn path_matches(matcher: Option<&globset::GlobSet>, path: &str) -> (r: bool)
    ensures
        match matcher {
            None => r,
            Some(set) => is_set_answer(*set, path@, r),
        },
{
    match matcher {
        None => true,
        Some(set) => {
            let answer: bool = glob_set_matches(set, path);
            assert(answer == any_match(*set, false, path@) || answer == any_match(
                *set,
                true,
                path@,
            ));
            answer
        },
    }
}

/// Whether a path filter, ready to match as `matcher`, lets a path through.
pub(crate) fn filter_keeps(
    Ghost(filter): Ghost<Option<Seq<char>>>,
    matcher: &Option<globset::GlobSet>,
    path: &str,
) -> (r: bool)
    requires
        matcher_of(filter, *matcher),
    ensures
        kept_one(r, filter, path@),
{
    match matcher {
        None => {
            assert(path_kept(filter, false, path@));
            path_matches(None, path)
        },
        Some(set) => {
            proof {
                lemma_set_answers_for_filter(filter, *set, path@);
            }
            path_matches(Some(set), path)
        },
    }
}

/// What a set of the one pattern of a filter answers is what the filter says.
pub(crate) proof fn lemma_set_answers_for_filter(
    filter: Option<Seq<char>>,
    set: globset::GlobSet,
    path: Seq<char>,
)
    requires
        matcher_of(filter, Some(set)),
    ensures
        forall|answer: bool|
            #[trigger] is_set_answer(set, path, answer) ==> kept_one(answer, filter, path),
{
    assert(glob_patterns(set)[0] == filter->0);
    assert(all_portable(set) == portable_filter(filter));
    assert forall|separates: bool|
        #[trigger] any_match(set, separates, path) == path_kept(filter, separates, path) by {}
}

/// The name of a way to search.
pub fn search_mode_name(mode: SearchMode) -> (r: &'static str)
    ensures
        r@ == (match mode {
            SearchMode::FullText => "full-text"@,
            SearchMode::Regex => "regex"@,
        }),
{
    match mode {
        SearchMode::FullText => "full-text",
        SearchMode::Regex => "regex",
    }
}

// ---------------------------------------------------------------------------
// Reading documents
// ---------------------------------------------------------------------------

/// The text that bytes stand for, where what is not UTF-8 is replaced.
pub uninterp spec fn lossy_text(bytes: Seq<u8>) -> Seq<char>;

/// `String::from_utf8_lossy`: the text of valid UTF-8, and of other bytes a text
/// with replacement characters in it.
#[verifier::external_body]
fn decode_lossy(bytes: &Vec<u8>) -> (r: String)
    ensures
        r@ == lossy_text(bytes@),
        valid_utf8(bytes@) ==> r@ == decode_utf8(bytes@),
{
    String::from_utf8_lossy(bytes).into_owned()
}

/// Whether a path ends in a name with the extension of markdown documents on every
/// system.
pub open spec fn ends_in_markdown(path: Seq<char>) -> bool {
    let n = path.len() as int;
    &&& n > 3
    &&& ".md"@.is_suffix_of(path)
    &&& !is_separator(path[n - 4]) && path[n - 4] != ':'
}

/// Whether `answer` says if a path is that of a markdown document, by its extension, as
/// some system reads the path.
pub open spec fn is_markdown_answer(path: Seq<char>, answer: bool) -> bool {
    &&& is_plain_path(path) ==> answer == (path_extension(path) == Some("md"@))
    &&& !begins_with_two_separators(path) && ends_in_markdown(path) ==> answer
    &&& answer && !is_separator(path.last()) && path.last() != '.' ==> ".md"@.is_suffix_of(path)
    &&& exists|ext: Option<Seq<char>>| #[trigger]
        is_extension(path, ext) && answer == (ext == Some("md"@))
}

/// Whether a file of the mirror is a markdown document, by its extension.
pub fn is_markdown(path: &str) -> (r: bool)
    ensures
        is_markdown_answer(path@, r),
{
    let ext: Option<String> = extension(path);
    proof {
        reveal_strlit("md");
        reveal_strlit(".md");
        reveal_strlit(".");
        assert("."@ + "md"@ =~= ".md"@);
        if ends_in_markdown(path@) {
            lemma_markdown_extension(path@);
        }
    }
    match ext {
        Some(ext) => same(ext.as_str(), "md"),
        None => false,
    }
}

proof fn lemma_markdown_extension(path: Seq<char>)
    requires
        ends_in_markdown(path),
    ensures
        has_plain_extension(path),
        path.skip(last_at(path, '.', path.len() as int) + 1) == "md"@,
{
    reveal_strlit("md");
    reveal_strlit(".md");
    let n = path.len() as int;
    assert(path.skip(n - 3) == ".md"@);
    assert(path.skip(n - 3)[0] == '.' && path.skip(n - 3)[1] == 'm' && path.skip(n - 3)[2] == 'd');
    assert(path[n - 3] == '.' && path[n - 2] == 'm' && path[n - 1] == 'd');
    reveal_with_fuel(last_at, 4);
    assert(path.skip(n - 2) =~= "md"@);
}

/// A file of the mirror as it was read.
#[derive(Debug, Clone)]
pub struct SourceFile {
    /// Its path below the root of the mirror, where need be with replacements.
    pub rel_path: String,
    /// Its own name, where need be with replacements.
    pub name: String,
    /// Whether its name is valid text.
    pub named: bool,
    pub raw: Vec<u8>,
    /// When it was modified, in seconds since the epoch, where that is known.
    pub modified: Option<u64>,
}

/// The document that a file holds, where its title is known.
pub open spec fn record_of(file: SourceFile, title: Seq<char>) -> RecordView {
    let content = lossy_text(file.raw@);
    RecordView {
        rel_path: file.rel_path@,
        display_path: replaced(file.rel_path@, "\\"@, "/"@),
        title,
        body: if content_status(content) == DocumentStatus::PermissionDenied {
            seq![]
        } else {
            content
        },
        headings: headings_of(content),
        links: links_of(content),
        status: content_status(content),
        modified_at: match file.modified {
            Some(n) => Some(decimal(n as int)),
            None => None,
        },
        hash: content_hash_of(content),
    }
}

/// Whether `doc` is the document that a file holds, the bytes of which are read as the
/// text that they encode where they are valid UTF-8. Where its title has to be taken
/// from the file's path, it is the stem of the path as some system reads it.
pub open spec fn is_record_of(file: SourceFile, doc: RecordView) -> bool {
    &&& doc == record_of(file, doc.title)
    &&& !file.named ==> doc.title == title_of(lossy_text(file.raw@), None)
    &&& file.named ==> exists|stem: Option<Seq<char>>|
        is_stem(file.rel_path@, stem) && doc.title == #[trigger] title_of(
            lossy_text(file.raw@),
            stem,
        )
    &&& valid_utf8(file.raw@) ==> lossy_text(file.raw@) == decode_utf8(file.raw@)
}

/// The values that are marked.
pub open spec fn marked_of<T>(v: Seq<T>, marked: Seq<bool>) -> Seq<T>
    decreases v.len(),
{
    if v.len() == 0 {
        seq![]
    } else if marked[v.len() - 1] {
        marked_of(v.drop_last(), marked).push(v.last())
    } else {
        marked_of(v.drop_last(), marked)
    }
}

/// Whether each file is marked that is a markdown document by its name, and no other.
pub open spec fn marks_markdown(files: Seq<SourceFile>, marked: Seq<bool>) -> bool {
    &&& marked.len() == files.len()
    &&& forall|i: int|
        0 <= i < files.len() ==> is_markdown_answer(files[i].name@, #[trigger] marked[i])
}

/// Whether `docs` are the documents that files hold, one for each.
pub open spec fn are_records_of(files: Seq<SourceFile>, docs: Seq<DocumentRecord>) -> bool {
    &&& docs.len() == files.len()
    &&& forall|i: int| 0 <= i < docs.len() ==> is_record_of(files[i], (#[trigger] docs[i])@)
}

/// Whether `docs` are the documents that the markdown files among `files` hold, in the
/// order of their paths.
pub open spec fn is_scan_of(files: Seq<SourceFile>, docs: Seq<DocumentRecord>) -> bool {
    exists|marked: Seq<bool>, read: Seq<DocumentRecord>|
        {
            &&& #[trigger] marks_markdown(files, marked)
            &&& are_records_of(marked_of(files, marked), read)
            &&& #[trigger] is_sort_of(read, docs)
        }
}

impl Keyed for DocumentRecord {
    open spec fn key(&self) -> Seq<char> {
        self.rel_path@
    }

    fn text(&self) -> (r: &str) {
        self.rel_path.as_str()
    }
}

/// A mirror of the site on disk.
#[derive(Debug, Clone)]
pub struct FilesystemSource {
    root: String,
}

impl FilesystemSource {
    /// The directory of the mirror.
    pub closed spec fn root_path(&self) -> Seq<char> {
        self.root@
    }

    /// The mirror in a directory.
    pub fn new(root: String) -> (r: Self)
        ensures
            r.root_path() == root@,
    {
        FilesystemSource { root }
    }

    /// The directory of the mirror.
    pub fn root(&self) -> (r: &str)
        ensures
            r@ == self.root_path(),
    {
        self.root.as_str()
    }

    /// The document that a file of the mirror holds.
    pub fn read_document(&self, file: &SourceFile) -> (r: DocumentRecord)
        ensures
            is_record_of(*file, r@),
    {
        let content: String = decode_lossy(&file.raw);
        let status: DocumentStatus = detect_status(content.as_str());
        let title: String = if file.named {
            extract_title(content.as_str(), file.rel_path.as_str())
        } else {
            title_or(content.as_str(), None)
        };
        let body: String = match status {
            DocumentStatus::PermissionDenied => String::new(),
            _ => content.clone(),
        };
        DocumentRecord {
            rel_path: file.rel_path.clone(),
            display_path: display_path_from_rel(file.rel_path.as_str()),
            title,
            body,
            headings: extract_headings(content.as_str()),
            links: extract_links(content.as_str()),
            status,
            modified_at: modified_at_string(file.modified),
            hash: content_hash(content.as_str()),
        }
    }

    /// The documents that the markdown files among the files of the mirror hold, in the
    /// order of their paths.
    pub fn scan_documents(&self, files: &Vec<SourceFile>) -> (r: Vec<DocumentRecord>)
        ensures
            is_scan_of(files@, r@),
    {
        let mut docs: Vec<DocumentRecord> = Vec::new();
        let ghost mut marked: Seq<bool> = seq![];
        let mut i: usize = 0;
        assert(files@.take(0) =~= seq![]);
        while i < files.len()
            invariant
                i <= files@.len(),
                marks_markdown(files@.take(i as int), marked),
                are_records_of(marked_of(files@.take(i as int), marked), docs@),
            decreases files@.len() - i,
        {
            let keep: bool = is_markdown(files[i].name.as_str());
            let ghost before = marked;
            proof {
                marked = marked.push(keep);
                assert(files@.take(i + 1).drop_last() =~= files@.take(i as int));
                lemma_marked_by_prefix(files@.take(i as int), before, marked);
            }
            if keep {
                docs.push(self.read_document(&files[i]));
            }
            i += 1;
        }
        assert(files@.take(i as int) =~= files@);
        sort_by_text(docs)
    }

    /// The documents that a regular expression matches a line of: the first so many of
    /// `docs` that can be read and whose path the filter lets through, each with the
    /// first of its lines that match.
    ///
    /// A filter with a backslash is read as the system has it.
    pub fn regex_search(&self, docs: &Vec<DocumentRecord>, query: &SearchQuery) -> (r: Result<
        Vec<SearchHit>,
        SearchError,
    >)
        ensures
            portable_filter(opt_text(query.path_filter)) ==> {
                &&& r is Ok <==> valid_filter(opt_text(query.path_filter)) && regex_valid(query.text@)
                &&& (r is Err && !(r->Err_0 is InvalidRegex)) <==> !valid_filter(
                    opt_text(query.path_filter),
                )
            },
            r matches Err(e) ==> {
                ||| is_filter_error(opt_text(query.path_filter), e)
                ||| e matches SearchError::InvalidRegex { query: text, cause } && may_be_valid(
                    opt_text(query.path_filter),
                ) && text@ == query.text@ && regex_refusal(query.text@, usize::BITS) == Some(cause@)
            },
            r matches Ok(hits) ==> may_be_valid(opt_text(query.path_filter)) && regex_valid(
                query.text@,
            ) && exists|kept: Seq<bool>|
                {
                    &&& kept_as(kept, opt_text(query.path_filter), docs@)
                    &&& hit_views(hits@) == #[trigger] hits_of(
                        docs@,
                        kept,
                        all_matched(query.text@, docs@),
                        query.limit as int,
                    )
                    &&& answers_search(
                        docs@,
                        kept,
                        query.text@,
                        query.limit as int,
                        hit_views(hits@),
                    )
                },
    {
        let ghost filter = opt_text(query.path_filter);
        let pattern: Option<&str> = match &query.path_filter {
            Some(pattern) => Some(pattern.as_str()),
            None => None,
        };
        let matcher: Option<globset::GlobSet> = match compile_glob_filter(pattern) {
            Ok(matcher) => matcher,
            Err(e) => {
                return Err(e);
            },
        };
        let regex: regex::Regex = match compile_regex(query.text.as_str()) {
            Ok(regex) => regex,
            Err(cause) => {
                return Err(SearchError::InvalidRegex { query: query.text.clone(), cause });
            },
        };
        let mut bodies: Vec<Vec<String>> = Vec::new();
        let mut kept: Vec<bool> = Vec::new();
        let mut i: usize = 0;
        while i < docs.len()
            invariant
                matcher_of(filter, matcher),
                i <= docs@.len(),
                bodies@.len() == i,
                kept@.len() == i,
                forall|j: int|
                    0 <= j < i ==> texts((#[trigger] bodies@[j])@) == lines_of(docs@[j].body@),
                forall|j: int|
                    0 <= j < i ==> kept_one(#[trigger] kept@[j], filter, docs@[j].display_path@),
            decreases docs@.len() - i,
        {
            bodies.push(lines(docs[i].body.as_str()));
            kept.push(filter_keeps(Ghost(filter), &matcher, docs[i].display_path.as_str()));
            i += 1;
        }
        let matched: Vec<Vec<bool>> = match_bodies(&regex, &bodies);
        proof {
            assert forall|j: int| 0 <= j < matched@.len() implies (#[trigger] matched@[j])@
                == matched_in(query.text@, lines_of(docs@[j].body@)) by {
                assert(texts(bodies@[j]@) == lines_of(docs@[j].body@));
            }
            assert(Seq::new(matched@.len(), |j: int| matched@[j]@) =~= all_matched(
                query.text@,
                docs@,
            ));
        }
        proof {
            law_regex_search_is_complete(docs@, kept@, query.text@, query.limit as int);
        }
        Ok(regex_hits(docs, &kept, &matched, query.limit))
    }
}

// ---------------------------------------------------------------------------
// Searching by regular expression
// ---------------------------------------------------------------------------

/// A regular expression that is ready to match.
#[verifier::external_type_specification]
#[verifier::external_body]
pub struct ExRegex(regex::Regex);

/// The text that a regular expression was compiled from.
pub uninterp spec fn regex_pattern(regex: regex::Regex) -> Seq<char>;

/// Why a text cannot be compiled as a regular expression, where machine words have so
/// many bits; nothing where it can.
pub uninterp spec fn regex_refusal(pattern: Seq<char>, word_bits: u32) -> Option<Seq<char>>;

/// Whether a regular expression matches somewhere in a text.
pub uninterp spec fn regex_match(pattern: Seq<char>, text: Seq<char>) -> bool;

/// `regex::Regex::new`: a regular expression that keeps the text it was compiled from, or
/// the text of an error that depends on that text alone, and on the width of machine words, since
/// what it is compiled to may not take too much memory.
#[verifier::external_body]
fn compile_regex(pattern: &str) -> (r: Result<regex::Regex, String>)
    ensures
        r is Ok == regex_refusal(pattern@, usize::BITS) is None,
        r matches Ok(regex) ==> regex_pattern(regex) == pattern@,
        r matches Err(text) ==> regex_refusal(pattern@, usize::BITS) == Some(text@),
{
    regex::Regex::new(pattern).map_err(|e| e.to_string())
}

/// `regex::Regex::is_match`: whether the expression matches anywhere in a text, which
/// depends on what it was compiled from and on that text alone.
#[verifier::external_body]
fn regex_matches(regex: &regex::Regex, text: &str) -> (r: bool)
    ensures
        r == regex_match(regex_pattern(*regex), text@),
{
    regex.is_match(text)
}

/// Whether a text is a regular expression that can be compiled.
pub open spec fn regex_valid(pattern: Seq<char>) -> bool {
    regex_refusal(pattern, usize::BITS) is None
}

/// Of each line, whether a regular expression matches in it.
pub open spec fn matched_in(pattern: Seq<char>, ls: Seq<Seq<char>>) -> Seq<bool> {
    Seq::new(ls.len(), |i: int| regex_match(pattern, ls[i]))
}

/// Of each line, whether a regular expression matches in it.
fn match_lines(regex: &regex::Regex, all: &Vec<String>) -> (r: Vec<bool>)
    ensures
        r@ == matched_in(regex_pattern(*regex), texts(all@)),
{
    let mut out: Vec<bool> = Vec::new();
    let mut i: usize = 0;
    while i < all.len()
        invariant
            i <= all@.len(),
            out@.len() == i,
            forall|j: int|
                0 <= j < i ==> #[trigger] out@[j] == regex_match(regex_pattern(*regex), all@[j]@),
        decreases all@.len() - i,
    {
        out.push(regex_matches(regex, all[i].as_str()));
        i += 1;
    }
    assert(out@ =~= matched_in(regex_pattern(*regex), texts(all@)));
    out
}

/// Of each line of each text, whether a regular expression matches in it.
fn match_bodies(regex: &regex::Regex, bodies: &Vec<Vec<String>>) -> (r: Vec<Vec<bool>>)
    ensures
        r@.len() == bodies@.len(),
        forall|i: int|
            0 <= i < r@.len() ==> (#[trigger] r@[i])@ == matched_in(
                regex_pattern(*regex),
                texts(bodies@[i]@),
            ),
{
    let mut out: Vec<Vec<bool>> = Vec::new();
    let mut i: usize = 0;
    while i < bodies.len()
        invariant
            i <= bodies@.len(),
            out@.len() == i,
            forall|j: int|
                0 <= j < i ==> (#[trigger] out@[j])@ == matched_in(
                    regex_pattern(*regex),
                    texts(bodies@[j]@),
                ),
        decreases bodies@.len() - i,
    {
        out.push(match_lines(regex, &bodies[i]));
        i += 1;
    }
    out
}

/// Of each line of each document, whether a regular expression matches in it.
pub open spec fn all_matched(pattern: Seq<char>, docs: Seq<DocumentRecord>) -> Seq<Seq<bool>> {
    Seq::new(docs.len(), |i: int| matched_in(pattern, lines_of(docs[i].body@)))
}

/// Whether `kept` is what a filter says of a path, as some system reads them.
pub open spec fn kept_one(kept: bool, filter: Option<Seq<char>>, path: Seq<char>) -> bool {
    &&& exists|separates: bool| kept == #[trigger] path_kept(filter, separates, path)
    &&& portable_filter(filter) && portable(path) ==> kept == path_kept(filter, false, path)
}

/// Whether `kept` is what a filter says of the paths of the documents.
pub open spec fn kept_as(
    kept: Seq<bool>,
    filter: Option<Seq<char>>,
    docs: Seq<DocumentRecord>,
) -> bool {
    &&& kept.len() == docs.len()
    &&& forall|i: int|
        0 <= i < docs.len() ==> kept_one(#[trigger] kept[i], filter, docs[i].display_path@)
}

/// The first `n` of a sequence, or all of it.
pub open spec fn first<T>(v: Seq<T>, n: int) -> Seq<T> {
    if v.len() <= n {
        v
    } else {
        v.take(n)
    }
}

/// The lines that are marked, with their numbers.
pub open spec fn numbered(ls: Seq<Seq<char>>, marked: Seq<bool>) -> Seq<LineView>
    decreases ls.len(),
{
    if ls.len() == 0 {
        seq![]
    } else {
        let before = numbered(ls.drop_last(), marked);
        if marked[ls.len() - 1] {
            before.push(LineView { number: ls.len() as int, line: ls.last() })
        } else {
            before
        }
    }
}

/// How many matching lines are shown of a document.
pub const SHOWN_LINES: usize = 5;

/// The hit that a document is, where it can be read, is kept and has a marked line.
pub open spec fn document_hit(doc: DocumentRecord, kept: bool, marked: Seq<bool>) -> Option<
    HitView,
> {
    let found = first(numbered(lines_of(doc.body@), marked), SHOWN_LINES as int);
    if doc.status == DocumentStatus::Okay && kept && found.len() > 0 {
        Some(
            HitView {
                doc_id: 0,
                path: doc.display_path@,
                title: doc.title@,
                score: None,
                snippet: found[0].line,
                line_matches: found,
            },
        )
    } else {
        None
    }
}

/// The hits among the first `n` documents.
pub open spec fn hits_among(
    docs: Seq<DocumentRecord>,
    kept: Seq<bool>,
    marked: Seq<Seq<bool>>,
    n: int,
) -> Seq<HitView>
    decreases n,
{
    if n <= 0 {
        seq![]
    } else {
        let before = hits_among(docs, kept, marked, n - 1);
        match document_hit(docs[n - 1], kept[n - 1], marked[n - 1]) {
            Some(hit) => before.push(hit),
            None => before,
        }
    }
}

/// The first hits among documents, as many as the limit allows.
pub open spec fn hits_of(
    docs: Seq<DocumentRecord>,
    kept: Seq<bool>,
    marked: Seq<Seq<bool>>,
    limit: int,
) -> Seq<HitView> {
    first(hits_among(docs, kept, marked, docs.len() as int), limit)
}

proof fn lemma_numbered_grows(ls: Seq<Seq<char>>, marked: Seq<bool>, i: int)
    requires
        0 <= i <= ls.len(),
    ensures
        numbered(ls.take(i), marked).is_prefix_of(numbered(ls, marked)),
    decreases ls.len(),
{
    if i == ls.len() {
        assert(ls.take(i) =~= ls);
    } else {
        lemma_numbered_grows(ls.drop_last(), marked, i);
        assert(ls.drop_last().take(i) =~= ls.take(i));
        assert(numbered(ls.drop_last(), marked).is_prefix_of(numbered(ls, marked)));
    }
}

proof fn lemma_hits_grow(
    docs: Seq<DocumentRecord>,
    kept: Seq<bool>,
    marked: Seq<Seq<bool>>,
    i: int,
    n: int,
)
    requires
        0 <= i <= n,
    ensures
        hits_among(docs, kept, marked, i).is_prefix_of(hits_among(docs, kept, marked, n)),
    decreases n,
{
    if i < n {
        lemma_hits_grow(docs, kept, marked, i, n - 1);
    }
}

/// The first of the marked lines, with their numbers.
fn marked_lines(all: &Vec<String>, marked: &Vec<bool>) -> (r: Vec<LineMatch>)
    requires
        marked@.len() == all@.len(),
    ensures
        line_views(r@) == first(numbered(texts(all@), marked@), SHOWN_LINES as int),
{
    let ghost ls = texts(all@);
    let n: usize = all.len();
    let mut out: Vec<LineMatch> = Vec::new();
    let mut i: usize = 0;
    assert(line_views(out@) =~= numbered(ls.take(0), marked@));
    while i < n && out.len() < SHOWN_LINES
        invariant
            n == all@.len(),
            marked@.len() == n,
            ls == texts(all@),
            i <= n,
            out@.len() <= SHOWN_LINES,
            line_views(out@) == numbered(ls.take(i as int), marked@),
        decreases n - i,
    {
        assert(ls.take(i + 1).drop_last() =~= ls.take(i as int));
        if marked[i] {
            let ghost before = out@;
            out.push(LineMatch { line_number: i + 1, line: all[i].clone() });
            assert(line_views(out@) =~= line_views(before).push(
                LineView { number: i + 1, line: ls[i as int] },
            ));
        }
        i += 1;
    }
    proof {
        lemma_numbered_grows(ls, marked@, i as int);
        assert(ls.take(ls.len() as int) =~= ls);
        assert(line_views(out@) =~= first(numbered(ls, marked@), SHOWN_LINES as int));
    }
    out
}

/// The first hits among documents of which it is known whether they are kept and
/// which of their lines match.
pub fn regex_hits(
    docs: &Vec<DocumentRecord>,
    kept: &Vec<bool>,
    matched: &Vec<Vec<bool>>,
    limit: usize,
) -> (r: Vec<SearchHit>)
    requires
        kept@.len() == docs@.len(),
        matched@.len() == docs@.len(),
        forall|i: int|
            0 <= i < docs@.len() ==> (#[trigger] matched@[i])@.len() == lines_of(
                docs@[i].body@,
            ).len(),
    ensures
        hit_views(r@) == hits_of(
            docs@,
            kept@,
            Seq::new(matched@.len(), |j: int| matched@[j]@),
            limit as int,
        ),
{
    let ghost marked = Seq::new(matched@.len(), |j: int| matched@[j]@);
    let n: usize = docs.len();
    let mut hits: Vec<SearchHit> = Vec::new();
    let mut i: usize = 0;
    assert(hit_views(hits@) =~= hits_among(docs@, kept@, marked, 0));
    while i < n && hits.len() < limit
        invariant
            n == docs@.len(),
            kept@.len() == n,
            matched@.len() == n,
            forall|j: int|
                0 <= j < n ==> (#[trigger] matched@[j])@.len() == lines_of(docs@[j].body@).len(),
            marked == Seq::new(matched@.len(), |j: int| matched@[j]@),
            i <= n,
            hits@.len() <= limit,
            hit_views(hits@) == hits_among(docs@, kept@, marked, i as int),
        decreases n - i,
    {
        let ghost before = hits@;
        if docs[i].status == DocumentStatus::Okay && kept[i] {
            let all: Vec<String> = lines(docs[i].body.as_str());
            assert(texts(all@).len() == all@.len());
            assert(matched@[i as int]@.len() == all@.len());
            let found: Vec<LineMatch> = marked_lines(&all, &matched[i]);
            if found.len() > 0 {
                let ghost views = line_views(found@);
                let snippet: String = found[0].line.clone();
                hits.push(
                    SearchHit {
                        doc_id: 0,
                        path: docs[i].display_path.clone(),
                        title: docs[i].title.clone(),
                        score: None,
                        snippet,
                        line_matches: found,
                    },
                );
                proof {
                    assert(views[0].line == snippet@);
                    assert(document_hit(docs@[i as int], kept@[i as int], marked[i as int])
                        == Some(hits@.last()@));
                    assert(hit_views(hits@) =~= hit_views(before).push(hits@.last()@));
                }
            }
        }
        assert(hits@ == before ==> document_hit(
            docs@[i as int],
            kept@[i as int],
            marked[i as int],
        ) is None);
        i += 1;
    }
    proof {
        lemma_hits_grow(docs@, kept@, marked, i as int, n as int);
        assert(hit_views(hits@) =~= hits_of(docs@, kept@, marked, limit as int));
    }
    hits
}

/// Whether a value stands at a marked place.
pub open spec fn at_a_mark<T>(v: Seq<T>, marked: Seq<bool>, x: T) -> bool {
    exists|i: int| 0 <= i < v.len() && #[trigger] marked[i] && v[i] == x
}

pub(crate) proof fn lemma_marked_places<T>(v: Seq<T>, marked: Seq<bool>)
    ensures
        forall|k: int|
            0 <= k < marked_of(v, marked).len() ==> at_a_mark(
                v,
                marked,
                #[trigger] marked_of(v, marked)[k],
            ),
    decreases v.len(),
{
    if v.len() > 0 {
        let before = v.drop_last();
        lemma_marked_places(before, marked);
        assert forall|k: int| 0 <= k < marked_of(v, marked).len() implies at_a_mark(
            v,
            marked,
            #[trigger] marked_of(v, marked)[k],
        ) by {
            let x = marked_of(v, marked)[k];
            if k < marked_of(before, marked).len() {
                assert(x == marked_of(before, marked)[k]);
                let i = choose|i: int|
                    0 <= i < before.len() && #[trigger] marked[i] && before[i] == x;
                assert(marked[i] && v[i] == x);
            } else {
                assert(marked[v.len() - 1] && v[v.len() - 1] == x);
            }
        }
    }
}

pub(crate) proof fn lemma_marked_len<T>(v: Seq<T>, marked: Seq<bool>)
    ensures
        marked_of(v, marked).len() <= v.len(),
    decreases v.len(),
{
    if v.len() > 0 {
        lemma_marked_len(v.drop_last(), marked);
    }
}

proof fn lemma_mark_is_taken<T>(v: Seq<T>, marked: Seq<bool>, i: int)
    requires
        0 <= i < v.len(),
        marked[i],
    ensures
        marked_of(v, marked).contains(v[i]),
    decreases v.len(),
{
    let taken = marked_of(v.drop_last(), marked);
    if i == v.len() - 1 {
        assert(marked_of(v, marked)[taken.len() as int] == v[i]);
    } else {
        lemma_mark_is_taken(v.drop_last(), marked, i);
        let k = choose|k: int| 0 <= k < taken.len() && taken[k] == v.drop_last()[i];
        assert(marked_of(v, marked)[k] == v[i]);
    }
}

/// Whether a document is among those that were scanned of a file.
pub open spec fn is_scanned(file: SourceFile, docs: Seq<DocumentRecord>) -> bool {
    exists|k: int| 0 <= k < docs.len() && is_record_of(file, (#[trigger] docs[k])@)
}

/// Exactly the markdown files of the mirror are scanned: each file whose name ends in the
/// extension has its document, and each document is that of a file whose name has the
/// extension.
pub proof fn law_markdown_files_are_scanned(files: Seq<SourceFile>, docs: Seq<DocumentRecord>)
    requires
        is_scan_of(files, docs),
    ensures
        docs.len() <= files.len(),
        forall|i: int|
            0 <= i < files.len() && ends_in_markdown((#[trigger] files[i]).name@)
                && !begins_with_two_separators(files[i].name@) ==> is_scanned(files[i], docs),
        forall|i: int|
            0 <= i < files.len() && is_plain_path((#[trigger] files[i]).name@) && path_extension(
                files[i].name@,
            ) == Some("md"@) ==> is_scanned(files[i], docs),
        forall|k: int|
            0 <= k < docs.len() ==> exists|i: int|
                0 <= i < files.len() && is_markdown_answer((#[trigger] files[i]).name@, true)
                    && is_record_of(files[i], (#[trigger] docs[k])@),
{
    let (marked, read) = choose|marked: Seq<bool>, read: Seq<DocumentRecord>|
        {
            &&& #[trigger] marks_markdown(files, marked)
            &&& are_records_of(marked_of(files, marked), read)
            &&& #[trigger] is_sort_of(read, docs)
        };
    let taken = marked_of(files, marked);
    lemma_marked_places(files, marked);
    lemma_marked_len(files, marked);
    read.to_multiset_ensures();
    docs.to_multiset_ensures();
    assert forall|i: int| 0 <= i < files.len() && marked[i] implies is_scanned(
        #[trigger] files[i],
        docs,
    ) by {
        lemma_mark_is_taken(files, marked, i);
        let j = choose|j: int| 0 <= j < taken.len() && taken[j] == files[i];
        assert(is_record_of(taken[j], read[j]@));
        assert(read.to_multiset().count(read[j]) > 0);
        assert(docs.contains(read[j]));
    }
    assert forall|i: int| 0 <= i < files.len() implies is_markdown_answer(
        (#[trigger] files[i]).name@,
        marked[i],
    ) by {}
    assert forall|k: int| 0 <= k < docs.len() implies exists|i: int|
        0 <= i < files.len() && is_markdown_answer((#[trigger] files[i]).name@, true)
            && is_record_of(files[i], (#[trigger] docs[k])@) by {
        assert(docs.to_multiset().count(docs[k]) > 0);
        assert(read.contains(docs[k]));
        let j = choose|j: int| 0 <= j < read.len() && read[j] == docs[k];
        assert(at_a_mark(files, marked, taken[j]));
        let i = choose|i: int| 0 <= i < files.len() && #[trigger] marked[i] && files[i] == taken[j];
        assert(is_markdown_answer(files[i].name@, true));
        assert(is_record_of(taken[j], read[j]@));
    }
}

proof fn lemma_marked_by_prefix<T>(v: Seq<T>, marked: Seq<bool>, longer: Seq<bool>)
    requires
        v.len() <= marked.len(),
        marked.is_prefix_of(longer),
    ensures
        marked_of(v, marked) == marked_of(v, longer),
    decreases v.len(),
{
    if v.len() > 0 {
        lemma_marked_by_prefix(v.drop_last(), marked, longer);
    }
}

/// A document that may not be read, or of which no line matches, is no hit; one that
/// is a hit shows a line that matches.
pub proof fn law_hit_shows_a_match(doc: DocumentRecord, kept: bool, pattern: Seq<char>)
    ensures
        document_hit(doc, kept, matched_in(pattern, lines_of(doc.body@))) is Some <==> doc.status
            == DocumentStatus::Okay && kept && exists|i: int|
            0 <= i < lines_of(doc.body@).len() && regex_match(
                pattern,
                #[trigger] lines_of(doc.body@)[i],
            ),
{
    let ls = lines_of(doc.body@);
    let marked = matched_in(pattern, ls);
    lemma_numbered_exists(ls, marked);
    if exists|i: int| 0 <= i < ls.len() && regex_match(pattern, #[trigger] ls[i]) {
        let i = choose|i: int| 0 <= i < ls.len() && regex_match(pattern, #[trigger] ls[i]);
        assert(marked[i]);
    }
    if exists|i: int| 0 <= i < ls.len() && #[trigger] marked[i] {
        let i = choose|i: int| 0 <= i < ls.len() && #[trigger] marked[i];
        assert(regex_match(pattern, ls[i]));
    }
}

proof fn lemma_numbered_exists(ls: Seq<Seq<char>>, marked: Seq<bool>)
    requires
        marked.len() >= ls.len(),
    ensures
        numbered(ls, marked).len() > 0 <==> exists|i: int| 0 <= i < ls.len() && #[trigger] marked[i],
    decreases ls.len(),
{
    if ls.len() > 0 {
        lemma_numbered_exists(ls.drop_last(), marked);
    }
}

/// A search by regular expression gives at most as many hits as its limit allows, and
/// each hit is a document that can be read, that the filter keeps and of which a line
/// matches.
pub proof fn law_hits_are_documents(
    docs: Seq<DocumentRecord>,
    kept: Seq<bool>,
    marked: Seq<Seq<bool>>,
    limit: int,
)
    requires
        0 <= limit,
    ensures
        hits_of(docs, kept, marked, limit).len() <= limit,
        forall|k: int|
            0 <= k < hits_of(docs, kept, marked, limit).len() ==> exists|i: int|
                0 <= i < docs.len() && document_hit(#[trigger] docs[i], kept[i], marked[i]) == Some(
                    #[trigger] hits_of(docs, kept, marked, limit)[k],
                ),
{
    let all = hits_among(docs, kept, marked, docs.len() as int);
    lemma_hits_are_documents(docs, kept, marked, docs.len() as int);
    assert forall|k: int| 0 <= k < hits_of(docs, kept, marked, limit).len() implies exists|i: int|
        0 <= i < docs.len() && document_hit(#[trigger] docs[i], kept[i], marked[i]) == Some(
            #[trigger] hits_of(docs, kept, marked, limit)[k],
        ) by {
        assert(hits_of(docs, kept, marked, limit)[k] == all[k]);
    }
}

proof fn lemma_hits_are_documents(
    docs: Seq<DocumentRecord>,
    kept: Seq<bool>,
    marked: Seq<Seq<bool>>,
    n: int,
)
    requires
        0 <= n <= docs.len(),
    ensures
        forall|k: int|
            0 <= k < hits_among(docs, kept, marked, n).len() ==> exists|i: int|
                0 <= i < n && document_hit(#[trigger] docs[i], kept[i], marked[i]) == Some(
                    #[trigger] hits_among(docs, kept, marked, n)[k],
                ),
    decreases n,
{
    if n > 0 {
        let before = hits_among(docs, kept, marked, n - 1);
        let all = hits_among(docs, kept, marked, n);
        lemma_hits_are_documents(docs, kept, marked, n - 1);
        assert forall|k: int| 0 <= k < all.len() implies exists|i: int|
            0 <= i < n && document_hit(#[trigger] docs[i], kept[i], marked[i]) == Some(
                #[trigger] all[k],
            ) by {
            if k < before.len() {
                assert(all[k] == before[k]);
                let i = choose|i: int|
                    0 <= i < n - 1 && document_hit(#[trigger] docs[i], kept[i], marked[i]) == Some(
                        before[k],
                    );
                assert(document_hit(docs[i], kept[i], marked[i]) == Some(all[k]));
            } else {
                assert(document_hit(docs[n - 1], kept[n - 1], marked[n - 1]) == Some(all[k]));
            }
        }
    }
}

/// Of a document that the reader may not see no text is kept, and it is never a hit.
pub proof fn law_gated_document_has_no_text(
    file: SourceFile,
    doc: DocumentRecord,
    kept: bool,
    marked: Seq<bool>,
)
    requires
        is_record_of(file, doc@),
        crate::document::PERMISSION_DENIED_PREFIX@.is_prefix_of(
            crate::text::trimmed(lossy_text(file.raw@)),
        ),
    ensures
        doc@.status == DocumentStatus::PermissionDenied,
        doc@.body == Seq::<char>::empty(),
        document_hit(doc, kept, marked) is None,
{
}

// ---------------------------------------------------------------------------
// Laws of searching
// ---------------------------------------------------------------------------

/// The first values are as many as there are or as are asked for, each in its place.
pub proof fn law_first<T>(v: Seq<T>, n: int)
    requires
        0 <= n,
    ensures
        first(v, n).len() == (if v.len() < n {
            v.len() as int
        } else {
            n
        }),
        forall|i: int| 0 <= i < first(v, n).len() ==> #[trigger] first(v, n)[i] == v[i],
{
}

/// Whether a regular expression matches in a line of a text.
pub open spec fn has_match(pattern: Seq<char>, body: Seq<char>) -> bool {
    exists|l: int| 0 <= l < lines_of(body).len() && regex_match(pattern, #[trigger] lines_of(body)[l])
}

/// Whether a document is to be found: it can be read, is kept, and a line of it matches.
pub open spec fn is_to_be_found(doc: DocumentRecord, kept: bool, pattern: Seq<char>) -> bool {
    doc.status == DocumentStatus::Okay && kept && has_match(pattern, doc.body@)
}

/// Whether `hits` are the answer to a search: the first of the documents that are to be
/// found, in order, as many as the limit allows. Where a document that is to be found is
/// no hit, there are as many hits as the limit allows, all of documents before it.
pub open spec fn answers_search(
    docs: Seq<DocumentRecord>,
    kept: Seq<bool>,
    pattern: Seq<char>,
    limit: int,
    hits: Seq<HitView>,
) -> bool {
    &&& hits.len() <= limit
    &&& exists|at: Seq<int>|
        {
            &&& #[trigger] rises(at)
            &&& at.len() == hits.len()
            &&& forall|k: int|
                0 <= k < at.len() ==> {
                    &&& 0 <= #[trigger] at[k] < docs.len()
                    &&& is_to_be_found(docs[at[k]], kept[at[k]], pattern)
                    &&& hits[k].path == docs[at[k]].display_path@
                    &&& hits[k].title == docs[at[k]].title@
                    &&& shows_lines(pattern, docs[at[k]].body@, hits[k])
                }
            &&& forall|i: int|
                0 <= i < docs.len() && is_to_be_found(#[trigger] docs[i], kept[i], pattern) ==> (
                at.contains(i) || at.len() == limit && forall|k: int|
                    0 <= k < at.len() ==> #[trigger] at[k] < i)
        }
}

/// Whether a hit shows lines of a text that match, in order and with their numbers from one
/// on: all of them, or the first five. The first of them stands for the hit.
pub open spec fn shows_lines(pattern: Seq<char>, body: Seq<char>, hit: HitView) -> bool {
    let ls = lines_of(body);
    &&& 1 <= hit.line_matches.len() <= 5
    &&& hit.snippet == hit.line_matches[0].line
    &&& forall|k: int|
        0 <= k < hit.line_matches.len() ==> {
            &&& 1 <= (#[trigger] hit.line_matches[k]).number <= ls.len()
            &&& hit.line_matches[k].line == ls[hit.line_matches[k].number - 1]
            &&& regex_match(pattern, hit.line_matches[k].line)
        }
    &&& forall|j: int, k: int|
        0 <= j < k < hit.line_matches.len() ==> (#[trigger] hit.line_matches[j]).number < (
        #[trigger] hit.line_matches[k]).number
    &&& forall|l: int|
        0 <= l < ls.len() && regex_match(pattern, #[trigger] ls[l]) ==> (exists|k: int|
            0 <= k < hit.line_matches.len() && (#[trigger] hit.line_matches[k]).number == l + 1) || (
        hit.line_matches.len() == 5 && forall|k: int|
            0 <= k < 5 ==> (#[trigger] hit.line_matches[k]).number <= l)
}

proof fn lemma_numbered(ls: Seq<Seq<char>>, marked: Seq<bool>)
    requires
        marked.len() >= ls.len(),
    ensures
        forall|k: int|
            0 <= k < numbered(ls, marked).len() ==> {
                &&& 1 <= (#[trigger] numbered(ls, marked)[k]).number <= ls.len()
                &&& numbered(ls, marked)[k].line == ls[numbered(ls, marked)[k].number - 1]
                &&& marked[numbered(ls, marked)[k].number - 1]
            },
        forall|j: int, k: int|
            0 <= j < k < numbered(ls, marked).len() ==> (#[trigger] numbered(ls, marked)[j]).number
                < (#[trigger] numbered(ls, marked)[k]).number,
        forall|l: int|
            0 <= l < ls.len() && #[trigger] marked[l] ==> exists|k: int|
                0 <= k < numbered(ls, marked).len() && (#[trigger] numbered(ls, marked)[k]).number
                    == l + 1,
    decreases ls.len(),
{
    if ls.len() > 0 {
        let init = ls.drop_last();
        lemma_numbered(init, marked);
        let before = numbered(init, marked);
        let all = numbered(ls, marked);
        assert forall|k: int| 0 <= k < before.len() implies #[trigger] all[k] == before[k] by {}
        assert forall|l: int| 0 <= l < ls.len() && #[trigger] marked[l] implies exists|k: int|
            0 <= k < all.len() && (#[trigger] all[k]).number == l + 1 by {
            if l < ls.len() - 1 {
                let k = choose|k: int|
                    0 <= k < before.len() && (#[trigger] before[k]).number == l + 1;
                assert(all[k].number == l + 1);
            } else {
                assert(all[before.len() as int].number == l + 1);
            }
        }
    }
}

proof fn lemma_hit_lines(doc: DocumentRecord, kept: bool, pattern: Seq<char>)
    ensures
        ({
            let hit = document_hit(doc, kept, matched_in(pattern, lines_of(doc.body@)));
            &&& hit is Some <==> is_to_be_found(doc, kept, pattern)
            &&& hit is Some ==> hit->0.path == doc.display_path@ && hit->0.title == doc.title@
                && shows_lines(pattern, doc.body@, hit->0)
        }),
{
    let ls = lines_of(doc.body@);
    let marked = matched_in(pattern, ls);
    let all = numbered(ls, marked);
    lemma_numbered(ls, marked);
    law_hit_shows_a_match(doc, kept, pattern);
    law_first(all, 5);
    if document_hit(doc, kept, marked) is Some {
        let hit = document_hit(doc, kept, marked)->0;
        assert(hit.line_matches == first(all, 5));
        assert forall|k: int| 0 <= k < hit.line_matches.len() implies #[trigger] hit.line_matches[k]
            == all[k] by {}
        assert forall|l: int| 0 <= l < ls.len() && regex_match(pattern, #[trigger] ls[l]) implies (
        exists|k: int|
            0 <= k < hit.line_matches.len() && (#[trigger] hit.line_matches[k]).number == l + 1) || (
        hit.line_matches.len() == 5 && forall|k: int|
            0 <= k < 5 ==> (#[trigger] hit.line_matches[k]).number <= l) by {
            assert(marked[l]);
            let m = choose|m: int| 0 <= m < all.len() && (#[trigger] all[m]).number == l + 1;
            if m < hit.line_matches.len() {
                assert(hit.line_matches[m].number == l + 1);
            } else {
                assert forall|k: int| 0 <= k < 5 implies (
                #[trigger] hit.line_matches[k]).number <= l by {
                    assert(all[k].number < all[m].number);
                }
            }
        }
    }
}

proof fn lemma_hit_places(
    docs: Seq<DocumentRecord>,
    kept: Seq<bool>,
    marked: Seq<Seq<bool>>,
    n: int,
) -> (at: Seq<int>)
    requires
        0 <= n <= docs.len(),
    ensures
        are_places(
            docs.take(n),
            |i: int| document_hit(docs[i], kept[i], marked[i]) is Some,
            at,
        ),
        at.len() == hits_among(docs, kept, marked, n).len(),
        forall|k: int|
            0 <= k < at.len() ==> document_hit(
                docs[#[trigger] at[k]],
                kept[at[k]],
                marked[at[k]],
            ) == Some(hits_among(docs, kept, marked, n)[k]),
    decreases n,
{
    let keep = |i: int| document_hit(docs[i], kept[i], marked[i]) is Some;
    if n == 0 {
        assert(are_places(docs.take(n), keep, Seq::empty()));
        Seq::empty()
    } else {
        let at = lemma_hit_places(docs, kept, marked, n - 1);
        assert(docs.take(n) =~= docs.take(n - 1).push(docs[n - 1]));
        lemma_places_push(docs.take(n - 1), docs[n - 1], keep, at);
        let more = if keep(n - 1) {
            at.push(n - 1)
        } else {
            at
        };
        let before = hits_among(docs, kept, marked, n - 1);
        let all = hits_among(docs, kept, marked, n);
        assert forall|k: int| 0 <= k < more.len() implies document_hit(
            docs[#[trigger] more[k]],
            kept[more[k]],
            marked[more[k]],
        ) == Some(all[k]) by {
            if k < at.len() {
                assert(more[k] == at[k]);
                assert(all[k] == before[k]);
            }
        }
        more
    }
}

/// A search by regular expression finds every document that is to be found, up to its
/// limit, and shows what matches in it.
pub proof fn law_regex_search_is_complete(
    docs: Seq<DocumentRecord>,
    kept: Seq<bool>,
    pattern: Seq<char>,
    limit: int,
)
    requires
        0 <= limit,
        kept.len() == docs.len(),
    ensures
        answers_search(
            docs,
            kept,
            pattern,
            limit,
            hits_of(docs, kept, all_matched(pattern, docs), limit),
        ),
{
    let marked = all_matched(pattern, docs);
    let n = docs.len() as int;
    let keep = |i: int| document_hit(docs[i], kept[i], marked[i]) is Some;
    let places = lemma_hit_places(docs, kept, marked, n);
    let all = hits_among(docs, kept, marked, n);
    let hits = hits_of(docs, kept, marked, limit);
    let at = first(places, limit);
    law_first(all, limit);
    law_first(places, limit);
    assert(docs.take(n) =~= docs);
    assert(rises(at)) by {
        assert forall|j: int, k: int| 0 <= j < k < at.len() implies #[trigger] at[j]
            < #[trigger] at[k] by {
            assert(places[j] < places[k]);
        }
    }
    assert forall|k: int| 0 <= k < at.len() implies {
        &&& 0 <= #[trigger] at[k] < docs.len()
        &&& is_to_be_found(docs[at[k]], kept[at[k]], pattern)
        &&& hits[k].path == docs[at[k]].display_path@
        &&& hits[k].title == docs[at[k]].title@
        &&& shows_lines(pattern, docs[at[k]].body@, hits[k])
    } by {
        assert(at[k] == places[k]);
        assert(keep(places[k]));
        assert(hits[k] == all[k]);
        lemma_hit_lines(docs[at[k]], kept[at[k]], pattern);
    }
    assert forall|i: int|
        0 <= i < docs.len() && is_to_be_found(#[trigger] docs[i], kept[i], pattern) implies (
    at.contains(i) || at.len() == limit && forall|k: int|
        0 <= k < at.len() ==> #[trigger] at[k] < i) by {
        lemma_hit_lines(docs[i], kept[i], pattern);
        assert(keep(i));
        let m = choose|m: int| 0 <= m < places.len() && places[m] == i;
        if m < at.len() {
            assert(at[m] == i);
        } else {
            assert forall|k: int| 0 <= k < at.len() implies #[trigger] at[k] < i by {
                assert(places[k] < places[m]);
            }
        }
    }
}

/// Without a filter every path is kept. With one, a path is kept exactly where the pattern
/// matches it, if all systems read the two alike.
pub proof fn law_filter_keeps_what_matches(pattern: Seq<char>, path: Seq<char>, kept: bool)
    ensures
        kept_one(kept, None, path) ==> kept,
        kept_one(kept, Some(pattern), path) && !pattern.contains('\\') && !path.contains('\\') ==> kept
            == glob_match(pattern, false, path),
        kept_one(kept, Some(pattern), path) ==> kept == glob_match(pattern, false, path) || kept
            == glob_match(pattern, true, path),
{
    if kept_one(kept, Some(pattern), path) {
        let s = choose|s: bool| kept == #[trigger] path_kept(Some(pattern), s, path);
        assert(s || !s);
    }
}

/// What is read of a file is the file: its text, whose bytes are those of the file where
/// they are valid UTF-8, unless the reader may not see it, then none; its path, and its time
/// of modification. Its status, headings, links and hash are those of its text.
pub proof fn law_document_is_the_file(file: SourceFile, doc: RecordView)
    requires
        is_record_of(file, doc),
    ensures
        doc.rel_path == file.rel_path@,
        doc.display_path.len() == doc.rel_path.len(),
        forall|i: int|
            0 <= i < doc.rel_path.len() ==> #[trigger] doc.display_path[i] == (if doc.rel_path[i]
                == '\\' {
                '/'
            } else {
                doc.rel_path[i]
            }),
        doc.status == content_status(lossy_text(file.raw@)),
        doc.status != DocumentStatus::PermissionDenied ==> doc.body == lossy_text(file.raw@),
        doc.status != DocumentStatus::PermissionDenied && valid_utf8(file.raw@) ==> encode_utf8(
            doc.body,
        ) == file.raw@,
        doc.status == DocumentStatus::PermissionDenied ==> doc.body.len() == 0,
        doc.headings == headings_of(lossy_text(file.raw@)),
        doc.links == links_of(lossy_text(file.raw@)),
        doc.hash == content_hash_of(lossy_text(file.raw@)),
        doc.modified_at is Some <==> file.modified is Some,
        file.modified matches Some(n) ==> doc.modified_at == Some(decimal(n as int)),
{
    reveal_strlit("\\");
    reveal_strlit("/");
    assert("\\"@ =~= seq!['\\']);
    assert("/"@ =~= seq!['/']);
    law_replaced_character(file.rel_path@, '\\', '/');
    if valid_utf8(file.raw@) {
        decode_utf8_encode_utf8(file.raw@);
    }
}

/// A title comes from the text of a file where it gives one, whatever the file is named.
pub proof fn law_titles_come_from_the_text(file: SourceFile, doc: RecordView, k: int)
    requires
        is_record_of(file, doc),
        0 <= k < lines_of(lossy_text(file.raw@)).len(),
        "# "@.is_prefix_of(trimmed(lines_of(lossy_text(file.raw@))[k])),
        forall|j: int|
            0 <= j < k ==> !"# "@.is_prefix_of(
                trimmed(#[trigger] lines_of(lossy_text(file.raw@))[j]),
            ),
    ensures
        doc.title == trimmed(trimmed(lines_of(lossy_text(file.raw@))[k]).skip(2)),
{
    let content = lossy_text(file.raw@);
    if file.named {
        let stem = choose|stem: Option<Seq<char>>|
            is_stem(file.rel_path@, stem) && doc.title == #[trigger] title_of(content, stem);
        crate::document::law_title(content, stem, k);
    } else {
        crate::document::law_title(content, None, k);
    }
}

/// A path filter that all systems read alike is refused exactly where it is not a glob
/// pattern, or else where no set can be built of it, and why is told.
pub proof fn law_filters_are_refused_with_a_cause(pattern: Seq<char>, error: SearchError)
    requires
        !pattern.contains('\\'),
        is_filter_error(Some(pattern), error),
    ensures
        !valid_filter(Some(pattern)),
        !may_be_valid(Some(pattern)),
        glob_refusal(pattern, false) is Some ==> (error matches SearchError::InvalidGlob {
            pattern: named,
            cause,
        } && named@ == pattern && glob_refusal(pattern, false) == Some(cause@)),
        glob_refusal(pattern, false) is None ==> (error matches SearchError::GlobSet { cause }
            && glob_set_refusal(pattern, false, usize::BITS) == Some(cause@)),
{
}

/// Without a filter nothing is refused, and every path is kept.
pub proof fn law_no_filter(error: SearchError, kept: Seq<bool>, docs: Seq<DocumentRecord>)
    ensures
        !is_filter_error(None, error),
        may_be_valid(None),
        kept_as(kept, None, docs) ==> kept.len() == docs.len() && forall|i: int|
            0 <= i < docs.len() ==> #[trigger] kept[i],
{
    if kept_as(kept, None, docs) {
        assert forall|i: int| 0 <= i < docs.len() implies #[trigger] kept[i] by {
            assert(kept_one(kept[i], None, docs[i].display_path@));
        }
    }
}

/// The documents of the mirror are in the order of their paths, and where every file is a
/// markdown document there is one for each.
pub proof fn law_scan_is_in_order(files: Seq<SourceFile>, docs: Seq<DocumentRecord>)
    requires
        is_scan_of(files, docs),
    ensures
        forall|i: int, j: int|
            0 <= i < j < docs.len() ==> (#[trigger] docs[i]).rel_path@ == (#[trigger] docs[j]).rel_path@
                || text_less(docs[i].rel_path@, docs[j].rel_path@),
        (forall|i: int|
            0 <= i < files.len() ==> is_plain_path((#[trigger] files[i]).name@) && path_extension(
                files[i].name@,
            ) == Some("md"@)) ==> docs.len() == files.len(),
{
    let (marked, read) = choose|marked: Seq<bool>, read: Seq<DocumentRecord>|
        {
            &&& #[trigger] marks_markdown(files, marked)
            &&& are_records_of(marked_of(files, marked), read)
            &&& #[trigger] is_sort_of(read, docs)
        };
    crate::order::law_sorted(read, docs, Seq::empty());
    assert forall|i: int, j: int| 0 <= i < j < docs.len() implies (#[trigger] docs[i]).rel_path@
        == (#[trigger] docs[j]).rel_path@ || text_less(docs[i].rel_path@, docs[j].rel_path@) by {
        assert(docs[i].key() == docs[i].rel_path@);
        assert(docs[j].key() == docs[j].rel_path@);
    }
    if forall|i: int|
        0 <= i < files.len() ==> is_plain_path((#[trigger] files[i]).name@) && path_extension(
            files[i].name@,
        ) == Some("md"@) {
        assert forall|i: int| 0 <= i < files.len() implies #[trigger] marked[i] by {
            assert(is_markdown_answer(files[i].name@, marked[i]));
        }
        lemma_all_marked(files, marked);
    }
}

proof fn lemma_all_marked<T>(v: Seq<T>, marked: Seq<bool>)
    requires
        forall|i: int| 0 <= i < v.len() ==> #[trigger] marked[i],
    ensures
        marked_of(v, marked).len() == v.len(),
    decreases v.len(),
{
    if v.len() > 0 {
        lemma_all_marked(v.drop_last(), marked);
        assert(marked[v.len() - 1]);
    }
}

/// A file whose name has a stem and the extension of markdown is scanned, in whatever
/// directory it lies.
pub proof fn law_markdown_names(stem: Seq<char>, answer: bool)
    requires
        stem.len() > 0,
        stem.last() != '/' && stem.last() != '\\' && stem.last() != ':',
        !(stem.len() > 1 && (stem[0] == '/' || stem[0] == '\\') && (stem[1] == '/' || stem[1] == '\\')),
        is_markdown_answer(stem + ".md"@, answer),
    ensures
        answer,
{
    let path = stem + ".md"@;
    reveal_strlit(".md");
    let n = path.len() as int;
    assert(".md"@ =~= path.subrange(n - 3, n));
    assert(path[n - 4] == stem.last());
    if stem.len() == 1 {
        assert(path[1] == '.');
    }
}

/// A file whose name ends otherwise is not.
pub proof fn law_other_names(path: Seq<char>, answer: bool)
    requires
        path.len() > 0,
        path.last() != '/' && path.last() != '\\' && path.last() != '.',
        !".md"@.is_suffix_of(path),
        is_markdown_answer(path, answer),
    ensures
        !answer,
{
}

} // verus!
