//! The index: which documents have to be written, what is asked of the database, and
//! what is made of its rows.

use crate::document::{
    headings_of, hit_views, join_lines, line_views, links_of, split_lines, status_from_name,
    status_name, DocumentRecord, DocumentStatus, HitView, SearchHit, SearchMode, SearchQuery,
};
use crate::error::SearchError;
use crate::fs_source::{
    at_a_mark, compile_glob_filter, first, glob_patterns, is_filter_error, is_record_of,
    is_set_answer, kept_one, lemma_marked_len, lemma_marked_places, lemma_set_answers_for_filter,
    lossy_text, marked_of, matcher_of, may_be_valid, path_kept, path_matches, portable_filter,
    valid_filter, SourceFile,
};
use crate::number::{decimal, parse_i64, parsed_i64};
use crate::paths::opt_text;
use crate::pattern::{contains, has, law_replaced_character, replace, replaced};
use crate::pieces::{are_pieces, are_places, lemma_picked, lemma_places_push, parted, rises};
use crate::text::{
    blank, from_chars, is_blank, join, joined, lemma_texts_push, lemma_trim_of, lines, lines_of,
    owned, same, split, texts, to_chars, trim_of, trim_range, words, words_of, CharClass,
};
use crate::text_set::{entry_map, lemma_entry_at, lemma_entry_missing};
use vstd::prelude::*;
use vstd::string::*;

verus! {

/// What indexing did.
#[derive(Debug, Clone, Copy, PartialEq, Eq, Structural)]
pub struct IndexStats {
    pub indexed: usize,
    pub updated: usize,
    pub unchanged: usize,
    pub removed: usize,
}

/// A document as the index gives it back.
#[derive(Debug, Clone)]
pub struct StoredDocument {
    pub rel_path: String,
    pub display_path: String,
    pub title: String,
    pub body: String,
    pub headings: Vec<String>,
    pub links: Vec<String>,
    pub status: DocumentStatus,
    pub modified_at: Option<String>,
}

/// A row of the table of documents.
#[derive(Debug, Clone)]
pub struct DocumentRow {
    pub rel_path: String,
    pub display_path: String,
    pub title: String,
    pub body: String,
    pub headings: String,
    pub links: String,
    pub status: String,
    pub modified_at: Option<String>,
    pub hash: String,
}

/// A stored document by its texts.
#[verifier::ext_equal]
pub struct StoredView {
    pub rel_path: Seq<char>,
    pub display_path: Seq<char>,
    pub title: Seq<char>,
    pub body: Seq<char>,
    pub headings: Seq<Seq<char>>,
    pub links: Seq<Seq<char>>,
    pub status: DocumentStatus,
    pub modified_at: Option<Seq<char>>,
}

impl View for StoredDocument {
    type V = StoredView;

    open spec fn view(&self) -> StoredView {
        StoredView {
            rel_path: self.rel_path@,
            display_path: self.display_path@,
            title: self.title@,
            body: self.body@,
            headings: texts(self.headings@),
            links: texts(self.links@),
            status: self.status,
            modified_at: opt_text(self.modified_at),
        }
    }
}

/// A row by its texts.
#[verifier::ext_equal]
pub struct RowView {
    pub rel_path: Seq<char>,
    pub display_path: Seq<char>,
    pub title: Seq<char>,
    pub body: Seq<char>,
    pub headings: Seq<char>,
    pub links: Seq<char>,
    pub status: Seq<char>,
    pub modified_at: Option<Seq<char>>,
    pub hash: Seq<char>,
}

impl View for DocumentRow {
    type V = RowView;

    open spec fn view(&self) -> RowView {
        RowView {
            rel_path: self.rel_path@,
            display_path: self.display_path@,
            title: self.title@,
            body: self.body@,
            headings: self.headings@,
            links: self.links@,
            status: self.status@,
            modified_at: opt_text(self.modified_at),
            hash: self.hash@,
        }
    }
}

// ---------------------------------------------------------------------------
// Rows
// ---------------------------------------------------------------------------

/// The row that a document is stored as.
pub open spec fn row_view(doc: DocumentRecord) -> RowView {
    RowView {
        rel_path: doc.rel_path@,
        display_path: doc.display_path@,
        title: doc.title@,
        body: doc.body@,
        headings: joined(texts(doc.headings@), "\n"@),
        links: joined(texts(doc.links@), "\n"@),
        status: status_name(doc.status),
        modified_at: opt_text(doc.modified_at),
        hash: doc.hash@,
    }
}

/// The document that a row stands for.
pub open spec fn stored_view(row: RowView) -> StoredView {
    StoredView {
        rel_path: row.rel_path,
        display_path: row.display_path,
        title: row.title,
        body: row.body,
        headings: parted(row.headings, '\n'),
        links: parted(row.links, '\n'),
        status: status_from_name(row.status),
        modified_at: row.modified_at,
    }
}

pub(crate) fn copy_opt(s: &Option<String>) -> (r: Option<String>)
    ensures
        opt_text(r) == opt_text(*s),
{
    match s {
        Some(t) => Some(t.clone()),
        None => None,
    }
}

/// The row that a document is stored as.
pub fn document_row(doc: &DocumentRecord) -> (r: DocumentRow)
    ensures
        r@ == row_view(*doc),
{
    DocumentRow {
        rel_path: doc.rel_path.clone(),
        display_path: doc.display_path.clone(),
        title: doc.title.clone(),
        body: doc.body.clone(),
        headings: join_lines(&doc.headings),
        links: join_lines(&doc.links),
        status: owned(doc.status.as_str()),
        modified_at: copy_opt(&doc.modified_at),
        hash: doc.hash.clone(),
    }
}

/// The document that a row stands for.
pub fn row_to_document(row: DocumentRow) -> (r: StoredDocument)
    ensures
        r@ == stored_view(row@),
{
    StoredDocument {
        rel_path: row.rel_path,
        display_path: row.display_path,
        title: row.title,
        body: row.body,
        headings: split_lines(row.headings.as_str()),
        links: split_lines(row.links.as_str()),
        status: DocumentStatus::from_db(row.status.as_str()),
        modified_at: row.modified_at,
    }
}

/// A stored document reads back as it was written, where its headings and links are
/// not empty and hold no line feed.
pub proof fn law_stored_document_reads_back(doc: DocumentRecord)
    requires
        are_pieces(texts(doc.headings@), '\n'),
        are_pieces(texts(doc.links@), '\n'),
    ensures
        stored_view(row_view(doc)) == (StoredView {
            rel_path: doc.rel_path@,
            display_path: doc.display_path@,
            title: doc.title@,
            body: doc.body@,
            headings: texts(doc.headings@),
            links: texts(doc.links@),
            status: doc.status,
            modified_at: opt_text(doc.modified_at),
        }),
{
    crate::document::law_lines_round_trip(texts(doc.headings@));
    crate::document::law_lines_round_trip(texts(doc.links@));
    crate::document::law_status_round_trip(doc.status);
}

/// What was read of a file of the mirror reads back from the index as it was stored,
/// where no link runs over a line's end.
pub proof fn law_read_document_reads_back(file: SourceFile, doc: DocumentRecord)
    requires
        is_record_of(file, doc@),
        forall|k: int|
            0 <= k < doc@.links.len() ==> !(#[trigger] doc@.links[k]).contains('\n'),
    ensures
        stored_view(row_view(doc)) == (StoredView {
            rel_path: doc@.rel_path,
            display_path: doc@.display_path,
            title: doc@.title,
            body: doc@.body,
            headings: doc@.headings,
            links: doc@.links,
            status: doc@.status,
            modified_at: doc@.modified_at,
        }),
{
    let content = lossy_text(file.raw@);
    assert(doc@.headings == headings_of(content));
    assert(doc@.links == links_of(content));
    crate::document::law_headings_are_lines(content);
    crate::document::law_links_are_lines(content);
    law_stored_document_reads_back(doc);
}

// ---------------------------------------------------------------------------
// Indexing
// ---------------------------------------------------------------------------

/// Whether the index lacks a document or holds it with another hash.
pub open spec fn is_changed(table: Map<Seq<char>, Seq<char>>, doc: DocumentRecord) -> bool {
    !(table.dom().contains(doc.rel_path@) && table[doc.rel_path@] == doc.hash@)
}

/// Whether one of the documents has a path.
pub open spec fn has_path(docs: Seq<DocumentRecord>, path: Seq<char>) -> bool {
    exists|i: int| 0 <= i < docs.len() && (#[trigger] docs[i]).rel_path@ == path
}

/// The positions of the changed ones among the first `n` documents.
pub open spec fn changed_among(
    table: Map<Seq<char>, Seq<char>>,
    docs: Seq<DocumentRecord>,
    n: int,
) -> Seq<int>
    decreases n,
{
    if n <= 0 {
        seq![]
    } else if is_changed(table, docs[n - 1]) {
        changed_among(table, docs, n - 1).push(n - 1)
    } else {
        changed_among(table, docs, n - 1)
    }
}

/// What has to be done so that the index holds a list of documents.
#[derive(Debug, Clone)]
pub struct IndexPlan {
    /// The positions of the documents to write.
    pub changed: Vec<usize>,
    /// The paths of the documents to take out.
    pub removed: Vec<String>,
    pub stats: IndexStats,
}

/// Positions as mathematical integers.
pub open spec fn positions(v: Seq<usize>) -> Seq<int> {
    Seq::new(v.len(), |i: int| v[i] as int)
}

/// Whether a plan writes the changed documents, in order, and takes out each path
/// that the index holds and the documents lack.
pub open spec fn is_index_plan(
    table: Map<Seq<char>, Seq<char>>,
    docs: Seq<DocumentRecord>,
    plan: IndexPlan,
) -> bool {
    &&& positions(plan.changed@) == changed_among(table, docs, docs.len() as int)
    &&& texts(plan.removed@).no_duplicates()
    &&& forall|path: Seq<char>| #[trigger]
        texts(plan.removed@).contains(path) <==> table.dom().contains(path) && !has_path(docs, path)
    &&& plan.stats == IndexStats {
        indexed: docs.len() as usize,
        updated: plan.changed@.len() as usize,
        unchanged: (docs.len() - plan.changed@.len()) as usize,
        removed: plan.removed@.len() as usize,
    }
}

/// Whether the index lacks a document or holds it with another hash.
fn changed(existing: &Vec<(String, String)>, doc: &DocumentRecord) -> (r: bool)
    ensures
        r == is_changed(entry_map(existing@), *doc),
{
    let n: usize = existing.len();
    let mut i: usize = n;
    while i > 0
        invariant
            n == existing@.len(),
            i <= n,
            forall|j: int| i <= j < n ==> (#[trigger] existing@[j]).0@ != doc.rel_path@,
        decreases i,
    {
        i -= 1;
        if same(existing[i].0.as_str(), doc.rel_path.as_str()) {
            proof {
                lemma_entry_at(existing@, i as int);
            }
            return !same(existing[i].1.as_str(), doc.hash.as_str());
        }
    }
    proof {
        lemma_entry_missing(existing@, doc.rel_path@);
    }
    true
}

/// Whether one of the documents has a path.
fn is_current(docs: &Vec<DocumentRecord>, path: &str) -> (r: bool)
    ensures
        r == has_path(docs@, path@),
{
    let mut i: usize = 0;
    while i < docs.len()
        invariant
            i <= docs@.len(),
            forall|j: int| 0 <= j < i ==> (#[trigger] docs@[j]).rel_path@ != path@,
        decreases docs@.len() - i,
    {
        if same(docs[i].rel_path.as_str(), path) {
            return true;
        }
        i += 1;
    }
    false
}

/// The paths that the index holds and the documents lack.
fn removed_paths(existing: &Vec<(String, String)>, docs: &Vec<DocumentRecord>) -> (r: Vec<String>)
    ensures
        texts(r@).no_duplicates(),
        forall|path: Seq<char>| #[trigger]
            texts(r@).contains(path) <==> entry_map(existing@).dom().contains(path) && !has_path(
                docs@,
                path,
            ),
{
    let n: usize = existing.len();
    let mut out: Vec<String> = Vec::new();
    let mut i: usize = 0;
    assert(texts(out@) =~= seq![]);
    assert(existing@.take(0) =~= seq![]);
    while i < n
        invariant
            n == existing@.len(),
            i <= n,
            texts(out@).no_duplicates(),
            forall|path: Seq<char>| #[trigger]
                texts(out@).contains(path) <==> entry_map(existing@.take(i as int)).dom().contains(
                    path,
                ) && !has_path(docs@, path),
        decreases n - i,
    {
        let ghost before = out@;
        let path: &String = &existing[i].0;
        assert(existing@.take(i + 1).drop_last() =~= existing@.take(i as int));
        assert(existing@.take(i + 1).last() == existing@[i as int]);
        if !crate::pattern::contains_text(&out, path.as_str()) && !is_current(docs, path.as_str()) {
            out.push(path.clone());
            proof {
                lemma_texts_push(before, out@.last());
                assert(texts(out@) == texts(before).push(path@));
                assert forall|p: Seq<char>| #[trigger] texts(out@).contains(p) <==> texts(
                    before,
                ).contains(p) || p == path@ by {
                    if texts(before).contains(p) {
                        let k = choose|k: int|
                            0 <= k < texts(before).len() && texts(before)[k] == p;
                        assert(texts(out@)[k] == p);
                    }
                    if p == path@ {
                        assert(texts(out@)[texts(before).len() as int] == p);
                    }
                }
            }
        }
        i += 1;
    }
    assert(existing@.take(n as int) =~= existing@);
    out
}

/// What has to be done so that an index, whose paths and hashes are `existing`, holds
/// `docs`.
pub fn index_documents(existing: &Vec<(String, String)>, docs: &Vec<DocumentRecord>) -> (r:
    IndexPlan)
    ensures
        is_index_plan(entry_map(existing@), docs@, r),
{
    let ghost table = entry_map(existing@);
    let n: usize = docs.len();
    let mut writes: Vec<usize> = Vec::new();
    let mut unchanged: usize = 0;
    let mut i: usize = 0;
    assert(positions(writes@) =~= changed_among(table, docs@, 0));
    while i < n
        invariant
            n == docs@.len(),
            i <= n,
            table == entry_map(existing@),
            writes@.len() + unchanged == i,
            positions(writes@) == changed_among(table, docs@, i as int),
        decreases n - i,
    {
        if changed(existing, &docs[i]) {
            let ghost before = writes@;
            writes.push(i);
            assert(positions(writes@) =~= positions(before).push(i as int));
        } else {
            unchanged += 1;
        }
        i += 1;
    }
    let removed: Vec<String> = removed_paths(existing, docs);
    let stats: IndexStats = IndexStats {
        indexed: n,
        updated: writes.len(),
        unchanged,
        removed: removed.len(),
    };
    IndexPlan { changed: writes, removed, stats }
}

/// The table after the documents at the given positions were written to it.
pub open spec fn upserted(
    table: Map<Seq<char>, Seq<char>>,
    docs: Seq<DocumentRecord>,
    at: Seq<int>,
) -> Map<Seq<char>, Seq<char>>
    decreases at.len(),
{
    if at.len() == 0 {
        table
    } else {
        upserted(table, docs, at.drop_last()).insert(
            docs[at.last()].rel_path@,
            docs[at.last()].hash@,
        )
    }
}

/// The table after a plan was carried out.
pub open spec fn carried_out(
    table: Map<Seq<char>, Seq<char>>,
    docs: Seq<DocumentRecord>,
    plan: IndexPlan,
) -> Map<Seq<char>, Seq<char>> {
    upserted(table, docs, positions(plan.changed@)).remove_keys(texts(plan.removed@).to_set())
}

/// Whether no two documents have the same path.
pub open spec fn distinct_paths(docs: Seq<DocumentRecord>) -> bool {
    forall|i: int, j: int|
        0 <= i < j < docs.len() ==> (#[trigger] docs[i]).rel_path@ != (#[trigger] docs[j]).rel_path@
}

proof fn lemma_upserted(
    table: Map<Seq<char>, Seq<char>>,
    docs: Seq<DocumentRecord>,
    n: int,
    path: Seq<char>,
)
    requires
        distinct_paths(docs),
        0 <= n <= docs.len(),
    ensures
        has_path(docs.take(n), path) ==> {
            let after = upserted(table, docs, changed_among(table, docs, n));
            after.dom().contains(path) && exists|i: int|
                0 <= i < n && (#[trigger] docs[i]).rel_path@ == path && after[path] == docs[i].hash@
        },
        !has_path(docs.take(n), path) ==> {
            let after = upserted(table, docs, changed_among(table, docs, n));
            after.dom().contains(path) == table.dom().contains(path) && after[path] == table[path]
        },
    decreases n,
{
    if n > 0 {
        lemma_upserted(table, docs, n - 1, path);
        let d = docs[n - 1];
        let at = changed_among(table, docs, n);
        if is_changed(table, d) {
            assert(at.drop_last() =~= changed_among(table, docs, n - 1));
        }
        assert forall|i: int| 0 <= i < n - 1 implies #[trigger] docs.take(n - 1)[i] == docs[i] by {}
        assert forall|i: int| 0 <= i < n implies #[trigger] docs.take(n)[i] == docs[i] by {}
        if d.rel_path@ == path {
            assert(docs.take(n)[n - 1].rel_path@ == path);
            if has_path(docs.take(n - 1), path) {
                let i = choose|i: int|
                    0 <= i < docs.take(n - 1).len() && (#[trigger] docs.take(n - 1)[i]).rel_path@
                        == path;
                assert(docs[i].rel_path@ == docs[n - 1].rel_path@);
            }
            assert(docs[n - 1].rel_path@ == path);
        } else {
            if has_path(docs.take(n), path) {
                let i = choose|i: int|
                    0 <= i < docs.take(n).len() && (#[trigger] docs.take(n)[i]).rel_path@ == path;
                assert(docs.take(n - 1)[i].rel_path@ == path);
            }
            if has_path(docs.take(n - 1), path) {
                let i = choose|i: int|
                    0 <= i < docs.take(n - 1).len() && (#[trigger] docs.take(n - 1)[i]).rel_path@
                        == path;
                assert(docs.take(n)[i].rel_path@ == path);
            }
        }
    }
}

/// Once a plan was carried out, the index holds the documents, each with its hash, and
/// nothing else.
pub proof fn law_index_holds_the_documents(
    table: Map<Seq<char>, Seq<char>>,
    docs: Seq<DocumentRecord>,
    plan: IndexPlan,
)
    requires
        is_index_plan(table, docs, plan),
        distinct_paths(docs),
    ensures
        forall|path: Seq<char>| #[trigger]
            carried_out(table, docs, plan).dom().contains(path) <==> has_path(docs, path),
        forall|i: int|
            0 <= i < docs.len() ==> carried_out(
                table,
                docs,
                plan,
            )[(#[trigger] docs[i]).rel_path@] == docs[i].hash@,
{
    let n = docs.len() as int;
    let after = upserted(table, docs, positions(plan.changed@));
    assert(docs.take(n) =~= docs);
    assert forall|path: Seq<char>| #[trigger]
        carried_out(table, docs, plan).dom().contains(path) <==> has_path(docs, path) by {
        lemma_upserted(table, docs, n, path);
        assert(texts(plan.removed@).to_set().contains(path) <==> texts(plan.removed@).contains(
            path,
        ));
    }
    assert forall|i: int| 0 <= i < docs.len() implies carried_out(
        table,
        docs,
        plan,
    )[(#[trigger] docs[i]).rel_path@] == docs[i].hash@ by {
        let path = docs[i].rel_path@;
        assert(has_path(docs, path));
        lemma_upserted(table, docs, n, path);
        assert(!texts(plan.removed@).contains(path));
        let k = choose|k: int|
            0 <= k < n && (#[trigger] docs[k]).rel_path@ == path && after[path] == docs[k].hash@;
        assert(k == i);
    }
}

/// Indexing again, with the documents unchanged, writes nothing and takes nothing out.
pub proof fn law_indexing_again_changes_nothing(
    table: Map<Seq<char>, Seq<char>>,
    docs: Seq<DocumentRecord>,
    plan: IndexPlan,
    again: IndexPlan,
)
    requires
        is_index_plan(table, docs, plan),
        distinct_paths(docs),
        is_index_plan(carried_out(table, docs, plan), docs, again),
    ensures
        again.changed@.len() == 0,
        again.removed@.len() == 0,
        again.stats.unchanged == again.stats.indexed,
{
    let after = carried_out(table, docs, plan);
    law_index_holds_the_documents(table, docs, plan);
    lemma_none_changed(after, docs, docs.len() as int);
    assert(positions(again.changed@).len() == 0);
    if again.removed@.len() > 0 {
        let path = texts(again.removed@)[0];
        assert(texts(again.removed@).contains(path));
    }
    assert(again.changed@.len() == 0);
}

proof fn lemma_none_changed(table: Map<Seq<char>, Seq<char>>, docs: Seq<DocumentRecord>, n: int)
    requires
        0 <= n <= docs.len(),
        forall|i: int|
            0 <= i < docs.len() ==> table.dom().contains((#[trigger] docs[i]).rel_path@)
                && table[docs[i].rel_path@] == docs[i].hash@,
    ensures
        changed_among(table, docs, n) == Seq::<int>::empty(),
    decreases n,
{
    if n > 0 {
        lemma_none_changed(table, docs, n - 1);
        assert(table.dom().contains(docs[n - 1].rel_path@));
    }
}

// ---------------------------------------------------------------------------
// Full-text search
// ---------------------------------------------------------------------------

/// The term that a word of a query stands for: the word without punctuation around
/// it, as a prefix, where anything is left of it.
pub open spec fn fts_term(word: Seq<char>) -> Option<Seq<char>> {
    let token = trim_of(word, CharClass::Punctuation);
    if token.len() > 0 {
        Some(token + "*"@)
    } else {
        None
    }
}

/// The terms that a query stands for.
pub open spec fn fts_terms(text: Seq<char>) -> Seq<Seq<char>> {
    words_of(text).filter_map(|word: Seq<char>| fts_term(word))
}

/// The full-text query of a text: its terms, or the text itself where it has none.
pub open spec fn fts_query(text: Seq<char>) -> Seq<char> {
    if fts_terms(text).len() == 0 {
        text
    } else {
        joined(fts_terms(text), " "@)
    }
}

/// The term that a word of a query stands for.
fn term_of(word: &str) -> (r: Option<String>)
    ensures
        opt_text(r) == fts_term(word@),
{
    let v: Vec<char> = to_chars(word);
    let (a, b): (usize, usize) = trim_range(&v, CharClass::Punctuation, 0, v.len());
    assert(v@.subrange(0, v@.len() as int) =~= word@);
    if a == b {
        return None;
    }
    Some(from_chars(&v, a, b).concat("*"))
}

/// The full-text query of a text.
pub fn build_fts_query(text: &str) -> (r: String)
    ensures
        r@ == fts_query(text@),
        asks_for_every_word(text@, r@),
{
    proof {
        law_every_word_is_asked_for(text@);
    }
    let all: Vec<String> = words(text);
    let ghost ws = words_of(text@);
    let ghost f = |word: Seq<char>| fts_term(word);
    let mut terms: Vec<String> = Vec::new();
    let mut i: usize = 0;
    proof {
        reveal(Seq::filter_map);
        assert(texts(terms@) =~= ws.take(0).filter_map(f));
    }
    while i < all.len()
        invariant
            texts(all@) == ws,
            f == (|word: Seq<char>| fts_term(word)),
            i <= all@.len(),
            texts(terms@) == ws.take(i as int).filter_map(f),
        decreases all@.len() - i,
    {
        proof {
            reveal(Seq::filter_map);
            assert(ws.take(i + 1).drop_last() =~= ws.take(i as int));
            assert(ws.take(i + 1).last() == all@[i as int]@);
        }
        if let Some(term) = term_of(all[i].as_str()) {
            let ghost before = terms@;
            terms.push(term);
            proof {
                lemma_texts_push(before, term);
                assert(texts(terms@) =~= ws.take(i as int).filter_map(f) + seq![term@]);
            }
        }
        i += 1;
    }
    assert(ws.take(i as int) =~= ws);
    assert(texts(terms@) == fts_terms(text@));
    if terms.len() == 0 {
        owned(text)
    } else {
        join(&terms, " ")
    }
}

/// A text anywhere, as a pattern of `LIKE`.
pub open spec fn anywhere(text: Seq<char>) -> Seq<char> {
    "%"@ + text + "%"@
}

/// A text anywhere, as a pattern of `LIKE`.
pub fn like_pattern(text: &str) -> (r: String)
    ensures
        r@ == anywhere(text@),
{
    owned("%").concat(text).concat("%")
}

/// A count as the database takes it; one that it cannot take wraps around to a
/// negative number, which it reads as no limit.
pub open spec fn row_count(n: int) -> int {
    if n <= i64::MAX {
        n
    } else {
        n - 0x1_0000_0000_0000_0000
    }
}

/// A count as the database takes it.
pub(crate) fn row_limit_of(n: usize) -> (r: i64)
    ensures
        r == row_count(n as int),
{
    let wide: u64 = n as u64;
    if wide <= 0x7fff_ffff_ffff_ffff {
        wide as i64
    } else {
        -((u64::MAX - wide) as i64) - 1
    }
}

/// What is asked of the full-text index.
pub struct FullTextRequest {
    /// The full-text query.
    pub fts_query: String,
    /// How many rows are asked for.
    pub row_limit: i64,
    /// The matcher of the path filter.
    pub matcher: Option<globset::GlobSet>,
}

/// What is asked of the full-text index for a query: ten rows for each that is
/// wanted, since the path filter may drop some.
pub fn full_text_request(query: &SearchQuery) -> (r: Result<FullTextRequest, SearchError>)
    requires
        query.mode == SearchMode::FullText,
        query.limit * 10 <= usize::MAX,
    ensures
        portable_filter(opt_text(query.path_filter)) ==> r is Ok == valid_filter(
            opt_text(query.path_filter),
        ),
        r matches Ok(request) ==> {
            &&& may_be_valid(opt_text(query.path_filter))
            &&& request.fts_query@ == fts_query(query.text@)
            &&& request.row_limit == row_count(query.limit * 10)
            &&& matcher_of(opt_text(query.path_filter), request.matcher)
            &&& asks_for(request, *query)
        },
        r matches Err(e) ==> is_filter_error(opt_text(query.path_filter), e),
{
    let pattern: Option<&str> = match &query.path_filter {
        Some(pattern) => Some(pattern.as_str()),
        None => None,
    };
    match compile_glob_filter(pattern) {
        Ok(matcher) => Ok(
            FullTextRequest {
                fts_query: build_fts_query(query.text.as_str()),
                row_limit: row_limit_of(query.limit * 10),
                matcher,
            },
        ),
        Err(e) => Err(e),
    }
}

/// Whether `kept` is what a matcher says of a path, as some system reads them.
pub open spec fn kept_by(kept: bool, matcher: Option<globset::GlobSet>, path: Seq<char>) -> bool {
    match matcher {
        None => kept,
        Some(set) => is_set_answer(set, path, kept),
    }
}

/// Whether `kept` is what a matcher says of the paths of hits.
pub open spec fn all_kept_by(
    kept: Seq<bool>,
    matcher: Option<globset::GlobSet>,
    hits: Seq<HitView>,
) -> bool {
    &&& kept.len() == hits.len()
    &&& forall|i: int| 0 <= i < hits.len() ==> kept_by(#[trigger] kept[i], matcher, hits[i].path)
}

proof fn lemma_marked_grows<T>(v: Seq<T>, marked: Seq<bool>, i: int)
    requires
        0 <= i <= v.len(),
    ensures
        marked_of(v.take(i), marked).is_prefix_of(marked_of(v, marked)),
    decreases v.len(),
{
    if i == v.len() {
        assert(v.take(i) =~= v);
    } else {
        lemma_marked_grows(v.drop_last(), marked, i);
        assert(v.drop_last().take(i) =~= v.take(i));
    }
}

/// What follows the full-text search.
pub enum SearchStep {
    /// These are the hits.
    Done(Vec<SearchHit>),
    /// There were none: look for the text anywhere in titles and bodies.
    Fallback { like: String, row_limit: i64 },
}

/// Of rows of which it is known whether they are kept, the first that are, as many as
/// the limit allows.
pub open spec fn limited(rows: Seq<HitView>, kept: Seq<bool>, limit: int) -> Seq<HitView> {
    first(marked_of(rows, kept), limit)
}

/// Whether a step is what follows from the hits.
pub open spec fn is_step_for(hits: Seq<HitView>, query: SearchQuery, step: SearchStep) -> bool {
    match step {
        SearchStep::Done(found) => hits.len() > 0 && hit_views(found@) == hits,
        SearchStep::Fallback { like, row_limit } => hits.len() == 0 && like@ == anywhere(
            query.text@,
        ) && row_limit == row_count(query.limit as int),
    }
}

/// The hits among the rows that the full-text index gave.
pub fn full_text_hits(
    rows: Vec<SearchHit>,
    matcher: &Option<globset::GlobSet>,
    query: &SearchQuery,
) -> (r: SearchStep)
    ensures
        exists|kept: Seq<bool>|
            {
                &&& all_kept_by(kept, *matcher, hit_views(rows@))
                &&& is_step_for(
                    #[trigger] limited(hit_views(rows@), kept, query.limit as int),
                    *query,
                    r,
                )
            },
{
    let ghost all = hit_views(rows@);
    let kept: Vec<bool> = keep_flags(&rows, matcher);
    let hits: Vec<SearchHit> = take_kept(rows, &kept, query.limit);
    assert(hit_views(hits@) == limited(all, kept@, query.limit as int));
    if hits.len() == 0 {
        SearchStep::Fallback {
            like: like_pattern(query.text.as_str()),
            row_limit: row_limit_of(query.limit),
        }
    } else {
        SearchStep::Done(hits)
    }
}

/// Of each row, whether the matcher lets its path through.
fn keep_flags(rows: &Vec<SearchHit>, matcher: &Option<globset::GlobSet>) -> (r: Vec<bool>)
    ensures
        all_kept_by(r@, *matcher, hit_views(rows@)),
{
    let mut kept: Vec<bool> = Vec::new();
    let mut i: usize = 0;
    while i < rows.len()
        invariant
            i <= rows@.len(),
            kept@.len() == i,
            forall|j: int| 0 <= j < i ==> kept_by(#[trigger] kept@[j], *matcher, rows@[j].path@),
        decreases rows@.len() - i,
    {
        let keep: bool = match matcher {
            Some(set) => path_matches(Some(set), rows[i].path.as_str()),
            None => path_matches(None, rows[i].path.as_str()),
        };
        kept.push(keep);
        i += 1;
    }
    kept
}

/// The first rows that are marked, as many as the limit allows.
pub fn take_kept(rows: Vec<SearchHit>, kept: &Vec<bool>, limit: usize) -> (r: Vec<SearchHit>)
    requires
        kept@.len() == rows@.len(),
    ensures
        hit_views(r@) == limited(hit_views(rows@), kept@, limit as int),
{
    let ghost all = hit_views(rows@);
    let n: usize = rows.len();
    let mut hits: Vec<SearchHit> = Vec::new();
    let mut i: usize = 0;
    assert(hit_views(hits@) =~= marked_of(all.take(0), kept@));
    for row in it: rows
        invariant
            it.seq() == rows@,
            n == rows@.len(),
            all == hit_views(rows@),
            kept@.len() == rows@.len(),
            i == it.index(),
            hits@.len() <= limit,
            hit_views(hits@) == marked_of(all.take(i as int), kept@),
    {
        if hits.len() >= limit {
            proof {
                lemma_marked_grows(all, kept@, i as int);
                assert(hit_views(hits@) =~= limited(all, kept@, limit as int));
            }
            return hits;
        }
        assert(all.take(i + 1).drop_last() =~= all.take(i as int));
        assert(all.take(i + 1).last() == row@);
        if kept[i] {
            let ghost before = hits@;
            hits.push(row);
            assert(hit_views(hits@) =~= hit_views(before).push(row@));
        }
        i += 1;
    }
    assert(all.take(all.len() as int) =~= all);
    hits
}

// ---------------------------------------------------------------------------
// Rows with bodies
// ---------------------------------------------------------------------------

/// A row that a hit is made of.
#[derive(Debug, Clone)]
pub struct TextRow {
    pub id: i64,
    pub display_path: String,
    pub title: String,
    pub body: String,
}

/// The first of the lines that is not blank, or nothing.
pub open spec fn first_text(ls: Seq<Seq<char>>) -> Seq<char>
    decreases ls.len(),
{
    if ls.len() == 0 {
        seq![]
    } else if !blank(ls[0]) {
        ls[0]
    } else {
        first_text(ls.drop_first())
    }
}

/// The hit that is made of a row: its first line that is not blank is shown.
pub open spec fn row_hit(row: TextRow) -> HitView {
    HitView {
        doc_id: row.id,
        path: row.display_path@,
        title: row.title@,
        score: None,
        snippet: first_text(lines_of(row.body@)),
        line_matches: seq![],
    }
}

/// The hits that are made of rows.
pub open spec fn row_hits(rows: Seq<TextRow>) -> Seq<HitView> {
    Seq::new(rows.len(), |i: int| row_hit(rows[i]))
}

/// The first line of a text that is not blank, or nothing.
fn snippet_of(body: &str) -> (r: String)
    ensures
        r@ == first_text(lines_of(body@)),
{
    let all: Vec<String> = lines(body);
    let ghost ls = lines_of(body@);
    let mut i: usize = 0;
    assert(ls.skip(0) =~= ls);
    while i < all.len()
        invariant
            texts(all@) == ls,
            ls == lines_of(body@),
            i <= all@.len(),
            first_text(ls) == first_text(ls.skip(i as int)),
        decreases all@.len() - i,
    {
        assert(ls.skip(i as int)[0] == all@[i as int]@);
        assert(ls.skip(i as int).drop_first() =~= ls.skip(i + 1));
        if !is_blank(all[i].as_str()) {
            return all[i].clone();
        }
        i += 1;
    }
    String::new()
}

/// The hits that are made of rows, in order.
pub fn list_documents(rows: Vec<TextRow>) -> (r: Vec<SearchHit>)
    ensures
        hit_views(r@) == row_hits(rows@),
{
    let mut hits: Vec<SearchHit> = Vec::new();
    for row in it: rows
        invariant
            it.seq() == rows@,
            hits@.len() == it.index(),
            forall|j: int| 0 <= j < hits@.len() ==> (#[trigger] hits@[j])@ == row_hit(rows@[j]),
    {
        let snippet: String = snippet_of(row.body.as_str());
        let line_matches: Vec<crate::document::LineMatch> = Vec::new();
        assert(line_views(line_matches@) =~= seq![]);
        hits.push(
            SearchHit {
                doc_id: row.id,
                path: row.display_path,
                title: row.title,
                score: None,
                snippet,
                line_matches,
            },
        );
    }
    hits
}

/// The first documents of a list whose path the matcher lets through, as many as the
/// limit allows.
pub fn list_below(rows: Vec<TextRow>, matcher: &Option<globset::GlobSet>, limit: usize) -> (r: Vec<
    SearchHit,
>)
    ensures
        exists|kept: Seq<bool>|
            {
                &&& all_kept_by(kept, *matcher, row_hits(rows@))
                &&& hit_views(r@) == #[trigger] limited(row_hits(rows@), kept, limit as int)
            },
{
    let all: Vec<SearchHit> = list_documents(rows);
    let kept: Vec<bool> = keep_flags(&all, matcher);
    take_kept(all, &kept, limit)
}

/// The hits among the rows that hold the text anywhere: those whose path the matcher
/// lets through.
pub fn like_hits(rows: Vec<TextRow>, matcher: &Option<globset::GlobSet>) -> (r: Vec<SearchHit>)
    ensures
        exists|kept: Seq<bool>|
            {
                &&& all_kept_by(kept, *matcher, row_hits(rows@))
                &&& hit_views(r@) == #[trigger] marked_of(row_hits(rows@), kept)
            },
{
    let all: Vec<SearchHit> = list_documents(rows);
    let kept: Vec<bool> = keep_flags(&all, matcher);
    let n: usize = all.len();
    proof {
        lemma_marked_len(hit_views(all@), kept@);
    }
    take_kept(all, &kept, n)
}

// ---------------------------------------------------------------------------
// Finding one document
// ---------------------------------------------------------------------------

/// A way to look one document up.
#[derive(Debug, Clone, PartialEq, Eq)]
pub enum Lookup {
    /// By its number.
    ById(i64),
    /// By its path below the root, or by its path as it is shown.
    ByPath { rel_path: String, display_path: String },
    /// By a pattern of its title, the first in the order of titles.
    ByTitle(String),
}

/// A way to look one document up, by its texts.
pub enum LookupView {
    ById(i64),
    ByPath { rel_path: Seq<char>, display_path: Seq<char> },
    ByTitle(Seq<char>),
}

impl View for Lookup {
    type V = LookupView;

    open spec fn view(&self) -> LookupView {
        match self {
            Lookup::ById(id) => LookupView::ById(*id),
            Lookup::ByPath { rel_path, display_path } => LookupView::ByPath {
                rel_path: rel_path@,
                display_path: display_path@,
            },
            Lookup::ByTitle(like) => LookupView::ByTitle(like@),
        }
    }
}

/// The lookup of a target as a path.
pub open spec fn path_lookup(target: Seq<char>) -> LookupView {
    LookupView::ByPath { rel_path: replaced(target, "/"@, "\\"@), display_path: target }
}

/// The lookup that comes first: by number where the target is one, else by path.
pub open spec fn first_lookup_of(target: Seq<char>) -> LookupView {
    match parsed_i64(target) {
        Some(id) => LookupView::ById(id),
        None => path_lookup(target),
    }
}

/// The lookup that comes after one that found nothing.
pub open spec fn next_lookup_of(lookup: LookupView, target: Seq<char>) -> Option<LookupView> {
    match lookup {
        LookupView::ById(_) => Some(path_lookup(target)),
        LookupView::ByPath { .. } => Some(LookupView::ByTitle(anywhere(target))),
        LookupView::ByTitle(_) => None,
    }
}

fn by_path(target: &str) -> (r: Lookup)
    ensures
        r@ == path_lookup(target@),
{
    Lookup::ByPath { rel_path: replace(target, "/", "\\"), display_path: owned(target) }
}

/// The lookup to begin with.
pub fn first_lookup(target: &str) -> (r: Lookup)
    ensures
        r@ == first_lookup_of(target@),
{
    match parse_i64(target) {
        Some(id) => Lookup::ById(id),
        None => by_path(target),
    }
}

/// How a search for one document goes on.
pub enum Resolution {
    Found(StoredDocument),
    Try(Lookup),
    Missing,
}

/// How the search for a document goes on after a lookup: it ends with what was found,
/// or with the next lookup, if there is one.
pub fn resolve_document(lookup: &Lookup, target: &str, found: Option<StoredDocument>) -> (r:
    Resolution)
    ensures
        found matches Some(doc) ==> r == Resolution::Found(doc),
        found is None ==> (match next_lookup_of(lookup@, target@) {
            Some(next) => r matches Resolution::Try(l) && l@ == next,
            None => r is Missing,
        }),
{
    match found {
        Some(doc) => Resolution::Found(doc),
        None => match lookup {
            Lookup::ById(_) => Resolution::Try(by_path(target)),
            Lookup::ByPath { .. } => Resolution::Try(Lookup::ByTitle(like_pattern(target))),
            Lookup::ByTitle(_) => Resolution::Missing,
        },
    }
}

/// The number of a document, written out, is looked up as that number first.
pub proof fn law_number_is_looked_up(id: i64)
    ensures
        first_lookup_of(decimal(id as int)) == LookupView::ById(id),
{
    crate::number::law_decimal_parses(id);
}

/// Whatever the target, the search for a document ends: after at most three lookups,
/// of which the last is by title.
pub proof fn law_resolution_ends(target: Seq<char>)
    ensures
        ({
            let one = first_lookup_of(target);
            let two = next_lookup_of(one, target);
            one is ById ==> two == Some(path_lookup(target)) && next_lookup_of(
                two->0,
                target,
            ) == Some(LookupView::ByTitle(anywhere(target)))
        }),
        next_lookup_of(path_lookup(target), target) == Some(LookupView::ByTitle(anywhere(target))),
        next_lookup_of(LookupView::ByTitle(anywhere(target)), target) is None,
{
}

/// Whether the definition of the full-text table is one without content, which cannot
/// be deleted from.
pub fn is_contentless(sql: Option<&str>) -> (r: bool)
    ensures
        r == (sql matches Some(s) && (has(s@, "content=''"@) || has(s@, "content = ''"@))),
{
    match sql {
        Some(s) => contains(s, "content=''") || contains(s, "content = ''"),
        None => false,
    }
}

/// A full-text search gives at most as many hits as its limit allows, each of them one
/// of the rows that the index gave.
pub proof fn law_hits_are_rows(rows: Seq<HitView>, kept: Seq<bool>, limit: int)
    requires
        0 <= limit,
    ensures
        limited(rows, kept, limit).len() <= limit,
        forall|k: int|
            0 <= k < limited(rows, kept, limit).len() ==> rows.contains(
                #[trigger] limited(rows, kept, limit)[k],
            ),
{
    lemma_marked_places(rows, kept);
    assert forall|k: int| 0 <= k < limited(rows, kept, limit).len() implies rows.contains(
        #[trigger] limited(rows, kept, limit)[k],
    ) by {
        assert(limited(rows, kept, limit)[k] == marked_of(rows, kept)[k]);
        assert(at_a_mark(rows, kept, marked_of(rows, kept)[k]));
    }
}

/// Every hit of a search in the index has a path that the path filter lets through,
/// as some system reads them.
pub proof fn law_hits_match_the_filter(
    filter: Option<Seq<char>>,
    matcher: Option<globset::GlobSet>,
    rows: Seq<HitView>,
    kept: Seq<bool>,
    limit: int,
)
    requires
        matcher_of(filter, matcher),
        all_kept_by(kept, matcher, rows),
        0 <= limit,
    ensures
        forall|k: int|
            0 <= k < marked_of(rows, kept).len() ==> kept_one(
                true,
                filter,
                (#[trigger] marked_of(rows, kept)[k]).path,
            ),
        forall|k: int|
            0 <= k < limited(rows, kept, limit).len() ==> kept_one(
                true,
                filter,
                (#[trigger] limited(rows, kept, limit)[k]).path,
            ),
{
    lemma_marked_places(rows, kept);
    assert forall|k: int| 0 <= k < marked_of(rows, kept).len() implies kept_one(
        true,
        filter,
        (#[trigger] marked_of(rows, kept)[k]).path,
    ) by {
        assert(at_a_mark(rows, kept, marked_of(rows, kept)[k]));
        let i = choose|i: int|
            0 <= i < rows.len() && #[trigger] kept[i] && rows[i] == marked_of(rows, kept)[k];
        assert(kept_by(kept[i], matcher, rows[i].path));
        match matcher {
            Some(set) => {
                lemma_set_answers_for_filter(filter, set, rows[i].path);
            },
            None => {
                assert(path_kept(filter, false, rows[i].path));
            },
        }
    }
    assert forall|k: int| 0 <= k < limited(rows, kept, limit).len() implies kept_one(
        true,
        filter,
        (#[trigger] limited(rows, kept, limit)[k]).path,
    ) by {
        assert(limited(rows, kept, limit)[k] == marked_of(rows, kept)[k]);
    }
}

// ---------------------------------------------------------------------------
// Laws of searching
// ---------------------------------------------------------------------------

/// What is left of a word of a text without the punctuation around it.
pub open spec fn token_at(text: Seq<char>, i: int) -> Seq<char> {
    trim_of(words_of(text)[i], CharClass::Punctuation)
}

/// Whether a query asks for every word of a text, as a prefix and without the punctuation
/// around it: taken apart at its blanks it has a piece for each word of which something is
/// left, in order. It is the text itself where nothing is left of any word.
pub open spec fn asks_for_every_word(text: Seq<char>, query: Seq<char>) -> bool {
    exists|at: Seq<int>|
        {
            &&& #[trigger] rises(at)
            &&& forall|k: int|
                0 <= k < at.len() ==> 0 <= #[trigger] at[k] < words_of(text).len() && token_at(
                    text,
                    at[k],
                ).len() > 0
            &&& forall|i: int|
                0 <= i < words_of(text).len() && (#[trigger] token_at(text, i)).len() > 0
                    ==> at.contains(i)
            &&& at.len() == 0 ==> query == text
            &&& at.len() > 0 ==> split(query, ' ').len() == at.len() && forall|k: int|
                0 <= k < at.len() ==> split(query, ' ')[k] == token_at(text, #[trigger] at[k]).push(
                    '*',
                )
        }
}

/// The full-text query of a text asks for every word of it.
pub proof fn law_every_word_is_asked_for(text: Seq<char>)
    ensures
        asks_for_every_word(text, fts_query(text)),
{
    let ws = words_of(text);
    let f = |word: Seq<char>| fts_term(word);
    let at = lemma_picked(ws, f);
    let keep = |i: int| f(ws[i]) is Some;
    let terms = fts_terms(text);
    reveal_strlit("*");
    reveal_strlit(" ");
    assert("*"@ =~= seq!['*']);
    assert(" "@ =~= seq![' ']);
    crate::pieces::law_words_hold_no_space(text);
    assert forall|k: int| 0 <= k < at.len() implies 0 <= #[trigger] at[k] < ws.len() && token_at(
        text,
        at[k],
    ).len() > 0 && terms[k] == token_at(text, at[k]).push('*') && !terms[k].contains(' ') by {
        assert(keep(at[k]));
        let token = token_at(text, at[k]);
        assert(terms[k] =~= token.push('*'));
        let (a, b) = lemma_trim_of(ws[at[k]], CharClass::Punctuation);
        assert forall|i: int| 0 <= i < terms[k].len() implies terms[k][i] != ' ' by {
            if i < token.len() {
                assert(terms[k][i] == ws[at[k]][a + i]);
            }
        }
    }
    assert forall|i: int|
        0 <= i < ws.len() && (#[trigger] token_at(text, i)).len() > 0 implies at.contains(i) by {
        assert(keep(i));
    }
    if at.len() > 0 {
        assert forall|k: int| 0 <= k < terms.len() implies !(#[trigger] terms[k]).contains(' ') by {
            assert(0 <= at[k]);
        }
        crate::pieces::law_joined_splits_back(terms, ' ');
    }
    assert(rises(at));
}

/// The pattern of a text anywhere is the text with one percent sign before it and one
/// behind it.
pub proof fn law_anywhere(text: Seq<char>)
    ensures
        anywhere(text) == seq!['%'] + text + seq!['%'],
{
    reveal_strlit("%");
    assert("%"@ =~= seq!['%']);
}

/// Whether `picked` are the marked values, in order and as many as the limit allows. Where
/// a marked value is left out, there are as many as the limit allows, all from before it.
pub open spec fn picks_marked<T>(
    v: Seq<T>,
    marked: Seq<bool>,
    limit: int,
    picked: Seq<T>,
) -> bool {
    &&& picked.len() <= limit
    &&& exists|at: Seq<int>|
        {
            &&& #[trigger] rises(at)
            &&& at.len() == picked.len()
            &&& forall|k: int|
                0 <= k < at.len() ==> 0 <= #[trigger] at[k] < v.len() && marked[at[k]] && picked[k]
                    == v[at[k]]
            &&& forall|i: int|
                0 <= i < v.len() && #[trigger] marked[i] ==> (at.contains(i) || at.len() == limit
                    && forall|k: int| 0 <= k < at.len() ==> #[trigger] at[k] < i)
        }
}

proof fn lemma_marked_at<T>(v: Seq<T>, marked: Seq<bool>) -> (at: Seq<int>)
    ensures
        are_places(v, |i: int| marked[i], at),
        at.len() == marked_of(v, marked).len(),
        forall|k: int| 0 <= k < at.len() ==> v[#[trigger] at[k]] == marked_of(v, marked)[k],
    decreases v.len(),
{
    let keep = |i: int| marked[i];
    if v.len() == 0 {
        assert(are_places(v, keep, Seq::empty()));
        Seq::empty()
    } else {
        let init = v.drop_last();
        let at = lemma_marked_at(init, marked);
        assert(v =~= init.push(v.last()));
        lemma_places_push(init, v.last(), keep, at);
        let more = if keep(init.len() as int) {
            at.push(init.len() as int)
        } else {
            at
        };
        assert forall|k: int| 0 <= k < more.len() implies v[#[trigger] more[k]] == marked_of(
            v,
            marked,
        )[k] by {
            if k < at.len() {
                assert(more[k] == at[k]);
                assert(init[at[k]] == v[at[k]]);
            }
        }
        more
    }
}

/// Of the rows that the index gives, every one that is kept is a hit, in order and up to
/// the limit; and every one where there is no limit.
pub proof fn law_every_kept_row_is_a_hit(rows: Seq<HitView>, kept: Seq<bool>, limit: int)
    requires
        0 <= limit,
        kept.len() == rows.len(),
    ensures
        picks_marked(rows, kept, limit, limited(rows, kept, limit)),
        picks_marked(rows, kept, rows.len() as int, marked_of(rows, kept)),
{
    let places = lemma_marked_at(rows, kept);
    let all = marked_of(rows, kept);
    let keep = |i: int| kept[i];
    lemma_marked_len(rows, kept);
    assert forall|i: int| 0 <= i < rows.len() && #[trigger] kept[i] implies places.contains(i) by {
        assert(keep(i));
    }
    assert forall|k: int| 0 <= k < places.len() implies 0 <= #[trigger] places[k] < rows.len()
        && kept[places[k]] && all[k] == rows[places[k]] by {
        assert(keep(places[k]));
    }
    assert(rises(places));
    assert(picks_marked(rows, kept, rows.len() as int, all));
    let hits = limited(rows, kept, limit);
    let at = first(places, limit);
    crate::fs_source::law_first(all, limit);
    crate::fs_source::law_first(places, limit);
    assert forall|j: int, k: int| 0 <= j < k < at.len() implies #[trigger] at[j] < #[trigger] at[k] by {
        assert(places[j] < places[k]);
    }
    assert forall|k: int| 0 <= k < at.len() implies 0 <= #[trigger] at[k] < rows.len()
        && kept[at[k]] && hits[k] == rows[at[k]] by {
        assert(at[k] == places[k]);
    }
    assert forall|i: int| 0 <= i < rows.len() && #[trigger] kept[i] implies (at.contains(i)
        || at.len() == limit && forall|k: int| 0 <= k < at.len() ==> #[trigger] at[k] < i) by {
        let m = choose|m: int| 0 <= m < places.len() && places[m] == i;
        if m < at.len() {
            assert(at[m] == i);
        } else {
            assert forall|k: int| 0 <= k < at.len() implies #[trigger] at[k] < i by {
                assert(places[k] < places[m]);
            }
        }
    }
    assert(rises(at));
}

/// What is shown of a row is its number, its path, its title and the first line of its text
/// that is not blank, or nothing where all are.
pub proof fn law_row_hits(rows: Seq<TextRow>, i: int)
    requires
        0 <= i < rows.len(),
    ensures
        row_hits(rows).len() == rows.len(),
        row_hits(rows)[i].doc_id == rows[i].id,
        row_hits(rows)[i].path == rows[i].display_path@,
        row_hits(rows)[i].title == rows[i].title@,
        row_hits(rows)[i].score is None,
        row_hits(rows)[i].line_matches.len() == 0,
        forall|l: int|
            0 <= l < lines_of(rows[i].body@).len() && !blank(#[trigger] lines_of(rows[i].body@)[l]) && (
            forall|m: int| 0 <= m < l ==> blank(#[trigger] lines_of(rows[i].body@)[m])) ==> row_hits(
                rows,
            )[i].snippet == lines_of(rows[i].body@)[l],
        (forall|m: int|
            0 <= m < lines_of(rows[i].body@).len() ==> blank(
                #[trigger] lines_of(rows[i].body@)[m],
            )) ==> row_hits(rows)[i].snippet.len() == 0,
{
    let ls = lines_of(rows[i].body@);
    assert forall|l: int|
        0 <= l < ls.len() && !blank(#[trigger] ls[l]) && (forall|m: int|
            0 <= m < l ==> blank(#[trigger] ls[m])) implies row_hits(rows)[i].snippet == ls[l] by {
        lemma_first_text(ls, l);
    }
    if forall|m: int| 0 <= m < ls.len() ==> blank(#[trigger] ls[m]) {
        lemma_no_text(ls);
    }
}

proof fn lemma_first_text(ls: Seq<Seq<char>>, l: int)
    requires
        0 <= l < ls.len(),
        !blank(ls[l]),
        forall|m: int| 0 <= m < l ==> blank(#[trigger] ls[m]),
    ensures
        first_text(ls) == ls[l],
    decreases l,
{
    if l > 0 {
        assert(blank(ls[0]));
        assert forall|m: int| 0 <= m < l - 1 implies blank(#[trigger] ls.drop_first()[m]) by {
            assert(ls.drop_first()[m] == ls[m + 1]);
        }
        lemma_first_text(ls.drop_first(), l - 1);
    }
}

proof fn lemma_no_text(ls: Seq<Seq<char>>)
    requires
        forall|m: int| 0 <= m < ls.len() ==> blank(#[trigger] ls[m]),
    ensures
        first_text(ls).len() == 0,
    decreases ls.len(),
{
    if ls.len() > 0 {
        assert(blank(ls[0]));
        assert forall|m: int| 0 <= m < ls.len() - 1 implies blank(#[trigger] ls.drop_first()[m]) by {
            assert(ls.drop_first()[m] == ls[m + 1]);
        }
        lemma_no_text(ls.drop_first());
    }
}

/// Exactly the documents are written that the index lacks or holds with another hash, each
/// once and in order, and every document is counted.
pub proof fn law_changed_documents_are_written(
    table: Map<Seq<char>, Seq<char>>,
    docs: Seq<DocumentRecord>,
    plan: IndexPlan,
)
    requires
        is_index_plan(table, docs, plan),
        docs.len() <= usize::MAX,
    ensures
        forall|i: int|
            0 <= i < docs.len() ==> (plan.changed@.contains(i as usize) <==> !(table.dom().contains(
                (#[trigger] docs[i]).rel_path@,
            ) && table[docs[i].rel_path@] == docs[i].hash@)),
        forall|j: int, k: int|
            0 <= j < k < plan.changed@.len() ==> #[trigger] plan.changed@[j]
                < #[trigger] plan.changed@[k],
        forall|k: int| 0 <= k < plan.changed@.len() ==> #[trigger] plan.changed@[k] < docs.len(),
        plan.stats.indexed == docs.len(),
        plan.stats.updated == plan.changed@.len(),
        plan.stats.updated + plan.stats.unchanged == docs.len(),
        plan.removed@.len() <= usize::MAX ==> plan.stats.removed == plan.removed@.len(),
{
    let n = docs.len() as int;
    let at = changed_among(table, docs, n);
    lemma_changed_among(table, docs, n);
    assert forall|k: int| 0 <= k < plan.changed@.len() implies #[trigger] plan.changed@[k] as int
        == at[k] by {
        assert(positions(plan.changed@)[k] == at[k]);
    }
    assert forall|i: int| 0 <= i < docs.len() implies (plan.changed@.contains(i as usize) <==> !(
    table.dom().contains((#[trigger] docs[i]).rel_path@) && table[docs[i].rel_path@]
        == docs[i].hash@)) by {
        if plan.changed@.contains(i as usize) {
            let k = choose|k: int|
                0 <= k < plan.changed@.len() && plan.changed@[k] == i as usize;
            assert(at[k] == i);
            assert(is_changed(table, docs[at[k]]));
        }
        if is_changed(table, docs[i]) {
            assert(at.contains(i));
            let k = choose|k: int| 0 <= k < at.len() && at[k] == i;
            assert(plan.changed@[k] as int == i);
        }
    }
    assert forall|j: int, k: int| 0 <= j < k < plan.changed@.len() implies #[trigger] plan.changed@[j]
        < #[trigger] plan.changed@[k] by {
        assert(at[j] < at[k]);
    }
    assert(at.len() == plan.changed@.len());
}

proof fn lemma_changed_among(table: Map<Seq<char>, Seq<char>>, docs: Seq<DocumentRecord>, n: int)
    requires
        0 <= n <= docs.len(),
    ensures
        rises(changed_among(table, docs, n)),
        changed_among(table, docs, n).len() <= n,
        forall|k: int|
            0 <= k < changed_among(table, docs, n).len() ==> 0 <= #[trigger] changed_among(
                table,
                docs,
                n,
            )[k] < n && is_changed(table, docs[changed_among(table, docs, n)[k]]),
        forall|i: int|
            0 <= i < n && is_changed(table, #[trigger] docs[i]) ==> changed_among(
                table,
                docs,
                n,
            ).contains(i),
    decreases n,
{
    if n > 0 {
        lemma_changed_among(table, docs, n - 1);
        let before = changed_among(table, docs, n - 1);
        let all = changed_among(table, docs, n);
        assert forall|i: int|
            0 <= i < n && is_changed(table, #[trigger] docs[i]) implies all.contains(i) by {
            if i < n - 1 {
                assert(before.contains(i));
                let k = choose|k: int| 0 <= k < before.len() && before[k] == i;
                assert(all[k] == i);
            } else {
                assert(all[before.len() as int] == i);
            }
        }
    }
}

/// A target that is no number is looked up by its path first: as it is shown, or with
/// backslashes for its slashes; and then anywhere in a title.
pub proof fn law_lookups(target: Seq<char>)
    ensures
        parsed_i64(target) is None ==> first_lookup_of(target) == path_lookup(target),
        parsed_i64(target) matches Some(id) ==> first_lookup_of(target) == LookupView::ById(id),
        path_lookup(target)->display_path == target,
        path_lookup(target)->rel_path.len() == target.len(),
        forall|i: int|
            0 <= i < target.len() ==> #[trigger] path_lookup(target)->rel_path[i] == (if target[i]
                == '/' {
                '\\'
            } else {
                target[i]
            }),
        forall|id: i64| next_lookup_of(LookupView::ById(id), target) == Some(path_lookup(target)),
        next_lookup_of(path_lookup(target), target) == Some(
            LookupView::ByTitle(seq!['%'] + target + seq!['%']),
        ),
{
    reveal_strlit("\\");
    reveal_strlit("/");
    assert("\\"@ =~= seq!['\\']);
    assert("/"@ =~= seq!['/']);
    law_replaced_character(target, '/', '\\');
    law_anywhere(target);
}

/// A count that the database can take is taken as it is, and one that it cannot take asks for
/// all rows.
pub proof fn law_row_count(n: int)
    requires
        0 <= n < 0x1_0000_0000_0000_0000,
    ensures
        n <= i64::MAX ==> row_count(n) == n,
        n > i64::MAX ==> row_count(n) < 0,
{
}

/// A full-text search ends with the hits where there are any. Where there are none, the
/// text is looked for anywhere, for as many rows as hits are wanted.
pub proof fn law_steps_after_full_text(hits: Seq<HitView>, query: SearchQuery, step: SearchStep)
    requires
        is_step_for(hits, query, step),
    ensures
        step is Done <==> hits.len() > 0,
        step matches SearchStep::Done(found) ==> hit_views(found@) == hits,
        step matches SearchStep::Fallback { like, row_limit } ==> like@ == seq!['%'] + query.text@
            + seq!['%'] && (query.limit <= i64::MAX ==> row_limit == query.limit),
{
    law_anywhere(query.text@);
}

/// What a document is stored as holds each of its texts as it is, and its hash.
pub proof fn law_stored_row(doc: DocumentRecord)
    ensures
        row_view(doc).rel_path == doc.rel_path@,
        row_view(doc).display_path == doc.display_path@,
        row_view(doc).title == doc.title@,
        row_view(doc).body == doc.body@,
        row_view(doc).hash == doc.hash@,
        row_view(doc).modified_at == opt_text(doc.modified_at),
        row_view(doc).status == status_name(doc.status),
        doc.headings@.len() > 0 && (forall|i: int|
            0 <= i < doc.headings@.len() ==> !(#[trigger] doc.headings@[i]@.contains('\n'))) ==> split(
            row_view(doc).headings,
            '\n',
        ) == texts(doc.headings@),
        doc.links@.len() > 0 && (forall|i: int|
            0 <= i < doc.links@.len() ==> !(#[trigger] doc.links@[i]@.contains('\n'))) ==> split(
            row_view(doc).links,
            '\n',
        ) == texts(doc.links@),
{
    reveal_strlit("\n");
    assert("\n"@ =~= seq!['\n']);
    if doc.headings@.len() > 0 && (forall|i: int|
        0 <= i < doc.headings@.len() ==> !(#[trigger] doc.headings@[i]@.contains('\n'))) {
        assert forall|i: int| 0 <= i < texts(doc.headings@).len() implies !(
        #[trigger] texts(doc.headings@)[i]).contains('\n') by {
            assert(!(doc.headings@[i]@.contains('\n')));
        }
        crate::pieces::law_joined_splits_back(texts(doc.headings@), '\n');
    }
    if doc.links@.len() > 0 && (forall|i: int|
        0 <= i < doc.links@.len() ==> !(#[trigger] doc.links@[i]@.contains('\n'))) {
        assert forall|i: int| 0 <= i < texts(doc.links@).len() implies !(
        #[trigger] texts(doc.links@)[i]).contains('\n') by {
            assert(!(doc.links@[i]@.contains('\n')));
        }
        crate::pieces::law_joined_splits_back(texts(doc.links@), '\n');
    }
}

/// A row is kept exactly where the path filter that its matcher was made of lets its path
/// through, as some system reads them.
pub proof fn law_rows_are_kept_by_the_filter(
    filter: Option<Seq<char>>,
    matcher: Option<globset::GlobSet>,
    rows: Seq<HitView>,
    kept: Seq<bool>,
    i: int,
)
    requires
        matcher_of(filter, matcher),
        all_kept_by(kept, matcher, rows),
        0 <= i < rows.len(),
    ensures
        kept.len() == rows.len(),
        kept_one(kept[i], filter, rows[i].path),
        filter is None ==> kept[i],
{
    assert(kept_by(kept[i], matcher, rows[i].path));
    match matcher {
        Some(set) => {
            lemma_set_answers_for_filter(filter, set, rows[i].path);
        },
        None => {
            assert(path_kept(filter, false, rows[i].path));
        },
    }
}

/// Whether a request asks for what a query does: its text, ten rows for each hit that is
/// wanted, and the paths that its filter lets through.
pub open spec fn asks_for(request: FullTextRequest, query: SearchQuery) -> bool {
    &&& request.fts_query@ == fts_query(query.text@)
    &&& request.row_limit == row_count(query.limit * 10)
    &&& matcher_of(opt_text(query.path_filter), request.matcher)
}

/// A full-text request asks for every word of the query, for ten times as many rows as hits
/// are wanted, and filters by the pattern of the query, if it has one.
pub proof fn law_full_text_requests(request: FullTextRequest, query: SearchQuery)
    requires
        asks_for(request, query),
    ensures
        asks_for_every_word(query.text@, request.fts_query@),
        query.limit * 10 <= i64::MAX ==> request.row_limit == 10 * query.limit,
        query.path_filter is None <==> request.matcher is None,
        query.path_filter matches Some(pattern) ==> glob_patterns(request.matcher->0) == seq![
            pattern@,
        ],
{
    law_every_word_is_asked_for(query.text@);
}

} // verus!
