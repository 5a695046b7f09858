//! From the HTML of a page to the markdown of the mirror.

use crate::digest::{page_hash, page_hash_of};
use crate::dom::{
    document_query, found_in_views, found_views, fragment_query, fragment_query_in, select_document,
    select_fragment, select_in_fragment, Found, FoundIn, FoundInView, FoundView,
};
use crate::links::{normalize_url, normalized_url, url_decode, url_decoded};
use crate::paths::{last_at, law_last_place, opt_text};
use crate::pattern::{
    find_from, has, law_replaced, law_replaced_first, law_replaced_in_parts, occurs_at, replace,
    replace_first, replaced, replaced_first, strip, stripped,
};
use crate::pieces::{
    law_joined, law_joined_splits_back, law_split_joins_back, lemma_split_single, rises,
};
use crate::text::{
    blank, from_chars, in_class, is_blank, is_space, join, joined, law_trim_start, lemma_trim_of,
    lines, lines_of, owned, same, split, texts, to_chars, trim, trim_start, trim_start_of, trimmed,
    words, words_of, CharClass,
};
use vstd::prelude::*;
use vstd::string::*;

verus! {

/// A list of one name.
pub(crate) fn one(name: &str) -> (r: Vec<String>)
    ensures
        texts(r@) == seq![name@],
        r@.len() == 1,
{
    let mut out: Vec<String> = Vec::new();
    out.push(owned(name));
    assert(texts(out@) =~= seq![name@]);
    out
}

/// A list of no names.
pub(crate) fn none() -> (r: Vec<String>)
    ensures
        texts(r@) == Seq::<Seq<char>>::empty(),
        r@.len() == 0,
{
    let out: Vec<String> = Vec::new();
    assert(texts(out@) =~= Seq::<Seq<char>>::empty());
    out
}

// ---------------------------------------------------------------------------
// Elements that are taken out
// ---------------------------------------------------------------------------

/// The text without the elements, wherever they stand as they are written out.
pub open spec fn without_elements(html: Seq<char>, found: Seq<FoundView>) -> Seq<char>
    decreases found.len(),
{
    if found.len() == 0 {
        html
    } else {
        replaced(without_elements(html, found.drop_last()), found.last().html, seq![])
    }
}

/// The text without elements that were found in it.
pub fn remove_elements(html: &str, found: &Vec<Found>) -> (r: String)
    ensures
        r@ == without_elements(html@, found_views(found@)),
{
    let ghost all = found_views(found@);
    let mut out: String = owned(html);
    let mut i: usize = 0;
    assert(all.take(0) =~= seq![]);
    while i < found.len()
        invariant
            all == found_views(found@),
            i <= found@.len(),
            out@ == without_elements(html@, all.take(i as int)),
        decreases found@.len() - i,
    {
        proof {
            reveal_strlit("");
            assert(""@ =~= seq![]);
            assert(all.take(i + 1).drop_last() =~= all.take(i as int));
            assert(all.take(i + 1).last() == found@[i as int]@);
        }
        out = replace(out.as_str(), found[i].html.as_str(), "");
        i += 1;
    }
    assert(all.take(i as int) =~= all);
    out
}

/// The selector of a class.
pub open spec fn class_selector(class: Seq<char>) -> Seq<char> {
    "."@ + class
}

/// The text without the elements of a class.
pub open spec fn without_class(html: Seq<char>, class: Seq<char>) -> Option<Seq<char>> {
    match fragment_query(html, class_selector(class), seq![]) {
        Some(found) => Some(without_elements(html, found)),
        None => None,
    }
}

/// The text without the elements of a class; nothing where the class makes no selector.
pub fn remove_tags_with_class(html: &str, class: &str) -> (r: Option<String>)
    ensures
        opt_text(r) == without_class(html@, class@),
{
    let selector: String = owned(".").concat(class);
    match select_fragment(html, selector.as_str(), &none()) {
        Some(found) => Some(remove_elements(html, &found)),
        None => None,
    }
}

// ---------------------------------------------------------------------------
// Code blocks
// ---------------------------------------------------------------------------

/// Whether a class of a code block says nothing of its language.
pub open spec fn is_style_class(class: Seq<char>) -> bool {
    class == "shiki"@ || class == "one-dark-pro"@ || class == "fragment"@
}

/// The first class that may name a language, or nothing.
pub open spec fn first_language(classes: Seq<Seq<char>>) -> Seq<char>
    decreases classes.len(),
{
    if classes.len() == 0 {
        seq![]
    } else if !is_style_class(classes[0]) {
        classes[0]
    } else {
        first_language(classes.drop_first())
    }
}

/// The language of a code block, by its classes.
pub open spec fn language_of(classes: Seq<char>) -> Seq<char> {
    stripped(first_language(words_of(classes)), "language-"@)
}

/// The language of a code block, by its classes.
pub fn code_language(classes: &str) -> (r: String)
    ensures
        r@ == language_of(classes@),
{
    let all: Vec<String> = words(classes);
    let ghost ws = words_of(classes@);
    let mut i: usize = 0;
    assert(ws.skip(0) =~= ws);
    while i < all.len()
        invariant
            texts(all@) == ws,
            ws == words_of(classes@),
            i <= all@.len(),
            first_language(ws) == first_language(ws.skip(i as int)),
        decreases all@.len() - i,
    {
        assert(ws.skip(i as int)[0] == all@[i as int]@);
        assert(ws.skip(i as int).drop_first() =~= ws.skip(i + 1));
        let class: &str = all[i].as_str();
        if !same(class, "shiki") && !same(class, "one-dark-pro") && !same(class, "fragment") {
            return strip(class, "language-");
        }
        i += 1;
    }
    proof {
        reveal_strlit("language-");
        assert(first_language(ws) =~= seq![]);
        assert(!"language-"@.is_prefix_of(Seq::<char>::empty()));
    }
    String::new()
}

/// Text as it is written in HTML.
pub open spec fn escaped(code: Seq<char>) -> Seq<char> {
    replaced(replaced(replaced(code, "&"@, "&amp;"@), "<"@, "&lt;"@), ">"@, "&gt;"@)
}

/// Text as it is written in HTML.
pub fn escape_html(code: &str) -> (r: String)
    ensures
        r@ == escaped(code@),
{
    let a: String = replace(code, "&", "&amp;");
    let b: String = replace(a.as_str(), "<", "&lt;");
    replace(b.as_str(), ">", "&gt;")
}

/// The texts of elements.
pub open spec fn found_texts(found: Seq<FoundView>) -> Seq<Seq<char>> {
    Seq::new(found.len(), |i: int| found[i].text)
}

/// A block of code without markup inside.
pub open spec fn plain_block(language: Seq<char>, code: Seq<char>) -> Seq<char> {
    if language.len() == 0 {
        "<pre><code>"@ + escaped(code) + "</code></pre>"@
    } else {
        "<pre><code class=\"language-"@ + language + "\">"@ + escaped(code) + "</code></pre>"@
    }
}

/// What a highlighted block of code is written as: its lines, without markup.
pub open spec fn block_of(block: FoundInView) -> Seq<char> {
    plain_block(
        language_of(
            match block.outer.attrs[0] {
                Some(classes) => classes,
                None => seq![],
            },
        ),
        joined(found_texts(block.inner), "\n"@),
    )
}

/// The text with each highlighted block, where it first stands, written without
/// markup.
pub open spec fn with_plain_blocks(html: Seq<char>, blocks: Seq<FoundInView>) -> Seq<char>
    decreases blocks.len(),
{
    if blocks.len() == 0 {
        html
    } else {
        replaced_first(
            with_plain_blocks(html, blocks.drop_last()),
            blocks.last().outer.html,
            block_of(blocks.last()),
        )
    }
}

fn texts_of(found: &Vec<Found>) -> (r: Vec<String>)
    ensures
        texts(r@) == found_texts(found_views(found@)),
{
    let mut out: Vec<String> = Vec::new();
    let mut i: usize = 0;
    while i < found.len()
        invariant
            i <= found@.len(),
            out@.len() == i,
            forall|j: int| 0 <= j < i ==> (#[trigger] out@[j])@ == found@[j].text@,
        decreases found@.len() - i,
    {
        out.push(found[i].text.clone());
        i += 1;
    }
    assert(texts(out@) =~= found_texts(found_views(found@)));
    out
}

/// A block of code without markup inside.
pub fn code_block(language: &str, code: &str) -> (r: String)
    ensures
        r@ == plain_block(language@, code@),
{
    let inside: String = escape_html(code);
    if language.is_empty() {
        owned("<pre><code>").concat(inside.as_str()).concat("</code></pre>")
    } else {
        owned("<pre><code class=\"language-").concat(language).concat("\">").concat(
            inside.as_str(),
        ).concat("</code></pre>")
    }
}

/// The text with highlighted blocks of code that were found in it written without
/// markup.
pub fn replace_blocks(html: &str, blocks: &Vec<FoundIn>) -> (r: String)
    requires
        forall|i: int| 0 <= i < blocks@.len() ==> (#[trigger] blocks@[i]).outer.attrs@.len() > 0,
    ensures
        r@ == with_plain_blocks(html@, found_in_views(blocks@)),
{
    let ghost all = found_in_views(blocks@);
    let mut out: String = owned(html);
    let mut i: usize = 0;
    assert(all.take(0) =~= seq![]);
    while i < blocks.len()
        invariant
            forall|j: int|
                0 <= j < blocks@.len() ==> (#[trigger] blocks@[j]).outer.attrs@.len() > 0,
            all == found_in_views(blocks@),
            i <= blocks@.len(),
            out@ == with_plain_blocks(html@, all.take(i as int)),
        decreases blocks@.len() - i,
    {
        proof {
            assert(all.take(i + 1).drop_last() =~= all.take(i as int));
            assert(all.take(i + 1).last() == blocks@[i as int]@);
        }
        let block: &FoundIn = &blocks[i];
        let language: String = match &block.outer.attrs[0] {
            Some(classes) => code_language(classes.as_str()),
            None => {
                proof {
                    reveal_strlit("");
                    assert(""@ =~= seq![]);
                }
                code_language("")
            },
        };
        let code: String = join(&texts_of(&block.inner), "\n");
        let plain: String = code_block(language.as_str(), code.as_str());
        assert(plain@ == block_of(block@));
        out = replace_first(out.as_str(), block.outer.html.as_str(), plain.as_str());
        i += 1;
    }
    assert(all.take(i as int) =~= all);
    out
}

/// The text with its highlighted blocks of code written without markup.
pub open spec fn with_plain_code(html: Seq<char>) -> Option<Seq<char>> {
    match fragment_query_in(html, "pre.shiki"@, seq!["class"@], "span.line"@, seq![]) {
        Some(blocks) => Some(with_plain_blocks(html, blocks)),
        None => None,
    }
}

/// The text with its highlighted blocks of code written without markup.
pub fn transform_shiki_blocks(html: &str) -> (r: Option<String>)
    ensures
        opt_text(r) == with_plain_code(html@),
{
    match select_in_fragment(html, "pre.shiki", &one("class"), "span.line", &none()) {
        Some(blocks) => Some(replace_blocks(html, &blocks)),
        None => None,
    }
}

/// What is converted of a page: without anchors and highlighting.
pub open spec fn preprocessed(html: Seq<char>) -> Option<Seq<char>> {
    match without_class(html, "docanchor"@) {
        Some(a) => match with_plain_code(a) {
            Some(b) => Some(replaced(b, " data-fragment-index=\""@, " data-rm=\""@)),
            None => None,
        },
        None => None,
    }
}

/// What is converted of a page.
pub fn preprocess_html(html: &str) -> (r: Option<String>)
    ensures
        opt_text(r) == preprocessed(html@),
{
    match remove_tags_with_class(html, "docanchor") {
        Some(a) => match transform_shiki_blocks(a.as_str()) {
            Some(b) => Some(replace(b.as_str(), " data-fragment-index=\"", " data-rm=\"")),
            None => None,
        },
        None => None,
    }
}

// ---------------------------------------------------------------------------
// Links
// ---------------------------------------------------------------------------

/// An attribute as it is written.
pub open spec fn attribute(name: Seq<char>, value: Seq<char>) -> Seq<char> {
    name + "=\""@ + value + "\""@
}

/// The text with a link, where it first stands, as it stands in the mirror.
pub open spec fn with_link(
    html: Seq<char>,
    name: Seq<char>,
    link: Option<Seq<char>>,
    dir: Seq<char>,
    is_asset: bool,
) -> Seq<char> {
    match link {
        Some(url) => if normalized_url(url, dir, is_asset) != url {
            replaced_first(
                html,
                attribute(name, url),
                attribute(name, normalized_url(url, dir, is_asset)),
            )
        } else {
            html
        },
        None => html,
    }
}

/// The text with the links of elements as they stand in the mirror.
pub open spec fn with_links(
    html: Seq<char>,
    found: Seq<FoundView>,
    name: Seq<char>,
    dir: Seq<char>,
    is_asset: bool,
) -> Seq<char>
    decreases found.len(),
{
    if found.len() == 0 {
        html
    } else {
        with_link(
            with_links(html, found.drop_last(), name, dir, is_asset),
            name,
            found.last().attrs[0],
            dir,
            is_asset,
        )
    }
}

fn written_attribute(name: &str, value: &str) -> (r: String)
    ensures
        r@ == attribute(name@, value@),
{
    owned(name).concat("=\"").concat(value).concat("\"")
}

/// The text with the links of elements that were found in it as they stand in the
/// mirror.
pub fn rewrite_links(
    html: &str,
    found: &Vec<Found>,
    name: &str,
    current_dir: &str,
    is_asset: bool,
) -> (r: String)
    requires
        forall|i: int| 0 <= i < found@.len() ==> (#[trigger] found@[i]).attrs@.len() > 0,
    ensures
        r@ == with_links(html@, found_views(found@), name@, current_dir@, is_asset),
{
    let ghost all = found_views(found@);
    let mut out: String = owned(html);
    let mut i: usize = 0;
    assert(all.take(0) =~= seq![]);
    while i < found.len()
        invariant
            forall|j: int| 0 <= j < found@.len() ==> (#[trigger] found@[j]).attrs@.len() > 0,
            all == found_views(found@),
            i <= found@.len(),
            out@ == with_links(html@, all.take(i as int), name@, current_dir@, is_asset),
        decreases found@.len() - i,
    {
        proof {
            assert(all.take(i + 1).drop_last() =~= all.take(i as int));
            assert(all.take(i + 1).last() == found@[i as int]@);
        }
        let element: &Found = &found[i];
        if let Some(url) = &element.attrs[0] {
            let link: String = normalize_url(url.as_str(), current_dir, is_asset);
            if !same(link.as_str(), url.as_str()) {
                let before: String = written_attribute(name, url.as_str());
                let after: String = written_attribute(name, link.as_str());
                out = replace_first(out.as_str(), before.as_str(), after.as_str());
            }
        }
        i += 1;
    }
    assert(all.take(i as int) =~= all);
    out
}

/// The text with its links and images as they stand in the mirror.
pub open spec fn with_local_links(html: Seq<char>, dir: Seq<char>) -> Option<Seq<char>> {
    match fragment_query(html, "a[href]"@, seq!["href"@]) {
        Some(links) => match fragment_query(html, "img[src]"@, seq!["src"@]) {
            Some(images) => Some(
                with_links(with_links(html, links, "href"@, dir, false), images, "src"@, dir, true),
            ),
            None => None,
        },
        None => None,
    }
}

/// The text with its links and images as they stand in the mirror.
pub fn normalize_links_in_html(html: &str, current_dir: &str) -> (r: Option<String>)
    ensures
        opt_text(r) == with_local_links(html@, current_dir@),
{
    let links: Vec<Found> = match select_fragment(html, "a[href]", &one("href")) {
        Some(found) => found,
        None => {
            return None;
        },
    };
    let images: Vec<Found> = match select_fragment(html, "img[src]", &one("src")) {
        Some(found) => found,
        None => {
            return None;
        },
    };
    let linked: String = rewrite_links(html, &links, "href", current_dir, false);
    Some(rewrite_links(linked.as_str(), &images, "src", current_dir, true))
}

// ---------------------------------------------------------------------------
// Markdown
// ---------------------------------------------------------------------------

/// Whether HTML may hold an ordered list: somewhere in it a tag begins with its name.
pub open spec fn has_ordered_list(html: Seq<char>) -> bool {
    exists|i: int|
        0 <= i && i + 2 < html.len() && #[trigger] html[i] == '<' && (html[i + 1] == 'o' || html[i
            + 1] == 'O') && (html[i + 2] == 'l' || html[i + 2] == 'L')
}

/// The markdown that HTML is converted to, where the numbers of the items of its ordered
/// lists are taken to be so wide, one after the other.
pub uninterp spec fn converted(html: Seq<char>, widths: Seq<int>) -> Seq<char>;

/// `htmd::convert`: markdown that depends on the HTML and on how wide the numbers of the
/// items of ordered lists are taken to be. Without such a list there are none to
/// measure. It never fails.
///
/// The widths are computed with floating-point numbers, the precision of which depends on
/// the machine; it is not said what they are.
#[verifier::external_body]
fn convert(html: &str) -> (r: Option<String>)
    ensures
        r is Some,
        exists|widths: Seq<int>| r->0@ == #[trigger] converted(html@, widths),
        !has_ordered_list(html@) ==> r->0@ == converted(html@, seq![]),
{
    htmd::convert(html).ok()
}

/// Whether a text is the markdown of HTML whose links are local, however wide the
/// numbers of its ordered lists are taken to be.
pub open spec fn is_markdown_of(html: Seq<char>, markdown: Seq<char>) -> bool {
    &&& exists|widths: Seq<int>| markdown == #[trigger] converted(html, widths)
    &&& !has_ordered_list(html) ==> markdown == converted(html, seq![])
}

/// The markdown of a part of a page in a directory.
pub fn html_to_markdown(html: &str, current_dir: &str) -> (r: Option<String>)
    ensures
        r is Some == with_local_links(html@, current_dir@) is Some,
        r matches Some(markdown) ==> is_markdown_of(
            with_local_links(html@, current_dir@)->0,
            markdown@,
        ),
{
    match normalize_links_in_html(html, current_dir) {
        Some(local) => match convert(local.as_str()) {
            Some(markdown) => Some(markdown),
            None => Some(String::new()),
        },
        None => None,
    }
}

/// How many blank lines stand at the end.
pub open spec fn blank_run(ls: Seq<Seq<char>>) -> nat
    decreases ls.len(),
{
    if ls.len() == 0 || !blank(ls.last()) {
        0
    } else {
        blank_run(ls.drop_last()) + 1
    }
}

/// What is written of the last line: nothing of a third blank line in a row, and of a
/// blank line no more than its end.
pub open spec fn written_last(ls: Seq<Seq<char>>) -> Seq<char> {
    if !blank(ls.last()) {
        ls.last() + "\n"@
    } else if blank_run(ls) <= 2 {
        "\n"@
    } else {
        seq![]
    }
}

/// The lines with at most two blank ones in a row.
pub open spec fn collapsed(ls: Seq<Seq<char>>) -> Seq<char>
    decreases ls.len(),
{
    if ls.len() == 0 {
        seq![]
    } else {
        collapsed(ls.drop_last()) + written_last(ls)
    }
}

/// The markdown as it is stored.
pub open spec fn postprocessed(md: Seq<char>) -> Seq<char> {
    trimmed(collapsed(lines_of(md)))
}

/// The markdown as it is stored.
pub fn postprocess_markdown(md: &str) -> (r: String)
    ensures
        r@ == postprocessed(md@),
{
    let all: Vec<String> = lines(md);
    let ghost ls = lines_of(md@);
    let n: usize = all.len();
    let mut result: String = String::new();
    let mut blank_count: usize = 0;
    let mut i: usize = 0;
    assert(ls.take(0) =~= seq![]);
    while i < n
        invariant
            texts(all@) == ls,
            n == all@.len(),
            i <= n,
            blank_count <= i,
            blank_count == blank_run(ls.take(i as int)),
            result@ == collapsed(ls.take(i as int)),
        decreases n - i,
    {
        proof {
            reveal_strlit("\n");
            assert(ls.take(i + 1).drop_last() =~= ls.take(i as int));
            assert(ls.take(i + 1).last() == all@[i as int]@);
        }
        if is_blank(all[i].as_str()) {
            blank_count += 1;
            if blank_count <= 2 {
                result.append("\n");
            }
        } else {
            blank_count = 0;
            result.append(all[i].as_str());
            result.append("\n");
        }
        assert(result@ =~= collapsed(ls.take(i + 1)));
        i += 1;
    }
    assert(ls.take(n as int) =~= ls);
    trim(result.as_str())
}

// ---------------------------------------------------------------------------
// Pages
// ---------------------------------------------------------------------------

/// Why a page could not be mirrored.
#[derive(Debug, Clone, Copy, PartialEq, Eq, Structural)]
pub enum PageError {
    /// A selector was not understood.
    Selector,
    /// The page has no content.
    NoContent,
}

/// A page of the mirror.
#[derive(Debug, Clone)]
pub struct MirrorPage {
    pub markdown: String,
    pub hash: String,
    /// Where it is stored below the output directory.
    pub rel_path: String,
}

/// A page of the mirror by its texts.
#[verifier::ext_equal]
pub struct PageView {
    pub markdown: Seq<char>,
    pub hash: Seq<char>,
    pub rel_path: Seq<char>,
}

impl View for MirrorPage {
    type V = PageView;

    open spec fn view(&self) -> PageView {
        PageView { markdown: self.markdown@, hash: self.hash@, rel_path: self.rel_path@ }
    }
}

/// The directory of a page: its path up to the last slash, or all of it.
pub open spec fn page_dir(path: Seq<char>) -> Seq<char> {
    let at = last_at(path, '/', path.len() as int);
    if at >= 0 {
        path.take(at)
    } else {
        path
    }
}

/// Where a page is stored below the output directory.
pub open spec fn page_file(path: Seq<char>) -> Seq<char> {
    url_decoded(trim_start_of(path, CharClass::Just('/')))
}

/// The page that is made of the markdown of a page.
pub open spec fn page_of_markdown(path: Seq<char>, raw: Seq<char>) -> PageView {
    PageView {
        markdown: postprocessed(raw),
        hash: page_hash_of(postprocessed(raw)),
        rel_path: page_file(path),
    }
}

/// The HTML that is converted of the content of a page.
pub open spec fn local_html(path: Seq<char>, content: Seq<char>) -> Option<Seq<char>> {
    match preprocessed(content) {
        Some(html) => with_local_links(html, page_dir(path)),
        None => None,
    }
}

/// Whether a page is made of what the content of a page is converted to.
pub open spec fn is_page_of_content(
    path: Seq<char>,
    content: Seq<char>,
    page: PageView,
) -> bool {
    exists|raw: Seq<char>|
        is_markdown_of(local_html(path, content)->0, raw) && page == #[trigger] page_of_markdown(
            path,
            raw,
        )
}

/// The selector of the content of a page.
pub const CONTENT_SELECTOR: &'static str = "div#markdown-content";

/// The content of the page in a document, if it has one and its HTML can be prepared, or
/// why there is none.
pub open spec fn content_of(path: Seq<char>, body: Seq<char>) -> Result<Seq<char>, PageError> {
    match document_query(body, CONTENT_SELECTOR@, seq![]) {
        Some(found) => if found.len() == 0 {
            Err(PageError::NoContent)
        } else if local_html(path, found[0].html) is None {
            Err(PageError::Selector)
        } else {
            Ok(found[0].html)
        },
        None => Err(PageError::Selector),
    }
}

/// The directory of a page.
pub fn dir_of_page(path: &str) -> (r: String)
    ensures
        r@ == page_dir(path@),
{
    let v: Vec<char> = to_chars(path);
    let n: usize = v.len();
    let mut j: usize = n;
    while j > 0 && v[j - 1] != '/'
        invariant
            v@ == path@,
            n == v@.len(),
            j <= n,
            last_at(path@, '/', n as int) == last_at(path@, '/', j as int),
        decreases j,
    {
        j -= 1;
    }
    if j == 0 {
        owned(path)
    } else {
        assert(path@.take(j - 1) =~= v@.subrange(0, j - 1));
        from_chars(&v, 0, j - 1)
    }
}

/// The page that is made of the markdown of a page.
pub fn page_from_markdown(md_path: &str, raw: &str) -> (r: MirrorPage)
    ensures
        r@ == page_of_markdown(md_path@, raw@),
{
    let markdown: String = postprocess_markdown(raw);
    let hash: String = page_hash(markdown.as_str());
    let path: String = trim_start(md_path, CharClass::Just('/'));
    let rel_path: String = url_decode(path.as_str());
    MirrorPage { markdown, hash, rel_path }
}

/// The page that is made of the content of a page; nothing where a selector is not
/// understood.
pub fn page_from_content(md_path: &str, content: &str) -> (r: Option<MirrorPage>)
    ensures
        r is Some == local_html(md_path@, content@) is Some,
        r matches Some(page) ==> is_page_of_content(md_path@, content@, page@),
{
    let html: String = match preprocess_html(content) {
        Some(html) => html,
        None => {
            return None;
        },
    };
    let dir: String = dir_of_page(md_path);
    match html_to_markdown(html.as_str(), dir.as_str()) {
        Some(raw) => Some(page_from_markdown(md_path, raw.as_str())),
        None => None,
    }
}

/// The page that is made of a document that the site gave, or why there is none.
pub fn download_markdown(md_path: &str, body: &str) -> (r: Result<MirrorPage, PageError>)
    ensures
        match r {
            Ok(page) => content_of(md_path@, body@) matches Ok(content) && is_page_of_content(
                md_path@,
                content,
                page@,
            ),
            Err(e) => content_of(md_path@, body@) == Err::<Seq<char>, PageError>(e),
        },
{
    match select_document(body, CONTENT_SELECTOR, &none()) {
        Some(found) => {
            assert(found_views(found@).len() == found@.len());
            if found.len() == 0 {
                return Err(PageError::NoContent);
            }
            match page_from_content(md_path, found[0].html.as_str()) {
                Some(page) => Ok(page),
                None => Err(PageError::Selector),
            }
        },
        None => Err(PageError::Selector),
    }
}

// ---------------------------------------------------------------------------
// Blank lines
// ---------------------------------------------------------------------------

/// How many line feeds a text holds.
pub open spec fn line_feeds(s: Seq<char>) -> nat
    decreases s.len(),
{
    if s.len() == 0 {
        0
    } else {
        line_feeds(s.drop_last()) + (if s.last() == '\n' {
            1nat
        } else {
            0nat
        })
    }
}

/// Whether a text holds nothing but white space.
pub open spec fn all_space(s: Seq<char>) -> bool {
    forall|i: int| 0 <= i < s.len() ==> is_space(#[trigger] s[i])
}

/// Whether no stretch of white space holds more than `n` line feeds.
pub open spec fn stretches_hold(s: Seq<char>, n: nat) -> bool {
    forall|a: int, b: int|
        0 <= a <= b <= s.len() && all_space(#[trigger] s.subrange(a, b)) ==> line_feeds(
            s.subrange(a, b),
        ) <= n
}

/// Whether the white space at the end holds no more than `n` line feeds.
spec fn end_holds(s: Seq<char>, n: nat) -> bool {
    forall|a: int|
        0 <= a <= s.len() && all_space(#[trigger] s.skip(a)) ==> line_feeds(s.skip(a)) <= n
}

proof fn lemma_line_feeds_concat(a: Seq<char>, b: Seq<char>)
    ensures
        line_feeds(a + b) == line_feeds(a) + line_feeds(b),
    decreases b.len(),
{
    if b.len() == 0 {
        assert(a + b =~= a);
    } else {
        lemma_line_feeds_concat(a, b.drop_last());
        assert((a + b).drop_last() =~= a + b.drop_last());
    }
}

proof fn lemma_no_line_feeds(s: Seq<char>)
    requires
        !s.contains('\n'),
    ensures
        line_feeds(s) == 0,
    decreases s.len(),
{
    if s.len() > 0 {
        assert(s[s.len() - 1] != '\n');
        assert forall|i: int| 0 <= i < s.drop_last().len() implies s.drop_last()[i] != '\n' by {
            assert(s.drop_last()[i] == s[i]);
        }
        lemma_no_line_feeds(s.drop_last());
    }
}

proof fn lemma_part_of_space(s: Seq<char>, a: int, b: int)
    requires
        all_space(s),
        0 <= a <= b <= s.len(),
    ensures
        all_space(s.subrange(a, b)),
{
    assert forall|i: int| 0 <= i < b - a implies is_space(#[trigger] s.subrange(a, b)[i]) by {
        assert(s.subrange(a, b)[i] == s[a + i]);
    }
}

proof fn lemma_end_line(s: Seq<char>, n: nat)
    requires
        stretches_hold(s, 3),
        end_holds(s, n),
        n <= 2,
    ensures
        stretches_hold(s + seq!['\n'], 3),
        end_holds(s + seq!['\n'], n + 1),
{
    let t = s + seq!['\n'];
    assert forall|a: int, b: int|
        0 <= a <= b <= t.len() && all_space(#[trigger] t.subrange(a, b)) implies line_feeds(
        t.subrange(a, b),
    ) <= 3 && (b == t.len() ==> line_feeds(t.subrange(a, b)) <= n + 1) by {
        let piece = t.subrange(a, b);
        if b <= s.len() {
            assert(piece =~= s.subrange(a, b));
        } else if a == t.len() {
            assert(piece =~= seq![]);
        } else {
            let rest = s.skip(a);
            assert(piece =~= rest + seq!['\n']);
            lemma_part_of_space(piece, 0, rest.len() as int);
            assert(piece.subrange(0, rest.len() as int) =~= rest);
            lemma_line_feeds_concat(rest, seq!['\n']);
            assert(seq!['\n'].drop_last() =~= seq![]);
            assert(line_feeds(seq!['\n']) == 1) by {
                reveal_with_fuel(line_feeds, 2);
            }
        }
    }
    assert forall|a: int| 0 <= a <= t.len() && all_space(#[trigger] t.skip(a)) implies line_feeds(
        t.skip(a),
    ) <= n + 1 by {
        assert(t.skip(a) =~= t.subrange(a, t.len() as int));
    }
}

proof fn lemma_text_line(s: Seq<char>, line: Seq<char>)
    requires
        stretches_hold(s, 3),
        end_holds(s, 3),
        !line.contains('\n'),
        !blank(line),
    ensures
        stretches_hold(s + (line + seq!['\n']), 3),
        end_holds(s + (line + seq!['\n']), 1),
{
    let (lo, hi) = lemma_trim_of(line, CharClass::Space);
    let q = lo;
    assert(trimmed(line)[0] == line[q]);
    assert(!is_space(line[q]));
    let t = s + (line + seq!['\n']);
    assert(t[s.len() + q] == line[q]);
    assert forall|a: int, b: int|
        0 <= a <= b <= t.len() && all_space(#[trigger] t.subrange(a, b)) implies line_feeds(
        t.subrange(a, b),
    ) <= 3 && (b == t.len() ==> line_feeds(t.subrange(a, b)) <= 1) by {
        let piece = t.subrange(a, b);
        if a <= s.len() + q < b {
            assert(piece[s.len() + q - a] == line[q]);
        }
        if b <= s.len() {
            assert(piece =~= s.subrange(a, b));
        } else if b <= s.len() + q {
            let m = b - s.len();
            lemma_no_line_feeds_in_part(line, 0, m);
            if a <= s.len() {
                let rest = s.skip(a);
                assert(piece =~= rest + line.subrange(0, m));
                lemma_part_of_space(piece, 0, rest.len() as int);
                assert(piece.subrange(0, rest.len() as int) =~= rest);
                lemma_line_feeds_concat(rest, line.subrange(0, m));
            } else {
                assert(piece =~= line.subrange(a - s.len(), m));
                lemma_no_line_feeds_in_part(line, a - s.len(), m);
            }
        } else {
            let from = a - s.len();
            if b == t.len() && from <= line.len() {
                assert(piece =~= line.subrange(from, line.len() as int) + seq!['\n']);
                lemma_no_line_feeds_in_part(line, from, line.len() as int);
                lemma_line_feeds_concat(line.subrange(from, line.len() as int), seq!['\n']);
                assert(seq!['\n'].drop_last() =~= seq![]);
                assert(line_feeds(seq!['\n']) == 1) by {
                    reveal_with_fuel(line_feeds, 2);
                }
            } else if b == t.len() {
                assert(piece =~= seq![]);
            } else {
                assert(piece =~= line.subrange(from, b - s.len()));
                lemma_no_line_feeds_in_part(line, from, b - s.len());
            }
        }
    }
    assert forall|a: int| 0 <= a <= t.len() && all_space(#[trigger] t.skip(a)) implies line_feeds(
        t.skip(a),
    ) <= 1 by {
        assert(t.skip(a) =~= t.subrange(a, t.len() as int));
    }
}

proof fn lemma_no_line_feeds_in_part(line: Seq<char>, a: int, b: int)
    requires
        !line.contains('\n'),
        0 <= a <= b <= line.len(),
    ensures
        line_feeds(line.subrange(a, b)) == 0,
{
    let part = line.subrange(a, b);
    assert forall|i: int| 0 <= i < part.len() implies part[i] != '\n' by {
        assert(part[i] == line[a + i]);
    }
    lemma_no_line_feeds(part);
}

proof fn lemma_collapsed(ls: Seq<Seq<char>>)
    requires
        forall|k: int| 0 <= k < ls.len() ==> !(#[trigger] ls[k]).contains('\n'),
    ensures
        stretches_hold(collapsed(ls), 3),
        end_holds(
            collapsed(ls),
            if blank_run(ls) <= 2 {
                blank_run(ls) + 1
            } else {
                3
            },
        ),
    decreases ls.len(),
{
    reveal_strlit("\n");
    assert("\n"@ =~= seq!['\n']);
    if ls.len() > 0 {
        let before = ls.drop_last();
        assert forall|k: int| 0 <= k < before.len() implies !(#[trigger] before[k]).contains(
            '\n',
        ) by {
            assert(before[k] == ls[k]);
        }
        lemma_collapsed(before);
        let s = collapsed(before);
        if !blank(ls.last()) {
            assert(!ls[ls.len() - 1].contains('\n'));
            lemma_text_line(s, ls.last());
        } else if blank_run(ls) <= 2 {
            lemma_end_line(s, blank_run(before) + 1);
        } else {
            assert(collapsed(ls) =~= s);
        }
    } else {
        assert forall|a: int, b: int|
            0 <= a <= b <= collapsed(ls).len() implies #[trigger] collapsed(ls).subrange(a, b)
            =~= seq![] by {}
        assert forall|a: int| 0 <= a <= collapsed(ls).len() implies #[trigger] collapsed(ls).skip(a)
            =~= seq![] by {}
    }
}

/// In stored markdown no stretch of white space holds more than three line feeds: at
/// most two blank lines follow each other.
pub proof fn law_at_most_two_blank_lines(md: Seq<char>)
    ensures
        stretches_hold(postprocessed(md), 3),
{
    crate::document::lemma_lines_hold_no_break(md, 0);
    let whole = collapsed(lines_of(md));
    lemma_collapsed(lines_of(md));
    let (lo, hi) = lemma_trim_of(whole, CharClass::Space);
    let t = postprocessed(md);
    assert forall|a: int, b: int|
        0 <= a <= b <= t.len() && all_space(#[trigger] t.subrange(a, b)) implies line_feeds(
        t.subrange(a, b),
    ) <= 3 by {
        assert(t.subrange(a, b) =~= whole.subrange(lo + a, lo + b));
    }
}

/// Stored markdown neither begins nor ends in white space.
pub proof fn law_stored_markdown_is_trimmed(md: Seq<char>)
    ensures
        postprocessed(md).len() > 0 ==> !is_space(postprocessed(md)[0]) && !is_space(
            postprocessed(md).last(),
        ),
{
    lemma_trim_of(collapsed(lines_of(md)), CharClass::Space);
}

// ---------------------------------------------------------------------------
// Laws of preparing a page
// ---------------------------------------------------------------------------

/// One character as it is written in HTML.
pub open spec fn escaped_char(c: char) -> Seq<char> {
    if c == '&' {
        "&amp;"@
    } else if c == '<' {
        "&lt;"@
    } else if c == '>' {
        "&gt;"@
    } else {
        seq![c]
    }
}

/// The text that is written in HTML so.
pub open spec fn unescaped(s: Seq<char>) -> Seq<char>
    decreases s.len(),
{
    if s.len() == 0 {
        seq![]
    } else if s.len() >= 5 && "&amp;"@.is_prefix_of(s) {
        seq!['&'] + unescaped(s.skip(5))
    } else if s.len() >= 4 && "&lt;"@.is_prefix_of(s) {
        seq!['<'] + unescaped(s.skip(4))
    } else if s.len() >= 4 && "&gt;"@.is_prefix_of(s) {
        seq!['>'] + unescaped(s.skip(4))
    } else {
        seq![s[0]] + unescaped(s.skip(1))
    }
}

/// Text is written in HTML character by character.
pub proof fn law_escaped(a: Seq<char>, b: Seq<char>, c: char)
    ensures
        escaped(a + b) == escaped(a) + escaped(b),
        escaped(seq![c]) == escaped_char(c),
        escaped(Seq::<char>::empty()) == Seq::<char>::empty(),
{
    reveal_strlit("&");
    reveal_strlit("<");
    reveal_strlit(">");
    reveal_strlit("&amp;");
    reveal_strlit("&lt;");
    reveal_strlit("&gt;");
    assert("&"@ =~= seq!['&'] && "<"@ =~= seq!['<'] && ">"@ =~= seq!['>']);
    let amp = "&amp;"@;
    let lt = "&lt;"@;
    let gt = "&gt;"@;
    let a1 = replaced(a, seq!['&'], amp);
    let b1 = replaced(b, seq!['&'], amp);
    law_replaced_in_parts(a, b, '&', amp);
    law_replaced_in_parts(a1, b1, '<', lt);
    law_replaced_in_parts(replaced(a1, seq!['<'], lt), replaced(b1, seq!['<'], lt), '>', gt);
    lemma_stays(amp, '<', lt);
    lemma_stays(amp, '>', gt);
    lemma_stays(lt, '>', gt);
    assert(escaped(seq![c]) == escaped_char(c)) by {
        law_replaced_in_parts(a, b, '&', amp);
        if c != '&' {
            assert(replaced(seq![c], seq!['&'], amp) == seq![c]);
            if c != '<' {
                assert(replaced(seq![c], seq!['<'], lt) == seq![c]);
                if c != '>' {
                    assert(replaced(seq![c], seq!['>'], gt) == seq![c]);
                }
            }
        }
    }
    let e = Seq::<char>::empty();
    lemma_stays(e, '&', amp);
    lemma_stays(e, '<', lt);
    lemma_stays(e, '>', gt);
}

proof fn lemma_stays(s: Seq<char>, c: char, with: Seq<char>)
    requires
        !s.contains(c),
    ensures
        replaced(s, seq![c], with) == s,
{
    if has(s, seq![c]) {
        let i = choose|i: int| occurs_at(s, seq![c], i);
        assert(s.subrange(i, i + 1)[0] == s[i]);
        assert(s[i] == c);
    }
    law_replaced(s, seq![c], Seq::empty(), with);
}

/// What is written in HTML reads as the text that was written.
pub proof fn law_escaped_reads_back(code: Seq<char>)
    ensures
        unescaped(escaped(code)) == code,
    decreases code.len(),
{
    let e = Seq::<char>::empty();
    law_escaped(e, e, ' ');
    if code.len() > 0 {
        let c = code[0];
        let rest = code.drop_first();
        law_escaped_reads_back(rest);
        law_escaped(seq![c], rest, c);
        assert(code =~= seq![c] + rest);
        let s = escaped_char(c) + escaped(rest);
        reveal_strlit("&amp;");
        reveal_strlit("&lt;");
        reveal_strlit("&gt;");
        let n = escaped_char(c).len() as int;
        assert(s.skip(n) =~= escaped(rest));
        assert(escaped_char(c) =~= s.subrange(0, n));
        if c != '&' && c != '<' && c != '>' {
            assert(s[0] == c);
            if "&amp;"@.is_prefix_of(s) {
                assert(s.subrange(0, 5)[0] == "&amp;"@[0]);
            }
            if "&lt;"@.is_prefix_of(s) {
                assert(s.subrange(0, 4)[0] == "&lt;"@[0]);
            }
            if "&gt;"@.is_prefix_of(s) {
                assert(s.subrange(0, 4)[0] == "&gt;"@[0]);
            }
        } else {
            assert(s[1] == escaped_char(c)[1]);
            if "&amp;"@.is_prefix_of(s) {
                assert(s.subrange(0, 5)[1] == "&amp;"@[1]);
            }
            if "&lt;"@.is_prefix_of(s) {
                assert(s.subrange(0, 4)[1] == "&lt;"@[1]);
            }
        }
        assert(unescaped(s) =~= seq![c] + unescaped(s.skip(n)));
    } else {
        assert(code =~= e);
        assert(unescaped(escaped(code)) =~= code);
    }
}

/// The tag that a block of code in a language begins with.
pub open spec fn block_start(language: Seq<char>) -> Seq<char> {
    if language.len() == 0 {
        "<pre><code>"@
    } else {
        "<pre><code class=\"language-"@ + language + "\">"@
    }
}

/// A highlighted block is written as its code, in its language and between the tags of a
/// block. The code reads back from what stands between the tags, and taken apart at its line
/// feeds it is the texts of the lines of the block, each as it is, white space and all.
pub proof fn law_code_keeps_its_lines(block: FoundInView)
    requires
        block.outer.attrs.len() > 0,
        block.inner.len() > 0,
        forall|i: int| 0 <= i < block.inner.len() ==> !(#[trigger] block.inner[i]).text.contains('\n'),
    ensures
        exists|written: Seq<char>|
            {
                let language = language_of(
                    match block.outer.attrs[0] {
                        Some(classes) => classes,
                        None => Seq::<char>::empty(),
                    },
                );
                &&& block_of(block) == block_start(language) + written + "</code></pre>"@
                &&& split(#[trigger] unescaped(written), '\n') == Seq::new(
                    block.inner.len(),
                    |i: int| block.inner[i].text,
                )
            },
{
    let lines = Seq::new(block.inner.len(), |i: int| block.inner[i].text);
    reveal_strlit("\n");
    assert("\n"@ =~= seq!['\n']);
    let code = joined(found_texts(block.inner), "\n"@);
    assert(found_texts(block.inner) =~= lines);
    assert forall|i: int| 0 <= i < lines.len() implies !(#[trigger] lines[i]).contains('\n') by {
        assert(!block.inner[i].text.contains('\n'));
    }
    law_joined_splits_back(lines, '\n');
    law_escaped_reads_back(code);
    let language = language_of(
        match block.outer.attrs[0] {
            Some(classes) => classes,
            None => Seq::<char>::empty(),
        },
    );
    assert(block_of(block) =~= block_start(language) + escaped(code) + "</code></pre>"@);
    assert(split(unescaped(escaped(code)), '\n') == lines);
}

/// The language of a block is named by the first of its classes that is not one of the
/// three for its style, without a prefix that says so; there is none where all are.
pub proof fn law_language(classes: Seq<char>, name: Seq<char>, k: int)
    ensures
        0 <= k < words_of(classes).len() && (forall|j: int|
            0 <= j < k ==> ((#[trigger] words_of(classes)[j]) == "shiki"@ || words_of(classes)[j]
                == "one-dark-pro"@ || words_of(classes)[j] == "fragment"@)) && !"language-"@.is_prefix_of(
            name,
        ) && name != "shiki"@ && name != "one-dark-pro"@ && name != "fragment"@ && (words_of(
            classes,
        )[k] == name || words_of(classes)[k] == "language-"@ + name) ==> language_of(classes) == name,
        (forall|j: int|
            0 <= j < words_of(classes).len() ==> ((#[trigger] words_of(classes)[j]) == "shiki"@
                || words_of(classes)[j] == "one-dark-pro"@ || words_of(classes)[j] == "fragment"@))
            ==> language_of(classes).len() == 0,
{
    let ws = words_of(classes);
    let prefix = "language-"@;
    reveal_strlit("language-");
    reveal_strlit("shiki");
    reveal_strlit("one-dark-pro");
    reveal_strlit("fragment");
    if 0 <= k < ws.len() && (forall|j: int| 0 <= j < k ==> is_style_class(#[trigger] ws[j]))
        && !prefix.is_prefix_of(name) && !is_style_class(name) && (ws[k] == name || ws[k] == prefix
        + name) {
        let long = prefix + name;
        assert(long[0] == 'l');
        assert("shiki"@[0] == 's' && "one-dark-pro"@[0] == 'o' && "fragment"@[0] == 'f');
        assert(!is_style_class(ws[k]));
        lemma_first_language(ws, k);
        assert(prefix =~= long.subrange(0, prefix.len() as int));
        assert(long.skip(prefix.len() as int) =~= name);
        reveal_with_fuel(stripped, 2);
        assert(stripped(long, prefix) == name);
        assert(stripped(name, prefix) == name);
    }
    if forall|j: int| 0 <= j < ws.len() ==> is_style_class(#[trigger] ws[j]) {
        lemma_no_language(ws);
        assert(!prefix.is_prefix_of(Seq::<char>::empty()));
        assert(first_language(ws) =~= Seq::<char>::empty());
    }
}

proof fn lemma_first_language(ws: Seq<Seq<char>>, k: int)
    requires
        0 <= k < ws.len(),
        !is_style_class(ws[k]),
        forall|j: int| 0 <= j < k ==> is_style_class(#[trigger] ws[j]),
    ensures
        first_language(ws) == ws[k],
    decreases k,
{
    if k > 0 {
        assert(is_style_class(ws[0]));
        assert forall|j: int| 0 <= j < k - 1 implies is_style_class(#[trigger] ws.drop_first()[j]) by {
            assert(ws.drop_first()[j] == ws[j + 1]);
        }
        lemma_first_language(ws.drop_first(), k - 1);
    }
}

proof fn lemma_no_language(ws: Seq<Seq<char>>)
    requires
        forall|j: int| 0 <= j < ws.len() ==> is_style_class(#[trigger] ws[j]),
    ensures
        first_language(ws).len() == 0,
    decreases ws.len(),
{
    if ws.len() > 0 {
        assert(is_style_class(ws[0]));
        assert forall|j: int| 0 <= j < ws.len() - 1 implies is_style_class(
            #[trigger] ws.drop_first()[j],
        ) by {
            assert(ws.drop_first()[j] == ws[j + 1]);
        }
        lemma_no_language(ws.drop_first());
    }
}

/// Blocks are treated one after the other, every one of them, and each where it first
/// stands; what stands around it stays.
pub proof fn law_every_block_is_written(
    a: Seq<char>,
    b: Seq<char>,
    html: Seq<char>,
    block: FoundInView,
    some: Seq<FoundInView>,
    more: Seq<FoundInView>,
)
    ensures
        with_plain_blocks(html, some + more) == with_plain_blocks(
            with_plain_blocks(html, some),
            more,
        ),
        find_from(a + block.outer.html + b, block.outer.html, 0) == Some(a.len() as int)
            ==> with_plain_blocks(a + block.outer.html + b, seq![block]) == a + block_of(block) + b,
        with_plain_blocks(html, seq![]) == html,
    decreases more.len(),
{
    reveal_with_fuel(with_plain_blocks, 2);
    assert(seq![block].drop_last() =~= seq![]);
    law_replaced_first(a, block.outer.html, b, block_of(block));
    if more.len() == 0 {
        assert(some + more =~= some);
    } else {
        law_every_block_is_written(a, b, html, block, some, more.drop_last());
        assert((some + more).drop_last() =~= some + more.drop_last());
        assert((some + more).last() == more.last());
    }
}

/// Elements are taken out one after the other, every one of them, and each wherever it
/// stands; what stands around it stays.
pub proof fn law_every_element_is_taken_out(
    a: Seq<char>,
    b: Seq<char>,
    html: Seq<char>,
    element: FoundView,
    some: Seq<FoundView>,
    more: Seq<FoundView>,
)
    ensures
        without_elements(html, some + more) == without_elements(
            without_elements(html, some),
            more,
        ),
        element.html.len() > 0 && find_from(a + element.html + b, element.html, 0) == Some(
            a.len() as int,
        ) ==> without_elements(a + element.html + b, seq![element]) == a + without_elements(
            b,
            seq![element],
        ),
        element.html.len() > 0 && !(has(html, element.html)) ==> without_elements(
            html,
            seq![element],
        ) == html,
    decreases more.len(),
{
    reveal_with_fuel(without_elements, 2);
    assert(seq![element].drop_last() =~= seq![]);
    if element.html.len() > 0 {
        law_replaced(a, element.html, b, Seq::empty());
        law_replaced(html, element.html, b, Seq::empty());
        assert(a + Seq::<char>::empty() + replaced(b, element.html, Seq::empty()) =~= a + replaced(
            b,
            element.html,
            Seq::empty(),
        ));
    }
    if more.len() == 0 {
        assert(some + more =~= some);
    } else {
        law_every_element_is_taken_out(a, b, html, element, some, more.drop_last());
        assert((some + more).drop_last() =~= some + more.drop_last());
        assert((some + more).last() == more.last());
    }
}

/// Links are rewritten one after the other, every one of them, and each where it first
/// stands as the value of its attribute; what stands around it stays.
pub proof fn law_every_link_is_rewritten(
    a: Seq<char>,
    b: Seq<char>,
    html: Seq<char>,
    some: Seq<FoundView>,
    more: Seq<FoundView>,
    element: FoundView,
    name: Seq<char>,
    dir: Seq<char>,
    is_asset: bool,
)
    requires
        element.attrs.len() > 0,
    ensures
        with_links(html, some + more, name, dir, is_asset) == with_links(
            with_links(html, some, name, dir, is_asset),
            more,
            name,
            dir,
            is_asset,
        ),
        element.attrs[0] matches Some(url) ==> (find_from(
            a + (name + seq!['=', '"'] + url + seq!['"']) + b,
            name + seq!['=', '"'] + url + seq!['"'],
            0,
        ) == Some(a.len() as int) ==> with_links(
            a + (name + seq!['=', '"'] + url + seq!['"']) + b,
            seq![element],
            name,
            dir,
            is_asset,
        ) == a + (name + seq!['=', '"'] + normalized_url(url, dir, is_asset) + seq!['"']) + b),
        element.attrs[0] is None ==> with_links(html, seq![element], name, dir, is_asset) == html,
        with_links(html, seq![], name, dir, is_asset) == html,
    decreases more.len(),
{
    reveal_strlit("=\"");
    reveal_strlit("\"");
    assert("=\""@ =~= seq!['=', '"'] && "\""@ =~= seq!['"']);
    reveal_with_fuel(with_links, 2);
    assert(seq![element].drop_last() =~= seq![]);
    if let Some(url) = element.attrs[0] {
        law_replaced_first(
            a,
            attribute(name, url),
            b,
            attribute(name, normalized_url(url, dir, is_asset)),
        );
    }
    if more.len() == 0 {
        assert(some + more =~= some);
    } else {
        law_every_link_is_rewritten(
            a,
            b,
            html,
            some,
            more.drop_last(),
            element,
            name,
            dir,
            is_asset,
        );
        assert((some + more).drop_last() =~= some + more.drop_last());
        assert((some + more).last() == more.last());
    }
}

/// Both the links and the images of a page are rewritten, as many as there are.
pub proof fn law_links_and_images_are_rewritten(
    html: Seq<char>,
    dir: Seq<char>,
    links: Seq<FoundView>,
    images: Seq<FoundView>,
)
    requires
        fragment_query(html, "a[href]"@, seq!["href"@]) == Some(links),
        fragment_query(html, "img[src]"@, seq!["src"@]) == Some(images),
    ensures
        with_local_links(html, dir) == Some(
            with_links(with_links(html, links, "href"@, dir, false), images, "src"@, dir, true),
        ),
        links.len() == 0 && images.len() == 0 ==> with_local_links(html, dir) == Some(html),
{
}

/// A page without anchors, highlighted blocks and fragments is converted as it is.
pub proof fn law_plain_page_stays(html: Seq<char>)
    requires
        fragment_query(html, ".docanchor"@, seq![]) == Some(Seq::<FoundView>::empty()),
        fragment_query_in(html, "pre.shiki"@, seq!["class"@], "span.line"@, seq![]) == Some(
            Seq::<FoundInView>::empty(),
        ),
        !(has(html, " data-fragment-index=\""@)),
    ensures
        preprocessed(html) == Some(html),
{
    reveal_strlit(".docanchor");
    reveal_strlit("docanchor");
    reveal_strlit(".");
    assert("."@ + "docanchor"@ =~= ".docanchor"@);
    reveal_strlit(" data-fragment-index=\"");
    law_replaced(html, " data-fragment-index=\""@, Seq::empty(), " data-rm=\""@);
}

/// What is converted of a page is the page without its anchors, then with its blocks of code
/// written plainly, then with its fragments renamed; each of these steps looks at the whole
/// page.
pub proof fn law_page_is_prepared(
    html: Seq<char>,
    anchors: Seq<FoundView>,
    blocks: Seq<FoundInView>,
)
    requires
        fragment_query(html, ".docanchor"@, seq![]) == Some(anchors),
        fragment_query_in(
            without_elements(html, anchors),
            "pre.shiki"@,
            seq!["class"@],
            "span.line"@,
            seq![],
        ) == Some(blocks),
    ensures
        preprocessed(html) == Some(
            replaced(
                with_plain_blocks(without_elements(html, anchors), blocks),
                " data-fragment-index=\""@,
                " data-rm=\""@,
            ),
        ),
{
    reveal_strlit(".docanchor");
    reveal_strlit("docanchor");
    reveal_strlit(".");
    assert("."@ + "docanchor"@ =~= ".docanchor"@);
}

// ---------------------------------------------------------------------------
// Laws of stored markdown
// ---------------------------------------------------------------------------

/// Whether a line is the third blank one in a row, or a later one.
pub open spec fn is_third_blank(ls: Seq<Seq<char>>, i: int) -> bool {
    i >= 2 && blank(ls[i]) && blank(ls[i - 1]) && blank(ls[i - 2])
}

/// Whether a text is made of lines: every one of them but the third blank ones in a row, in
/// order and as it is, a blank one empty, and each with its line feed.
pub open spec fn is_text_of(ls: Seq<Seq<char>>, text: Seq<char>) -> bool {
    exists|at: Seq<int>|
        {
            &&& #[trigger] rises(at)
            &&& forall|k: int|
                0 <= k < at.len() ==> 0 <= #[trigger] at[k] < ls.len() && !is_third_blank(ls, at[k])
            &&& forall|i: int|
                0 <= i < ls.len() && !(#[trigger] is_third_blank(ls, i)) ==> at.contains(i)
            &&& split(text, '\n').len() == at.len() + 1
            &&& split(text, '\n').last().len() == 0
            &&& forall|k: int|
                0 <= k < at.len() ==> split(text, '\n')[k] == (if blank(ls[#[trigger] at[k]]) {
                    Seq::<char>::empty()
                } else {
                    ls[at[k]]
                })
        }
}

proof fn lemma_blank_run(ls: Seq<Seq<char>>)
    requires
        ls.len() > 0,
        blank(ls.last()),
    ensures
        blank_run(ls) >= 1,
        blank_run(ls) > 2 <==> is_third_blank(ls, ls.len() - 1),
{
    reveal_with_fuel(blank_run, 4);
    let a = ls.drop_last();
    if a.len() > 0 {
        assert(a.last() == ls[ls.len() - 2]);
        let b = a.drop_last();
        if b.len() > 0 {
            assert(b.last() == ls[ls.len() - 3]);
        }
    }
}

proof fn lemma_collapsed_lines(ls: Seq<Seq<char>>)
    requires
        forall|k: int| 0 <= k < ls.len() ==> !(#[trigger] ls[k]).contains('\n'),
    ensures
        is_text_of(ls, collapsed(ls)),
    decreases ls.len(),
{
    reveal_strlit("\n");
    assert("\n"@ =~= seq!['\n']);
    let e = Seq::<char>::empty();
    let text = collapsed(ls);
    lemma_split_single(e, '\n');
    if ls.len() == 0 {
        assert(text =~= e);
        assert(rises(Seq::<int>::empty()));
    } else {
        let init = ls.drop_last();
        assert forall|k: int| 0 <= k < init.len() implies !(#[trigger] init[k]).contains('\n') by {
            assert(init[k] == ls[k]);
        }
        lemma_collapsed_lines(init);
        let at = choose|at: Seq<int>|
            {
                &&& #[trigger] rises(at)
                &&& forall|k: int|
                    0 <= k < at.len() ==> 0 <= #[trigger] at[k] < init.len() && !is_third_blank(
                        init,
                        at[k],
                    )
                &&& forall|i: int|
                    0 <= i < init.len() && !(#[trigger] is_third_blank(init, i)) ==> at.contains(i)
                &&& split(collapsed(init), '\n').len() == at.len() + 1
                &&& split(collapsed(init), '\n').last().len() == 0
                &&& forall|k: int|
                    0 <= k < at.len() ==> split(collapsed(init), '\n')[k] == (if blank(
                        init[#[trigger] at[k]],
                    ) {
                        e
                    } else {
                        init[at[k]]
                    })
            };
        let n = init.len() as int;
        let before = collapsed(init);
        let pieces = split(before, '\n');
        assert forall|i: int| 0 <= i < n implies is_third_blank(ls, i) == is_third_blank(init, i) by {
            assert(init[i] == ls[i]);
            if i >= 2 {
                assert(init[i - 1] == ls[i - 1]);
                assert(init[i - 2] == ls[i - 2]);
            }
        }
        if blank(ls.last()) {
            lemma_blank_run(ls);
        }
        if is_third_blank(ls, n) {
            assert(text =~= before);
            assert forall|i: int|
                0 <= i < ls.len() && !(#[trigger] is_third_blank(ls, i)) implies at.contains(i) by {
                assert(!is_third_blank(init, i));
            }
            assert forall|k: int| 0 <= k < at.len() implies 0 <= #[trigger] at[k] < ls.len()
                && !is_third_blank(ls, at[k]) by {}
            assert forall|k: int| 0 <= k < at.len() implies split(text, '\n')[k] == (if blank(
                ls[#[trigger] at[k]],
            ) {
                e
            } else {
                ls[at[k]]
            }) by {
                assert(init[at[k]] == ls[at[k]]);
            }
            assert(rises(at));
        } else {
            let line = if blank(ls.last()) {
                e
            } else {
                ls.last()
            };
            assert(!ls[n].contains('\n'));
            let more = at.push(n);
            // The last piece before is empty, so what is written now begins a line.
            let head = joined(pieces.drop_last(), seq!['\n']);
            law_split_joins_back(before, '\n');
            assert(pieces.last() =~= e);
            let whole = pieces.drop_last() + seq![line, e];
            assert(joined(whole, seq!['\n']) == before + line + seq!['\n']) by {
                let front = pieces.drop_last();
                law_joined(seq![line], seq![e], line, seq!['\n']);
                law_joined(seq![e], seq![e], e, seq!['\n']);
                assert(seq![line] + seq![e] =~= seq![line, e]);
                if front.len() > 0 {
                    law_joined(front, seq![line, e], e, seq!['\n']);
                    law_joined(front, seq![e], e, seq!['\n']);
                    assert(front + seq![e] =~= pieces);
                    assert(joined(whole, seq!['\n']) =~= before + line + seq!['\n']);
                } else {
                    assert(pieces =~= seq![e]);
                    assert(before =~= e);
                    assert(whole =~= seq![line, e]);
                    assert(joined(whole, seq!['\n']) =~= before + line + seq!['\n']);
                }
            }
            assert(text =~= before + line + seq!['\n']);
            assert forall|k: int| 0 <= k < whole.len() implies !(#[trigger] whole[k]).contains(
                '\n',
            ) by {
                if k < pieces.len() - 1 {
                    assert(whole[k] == pieces[k]);
                }
            }
            law_joined_splits_back(whole, '\n');
            assert(split(text, '\n') == whole);
            assert forall|i: int|
                0 <= i < ls.len() && !(#[trigger] is_third_blank(ls, i)) implies more.contains(i) by {
                if i < n {
                    assert(!is_third_blank(init, i));
                    let k = choose|k: int| 0 <= k < at.len() && at[k] == i;
                    assert(more[k] == i);
                } else {
                    assert(more[at.len() as int] == i);
                }
            }
            assert forall|k: int| 0 <= k < more.len() implies 0 <= #[trigger] more[k] < ls.len()
                && !is_third_blank(ls, more[k]) by {
                if k < at.len() {
                    assert(more[k] == at[k]);
                }
            }
            assert forall|k: int| 0 <= k < more.len() implies split(text, '\n')[k] == (if blank(
                ls[#[trigger] more[k]],
            ) {
                e
            } else {
                ls[more[k]]
            }) by {
                if k < at.len() {
                    assert(more[k] == at[k]);
                    assert(init[at[k]] == ls[at[k]]);
                    assert(whole[k] == pieces[k]);
                }
            }
            assert(rises(more));
        }
    }
}

/// Stored markdown is the text of the lines of the markdown, but for the third blank line in
/// a row and those after it, without white space around the whole. So every other line is
/// stored as it is.
pub proof fn law_lines_are_stored(md: Seq<char>)
    ensures
        exists|text: Seq<char>|
            is_text_of(lines_of(md), text) && postprocessed(md) == #[trigger] trimmed(text),
{
    crate::document::lemma_lines_hold_no_break(md, 0);
    lemma_collapsed_lines(lines_of(md));
    assert(postprocessed(md) == trimmed(collapsed(lines_of(md))));
}

/// The directory of a page is its path up to its last slash.
pub proof fn law_page_dir(dir: Seq<char>, name: Seq<char>)
    requires
        !name.contains('/'),
    ensures
        page_dir(dir + seq!['/'] + name) == dir,
        page_dir(name) == name,
{
    let path = dir + seq!['/'] + name;
    let n = dir.len() as int;
    law_last_place(path, '/');
    law_last_place(name, '/');
    assert(path[n] == '/');
    assert(path.contains(path[n]));
    assert forall|i: int| n < i < path.len() implies path[i] != '/' by {
        assert(path[i] == name[i - n - 1]);
        assert(name.contains(name[i - n - 1]));
    }
    assert(page_dir(path) =~= dir);
}

/// A page is stored under its path, without slashes before it and with escapes resolved.
/// The hash that is noted of it is that of the markdown that is stored.
pub proof fn law_page_is_stored(path: Seq<char>, raw: Seq<char>)
    requires
        path.len() > 0 ==> path[0] != '/',
    ensures
        page_of_markdown(seq!['/'] + path, raw).rel_path == url_decoded(path),
        page_of_markdown(path, raw).rel_path == url_decoded(path),
        page_of_markdown(path, raw).markdown == postprocessed(raw),
        page_of_markdown(path, raw).hash == page_hash_of(page_of_markdown(path, raw).markdown),
{
    let k = CharClass::Just('/');
    let s = seq!['/'] + path;
    law_trim_start(s, k);
    law_trim_start(path, k);
    let n = choose|n: int|
        {
            &&& 0 <= n <= s.len()
            &&& trim_start_of(s, k) == #[trigger] s.skip(n)
            &&& forall|i: int| 0 <= i < n ==> in_class(k, #[trigger] s[i])
            &&& n < s.len() ==> !in_class(k, s[n])
        };
    assert(s[0] == '/');
    if n > 1 {
        assert(in_class(k, s[1]));
        assert(s[1] == path[0]);
    }
    assert(s.skip(1) =~= path);
    let m = choose|m: int|
        {
            &&& 0 <= m <= path.len()
            &&& trim_start_of(path, k) == #[trigger] path.skip(m)
            &&& forall|i: int| 0 <= i < m ==> in_class(k, #[trigger] path[i])
            &&& m < path.len() ==> !in_class(k, path[m])
        };
    if m > 0 {
        assert(in_class(k, path[0]));
    }
    assert(path.skip(0) =~= path);
}

/// The content of a page is the first element that has the name of the content; without one
/// there is none.
pub proof fn law_content(path: Seq<char>, body: Seq<char>, found: Seq<FoundView>)
    requires
        document_query(body, "div#markdown-content"@, seq![]) == Some(found),
    ensures
        found.len() == 0 ==> content_of(path, body) == Err::<Seq<char>, PageError>(
            PageError::NoContent,
        ),
        found.len() > 0 && local_html(path, found[0].html) is Some ==> content_of(path, body) == Ok::<
            Seq<char>,
            PageError,
        >(found[0].html),
        found.len() > 0 && preprocessed(found[0].html) is Some ==> local_html(path, found[0].html)
            == with_local_links(preprocessed(found[0].html)->0, page_dir(path)),
{
}

/// The page that is made of a document holds, as it is stored, the markdown that its content
/// is converted to once it was prepared and its links lead into the mirror.
pub proof fn law_page_of_content(path: Seq<char>, content: Seq<char>, page: PageView)
    requires
        is_page_of_content(path, content, page),
        local_html(path, content) is Some,
    ensures
        exists|widths: Seq<int>|
            page.markdown == postprocessed(
                #[trigger] converted(local_html(path, content)->0, widths),
            ),
        !has_ordered_list(local_html(path, content)->0) ==> page.markdown == postprocessed(
            converted(local_html(path, content)->0, seq![]),
        ),
        page.hash == page_hash_of(page.markdown),
        page.rel_path == page_file(path),
{
    let html = local_html(path, content)->0;
    let raw = choose|raw: Seq<char>|
        is_markdown_of(html, raw) && page == #[trigger] page_of_markdown(path, raw);
    let widths = choose|widths: Seq<int>| raw == #[trigger] converted(html, widths);
    assert(page.markdown == postprocessed(converted(html, widths)));
}

} // verus!
