//! Elements of HTML, found by selectors.

use crate::paths::opt_text;
use crate::text::texts;
use vstd::prelude::*;

verus! {

/// An element that a selector found.
#[derive(Debug, Clone)]
pub struct Found {
    /// The values of the attributes that were asked for, in the order asked.
    pub attrs: Vec<Option<String>>,
    /// The element with its tags, written out again.
    pub html: String,
    /// The text in the element.
    pub text: String,
}

/// An element that a selector found, with those that another one found in it.
#[derive(Debug, Clone)]
pub struct FoundIn {
    pub outer: Found,
    pub inner: Vec<Found>,
}

/// A found element by its texts.
#[verifier::ext_equal]
pub struct FoundView {
    pub attrs: Seq<Option<Seq<char>>>,
    pub html: Seq<char>,
    pub text: Seq<char>,
}

/// A found element by its texts, with those that were found in it.
#[verifier::ext_equal]
pub struct FoundInView {
    pub outer: FoundView,
    pub inner: Seq<FoundView>,
}

impl View for Found {
    type V = FoundView;

    open spec fn view(&self) -> FoundView {
        FoundView {
            attrs: Seq::new(self.attrs@.len(), |i: int| opt_text(self.attrs@[i])),
            html: self.html@,
            text: self.text@,
        }
    }
}

impl View for FoundIn {
    type V = FoundInView;

    open spec fn view(&self) -> FoundInView {
        FoundInView { outer: self.outer@, inner: found_views(self.inner@) }
    }
}

/// Found elements by their texts.
pub open spec fn found_views(v: Seq<Found>) -> Seq<FoundView> {
    Seq::new(v.len(), |i: int| v[i]@)
}

/// Found elements by their texts, with those that were found in them.
pub open spec fn found_in_views(v: Seq<FoundIn>) -> Seq<FoundInView> {
    Seq::new(v.len(), |i: int| v[i]@)
}

/// What was found, if the selectors were understood.
pub open spec fn opt_found(r: Option<Vec<Found>>) -> Option<Seq<FoundView>> {
    match r {
        Some(v) => Some(found_views(v@)),
        None => None,
    }
}

/// What was found, if the selectors were understood.
pub open spec fn opt_found_in(r: Option<Vec<FoundIn>>) -> Option<Seq<FoundInView>> {
    match r {
        Some(v) => Some(found_in_views(v@)),
        None => None,
    }
}

/// Whether each element carries as many attribute values as were asked for.
pub open spec fn have_attrs(v: Seq<Found>, n: nat) -> bool {
    forall|i: int| 0 <= i < v.len() ==> (#[trigger] v[i]).attrs@.len() == n
}

/// Whether each element, and each that was found in it, carries as many attribute
/// values as were asked for.
pub open spec fn have_attrs_in(v: Seq<FoundIn>, n: nat, m: nat) -> bool {
    forall|i: int|
        0 <= i < v.len() ==> (#[trigger] v[i]).outer.attrs@.len() == n && have_attrs(
            v[i].inner@,
            m,
        )
}

/// The elements that a selector finds in a fragment of HTML, with the named
/// attributes; none where the selector is not understood.
pub uninterp spec fn fragment_query(
    html: Seq<char>,
    selector: Seq<char>,
    attrs: Seq<Seq<char>>,
) -> Option<Seq<FoundView>>;

/// The elements that a selector finds in an HTML document, with the named attributes;
/// none where the selector is not understood.
pub uninterp spec fn document_query(
    html: Seq<char>,
    selector: Seq<char>,
    attrs: Seq<Seq<char>>,
) -> Option<Seq<FoundView>>;

/// The elements that a selector finds in a fragment of HTML, each with those that a
/// second one finds in it; none where a selector is not understood.
pub uninterp spec fn fragment_query_in(
    html: Seq<char>,
    outer: Seq<char>,
    outer_attrs: Seq<Seq<char>>,
    inner: Seq<char>,
    inner_attrs: Seq<Seq<char>>,
) -> Option<Seq<FoundInView>>;

/// The elements that a selector finds in an HTML document, each with those that a
/// second one finds in it; none where a selector is not understood.
pub uninterp spec fn document_query_in(
    html: Seq<char>,
    outer: Seq<char>,
    outer_attrs: Seq<Seq<char>>,
    inner: Seq<char>,
    inner_attrs: Seq<Seq<char>>,
) -> Option<Seq<FoundInView>>;

/// `scraper::Html::parse_fragment` and `select`: the elements that match, in the order
/// in which it gives them, each with `attr` of every name, `html` and `text`. All of that
/// depends on the fragment, the selector and the names alone; `None` stands for a
/// selector that `scraper::Selector::parse` refuses.
#[verifier::external_body]
pub(crate) fn select_fragment(html: &str, selector: &str, attrs: &Vec<String>) -> (r: Option<
    Vec<Found>,
>)
    ensures
        opt_found(r) == fragment_query(html@, selector@, texts(attrs@)),
        r matches Some(v) ==> have_attrs(v@, attrs@.len()),
{
    let selector = scraper::Selector::parse(selector).ok()?;
    let found = scraper::Html::parse_fragment(html).select(&selector).map(|e| Found {
        attrs: attrs.iter().map(|name| e.attr(name).map(String::from)).collect(),
        html: e.html(),
        text: e.text().collect(),
    }).collect();
    Some(found)
}

/// `scraper::Html::parse_document` and `select`: the elements that match, in the order
/// in which it gives them, each with `attr` of every name, `html` and `text`. All of that
/// depends on the document, the selector and the names alone; `None` stands for a
/// selector that `scraper::Selector::parse` refuses.
#[verifier::external_body]
pub(crate) fn select_document(html: &str, selector: &str, attrs: &Vec<String>) -> (r: Option<
    Vec<Found>,
>)
    ensures
        opt_found(r) == document_query(html@, selector@, texts(attrs@)),
        r matches Some(v) ==> have_attrs(v@, attrs@.len()),
{
    let selector = scraper::Selector::parse(selector).ok()?;
    let found = scraper::Html::parse_document(html).select(&selector).map(|e| Found {
        attrs: attrs.iter().map(|name| e.attr(name).map(String::from)).collect(),
        html: e.html(),
        text: e.text().collect(),
    }).collect();
    Some(found)
}

/// `scraper::Html::parse_fragment` and `select`, and `scraper::ElementRef::select` in
/// each element: what matches, in the order in which they give it. All depends on the
/// arguments alone; `None` stands for a selector that `scraper::Selector::parse`
/// refuses.
#[verifier::external_body]
pub(crate) fn select_in_fragment(
    html: &str,
    outer: &str,
    outer_attrs: &Vec<String>,
    inner: &str,
    inner_attrs: &Vec<String>,
) -> (r: Option<Vec<FoundIn>>)
    ensures
        opt_found_in(r) == fragment_query_in(
            html@,
            outer@,
            texts(outer_attrs@),
            inner@,
            texts(inner_attrs@),
        ),
        r matches Some(v) ==> have_attrs_in(v@, outer_attrs@.len(), inner_attrs@.len()),
{
    let outer = scraper::Selector::parse(outer).ok()?;
    let inner = scraper::Selector::parse(inner).ok()?;
    let found = |e: scraper::ElementRef<'_>, attrs: &Vec<String>| Found {
        attrs: attrs.iter().map(|name| e.attr(name).map(String::from)).collect(),
        html: e.html(),
        text: e.text().collect(),
    };
    Some(scraper::Html::parse_fragment(html).select(&outer).map(|e| FoundIn {
        outer: found(e, outer_attrs),
        inner: e.select(&inner).map(|x| found(x, inner_attrs)).collect(),
    }).collect())
}

/// `scraper::Html::parse_document` and `select`, and `scraper::ElementRef::select` in
/// each element: what matches, in the order in which they give it. All depends on the
/// arguments alone; `None` stands for a selector that `scraper::Selector::parse`
/// refuses.
#[verifier::external_body]
pub(crate) fn select_in_document(
    html: &str,
    outer: &str,
    outer_attrs: &Vec<String>,
    inner: &str,
    inner_attrs: &Vec<String>,
) -> (r: Option<Vec<FoundIn>>)
    ensures
        opt_found_in(r) == document_query_in(
            html@,
            outer@,
            texts(outer_attrs@),
            inner@,
            texts(inner_attrs@),
        ),
        r matches Some(v) ==> have_attrs_in(v@, outer_attrs@.len(), inner_attrs@.len()),
{
    let outer = scraper::Selector::parse(outer).ok()?;
    let inner = scraper::Selector::parse(inner).ok()?;
    let found = |e: scraper::ElementRef<'_>, attrs: &Vec<String>| Found {
        attrs: attrs.iter().map(|name| e.attr(name).map(String::from)).collect(),
        html: e.html(),
        text: e.text().collect(),
    };
    Some(scraper::Html::parse_document(html).select(&outer).map(|e| FoundIn {
        outer: found(e, outer_attrs),
        inner: e.select(&inner).map(|x| found(x, inner_attrs)).collect(),
    }).collect())
}

} // verus!
