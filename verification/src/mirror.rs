//! Mirroring the site: signing in, discovering pages, and keeping account of what was
//! downloaded.

use crate::dom::{
    document_query, document_query_in, found_in_views, found_views, have_attrs, have_attrs_in,
    select_document, select_in_document, Found, FoundIn, FoundInView, FoundView,
};
use crate::fs_source::{first, law_first};
use crate::links::{last_part, last_part_of, url_decode, url_decoded};
use crate::number::{count_text, decimal};
use crate::order::{is_sort_of, sort_by_text};
use crate::page::{none, one, CONTENT_SELECTOR};
use crate::paths::{is_joined_path, join_path, opt_text};
use crate::pattern::{
    contains, ends_with, has, occurs_at, replace, replaced, starts_with, strip, stripped,
};
use crate::pieces::{are_places, lemma_places_push, rises};
use crate::text::{owned, same, texts};
use crate::text_set::{added, law_added, lemma_minus, minus, TextMap, TextSet};
use vstd::prelude::*;
use vstd::string::*;

verus! {

/// The address of the site.
pub const BASE_URL: &'static str = "https://htl.dev";

/// How long the scraper waits between two requests, in milliseconds.
pub const RATE_LIMIT_MS: u64 = 300;

/// How many rounds of following links there are at most.
pub const MAX_ROUNDS: usize = 10;

/// How many pages are looked at in a round.
pub const ROUND_SIZE: usize = 50;

/// What the scraper has to tell.
#[derive(Debug, Clone, PartialEq, Eq)]
pub enum ScraperEvent {
    Log(String),
    /// How many files of the active phase are done, of how many.
    Progress { current: usize, total: usize },
}

/// What the scraper has to tell, by its texts.
pub enum EventView {
    Log(Seq<char>),
    Progress { current: int, total: int },
}

impl View for ScraperEvent {
    type V = EventView;

    open spec fn view(&self) -> EventView {
        match self {
            ScraperEvent::Log(s) => EventView::Log(s@),
            ScraperEvent::Progress { current, total } => EventView::Progress {
                current: *current as int,
                total: *total as int,
            },
        }
    }
}

/// What the scraper has to tell, by its texts.
pub open spec fn event_views(v: Seq<ScraperEvent>) -> Seq<EventView> {
    Seq::new(v.len(), |i: int| v[i]@)
}

/// What is known of the site, from one run to the next.
#[derive(Debug, Clone)]
pub struct ScraperState {
    pub discovered_files: TextSet,
    pub downloaded_files: TextSet,
    pub failed_files: TextSet,
    pub discovered_assets: TextSet,
    pub downloaded_assets: TextSet,
    pub file_hashes: TextMap,
}

impl ScraperState {
    /// Whether nothing is noted twice.
    pub open spec fn wf(&self) -> bool {
        &&& self.discovered_files.wf()
        &&& self.downloaded_files.wf()
        &&& self.failed_files.wf()
        &&& self.discovered_assets.wf()
        &&& self.downloaded_assets.wf()
    }

    /// Nothing is known.
    pub fn new() -> (r: Self)
        ensures
            r.wf(),
            r.discovered_files@.len() == 0,
            r.downloaded_files@.len() == 0,
            r.failed_files@.len() == 0,
            r.discovered_assets@.len() == 0,
            r.downloaded_assets@.len() == 0,
            r.file_hashes@ == Map::<Seq<char>, Seq<char>>::empty(),
    {
        ScraperState {
            discovered_files: TextSet::new(),
            downloaded_files: TextSet::new(),
            failed_files: TextSet::new(),
            discovered_assets: TextSet::new(),
            downloaded_assets: TextSet::new(),
            file_hashes: TextMap::new(),
        }
    }
}

/// The mirror of the site while it is made.
#[derive(Debug, Clone)]
pub struct HtlScraper {
    pub output_dir: String,
    /// Whether pages that were downloaded before are looked at again.
    pub sync_mode: bool,
    pub state: ScraperState,
    /// What was not told yet.
    pub events: Vec<ScraperEvent>,
}

/// Whether `new` is `old` with some more to tell.
pub open spec fn told(old: HtlScraper, new: HtlScraper, more: Seq<EventView>) -> bool {
    &&& new.output_dir == old.output_dir
    &&& new.sync_mode == old.sync_mode
    &&& event_views(new.events@) == event_views(old.events@) + more
}

/// Whether `new` is `old` with some more lines to tell, and nothing else changed.
pub open spec fn only_logged(old: HtlScraper, new: HtlScraper, more: Seq<EventView>) -> bool {
    told(old, new, more) && new.state == old.state
}

/// The address of a path of the site.
pub open spec fn site_url(path: Seq<char>) -> Seq<char> {
    BASE_URL@ + path
}

/// The address under which the site gives a page alone.
pub open spec fn document_url(path: Seq<char>) -> Seq<char> {
    BASE_URL@ + path + "?document=true"@
}

/// The address of a path of the site.
pub fn page_address(path: &str) -> (r: String)
    ensures
        r@ == site_url(path@),
{
    owned(BASE_URL).concat(path)
}

/// The address under which the site gives a page alone.
pub fn document_address(path: &str) -> (r: String)
    ensures
        r@ == document_url(path@),
{
    owned(BASE_URL).concat(path).concat("?document=true")
}

/// How long to wait before the next request, in nanoseconds, when so much time has
/// passed since the last.
pub fn rate_limit(elapsed: u128) -> (r: u128)
    ensures
        r == (if elapsed < RATE_LIMIT_MS * 1_000_000 {
            RATE_LIMIT_MS * 1_000_000 - elapsed
        } else {
            0
        }),
        r == wait_after(elapsed as int),
{
    let limit: u128 = RATE_LIMIT_MS as u128 * 1_000_000;
    if elapsed < limit {
        limit - elapsed
    } else {
        0
    }
}

impl HtlScraper {
    /// A mirror below a directory, of which nothing is known yet.
    pub fn new(output_dir: String, sync_mode: bool) -> (r: Self)
        ensures
            r.output_dir == output_dir,
            r.sync_mode == sync_mode,
            r.state.wf(),
            r.state.discovered_files@.len() == 0,
            r.state.downloaded_files@.len() == 0,
            r.state.failed_files@.len() == 0,
            r.state.discovered_assets@.len() == 0,
            r.state.downloaded_assets@.len() == 0,
            r.state.file_hashes@ == Map::<Seq<char>, Seq<char>>::empty(),
            r.events@.len() == 0,
    {
        HtlScraper { output_dir, sync_mode, state: ScraperState::new(), events: Vec::new() }
    }

    /// The directory of the pages.
    pub fn md_dir(&self) -> (r: String)
        ensures
            is_joined_path(self.output_dir@, "md"@, r@),
    {
        join_path(self.output_dir.as_str(), "md")
    }

    /// The directory of the assets.
    pub fn assets_dir(&self) -> (r: String)
        ensures
            is_joined_path(self.output_dir@, "assets"@, r@),
    {
        join_path(self.output_dir.as_str(), "assets")
    }

    /// The file in which the state is kept.
    pub fn state_file(&self) -> (r: String)
        ensures
            is_joined_path(self.output_dir@, "scraper_state.json"@, r@),
    {
        join_path(self.output_dir.as_str(), "scraper_state.json")
    }

    /// What was not told yet, which is told with that.
    pub fn take_events(&mut self) -> (r: Vec<ScraperEvent>)
        ensures
            r == old(self).events,
            final(self).events@.len() == 0,
            final(self).output_dir == old(self).output_dir,
            final(self).sync_mode == old(self).sync_mode,
            final(self).state == old(self).state,
    {
        let mut out: Vec<ScraperEvent> = Vec::new();
        std::mem::swap(&mut out, &mut self.events);
        out
    }

    /// Tells a line.
    pub fn log(&mut self, msg: String)
        ensures
            only_logged(*old(self), *final(self), seq![EventView::Log(msg@)]),
    {
        let ghost before = self.events@;
        self.events.push(ScraperEvent::Log(msg));
        assert(event_views(self.events@) =~= event_views(before) + seq![EventView::Log(msg@)]);
    }

    /// Tells how far the active phase is.
    pub fn send_progress(&mut self, current: usize, total: usize)
        ensures
            only_logged(
                *old(self),
                *final(self),
                seq![EventView::Progress { current: current as int, total: total as int }],
            ),
    {
        let ghost before = self.events@;
        self.events.push(ScraperEvent::Progress { current, total });
        assert(event_views(self.events@) =~= event_views(before) + seq![
            EventView::Progress { current: current as int, total: total as int },
        ]);
    }
}

// ---------------------------------------------------------------------------
// Signing in
// ---------------------------------------------------------------------------

/// Whether a page asks the reader to sign in.
pub open spec fn asks_to_sign_in(body: Seq<char>) -> bool {
    has(body, "Sign in to your account"@)
}

/// Why signing in is not possible.
#[derive(Debug, Clone, Copy, PartialEq, Eq, Structural)]
pub enum LoginError {
    /// A selector was not understood.
    Selector,
    /// The page has no form to sign in with.
    NoForm,
    /// The form does not say where it goes.
    NoAction,
}

/// The message of an error.
pub open spec fn login_message(error: LoginError) -> Seq<char> {
    match error {
        LoginError::Selector => "invalid selector"@,
        LoginError::NoForm => "login form not found"@,
        LoginError::NoAction => "form has no action"@,
    }
}

impl LoginError {
    /// The message of the error.
    pub fn message(self) -> (r: &'static str)
        ensures
            r@ == login_message(self),
    {
        match self {
            LoginError::Selector => "invalid selector",
            LoginError::NoForm => "login form not found",
            LoginError::NoAction => "form has no action",
        }
    }
}

/// A form, filled in.
#[derive(Debug, Clone)]
pub struct LoginForm {
    pub action: String,
    pub fields: Vec<(String, String)>,
}

/// A form, filled in, by its texts.
#[verifier::ext_equal]
pub struct FormView {
    pub action: Seq<char>,
    pub fields: Seq<(Seq<char>, Seq<char>)>,
}

/// The fields by their texts.
pub open spec fn field_views(v: Seq<(String, String)>) -> Seq<(Seq<char>, Seq<char>)> {
    Seq::new(v.len(), |i: int| (v[i].0@, v[i].1@))
}

impl View for LoginForm {
    type V = FormView;

    open spec fn view(&self) -> FormView {
        FormView { action: self.action@, fields: field_views(self.fields@) }
    }
}

/// A text, or another one where there is none.
pub open spec fn or_else(s: Option<Seq<char>>, other: Seq<char>) -> Seq<char> {
    match s {
        Some(t) => t,
        None => other,
    }
}

/// What an input of a form, of which the name, the type and the value were asked for,
/// is sent with: the credentials where it asks for them, else its value. An input
/// without a name is not sent.
pub open spec fn filled(input: FoundView, username: Seq<char>, password: Seq<char>) -> Option<
    (Seq<char>, Seq<char>),
> {
    let kind = or_else(input.attrs[1], "text"@);
    let value = or_else(input.attrs[2], ""@);
    match input.attrs[0] {
        Some(name) => if kind == "text"@ && name == "username"@ {
            Some((name, username))
        } else if kind == "password"@ && name == "password"@ {
            Some((name, password))
        } else {
            Some((name, value))
        },
        None => None,
    }
}

/// What the first inputs of a form are sent with.
pub open spec fn filled_fields(
    inputs: Seq<FoundView>,
    username: Seq<char>,
    password: Seq<char>,
) -> Seq<(Seq<char>, Seq<char>)>
    decreases inputs.len(),
{
    if inputs.len() == 0 {
        seq![]
    } else {
        let before = filled_fields(inputs.drop_last(), username, password);
        match filled(inputs.last(), username, password) {
            Some(field) => before.push(field),
            None => before,
        }
    }
}

/// The first of the forms, filled in, or why there is none.
pub open spec fn filled_form(
    forms: Seq<FoundInView>,
    username: Seq<char>,
    password: Seq<char>,
) -> Result<FormView, LoginError> {
    if forms.len() == 0 {
        Err(LoginError::NoForm)
    } else {
        match forms[0].outer.attrs[0] {
            Some(action) => Ok(
                FormView {
                    action: replaced(action, "&amp;"@, "&"@),
                    fields: filled_fields(forms[0].inner, username, password),
                },
            ),
            None => Err(LoginError::NoAction),
        }
    }
}

/// What an input of a form is sent with.
fn fill_input(input: &Found, username: &str, password: &str) -> (r: Option<(String, String)>)
    requires
        input.attrs@.len() >= 3,
    ensures
        match r {
            Some(field) => filled(input@, username@, password@) == Some((field.0@, field.1@)),
            None => filled(input@, username@, password@) is None,
        },
{
    let name: String = match &input.attrs[0] {
        Some(name) => name.clone(),
        None => {
            return None;
        },
    };
    let kind: String = match &input.attrs[1] {
        Some(kind) => kind.clone(),
        None => owned("text"),
    };
    let value: String = match &input.attrs[2] {
        Some(value) => value.clone(),
        None => owned(""),
    };
    assert(kind@ == or_else(input@.attrs[1], "text"@));
    assert(value@ == or_else(input@.attrs[2], ""@));
    if same(kind.as_str(), "text") && same(name.as_str(), "username") {
        Some((name, owned(username)))
    } else if same(kind.as_str(), "password") && same(name.as_str(), "password") {
        Some((name, owned(password)))
    } else {
        Some((name, value))
    }
}

/// The first of the forms that were found, filled in, or why there is none.
pub fn fill_form(forms: &Vec<FoundIn>, username: &str, password: &str) -> (r: Result<
    LoginForm,
    LoginError,
>)
    requires
        have_attrs_in(forms@, 1, 3),
    ensures
        match r {
            Ok(form) => filled_form(found_in_views(forms@), username@, password@) == Ok::<
                FormView,
                LoginError,
            >(form@),
            Err(e) => filled_form(found_in_views(forms@), username@, password@) == Err::<
                FormView,
                LoginError,
            >(e),
        },
{
    assert(found_in_views(forms@).len() == forms@.len());
    if forms.len() == 0 {
        return Err(LoginError::NoForm);
    }
    let form: &FoundIn = &forms[0];
    assert(have_attrs(form.inner@, 3));
    assert(form.outer.attrs@.len() == 1);
    let action: String = match &form.outer.attrs[0] {
        Some(action) => replace(action.as_str(), "&amp;", "&"),
        None => {
            return Err(LoginError::NoAction);
        },
    };
    let ghost inputs = found_views(form.inner@);
    let mut fields: Vec<(String, String)> = Vec::new();
    let mut i: usize = 0;
    assert(inputs.take(0) =~= seq![]);
    assert(field_views(fields@) =~= seq![]);
    while i < form.inner.len()
        invariant
            have_attrs(form.inner@, 3),
            inputs == found_views(form.inner@),
            i <= form.inner@.len(),
            field_views(fields@) == filled_fields(inputs.take(i as int), username@, password@),
        decreases form.inner@.len() - i,
    {
        proof {
            assert(inputs.take(i + 1).drop_last() =~= inputs.take(i as int));
            assert(inputs.take(i + 1).last() == form.inner@[i as int]@);
        }
        if let Some(field) = fill_input(&form.inner[i], username, password) {
            let ghost before = fields@;
            fields.push(field);
            assert(field_views(fields@) =~= field_views(before).push((field.0@, field.1@)));
        }
        i += 1;
    }
    assert(inputs.take(i as int) =~= inputs);
    Ok(LoginForm { action, fields })
}

/// What signing in asks for.
pub enum LoginStep {
    /// The site knows the reader.
    SignedIn,
    /// This form has to be sent.
    Submit(LoginForm),
}

/// What signing in asks for, by its texts.
pub enum LoginView {
    SignedIn,
    Submit(FormView),
}

/// The form of the page that asks to sign in, filled in, or why there is none.
pub open spec fn login_form_of(body: Seq<char>, username: Seq<char>, password: Seq<char>) -> Result<
    FormView,
    LoginError,
> {
    match document_query_in(
        body,
        "form#kc-form-login"@,
        seq!["action"@],
        "input"@,
        seq!["name"@, "type"@, "value"@],
    ) {
        Some(forms) => filled_form(forms, username, password),
        None => Err(LoginError::Selector),
    }
}

/// What signing in asks for, by the first page of the site.
pub open spec fn login_step(body: Seq<char>, username: Seq<char>, password: Seq<char>) -> Result<
    LoginView,
    LoginError,
> {
    if !asks_to_sign_in(body) {
        Ok(LoginView::SignedIn)
    } else {
        match login_form_of(body, username, password) {
            Ok(form) => Ok(LoginView::Submit(form)),
            Err(e) => Err(e),
        }
    }
}

/// Whether a step is the one that is meant.
pub open spec fn is_login_step(r: Result<LoginStep, LoginError>, v: Result<LoginView, LoginError>) -> bool {
    match r {
        Ok(LoginStep::SignedIn) => v == Ok::<LoginView, LoginError>(LoginView::SignedIn),
        Ok(LoginStep::Submit(form)) => v == Ok::<LoginView, LoginError>(LoginView::Submit(form@)),
        Err(e) => v == Err::<LoginView, LoginError>(e),
    }
}

fn input_names() -> (r: Vec<String>)
    ensures
        texts(r@) == seq!["name"@, "type"@, "value"@],
        r@.len() == 3,
{
    let mut out: Vec<String> = Vec::new();
    out.push(owned("name"));
    out.push(owned("type"));
    out.push(owned("value"));
    assert(texts(out@) =~= seq!["name"@, "type"@, "value"@]);
    out
}

impl HtlScraper {
    /// Tells who signs in.
    pub fn begin_authentication(&mut self, username: &str)
        ensures
            only_logged(
                *old(self),
                *final(self),
                seq![EventView::Log("Authenticating as: "@ + username@)],
            ),
    {
        self.log(owned("Authenticating as: ").concat(username));
    }

    /// What signing in asks for, by the first page of the site.
    pub fn authenticate(&mut self, body: &str, username: &str, password: &str) -> (r: Result<
        LoginStep,
        LoginError,
    >)
        ensures
            is_login_step(r, login_step(body@, username@, password@)),
            only_logged(
                *old(self),
                *final(self),
                if asks_to_sign_in(body@) {
                    seq![]
                } else {
                    seq![EventView::Log("[OK] Already authenticated"@)]
                },
            ),
    {
        if !contains(body, "Sign in to your account") {
            self.log(owned("[OK] Already authenticated"));
            return Ok(LoginStep::SignedIn);
        }
        proof {
            assert(event_views(self.events@) + Seq::<EventView>::empty() =~= event_views(
                self.events@,
            ));
        }
        match select_in_document(
            body,
            "form#kc-form-login",
            &one("action"),
            "input",
            &input_names(),
        ) {
            Some(forms) => match fill_form(&forms, username, password) {
                Ok(form) => Ok(LoginStep::Submit(form)),
                Err(e) => Err(e),
            },
            None => Err(LoginError::Selector),
        }
    }

    /// Whether signing in succeeded, by the page that the site gives afterwards.
    pub fn finish_authentication(&mut self, body: &str) -> (r: bool)
        ensures
            r == !asks_to_sign_in(body@),
            only_logged(
                *old(self),
                *final(self),
                seq![
                    EventView::Log(
                        if r {
                            "[OK] Authentication successful"@
                        } else {
                            "[ERROR] Authentication failed — check credentials"@
                        },
                    ),
                ],
            ),
    {
        if contains(body, "Sign in to your account") {
            self.log(owned("[ERROR] Authentication failed — check credentials"));
            false
        } else {
            self.log(owned("[OK] Authentication successful"));
            true
        }
    }
}

// ---------------------------------------------------------------------------
// Discovery
// ---------------------------------------------------------------------------

/// The path of the page that a link leads to, where it leads to a page of the site.
pub open spec fn md_href(href: Seq<char>) -> Option<Seq<char>> {
    if "https://htl.dev/md/"@.is_prefix_of(href) && ".md"@.is_suffix_of(href) {
        Some(stripped(href, "https://htl.dev"@))
    } else if "/md/"@.is_prefix_of(href) && ".md"@.is_suffix_of(href) {
        Some(href)
    } else {
        None
    }
}

/// The pages known after a link was seen.
pub open spec fn with_href(files: Seq<Seq<char>>, href: Option<Seq<char>>) -> Seq<Seq<char>> {
    match href {
        Some(h) => match md_href(h) {
            Some(path) => added(files, path),
            None => files,
        },
        None => files,
    }
}

/// The pages known after links were seen.
pub open spec fn with_hrefs(files: Seq<Seq<char>>, found: Seq<FoundView>) -> Seq<Seq<char>>
    decreases found.len(),
{
    if found.len() == 0 {
        files
    } else {
        with_href(with_hrefs(files, found.drop_last()), found.last().attrs[0])
    }
}

/// The address of an image, where it is an asset of the site.
pub open spec fn asset_url(src: Seq<char>) -> Option<Seq<char>> {
    if "https://htl.dev"@.is_prefix_of(src) {
        Some(src)
    } else if "/md/assets/"@.is_prefix_of(src) {
        Some(BASE_URL@ + src)
    } else if has(src, "assets/"@) {
        Some(src)
    } else {
        None
    }
}

/// The assets known after an image was seen.
pub open spec fn with_image(assets: Seq<Seq<char>>, src: Option<Seq<char>>) -> Seq<Seq<char>> {
    match src {
        Some(s) => match asset_url(s) {
            Some(url) => added(assets, url),
            None => assets,
        },
        None => assets,
    }
}

/// The assets known after images were seen.
pub open spec fn with_images(assets: Seq<Seq<char>>, found: Seq<FoundView>) -> Seq<Seq<char>>
    decreases found.len(),
{
    if found.len() == 0 {
        assets
    } else {
        with_image(with_images(assets, found.drop_last()), found.last().attrs[0])
    }
}

/// What was found in the first element, if there is one.
pub open spec fn in_first(found: Seq<FoundInView>) -> Seq<FoundView> {
    if found.len() == 0 {
        seq![]
    } else {
        found[0].inner
    }
}

/// Whether `new` is `old` but for the pages and assets that are known.
pub open spec fn only_discovered(
    old: HtlScraper,
    new: HtlScraper,
    files: Seq<Seq<char>>,
    assets: Seq<Seq<char>>,
) -> bool {
    &&& new.output_dir == old.output_dir
    &&& new.sync_mode == old.sync_mode
    &&& new.events == old.events
    &&& new.state.wf()
    &&& new.state.discovered_files@ == files
    &&& new.state.discovered_assets@ == assets
    &&& new.state.downloaded_files == old.state.downloaded_files
    &&& new.state.failed_files == old.state.failed_files
    &&& new.state.downloaded_assets == old.state.downloaded_assets
    &&& new.state.file_hashes == old.state.file_hashes
}

/// The path of the page that a link leads to, where it leads to a page of the site.
pub fn page_of_href(href: &str) -> (r: Option<String>)
    ensures
        opt_text(r) == md_href(href@),
{
    if starts_with(href, "https://htl.dev/md/") && ends_with(href, ".md") {
        Some(strip(href, "https://htl.dev"))
    } else if starts_with(href, "/md/") && ends_with(href, ".md") {
        Some(owned(href))
    } else {
        None
    }
}

/// The address of an image, where it is an asset of the site.
pub fn asset_of_src(src: &str) -> (r: Option<String>)
    ensures
        opt_text(r) == asset_url(src@),
{
    if starts_with(src, "https://htl.dev") {
        Some(owned(src))
    } else if starts_with(src, "/md/assets/") {
        Some(owned(BASE_URL).concat(src))
    } else if contains(src, "assets/") {
        Some(owned(src))
    } else {
        None
    }
}

/// The pages that are known from the start. A path that ends in a slash is a page with
/// links to others.
pub open spec fn known_index() -> Seq<char> {
    "/md/index.md"@
}

/// The pages of links that are known from the start.
pub open spec fn known_pages() -> Seq<Seq<char>> {
    seq![
        "/md/contacts/"@,
        "/md/exercises/"@,
        "/md/presentations/"@,
        "/md/technologies/"@,
        "/md/diploma-examination/"@,
        "/md/assets/"@,
    ]
}

/// What a page is fetched for.
#[derive(Debug, Clone, Copy, PartialEq, Eq, Structural)]
pub enum FetchKind {
    /// The first page of the site, without which there is no discovery.
    Root,
    /// A page of links.
    Links,
    /// A page with content.
    Document,
}

impl FetchKind {
    /// Whether discovery ends where such a page cannot be fetched.
    pub fn is_required(self) -> (r: bool)
        ensures
            r == (self == FetchKind::Root),
    {
        self == FetchKind::Root
    }
}

/// Where the discovery of pages stands.
#[derive(Debug, Clone, Copy, PartialEq, Eq, Structural)]
pub enum Phase {
    /// At the first page of the site.
    Root,
    /// At the pages of links that are known from the start.
    Known,
    /// In a round of following links.
    Rounds,
    /// At its end.
    Finished,
}

/// The discovery of pages while it goes on.
#[derive(Debug, Clone)]
pub struct Discovery {
    pub phase: Phase,
    /// The number of the round, from zero on.
    pub iteration: usize,
    /// How many pages were known before the round.
    pub initial: usize,
    /// The paths to fetch, and how many of them were fetched.
    pub queue: Vec<String>,
    pub at: usize,
}

impl Discovery {
    /// Whether the discovery stands where it can: within its rounds and its queue.
    pub open spec fn wf(&self) -> bool {
        &&& self.at <= self.queue@.len()
        &&& self.iteration < MAX_ROUNDS
        &&& self.phase == Phase::Root ==> self.queue@.len() <= 1
        &&& self.phase == Phase::Known ==> self.queue@.len() <= known_pages().len()
        &&& self.phase == Phase::Rounds ==> self.queue@.len() <= ROUND_SIZE
    }

    /// How many steps there are at most until the end.
    pub open spec fn steps_left(&self) -> int {
        let here = self.queue@.len() - self.at + 1;
        let a_round = ROUND_SIZE + 1;
        match self.phase {
            Phase::Root => here + known_pages().len() + 1 + MAX_ROUNDS * a_round,
            Phase::Known => here + MAX_ROUNDS * a_round,
            Phase::Rounds => here + (MAX_ROUNDS - 1 - self.iteration) * a_round,
            Phase::Finished => 0,
        }
    }
}

/// What the discovery of pages asks for.
#[derive(Debug, Clone)]
pub enum DiscoveryStep {
    /// A page has to be fetched.
    Fetch { path: String, kind: FetchKind },
    /// Nothing: the next step may be taken.
    Continue,
    /// Nothing more.
    Finished,
}

/// What the pages of a phase are fetched for.
pub open spec fn phase_kind(phase: Phase) -> FetchKind {
    match phase {
        Phase::Root => FetchKind::Root,
        Phase::Known => FetchKind::Links,
        _ => FetchKind::Document,
    }
}

/// The pages that a round looks at: the first of those that were not downloaded yet.
pub open spec fn round_queue(scraper: HtlScraper) -> Seq<Seq<char>> {
    first(
        minus(scraper.state.discovered_files@, scraper.state.downloaded_files@),
        ROUND_SIZE as int,
    )
}

/// Whether the discovery stands at the beginning of a round.
pub open spec fn is_round(d: Discovery, scraper: HtlScraper, iteration: int) -> bool {
    &&& d.phase == Phase::Rounds
    &&& d.iteration == iteration
    &&& d.initial == scraper.state.discovered_files@.len()
    &&& texts(d.queue@) == round_queue(scraper)
    &&& d.at == 0
}

/// What is told at the end of the discovery.
pub open spec fn discovered_line(count: int) -> Seq<char> {
    "[OK] Discovered "@ + decimal(count) + " files"@
}

/// What is told of a round that found something.
pub open spec fn round_line(iteration: int, initial: int, count: int) -> Seq<char> {
    "  Iteration "@ + decimal(iteration + 1) + ": +"@ + decimal(count - initial)
        + " files (total: "@ + decimal(count) + ")"@
}

impl HtlScraper {
    /// Notes the page that a link leads to.
    pub fn collect_md_href(&mut self, href: &str)
        requires
            old(self).state.wf(),
        ensures
            only_discovered(
                *old(self),
                *final(self),
                with_href(old(self).state.discovered_files@, Some(href@)),
                old(self).state.discovered_assets@,
            ),
    {
        if let Some(path) = page_of_href(href) {
            self.state.discovered_files.insert(path.as_str());
        }
    }

    /// Notes the pages that links which were found lead to.
    pub fn collect_links(&mut self, found: &Vec<Found>)
        requires
            old(self).state.wf(),
            forall|i: int| 0 <= i < found@.len() ==> (#[trigger] found@[i]).attrs@.len() > 0,
        ensures
            only_discovered(
                *old(self),
                *final(self),
                with_hrefs(old(self).state.discovered_files@, found_views(found@)),
                old(self).state.discovered_assets@,
            ),
    {
        let ghost all = found_views(found@);
        let mut i: usize = 0;
        assert(all.take(0) =~= seq![]);
        while i < found.len()
            invariant
                forall|j: int| 0 <= j < found@.len() ==> (#[trigger] found@[j]).attrs@.len() > 0,
                all == found_views(found@),
                i <= found@.len(),
                only_discovered(
                    *old(self),
                    *self,
                    with_hrefs(old(self).state.discovered_files@, all.take(i as int)),
                    old(self).state.discovered_assets@,
                ),
            decreases found@.len() - i,
        {
            proof {
                assert(all.take(i + 1).drop_last() =~= all.take(i as int));
                assert(all.take(i + 1).last() == found@[i as int]@);
            }
            if let Some(href) = &found[i].attrs[0] {
                self.collect_md_href(href.as_str());
            }
            i += 1;
        }
        assert(all.take(i as int) =~= all);
    }

    /// Notes the assets among images that were found.
    pub fn collect_images(&mut self, found: &Vec<Found>)
        requires
            old(self).state.wf(),
            forall|i: int| 0 <= i < found@.len() ==> (#[trigger] found@[i]).attrs@.len() > 0,
        ensures
            only_discovered(
                *old(self),
                *final(self),
                old(self).state.discovered_files@,
                with_images(old(self).state.discovered_assets@, found_views(found@)),
            ),
    {
        let ghost all = found_views(found@);
        let mut i: usize = 0;
        assert(all.take(0) =~= seq![]);
        while i < found.len()
            invariant
                forall|j: int| 0 <= j < found@.len() ==> (#[trigger] found@[j]).attrs@.len() > 0,
                all == found_views(found@),
                i <= found@.len(),
                only_discovered(
                    *old(self),
                    *self,
                    old(self).state.discovered_files@,
                    with_images(old(self).state.discovered_assets@, all.take(i as int)),
                ),
            decreases found@.len() - i,
        {
            proof {
                assert(all.take(i + 1).drop_last() =~= all.take(i as int));
                assert(all.take(i + 1).last() == found@[i as int]@);
            }
            if let Some(src) = &found[i].attrs[0] {
                if let Some(url) = asset_of_src(src.as_str()) {
                    self.state.discovered_assets.insert(url.as_str());
                }
            }
            i += 1;
        }
        assert(all.take(i as int) =~= all);
    }

    /// Notes the pages that a page of links leads to. The result says whether its links
    /// could be looked for.
    pub fn discover_from_html_page(&mut self, body: &str) -> (r: bool)
        requires
            old(self).state.wf(),
        ensures
            match document_query(body@, "a[href]"@, seq!["href"@]) {
                Some(found) => r && only_discovered(
                    *old(self),
                    *final(self),
                    with_hrefs(old(self).state.discovered_files@, found),
                    old(self).state.discovered_assets@,
                ) && notes_every_link(
                    old(self).state.discovered_files@,
                    found,
                    final(self).state.discovered_files@,
                ),
                None => !r && *final(self) == *old(self),
            },
    {
        match select_document(body, "a[href]", &one("href")) {
            Some(found) => {
                proof {
                    law_every_link_is_noted(
                        self.state.discovered_files@,
                        found_views(found@),
                    );
                }
                self.collect_links(&found);
                true
            },
            None => false,
        }
    }

    /// Notes the pages that the content of a page leads to, and the assets in it. The
    /// result says whether they could be looked for.
    pub fn discover_from_markdown(&mut self, body: &str) -> (r: bool)
        requires
            old(self).state.wf(),
        ensures
            match (
                document_query_in(body@, CONTENT_SELECTOR@, seq![], "a[href]"@, seq!["href"@]),
                document_query_in(body@, CONTENT_SELECTOR@, seq![], "img[src]"@, seq!["src"@]),
            ) {
                (Some(links), Some(images)) => r && only_discovered(
                    *old(self),
                    *final(self),
                    with_hrefs(old(self).state.discovered_files@, in_first(links)),
                    with_images(old(self).state.discovered_assets@, in_first(images)),
                ),
                _ => !r && *final(self) == *old(self),
            },
            ({
                let links = document_query_in(
                    body@,
                    "div#markdown-content"@,
                    seq![],
                    "a[href]"@,
                    seq!["href"@],
                );
                let images = document_query_in(
                    body@,
                    "div#markdown-content"@,
                    seq![],
                    "img[src]"@,
                    seq!["src"@],
                );
                links is Some && images is Some ==> {
                    &&& links->0.len() > 0 ==> notes_every_link(
                        old(self).state.discovered_files@,
                        links->0[0].inner,
                        final(self).state.discovered_files@,
                    )
                    &&& images->0.len() > 0 ==> notes_every_image(
                        old(self).state.discovered_assets@,
                        images->0[0].inner,
                        final(self).state.discovered_assets@,
                    )
                }
            }),
    {
        let links: Vec<FoundIn> = match select_in_document(
            body,
            CONTENT_SELECTOR,
            &none(),
            "a[href]",
            &one("href"),
        ) {
            Some(found) => found,
            None => {
                return false;
            },
        };
        let images: Vec<FoundIn> = match select_in_document(
            body,
            CONTENT_SELECTOR,
            &none(),
            "img[src]",
            &one("src"),
        ) {
            Some(found) => found,
            None => {
                return false;
            },
        };
        assert(found_in_views(links@).len() == links@.len());
        assert(found_in_views(images@).len() == images@.len());
        proof {
            law_every_link_is_noted(
                self.state.discovered_files@,
                in_first(found_in_views(links@)),
            );
            law_every_image_is_noted(
                self.state.discovered_assets@,
                in_first(found_in_views(images@)),
            );
        }
        if links.len() > 0 {
            assert(have_attrs(links@[0].inner@, 1));
            self.collect_links(&links[0].inner);
        }
        if images.len() > 0 {
            assert(have_attrs(images@[0].inner@, 1));
            self.collect_images(&images[0].inner);
        }
        true
    }

    /// Begins the discovery of pages, with the first page of the site.
    pub fn discover_all_files(&mut self) -> (r: Discovery)
        ensures
            only_logged(
                *old(self),
                *final(self),
                seq![EventView::Log("[1/4] Discovering markdown files..."@)],
            ),
            r.wf(),
            r.phase == Phase::Root,
            texts(r.queue@) == seq!["/"@],
            r.at == 0,
    {
        self.log(owned("[1/4] Discovering markdown files..."));
        Discovery { phase: Phase::Root, iteration: 0, initial: 0, queue: one("/"), at: 0 }
    }

    /// Notes the page that is known from the start, and gives the pages of links that
    /// are known from the start.
    fn discover_known(&mut self) -> (r: Vec<String>)
        requires
            old(self).state.wf(),
        ensures
            texts(r@) == known_pages(),
            r@.len() == known_pages().len(),
            only_discovered(
                *old(self),
                *final(self),
                added(old(self).state.discovered_files@, known_index()),
                old(self).state.discovered_assets@,
            ),
    {
        self.state.discovered_files.insert("/md/index.md");
        let mut pages: Vec<String> = Vec::new();
        pages.push(owned("/md/contacts/"));
        pages.push(owned("/md/exercises/"));
        pages.push(owned("/md/presentations/"));
        pages.push(owned("/md/technologies/"));
        pages.push(owned("/md/diploma-examination/"));
        pages.push(owned("/md/assets/"));
        assert(texts(pages@) =~= known_pages());
        pages
    }

    /// The beginning of a round of discovery.
    fn begin_round(&self, iteration: usize) -> (r: Discovery)
        requires
            iteration < MAX_ROUNDS,
        ensures
            r.wf(),
            is_round(r, *self, iteration as int),
    {
        let mut queue: Vec<String> = self.state.discovered_files.difference(
            &self.state.downloaded_files,
        );
        let ghost all = texts(queue@);
        if queue.len() > ROUND_SIZE {
            queue.truncate(ROUND_SIZE);
            assert(texts(queue@) =~= all.take(ROUND_SIZE as int));
        }
        Discovery {
            phase: Phase::Rounds,
            iteration,
            initial: self.state.discovered_files.len(),
            queue,
            at: 0,
        }
    }

    /// The next step of the discovery of pages: the pages of the phase are fetched one
    /// after the other. Links are followed in rounds, until one finds no new page or it
    /// was the last.
    pub fn discover_step(&mut self, d: &mut Discovery) -> (r: DiscoveryStep)
        requires
            old(self).state.wf(),
            old(d).wf(),
            old(d).phase == Phase::Rounds ==> old(d).initial
                <= old(self).state.discovered_files@.len(),
        ensures
            final(self).state.wf(),
            final(d).wf(),
            final(d).phase == Phase::Rounds ==> final(d).initial
                <= final(self).state.discovered_files@.len(),
            r is Finished || final(d).steps_left() < old(d).steps_left(),
            old(d).at < old(d).queue@.len() && old(d).phase != Phase::Finished ==> {
                &&& r matches DiscoveryStep::Fetch { path, kind } && path@
                    == old(d).queue@[old(d).at as int]@ && kind == phase_kind(old(d).phase)
                &&& *final(d) == (Discovery { at: (old(d).at + 1) as usize, ..*old(d) })
                &&& *final(self) == *old(self)
            },
            old(d).at == old(d).queue@.len() && old(d).phase == Phase::Root ==> {
                &&& r is Continue
                &&& final(d).phase == Phase::Known
                &&& texts(final(d).queue@) == known_pages()
                &&& final(d).at == 0
                &&& only_discovered(
                    *old(self),
                    *final(self),
                    added(old(self).state.discovered_files@, known_index()),
                    old(self).state.discovered_assets@,
                )
            },
            old(d).at == old(d).queue@.len() && old(d).phase == Phase::Known ==> {
                &&& r is Continue
                &&& is_round(*final(d), *old(self), 0)
                &&& *final(self) == *old(self)
            },
            old(d).at == old(d).queue@.len() && old(d).phase == Phase::Rounds ==> {
                let count = old(self).state.discovered_files@.len();
                let line = EventView::Log(
                    round_line(old(d).iteration as int, old(d).initial as int, count as int),
                );
                let end = EventView::Log(discovered_line(count as int));
                if count == old(d).initial {
                    &&& r is Finished
                    &&& final(d).phase == Phase::Finished
                    &&& only_logged(*old(self), *final(self), seq![end])
                } else if old(d).iteration + 1 < MAX_ROUNDS {
                    &&& r is Continue
                    &&& is_round(*final(d), *old(self), old(d).iteration + 1)
                    &&& only_logged(*old(self), *final(self), seq![line])
                } else {
                    &&& r is Finished
                    &&& final(d).phase == Phase::Finished
                    &&& only_logged(*old(self), *final(self), seq![line, end])
                }
            },
            old(d).phase == Phase::Finished ==> r is Finished && *final(d) == *old(d)
                && *final(self) == *old(self),
    {
        let phase: Phase = d.phase;
        if phase == Phase::Finished {
            return DiscoveryStep::Finished;
        }
        if d.at < d.queue.len() {
            let path: String = d.queue[d.at].clone();
            let kind: FetchKind = match phase {
                Phase::Root => FetchKind::Root,
                Phase::Known => FetchKind::Links,
                _ => FetchKind::Document,
            };
            d.at = d.at + 1;
            return DiscoveryStep::Fetch { path, kind };
        }
        if phase == Phase::Root {
            let queue: Vec<String> = self.discover_known();
            *d = Discovery { phase: Phase::Known, iteration: 0, initial: 0, queue, at: 0 };
            return DiscoveryStep::Continue;
        }
        if phase == Phase::Known {
            *d = self.begin_round(0);
            return DiscoveryStep::Continue;
        }
        let count: usize = self.state.discovered_files.len();
        let ghost told_before = event_views(self.events@);
        let mut goes_on: bool = false;
        if count != d.initial {
            let line: String = owned("  Iteration ").concat(
                count_text(d.iteration + 1).as_str(),
            ).concat(": +").concat(count_text(count - d.initial).as_str()).concat(
                " files (total: ",
            ).concat(count_text(count).as_str()).concat(")");
            assert(line@ =~= round_line(d.iteration as int, d.initial as int, count as int));
            self.log(line);
            goes_on = d.iteration + 1 < MAX_ROUNDS;
        }
        if goes_on {
            let next: usize = d.iteration + 1;
            *d = self.begin_round(next);
            return DiscoveryStep::Continue;
        }
        let ghost told_line = event_views(self.events@);
        self.log(owned("[OK] Discovered ").concat(count_text(count).as_str()).concat(" files"));
        d.phase = Phase::Finished;
        proof {
            let end = EventView::Log(discovered_line(count as int));
            assert(event_views(self.events@) == told_line + seq![end]);
            if count != old(d).initial {
                let line = EventView::Log(
                    round_line(old(d).iteration as int, old(d).initial as int, count as int),
                );
                assert(told_before + seq![line] + seq![end] =~= told_before + seq![line, end]);
            }
        }
        DiscoveryStep::Finished
    }

    /// Notes what a page that was fetched leads to. The result says whether its links
    /// could be looked for.
    pub fn discover_from(&mut self, kind: FetchKind, body: &str) -> (r: bool)
        requires
            old(self).state.wf(),
        ensures
            final(self).state.wf(),
            final(self).state.downloaded_files == old(self).state.downloaded_files,
            old(self).state.discovered_files@.len() <= final(self).state.discovered_files@.len(),
            kind == FetchKind::Document ==> (match (
                document_query_in(body@, CONTENT_SELECTOR@, seq![], "a[href]"@, seq!["href"@]),
                document_query_in(body@, CONTENT_SELECTOR@, seq![], "img[src]"@, seq!["src"@]),
            ) {
                (Some(links), Some(images)) => r && only_discovered(
                    *old(self),
                    *final(self),
                    with_hrefs(old(self).state.discovered_files@, in_first(links)),
                    with_images(old(self).state.discovered_assets@, in_first(images)),
                ),
                _ => !r && *final(self) == *old(self),
            }),
            ({
                let links = document_query_in(
                    body@,
                    "div#markdown-content"@,
                    seq![],
                    "a[href]"@,
                    seq!["href"@],
                );
                let images = document_query_in(
                    body@,
                    "div#markdown-content"@,
                    seq![],
                    "img[src]"@,
                    seq!["src"@],
                );
                links is Some && images is Some && kind == FetchKind::Document ==> {
                    &&& links->0.len() > 0 ==> notes_every_link(
                        old(self).state.discovered_files@,
                        links->0[0].inner,
                        final(self).state.discovered_files@,
                    )
                    &&& images->0.len() > 0 ==> notes_every_image(
                        old(self).state.discovered_assets@,
                        images->0[0].inner,
                        final(self).state.discovered_assets@,
                    )
                }
            }),
            kind != FetchKind::Document ==> (match document_query(
                body@,
                "a[href]"@,
                seq!["href"@],
            ) {
                Some(found) => r && only_discovered(
                    *old(self),
                    *final(self),
                    with_hrefs(old(self).state.discovered_files@, found),
                    old(self).state.discovered_assets@,
                ) && notes_every_link(
                    old(self).state.discovered_files@,
                    found,
                    final(self).state.discovered_files@,
                ),
                None => !r && *final(self) == *old(self),
            }),
    {
        let r: bool = if kind == FetchKind::Document {
            self.discover_from_markdown(body)
        } else {
            self.discover_from_html_page(body)
        };
        proof {
            let files = old(self).state.discovered_files@;
            match document_query(body@, "a[href]"@, seq!["href"@]) {
                Some(found) => lemma_hrefs_grow(files, found),
                None => {},
            }
            match document_query_in(
                body@,
                CONTENT_SELECTOR@,
                seq![],
                "a[href]"@,
                seq!["href"@],
            ) {
                Some(links) => lemma_hrefs_grow(files, in_first(links)),
                None => {},
            }
        }
        r
    }
}

proof fn lemma_hrefs_grow(files: Seq<Seq<char>>, found: Seq<FoundView>)
    ensures
        files.len() <= with_hrefs(files, found).len(),
        forall|s: Seq<char>| files.contains(s) ==> #[trigger] with_hrefs(files, found).contains(s),
    decreases found.len(),
{
    if found.len() > 0 {
        lemma_hrefs_grow(files, found.drop_last());
        let before = with_hrefs(files, found.drop_last());
        assert forall|s: Seq<char>| files.contains(s) implies #[trigger] with_hrefs(
            files,
            found,
        ).contains(s) by {
            assert(before.contains(s));
            let k = choose|k: int| 0 <= k < before.len() && before[k] == s;
            assert(with_hrefs(files, found)[k] == s);
        }
    }
}

/// What is known of the site is not forgotten when links are seen.
pub proof fn law_links_only_add_pages(files: Seq<Seq<char>>, found: Seq<FoundView>)
    ensures
        forall|s: Seq<char>| files.contains(s) ==> #[trigger] with_hrefs(files, found).contains(s),
{
    lemma_hrefs_grow(files, found);
}

/// Every page that a link is found to lead to lies below the content root and is a
/// markdown page.
pub proof fn law_discovered_are_pages(href: Seq<char>)
    ensures
        md_href(href) matches Some(path) ==> "/md/"@.is_prefix_of(path) && ".md"@.is_suffix_of(path),
{
    reveal_strlit("https://htl.dev/md/");
    reveal_strlit("https://htl.dev");
    reveal_strlit("/md/");
    reveal_strlit(".md");
    if "https://htl.dev/md/"@.is_prefix_of(href) && ".md"@.is_suffix_of(href) {
        let long = "https://htl.dev/md/"@;
        let base = "https://htl.dev"@;
        let rest = href.skip(15);
        assert(href.take(19) =~= long);
        assert(base.is_prefix_of(href)) by {
            assert(base =~= href.subrange(0, 15)) by {
                assert forall|i: int| 0 <= i < 15 implies base[i] == href[i] by {
                    assert(href.take(19)[i] == long[i]);
                }
            }
        }
        assert forall|i: int| 0 <= i < 4 implies rest[i] == "/md/"@[i] by {
            assert(href.take(19)[15 + i] == long[15 + i]);
        }
        assert("/md/"@ =~= rest.subrange(0, 4));
        assert(!base.is_prefix_of(rest)) by {
            if base.is_prefix_of(rest) {
                assert(base =~= rest.subrange(0, 15));
                assert(rest[0] == base[0]);
            }
        }
        reveal_with_fuel(stripped, 2);
        assert(stripped(href, base) == rest);
        assert(".md"@ =~= href.subrange(href.len() - 3, href.len() as int));
        assert(".md"@ =~= rest.subrange(rest.len() - 3, rest.len() as int));
    }
}

// ---------------------------------------------------------------------------
// Downloading pages
// ---------------------------------------------------------------------------

/// The download of pages while it goes on.
#[derive(Debug, Clone)]
pub struct DownloadRun {
    /// The pages to download, in order, and how many of them were tried.
    pub todo: Vec<String>,
    pub at: usize,
    pub new_count: usize,
    pub updated_count: usize,
    pub unchanged_count: usize,
    pub failed_count: usize,
}

impl DownloadRun {
    /// Whether every page that was tried is counted once.
    pub open spec fn wf(&self) -> bool {
        &&& self.at <= self.todo@.len()
        &&& self.new_count + self.updated_count + self.unchanged_count + self.failed_count
            == self.at
    }
}

/// The pages that a run downloads: all that are known where it synchronises, else those
/// that were not downloaded before.
pub open spec fn pages_to_process(scraper: HtlScraper) -> Seq<Seq<char>> {
    if scraper.sync_mode {
        scraper.state.discovered_files@
    } else {
        minus(scraper.state.discovered_files@, scraper.state.downloaded_files@)
    }
}

/// What is told at the beginning of a run.
pub open spec fn download_lines(scraper: HtlScraper) -> Seq<EventView> {
    let total = pages_to_process(scraper).len() as int;
    let done = scraper.state.downloaded_files@.len() as int;
    seq![EventView::Log("[2/4] Downloading markdown files..."@)] + (if scraper.sync_mode {
        seq![EventView::Log("[SYNC] Checking "@ + decimal(total) + " files for updates..."@)]
    } else if done > 0 {
        seq![
            EventView::Log("  "@ + decimal(done) + " already downloaded, "@ + decimal(total) + " new"@),
        ]
    } else {
        seq![]
    }) + (if total == 0 {
        seq![EventView::Log("[OK] All files already downloaded"@)]
    } else {
        seq![]
    })
}

/// How much of a phase is done, in percent.
pub open spec fn percent(current: int, total: int) -> int {
    current * 100 / total
}

/// What is told of the progress of a phase.
pub open spec fn progress_line(label: Seq<char>, current: int, total: int) -> Seq<char> {
    "  "@ + label + ": "@ + decimal(current) + "/"@ + decimal(total) + " ("@ + decimal(
        percent(current, total),
    ) + "%)"@
}

fn progress_text(label: &str, current: usize, total: usize) -> (r: String)
    requires
        0 < total,
        current <= total,
    ensures
        r@ == progress_line(label@, current as int, total as int),
{
    let part: u128 = current as u128 * 100 / total as u128;
    proof {
        assert(current * 100 / (total as int) <= 100) by (nonlinear_arith)
            requires
                0 < total,
                current <= total,
        ;
    }
    let share: usize = part as usize;
    owned("  ").concat(label).concat(": ").concat(count_text(current).as_str()).concat("/").concat(
        count_text(total).as_str(),
    ).concat(" (").concat(count_text(share).as_str()).concat("%)")
}

/// Whether the state is kept after so many of a phase are done.
pub open spec fn is_checkpoint(current: int, total: int, every: int) -> bool {
    current % every == 0 || current == total
}

/// What is told after a page was tried.
pub open spec fn page_events(
    path: Seq<char>,
    updated: bool,
    current: int,
    total: int,
) -> Seq<EventView> {
    (if updated {
        seq![EventView::Log("  [UPDATED] "@ + url_decoded(path))]
    } else {
        seq![]
    }) + seq![EventView::Progress { current, total }] + (if is_checkpoint(current, total, 10) {
        seq![EventView::Log(progress_line("Progress"@, current, total))]
    } else {
        seq![]
    })
}

/// Whether a page that was downloaded before has another hash than then.
pub open spec fn is_update(state: ScraperState, path: Seq<char>, hash: Seq<char>) -> bool {
    &&& state.downloaded_files@.contains(path)
    &&& !(state.file_hashes@.dom().contains(path) && state.file_hashes@[path] == hash)
}

/// Whether a page was downloaded before with the same hash.
pub open spec fn is_unchanged(state: ScraperState, path: Seq<char>, hash: Seq<char>) -> bool {
    &&& state.downloaded_files@.contains(path)
    &&& state.file_hashes@.dom().contains(path)
    &&& state.file_hashes@[path] == hash
}

/// Whether `new` is `old` after a page was downloaded.
pub open spec fn page_stored(
    old: ScraperState,
    new: ScraperState,
    path: Seq<char>,
    hash: Seq<char>,
) -> bool {
    &&& new.downloaded_files@ == added(old.downloaded_files@, path)
    &&& new.file_hashes@ == old.file_hashes@.insert(path, hash)
    &&& new.failed_files == old.failed_files
    &&& new.discovered_files == old.discovered_files
    &&& new.discovered_assets == old.discovered_assets
    &&& new.downloaded_assets == old.downloaded_assets
}

/// Whether `new` is `old` after a page could not be downloaded.
pub open spec fn page_failed(old: ScraperState, new: ScraperState, path: Seq<char>) -> bool {
    &&& new.failed_files@ == added(old.failed_files@, path)
    &&& new.downloaded_files == old.downloaded_files
    &&& new.file_hashes == old.file_hashes
    &&& new.discovered_files == old.discovered_files
    &&& new.discovered_assets == old.discovered_assets
    &&& new.downloaded_assets == old.downloaded_assets
}

/// What is told of a count, if it is not zero.
pub open spec fn count_line(count: int, label: Seq<char>) -> Seq<EventView> {
    if count > 0 {
        seq![EventView::Log("  - "@ + decimal(count) + label)]
    } else {
        seq![]
    }
}

/// What is told at the end of a run.
pub open spec fn summary_lines(run: DownloadRun) -> Seq<EventView> {
    seq![EventView::Log("[OK] Processed "@ + decimal(run.todo@.len() as int) + " files:"@)]
        + count_line(run.new_count as int, " new"@) + count_line(
        run.updated_count as int,
        " updated"@,
    ) + count_line(run.unchanged_count as int, " unchanged"@) + count_line(
        run.failed_count as int,
        " failed"@,
    )
}

impl HtlScraper {
    /// Begins the download of pages.
    pub fn download_all_files(&mut self) -> (r: DownloadRun)
        requires
            old(self).state.wf(),
        ensures
            only_logged(*old(self), *final(self), download_lines(*old(self))),
            r.wf(),
            r.at == 0,
            r.todo@.len() == pages_to_process(*old(self)).len(),
            exists|list: Seq<String>|
                texts(list) == pages_to_process(*old(self)) && #[trigger] is_sort_of(
                    list,
                    r.todo@,
                ),
    {
        let ghost begun = event_views(self.events@);
        self.log(owned("[2/4] Downloading markdown files..."));
        let ghost first_line = EventView::Log("[2/4] Downloading markdown files..."@);
        let todo: Vec<String> = if self.sync_mode {
            self.state.discovered_files.to_vec()
        } else {
            self.state.discovered_files.difference(&self.state.downloaded_files)
        };
        let total: usize = todo.len();
        assert(texts(todo@) == pages_to_process(*old(self)));
        assert(total == pages_to_process(*old(self)).len());
        let done: usize = self.state.downloaded_files.len();
        let ghost second: Seq<EventView> = if self.sync_mode {
            seq![EventView::Log("[SYNC] Checking "@ + decimal(total as int) + " files for updates..."@)]
        } else if done > 0 {
            seq![
                EventView::Log(
                    "  "@ + decimal(done as int) + " already downloaded, "@ + decimal(total as int)
                        + " new"@,
                ),
            ]
        } else {
            seq![]
        };
        if self.sync_mode {
            self.log(
                owned("[SYNC] Checking ").concat(count_text(total).as_str()).concat(
                    " files for updates...",
                ),
            );
        } else if done > 0 {
            self.log(
                owned("  ").concat(count_text(done).as_str()).concat(
                    " already downloaded, ",
                ).concat(count_text(total).as_str()).concat(" new"),
            );
        }
        assert(event_views(self.events@) =~= begun + (seq![first_line] + second));
        if total == 0 {
            self.log(owned("[OK] All files already downloaded"));
        }
        proof {
            let third: Seq<EventView> = if total == 0 {
                seq![EventView::Log("[OK] All files already downloaded"@)]
            } else {
                seq![]
            };
            assert(event_views(self.events@) =~= begun + (seq![first_line] + second + third));
            assert(download_lines(*old(self)) == seq![first_line] + second + third);
        }
        let ghost list = todo@;
        let sorted: Vec<String> = sort_by_text(todo);
        proof {
            list.to_multiset_ensures();
            sorted@.to_multiset_ensures();
        }
        let run: DownloadRun = DownloadRun {
            todo: sorted,
            at: 0,
            new_count: 0,
            updated_count: 0,
            unchanged_count: 0,
            failed_count: 0,
        };
        assert(texts(list) == pages_to_process(*old(self)));
        assert(is_sort_of(list, run.todo@));
        run
    }

    /// Notes how the download of the next page ended: with the hash of the page, or not
    /// at all. The result says whether the state has to be kept now.
    pub fn record_download(&mut self, run: &mut DownloadRun, outcome: Option<String>) -> (r: bool)
        requires
            old(self).state.wf(),
            old(run).wf(),
            old(run).at < old(run).todo@.len(),
        ensures
            final(self).state.wf(),
            final(run).wf(),
            final(run).todo == old(run).todo,
            final(run).at == old(run).at + 1,
            r == is_checkpoint(old(run).at + 1, old(run).todo@.len() as int, 10),
            ({
                let path = old(run).todo@[old(run).at as int]@;
                let before = old(self).state;
                match outcome {
                    Some(hash) => {
                        &&& page_stored(before, final(self).state, path, hash@)
                        &&& final(run).new_count == old(run).new_count + (
                        if before.downloaded_files@.contains(path) {
                            0int
                        } else {
                            1
                        })
                        &&& final(run).updated_count == old(run).updated_count + (if is_update(
                            before,
                            path,
                            hash@,
                        ) {
                            1int
                        } else {
                            0
                        })
                        &&& final(run).unchanged_count == old(run).unchanged_count + (
                        if is_unchanged(before, path, hash@) {
                            1int
                        } else {
                            0
                        })
                        &&& final(run).failed_count == old(run).failed_count
                    },
                    None => {
                        &&& page_failed(before, final(self).state, path)
                        &&& final(run).new_count == old(run).new_count
                        &&& final(run).updated_count == old(run).updated_count
                        &&& final(run).unchanged_count == old(run).unchanged_count
                        &&& final(run).failed_count == old(run).failed_count + 1
                    },
                }
            }),
            counts_page(
                old(self).state,
                *old(run),
                *final(run),
                match outcome {
                    Some(hash) => Some(hash@),
                    None => None,
                },
            ),
            told(
                *old(self),
                *final(self),
                page_events(
                    old(run).todo@[old(run).at as int]@,
                    outcome matches Some(hash) && is_update(
                        old(self).state,
                        old(run).todo@[old(run).at as int]@,
                        hash@,
                    ),
                    old(run).at + 1,
                    old(run).todo@.len() as int,
                ),
            ),
    {
        let ghost begun = event_views(self.events@);
        let total: usize = run.todo.len();
        let current: usize = run.at + 1;
        let path: String = run.todo[run.at].clone();
        let known: bool = self.state.downloaded_files.contains(path.as_str());
        let ghost mut first_part: Seq<EventView> = seq![];
        match outcome {
            Some(hash) => {
                let same_hash: bool = match self.state.file_hashes.get(path.as_str()) {
                    Some(old_hash) => same(old_hash.as_str(), hash.as_str()),
                    None => false,
                };
                self.state.downloaded_files.insert(path.as_str());
                self.state.file_hashes.insert(path.as_str(), hash.as_str());
                if !known {
                    run.new_count = run.new_count + 1;
                } else if !same_hash {
                    run.updated_count = run.updated_count + 1;
                    let name: String = url_decode(path.as_str());
                    self.log(owned("  [UPDATED] ").concat(name.as_str()));
                    proof {
                        first_part = seq![EventView::Log("  [UPDATED] "@ + url_decoded(path@))];
                    }
                } else {
                    run.unchanged_count = run.unchanged_count + 1;
                }
            },
            None => {
                self.state.failed_files.insert(path.as_str());
                run.failed_count = run.failed_count + 1;
            },
        }
        assert(event_views(self.events@) =~= begun + first_part);
        run.at = current;
        self.send_progress(current, total);
        let ghost progress = EventView::Progress { current: current as int, total: total as int };
        assert(event_views(self.events@) =~= begun + (first_part + seq![progress]));
        let keep: bool = current % 10 == 0 || current == total;
        if keep {
            self.log(progress_text("Progress", current, total));
        }
        proof {
            let third: Seq<EventView> = if keep {
                seq![EventView::Log(progress_line("Progress"@, current as int, total as int))]
            } else {
                seq![]
            };
            assert(event_views(self.events@) =~= begun + (first_part + seq![progress] + third));
        }
        keep
    }

    /// Tells of a count, if it is not zero.
    fn log_count(&mut self, count: usize, label: &str)
        ensures
            only_logged(*old(self), *final(self), count_line(count as int, label@)),
    {
        if count > 0 {
            self.log(owned("  - ").concat(count_text(count).as_str()).concat(label));
        } else {
            assert(event_views(self.events@) + Seq::<EventView>::empty() =~= event_views(
                self.events@,
            ));
        }
    }

    /// Ends the download of pages.
    pub fn finish_downloads(&mut self, run: &DownloadRun)
        ensures
            only_logged(*old(self), *final(self), summary_lines(*run)),
    {
        let ghost begun = event_views(self.events@);
        let total: usize = run.todo.len();
        self.log(owned("[OK] Processed ").concat(count_text(total).as_str()).concat(" files:"));
        self.log_count(run.new_count, " new");
        self.log_count(run.updated_count, " updated");
        self.log_count(run.unchanged_count, " unchanged");
        self.log_count(run.failed_count, " failed");
        assert(event_views(self.events@) =~= begun + summary_lines(*run));
    }
}

/// Without synchronisation no page is downloaded again, and every other known page is
/// downloaded.
pub proof fn law_only_new_pages_are_downloaded(scraper: HtlScraper)
    requires
        scraper.state.wf(),
        !scraper.sync_mode,
    ensures
        forall|path: Seq<char>| #[trigger]
            pages_to_process(scraper).contains(path) <==> scraper.state.discovered_files@.contains(
                path,
            ) && !scraper.state.downloaded_files@.contains(path),
        pages_to_process(scraper).no_duplicates(),
{
    lemma_minus(scraper.state.discovered_files@, scraper.state.downloaded_files@);
}

/// A page that could not be downloaded is tried again by the next run, and one that was
/// downloaded is not, unless that run synchronises.
pub proof fn law_failed_pages_are_retried(
    before: HtlScraper,
    after: HtlScraper,
    path: Seq<char>,
    hash: Seq<char>,
)
    requires
        before.state.wf(),
        pages_to_process(before).contains(path),
        !before.sync_mode,
        !after.sync_mode,
    ensures
        page_failed(before.state, after.state, path) ==> pages_to_process(after).contains(path),
        page_stored(before.state, after.state, path, hash) ==> !pages_to_process(after).contains(
            path,
        ),
{
    lemma_minus(before.state.discovered_files@, before.state.downloaded_files@);
    lemma_minus(after.state.discovered_files@, after.state.downloaded_files@);
    let old_done = before.state.downloaded_files@;
    if page_stored(before.state, after.state, path, hash) {
        assert(old_done.push(path)[old_done.len() as int] == path);
        assert(added(old_done, path).contains(path));
    }
}

/// To synchronise a page whose content is what it was counts as unchanged: what a
/// download stores is what the next one is held against.
pub proof fn law_same_page_is_unchanged(
    before: ScraperState,
    after: ScraperState,
    path: Seq<char>,
    hash: Seq<char>,
)
    requires
        page_stored(before, after, path, hash),
    ensures
        is_unchanged(after, path, hash),
        !is_update(after, path, hash),
        forall|other: Seq<char>| other != hash ==> #[trigger] is_update(after, path, other),
{
    let done = before.downloaded_files@;
    assert(done.push(path)[done.len() as int] == path);
    assert(added(done, path).contains(path));
}

// ---------------------------------------------------------------------------
// Downloading assets
// ---------------------------------------------------------------------------

/// The download of assets while it goes on.
#[derive(Debug, Clone)]
pub struct AssetRun {
    /// The assets to download, and how many of them were tried.
    pub todo: Vec<String>,
    pub at: usize,
}

/// The file that an asset is stored in.
pub fn asset_file(url: &str) -> (r: String)
    ensures
        r@ == url_decoded(last_part(url@)),
{
    let name: String = last_part_of(url);
    url_decode(name.as_str())
}

/// The assets that a run downloads.
pub open spec fn assets_to_download(scraper: HtlScraper) -> Seq<Seq<char>> {
    minus(scraper.state.discovered_assets@, scraper.state.downloaded_assets@)
}

/// What is told at the beginning of a run.
pub open spec fn asset_lines(total: int) -> Seq<EventView> {
    seq![EventView::Log("[3/4] Downloading "@ + decimal(total) + " assets..."@)] + (if total == 0 {
        seq![EventView::Log("[OK] All assets already downloaded"@)]
    } else {
        seq![]
    })
}

impl HtlScraper {
    /// Begins the download of assets.
    pub fn download_all_assets(&mut self) -> (r: AssetRun)
        ensures
            texts(r.todo@) == assets_to_download(*old(self)),
            r.at == 0,
            only_logged(
                *old(self),
                *final(self),
                asset_lines(assets_to_download(*old(self)).len() as int),
            ),
    {
        let ghost begun = event_views(self.events@);
        let todo: Vec<String> = self.state.discovered_assets.difference(
            &self.state.downloaded_assets,
        );
        let total: usize = todo.len();
        assert(texts(todo@).len() == total);
        self.log(owned("[3/4] Downloading ").concat(count_text(total).as_str()).concat(" assets..."));
        if total == 0 {
            self.log(owned("[OK] All assets already downloaded"));
        }
        assert(event_views(self.events@) =~= begun + asset_lines(total as int));
        AssetRun { todo, at: 0 }
    }

    /// Notes whether the next asset was downloaded. The result says whether the state
    /// has to be kept now.
    pub fn record_asset(&mut self, run: &mut AssetRun, stored: bool) -> (r: bool)
        requires
            old(self).state.wf(),
            old(run).at < old(run).todo@.len(),
        ensures
            final(self).state.wf(),
            final(run).todo == old(run).todo,
            final(run).at == old(run).at + 1,
            r == is_checkpoint(old(run).at + 1, old(run).todo@.len() as int, 20),
            final(self).state.downloaded_assets@ == (if stored {
                added(old(self).state.downloaded_assets@, old(run).todo@[old(run).at as int]@)
            } else {
                old(self).state.downloaded_assets@
            }),
            final(self).state.discovered_files == old(self).state.discovered_files,
            final(self).state.downloaded_files == old(self).state.downloaded_files,
            final(self).state.failed_files == old(self).state.failed_files,
            final(self).state.discovered_assets == old(self).state.discovered_assets,
            final(self).state.file_hashes == old(self).state.file_hashes,
            told(
                *old(self),
                *final(self),
                if r {
                    seq![
                        EventView::Log(
                            progress_line(
                                "Assets"@,
                                old(run).at + 1,
                                old(run).todo@.len() as int,
                            ),
                        ),
                    ]
                } else {
                    seq![]
                },
            ),
    {
        let ghost begun = event_views(self.events@);
        let total: usize = run.todo.len();
        let current: usize = run.at + 1;
        if stored {
            let url: String = run.todo[run.at].clone();
            self.state.downloaded_assets.insert(url.as_str());
        }
        run.at = current;
        let keep: bool = current % 20 == 0 || current == total;
        if keep {
            self.log(progress_text("Assets", current, total));
        } else {
            assert(event_views(self.events@) =~= begun + Seq::<EventView>::empty());
        }
        keep
    }

    /// Ends the download of assets.
    pub fn finish_assets(&mut self)
        ensures
            only_logged(
                *old(self),
                *final(self),
                seq![
                    EventView::Log(
                        "[OK] Downloaded "@ + decimal(
                            old(self).state.downloaded_assets@.len() as int,
                        ) + " assets"@,
                    ),
                ],
            ),
    {
        let count: usize = self.state.downloaded_assets.len();
        self.log(owned("[OK] Downloaded ").concat(count_text(count).as_str()).concat(" assets"));
    }
}

// ---------------------------------------------------------------------------
// A whole run
// ---------------------------------------------------------------------------

/// What is told at the end of a whole run.
pub open spec fn total_lines(state: ScraperState) -> Seq<EventView> {
    seq![
        EventView::Log("DONE"@),
        EventView::Log(
            "Total: "@ + decimal(state.downloaded_files@.len() as int) + " markdown files, "@
                + decimal(state.downloaded_assets@.len() as int) + " assets"@,
        ),
    ] + (if state.failed_files@.len() > 0 {
        seq![
            EventView::Log(
                "Failed: "@ + decimal(state.failed_files@.len() as int) + " (run again to retry)"@,
            ),
        ]
    } else {
        seq![]
    })
}

impl HtlScraper {
    /// Begins a run.
    pub fn begin_run(&mut self)
        ensures
            only_logged(
                *old(self),
                *final(self),
                seq![
                    EventView::Log("HTL.dev Scraper"@),
                    EventView::Log("Output: "@ + old(self).output_dir@),
                ],
            ),
    {
        let ghost begun = event_views(self.events@);
        self.log(owned("HTL.dev Scraper"));
        self.log(owned("Output: ").concat(self.output_dir.as_str()));
        assert(event_views(self.events@) =~= begun + seq![
            EventView::Log("HTL.dev Scraper"@),
            EventView::Log("Output: "@ + old(self).output_dir@),
        ]);
    }

    /// Goes on from the state of an earlier run, or from none where it could not be read.
    pub fn load_state(&mut self, loaded: Result<ScraperState, String>)
        ensures
            match loaded {
                Ok(state) => final(self).state == state && told(
                    *old(self),
                    *final(self),
                    seq![
                        EventView::Log(
                            "[OK] Loaded previous state ("@ + decimal(
                                state.downloaded_files@.len() as int,
                            ) + " files downloaded)"@,
                        ),
                    ],
                ),
                Err(e) => only_logged(
                    *old(self),
                    *final(self),
                    seq![EventView::Log("[WARN] Could not load state: "@ + e@)],
                ),
            },
    {
        match loaded {
            Ok(state) => {
                self.state = state;
                let count: usize = self.state.downloaded_files.len();
                self.log(
                    owned("[OK] Loaded previous state (").concat(count_text(count).as_str()).concat(
                        " files downloaded)",
                    ),
                );
            },
            Err(e) => {
                self.log(owned("[WARN] Could not load state: ").concat(e.as_str()));
            },
        }
    }

    /// Ends a run.
    pub fn finish_run(&mut self)
        ensures
            only_logged(*old(self), *final(self), total_lines(old(self).state)),
    {
        let ghost begun = event_views(self.events@);
        let files: usize = self.state.downloaded_files.len();
        let assets: usize = self.state.downloaded_assets.len();
        let failed: usize = self.state.failed_files.len();
        self.log(owned("DONE"));
        self.log(
            owned("Total: ").concat(count_text(files).as_str()).concat(" markdown files, ").concat(
                count_text(assets).as_str(),
            ).concat(" assets"),
        );
        if failed > 0 {
            self.log(
                owned("Failed: ").concat(count_text(failed).as_str()).concat(
                    " (run again to retry)",
                ),
            );
        }
        assert(event_views(self.events@) =~= begun + total_lines(old(self).state));
    }
}

// ---------------------------------------------------------------------------
// Laws of discovery
// ---------------------------------------------------------------------------

/// Whether a link leads to the page of the site with a path: it is that path, or that path
/// behind the address of the site. The path lies below the content root and ends as markdown
/// pages do.
pub open spec fn leads_to(href: Seq<char>, path: Seq<char>) -> bool {
    &&& href == path || href == "https://htl.dev"@ + path
    &&& "/md/"@.is_prefix_of(path)
    &&& ".md"@.is_suffix_of(path)
}

/// A link is taken to lead to a page exactly where it does.
pub proof fn law_pages_of_links(href: Seq<char>, path: Seq<char>)
    ensures
        md_href(href) == Some(path) <==> leads_to(href, path),
{
    let base = "https://htl.dev"@;
    let long = "https://htl.dev/md/"@;
    reveal_strlit("https://htl.dev/md/");
    reveal_strlit("https://htl.dev");
    reveal_strlit("/md/");
    reveal_strlit(".md");
    law_discovered_are_pages(href);
    assert(base + "/md/"@ =~= long);
    if leads_to(href, path) {
        let n = path.len() as int;
        assert(path.subrange(0, 4)[0] == '/');
        assert(path[0] == '/');
        assert(!base.is_prefix_of(path)) by {
            if base.is_prefix_of(path) {
                assert(path.subrange(0, 15)[0] == base[0]);
            }
        }
        if href == path {
            if long.is_prefix_of(href) {
                assert(href.subrange(0, 19)[0] == long[0]);
            }
        } else {
            assert(long =~= href.subrange(0, 19)) by {
                assert forall|i: int| 0 <= i < 19 implies long[i] == href[i] by {
                    if i >= 15 {
                        assert(path.subrange(0, 4)[i - 15] == path[i - 15]);
                    }
                }
            }
            assert(".md"@ =~= href.subrange(href.len() - 3, href.len() as int)) by {
                assert(path.subrange(n - 3, n) =~= ".md"@);
            }
            assert(base =~= href.subrange(0, 15));
            assert(href.skip(15) =~= path);
            reveal_with_fuel(stripped, 2);
            assert(stripped(href, base) == path);
        }
    }
    if md_href(href) == Some(path) && long.is_prefix_of(href) && ".md"@.is_suffix_of(href) {
        assert(base =~= href.subrange(0, 15)) by {
            assert forall|i: int| 0 <= i < 15 implies base[i] == href[i] by {
                assert(href.subrange(0, 19)[i] == long[i]);
            }
        }
        let rest = href.skip(15);
        assert(rest[0] == href.subrange(0, 19)[15]);
        assert(!base.is_prefix_of(rest)) by {
            if base.is_prefix_of(rest) {
                assert(rest.subrange(0, 15)[0] == base[0]);
            }
        }
        reveal_with_fuel(stripped, 2);
        assert(path == rest);
        assert(href =~= base + path);
    }
}

/// An image is an asset of the site where its address begins with that of the site, where
/// it lies in the directory of the assets, or where it names one; its address is then given
/// with that of the site where it begins with the path of that directory, and else as it is.
pub proof fn law_assets_of_images(src: Seq<char>)
    ensures
        "https://htl.dev"@.is_prefix_of(src) ==> asset_url(src) == Some(src),
        "/md/assets/"@.is_prefix_of(src) ==> asset_url(src) == Some("https://htl.dev"@ + src),
        has(src, "assets/"@) && !"/md/assets/"@.is_prefix_of(src) ==> asset_url(src) == Some(src),
        !"https://htl.dev"@.is_prefix_of(src) && !(has(src, "assets/"@)) ==> asset_url(src) is None,
{
    reveal_strlit("https://htl.dev");
    reveal_strlit("/md/assets/");
    reveal_strlit("assets/");
    if "/md/assets/"@.is_prefix_of(src) {
        if "https://htl.dev"@.is_prefix_of(src) {
            assert(src.subrange(0, 15)[0] == "https://htl.dev"@[0]);
            assert(src.subrange(0, 11)[0] == "/md/assets/"@[0]);
        }
        assert(src.subrange(4, 11) =~= "assets/"@) by {
            assert forall|i: int| 0 <= i < 7 implies src[4 + i] == "assets/"@[i] by {
                assert(src.subrange(0, 11)[4 + i] == "/md/assets/"@[4 + i]);
            }
        }
        assert(occurs_at(src, "assets/"@, 4));
    }
}

/// Whether the pages that are known after links were seen are those that were known before
/// and the page of every link that leads to one; none of them is forgotten, and no other is
/// known.
pub open spec fn notes_every_link(
    before: Seq<Seq<char>>,
    links: Seq<FoundView>,
    after: Seq<Seq<char>>,
) -> bool {
    &&& before.is_prefix_of(after)
    &&& forall|k: int, path: Seq<char>|
        0 <= k < links.len() && (#[trigger] links[k]).attrs[0] is Some && #[trigger] leads_to(
            links[k].attrs[0]->0,
            path,
        ) ==> after.contains(path)
    &&& forall|path: Seq<char>| #[trigger]
        after.contains(path) ==> before.contains(path) || exists|k: int|
            0 <= k < links.len() && (#[trigger] links[k]).attrs[0] is Some && leads_to(
                links[k].attrs[0]->0,
                path,
            )
}

/// Whether the assets that are known after images were seen are those that were known
/// before and the address of every image that is one.
pub open spec fn notes_every_image(
    before: Seq<Seq<char>>,
    images: Seq<FoundView>,
    after: Seq<Seq<char>>,
) -> bool {
    &&& before.is_prefix_of(after)
    &&& forall|k: int|
        0 <= k < images.len() && (#[trigger] images[k]).attrs[0] is Some && asset_url(
            images[k].attrs[0]->0,
        ) is Some ==> after.contains(asset_url(images[k].attrs[0]->0)->0)
    &&& forall|url: Seq<char>| #[trigger]
        after.contains(url) ==> before.contains(url) || exists|k: int|
            0 <= k < images.len() && (#[trigger] images[k]).attrs[0] is Some && asset_url(
                images[k].attrs[0]->0,
            ) == Some(url)
}

/// Every link that leads to a page of the site is noted, whichever place it has.
pub proof fn law_every_link_is_noted(files: Seq<Seq<char>>, links: Seq<FoundView>)
    ensures
        notes_every_link(files, links, with_hrefs(files, links)),
    decreases links.len(),
{
    let after = with_hrefs(files, links);
    if links.len() > 0 {
        let init = links.drop_last();
        law_every_link_is_noted(files, init);
        let before = with_hrefs(files, init);
        let last = links[links.len() - 1];
        let page = match last.attrs[0] {
            Some(href) => md_href(href),
            None => None,
        };
        if page is Some {
            law_added(before, page->0);
        }
        assert(files.is_prefix_of(after)) by {
            assert(files =~= before.subrange(0, files.len() as int));
            assert(files =~= after.subrange(0, files.len() as int)) by {
                assert forall|i: int| 0 <= i < files.len() implies files[i] == after[i] by {
                    assert(before.subrange(0, files.len() as int)[i] == before[i]);
                    if page is Some {
                        assert(after.subrange(0, before.len() as int)[i] == after[i]);
                    }
                }
            }
        }
        assert forall|k: int, path: Seq<char>|
            0 <= k < links.len() && (#[trigger] links[k]).attrs[0] is Some && #[trigger] leads_to(
                links[k].attrs[0]->0,
                path,
            ) implies after.contains(path) by {
            law_pages_of_links(links[k].attrs[0]->0, path);
            if k < links.len() - 1 {
                assert(init[k] == links[k]);
                assert(leads_to(init[k].attrs[0]->0, path));
                assert(before.contains(path));
            }
        }
        assert forall|path: Seq<char>| #[trigger] after.contains(path) implies files.contains(path)
            || exists|k: int|
            0 <= k < links.len() && (#[trigger] links[k]).attrs[0] is Some && leads_to(
                links[k].attrs[0]->0,
                path,
            ) by {
            if before.contains(path) {
                if !files.contains(path) {
                    let k = choose|k: int|
                        0 <= k < init.len() && (#[trigger] init[k]).attrs[0] is Some && leads_to(
                            init[k].attrs[0]->0,
                            path,
                        );
                    assert(links[k] == init[k]);
                }
            } else {
                law_pages_of_links(last.attrs[0]->0, path);
                assert(leads_to(links[links.len() - 1].attrs[0]->0, path));
            }
        }
    } else {
        assert(files =~= after.subrange(0, files.len() as int));
    }
}

/// Every image that is an asset of the site is noted, whichever place it has.
pub proof fn law_every_image_is_noted(assets: Seq<Seq<char>>, images: Seq<FoundView>)
    ensures
        notes_every_image(assets, images, with_images(assets, images)),
    decreases images.len(),
{
    let after = with_images(assets, images);
    if images.len() > 0 {
        let init = images.drop_last();
        law_every_image_is_noted(assets, init);
        let before = with_images(assets, init);
        let last = images[images.len() - 1];
        let found = match last.attrs[0] {
            Some(src) => asset_url(src),
            None => None,
        };
        if found is Some {
            law_added(before, found->0);
        }
        assert(assets.is_prefix_of(after)) by {
            assert(assets =~= before.subrange(0, assets.len() as int));
            assert(assets =~= after.subrange(0, assets.len() as int)) by {
                assert forall|i: int| 0 <= i < assets.len() implies assets[i] == after[i] by {
                    assert(before.subrange(0, assets.len() as int)[i] == before[i]);
                    if found is Some {
                        assert(after.subrange(0, before.len() as int)[i] == after[i]);
                    }
                }
            }
        }
        assert forall|k: int|
            0 <= k < images.len() && (#[trigger] images[k]).attrs[0] is Some && asset_url(
                images[k].attrs[0]->0,
            ) is Some implies after.contains(asset_url(images[k].attrs[0]->0)->0) by {
            if k < images.len() - 1 {
                assert(init[k] == images[k]);
                assert(before.contains(asset_url(images[k].attrs[0]->0)->0));
            }
        }
        assert forall|url: Seq<char>| #[trigger] after.contains(url) implies assets.contains(url)
            || exists|k: int|
            0 <= k < images.len() && (#[trigger] images[k]).attrs[0] is Some && asset_url(
                images[k].attrs[0]->0,
            ) == Some(url) by {
            if before.contains(url) {
                if !assets.contains(url) {
                    let k = choose|k: int|
                        0 <= k < init.len() && (#[trigger] init[k]).attrs[0] is Some && asset_url(
                            init[k].attrs[0]->0,
                        ) == Some(url);
                    assert(images[k] == init[k]);
                }
            } else {
                assert(asset_url(images[images.len() - 1].attrs[0]->0) == Some(url));
            }
        }
    } else {
        assert(assets =~= after.subrange(0, assets.len() as int));
    }
}

/// What was found in the first element of a list is all that was found in it.
pub proof fn law_all_of_the_content(found: Seq<FoundInView>)
    ensures
        found.len() > 0 ==> in_first(found) == found[0].inner,
        found.len() == 0 ==> in_first(found).len() == 0,
{
}

/// A round looks at pages that are known and were not downloaded: at every one of them
/// where there are no more than fifty, and else at the first fifty.
pub proof fn law_rounds_look_at_new_pages(scraper: HtlScraper)
    ensures
        round_queue(scraper).len() <= 50,
        forall|path: Seq<char>| #[trigger]
            round_queue(scraper).contains(path) ==> scraper.state.discovered_files@.contains(path)
                && !scraper.state.downloaded_files@.contains(path),
        round_queue(scraper).len() < 50 ==> forall|path: Seq<char>|
            scraper.state.discovered_files@.contains(path)
                && !scraper.state.downloaded_files@.contains(path) ==> #[trigger] round_queue(
                scraper,
            ).contains(path),
        round_queue(scraper).is_prefix_of(
            minus(scraper.state.discovered_files@, scraper.state.downloaded_files@),
        ),
{
    let all = minus(scraper.state.discovered_files@, scraper.state.downloaded_files@);
    let queue = round_queue(scraper);
    lemma_minus(scraper.state.discovered_files@, scraper.state.downloaded_files@);
    law_first(all, 50);
    assert forall|path: Seq<char>| #[trigger] queue.contains(path) implies all.contains(path) by {
        let k = choose|k: int| 0 <= k < queue.len() && queue[k] == path;
        assert(all[k] == path);
    }
    assert(queue =~= all.subrange(0, queue.len() as int));
    if queue.len() < 50 {
        assert(queue =~= all);
    }
}

// ---------------------------------------------------------------------------
// Laws of downloading
// ---------------------------------------------------------------------------

/// To synchronise is to look at every page that is known.
pub proof fn law_synchronising_looks_at_every_page(scraper: HtlScraper)
    requires
        scraper.sync_mode,
    ensures
        pages_to_process(scraper) == scraper.state.discovered_files@,
{
}

/// Every asset that is known and was not downloaded is downloaded, and no other.
pub proof fn law_only_new_assets_are_downloaded(scraper: HtlScraper)
    ensures
        forall|url: Seq<char>| #[trigger]
            assets_to_download(scraper).contains(url) <==> scraper.state.discovered_assets@.contains(
                url,
            ) && !scraper.state.downloaded_assets@.contains(url),
{
    lemma_minus(scraper.state.discovered_assets@, scraper.state.downloaded_assets@);
}

/// A page that was downloaded before is either unchanged or updated, by whether it has the
/// hash that was noted of it; one that was not is neither.
pub proof fn law_pages_are_updated_or_unchanged(
    state: ScraperState,
    path: Seq<char>,
    hash: Seq<char>,
)
    ensures
        state.downloaded_files@.contains(path) <==> is_update(state, path, hash) || is_unchanged(
            state,
            path,
            hash,
        ),
        !(is_update(state, path, hash) && is_unchanged(state, path, hash)),
        is_unchanged(state, path, hash) ==> state.file_hashes@.dom().contains(path)
            && state.file_hashes@[path] == hash,
        state.downloaded_files@.contains(path) && state.file_hashes@.dom().contains(path)
            && state.file_hashes@[path] == hash ==> is_unchanged(state, path, hash),
{
}

/// A page that was downloaded is noted with its hash; what was noted of other pages stays.
pub proof fn law_downloads_are_noted(
    before: ScraperState,
    after: ScraperState,
    path: Seq<char>,
    hash: Seq<char>,
)
    ensures
        page_stored(before, after, path, hash) ==> {
            &&& after.downloaded_files@.contains(path)
            &&& after.file_hashes@.dom().contains(path) && after.file_hashes@[path] == hash
            &&& forall|other: Seq<char>|
                other != path ==> (#[trigger] after.downloaded_files@.contains(other)
                    <==> before.downloaded_files@.contains(other))
            &&& forall|other: Seq<char>|
                other != path ==> (#[trigger] after.file_hashes@.dom().contains(other)
                    <==> before.file_hashes@.dom().contains(other)) && after.file_hashes@[other]
                    == before.file_hashes@[other]
            &&& after.failed_files@ == before.failed_files@
            &&& after.discovered_files@ == before.discovered_files@
        },
        page_failed(before, after, path) ==> {
            &&& after.failed_files@.contains(path)
            &&& forall|other: Seq<char>|
                other != path ==> (#[trigger] after.failed_files@.contains(other)
                    <==> before.failed_files@.contains(other))
            &&& after.downloaded_files@ == before.downloaded_files@
            &&& after.file_hashes@ == before.file_hashes@
            &&& after.discovered_files@ == before.discovered_files@
        },
{
    law_added(before.downloaded_files@, path);
    law_added(before.failed_files@, path);
}

/// The share that is told is a whole number of percent, rounded down.
pub proof fn law_percent(current: int, total: int)
    requires
        0 <= current <= total,
        0 < total,
    ensures
        percent(current, total) * total <= current * 100,
        current * 100 < (percent(current, total) + 1) * total,
        percent(total, total) == 100,
{
    let p = current * 100 / total;
    assert(p * total <= current * 100 && current * 100 < (p + 1) * total) by (nonlinear_arith)
        requires
            p == current * 100 / total,
            0 < total,
    ;
    let q = total * 100 / total;
    assert(q == 100) by (nonlinear_arith)
        requires
            q == total * 100 / total,
            0 < total,
    ;
}

/// The state is kept each time that so many more are done, and at the end.
pub proof fn law_checkpoints(current: int, total: int, every: int, n: int)
    requires
        every > 0,
    ensures
        is_checkpoint(total, total, every),
        current == n * every ==> is_checkpoint(current, total, every),
        n * every < current < (n + 1) * every && current != total ==> !is_checkpoint(
            current,
            total,
            every,
        ),
{
    if current == n * every {
        assert(current % every == 0) by (nonlinear_arith)
            requires
                current == n * every,
                every > 0,
        ;
    }
    if n * every < current < (n + 1) * every {
        assert(current % every == current - n * every) by (nonlinear_arith)
            requires
                n * every < current < (n + 1) * every,
                every > 0,
        ;
    }
}

/// At the end of a run each count that is not zero is told, and no other.
pub proof fn law_counts_are_told(run: DownloadRun)
    ensures
        summary_lines(run)[0] == EventView::Log(
            "[OK] Processed "@ + decimal(run.todo@.len() as int) + " files:"@,
        ),
        run.new_count > 0 ==> summary_lines(run).contains(
            EventView::Log("  - "@ + decimal(run.new_count as int) + " new"@),
        ),
        run.updated_count > 0 ==> summary_lines(run).contains(
            EventView::Log("  - "@ + decimal(run.updated_count as int) + " updated"@),
        ),
        run.unchanged_count > 0 ==> summary_lines(run).contains(
            EventView::Log("  - "@ + decimal(run.unchanged_count as int) + " unchanged"@),
        ),
        run.failed_count > 0 ==> summary_lines(run).contains(
            EventView::Log("  - "@ + decimal(run.failed_count as int) + " failed"@),
        ),
        summary_lines(run).len() == 1 + (if run.new_count > 0 {
            1int
        } else {
            0
        }) + (if run.updated_count > 0 {
            1int
        } else {
            0
        }) + (if run.unchanged_count > 0 {
            1int
        } else {
            0
        }) + (if run.failed_count > 0 {
            1int
        } else {
            0
        }),
{
    let all = summary_lines(run);
    let a = count_line(run.new_count as int, " new"@).len() as int;
    let b = count_line(run.updated_count as int, " updated"@).len() as int;
    let c = count_line(run.unchanged_count as int, " unchanged"@).len() as int;
    if run.new_count > 0 {
        assert(all[1] == EventView::Log("  - "@ + decimal(run.new_count as int) + " new"@));
    }
    if run.updated_count > 0 {
        assert(all[1 + a] == EventView::Log(
            "  - "@ + decimal(run.updated_count as int) + " updated"@,
        ));
    }
    if run.unchanged_count > 0 {
        assert(all[1 + a + b] == EventView::Log(
            "  - "@ + decimal(run.unchanged_count as int) + " unchanged"@,
        ));
    }
    if run.failed_count > 0 {
        assert(all[1 + a + b + c] == EventView::Log(
            "  - "@ + decimal(run.failed_count as int) + " failed"@,
        ));
    }
}

// ---------------------------------------------------------------------------
// Laws of signing in
// ---------------------------------------------------------------------------

proof fn lemma_filled_places(
    inputs: Seq<FoundView>,
    username: Seq<char>,
    password: Seq<char>,
) -> (at: Seq<int>)
    ensures
        are_places(inputs, |i: int| filled(inputs[i], username, password) is Some, at),
        at.len() == filled_fields(inputs, username, password).len(),
        forall|k: int|
            0 <= k < at.len() ==> filled(inputs[#[trigger] at[k]], username, password) == Some(
                filled_fields(inputs, username, password)[k],
            ),
    decreases inputs.len(),
{
    let keep = |i: int| filled(inputs[i], username, password) is Some;
    if inputs.len() == 0 {
        assert(are_places(inputs, keep, Seq::empty()));
        Seq::empty()
    } else {
        let init = inputs.drop_last();
        let at = lemma_filled_places(init, username, password);
        let keep_before = |i: int| filled(init[i], username, password) is Some;
        assert(are_places(init, keep, at)) by {
            assert forall|i: int| 0 <= i < init.len() && #[trigger] keep(i) implies at.contains(
                i,
            ) by {
                assert(init[i] == inputs[i]);
                assert(keep_before(i));
            }
            assert forall|k: int| 0 <= k < at.len() implies 0 <= #[trigger] at[k] < init.len()
                && keep(at[k]) by {
                assert(keep_before(at[k]));
                assert(init[at[k]] == inputs[at[k]]);
            }
        }
        assert(inputs =~= init.push(inputs.last()));
        lemma_places_push(init, inputs.last(), keep, at);
        let more = if keep(init.len() as int) {
            at.push(init.len() as int)
        } else {
            at
        };
        assert forall|k: int| 0 <= k < more.len() implies filled(
            inputs[#[trigger] more[k]],
            username,
            password,
        ) == Some(filled_fields(inputs, username, password)[k]) by {
            if k < at.len() {
                assert(more[k] == at[k]);
                assert(init[at[k]] == inputs[at[k]]);
            }
        }
        more
    }
}

/// Every input of a form that has a name is sent, in order and under its name: the one for
/// the user name with that, the one for the password with that, and any other one with the
/// value that it has, or nothing where it has none.
pub proof fn law_every_input_is_sent(
    inputs: Seq<FoundView>,
    username: Seq<char>,
    password: Seq<char>,
)
    requires
        forall|i: int| 0 <= i < inputs.len() ==> (#[trigger] inputs[i]).attrs.len() >= 3,
    ensures
        exists|at: Seq<int>|
            {
                let fields = filled_fields(inputs, username, password);
                &&& #[trigger] rises(at)
                &&& at.len() == fields.len()
                &&& forall|i: int|
                    0 <= i < inputs.len() && (#[trigger] inputs[i]).attrs[0] is Some ==> at.contains(i)
                &&& forall|k: int|
                    0 <= k < at.len() ==> {
                        let attrs = inputs[#[trigger] at[k]].attrs;
                        let text = attrs[1] is None || attrs[1] == Some("text"@);
                        &&& 0 <= at[k] < inputs.len()
                        &&& attrs[0] == Some(fields[k].0)
                        &&& text && fields[k].0 == "username"@ ==> fields[k].1 == username
                        &&& attrs[1] == Some("password"@) && fields[k].0 == "password"@
                            ==> fields[k].1 == password
                        &&& !(text && fields[k].0 == "username"@) && !(attrs[1] == Some("password"@)
                            && fields[k].0 == "password"@) ==> fields[k].1 == (match attrs[2] {
                            Some(value) => value,
                            None => Seq::<char>::empty(),
                        })
                    }
            },
{
    let at = lemma_filled_places(inputs, username, password);
    let keep = |i: int| filled(inputs[i], username, password) is Some;
    reveal_strlit("");
    reveal_strlit("text");
    reveal_strlit("password");
    assert(""@ =~= Seq::<char>::empty());
    assert("text"@.len() != "password"@.len());
    assert forall|i: int|
        0 <= i < inputs.len() && (#[trigger] inputs[i]).attrs[0] is Some implies at.contains(i) by {
        assert(keep(i));
    }
    let fields = filled_fields(inputs, username, password);
    assert forall|k: int| 0 <= k < at.len() implies {
        let attrs = inputs[#[trigger] at[k]].attrs;
        let text = attrs[1] is None || attrs[1] == Some("text"@);
        &&& 0 <= at[k] < inputs.len()
        &&& attrs[0] == Some(fields[k].0)
        &&& text && fields[k].0 == "username"@ ==> fields[k].1 == username
        &&& attrs[1] == Some("password"@) && fields[k].0 == "password"@ ==> fields[k].1 == password
        &&& !(text && fields[k].0 == "username"@) && !(attrs[1] == Some("password"@) && fields[k].0
            == "password"@) ==> fields[k].1 == (match attrs[2] {
            Some(value) => value,
            None => Seq::<char>::empty(),
        })
    } by {
        assert(keep(at[k]));
        assert(filled(inputs[at[k]], username, password) == Some(fields[k]));
    }
    assert(rises(at));
}

/// The first form of the page is filled in: it goes where it says, and all its inputs are
/// sent. Without a form, or where the form does not say where it goes, signing in is not
/// possible.
pub proof fn law_first_form_is_filled(
    forms: Seq<FoundInView>,
    username: Seq<char>,
    password: Seq<char>,
)
    ensures
        forms.len() == 0 ==> filled_form(forms, username, password) == Err::<FormView, LoginError>(
            LoginError::NoForm,
        ),
        forms.len() > 0 && forms[0].outer.attrs[0] is None ==> filled_form(forms, username, password)
            == Err::<FormView, LoginError>(LoginError::NoAction),
        forms.len() > 0 && forms[0].outer.attrs[0] is Some ==> (filled_form(
            forms,
            username,
            password,
        ) matches Ok(form) && form.action == replaced(forms[0].outer.attrs[0]->0, "&amp;"@, "&"@)
            && form.fields == filled_fields(forms[0].inner, username, password)),
{
}

/// A page that does not ask to sign in needs no more; one that does is answered with its
/// form.
pub proof fn law_signing_in(
    body: Seq<char>,
    username: Seq<char>,
    password: Seq<char>,
    forms: Seq<FoundInView>,
)
    requires
        document_query_in(
            body,
            "form#kc-form-login"@,
            seq!["action"@],
            "input"@,
            seq!["name"@, "type"@, "value"@],
        ) == Some(forms),
    ensures
        !(has(body, "Sign in to your account"@)) <==> login_step(body, username, password) == Ok::<
            LoginView,
            LoginError,
        >(LoginView::SignedIn),
        has(body, "Sign in to your account"@) ==> (match filled_form(forms, username, password) {
            Ok(form) => login_step(body, username, password) == Ok::<LoginView, LoginError>(
                LoginView::Submit(form),
            ),
            Err(e) => login_step(body, username, password) == Err::<LoginView, LoginError>(e),
        }),
{
}

/// The address of a path is that of the site with the path behind it; the page alone is
/// asked for with a query behind that.
pub proof fn law_addresses(path: Seq<char>)
    ensures
        site_url(path) == "https://htl.dev"@ + path,
        document_url(path) == site_url(path) + "?document=true"@,
{
}

// ---------------------------------------------------------------------------
// Laws of telling
// ---------------------------------------------------------------------------

/// To tell something changes nothing else: what was to be told before is told first.
pub proof fn law_telling_changes_nothing(
    before: HtlScraper,
    after: HtlScraper,
    more: Seq<EventView>,
)
    requires
        only_logged(before, after, more),
    ensures
        after.state == before.state,
        after.output_dir == before.output_dir,
        after.sync_mode == before.sync_mode,
        after.events@.len() == before.events@.len() + more.len(),
        forall|i: int|
            0 <= i < before.events@.len() ==> (#[trigger] after.events@[i])@ == before.events@[i]@,
        forall|i: int|
            0 <= i < more.len() ==> after.events@[before.events@.len() + i]@ == #[trigger] more[i],
{
    let a = event_views(after.events@);
    let b = event_views(before.events@);
    assert(a.len() == after.events@.len() && b.len() == before.events@.len());
    assert forall|i: int| 0 <= i < before.events@.len() implies (#[trigger] after.events@[i])@
        == before.events@[i]@ by {
        assert(a[i] == b[i]);
    }
    assert forall|i: int| 0 <= i < more.len() implies after.events@[before.events@.len() + i]@
        == #[trigger] more[i] by {
        assert(a[b.len() + i] == more[i]);
    }
}

/// Discovery changes nothing but what is known of pages and assets.
pub proof fn law_discovery_changes_nothing_else(
    before: HtlScraper,
    after: HtlScraper,
    files: Seq<Seq<char>>,
    assets: Seq<Seq<char>>,
)
    requires
        only_discovered(before, after, files, assets),
    ensures
        after.state.discovered_files@ == files,
        after.state.discovered_assets@ == assets,
        after.state.downloaded_files == before.state.downloaded_files,
        after.state.downloaded_assets == before.state.downloaded_assets,
        after.state.failed_files == before.state.failed_files,
        after.state.file_hashes == before.state.file_hashes,
        after.events == before.events,
        after.output_dir == before.output_dir,
        after.sync_mode == before.sync_mode,
{
}

/// After each page how many of how many were tried is told; that a page was updated is told
/// exactly where it was, and the share exactly where the state is kept.
pub proof fn law_progress_is_told(path: Seq<char>, updated: bool, current: int, total: int)
    ensures
        ({
            let told = page_events(path, updated, current, total);
            let at: int = if updated {
                1
            } else {
                0
            };
            let kept = current % 10 == 0 || current == total;
            &&& told.len() == at + 1 + (if kept {
                1int
            } else {
                0
            })
            &&& updated ==> told[0] == EventView::Log("  [UPDATED] "@ + url_decoded(path))
            &&& told[at] == (EventView::Progress { current, total })
            &&& kept ==> told[at + 1] == EventView::Log(
                "  Progress: "@ + decimal(current) + "/"@ + decimal(total) + " ("@ + decimal(
                    current * 100 / total,
                ) + "%)"@,
            )
        }),
{
    reveal_strlit("  ");
    reveal_strlit("Progress");
    reveal_strlit(": ");
    reveal_strlit("  Progress: ");
    assert("  "@ + "Progress"@ + ": "@ =~= "  Progress: "@);
}

/// At the beginning of a run it is told how many pages are looked at.
pub proof fn law_downloads_are_announced(scraper: HtlScraper)
    ensures
        ({
            let told = download_lines(scraper);
            let total = pages_to_process(scraper).len() as int;
            let done = scraper.state.downloaded_files@.len() as int;
            &&& told[0] == EventView::Log("[2/4] Downloading markdown files..."@)
            &&& scraper.sync_mode ==> told[1] == EventView::Log(
                "[SYNC] Checking "@ + decimal(total) + " files for updates..."@,
            )
            &&& !scraper.sync_mode && done > 0 ==> told[1] == EventView::Log(
                "  "@ + decimal(done) + " already downloaded, "@ + decimal(total) + " new"@,
            )
            &&& total == 0 ==> told.last() == EventView::Log("[OK] All files already downloaded"@)
            &&& told.len() == 1 + (if scraper.sync_mode || done > 0 {
                1int
            } else {
                0
            }) + (if total == 0 {
                1int
            } else {
                0
            })
        }),
{
}

/// At the beginning of the download of assets it is told how many there are.
pub proof fn law_assets_are_announced(total: int)
    ensures
        asset_lines(total)[0] == EventView::Log("[3/4] Downloading "@ + decimal(total) + " assets..."@),
        asset_lines(total).len() == (if total == 0 {
            2int
        } else {
            1
        }),
{
}

/// At the end of a whole run it is told how many pages and assets there are, and how many
/// pages failed, if any did.
pub proof fn law_totals_are_told(state: ScraperState)
    ensures
        ({
            let told = total_lines(state);
            let failed = state.failed_files@.len() as int;
            &&& told[1] == EventView::Log(
                "Total: "@ + decimal(state.downloaded_files@.len() as int) + " markdown files, "@
                    + decimal(state.downloaded_assets@.len() as int) + " assets"@,
            )
            &&& told.len() == (if failed > 0 {
                3int
            } else {
                2
            })
            &&& failed > 0 ==> told[2] == EventView::Log(
                "Failed: "@ + decimal(failed) + " (run again to retry)"@,
            )
        }),
{
}

/// A round tells its number from one on, how many pages it found, and how many are known.
pub proof fn law_rounds_are_told(iteration: int, initial: int, count: int)
    ensures
        round_line(iteration, initial, count) == "  Iteration "@ + decimal(iteration + 1) + ": +"@
            + decimal(count - initial) + " files (total: "@ + decimal(count) + ")"@,
        discovered_line(count) == "[OK] Discovered "@ + decimal(count) + " files"@,
{
}

/// Discovery begins with six pages of links below the content root and one page that is
/// known, and it goes through its phases in order.
pub proof fn law_known_pages()
    ensures
        known_pages().len() == 6,
        known_pages().contains("/md/contacts/"@),
        known_pages().contains("/md/exercises/"@),
        known_pages().contains("/md/presentations/"@),
        known_pages().contains("/md/technologies/"@),
        known_pages().contains("/md/diploma-examination/"@),
        known_pages().contains("/md/assets/"@),
        known_index() == "/md/index.md"@,
        phase_kind(Phase::Root) == FetchKind::Root,
        phase_kind(Phase::Known) == FetchKind::Links,
        phase_kind(Phase::Rounds) == FetchKind::Document,
{
    let k = known_pages();
    assert(k[0] == "/md/contacts/"@ && k[1] == "/md/exercises/"@ && k[2] == "/md/presentations/"@
        && k[3] == "/md/technologies/"@ && k[4] == "/md/diploma-examination/"@ && k[5]
        == "/md/assets/"@);
}

/// Discovery ends: there are at most ten rounds of at most fifty pages.
pub proof fn law_discovery_ends(d: Discovery)
    requires
        d.wf(),
    ensures
        0 <= d.steps_left() <= 2 + 7 + 10 * 51,
        d.phase == Phase::Finished ==> d.steps_left() == 0,
        d.phase != Phase::Finished ==> d.steps_left() > 0,
        MAX_ROUNDS == 10,
        RATE_LIMIT_MS == 300,
{
    law_known_pages();
    assert((MAX_ROUNDS - 1 - d.iteration) * (ROUND_SIZE + 1) <= 9 * 51 && 0 <= (MAX_ROUNDS - 1
        - d.iteration) * (ROUND_SIZE + 1)) by (nonlinear_arith)
        requires
            0 <= d.iteration < MAX_ROUNDS,
            MAX_ROUNDS == 10,
            ROUND_SIZE == 50,
    ;
}

/// A round begins with what is known and not downloaded then.
pub proof fn law_round_begins(d: Discovery, scraper: HtlScraper, iteration: int)
    requires
        is_round(d, scraper, iteration),
    ensures
        d.phase == Phase::Rounds,
        d.iteration == iteration,
        d.at == 0,
        d.initial == scraper.state.discovered_files@.len(),
        texts(d.queue@) == round_queue(scraper),
{
}

/// How long to wait before the next request, in nanoseconds, when so much time has passed
/// since the last.
pub open spec fn wait_after(elapsed: int) -> int {
    if elapsed < RATE_LIMIT_MS * 1_000_000 {
        RATE_LIMIT_MS * 1_000_000 - elapsed
    } else {
        0
    }
}

/// Three tenths of a second lie between two requests, and no more is waited than that takes.
pub proof fn law_requests_are_apart(elapsed: int)
    requires
        0 <= elapsed,
    ensures
        elapsed + wait_after(elapsed) >= 300_000_000,
        elapsed <= 300_000_000 ==> elapsed + wait_after(elapsed) == 300_000_000,
        elapsed >= 300_000_000 ==> wait_after(elapsed) == 0,
{
}

/// Whether `after` is `before` with one more page counted, which was downloaded with a hash
/// or not at all: as new, as updated, as unchanged or as failed.
pub open spec fn counts_page(
    state: ScraperState,
    before: DownloadRun,
    after: DownloadRun,
    hash: Option<Seq<char>>,
) -> bool {
    let path = before.todo@[before.at as int]@;
    &&& after.todo == before.todo
    &&& after.at == before.at + 1
    &&& after.failed_count - before.failed_count == (if hash is None {
        1int
    } else {
        0
    })
    &&& after.new_count - before.new_count == (if hash is Some
        && !state.downloaded_files@.contains(path) {
        1int
    } else {
        0
    })
    &&& after.updated_count - before.updated_count == (if hash is Some && is_update(
        state,
        path,
        hash->0,
    ) {
        1int
    } else {
        0
    })
    &&& after.unchanged_count - before.unchanged_count == (if hash is Some && is_unchanged(
        state,
        path,
        hash->0,
    ) {
        1int
    } else {
        0
    })
}

/// Each page that is tried is counted once: as failed where it could not be downloaded, as
/// new where it was not downloaded before, as unchanged where it has the hash that was noted
/// of it, and else as updated. The other counts stay.
pub proof fn law_each_page_is_counted_once(
    state: ScraperState,
    before: DownloadRun,
    after: DownloadRun,
    hash: Option<Seq<char>>,
)
    requires
        counts_page(state, before, after, hash),
    ensures
        ({
            let path = before.todo@[before.at as int]@;
            let known = state.downloaded_files@.contains(path);
            let noted = state.file_hashes@.dom().contains(path);
            &&& after.new_count + after.updated_count + after.unchanged_count + after.failed_count
                == before.new_count + before.updated_count + before.unchanged_count
                + before.failed_count + 1
            &&& hash is None <==> after.failed_count == before.failed_count + 1
            &&& hash is Some && !known <==> after.new_count == before.new_count + 1
            &&& hash is Some && known && noted && state.file_hashes@[path] == hash->0
                <==> after.unchanged_count == before.unchanged_count + 1
            &&& hash is Some && known && !(noted && state.file_hashes@[path] == hash->0)
                <==> after.updated_count == before.updated_count + 1
            &&& after.at == before.at + 1
            &&& after.todo == before.todo
        }),
{
}

} // verus!
