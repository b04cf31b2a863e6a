//! The decisions of the content server.
//!
//! A request is answered in two moves. The first says which dictionary or
//! file the request is about, or refuses it; then the caller asks the engine
//! or the disk; the second makes the response of what came back. The
//! dictionary is named by a query parameter on the first contact and by the
//! selection cookie afterwards, and the cookie is checked against the live
//! registry every time.

use crate::base::{
    lemma_listing_retires_generation, lemma_replay_never_reuses, lemma_step_keeps_wf, retired,
    AppState, AppStateView, DictionaryHandle, HandleView, ReloadEventView,
};
use crate::assets::{
    cached, climbs, content_type, extension_of, file_path, guessed_media_type, has_dot_dot_slash,
    has_extension, is_separator, is_traversal, joined, lemma_dot_dot_slash_climbs,
    lemma_relative_stays_below, package_dir, package_root, relative, stored, AssetCache,
};
use crate::catalog::{find_by_id, first_with_id, lists_id};
use crate::cookie::{format_cookie, parse_id, parsed_id, selection_cookie};
use crate::settings::{Settings, SettingsView};
use vstd::prelude::*;
use vstd::string::StringExecFns;

verus! {

/// Why a request is refused.
#[derive(Clone, Copy, Debug, PartialEq, Eq)]
pub enum RequestError {
    /// What the request asks for is absent: no cookie, no such dictionary, no
    /// such entry, resource or file.
    NotFound,
    /// What the request says is wrong: a cookie that names no id, a path that
    /// climbs out of the package.
    BadClientInput,
}

/// What the content server answers.
#[derive(Debug, PartialEq, Eq)]
pub enum Response {
    /// Nothing is there.
    NotFound,
    /// The request is wrong.
    BadRequest,
    /// The page of an entry, with the value of `Set-Cookie` that selects its
    /// dictionary.
    Page { cookie: String, html: String },
    /// A resource of the selected dictionary.
    Resource(Vec<u8>),
    /// A file of the selected dictionary's package.
    File { content_type: String, content: Vec<u8> },
}

/// A response, with every text as a sequence of characters.
pub enum ResponseView {
    NotFound,
    BadRequest,
    Page { cookie: Seq<char>, html: Seq<char> },
    Resource(Seq<u8>),
    File { content_type: Seq<char>, content: Seq<u8> },
}

impl View for Response {
    type V = ResponseView;

    open spec fn view(&self) -> ResponseView {
        match *self {
            Response::NotFound => ResponseView::NotFound,
            Response::BadRequest => ResponseView::BadRequest,
            Response::Page { cookie, html } => ResponseView::Page { cookie: cookie@, html: html@ },
            Response::Resource(bytes) => ResponseView::Resource(bytes@),
            Response::File { content_type, content } => ResponseView::File {
                content_type: content_type@,
                content: content@,
            },
        }
    }
}

/// The response that tells a client of a refusal.
pub open spec fn refusal(error: RequestError) -> ResponseView {
    match error {
        RequestError::NotFound => ResponseView::NotFound,
        RequestError::BadClientInput => ResponseView::BadRequest,
    }
}

/// Makes the response that tells a client of a refusal.
pub fn refuse(error: RequestError) -> (response: Response)
    ensures
        response@ == refusal(error),
{
    match error {
        RequestError::NotFound => Response::NotFound,
        RequestError::BadClientInput => Response::BadRequest,
    }
}

/// The id that the selection cookie of a request names: a request without the
/// cookie finds nothing, and a cookie whose value names no id is wrong.
pub open spec fn selected_id(cookie: Option<Seq<char>>) -> Result<u32, RequestError> {
    match cookie {
        None => Err(RequestError::NotFound),
        Some(value) => match parsed_id(value) {
            Some(id) => Ok(id),
            None => Err(RequestError::BadClientInput),
        },
    }
}

/// The value of an optional text.
pub open spec fn text_view(text: Option<&str>) -> Option<Seq<char>> {
    match text {
        Some(value) => Some(value@),
        None => None,
    }
}

/// Reads the id of the selected dictionary from the cookie of a request.
pub fn dict_id_of(cookie: Option<&str>) -> (id: Result<u32, RequestError>)
    ensures
        id == selected_id(text_view(cookie)),
{
    match cookie {
        None => Err(RequestError::NotFound),
        Some(value) => match parse_id(value) {
            Some(id) => Ok(id),
            None => Err(RequestError::BadClientInput),
        },
    }
}

/// The dictionary that an entry request is about: the live one with the id of
/// the query, else nothing is found.
pub open spec fn entry_target<H>(state: AppStateView<H>, dict_id: u32) -> Result<
    HandleView<H>,
    RequestError,
> {
    if state.dicts.contains_key(dict_id) {
        Ok(state.dicts[dict_id])
    } else {
        Err(RequestError::NotFound)
    }
}

/// The dictionary that a resource request is about: the live one with the id
/// that the cookie names. A cookie that names a dictionary of a former
/// generation finds nothing.
pub open spec fn resource_target<H>(state: AppStateView<H>, cookie: Option<Seq<char>>) -> Result<
    HandleView<H>,
    RequestError,
> {
    match selected_id(cookie) {
        Ok(id) => entry_target(state, id),
        Err(error) => Err(error),
    }
}

/// The handle of a target, by its view.
pub open spec fn target_view<H>(target: Result<&DictionaryHandle<H>, RequestError>) -> Result<
    HandleView<H>,
    RequestError,
> {
    match target {
        Ok(handle) => Ok(handle@),
        Err(error) => Err(error),
    }
}

/// First move of an entry request: the dictionary whose engine is to look the
/// term up.
pub fn find_entry<H>(state: &AppState<H>, dict_id: u32) -> (target: Result<
    &DictionaryHandle<H>,
    RequestError,
>)
    ensures
        target_view(target) == entry_target(state@, dict_id),
{
    match state.get_dictionary(dict_id) {
        Some(handle) => Ok(handle),
        None => Err(RequestError::NotFound),
    }
}

/// First move of a resource request: the dictionary whose engine is to look
/// the resource up.
pub fn find_resource<'a, H>(state: &'a AppState<H>, cookie: Option<&str>) -> (target: Result<
    &'a DictionaryHandle<H>,
    RequestError,
>)
    ensures
        target_view(target) == resource_target(state@, text_view(cookie)),
{
    match dict_id_of(cookie) {
        Ok(id) => find_entry(state, id),
        Err(error) => Err(error),
    }
}

/// A cookie that names a retired id finds nothing.
pub proof fn lemma_retired_id_finds_nothing<H>(
    state: AppStateView<H>,
    cookie: Seq<char>,
    id: u32,
)
    requires
        parsed_id(cookie) == Some(id),
        retired(state, id),
    ensures
        resource_target(state, Some(cookie)) == Err::<HandleView<H>, RequestError>(
            RequestError::NotFound,
        ),
{
}

/// The selection cookie fails closed: a cookie that names a dictionary of a
/// generation that a reload has since replaced finds nothing, whatever
/// happened after the directory of that reload was listed, and so never
/// reaches a dictionary of the new generation.
pub proof fn lemma_stale_cookie_finds_nothing<H>(
    state: AppStateView<H>,
    names: Seq<Seq<char>>,
    later: Seq<ReloadEventView<H>>,
    cookie: Seq<char>,
    id: u32,
)
    requires
        state.wf(),
        state.reload is Listing,
        state.dicts.contains_key(id),
        parsed_id(cookie) == Some(id),
    ensures
        resource_target(state.step(ReloadEventView::Listed(names)).0.replay(later), Some(cookie))
            == Err::<HandleView<H>, RequestError>(RequestError::NotFound),
{
    let listed = state.step(ReloadEventView::Listed(names)).0;
    lemma_step_keeps_wf(state, ReloadEventView::Listed(names));
    lemma_listing_retires_generation(state, names, id);
    lemma_replay_never_reuses(listed, later, id);
}

/// The page up to the style of the dictionary.
pub const PAGE_HEAD: &'static str =
    "\n<!DOCTYPE html>\n<html lang=\"en\">\n    <head>\n        <meta charset=\"UTF-8\" />\n        <meta name=\"viewport\" content=\"width=device-width, initial-scale=1.0\" />\n        <title></title>\n        <style>";

/// The page between the style and the script of the dictionary.
pub const PAGE_AFTER_STYLE: &'static str = "</style>\n        <script>";

/// The page between the script of the dictionary and the bootstrap script.
pub const PAGE_AFTER_SCRIPT: &'static str = "</script>\n        <script>";

/// The page between the bootstrap script and the entry.
pub const PAGE_BEFORE_BODY: &'static str = "</script>\n    </head>\n    <body>";

/// The page behind the entry.
pub const PAGE_TAIL: &'static str = "</body>\n</html>\n            ";

/// The page of an entry: one document of the dictionary's style and script,
/// the bootstrap script and the entry, in this order.
pub open spec fn entry_document(
    style: Seq<char>,
    script: Seq<char>,
    bootstrap: Seq<char>,
    content: Seq<char>,
) -> Seq<char> {
    PAGE_HEAD@ + style + PAGE_AFTER_STYLE@ + script + PAGE_AFTER_SCRIPT@ + bootstrap
        + PAGE_BEFORE_BODY@ + content + PAGE_TAIL@
}

/// What came of asking the engine for an entry or a resource.
#[derive(Debug, PartialEq, Eq)]
pub enum Lookup<T> {
    /// The engine found it.
    Found(T),
    /// The engine has nothing of that name.
    Absent,
    /// The engine did not answer in time.
    TimedOut,
}

impl<T> Lookup<T> {
    /// What the engine found. An answer that did not come in time counts as
    /// nothing found, so that a slow engine costs a client one request and
    /// not more.
    pub open spec fn found(self) -> Option<T> {
        match self {
            Lookup::Found(value) => Some(value),
            Lookup::Absent => None,
            Lookup::TimedOut => None,
        }
    }

    /// What the engine found, if it found something in time.
    pub fn into_found(self) -> (value: Option<T>)
        ensures
            value == self.found(),
    {
        match self {
            Lookup::Found(value) => Some(value),
            Lookup::Absent => None,
            Lookup::TimedOut => None,
        }
    }
}

/// The response to an entry request, of what the engine found: without an
/// entry nothing is found; with one the page is sent and the client is made
/// to select this dictionary. Where the dictionary gave no style and script,
/// the page has none.
pub open spec fn entry_response(
    dict_id: u32,
    content: Option<Seq<char>>,
    fragments: Option<(Seq<char>, Seq<char>)>,
    bootstrap: Seq<char>,
) -> ResponseView {
    match content {
        None => ResponseView::NotFound,
        Some(entry) => {
            let (style, script) = match fragments {
                Some(pair) => pair,
                None => (Seq::empty(), Seq::empty()),
            };
            ResponseView::Page {
                cookie: selection_cookie(dict_id),
                html: entry_document(style, script, bootstrap, entry),
            }
        },
    }
}

/// The value of an optional owned text.
pub open spec fn string_view(text: Option<String>) -> Option<Seq<char>> {
    match text {
        Some(value) => Some(value@),
        None => None,
    }
}

/// The values of an optional pair of texts.
pub open spec fn pair_view(pair: Option<(String, String)>) -> Option<(Seq<char>, Seq<char>)> {
    match pair {
        Some((first, second)) => Some((first@, second@)),
        None => None,
    }
}

/// Second move of an entry request: the response of what the engine found
/// for the term (`content`), of the style and script of the dictionary
/// (`fragments`, `None` where it could not give them) and of the bootstrap
/// script.
pub fn get_entry(
    dict_id: u32,
    content: Lookup<String>,
    fragments: Option<(String, String)>,
    bootstrap: &str,
) -> (response: Response)
    ensures
        response@ == entry_response(
            dict_id,
            string_view(content.found()),
            pair_view(fragments),
            bootstrap@,
        ),
{
    match content.into_found() {
        None => Response::NotFound,
        Some(entry) => {
            let (style, script) = match fragments {
                Some(pair) => pair,
                None => (String::new(), String::new()),
            };
            let mut html = PAGE_HEAD.to_owned();
            html.append(style.as_str());
            html.append(PAGE_AFTER_STYLE);
            html.append(script.as_str());
            html.append(PAGE_AFTER_SCRIPT);
            html.append(bootstrap);
            html.append(PAGE_BEFORE_BODY);
            html.append(entry.as_str());
            html.append(PAGE_TAIL);
            Response::Page { cookie: format_cookie(dict_id), html }
        },
    }
}

/// The response to a resource request, of what the engine found.
pub open spec fn resource_response(found: Option<Seq<u8>>) -> ResponseView {
    match found {
        Some(bytes) => ResponseView::Resource(bytes),
        None => ResponseView::NotFound,
    }
}

/// The value of optional bytes.
pub open spec fn bytes_view(bytes: Option<Vec<u8>>) -> Option<Seq<u8>> {
    match bytes {
        Some(value) => Some(value@),
        None => None,
    }
}

/// Second move of a resource request: the response of what the engine found
/// under the name.
pub fn get_resource(found: Lookup<Vec<u8>>) -> (response: Response)
    ensures
        response@ == resource_response(bytes_view(found.found())),
{
    match found.into_found() {
        Some(bytes) => Response::Resource(bytes),
        None => Response::NotFound,
    }
}

/// What a static-file request is about, with every text as a sequence of
/// characters.
pub struct StaticFileView {
    pub root: Seq<char>,
    pub file: Seq<char>,
    pub content_type: Seq<char>,
}

/// What a static-file request is about: the directory of the package, the
/// file below it to read, and the content type to serve it under.
#[derive(Debug, PartialEq, Eq)]
pub struct StaticFile {
    pub root: String,
    pub file: String,
    pub content_type: String,
}

impl View for StaticFile {
    type V = StaticFileView;

    open spec fn view(&self) -> StaticFileView {
        StaticFileView { root: self.root@, file: self.file@, content_type: self.content_type@ }
    }
}

/// The file that a static-file request is about. The cookie names the
/// dictionary, the catalog gives the name of its package, and the path is
/// joined below the directory of that package. A dictionary that the catalog
/// does not list is not found, whatever the path; under a listed dictionary a
/// path that climbs is wrong.
pub open spec fn static_target(
    settings: SettingsView,
    cookie: Option<Seq<char>>,
    path: Seq<char>,
) -> Result<StaticFileView, RequestError> {
    match selected_id(cookie) {
        Err(error) => Err(error),
        Ok(id) => if !lists_id(settings.config.dicts, id) {
            Err(RequestError::NotFound)
        } else if climbs(path) {
            Err(RequestError::BadClientInput)
        } else {
            Ok(
                StaticFileView {
                    root: package_root(
                        settings.config.dict_dir,
                        settings.config.dicts[first_with_id(settings.config.dicts, id)].name,
                    ),
                    file: joined(
                        settings.config.dict_dir,
                        settings.config.dicts[first_with_id(settings.config.dicts, id)].name,
                        path,
                    ),
                    content_type: guessed_media_type(extension_of(path)),
                },
            )
        },
    }
}

/// The file of a target, by its view.
pub open spec fn static_view(target: Result<StaticFile, RequestError>) -> Result<
    StaticFileView,
    RequestError,
> {
    match target {
        Ok(file) => Ok(file@),
        Err(error) => Err(error),
    }
}

/// First move of a static-file request: the file to read, and the content
/// type to serve it under.
pub fn get_static_file(settings: &Settings, cookie: Option<&str>, path: &str) -> (target: Result<
    StaticFile,
    RequestError,
>)
    ensures
        static_view(target) == static_target(settings@, text_view(cookie), path@),
        target matches Ok(found) ==> (!has_extension(path@) ==> found.content_type@
            == "application/octet-stream"@),
{
    let id = match dict_id_of(cookie) {
        Ok(id) => id,
        Err(error) => {
            return Err(error);
        },
    };
    match find_by_id(&settings.config.dicts, id) {
        None => Err(RequestError::NotFound),
        Some(at) => {
            if is_traversal(path) {
                return Err(RequestError::BadClientInput);
            }
            let dict_dir = settings.config.dict_dir.as_str();
            let name = settings.config.dicts[at].name.as_str();
            Ok(
                StaticFile {
                    root: package_dir(dict_dir, name),
                    file: file_path(dict_dir, name, path),
                    content_type: content_type(path),
                },
            )
        },
    }
}

/// A request for a path that holds `../` is refused, whoever asks and
/// whatever the catalog lists: as not found where the cookie is missing or
/// names a dictionary off the catalog, else as wrong.
pub proof fn lemma_climbing_path_is_refused(
    settings: SettingsView,
    cookie: Option<Seq<char>>,
    path: Seq<char>,
    i: int,
)
    requires
        has_dot_dot_slash(path, i),
    ensures
        static_target(settings, cookie, path) is Err,
{
    lemma_dot_dot_slash_climbs(path, i);
}

/// The file of a static-file request lies below the directory of the
/// package, as far as the text of the path tells: it is that directory, a
/// separator and a rest that neither begins with a separator nor climbs.
pub proof fn lemma_static_file_stays_below_root(
    settings: SettingsView,
    cookie: Option<Seq<char>>,
    path: Seq<char>,
)
    requires
        static_target(settings, cookie, path) is Ok,
    ensures
        ({
            let target = static_target(settings, cookie, path)->Ok_0;
            let rest = relative(path);
            &&& target.file == target.root + "/"@ + rest
            &&& !climbs(rest)
            &&& (rest.len() == 0 || !is_separator(rest[0]))
        }),
{
    lemma_relative_stays_below(path);
}

/// Second move of a static-file request: the response from the cache, where
/// the cache holds the file.
pub fn cached_file(cache: &AssetCache, target: &StaticFile) -> (response: Option<Response>)
    requires
        cache.wf(),
    ensures
        match response {
            Some(hit) => cached(cache@.assets, target.file@) is Some && hit@
                == (ResponseView::File {
                content_type: target.content_type@,
                content: cached(cache@.assets, target.file@)->0,
            }),
            None => cached(cache@.assets, target.file@) is None,
        },
{
    match cache.get(target.file.as_str()) {
        Some(content) => Some(
            Response::File { content_type: target.content_type.clone(), content: content.clone() },
        ),
        None => None,
    }
}

/// What the disk gave for a file: its content, or nothing where there is no
/// regular file of that path or it could not be read.
pub open spec fn file_response(target: StaticFileView, read: Option<Seq<u8>>) -> ResponseView {
    match read {
        Some(content) => ResponseView::File { content_type: target.content_type, content },
        None => ResponseView::NotFound,
    }
}

/// Last move of a static-file request that the cache could not answer: the
/// response of what was read from the disk. What was read is offered to the
/// cache, which, unless it may hold no file at all, takes it if and only if
/// it is no larger than one mebibyte.
pub fn serve_file(cache: &mut AssetCache, target: StaticFile, read: Option<Vec<u8>>) -> (response:
    Response)
    requires
        old(cache).wf(),
    ensures
        final(cache).wf(),
        response@ == file_response(target@, bytes_view(read)),
        final(cache)@.capacity == old(cache)@.capacity,
        final(cache)@.assets == match read {
            Some(content) => stored(
                old(cache)@.assets,
                old(cache)@.capacity,
                target.file@,
                content@,
            ),
            None => old(cache)@.assets,
        },
{
    match read {
        None => Response::NotFound,
        Some(content) => {
            cache.insert(target.file, content.clone());
            Response::File { content_type: target.content_type, content }
        },
    }
}

/// Name of the file that holds the bootstrap script of every page.
pub const DICT_JS_FILE: &'static str = "entry.js";

/// The bootstrap script, kept once it was read. It is empty until then.
pub struct ScriptCache {
    text: String,
}

impl View for ScriptCache {
    type V = Seq<char>;

    closed spec fn view(&self) -> Seq<char> {
        self.text@
    }
}

impl ScriptCache {
    /// A cache that holds no script yet.
    pub fn new() -> (cache: Self)
        ensures
            cache@ == Seq::<char>::empty(),
    {
        ScriptCache { text: String::new() }
    }

    /// The script, where the cache holds one; else the file is to be read.
    pub fn script(&self) -> (script: Option<&str>)
        ensures
            match script {
                Some(text) => text@ == self@ && self@.len() > 0,
                None => self@.len() == 0,
            },
    {
        if self.text.as_str().is_empty() {
            None
        } else {
            Some(self.text.as_str())
        }
    }

    /// Takes in what reading the file gave, and gives the script of this
    /// page. The cache is written once: what it holds stays, and a reading
    /// that failed leaves it empty, so that the next page reads again.
    pub fn fill(&mut self, read: Option<String>) -> (script: &str)
        ensures
            final(self)@ == if old(self)@.len() > 0 {
                old(self)@
            } else {
                match read {
                    Some(text) => text@,
                    None => Seq::<char>::empty(),
                }
            },
            script@ == final(self)@,
    {
        if self.text.as_str().is_empty() {
            if let Some(text) = read {
                self.text = text;
            }
        }
        self.text.as_str()
    }
}

/// The first port that the content server tries to listen on.
pub const FIRST_PORT: u32 = 19000;

/// The number of ports that the content server tries, one after the other.
pub const PORT_ATTEMPTS: u32 = 100;

/// The port that the content server tries at the given attempt, counted from
/// zero; `None` when all attempts are used up.
pub fn candidate_port(attempt: u32) -> (port: Option<u32>)
    ensures
        port == if attempt < PORT_ATTEMPTS {
            Some((FIRST_PORT + attempt) as u32)
        } else {
            None
        },
{
    if attempt < PORT_ATTEMPTS {
        Some(FIRST_PORT + attempt)
    } else {
        None
    }
}

} // verus!
