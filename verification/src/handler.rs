//! Routing and dispatch of parsed requests.
//!
//! Handling a request alternates decisions with filesystem work. The
//! decisions are made here: [`handle_request`] and [`resume`] return
//! either the finished result or the filesystem query to perform next,
//! together with the [`Pending`] state to resume with once its answer is
//! known. The caller performs the queries.
use vstd::prelude::*;
use vstd::utf8::encode_utf8;

use crate::config::{
    best_route, method_name, method_of, Method, Route, RouteModel, ServerConfig, ServerModel,
};
use crate::dirlisting::{entries_view, listing_text, render};
use crate::errors::{error_page_path, error_page_text, error_response};
use crate::mime::{file_extension, mime_for_extension, mime_type};
use crate::path_resolve::{
    has_parent_component, lemma_resolve_stays_under_root, path_join, rel_start, resolve,
    spec_resolve,
};
use crate::request::{cookie_value, header_lookup, Request};
use crate::response::{set_header_spec, str_bytes, Response};
use crate::session::{hex_of, is_session_id, next_count, visits_of, SessionStore};
use crate::text::{
    split_ranges, chars_of, dec, dec_string, eq_ignore_ascii_case, eq_ignore_case, has_prefix,
    has_suffix, push_char, push_dec, range_eq_str, split_once_at, starts_with, string_from_range,
    to_uppercase, uppercase,
};
use crate::upload::{
    extract_boundary, files_view, parse_multipart, sanitize_filename, spec_boundary,
    spec_parse_multipart, spec_sanitize, UploadedFile,
};

verus! {

// ---------------------------------------------------------------------
// Results, queries and answers
// ---------------------------------------------------------------------

/// Outcome of routing+dispatching a request.
pub enum HandlerResult {
    /// The response is fully ready to be sent.
    Response(Response),
    /// The request must be handed off to a CGI process.
    Cgi(CgiRequest),
}

/// Everything needed to fork and run a CGI script for a request.
pub struct CgiRequest {
    pub interpreter: String,
    pub script_path: String,
    pub cwd: String,
    pub env: Vec<(String, String)>,
    pub body: Vec<u8>,
    pub session_id: String,
    pub new_session: bool,
}

/// What a path names on the filesystem.
#[derive(Debug, Clone, Copy, PartialEq, Eq, Structural)]
pub enum FileKind {
    Dir,
    File,
    /// Something else (a socket, a device, ...).
    Other,
    /// Nothing, or nothing that could be examined.
    Missing,
}

/// How removing a file went.
#[derive(Debug, Clone, Copy, PartialEq, Eq, Structural)]
pub enum RemoveOutcome {
    Removed,
    PermissionDenied,
    Failed,
}

/// Filesystem work that handling a request needs done.
pub enum FsQuery {
    /// What `path` names (answer: [`FsAnswer::Kind`]).
    Stat(String),
    /// The contents of a file (answer: [`FsAnswer::Data`]).
    Read(String),
    /// The entries of a directory: name and whether it is a directory
    /// (answer: [`FsAnswer::Entries`]).
    List(String),
    /// Create a directory and its parents (answer: [`FsAnswer::Done`]).
    CreateDirs(String),
    /// Write a file, replacing it (answer: [`FsAnswer::Done`]).
    Write(String, Vec<u8>),
    /// Remove a file (answer: [`FsAnswer::Removal`]).
    Remove(String),
    /// The canonical absolute form of a path (answer: [`FsAnswer::Path`]).
    Canonicalize(String),
}

/// The answer to an [`FsQuery`].
pub enum FsAnswer {
    Kind(FileKind),
    Data(Option<Vec<u8>>),
    Entries(Option<Vec<(String, bool)>>),
    Done(bool),
    Removal(RemoveOutcome),
    Path(Option<String>),
}

/// Where handling a request stands while a query is outstanding.
pub enum Stage {
    /// Reading the custom page of an error response.
    ErrorPage { code: u16, allow: Option<String> },
    /// Examining the target of a GET.
    GetTarget { route: Route, path: String },
    /// Examining the index file of a directory.
    GetIndex { route: Route, path: String, index_path: String },
    /// Listing a directory.
    GetListing { path: String },
    /// Reading a file to serve.
    ServeFile { path: String },
    /// Finding the absolute path of a CGI script.
    RunCgi { path: String, interpreter: String },
    /// Examining the target of a POST.
    PostTarget { route: Route, path: String },
    /// Creating the directory uploads are stored in.
    UploadDir { store_dir: String, files: Vec<UploadedFile> },
    /// Writing uploaded file `next`.
    UploadFile { store_dir: String, files: Vec<UploadedFile>, next: usize, saved: Vec<String> },
    /// Creating the parent directory of a raw upload.
    RawParent { path: String },
    /// Examining whether a raw upload's target is a directory.
    RawIsDir { path: String },
    /// Examining whether a raw upload's file exists.
    RawExists { target: String },
    /// Writing a raw upload.
    RawWrite { target: String, created: bool },
    /// Examining the target of a DELETE.
    DeleteTarget { path: String },
    /// Removing a file.
    DeleteRemove,
}

/// The state to resume handling with, once the query is answered.
pub struct Pending {
    pub(crate) session_id: String,
    pub(crate) new_session: bool,
    pub(crate) stage: Stage,
}

/// A stage that can be resumed: an upload is at one of its files.
pub open spec fn stage_ok(s: Stage) -> bool {
    match s {
        Stage::UploadFile { files, next, saved, .. } => next < files@.len(),
        _ => true,
    }
}

impl Pending {
    #[verifier::type_invariant]
    spec fn well_formed(self) -> bool {
        stage_ok(self.stage)
    }

    /// Model of the stage handling stands at.
    pub closed spec fn stage_model(self) -> StageModel {
        stage_view(self.stage)
    }

    /// The session the request belongs to.
    pub closed spec fn session_id(self) -> Seq<char> {
        self.session_id@
    }

    /// Whether that session was created for this request.
    pub closed spec fn is_new_session(self) -> bool {
        self.new_session
    }
}

/// One step of handling a request.
pub enum Step {
    /// Handling is finished.
    Done(HandlerResult),
    /// Perform the query, then call [`resume`] with its answer.
    Ask(FsQuery, Pending),
}

// ---------------------------------------------------------------------
// Models
// ---------------------------------------------------------------------

/// Model of a response: status, headers and body.
pub struct ResponseModel {
    pub status: u16,
    pub headers: Seq<(Seq<char>, Seq<char>)>,
    pub body: Seq<u8>,
}

/// Model of a CGI invocation.
pub struct CgiModel {
    pub interpreter: Seq<char>,
    pub script_path: Seq<char>,
    pub cwd: Seq<char>,
    pub env: Seq<(Seq<char>, Seq<char>)>,
    pub body: Seq<u8>,
    pub session_id: Seq<char>,
    pub new_session: bool,
}

pub enum ResultModel {
    Response(ResponseModel),
    Cgi(CgiModel),
}

pub enum QueryModel {
    Stat(Seq<char>),
    Read(Seq<char>),
    List(Seq<char>),
    CreateDirs(Seq<char>),
    Write(Seq<char>, Seq<u8>),
    Remove(Seq<char>),
    Canonicalize(Seq<char>),
}

pub enum AnswerModel {
    Kind(FileKind),
    Data(Option<Seq<u8>>),
    Entries(Option<Seq<(Seq<char>, bool)>>),
    Done(bool),
    Removal(RemoveOutcome),
    Path(Option<Seq<char>>),
}

pub enum StageModel {
    ErrorPage { code: u16, allow: Option<Seq<char>> },
    GetTarget { route: RouteModel, path: Seq<char> },
    GetIndex { route: RouteModel, path: Seq<char>, index_path: Seq<char> },
    GetListing { path: Seq<char> },
    ServeFile { path: Seq<char> },
    RunCgi { path: Seq<char>, interpreter: Seq<char> },
    PostTarget { route: RouteModel, path: Seq<char> },
    UploadDir { store_dir: Seq<char>, files: Seq<(Seq<char>, Seq<u8>)> },
    UploadFile {
        store_dir: Seq<char>,
        files: Seq<(Seq<char>, Seq<u8>)>,
        next: int,
        saved: Seq<Seq<char>>,
    },
    RawParent { path: Seq<char> },
    RawIsDir { path: Seq<char> },
    RawExists { target: Seq<char> },
    RawWrite { target: Seq<char>, created: bool },
    DeleteTarget { path: Seq<char> },
    DeleteRemove,
}

pub enum StepModel {
    Done(ResultModel),
    Ask(QueryModel, StageModel),
}

pub open spec fn opt_str(o: Option<String>) -> Option<Seq<char>> {
    match o {
        Some(s) => Some(s@),
        None => None,
    }
}

pub open spec fn pairs_model(v: Seq<(String, String)>) -> Seq<(Seq<char>, Seq<char>)> {
    v.map_values(|p: (String, String)| (p.0@, p.1@))
}

pub open spec fn strings_model(v: Seq<String>) -> Seq<Seq<char>> {
    v.map_values(|s: String| s@)
}

pub open spec fn response_model(r: Response) -> ResponseModel {
    ResponseModel { status: r.status, headers: r.headers_model(), body: r.body@ }
}

pub open spec fn cgi_model(c: CgiRequest) -> CgiModel {
    CgiModel {
        interpreter: c.interpreter@,
        script_path: c.script_path@,
        cwd: c.cwd@,
        env: pairs_model(c.env@),
        body: c.body@,
        session_id: c.session_id@,
        new_session: c.new_session,
    }
}

pub open spec fn result_model(r: HandlerResult) -> ResultModel {
    match r {
        HandlerResult::Response(resp) => ResultModel::Response(response_model(resp)),
        HandlerResult::Cgi(c) => ResultModel::Cgi(cgi_model(c)),
    }
}

pub open spec fn query_model(q: FsQuery) -> QueryModel {
    match q {
        FsQuery::Stat(p) => QueryModel::Stat(p@),
        FsQuery::Read(p) => QueryModel::Read(p@),
        FsQuery::List(p) => QueryModel::List(p@),
        FsQuery::CreateDirs(p) => QueryModel::CreateDirs(p@),
        FsQuery::Write(p, d) => QueryModel::Write(p@, d@),
        FsQuery::Remove(p) => QueryModel::Remove(p@),
        FsQuery::Canonicalize(p) => QueryModel::Canonicalize(p@),
    }
}

pub open spec fn answer_model(a: FsAnswer) -> AnswerModel {
    match a {
        FsAnswer::Kind(k) => AnswerModel::Kind(k),
        FsAnswer::Data(d) => AnswerModel::Data(
            match d {
                Some(v) => Some(v@),
                None => None,
            },
        ),
        FsAnswer::Entries(e) => AnswerModel::Entries(
            match e {
                Some(v) => Some(entries_view(v@)),
                None => None,
            },
        ),
        FsAnswer::Done(b) => AnswerModel::Done(b),
        FsAnswer::Removal(r) => AnswerModel::Removal(r),
        FsAnswer::Path(p) => AnswerModel::Path(opt_str(p)),
    }
}

pub open spec fn stage_view(s: Stage) -> StageModel {
    match s {
        Stage::ErrorPage { code, allow } => StageModel::ErrorPage { code, allow: opt_str(allow) },
        Stage::GetTarget { route, path } => StageModel::GetTarget { route: route@, path: path@ },
        Stage::GetIndex { route, path, index_path } => StageModel::GetIndex {
            route: route@,
            path: path@,
            index_path: index_path@,
        },
        Stage::GetListing { path } => StageModel::GetListing { path: path@ },
        Stage::ServeFile { path } => StageModel::ServeFile { path: path@ },
        Stage::RunCgi { path, interpreter } => StageModel::RunCgi {
            path: path@,
            interpreter: interpreter@,
        },
        Stage::PostTarget { route, path } => StageModel::PostTarget { route: route@, path: path@ },
        Stage::UploadDir { store_dir, files } => StageModel::UploadDir {
            store_dir: store_dir@,
            files: files_view(files@),
        },
        Stage::UploadFile { store_dir, files, next, saved } => StageModel::UploadFile {
            store_dir: store_dir@,
            files: files_view(files@),
            next: next as int,
            saved: strings_model(saved@),
        },
        Stage::RawParent { path } => StageModel::RawParent { path: path@ },
        Stage::RawIsDir { path } => StageModel::RawIsDir { path: path@ },
        Stage::RawExists { target } => StageModel::RawExists { target: target@ },
        Stage::RawWrite { target, created } => StageModel::RawWrite { target: target@, created },
        Stage::DeleteTarget { path } => StageModel::DeleteTarget { path: path@ },
        Stage::DeleteRemove => StageModel::DeleteRemove,
    }
}

pub open spec fn step_model(s: Step) -> StepModel {
    match s {
        Step::Done(r) => StepModel::Done(result_model(r)),
        Step::Ask(q, p) => StepModel::Ask(query_model(q), p.stage_model()),
    }
}

/// The session that a step carries on to.
pub open spec fn step_session(s: Step, sid: Seq<char>, new: bool) -> bool {
    match s {
        Step::Done(_) => true,
        Step::Ask(_, p) => p.session_id() == sid && p.is_new_session() == new,
    }
}


// ---------------------------------------------------------------------
// What each step decides
// ---------------------------------------------------------------------

/// The kind in an answer to `Stat` (anything else counts as missing).
pub open spec fn answer_kind(a: AnswerModel) -> FileKind {
    match a {
        AnswerModel::Kind(k) => k,
        _ => FileKind::Missing,
    }
}

/// The contents in an answer to `Read` (anything else counts as failure).
pub open spec fn answer_data(a: AnswerModel) -> Option<Seq<u8>> {
    match a {
        AnswerModel::Data(d) => d,
        _ => None,
    }
}

/// The entries in an answer to `List`.
pub open spec fn answer_entries(a: AnswerModel) -> Option<Seq<(Seq<char>, bool)>> {
    match a {
        AnswerModel::Entries(e) => e,
        _ => None,
    }
}

/// Whether an answer reports success.
pub open spec fn answer_ok(a: AnswerModel) -> bool {
    match a {
        AnswerModel::Done(b) => b,
        _ => false,
    }
}

/// The outcome in an answer to `Remove`.
pub open spec fn answer_removal(a: AnswerModel) -> RemoveOutcome {
    match a {
        AnswerModel::Removal(r) => r,
        _ => RemoveOutcome::Failed,
    }
}

/// The path in an answer to `Canonicalize`.
pub open spec fn answer_path(a: AnswerModel) -> Option<Seq<char>> {
    match a {
        AnswerModel::Path(p) => p,
        _ => None,
    }
}

/// An HTML response.
pub open spec fn html_response(status: u16, body: Seq<u8>) -> ResponseModel {
    ResponseModel {
        status,
        headers: seq![("Content-Type"@, "text/html; charset=utf-8"@)],
        body,
    }
}

/// A plain-text response.
pub open spec fn text_response(status: u16, text: Seq<char>) -> ResponseModel {
    ResponseModel {
        status,
        headers: seq![("Content-Type"@, "text/plain; charset=utf-8"@)],
        body: encode_utf8(text),
    }
}

/// A response with only a status and one header.
pub open spec fn header_response(status: u16, name: Seq<char>, value: Seq<char>) -> ResponseModel {
    ResponseModel { status, headers: set_header_spec(seq![], name, value), body: seq![] }
}

/// The error response for `code`: the custom page if it could be read,
/// else the built-in one, with an `Allow` header when one is given.
pub open spec fn error_result(code: u16, page: Option<Seq<u8>>, allow: Option<Seq<char>>) -> ResultModel {
    let base = html_response(
        code,
        match page {
            Some(c) => c,
            None => encode_utf8(error_page_text(code)),
        },
    );
    ResultModel::Response(
        match allow {
            Some(a) => ResponseModel {
                status: base.status,
                headers: set_header_spec(base.headers, "Allow"@, a),
                body: base.body,
            },
            None => base,
        },
    )
}

/// Answering with error `code`: read its custom page first when one is
/// configured.
pub open spec fn error_step(server: ServerModel, code: u16, allow: Option<Seq<char>>) -> StepModel {
    if server.error_pages.contains_key(code) {
        StepModel::Ask(
            QueryModel::Read(server.error_pages[code]),
            StageModel::ErrorPage { code, allow },
        )
    } else {
        StepModel::Done(error_result(code, None, allow))
    }
}

/// The names of `ms` separated by `, `.
pub open spec fn methods_joined(ms: Seq<Method>) -> Seq<char>
    decreases ms.len(),
{
    if ms.len() == 0 {
        seq![]
    } else if ms.len() == 1 {
        method_name(ms[0])
    } else {
        methods_joined(ms.drop_last()) + ", "@ + method_name(ms.last())
    }
}

/// The first value stored under `key` in `pairs`.
pub open spec fn pair_lookup(pairs: Seq<(Seq<char>, Seq<char>)>, key: Seq<char>) -> Option<Seq<char>>
    decreases pairs.len(),
{
    if pairs.len() == 0 {
        None
    } else if pairs[0].0 == key {
        Some(pairs[0].1)
    } else {
        pair_lookup(pairs.drop_first(), key)
    }
}

/// What `Path::extension` gives for `path`.
pub uninterp spec fn path_extension(path: Seq<char>) -> Option<Seq<char>>;

/// What `Path::parent` gives for `path`.
pub uninterp spec fn path_parent(path: Seq<char>) -> Option<Seq<char>>;

/// `std::path::Path::extension`, as text. Claims that the result is what
/// that function gives for `path` (the name [`path_extension`]), and, as
/// its documentation says, that there is none when the path holds no `.`;
/// how it finds the file name the extension is taken from is not stated.
/// An extension of a path given as `&str` is valid UTF-8, so the
/// conversion loses nothing.
#[verifier::external_body]
fn extension_of(path: &str) -> (r: Option<String>)
    ensures
        opt_str(r) == path_extension(path@),
        !path@.contains('.') ==> r is None,
{
    match std::path::Path::new(path).extension() {
        Some(e) => Some(e.to_string_lossy().into_owned()),
        None => None,
    }
}

/// `std::path::Path::parent`, as text. Claims that the result is what
/// that function gives for `path` (the name [`path_parent`]), and, as its
/// documentation says, that the empty path and `/` have none; how it finds
/// the parent of other paths is not stated. A parent of a path given as
/// `&str` is valid UTF-8, so the conversion loses nothing.
#[verifier::external_body]
fn parent_of(path: &str) -> (r: Option<String>)
    ensures
        opt_str(r) == path_parent(path@),
        path@.len() == 0 || path@ == "/"@ ==> r is None,
{
    match std::path::Path::new(path).parent() {
        Some(p) => Some(p.to_string_lossy().into_owned()),
        None => None,
    }
}

/// The interpreter a route configures for files with extension `ext`.
pub open spec fn cgi_interpreter(route: RouteModel, ext: Option<Seq<char>>) -> Option<Seq<char>> {
    match ext {
        Some(e) => pair_lookup(route.cgi, seq!['.'] + e),
        None => None,
    }
}

/// The routing decision for a request: redirects, unknown and disallowed
/// methods and paths that leave the root are answered at once; the
/// others start by examining the resolved path.
pub open spec fn dispatch_step(req: Request, server: ServerModel) -> StepModel {
    match best_route(server.routes, req.path@) {
        None => error_step(server, 404, None),
        Some(i) => {
            let route = server.routes[i];
            match route.redirect {
                Some((code, target)) => StepModel::Done(
                    ResultModel::Response(header_response(code, "Location"@, target)),
                ),
                None => match method_of(req.method@) {
                    None => error_step(server, 501, None),
                    Some(m) => if !route.methods.contains(m) {
                        error_step(server, 405, Some(methods_joined(route.methods)))
                    } else {
                        match spec_resolve(route.root, route.path, req.path@) {
                            None => error_step(server, 403, None),
                            Some(p) => match m {
                                Method::Get => StepModel::Ask(
                                    QueryModel::Stat(p),
                                    StageModel::GetTarget { route, path: p },
                                ),
                                Method::Post => StepModel::Ask(
                                    QueryModel::Stat(p),
                                    StageModel::PostTarget { route, path: p },
                                ),
                                Method::Delete => StepModel::Ask(
                                    QueryModel::Stat(p),
                                    StageModel::DeleteTarget { path: p },
                                ),
                            },
                        }
                    },
                },
            }
        },
    }
}

/// Serving a file: through its CGI interpreter if the route has one for
/// its extension, else by reading it.
pub open spec fn serve_step(route: RouteModel, path: Seq<char>) -> StepModel {
    match cgi_interpreter(route, path_extension(path)) {
        Some(i) => StepModel::Ask(
            QueryModel::Canonicalize(path),
            StageModel::RunCgi { path, interpreter: i },
        ),
        None => StepModel::Ask(QueryModel::Read(path), StageModel::ServeFile { path }),
    }
}

/// A directory without an index: list it if the route allows, else 403.
pub open spec fn autoindex_step(server: ServerModel, route: RouteModel, path: Seq<char>) -> StepModel {
    if route.autoindex {
        StepModel::Ask(QueryModel::List(path), StageModel::GetListing { path })
    } else {
        error_step(server, 403, None)
    }
}

/// A GET once the kind of its target is known.
pub open spec fn get_target_step(
    req: Request,
    server: ServerModel,
    route: RouteModel,
    path: Seq<char>,
    kind: FileKind,
) -> StepModel {
    match kind {
        FileKind::Dir => if !has_suffix(req.path@, "/"@) {
            StepModel::Done(
                ResultModel::Response(header_response(301, "Location"@, req.path@ + "/"@)),
            )
        } else {
            match route.index {
                Some(idx) => StepModel::Ask(
                    QueryModel::Stat(path_join(path, idx)),
                    StageModel::GetIndex { route, path, index_path: path_join(path, idx) },
                ),
                None => autoindex_step(server, route, path),
            }
        },
        FileKind::File => serve_step(route, path),
        _ => error_step(server, 404, None),
    }
}

/// The names of uploaded files separated by `, `.
pub open spec fn names_joined(names: Seq<Seq<char>>) -> Seq<char>
    decreases names.len(),
{
    if names.len() == 0 {
        seq![]
    } else if names.len() == 1 {
        names[0]
    } else {
        names_joined(names.drop_last()) + ", "@ + names.last()
    }
}

/// The report of a multipart upload.
pub open spec fn uploaded_message(saved: Seq<Seq<char>>) -> Seq<char> {
    "Uploaded "@ + dec(saved.len()) + " file(s): "@ + names_joined(saved) + "\n"@
}

/// Writing uploaded files `k..` into `store_dir`, `saved` naming those
/// written so far.
pub open spec fn write_next_step(
    store_dir: Seq<char>,
    files: Seq<(Seq<char>, Seq<u8>)>,
    k: int,
    saved: Seq<Seq<char>>,
) -> StepModel {
    if k < 0 || k >= files.len() {
        StepModel::Done(ResultModel::Response(text_response(201, uploaded_message(saved))))
    } else {
        StepModel::Ask(
            QueryModel::Write(path_join(store_dir, spec_sanitize(files[k].0)), files[k].1),
            StageModel::UploadFile { store_dir, files, next: k, saved },
        )
    }
}

/// A `multipart/form-data` POST with content type `ct`.
pub open spec fn multipart_step(req: Request, server: ServerModel, route: RouteModel, ct: Seq<char>) -> StepModel {
    match spec_boundary(ct) {
        None => error_step(server, 400, None),
        Some(b) => {
            let files = spec_parse_multipart(req.body@, b);
            if files.len() == 0 {
                StepModel::Done(
                    ResultModel::Response(text_response(400, "No file part found in upload\n"@)),
                )
            } else {
                match (if route.upload_store is Some {
                    route.upload_store
                } else {
                    route.root
                }) {
                    None => error_step(server, 500, None),
                    Some(d) => StepModel::Ask(
                        QueryModel::CreateDirs(d),
                        StageModel::UploadDir { store_dir: d, files },
                    ),
                }
            }
        },
    }
}

/// Where a raw upload to directory `path` is written.
pub open spec fn upload_target(path: Seq<char>, stamp: u64) -> Seq<char> {
    path_join(path, "upload-"@ + dec(stamp as nat) + ".bin"@)
}

/// Writing a raw upload to `target`: first learn whether it exists.
pub open spec fn raw_exists_step(target: Seq<char>) -> StepModel {
    StepModel::Ask(QueryModel::Stat(target), StageModel::RawExists { target })
}

/// Choosing the file of a raw upload to `path`.
pub open spec fn raw_target_step(req: Request, path: Seq<char>, stamp: u64) -> StepModel {
    if has_suffix(req.path@, "/"@) {
        raw_exists_step(upload_target(path, stamp))
    } else {
        StepModel::Ask(QueryModel::Stat(path), StageModel::RawIsDir { path })
    }
}

/// A raw upload to `path`: create its parent directory first.
pub open spec fn raw_step(req: Request, path: Seq<char>, stamp: u64) -> StepModel {
    match path_parent(path) {
        Some(p) => StepModel::Ask(QueryModel::CreateDirs(p), StageModel::RawParent { path }),
        None => raw_target_step(req, path, stamp),
    }
}

/// The value of the request's `Content-Type` header (empty if none).
pub open spec fn content_type(req: Request) -> Seq<char> {
    match header_lookup(req.headers_model(), "content-type"@) {
        Some(v) => v,
        None => seq![],
    }
}

/// A POST once the kind of its target is known: a CGI script runs, a
/// multipart body is stored as files, anything else is written as it is.
pub open spec fn post_target_step(
    req: Request,
    server: ServerModel,
    route: RouteModel,
    path: Seq<char>,
    kind: FileKind,
    stamp: u64,
) -> StepModel {
    let interp = if kind == FileKind::File {
        cgi_interpreter(route, path_extension(path))
    } else {
        None
    };
    match interp {
        Some(i) => StepModel::Ask(
            QueryModel::Canonicalize(path),
            StageModel::RunCgi { path, interpreter: i },
        ),
        None => if has_prefix(content_type(req), "multipart/form-data"@) {
            multipart_step(req, server, route, content_type(req))
        } else {
            raw_step(req, path, stamp)
        },
    }
}

/// The report of a raw upload.
pub open spec fn saved_message(len: nat, target: Seq<char>) -> Seq<char> {
    "Saved "@ + dec(len) + " bytes to "@ + target + "\n"@
}

/// The host name the request was sent to (`localhost` if none).
pub open spec fn server_name(req: Request) -> Seq<char> {
    match header_lookup(req.headers_model(), "host"@) {
        Some(h) => match split_once_at(h, ':') {
            Some(i) => h.subrange(0, i),
            None => h,
        },
        None => "localhost"@,
    }
}

/// `-` replaced by `_`.
pub open spec fn underscored(s: Seq<char>) -> Seq<char> {
    s.map_values(|c: char| if c == '-' { '_' } else { c })
}

/// The `HTTP_*` variables for headers `hs`, in order, leaving out
/// `Content-Type` and `Content-Length`.
pub open spec fn header_env(hs: Seq<(Seq<char>, Seq<char>)>) -> Seq<(Seq<char>, Seq<char>)>
    decreases hs.len(),
{
    if hs.len() == 0 {
        seq![]
    } else {
        let (k, v) = hs.last();
        header_env(hs.drop_last()) + if eq_ignore_case(k, "content-type"@) || eq_ignore_case(
            k,
            "content-length"@,
        ) {
            seq![]
        } else {
            seq![("HTTP_"@ + underscored(uppercase(k)), v)]
        }
    }
}

/// The environment of a CGI script run for `req`.
pub open spec fn cgi_env(req: Request, script: Seq<char>, port: u16, remote: Seq<char>) -> Seq<
    (Seq<char>, Seq<char>),
> {
    seq![
        ("GATEWAY_INTERFACE"@, "CGI/1.1"@),
        ("SERVER_PROTOCOL"@, "HTTP/1.1"@),
        ("SERVER_SOFTWARE"@, "localhost/0.1"@),
        ("SERVER_NAME"@, server_name(req)),
        ("SERVER_PORT"@, dec(port as nat)),
        ("REMOTE_ADDR"@, remote),
        ("REQUEST_METHOD"@, req.method@),
        ("REQUEST_URI"@, req.target@),
        ("SCRIPT_NAME"@, req.path@),
        ("SCRIPT_FILENAME"@, script),
        ("PATH_INFO"@, req.path@),
        ("QUERY_STRING"@, req.query@),
        ("REDIRECT_STATUS"@, "200"@),
    ] + match header_lookup(req.headers_model(), "content-type"@) {
        Some(ct) => seq![("CONTENT_TYPE"@, ct)],
        None => seq![],
    } + seq![("CONTENT_LENGTH"@, dec(req.body@.len()))] + header_env(req.headers_model())
}

/// The working directory of a script whose parent directory is `parent`.
pub open spec fn cgi_cwd(parent: Option<Seq<char>>) -> Seq<char> {
    match parent {
        Some(p) => if p.len() == 0 {
            "/"@
        } else {
            p
        },
        None => "/"@,
    }
}

/// The CGI invocation of `script` for `req`.
pub open spec fn cgi_request_model(
    req: Request,
    script: Seq<char>,
    interpreter: Seq<char>,
    port: u16,
    remote: Seq<char>,
) -> CgiModel {
    CgiModel {
        interpreter,
        script_path: script,
        cwd: cgi_cwd(path_parent(script)),
        env: cgi_env(req, script, port, remote),
        body: req.body@,
        session_id: seq![],
        new_session: false,
    }
}

/// The decision once the query of `stage` has been answered with `a`.
pub open spec fn resume_step(
    stage: StageModel,
    a: AnswerModel,
    req: Request,
    server: ServerModel,
    port: u16,
    remote: Seq<char>,
    stamp: u64,
) -> StepModel {
    match stage {
        StageModel::ErrorPage { code, allow } => StepModel::Done(error_result(code, answer_data(a), allow)),
        StageModel::GetTarget { route, path } => get_target_step(req, server, route, path, answer_kind(a)),
        StageModel::GetIndex { route, path, index_path } => if answer_kind(a) == FileKind::File {
            serve_step(route, index_path)
        } else {
            autoindex_step(server, route, path)
        },
        StageModel::GetListing { path } => match answer_entries(a) {
            Some(es) => StepModel::Done(
                ResultModel::Response(html_response(200, encode_utf8(listing_text(es, req.path@)))),
            ),
            None => error_step(server, 403, None),
        },
        StageModel::ServeFile { path } => match answer_data(a) {
            Some(d) => StepModel::Done(
                ResultModel::Response(
                    ResponseModel {
                        status: 200,
                        headers: set_header_spec(
                            seq![],
                            "Content-Type"@,
                            mime_for_extension(file_extension(path)),
                        ),
                        body: d,
                    },
                ),
            ),
            None => error_step(server, 404, None),
        },
        StageModel::RunCgi { path, interpreter } => StepModel::Done(
            ResultModel::Cgi(
                cgi_request_model(
                    req,
                    match answer_path(a) {
                        Some(x) => x,
                        None => path,
                    },
                    interpreter,
                    port,
                    remote,
                ),
            ),
        ),
        StageModel::PostTarget { route, path } => post_target_step(
            req,
            server,
            route,
            path,
            answer_kind(a),
            stamp,
        ),
        StageModel::UploadDir { store_dir, files } => if answer_ok(a) {
            write_next_step(store_dir, files, 0, seq![])
        } else {
            error_step(server, 500, None)
        },
        StageModel::UploadFile { store_dir, files, next, saved } => if answer_ok(a) {
            write_next_step(store_dir, files, next + 1, saved.push(spec_sanitize(files[next].0)))
        } else {
            error_step(server, 500, None)
        },
        StageModel::RawParent { path } => if answer_ok(a) {
            raw_target_step(req, path, stamp)
        } else {
            error_step(server, 500, None)
        },
        StageModel::RawIsDir { path } => raw_exists_step(
            if answer_kind(a) == FileKind::Dir {
                upload_target(path, stamp)
            } else {
                path
            },
        ),
        StageModel::RawExists { target } => StepModel::Ask(
            QueryModel::Write(target, req.body@),
            StageModel::RawWrite { target, created: answer_kind(a) == FileKind::Missing },
        ),
        StageModel::RawWrite { target, created } => if answer_ok(a) {
            StepModel::Done(
                ResultModel::Response(
                    text_response(
                        if created {
                            201
                        } else {
                            200
                        },
                        saved_message(req.body@.len(), target),
                    ),
                ),
            )
        } else {
            error_step(server, 500, None)
        },
        StageModel::DeleteTarget { path } => match answer_kind(a) {
            FileKind::File => StepModel::Ask(QueryModel::Remove(path), StageModel::DeleteRemove),
            FileKind::Dir => error_step(server, 403, None),
            _ => error_step(server, 404, None),
        },
        StageModel::DeleteRemove => match answer_removal(a) {
            RemoveOutcome::Removed => StepModel::Done(
                ResultModel::Response(ResponseModel { status: 204, headers: seq![], body: seq![] }),
            ),
            RemoveOutcome::PermissionDenied => error_step(server, 403, None),
            RemoveOutcome::Failed => error_step(server, 500, None),
        },
    }
}

/// The `Set-Cookie` value that hands out session `sid`.
pub open spec fn session_cookie(sid: Seq<char>) -> Seq<char> {
    "session_id="@ + sid + "; Path=/; HttpOnly"@
}

/// A finished result with its session applied: a response hands out a
/// new session's cookie; a CGI invocation carries the session along.
pub open spec fn finish_result(r: ResultModel, sid: Seq<char>, new: bool) -> ResultModel {
    match r {
        ResultModel::Response(resp) => ResultModel::Response(
            if new {
                ResponseModel {
                    status: resp.status,
                    headers: resp.headers.push(("Set-Cookie"@, session_cookie(sid))),
                    body: resp.body,
                }
            } else {
                resp
            },
        ),
        ResultModel::Cgi(c) => ResultModel::Cgi(
            CgiModel {
                interpreter: c.interpreter,
                script_path: c.script_path,
                cwd: c.cwd,
                env: c.env,
                body: c.body,
                session_id: sid,
                new_session: new,
            },
        ),
    }
}

pub open spec fn finish_step(s: StepModel, sid: Seq<char>, new: bool) -> StepModel {
    match s {
        StepModel::Done(r) => StepModel::Done(finish_result(r, sid, new)),
        StepModel::Ask(q, st) => StepModel::Ask(q, st),
    }
}


// ---------------------------------------------------------------------
// Making the decisions
// ---------------------------------------------------------------------

/// A decision before the session is applied.
enum Outcome {
    Done(HandlerResult),
    Ask(FsQuery, Stage),
}

spec fn outcome_model(o: Outcome) -> StepModel {
    match o {
        Outcome::Done(r) => StepModel::Done(result_model(r)),
        Outcome::Ask(q, st) => StepModel::Ask(query_model(q), stage_view(st)),
    }
}

spec fn outcome_ok(o: Outcome) -> bool {
    match o {
        Outcome::Done(_) => true,
        Outcome::Ask(_, st) => stage_ok(st),
    }
}

/// A copy of a string pair list.
fn copy_pairs(v: &Vec<(String, String)>) -> (r: Vec<(String, String)>)
    ensures
        r@ == v@,
{
    let mut r: Vec<(String, String)> = Vec::new();
    let mut i: usize = 0;
    while i < v.len()
        invariant
            i <= v@.len(),
            r@ == v@.subrange(0, i as int),
        decreases v.len() - i,
    {
        r.push((v[i].0.clone(), v[i].1.clone()));
        i += 1;
        assert(r@ =~= v@.subrange(0, i as int));
    }
    assert(v@.subrange(0, v@.len() as int) =~= v@);
    r
}

fn copy_opt(o: &Option<String>) -> (r: Option<String>)
    ensures
        r == *o,
{
    match o {
        Some(s) => Some(s.clone()),
        None => None,
    }
}

/// A copy of a route.
fn copy_route(r: &Route) -> (c: Route)
    ensures
        c@ == r@,
{
    let mut methods: Vec<Method> = Vec::new();
    let mut i: usize = 0;
    while i < r.methods.len()
        invariant
            i <= r.methods@.len(),
            methods@ == r.methods@.subrange(0, i as int),
        decreases r.methods.len() - i,
    {
        methods.push(r.methods[i]);
        i += 1;
        assert(methods@ =~= r.methods@.subrange(0, i as int));
    }
    assert(r.methods@.subrange(0, r.methods@.len() as int) =~= r.methods@);
    let redirect = match &r.redirect {
        Some((c, t)) => Some((*c, t.clone())),
        None => None,
    };
    Route {
        path: r.path.clone(),
        methods,
        root: copy_opt(&r.root),
        index: copy_opt(&r.index),
        autoindex: r.autoindex,
        redirect,
        cgi: copy_pairs(&r.cgi),
        upload_store: copy_opt(&r.upload_store),
    }
}

/// The error response for `code` from its custom page, if it could be
/// read, with an `Allow` header when one is given.
fn error_result_exec(code: u16, page: Option<Vec<u8>>, allow: Option<String>) -> (r: HandlerResult)
    ensures
        result_model(r) == error_result(
            code,
            match page {
                Some(c) => Some(c@),
                None => None,
            },
            opt_str(allow),
        ),
{
    let mut resp = error_response(code, page);
    match allow {
        Some(a) => {
            resp.set_header("Allow", a.as_str());
        },
        None => {},
    }
    HandlerResult::Response(resp)
}

/// Answering with error `code`.
fn error_next(server: &ServerConfig, code: u16, allow: Option<String>) -> (r: Outcome)
    ensures
        outcome_model(r) == error_step(server@, code, opt_str(allow)),
        outcome_ok(r),
{
    match error_page_path(server, code) {
        Some(path) => Outcome::Ask(FsQuery::Read(path), Stage::ErrorPage { code, allow }),
        None => Outcome::Done(error_result_exec(code, None, allow)),
    }
}

/// The names of `ms` separated by `, `.
fn join_methods(ms: &Vec<Method>) -> (r: String)
    ensures
        r@ == methods_joined(ms@),
{
    let mut out = String::new();
    let mut i: usize = 0;
    while i < ms.len()
        invariant
            i <= ms@.len(),
            out@ == methods_joined(ms@.subrange(0, i as int)),
        decreases ms.len() - i,
    {
        proof {
            let q = ms@.subrange(0, i + 1);
            assert(q.drop_last() =~= ms@.subrange(0, i as int));
            assert(q.last() == ms@[i as int]);
            if i == 0 {
                assert(methods_joined(ms@.subrange(0, 0)) == Seq::<char>::empty());
                assert(methods_joined(q) == method_name(q[0]));
            }
        }
        if i > 0 {
            out.append(", ");
        }
        out.append(ms[i].as_str());
        proof {
            if i == 0 {
                assert(out@ =~= method_name(ms@[0]));
            }
        }
        i += 1;
    }
    assert(ms@.subrange(0, ms@.len() as int) =~= ms@);
    out
}

/// The first value stored under `key` in `pairs`.
fn lookup_pair(pairs: &Vec<(String, String)>, key: &str) -> (r: Option<String>)
    ensures
        opt_str(r) == pair_lookup(pairs_model(pairs@), key@),
{
    let k = key.to_owned();
    let ghost ps = pairs_model(pairs@);
    assert(ps.subrange(0, ps.len() as int) =~= ps);
    let mut i: usize = 0;
    while i < pairs.len()
        invariant
            i <= pairs@.len(),
            k@ == key@,
            ps == pairs_model(pairs@),
            pair_lookup(ps, key@) == pair_lookup(ps.subrange(i as int, ps.len() as int), key@),
        decreases pairs.len() - i,
    {
        let ghost rest = ps.subrange(i as int, ps.len() as int);
        assert(rest[0] == (pairs@[i as int].0@, pairs@[i as int].1@));
        assert(rest.drop_first() =~= ps.subrange(i + 1, ps.len() as int));
        if pairs[i].0 == k {
            return Some(pairs[i].1.clone());
        }
        i += 1;
    }
    None
}

/// The CGI interpreter `route` configures for the file at `path`.
pub fn cgi_interpreter_for(route: &Route, path: &str) -> (r: Option<String>)
    ensures
        opt_str(r) == cgi_interpreter(route@, path_extension(path@)),
{
    let ext = extension_of(path);
    interpreter_for_extension(route, ext)
}

/// The CGI interpreter `route` configures for files with extension
/// `ext` (as [`std::path::Path::extension`] gives it).
pub fn interpreter_for_extension(route: &Route, ext: Option<String>) -> (r: Option<String>)
    ensures
        opt_str(r) == cgi_interpreter(route@, opt_str(ext)),
{
    match ext {
        Some(e) => {
            let mut key = String::new();
            push_char(&mut key, '.');
            key.append(e.as_str());
            assert(key@ =~= seq!['.'] + e@);
            lookup_pair(&route.cgi, key.as_str())
        },
        None => None,
    }
}


/// `Path::join`: `part` appended to `base` with a `/` between them, or
/// `part` alone when it is absolute.
fn join_path(base: &str, part: &str) -> (r: String)
    ensures
        r@ == path_join(base@, part@),
{
    let pc = chars_of(part);
    if pc.len() > 0 && pc[0] == '/' {
        return part.to_owned();
    }
    let bc = chars_of(base);
    let mut r = base.to_owned();
    if bc.len() > 0 && bc[bc.len() - 1] != '/' {
        push_char(&mut r, '/');
    }
    r.append(part);
    r
}

/// `s` ends with `/`.
fn ends_with_slash(s: &str) -> (r: bool)
    ensures
        r == has_suffix(s@, "/"@),
{
    let c = chars_of(s);
    let slash = chars_of("/");
    crate::text::ends_with(c.as_slice(), slash.as_slice())
}

/// Whether `ms` holds `m`.
fn has_method(ms: &Vec<Method>, m: Method) -> (r: bool)
    ensures
        r == ms@.contains(m),
{
    let mut i: usize = 0;
    while i < ms.len()
        invariant
            i <= ms@.len(),
            forall|j: int| 0 <= j < i ==> ms@[j] != m,
        decreases ms.len() - i,
    {
        if ms[i] == m {
            assert(ms@[i as int] == m);
            return true;
        }
        i += 1;
    }
    false
}

/// The routing decision for a request (see [`dispatch_step`]).
fn dispatch(req: &Request, server: &ServerConfig) -> (r: Outcome)
    ensures
        outcome_model(r) == dispatch_step(*req, server@),
        outcome_ok(r),
{
    let i = match server.match_route_index(req.path.as_str()) {
        Some(i) => i,
        None => {
            return error_next(server, 404, None);
        },
    };
    let route = &server.routes[i];
    assert(route@ == server@.routes[i as int]);
    match &route.redirect {
        Some((code, target)) => {
            let resp = Response::new(*code).with_header("Location", target.as_str());
            assert(resp.headers_model() =~= set_header_spec(seq![], "Location"@, target@));
            return Outcome::Done(HandlerResult::Response(resp));
        },
        None => {},
    }
    let m = match Method::from_str(req.method.as_str()) {
        Some(m) => m,
        None => {
            return error_next(server, 501, None);
        },
    };
    if !has_method(&route.methods, m) {
        let allow = join_methods(&route.methods);
        return error_next(server, 405, Some(allow));
    }
    let p = match resolve(route, req.path.as_str()) {
        Some(p) => p,
        None => {
            return error_next(server, 403, None);
        },
    };
    let q = FsQuery::Stat(p.clone());
    match m {
        Method::Get => Outcome::Ask(q, Stage::GetTarget { route: copy_route(route), path: p }),
        Method::Post => Outcome::Ask(q, Stage::PostTarget { route: copy_route(route), path: p }),
        Method::Delete => Outcome::Ask(q, Stage::DeleteTarget { path: p }),
    }
}

/// Serving the file at `path` (see [`serve_step`]).
fn serve_next(route: &Route, path: String) -> (r: Outcome)
    ensures
        outcome_model(r) == serve_step(route@, path@),
        outcome_ok(r),
{
    match cgi_interpreter_for(route, path.as_str()) {
        Some(i) => Outcome::Ask(FsQuery::Canonicalize(path.clone()), Stage::RunCgi { path, interpreter: i }),
        None => Outcome::Ask(FsQuery::Read(path.clone()), Stage::ServeFile { path }),
    }
}

/// A directory without an index (see [`autoindex_step`]).
fn autoindex_next(server: &ServerConfig, route: &Route, path: String) -> (r: Outcome)
    ensures
        outcome_model(r) == autoindex_step(server@, route@, path@),
        outcome_ok(r),
{
    if route.autoindex {
        Outcome::Ask(FsQuery::List(path.clone()), Stage::GetListing { path })
    } else {
        error_next(server, 403, None)
    }
}

/// A GET once the kind of its target is known (see [`get_target_step`]).
fn get_target_next(req: &Request, server: &ServerConfig, route: Route, path: String, kind: FileKind) -> (r: Outcome)
    ensures
        outcome_model(r) == get_target_step(*req, server@, route@, path@, kind),
        outcome_ok(r),
{
    match kind {
        FileKind::Dir => {
            if !ends_with_slash(req.path.as_str()) {
                let mut loc = req.path.clone();
                loc.append("/");
                let resp = Response::new(301).with_header("Location", loc.as_str());
                assert(resp.headers_model() =~= set_header_spec(seq![], "Location"@, loc@));
                return Outcome::Done(HandlerResult::Response(resp));
            }
            match &route.index {
                Some(idx) => {
                    let ip = join_path(path.as_str(), idx.as_str());
                    let q = FsQuery::Stat(ip.clone());
                    Outcome::Ask(q, Stage::GetIndex { route, path, index_path: ip })
                },
                None => autoindex_next(server, &route, path),
            }
        },
        FileKind::File => serve_next(&route, path),
        _ => error_next(server, 404, None),
    }
}

/// The names separated by `, `.
fn join_names(names: &Vec<String>) -> (r: String)
    ensures
        r@ == names_joined(strings_model(names@)),
{
    let ghost ns = strings_model(names@);
    let mut out = String::new();
    let mut i: usize = 0;
    while i < names.len()
        invariant
            i <= names@.len(),
            ns == strings_model(names@),
            out@ == names_joined(ns.subrange(0, i as int)),
        decreases names.len() - i,
    {
        proof {
            let q = ns.subrange(0, i + 1);
            assert(q.drop_last() =~= ns.subrange(0, i as int));
            assert(q.last() == names@[i as int]@);
            if i == 0 {
                assert(names_joined(ns.subrange(0, 0)) == Seq::<char>::empty());
                assert(names_joined(q) == q[0]);
            }
        }
        if i > 0 {
            out.append(", ");
        }
        out.append(names[i].as_str());
        proof {
            if i == 0 {
                assert(out@ =~= names@[0]@);
            }
        }
        i += 1;
    }
    assert(ns.subrange(0, ns.len() as int) =~= ns);
    out
}

/// Writing uploaded files `k..` (see [`write_next_step`]).
fn write_next(store_dir: String, files: Vec<UploadedFile>, k: usize, saved: Vec<String>) -> (r: Outcome)
    ensures
        outcome_model(r) == write_next_step(store_dir@, files_view(files@), k as int, strings_model(saved@)),
        outcome_ok(r),
{
    if k >= files.len() {
        let mut msg = String::new();
        msg.append("Uploaded ");
        push_dec(&mut msg, saved.len() as u128);
        msg.append(" file(s): ");
        let names = join_names(&saved);
        msg.append(names.as_str());
        msg.append("\n");
        assert(msg@ =~= uploaded_message(strings_model(saved@)));
        return Outcome::Done(HandlerResult::Response(Response::text(201, msg.as_str())));
    }
    let name = sanitize_filename(files[k].filename.as_str());
    let dest = join_path(store_dir.as_str(), name.as_str());
    let data = crate::text::copy_range(files[k].data.as_slice(), 0, files[k].data.len());
    assert(files[k as int].data@.subrange(0, files[k as int].data@.len() as int) =~= files[k as int].data@);
    assert(files_view(files@)[k as int] == (files@[k as int].filename@, files@[k as int].data@));
    Outcome::Ask(FsQuery::Write(dest, data), Stage::UploadFile { store_dir, files, next: k, saved })
}

/// A multipart POST (see [`multipart_step`]).
fn multipart_next(req: &Request, server: &ServerConfig, route: &Route, ct: &str) -> (r: Outcome)
    ensures
        outcome_model(r) == multipart_step(*req, server@, route@, ct@),
        outcome_ok(r),
{
    let b = match extract_boundary(ct) {
        Some(b) => b,
        None => {
            return error_next(server, 400, None);
        },
    };
    let files = parse_multipart(req.body.as_slice(), b.as_str());
    if files.len() == 0 {
        return Outcome::Done(
            HandlerResult::Response(Response::text(400, "No file part found in upload\n")),
        );
    }
    let store = if route.upload_store.is_some() {
        copy_opt(&route.upload_store)
    } else {
        copy_opt(&route.root)
    };
    match store {
        None => error_next(server, 500, None),
        Some(d) => Outcome::Ask(FsQuery::CreateDirs(d.clone()), Stage::UploadDir { store_dir: d, files }),
    }
}

/// Where a raw upload to directory `path` goes.
fn upload_target_path(path: &str, stamp: u64) -> (r: String)
    ensures
        r@ == upload_target(path@, stamp),
{
    let mut name = String::new();
    name.append("upload-");
    push_dec(&mut name, stamp as u128);
    name.append(".bin");
    join_path(path, name.as_str())
}

/// Choosing the file of a raw upload (see [`raw_target_step`]).
fn raw_target_next(req: &Request, path: String, stamp: u64) -> (r: Outcome)
    ensures
        outcome_model(r) == raw_target_step(*req, path@, stamp),
        outcome_ok(r),
{
    if ends_with_slash(req.path.as_str()) {
        let t = upload_target_path(path.as_str(), stamp);
        Outcome::Ask(FsQuery::Stat(t.clone()), Stage::RawExists { target: t })
    } else {
        Outcome::Ask(FsQuery::Stat(path.clone()), Stage::RawIsDir { path })
    }
}

/// A raw upload (see [`raw_step`]).
fn raw_next(req: &Request, path: String, stamp: u64) -> (r: Outcome)
    ensures
        outcome_model(r) == raw_step(*req, path@, stamp),
        outcome_ok(r),
{
    match parent_of(path.as_str()) {
        Some(p) => Outcome::Ask(FsQuery::CreateDirs(p), Stage::RawParent { path }),
        None => raw_target_next(req, path, stamp),
    }
}

/// A POST once the kind of its target is known (see
/// [`post_target_step`]).
fn post_target_next(
    req: &Request,
    server: &ServerConfig,
    route: Route,
    path: String,
    kind: FileKind,
    stamp: u64,
) -> (r: Outcome)
    ensures
        outcome_model(r) == post_target_step(*req, server@, route@, path@, kind, stamp),
        outcome_ok(r),
{
    let interp = if kind == FileKind::File {
        cgi_interpreter_for(&route, path.as_str())
    } else {
        None
    };
    match interp {
        Some(i) => Outcome::Ask(FsQuery::Canonicalize(path.clone()), Stage::RunCgi { path, interpreter: i }),
        None => {
            let ct: String = match req.header("content-type") {
                Some(v) => v.to_owned(),
                None => String::new(),
            };
            assert(ct@ == content_type(*req));
            let cc = chars_of(ct.as_str());
            let pre = chars_of("multipart/form-data");
            if starts_with(cc.as_slice(), pre.as_slice()) {
                multipart_next(req, server, &route, ct.as_str())
            } else {
                raw_next(req, path, stamp)
            }
        },
    }
}


// ---------------------------------------------------------------------
// CGI invocations
// ---------------------------------------------------------------------

/// `-` replaced by `_` in `s`, appended to `out`.
fn push_underscored(out: &mut String, s: &str)
    ensures
        final(out)@ == old(out)@ + underscored(s@),
{
    let v = chars_of(s);
    let mut i: usize = 0;
    while i < v.len()
        invariant
            i <= v@.len(),
            v@ == s@,
            out@ == old(out)@ + underscored(v@.subrange(0, i as int)),
        decreases v.len() - i,
    {
        let c = v[i];
        push_char(out, if c == '-' { '_' } else { c });
        i += 1;
        assert(underscored(v@.subrange(0, i as int)) =~= underscored(v@.subrange(0, i - 1)).push(
            if c == '-' { '_' } else { c },
        ));
    }
    assert(v@.subrange(0, v@.len() as int) =~= v@);
}

/// Whether `a` equals `b` up to ASCII case.
fn same_ignoring_case(a: &str, b: &str) -> (r: bool)
    ensures
        r == eq_ignore_case(a@, b@),
{
    let x = chars_of(a);
    let y = chars_of(b);
    eq_ignore_ascii_case(x.as_slice(), y.as_slice())
}

/// The host name the request was sent to (see [`server_name`]).
fn request_server_name(req: &Request) -> (r: String)
    ensures
        r@ == server_name(*req),
{
    match req.header("host") {
        Some(h) => {
            let hc = chars_of(h);
            let k = crate::text::find_char_from(hc.as_slice(), ':', 0);
            proof {
                crate::text::lemma_find_from(hc@, ':', 0);
                if k == hc@.len() {
                    assert(hc@.subrange(0, k as int) =~= hc@);
                }
            }
            string_from_range(hc.as_slice(), 0, k)
        },
        None => "localhost".to_owned(),
    }
}

/// The working directory of a CGI script, given its parent directory as
/// [`std::path::Path::parent`] gives it: `/` when there is none or it is
/// empty.
pub fn script_dir(parent: Option<String>) -> (r: String)
    ensures
        r@ == cgi_cwd(opt_str(parent)),
{
    match parent {
        Some(p) => if p.as_str().is_empty() {
            "/".to_owned()
        } else {
            p
        },
        None => "/".to_owned(),
    }
}

/// Everything needed to run the CGI script `script` for `req` with
/// `interpreter` (see [`cgi_request_model`]).
pub fn build_cgi_request(
    req: &Request,
    script: String,
    interpreter: String,
    port: u16,
    remote_addr: &str,
) -> (r: CgiRequest)
    ensures
        cgi_model(r) == cgi_request_model(*req, script@, interpreter@, port, remote_addr@),
{
    let cwd = script_dir(parent_of(script.as_str()));
    let mut env: Vec<(String, String)> = Vec::new();
    env.push(("GATEWAY_INTERFACE".to_owned(), "CGI/1.1".to_owned()));
    env.push(("SERVER_PROTOCOL".to_owned(), "HTTP/1.1".to_owned()));
    env.push(("SERVER_SOFTWARE".to_owned(), "localhost/0.1".to_owned()));
    env.push(("SERVER_NAME".to_owned(), request_server_name(req)));
    env.push(("SERVER_PORT".to_owned(), dec_string(port as u64)));
    env.push(("REMOTE_ADDR".to_owned(), remote_addr.to_owned()));
    env.push(("REQUEST_METHOD".to_owned(), req.method.clone()));
    env.push(("REQUEST_URI".to_owned(), req.target.clone()));
    env.push(("SCRIPT_NAME".to_owned(), req.path.clone()));
    env.push(("SCRIPT_FILENAME".to_owned(), script.clone()));
    env.push(("PATH_INFO".to_owned(), req.path.clone()));
    env.push(("QUERY_STRING".to_owned(), req.query.clone()));
    env.push(("REDIRECT_STATUS".to_owned(), "200".to_owned()));
    let ghost base = pairs_model(env@);
    match req.header("content-type") {
        Some(ct) => {
            env.push(("CONTENT_TYPE".to_owned(), ct.to_owned()));
        },
        None => {},
    }
    env.push(("CONTENT_LENGTH".to_owned(), dec_string(req.body.len() as u64)));
    let ghost head = pairs_model(env@);
    let ghost hs = req.headers_model();
    let mut i: usize = 0;
    while i < req.headers.len()
        invariant
            i <= req.headers@.len(),
            hs == req.headers_model(),
            pairs_model(env@) == head + header_env(hs.subrange(0, i as int)),
        decreases req.headers.len() - i,
    {
        let k = &req.headers[i].0;
        let v = &req.headers[i].1;
        let ghost before = pairs_model(env@);
        proof {
            let q = hs.subrange(0, i + 1);
            assert(q.drop_last() =~= hs.subrange(0, i as int));
            assert(q.last() == (k@, v@));
        }
        if same_ignoring_case(k.as_str(), "content-type") || same_ignoring_case(k.as_str(), "content-length") {
            assert(before + Seq::<(Seq<char>, Seq<char>)>::empty() =~= before);
        } else {
            let upper = to_uppercase(k.as_str());
            let mut key = "HTTP_".to_owned();
            push_underscored(&mut key, upper.as_str());
            env.push((key, v.clone()));
            assert(pairs_model(env@) =~= before + seq![("HTTP_"@ + underscored(uppercase(k@)), v@)]);
        }
        i += 1;
    }
    assert(hs.subrange(0, hs.len() as int) =~= hs);
    let r = CgiRequest {
        interpreter,
        script_path: script,
        cwd,
        env,
        body: crate::text::copy_range(req.body.as_slice(), 0, req.body.len()),
        session_id: String::new(),
        new_session: false,
    };
    assert(req.body@.subrange(0, req.body@.len() as int) =~= req.body@);
    assert(pairs_model(r.env@) =~= cgi_env(*req, r.script_path@, port, remote_addr@));
    r
}


// ---------------------------------------------------------------------
// Answers
// ---------------------------------------------------------------------

fn kind_of(a: FsAnswer) -> (r: FileKind)
    ensures
        r == answer_kind(answer_model(a)),
{
    match a {
        FsAnswer::Kind(k) => k,
        _ => FileKind::Missing,
    }
}

fn data_of(a: FsAnswer) -> (r: Option<Vec<u8>>)
    ensures
        match r {
            Some(d) => answer_data(answer_model(a)) == Some(d@),
            None => answer_data(answer_model(a)) is None,
        },
{
    match a {
        FsAnswer::Data(d) => d,
        _ => None,
    }
}

fn ok_of(a: FsAnswer) -> (r: bool)
    ensures
        r == answer_ok(answer_model(a)),
{
    match a {
        FsAnswer::Done(b) => b,
        _ => false,
    }
}

/// The decision once the query of `stage` has been answered (see
/// [`resume_step`]).
fn resume_stage(
    stage: Stage,
    answer: FsAnswer,
    req: &Request,
    server: &ServerConfig,
    port: u16,
    remote_addr: &str,
    stamp: u64,
) -> (r: Outcome)
    requires
        stage_ok(stage),
    ensures
        outcome_model(r) == resume_step(
            stage_view(stage),
            answer_model(answer),
            *req,
            server@,
            port,
            remote_addr@,
            stamp,
        ),
        outcome_ok(r),
{
    match stage {
        Stage::ErrorPage { code, allow } => Outcome::Done(error_result_exec(code, data_of(answer), allow)),
        Stage::GetTarget { route, path } => get_target_next(req, server, route, path, kind_of(answer)),
        Stage::GetIndex { route, path, index_path } => {
            if kind_of(answer) == FileKind::File {
                serve_next(&route, index_path)
            } else {
                autoindex_next(server, &route, path)
            }
        },
        Stage::GetListing { path } => {
            match answer {
                FsAnswer::Entries(Some(es)) => {
                    let html = render(es, req.path.as_str());
                    Outcome::Done(HandlerResult::Response(Response::html(200, html)))
                },
                _ => error_next(server, 403, None),
            }
        },
        Stage::ServeFile { path } => {
            match data_of(answer) {
                Some(d) => {
                    let ct = mime_type(path.as_str());
                    let resp = Response::new(200).with_header("Content-Type", ct).with_body(d);
                    assert(resp.headers_model() =~= set_header_spec(
                        seq![],
                        "Content-Type"@,
                        mime_for_extension(file_extension(path@)),
                    ));
                    Outcome::Done(HandlerResult::Response(resp))
                },
                None => error_next(server, 404, None),
            }
        },
        Stage::RunCgi { path, interpreter } => {
            let script = match answer {
                FsAnswer::Path(Some(abs)) => abs,
                _ => path,
            };
            Outcome::Done(HandlerResult::Cgi(build_cgi_request(req, script, interpreter, port, remote_addr)))
        },
        Stage::PostTarget { route, path } => post_target_next(req, server, route, path, kind_of(answer), stamp),
        Stage::UploadDir { store_dir, files } => {
            if ok_of(answer) {
                let none: Vec<String> = Vec::new();
                assert(strings_model(none@) =~= Seq::<Seq<char>>::empty());
                write_next(store_dir, files, 0, none)
            } else {
                error_next(server, 500, None)
            }
        },
        Stage::UploadFile { store_dir, files, next, saved } => {
            if ok_of(answer) {
                let name = sanitize_filename(files[next].filename.as_str());
                let total = files.len();
                let mut saved = saved;
                let ghost before = strings_model(saved@);
                saved.push(name);
                assert(strings_model(saved@) =~= before.push(spec_sanitize(files_view(files@)[next as int].0)));
                write_next(store_dir, files, next + 1, saved)
            } else {
                error_next(server, 500, None)
            }
        },
        Stage::RawParent { path } => {
            if ok_of(answer) {
                raw_target_next(req, path, stamp)
            } else {
                error_next(server, 500, None)
            }
        },
        Stage::RawIsDir { path } => {
            let t = if kind_of(answer) == FileKind::Dir {
                upload_target_path(path.as_str(), stamp)
            } else {
                path
            };
            Outcome::Ask(FsQuery::Stat(t.clone()), Stage::RawExists { target: t })
        },
        Stage::RawExists { target } => {
            let created = kind_of(answer) == FileKind::Missing;
            let data = crate::text::copy_range(req.body.as_slice(), 0, req.body.len());
            assert(req.body@.subrange(0, req.body@.len() as int) =~= req.body@);
            Outcome::Ask(FsQuery::Write(target.clone(), data), Stage::RawWrite { target, created })
        },
        Stage::RawWrite { target, created } => {
            if ok_of(answer) {
                let mut msg = "Saved ".to_owned();
                push_dec(&mut msg, req.body.len() as u128);
                msg.append(" bytes to ");
                msg.append(target.as_str());
                msg.append("\n");
                assert(msg@ =~= saved_message(req.body@.len(), target@));
                let status: u16 = if created {
                    201
                } else {
                    200
                };
                Outcome::Done(HandlerResult::Response(Response::text(status, msg.as_str())))
            } else {
                error_next(server, 500, None)
            }
        },
        Stage::DeleteTarget { path } => {
            match kind_of(answer) {
                FileKind::File => Outcome::Ask(FsQuery::Remove(path), Stage::DeleteRemove),
                FileKind::Dir => error_next(server, 403, None),
                _ => error_next(server, 404, None),
            }
        },
        Stage::DeleteRemove => {
            match answer {
                FsAnswer::Removal(RemoveOutcome::Removed) => {
                    let resp = Response::new(204);
                    assert(resp.headers_model() =~= Seq::<(Seq<char>, Seq<char>)>::empty());
                    Outcome::Done(HandlerResult::Response(resp))
                },
                FsAnswer::Removal(RemoveOutcome::PermissionDenied) => error_next(server, 403, None),
                _ => error_next(server, 500, None),
            }
        },
    }
}


// ---------------------------------------------------------------------
// Sessions and the entry points
// ---------------------------------------------------------------------

/// Start of the session page, up to the session id.
pub const SESSION_HEAD: &'static str = "<!DOCTYPE html>\n<html lang=\"en\">\n<head>\n<meta charset=\"utf-8\">\n<title>Session info</title>\n<style>\n  body { font-family: -apple-system, Segoe UI, Helvetica, Arial, sans-serif; background:#0f172a; color:#e2e8f0; display:flex; align-items:center; justify-content:center; height:100vh; margin:0; }\n  .card { text-align:center; padding:2.5rem 3rem; border-radius:12px; background:#1e293b; box-shadow:0 10px 30px rgba(0,0,0,.4); }\n  code { color:#38bdf8; }\n  a { color:#38bdf8; text-decoration:none; }\n</style>\n</head>\n<body>\n  <div class=\"card\">\n    <h1>Session info</h1>\n    <p>Session ID: <code>";

/// Between the session id and the visit count.
pub const SESSION_MID: &'static str = "</code></p>\n    <p>Visits recorded in this session: <strong>";

/// End of the session page.
pub const SESSION_TAIL: &'static str = "</strong></p>\n    <p style=\"margin-top:1.5rem;\"><a href=\"/\">Return home</a></p>\n  </div>\n</body>\n</html>\n";

/// The page that shows session `sid` and its visit count.
pub open spec fn session_page_text(sid: Seq<char>, visits: u32) -> Seq<char> {
    SESSION_HEAD@ + sid + SESSION_MID@ + dec(visits as nat) + SESSION_TAIL@
}

/// The session a request gets: the one its cookie names if the store
/// knows it, else a new one under `fresh` (and whether it is new).
pub open spec fn chosen_session(
    m: Map<Seq<char>, (Map<Seq<char>, Seq<char>>, u64)>,
    existing: Option<Seq<char>>,
    fresh: Seq<char>,
) -> (Seq<char>, bool) {
    match existing {
        Some(id) => if m.contains_key(id) {
            (id, false)
        } else {
            (fresh, true)
        },
        None => (fresh, true),
    }
}

/// The `session_id` cookie of a request.
pub open spec fn session_cookie_of(req: Request) -> Option<Seq<char>> {
    match header_lookup(req.headers_model(), "cookie"@) {
        Some(h) => cookie_value(h, "session_id"@),
        None => None,
    }
}

/// Records a visit of session `sid` and renders its page.
fn session_page(session_id: &str, sessions: &mut SessionStore, now: u64) -> (r: Response)
    ensures
        final(sessions)@ == crate::session::after_visit(old(sessions)@, session_id@, now),
        response_model(r) == html_response(
            200,
            encode_utf8(session_page_text(session_id@, next_count(visits_of(old(sessions)@, session_id@)))),
        ),
{
    let visits = sessions.record_visit(session_id, now);
    let mut html = String::new();
    html.append(SESSION_HEAD);
    html.append(session_id);
    html.append(SESSION_MID);
    push_dec(&mut html, visits as u128);
    html.append(SESSION_TAIL);
    Response::html(200, str_bytes(html.as_str()))
}

/// Hands out session `session_id` with `resp` when it is new: adds
/// `Set-Cookie: session_id=<id>; Path=/; HttpOnly`.
pub fn add_session_cookie(resp: &mut Response, session_id: &str, new_session: bool)
    ensures
        response_model(*final(resp)) == match finish_result(
            ResultModel::Response(response_model(*old(resp))),
            session_id@,
            new_session,
        ) {
            ResultModel::Response(m) => m,
            _ => response_model(*old(resp)),
        },
{
    if new_session {
        let ghost before = resp.headers_model();
        let mut cookie = "session_id=".to_owned();
        cookie.append(session_id);
        cookie.append("; Path=/; HttpOnly");
        resp.headers.push(("Set-Cookie".to_owned(), cookie));
        assert(resp.headers_model() =~= before.push(("Set-Cookie"@, session_cookie(session_id@))));
    }
}

/// Applies the session to a decision.
fn finish(o: Outcome, session_id: String, new_session: bool) -> (r: Step)
    requires
        outcome_ok(o),
    ensures
        step_model(r) == finish_step(outcome_model(o), session_id@, new_session),
        step_session(r, session_id@, new_session),
{
    match o {
        Outcome::Done(HandlerResult::Response(resp)) => {
            let mut resp = resp;
            add_session_cookie(&mut resp, session_id.as_str(), new_session);
            Step::Done(HandlerResult::Response(resp))
        },
        Outcome::Done(HandlerResult::Cgi(c)) => {
            let mut c = c;
            c.session_id = session_id;
            c.new_session = new_session;
            Step::Done(HandlerResult::Cgi(c))
        },
        Outcome::Ask(q, stage) => Step::Ask(q, Pending { session_id, new_session, stage }),
    }
}

/// Top-level entry point: resolves the request's session (a new one is
/// stored under the id made of the random bytes `fresh`; `now` is the
/// time in milliseconds), then
/// either answers `/session` or routes `req` against `server`. Returns
/// the finished result or the first filesystem query to perform.
pub fn handle_request(
    req: &Request,
    server: &ServerConfig,
    sessions: &mut SessionStore,
    fresh: &[u8; 16],
    now: u64,
) -> (r: Step)
    ensures
        ({
            let (sid, new) = chosen_session(old(sessions)@, session_cookie_of(*req), hex_of(fresh@));
            let touched = old(sessions)@.insert(
                sid,
                (
                    if new {
                        Map::empty()
                    } else {
                        old(sessions)@[sid].0
                    },
                    now,
                ),
            );
            &&& step_session(r, sid, new)
            &&& new ==> is_session_id(sid)
            &&& if req.path@ == "/session"@ {
                &&& final(sessions)@ == crate::session::after_visit(touched, sid, now)
                &&& step_model(r) == StepModel::Done(
                    finish_result(
                        ResultModel::Response(
                            html_response(
                                200,
                                encode_utf8(session_page_text(sid, next_count(visits_of(touched, sid)))),
                            ),
                        ),
                        sid,
                        new,
                    ),
                )
            } else {
                &&& final(sessions)@ == touched
                &&& step_model(r) == finish_step(dispatch_step(*req, server@), sid, new)
            }
        }),
{
    let cookie = req.cookie("session_id");
    let existing: Option<&str> = match &cookie {
        Some(c) => Some(c.as_str()),
        None => None,
    };
    let (session_id, is_new) = sessions.resolve(existing, fresh, now);
    let p = chars_of(req.path.as_str());
    if range_eq_str(p.as_slice(), 0, p.len(), "/session") {
        assert(p@.subrange(0, p@.len() as int) =~= p@);
        let resp = session_page(session_id.as_str(), sessions, now);
        return finish(Outcome::Done(HandlerResult::Response(resp)), session_id, is_new);
    }
    assert(p@.subrange(0, p@.len() as int) =~= p@);
    let o = dispatch(req, server);
    finish(o, session_id, is_new)
}

/// Continues handling a request once the query of `pending` has been
/// answered; `req`, `server`, `server_port` and `remote_addr` are those of
/// the request, and `stamp` a number (the time in nanoseconds) that names
/// a raw upload into a directory.
pub fn resume(
    pending: Pending,
    answer: FsAnswer,
    req: &Request,
    server: &ServerConfig,
    server_port: u16,
    remote_addr: &str,
    stamp: u64,
) -> (r: Step)
    ensures
        step_model(r) == finish_step(
            resume_step(
                pending.stage_model(),
                answer_model(answer),
                *req,
                server@,
                server_port,
                remote_addr@,
                stamp,
            ),
            pending.session_id(),
            pending.is_new_session(),
        ),
        step_session(r, pending.session_id(), pending.is_new_session()),
{
    proof {
        use_type_invariant(&pending);
    }
    let Pending { session_id, new_session, stage } = pending;
    let o = resume_stage(stage, answer, req, server, server_port, remote_addr, stamp);
    finish(o, session_id, new_session)
}


// ---------------------------------------------------------------------
// Laws
// ---------------------------------------------------------------------

/// Routing never leaves a route's root: a request whose path below the
/// route has a `..` component is refused with 403 (unless it is
/// redirected or its method refused first), and the path that routing
/// goes on to examine always starts with the route's root.
pub proof fn lemma_dispatch_stays_under_root(req: Request, server: ServerModel)
    ensures
        match best_route(server.routes, req.path@) {
            Some(i) => {
                let route = server.routes[i];
                let rel = req.path@.subrange(rel_start(route.path, req.path@), req.path@.len() as int);
                &&& (route.redirect is None && method_of(req.method@) is Some && route.methods.contains(
                    method_of(req.method@)->0,
                ) && has_parent_component(rel, split_ranges(rel, '/', 0, 0))) ==> dispatch_step(
                    req,
                    server,
                ) == error_step(server, 403, None)
                &&& dispatch_step(req, server) matches StepModel::Ask(QueryModel::Stat(p), _) ==> (
                route.root matches Some(root) && has_prefix(p, root))
            },
            None => dispatch_step(req, server) == error_step(server, 404, None),
        },
{
    match best_route(server.routes, req.path@) {
        Some(i) => {
            let route = server.routes[i];
            match route.root {
                Some(root) => {
                    lemma_resolve_stays_under_root(root, route.path, req.path@);
                },
                None => {},
            }
        },
        None => {},
    }
}

/// Every answer hands out the session it belongs to when that session is
/// new, and only then: a finished response carries exactly one more
/// header, `Set-Cookie: session_id=<id>; Path=/; HttpOnly`, for a new
/// session and none for a known one; a CGI invocation carries the
/// session along.
pub proof fn lemma_session_cookie(r: ResultModel, sid: Seq<char>, new: bool)
    ensures
        match (r, finish_result(r, sid, new)) {
            (ResultModel::Response(a), ResultModel::Response(b)) => {
                &&& b.status == a.status
                &&& b.body == a.body
                &&& if new {
                    b.headers == a.headers.push(("Set-Cookie"@, session_cookie(sid)))
                } else {
                    b.headers == a.headers
                }
            },
            (ResultModel::Cgi(a), ResultModel::Cgi(b)) => b.session_id == sid && b.new_session
                == new && b.env == a.env && b.body == a.body,
            _ => false,
        },
{
}


/// An upload writes each file directly into the store directory: the
/// path written is the directory, a `/` where it lacks one, and a plain
/// name (no `/` or `\`, neither empty, `.` nor `..`).
pub proof fn lemma_upload_stays_in_store(
    store_dir: Seq<char>,
    files: Seq<(Seq<char>, Seq<u8>)>,
    k: int,
    saved: Seq<Seq<char>>,
)
    ensures
        write_next_step(store_dir, files, k, saved) matches StepModel::Ask(QueryModel::Write(p, _), _)
            ==> exists|name: Seq<char>|
            {
                &&& #[trigger] path_join(store_dir, name) == p
                &&& p == (if store_dir.len() > 0 && store_dir.last() != '/' {
                    store_dir.push('/')
                } else {
                    store_dir
                }) + name
                &&& name.len() > 0
                &&& name != "."@
                &&& name != ".."@
                &&& forall|i: int| 0 <= i < name.len() ==> #[trigger] name[i] != '/' && name[i] != '\\'
            },
{
    if 0 <= k < files.len() {
        let name = spec_sanitize(files[k].0);
        crate::upload::lemma_sanitized_name_is_plain(files[k].0);
        assert(name[0] != '/');
        assert(path_join(store_dir, name) == path_join(store_dir, name));
    }
}


/// Once a directory's index file is found to be a regular file, the next
/// step serves that index file: it is read (or, when the route runs its
/// extension as CGI, its path made absolute to run it), never the
/// directory itself.
pub proof fn lemma_found_index_is_served(
    route: RouteModel,
    path: Seq<char>,
    index_path: Seq<char>,
    req: Request,
    server: ServerModel,
    port: u16,
    remote: Seq<char>,
    stamp: u64,
)
    ensures
        resume_step(
            StageModel::GetIndex { route, path, index_path },
            AnswerModel::Kind(FileKind::File),
            req,
            server,
            port,
            remote,
            stamp,
        ) == match cgi_interpreter(route, path_extension(index_path)) {
            Some(i) => StepModel::Ask(
                QueryModel::Canonicalize(index_path),
                StageModel::RunCgi { path: index_path, interpreter: i },
            ),
            None => StepModel::Ask(QueryModel::Read(index_path), StageModel::ServeFile { path: index_path }),
        },
{
}

/// The names of the `HTTP_*` variables all start with `H`.
proof fn lemma_header_env_names(hs: Seq<(Seq<char>, Seq<char>)>)
    ensures
        forall|i: int|
            0 <= i < header_env(hs).len() ==> (#[trigger] header_env(hs)[i]).0.len() > 0
                && header_env(hs)[i].0[0] == 'H',
    decreases hs.len(),
{
    reveal_strlit("HTTP_");
    if hs.len() > 0 {
        lemma_header_env_names(hs.drop_last());
        let (k, v) = hs.last();
        let rest = header_env(hs.drop_last());
        let tail: Seq<(Seq<char>, Seq<char>)> = if eq_ignore_case(k, "content-type"@) || eq_ignore_case(
            k,
            "content-length"@,
        ) {
            seq![]
        } else {
            seq![("HTTP_"@ + underscored(uppercase(k)), v)]
        };
        assert(header_env(hs) == rest + tail);
        assert forall|i: int| 0 <= i < header_env(hs).len() implies (#[trigger] header_env(hs)[i]).0.len() > 0
            && header_env(hs)[i].0[0] == 'H' by {
            if i < rest.len() {
                assert(header_env(hs)[i] == rest[i]);
            } else {
                assert(header_env(hs)[i] == tail[i - rest.len()]);
            }
        }
    }
}

/// A CGI script sees the request's query string as `QUERY_STRING` (the
/// part of the target after its first `?`, which the parser puts in
/// `query`) and the whole target only as `REQUEST_URI`.
pub proof fn lemma_cgi_query_string(
    req: Request,
    script: Seq<char>,
    interpreter: Seq<char>,
    port: u16,
    remote: Seq<char>,
)
    ensures
        exists|i: int|
            0 <= i < cgi_request_model(req, script, interpreter, port, remote).env.len()
                && (#[trigger] cgi_request_model(req, script, interpreter, port, remote).env[i]).0
                == "QUERY_STRING"@,
        forall|i: int|
            0 <= i < cgi_request_model(req, script, interpreter, port, remote).env.len()
                && (#[trigger] cgi_request_model(req, script, interpreter, port, remote).env[i]).0
                == "QUERY_STRING"@ ==> cgi_request_model(req, script, interpreter, port, remote).env[i].1
                == req.query@,
        forall|i: int|
            0 <= i < cgi_request_model(req, script, interpreter, port, remote).env.len()
                && (#[trigger] cgi_request_model(req, script, interpreter, port, remote).env[i]).0
                == "REQUEST_URI"@ ==> cgi_request_model(req, script, interpreter, port, remote).env[i].1
                == req.target@,
{
    reveal_strlit("GATEWAY_INTERFACE");
    reveal_strlit("SERVER_PROTOCOL");
    reveal_strlit("SERVER_SOFTWARE");
    reveal_strlit("SERVER_NAME");
    reveal_strlit("SERVER_PORT");
    reveal_strlit("REMOTE_ADDR");
    reveal_strlit("REQUEST_METHOD");
    reveal_strlit("REQUEST_URI");
    reveal_strlit("SCRIPT_NAME");
    reveal_strlit("SCRIPT_FILENAME");
    reveal_strlit("PATH_INFO");
    reveal_strlit("QUERY_STRING");
    reveal_strlit("REDIRECT_STATUS");
    reveal_strlit("CONTENT_TYPE");
    reveal_strlit("CONTENT_LENGTH");
    assert("GATEWAY_INTERFACE"@.len() == 17);
    assert("SERVER_PROTOCOL"@.len() == 15);
    assert("QUERY_STRING"@.len() == 12);
    assert("REQUEST_URI"@.len() == 11);
    let env = cgi_request_model(req, script, interpreter, port, remote).env;
    let base: Seq<(Seq<char>, Seq<char>)> = {
        seq![
            ("GATEWAY_INTERFACE"@, "CGI/1.1"@),
            ("SERVER_PROTOCOL"@, "HTTP/1.1"@),
            ("SERVER_SOFTWARE"@, "localhost/0.1"@),
            ("SERVER_NAME"@, server_name(req)),
            ("SERVER_PORT"@, dec(port as nat)),
            ("REMOTE_ADDR"@, remote),
            ("REQUEST_METHOD"@, req.method@),
            ("REQUEST_URI"@, req.target@),
            ("SCRIPT_NAME"@, req.path@),
            ("SCRIPT_FILENAME"@, script),
            ("PATH_INFO"@, req.path@), ("QUERY_STRING"@, req.query@),
            ("REDIRECT_STATUS"@, "200"@),
        ]
    };
    let ct: Seq<(Seq<char>, Seq<char>)> = match header_lookup(req.headers_model(), "content-type"@) {
        Some(c) => seq![("CONTENT_TYPE"@, c)],
        None => seq![],
    };
    let cl: Seq<(Seq<char>, Seq<char>)> = seq![("CONTENT_LENGTH"@, dec(req.body@.len()))];
    let he = header_env(req.headers_model());
    assert(env == base + ct + cl + he);
    lemma_header_env_names(req.headers_model());
    assert(env[11] == base[11]);
    assert forall|i: int| 0 <= i < env.len() && (#[trigger] env[i]).0 == "QUERY_STRING"@ implies env[i].1
        == req.query@ by {
        if i < 13 {
            if env[i].0 == "QUERY_STRING"@ {
                assert(env[i].0[0] == 'Q' && env[i].0[2] == 'E');
            }
            if i == 0 {
                assert(env[i] == base[0]);
            } else if i == 1 {
                assert(env[i] == base[1]);
            } else if i == 2 {
                assert(env[i] == base[2]);
            } else if i == 3 {
                assert(env[i] == base[3]);
            } else if i == 4 {
                assert(env[i] == base[4]);
            } else if i == 5 {
                assert(env[i] == base[5]);
            } else if i == 6 {
                assert(env[i] == base[6]);
            } else if i == 7 {
                assert(env[i] == base[7]);
            } else if i == 8 {
                assert(env[i] == base[8]);
            } else if i == 9 {
                assert(env[i] == base[9]);
            } else if i == 10 {
                assert(env[i] == base[10]);
            } else if i == 11 {
                assert(env[i] == base[11]);
            } else if i == 12 {
                assert(env[i] == base[12]);
            }
        } else if i < 13 + ct.len() {
            assert(env[i] == ct[i - 13]);
            if env[i].0 == "QUERY_STRING"@ {
                assert(env[i].0[0] == 'Q');
            }
        } else if i < 13 + ct.len() + 1 {
            assert(env[i] == cl[i - 13 - ct.len()]);
        } else {
            assert(env[i] == he[i - 14 - ct.len()]);
            assert(env[i].0[0] == 'H');
        }
    }
    assert forall|i: int| 0 <= i < env.len() && (#[trigger] env[i]).0 == "REQUEST_URI"@ implies env[i].1
        == req.target@ by {
        if i < 13 {
            if env[i].0 == "REQUEST_URI"@ {
                assert(env[i].0[0] == 'R' && env[i].0[2] == 'Q');
            }
            if i == 0 {
                assert(env[i] == base[0]);
            } else if i == 1 {
                assert(env[i] == base[1]);
            } else if i == 2 {
                assert(env[i] == base[2]);
            } else if i == 3 {
                assert(env[i] == base[3]);
            } else if i == 4 {
                assert(env[i] == base[4]);
            } else if i == 5 {
                assert(env[i] == base[5]);
            } else if i == 6 {
                assert(env[i] == base[6]);
            } else if i == 7 {
                assert(env[i] == base[7]);
            } else if i == 8 {
                assert(env[i] == base[8]);
            } else if i == 9 {
                assert(env[i] == base[9]);
            } else if i == 10 {
                assert(env[i] == base[10]);
            } else if i == 11 {
                assert(env[i] == base[11]);
            } else if i == 12 {
                assert(env[i] == base[12]);
            }
        } else if i < 13 + ct.len() {
            assert(env[i] == ct[i - 13]);
        } else if i < 13 + ct.len() + 1 {
            assert(env[i] == cl[i - 13 - ct.len()]);
        } else {
            assert(env[i] == he[i - 14 - ct.len()]);
            assert(env[i].0[0] == 'H');
        }
    }
}

} // verus!
