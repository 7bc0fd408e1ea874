//! Routing and request dispatch: which route serves a request, where on disk
//! it points, and what the server does with it. The filesystem work itself
//! is left to the caller, which reports back what it found.
use vstd::prelude::*;
use crate::bytes::{
    append_bytes, contains, copy, contains_seq, dec, dec_bytes, ends_with, find_byte, find_first,
    is_prefix, is_suffix, slice_of, starts_with,
};
use crate::config::{Route, ServerConfig};
use crate::fields::{bytes_eq, lookup};
use crate::http_parser::{HttpRequest, RequestView};
use crate::http_response::{b, text, DirEntry, HttpResponse};

verus! {

/// The path part of a request target: everything before the first `?`.
pub open spec fn path_part(uri: Seq<u8>) -> Seq<u8> {
    match find_first(uri, 63) {
        Some(q) => uri.subrange(0, q),
        None => uri,
    }
}

pub fn uri_path(uri: &[u8]) -> (r: Vec<u8>)
    ensures
        r@ == path_part(uri@),
{
    match find_byte(uri, 63) {
        Some(q) => slice_of(uri, 0, q),
        None => copy(uri),
    }
}

/// Route `j` applies to the request path `up`: its path is a prefix of it.
pub open spec fn route_applies(routes: Seq<Route>, up: Seq<u8>, j: int) -> bool {
    0 <= j < routes.len() && is_prefix(routes[j].path@, up)
}

/// Route `i` is the longest applicable route, and the first of that length.
pub open spec fn best_route(routes: Seq<Route>, up: Seq<u8>, i: int) -> bool {
    &&& route_applies(routes, up, i)
    &&& forall|j: int| #[trigger]
        route_applies(routes, up, j) ==> routes[j].path@.len() <= routes[i].path@.len()
    &&& forall|j: int|
        0 <= j < i && #[trigger] route_applies(routes, up, j) ==> routes[j].path@.len()
            < routes[i].path@.len()
}

/// Longest-prefix match of the request target's path against the routes.
pub fn find_route(uri: &[u8], config: &ServerConfig) -> (r: Option<usize>)
    ensures
        r matches Some(i) ==> best_route(config.routes@, path_part(uri@), i as int),
        r is None ==> forall|j: int| !route_applies(config.routes@, path_part(uri@), j),
{
    let up = uri_path(uri);
    let ghost routes = config.routes@;
    let mut best: Option<usize> = None;
    let mut best_len: usize = 0;
    let mut i: usize = 0;
    while i < config.routes.len()
        invariant
            i <= routes.len(),
            routes == config.routes@,
            up@ == path_part(uri@),
            best matches Some(k) ==> k < i && route_applies(routes, up@, k as int) && best_len
                == routes[k as int].path@.len() && (forall|j: int|
                0 <= j < i && #[trigger] route_applies(routes, up@, j) ==> routes[j].path@.len()
                    <= best_len) && (forall|j: int|
                0 <= j < k && #[trigger] route_applies(routes, up@, j) ==> routes[j].path@.len()
                    < best_len),
            best is None ==> forall|j: int| 0 <= j < i ==> !#[trigger] route_applies(routes, up@, j),
        decreases routes.len() - i,
    {
        let p = &config.routes[i].path;
        if starts_with(up.as_slice(), p.as_slice()) && (best.is_none() || p.len() > best_len) {
            best = Some(i);
            best_len = p.len();
        }
        i = i + 1;
    }
    best
}

/// `s` without its leading `/` characters.
pub open spec fn strip_slashes(s: Seq<u8>) -> Seq<u8>
    decreases s.len(),
{
    if s.len() > 0 && s[0] == 47 {
        strip_slashes(s.drop_first())
    } else {
        s
    }
}

/// The filesystem path that a request path names under a route.
pub open spec fn resolved_path(up: Seq<u8>, route: Route) -> Seq<u8> {
    let root = match route.root {
        Some(r) => r@,
        None => b("."),
    };
    let rel = if is_prefix(route.path@, up) {
        up.subrange(route.path@.len() as int, up.len() as int)
    } else {
        up
    };
    let rel = strip_slashes(rel);
    if rel.len() == 0 {
        root
    } else {
        root + b("/") + rel
    }
}

/// Strips the route's prefix, then leading slashes, and joins the rest
/// beneath the route's root (or `.`).
pub fn resolve_path(uri_path: &[u8], route: &Route) -> (r: Vec<u8>)
    ensures
        r@ == resolved_path(uri_path@, *route),
{
    let mut out = match &route.root {
        Some(r) => copy(r.as_slice()),
        None => text("."),
    };
    let mut i: usize = if starts_with(uri_path, route.path.as_slice()) {
        route.path.len()
    } else {
        0
    };
    let ghost rel = if is_prefix(route.path@, uri_path@) {
        uri_path@.subrange(route.path@.len() as int, uri_path@.len() as int)
    } else {
        uri_path@
    };
    assert(rel =~= uri_path@.subrange(i as int, uri_path@.len() as int));
    while i < uri_path.len() && uri_path[i] == 47
        invariant
            i <= uri_path@.len(),
            strip_slashes(rel) == strip_slashes(uri_path@.subrange(i as int, uri_path@.len() as int)),
        decreases uri_path@.len() - i,
    {
        assert(uri_path@.subrange(i as int, uri_path@.len() as int).drop_first() =~= uri_path@.subrange(
            i + 1,
            uri_path@.len() as int,
        ));
        i = i + 1;
    }
    let rest = slice_of(uri_path, i, uri_path.len());
    if rest.len() > 0 {
        assert(rest@.len() > 0 && rest@[0] != 47 ==> strip_slashes(rest@) == rest@);
        append_bytes(&mut out, text("/").as_slice());
        append_bytes(&mut out, rest.as_slice());
    }
    out
}

/// The extension of the last component of a path: what follows its last
/// `.`, unless that `.` starts the component.
pub open spec fn extension(path: Seq<u8>) -> Seq<u8> {
    ext_scan(path, path.len() as int)
}

/// Scans `path[..i]` backwards for the `.` that starts the extension.
pub open spec fn ext_scan(path: Seq<u8>, i: int) -> Seq<u8>
    decreases i,
{
    if i <= 0 || i > path.len() {
        Seq::empty()
    } else if path[i - 1] == 47 {
        Seq::empty()
    } else if path[i - 1] == 46 {
        if i - 1 == 0 || path[i - 2] == 47 {
            Seq::empty()
        } else {
            path.subrange(i, path.len() as int)
        }
    } else {
        ext_scan(path, i - 1)
    }
}

/// The media type served for a file, from its extension.
pub open spec fn content_type_of(path: Seq<u8>) -> Seq<u8> {
    let e = extension(path);
    if e == b("html") || e == b("htm") {
        b("text/html")
    } else if e == b("css") {
        b("text/css")
    } else if e == b("js") {
        b("application/javascript")
    } else if e == b("json") {
        b("application/json")
    } else if e == b("png") {
        b("image/png")
    } else if e == b("jpg") || e == b("jpeg") {
        b("image/jpeg")
    } else if e == b("gif") {
        b("image/gif")
    } else if e == b("svg") {
        b("image/svg+xml")
    } else if e == b("pdf") {
        b("application/pdf")
    } else if e == b("txt") {
        b("text/plain")
    } else {
        b("application/octet-stream")
    }
}

fn extension_bytes(path: &[u8]) -> (r: Vec<u8>)
    ensures
        r@ == extension(path@),
{
    let n = path.len();
    let mut i = n;
    while i > 0
        invariant
            i <= n == path@.len(),
            ext_scan(path@, n as int) == ext_scan(path@, i as int),
        decreases i,
    {
        let c = path[i - 1];
        if c == 47 {
            return Vec::new();
        }
        if c == 46 {
            if i - 1 == 0 || path[i - 2] == 47 {
                return Vec::new();
            }
            return slice_of(path, i, n);
        }
        i = i - 1;
    }
    Vec::new()
}

fn is(e: &Vec<u8>, s: &str) -> (r: bool)
    ensures
        r == (e@ == b(s)),
{
    bytes_eq(e.as_slice(), text(s).as_slice())
}

/// The `Content-Type` for a file path.
pub fn get_content_type(file_path: &[u8]) -> (r: Vec<u8>)
    ensures
        r@ == content_type_of(file_path@),
{
    let e = extension_bytes(file_path);
    let t = if is(&e, "html") || is(&e, "htm") {
        "text/html"
    } else if is(&e, "css") {
        "text/css"
    } else if is(&e, "js") {
        "application/javascript"
    } else if is(&e, "json") {
        "application/json"
    } else if is(&e, "png") {
        "image/png"
    } else if is(&e, "jpg") || is(&e, "jpeg") {
        "image/jpeg"
    } else if is(&e, "gif") {
        "image/gif"
    } else if is(&e, "svg") {
        "image/svg+xml"
    } else if is(&e, "pdf") {
        "application/pdf"
    } else if is(&e, "txt") {
        "text/plain"
    } else {
        "application/octet-stream"
    };
    text(t)
}


/// What the server does with a request. Filesystem and process work is
/// done by the caller.
pub enum Action {
    /// Respond with this error status, using the server's custom page for it if any.
    Error(u16),
    /// Respond with this status, no body.
    Status(u16),
    /// Respond with this response.
    Respond(HttpResponse),
    /// Respond with this status and a `Location` header.
    Redirect(u16, Vec<u8>),
    /// Inspect the resolved path of a GET under route `route`.
    Get { route: usize, path: Vec<u8> },
    /// Store the body beneath the upload directory of route `route`.
    Upload { route: usize },
    /// Run the script at `script` with the interpreter of route `route`.
    Cgi { route: usize, script: Vec<u8> },
    /// Serve the file at this path.
    ServeFile(Vec<u8>),
    /// List the directory at this path.
    Listing(Vec<u8>),
    /// Answer a POST that no handler takes.
    PostReceived,
    /// Remove the file at this path.
    Delete(Vec<u8>),
}

/// The route lists `m` among its methods.
pub open spec fn method_allowed(route: Route, m: Seq<u8>) -> bool {
    exists|i: int| 0 <= i < route.methods@.len() && #[trigger] route.methods@[i]@ == m
}

/// The request carries a multipart form body.
pub open spec fn is_multipart(r: RequestView) -> bool {
    match lookup(r.headers, b("content-type")) {
        Some(ct) => contains(ct, b("multipart/form-data")),
        None => false,
    }
}

/// The route runs `path` through CGI: it ends with the route's CGI extension.
pub open spec fn cgi_match(route: Route, path: Seq<u8>) -> bool {
    match route.cgi_extension {
        Some(ext) => is_suffix(ext@, path),
        None => false,
    }
}

/// What a request whose route is `i` leads to, once the policy gates passed.
pub open spec fn method_action(r: RequestView, routes: Seq<Route>, i: int, a: Action) -> bool {
    let route = routes[i];
    let up = path_part(r.uri);
    if !method_allowed(route, r.method) {
        a == Action::Error(405)
    } else if route.redirect is Some {
        a matches Action::Redirect(c, l) && c == route.redirect->Some_0.0 && l@
            == route.redirect->Some_0.1@
    } else if r.method == b("GET") {
        a matches Action::Get { route: k, path } && k == i && path@ == resolved_path(up, route)
    } else if r.method == b("POST") {
        if is_multipart(r) {
            a == Action::Upload { route: i as usize }
        } else if cgi_match(route, up) {
            a matches Action::Cgi { route: k, script } && k == i && script@ == resolved_path(
                up,
                route,
            )
        } else {
            a == Action::PostReceived
        }
    } else if r.method == b("DELETE") {
        a matches Action::Delete(path) && path@ == resolved_path(up, route)
    } else {
        a == Action::Error(405)
    }
}

fn method_is_allowed(route: &Route, m: &[u8]) -> (r: bool)
    ensures
        r == method_allowed(*route, m@),
{
    let mut i: usize = 0;
    while i < route.methods.len()
        invariant
            i <= route.methods@.len(),
            forall|j: int| 0 <= j < i ==> route.methods@[j]@ != m@,
        decreases route.methods@.len() - i,
    {
        if bytes_eq(route.methods[i].as_slice(), m) {
            return true;
        }
        i = i + 1;
    }
    false
}

/// The dispatcher's policy gates, in order: body size, routing, method,
/// redirect; then the handler for the method.
pub fn process_request(request: &HttpRequest, server: &ServerConfig) -> (a: Action)
    ensures
        request.body@.len() > server.client_max_body_size ==> a == Action::Error(413),
        request.body@.len() <= server.client_max_body_size ==> {
            &&& (forall|j: int| !route_applies(server.routes@, path_part(request.uri@), j))
                ==> a == Action::Error(404)
            &&& forall|i: int|
                best_route(server.routes@, path_part(request.uri@), i) ==> method_action(
                    request@,
                    server.routes@,
                    i,
                    a,
                )
        },
{
    if request.body.len() > server.client_max_body_size {
        return Action::Error(413);
    }
    let ri = match find_route(request.uri.as_slice(), server) {
        None => {
            return Action::Error(404);
        },
        Some(i) => i,
    };
    proof {
        assert forall|i: int| best_route(server.routes@, path_part(request.uri@), i) implies i
            == ri by {
            if i < ri {
                assert(server.routes@[ri as int].path@.len() <= server.routes@[i].path@.len());
            } else if i > ri {
                assert(server.routes@[i].path@.len() <= server.routes@[ri as int].path@.len());
            }
        }
    }
    let route = &server.routes[ri];
    if !method_is_allowed(route, request.method.as_slice()) {
        return Action::Error(405);
    }
    if let Some(rd) = &route.redirect {
        let a = Action::Redirect(rd.0, copy(rd.1.as_slice()));
        return a;
    }
    let up = uri_path(request.uri.as_slice());
    let m = request.method.as_slice();
    if bytes_eq(m, text("GET").as_slice()) {
        Action::Get { route: ri, path: resolve_path(up.as_slice(), route) }
    } else if bytes_eq(m, text("POST").as_slice()) {
        let multipart = match request.headers.get(text("content-type").as_slice()) {
            Some(ct) => contains_seq(ct.as_slice(), text("multipart/form-data").as_slice()),
            None => false,
        };
        if multipart {
            return Action::Upload { route: ri };
        }
        let cgi = match &route.cgi_extension {
            Some(ext) => ends_with(up.as_slice(), ext.as_slice()),
            None => false,
        };
        if cgi {
            Action::Cgi { route: ri, script: resolve_path(up.as_slice(), route) }
        } else {
            Action::PostReceived
        }
    } else if bytes_eq(m, text("DELETE").as_slice()) {
        Action::Delete(resolve_path(up.as_slice(), route))
    } else {
        Action::Error(405)
    }
}

/// What a GET finds at its resolved path.
#[derive(Clone, Copy, PartialEq, Eq, Structural, Debug)]
pub enum PathKind {
    Missing,
    File,
    Directory,
}

/// Path of the `k`-th index file of a directory.
pub open spec fn index_path(dir: Seq<u8>, route: Route, k: int) -> Seq<u8> {
    dir + b("/") + route.index@[k]@
}

/// The index files to try in a directory, in order.
pub fn index_candidates(dir: &[u8], route: &Route) -> (r: Vec<Vec<u8>>)
    ensures
        r@.len() == route.index@.len(),
        forall|k: int| 0 <= k < r@.len() ==> (#[trigger] r@[k])@ == index_path(dir@, *route, k),
{
    let mut r: Vec<Vec<u8>> = Vec::new();
    let mut k: usize = 0;
    while k < route.index.len()
        invariant
            k <= route.index@.len(),
            r@.len() == k,
            forall|j: int| 0 <= j < k ==> (#[trigger] r@[j])@ == index_path(dir@, *route, j),
        decreases route.index@.len() - k,
    {
        let mut p = copy(dir);
        append_bytes(&mut p, text("/").as_slice());
        append_bytes(&mut p, route.index[k].as_slice());
        r.push(p);
        k = k + 1;
    }
    r
}

/// The GET handler, given what is at the resolved path and, for a directory,
/// the position of the first of its `index_candidates` that exists.
pub fn handle_get(
    server: &ServerConfig,
    route: usize,
    path: &[u8],
    kind: PathKind,
    first_index: Option<usize>,
) -> (a: Action)
    requires
        route < server.routes@.len(),
        first_index matches Some(k) ==> k < server.routes@[route as int].index@.len(),
    ensures
        kind == PathKind::Missing ==> a == Action::Error(404),
        kind == PathKind::Directory ==> match first_index {
            Some(k) => a matches Action::ServeFile(p) && p@ == index_path(
                path@,
                server.routes@[route as int],
                k as int,
            ),
            None => if server.routes@[route as int].autoindex {
                a matches Action::Listing(p) && p@ == path@
            } else {
                a == Action::Error(403)
            },
        },
        kind == PathKind::File ==> if cgi_match(server.routes@[route as int], path@) {
            a matches Action::Cgi { route: k, script } && k == route && script@ == path@
        } else {
            a matches Action::ServeFile(p) && p@ == path@
        },
{
    let r = &server.routes[route];
    match kind {
        PathKind::Missing => Action::Error(404),
        PathKind::Directory => match first_index {
            Some(k) => {
                let mut p = copy(path);
                append_bytes(&mut p, text("/").as_slice());
                append_bytes(&mut p, r.index[k].as_slice());
                Action::ServeFile(p)
            },
            None => {
                if r.autoindex {
                    Action::Listing(copy(path))
                } else {
                    Action::Error(403)
                }
            },
        },
        PathKind::File => {
            let cgi = match &r.cgi_extension {
                Some(ext) => ends_with(path, ext.as_slice()),
                None => false,
            };
            if cgi {
                Action::Cgi { route, script: copy(path) }
            } else {
                Action::ServeFile(copy(path))
            }
        },
    }
}

/// The DELETE handler, given whether the file was removed.
pub fn handle_delete(removed: bool) -> (a: Action)
    ensures
        removed ==> a == Action::Status(204),
        !removed ==> a == Action::Error(404),
{
    if removed {
        Action::Status(204)
    } else {
        Action::Error(404)
    }
}

/// A 200 response carrying a file, typed by its extension.
pub fn serve_file(file_path: &[u8], content: Vec<u8>) -> (r: HttpResponse)
    ensures
        r@ == crate::http_response::with_body(
            crate::http_response::with_header(
                crate::http_response::fresh(200),
                b("Content-Type"),
                content_type_of(file_path@),
            ),
            content@,
        ),
{
    let mut response = HttpResponse::new(200);
    response.add_header(text("Content-Type"), get_content_type(file_path));
    response.set_body(content);
    response
}

/// The reply to a POST that no handler takes.
pub fn post_received() -> (r: HttpResponse)
    ensures
        r@ == crate::http_response::with_body(
            crate::http_response::fresh(200),
            b("POST request received"),
        ),
{
    let mut response = HttpResponse::new(200);
    response.set_body_str("POST request received");
    response
}

/// A redirect to `location`.
pub fn redirect(code: u16, location: Vec<u8>) -> (r: HttpResponse)
    ensures
        r@ == crate::http_response::with_header(
            crate::http_response::fresh(code),
            b("Location"),
            location@,
        ),
{
    let mut response = HttpResponse::new(code);
    response.add_header(text("Location"), location);
    response
}


/// The directory a route stores uploads in.
pub fn upload_dir(route: &Route) -> (r: Vec<u8>)
    ensures
        r@ == match route.upload_dir {
            Some(d) => d@,
            None => b("./uploads"),
        },
{
    match &route.upload_dir {
        Some(d) => copy(d.as_slice()),
        None => text("./uploads"),
    }
}

/// The file an upload is stored in at Unix time `secs`; there is one only
/// when the content type names a multipart boundary.
pub open spec fn upload_file(r: RequestView, dir: Seq<u8>, secs: u64) -> Option<Seq<u8>> {
    match lookup(r.headers, b("content-type")) {
        Some(ct) => if contains(ct, b("boundary=")) {
            Some(dir + b("/upload_") + dec(secs as nat) + b(".bin"))
        } else {
            None
        },
        None => None,
    }
}

pub fn upload_target(request: &HttpRequest, dir: &[u8], secs: u64) -> (r: Option<Vec<u8>>)
    ensures
        r matches Some(f) ==> upload_file(request@, dir@, secs) == Some(f@),
        r is None ==> upload_file(request@, dir@, secs) is None,
{
    match request.headers.get(text("content-type").as_slice()) {
        Some(ct) => {
            if contains_seq(ct.as_slice(), text("boundary=").as_slice()) {
                let mut f = copy(dir);
                append_bytes(&mut f, text("/upload_").as_slice());
                append_bytes(&mut f, dec_bytes(secs).as_slice());
                append_bytes(&mut f, text(".bin").as_slice());
                Some(f)
            } else {
                None
            }
        },
        None => None,
    }
}

/// The reply to an upload: `file` is where the body was to be stored (none
/// without a multipart boundary) and `written` whether storing it worked.
pub fn handle_file_upload(file: Option<&[u8]>, written: bool) -> (a: Action)
    ensures
        file is None ==> (a matches Action::Respond(r) && r@ == crate::http_response::with_body(
            crate::http_response::fresh(200),
            b("Upload processed"),
        )),
        file matches Some(f) ==> written ==> (a matches Action::Respond(r) && r@
            == crate::http_response::with_body(
            crate::http_response::fresh(201),
            b("File uploaded successfully: ") + f@,
        )),
        file is Some ==> !written ==> a == Action::Error(500),
{
    match file {
        None => {
            let mut response = HttpResponse::new(200);
            response.set_body_str("Upload processed");
            Action::Respond(response)
        },
        Some(f) => {
            if !written {
                return Action::Error(500);
            }
            let mut body = text("File uploaded successfully: ");
            append_bytes(&mut body, f);
            let mut response = HttpResponse::new(201);
            response.set_body(body);
            Action::Respond(response)
        },
    }
}


/// `a` sorts strictly before `b`: byte-wise lexicographic order, as std
/// orders strings.
pub open spec fn lex_lt(a: Seq<u8>, b: Seq<u8>) -> bool
    decreases a.len(),
{
    if a.len() == 0 {
        b.len() > 0
    } else if b.len() == 0 {
        false
    } else if a[0] != b[0] {
        a[0] < b[0]
    } else {
        lex_lt(a.drop_first(), b.drop_first())
    }
}

pub open spec fn lex_le(a: Seq<u8>, b: Seq<u8>) -> bool {
    a == b || lex_lt(a, b)
}

/// Entries in ascending order of name.
pub open spec fn sorted_by_name(s: Seq<DirEntry>) -> bool {
    forall|i: int, j: int| 0 <= i < j < s.len() ==> lex_le(s[i].name@, s[j].name@)
}

proof fn lemma_lex_total(a: Seq<u8>, b: Seq<u8>)
    ensures
        lex_lt(a, b) || a == b || lex_lt(b, a),
    decreases a.len(),
{
    if a.len() > 0 && b.len() > 0 && a[0] == b[0] {
        lemma_lex_total(a.drop_first(), b.drop_first());
        if a.drop_first() == b.drop_first() {
            assert(a =~= seq![a[0]] + a.drop_first());
            assert(b =~= seq![b[0]] + b.drop_first());
        }
    } else if a.len() == 0 && b.len() == 0 {
        assert(a =~= b);
    }
}

proof fn lemma_lex_trans(a: Seq<u8>, b: Seq<u8>, c: Seq<u8>)
    requires
        lex_lt(a, b),
        lex_lt(b, c),
    ensures
        lex_lt(a, c),
    decreases a.len(),
{
    if a.len() > 0 && b.len() > 0 && c.len() > 0 && a[0] == b[0] && b[0] == c[0] {
        lemma_lex_trans(a.drop_first(), b.drop_first(), c.drop_first());
    }
}

proof fn lemma_lex_le_trans(a: Seq<u8>, b: Seq<u8>, c: Seq<u8>)
    requires
        lex_le(a, b),
        lex_le(b, c),
    ensures
        lex_le(a, c),
{
    if lex_lt(a, b) && lex_lt(b, c) {
        lemma_lex_trans(a, b, c);
    }
}

fn lex_less(a: &[u8], b: &[u8]) -> (r: bool)
    ensures
        r == lex_lt(a@, b@),
{
    let mut i: usize = 0;
    assert(a@.subrange(0, a@.len() as int) =~= a@);
    assert(b@.subrange(0, b@.len() as int) =~= b@);
    loop
        invariant
            i <= a@.len(),
            i <= b@.len(),
            lex_lt(a@, b@) == lex_lt(
                a@.subrange(i as int, a@.len() as int),
                b@.subrange(i as int, b@.len() as int),
            ),
        decreases a@.len() - i,
    {
        if i == a.len() {
            return i < b.len();
        }
        if i == b.len() {
            return false;
        }
        if a[i] != b[i] {
            return a[i] < b[i];
        }
        assert(a@.subrange(i as int, a@.len() as int).drop_first() =~= a@.subrange(
            i + 1,
            a@.len() as int,
        ));
        assert(b@.subrange(i as int, b@.len() as int).drop_first() =~= b@.subrange(
            i + 1,
            b@.len() as int,
        ));
        i = i + 1;
    }
}

/// Position of an entry of least name.
fn least_name(s: &Vec<DirEntry>) -> (m: usize)
    requires
        s@.len() > 0,
    ensures
        m < s@.len(),
        forall|j: int| 0 <= j < s@.len() ==> lex_le(s@[m as int].name@, #[trigger] s@[j].name@),
{
    let mut m: usize = 0;
    let mut i: usize = 1;
    while i < s.len()
        invariant
            m < i <= s@.len(),
            forall|j: int| 0 <= j < i ==> lex_le(s@[m as int].name@, #[trigger] s@[j].name@),
        decreases s@.len() - i,
    {
        if lex_less(s[i].name.as_slice(), s[m].name.as_slice()) {
            let ghost old_m = m;
            assert forall|j: int| 0 <= j < i + 1 implies lex_le(
                s@[i as int].name@,
                #[trigger] s@[j].name@,
            ) by {
                if j < i {
                    lemma_lex_le_trans(s@[i as int].name@, s@[old_m as int].name@, s@[j].name@);
                }
            }
            m = i;
        } else {
            proof {
                lemma_lex_total(s@[i as int].name@, s@[m as int].name@);
            }
        }
        i = i + 1;
    }
    m
}

/// The entries in ascending order of name.
pub fn sort_by_name(entries: Vec<DirEntry>) -> (r: Vec<DirEntry>)
    ensures
        r@.to_multiset() == entries@.to_multiset(),
        sorted_by_name(r@),
{
    broadcast use vstd::seq_lib::group_to_multiset_ensures;

    let mut rest = entries;
    let mut out: Vec<DirEntry> = Vec::new();
    proof {
        out@.to_multiset_ensures();
    }
    assert(out@.to_multiset() =~= vstd::multiset::Multiset::empty());
    while rest.len() > 0
        invariant
            out@.to_multiset().add(rest@.to_multiset()) == entries@.to_multiset(),
            sorted_by_name(out@),
            forall|i: int, j: int|
                #![trigger out@[i], rest@[j]]
                0 <= i < out@.len() && 0 <= j < rest@.len() ==> lex_le(
                    out@[i].name@,
                    rest@[j].name@,
                ),
        decreases rest@.len(),
    {
        let m = least_name(&rest);
        let ghost before_rest = rest@;
        let ghost before_out = out@;
        let e = rest.remove(m);
        proof {
            before_rest.to_multiset_ensures();
            before_out.to_multiset_ensures();
        }
        assert(e == before_rest[m as int]);
        assert(rest@ == before_rest.remove(m as int));
        assert(rest@.to_multiset() == before_rest.to_multiset().remove(e));
        out.push(e);
        assert(out@ == before_out.push(e));
        assert(out@.to_multiset() == before_out.to_multiset().insert(e));
        assert(out@.to_multiset().add(rest@.to_multiset()) =~= entries@.to_multiset()) by {
            assert(before_rest.to_multiset().count(e) > 0) by {
                assert(before_rest.contains(e));
            }
        }
        assert forall|i: int, j: int|
            #![trigger out@[i], rest@[j]]
            0 <= i < out@.len() && 0 <= j < rest@.len() implies lex_le(
            out@[i].name@,
            rest@[j].name@,
        ) by {
            let jj = if j < m { j } else { j + 1 };
            assert(rest@[j] == before_rest[jj]);
            if i < before_out.len() {
                assert(lex_le(before_out[i].name@, before_rest[jj].name@));
            }
        }
        assert forall|i: int, j: int| 0 <= i < j < out@.len() implies lex_le(
            out@[i].name@,
            out@[j].name@,
        ) by {
            if j == out@.len() - 1 {
                assert(lex_le(before_out[i].name@, before_rest[m as int].name@));
            }
        }
    }
    proof {
        rest@.to_multiset_ensures();
    }
    assert(rest@.to_multiset() =~= vstd::multiset::Multiset::empty());
    assert(out@.to_multiset().add(rest@.to_multiset()) =~= out@.to_multiset());
    out
}

/// The listing page for a directory reached at `uri`, its entries sorted
/// by name.
pub fn serve_directory_listing(uri: &[u8], entries: Vec<DirEntry>) -> (r: HttpResponse)
    ensures
        exists|s: Seq<DirEntry>|
            s.to_multiset() == entries@.to_multiset() && sorted_by_name(s) && r@
                == crate::http_response::with_body(
                crate::http_response::with_header(
                    crate::http_response::fresh(200),
                    b("Content-Type"),
                    b("text/html"),
                ),
                crate::http_response::listing_body(uri@, s),
            ),
{
    let sorted = sort_by_name(entries);
    HttpResponse::directory_listing(uri, &sorted)
}

} // verus!
