//! The server configuration tree, and the parser of the nginx-flavoured
//! configuration text it is read from.
//!
//! The text is read line by line, each line trimmed. A `server {` line opens
//! a server block and a `location <prefix> {` line a location block inside
//! it; a `}` line closes the innermost block. Each other line is a
//! `directive arg...;` line; unknown lines are ignored.
use vstd::prelude::*;
use crate::bytes::{
    copy, find_byte, find_first, find_last, is_prefix, is_digit,
    parse_radix, parse_unsigned, rfind_byte, slice_of, split_words, starts_with, to_upper, trim,
    trim_bytes, upper, words,
};
use crate::fields::bytes_eq;
use crate::http_response::{b, text};

verus! {

pub struct ServerConfig {
    pub host: Vec<u8>,
    pub port: u16,
    pub server_names: Vec<Vec<u8>>,
    /// Custom error bodies: status code and file path, one entry per code.
    pub error_pages: Vec<(u16, Vec<u8>)>,
    pub client_max_body_size: usize,
    pub routes: Vec<Route>,
}

pub struct Route {
    pub path: Vec<u8>,
    pub methods: Vec<Vec<u8>>,
    pub root: Option<Vec<u8>>,
    pub index: Vec<Vec<u8>>,
    pub autoindex: bool,
    pub redirect: Option<(u16, Vec<u8>)>,
    pub cgi_extension: Option<Vec<u8>>,
    pub cgi_path: Option<Vec<u8>>,
    pub upload_dir: Option<Vec<u8>>,
}

pub struct Config {
    pub servers: Vec<ServerConfig>,
}

/// The custom error page configured for `code`.
pub open spec fn error_page_for(pages: Seq<(u16, Vec<u8>)>, code: u16) -> Option<Seq<u8>>
    decreases pages.len(),
{
    if pages.len() == 0 {
        None
    } else if pages[0].0 == code {
        Some(pages[0].1@)
    } else {
        error_page_for(pages.drop_first(), code)
    }
}

pub struct RouteView {
    pub path: Seq<u8>,
    pub methods: Seq<Seq<u8>>,
    pub root: Option<Seq<u8>>,
    pub index: Seq<Seq<u8>>,
    pub autoindex: bool,
    pub redirect: Option<(u16, Seq<u8>)>,
    pub cgi_extension: Option<Seq<u8>>,
    pub cgi_path: Option<Seq<u8>>,
    pub upload_dir: Option<Seq<u8>>,
}

pub open spec fn opt_view(o: Option<Vec<u8>>) -> Option<Seq<u8>> {
    match o {
        Some(v) => Some(v@),
        None => None,
    }
}

pub open spec fn seqs_view(v: Seq<Vec<u8>>) -> Seq<Seq<u8>> {
    Seq::new(v.len(), |i: int| v[i]@)
}

impl View for Route {
    type V = RouteView;

    open spec fn view(&self) -> RouteView {
        RouteView {
            path: self.path@,
            methods: seqs_view(self.methods@),
            root: opt_view(self.root),
            index: seqs_view(self.index@),
            autoindex: self.autoindex,
            redirect: match self.redirect {
                Some((c, l)) => Some((c, l@)),
                None => None,
            },
            cgi_extension: opt_view(self.cgi_extension),
            cgi_path: opt_view(self.cgi_path),
            upload_dir: opt_view(self.upload_dir),
        }
    }
}

pub struct ServerView {
    pub host: Seq<u8>,
    pub port: u16,
    pub server_names: Seq<Seq<u8>>,
    pub error_pages: Seq<(u16, Seq<u8>)>,
    pub client_max_body_size: usize,
    pub routes: Seq<RouteView>,
}

pub open spec fn pages_view(v: Seq<(u16, Vec<u8>)>) -> Seq<(u16, Seq<u8>)> {
    Seq::new(v.len(), |i: int| (v[i].0, v[i].1@))
}

pub open spec fn routes_view(v: Seq<Route>) -> Seq<RouteView> {
    Seq::new(v.len(), |i: int| v[i]@)
}

impl View for ServerConfig {
    type V = ServerView;

    open spec fn view(&self) -> ServerView {
        ServerView {
            host: self.host@,
            port: self.port,
            server_names: seqs_view(self.server_names@),
            error_pages: pages_view(self.error_pages@),
            client_max_body_size: self.client_max_body_size,
            routes: routes_view(self.routes@),
        }
    }
}

impl View for Config {
    type V = Seq<ServerView>;

    open spec fn view(&self) -> Seq<ServerView> {
        Seq::new(self.servers@.len(), |i: int| self.servers@[i]@)
    }
}

#[derive(PartialEq, Eq, Structural, Clone, Copy, Debug)]
pub enum ConfigErrorKind {
    NoServers,
    DuplicateServer,
}

/// Why a configuration was rejected; for a duplicate, the repeated address.
pub struct ConfigError {
    pub kind: ConfigErrorKind,
    pub host: Vec<u8>,
    pub port: u16,
}

/// `s` without its trailing `c` characters.
pub open spec fn strip_end(s: Seq<u8>, c: u8) -> Seq<u8>
    decreases s.len(),
{
    if s.len() > 0 && s.last() == c {
        strip_end(s.drop_last(), c)
    } else {
        s
    }
}

fn strip_end_bytes(s: &[u8], c: u8) -> (r: Vec<u8>)
    ensures
        r@ == strip_end(s@, c),
{
    let mut j = s.len();
    assert(s@.subrange(0, j as int) =~= s@);
    while j > 0 && s[j - 1] == c
        invariant
            j <= s@.len(),
            strip_end(s@, c) == strip_end(s@.subrange(0, j as int), c),
        decreases j,
    {
        assert(s@.subrange(0, j as int).drop_last() =~= s@.subrange(0, j - 1));
        j = j - 1;
    }
    slice_of(s, 0, j)
}

/// A directive argument: the word without its trailing `;`.
pub open spec fn arg(w: Seq<u8>) -> Seq<u8> {
    strip_end(w, 59)
}

/// The arguments of a directive line: its words after the first.
pub open spec fn args(w: Seq<Seq<u8>>) -> Seq<Seq<u8>> {
    if w.len() >= 1 {
        w.subrange(1, w.len() as int).map_values(|x: Seq<u8>| arg(x))
    } else {
        Seq::empty()
    }
}

/// A status code or port number: decimal, at most 65535.
pub open spec fn u16_of(s: Seq<u8>) -> Option<u16> {
    match parse_unsigned(s, 10) {
        Some(n) => if n <= 65535 {
            Some(n as u16)
        } else {
            None
        },
        None => None,
    }
}

fn parse_u16(s: &[u8]) -> (r: Option<u16>)
    ensures
        r == u16_of(s@),
{
    match parse_radix(s, 10) {
        Some(n) => if n <= 65535 {
            Some(n as u16)
        } else {
            None
        },
        None => None,
    }
}

/// The words of `line` without their trailing `;`, from the second on.
fn line_args(line: &[u8]) -> (r: Vec<Vec<u8>>)
    ensures
        seqs_view(r@) == args(words(line@)),
{
    let w = split_words(line);
    let mut r: Vec<Vec<u8>> = Vec::new();
    if w.len() == 0 {
        assert(seqs_view(r@) =~= args(words(line@)));
        return r;
    }
    assert(seqs_view(r@) =~= words(line@).subrange(1, 1).map_values(|x: Seq<u8>| arg(x)));
    let mut k: usize = 1;
    while k < w.len()
        invariant
            1 <= k <= w@.len(),
            w@.len() == words(line@).len(),
            forall|j: int| 0 <= j < w@.len() ==> (#[trigger] w@[j])@ == words(line@)[j],
            seqs_view(r@) == words(line@).subrange(1, k as int).map_values(|x: Seq<u8>| arg(x)),
        decreases w@.len() - k,
    {
        let ghost before = r@;
        let x = strip_end_bytes(w[k].as_slice(), 59);
        assert(x@ == arg(words(line@)[k as int]));
        r.push(x);
        assert(seqs_view(r@) =~= seqs_view(before).push(x@));
        assert(words(line@).subrange(1, k + 1).map_values(|x: Seq<u8>| arg(x)) =~= words(
            line@,
        ).subrange(1, k as int).map_values(|x: Seq<u8>| arg(x)).push(arg(words(line@)[k as int])));
        k = k + 1;
    }
    assert(seqs_view(r@) == args(words(line@)));
    r
}

/// The route a `location` line opens, before its directives.
pub open spec fn initial_route(first: Seq<u8>) -> RouteView {
    let w = words(first);
    RouteView {
        path: if w.len() >= 2 {
            trim(strip_end(w[1], 123))
        } else {
            b("/")
        },
        methods: seq![b("GET"), b("POST"), b("DELETE")],
        root: None,
        index: seq![b("index.html")],
        autoindex: false,
        redirect: None,
        cgi_extension: None,
        cgi_path: None,
        upload_dir: None,
    }
}

/// The route after one directive line of its block.
pub open spec fn location_line(r: RouteView, line: Seq<u8>) -> RouteView {
    let w = words(line);
    let a = args(w);
    if is_prefix(b("allow_methods "), line) {
        RouteView { methods: a.map_values(|x: Seq<u8>| upper(x)), ..r }
    } else if is_prefix(b("root "), line) {
        if w.len() >= 2 {
            RouteView { root: Some(a[0]), ..r }
        } else {
            r
        }
    } else if is_prefix(b("index "), line) {
        RouteView { index: a, ..r }
    } else if is_prefix(b("autoindex "), line) {
        if w.len() >= 2 {
            RouteView { autoindex: a[0] == b("on"), ..r }
        } else {
            r
        }
    } else if is_prefix(b("return "), line) {
        if w.len() >= 3 {
            match u16_of(w[1]) {
                Some(code) => RouteView { redirect: Some((code, a[1])), ..r },
                None => r,
            }
        } else {
            r
        }
    } else if is_prefix(b("cgi_extension "), line) {
        if w.len() >= 2 {
            RouteView { cgi_extension: Some(a[0]), ..r }
        } else {
            r
        }
    } else if is_prefix(b("cgi_path "), line) {
        if w.len() >= 2 {
            RouteView { cgi_path: Some(a[0]), ..r }
        } else {
            r
        }
    } else if is_prefix(b("upload_dir "), line) {
        if w.len() >= 2 {
            RouteView { upload_dir: Some(a[0]), ..r }
        } else {
            r
        }
    } else {
        r
    }
}

/// The directives of a location block from line `i` on, up to its `}` (or
/// the end); gives the route and the index of the closing line.
pub open spec fn location_body(lines: Seq<Seq<u8>>, i: int, r: RouteView) -> (RouteView, int)
    decreases lines.len() - i,
{
    if i < 0 || i >= lines.len() || lines[i] == b("}") {
        (r, i)
    } else {
        location_body(lines, i + 1, location_line(r, lines[i]))
    }
}

/// The line after the block that closes at line `e` (or runs to the end).
pub open spec fn after(lines: Seq<Seq<u8>>, e: int) -> int {
    if e < lines.len() {
        e + 1
    } else {
        e
    }
}

/// What the location block opened at line `start` gives: the route, and
/// the line after the block.
pub open spec fn location_block(lines: Seq<Seq<u8>>, start: int) -> (RouteView, int) {
    let (r, e) = location_body(lines, start + 1, initial_route(lines[start]));
    (r, after(lines, e))
}

proof fn lemma_location_body_end(lines: Seq<Seq<u8>>, i: int, r: RouteView)
    requires
        0 <= i <= lines.len(),
    ensures
        i <= location_body(lines, i, r).1 <= lines.len(),
    decreases lines.len() - i,
{
    if i < lines.len() && lines[i] != b("}") {
        lemma_location_body_end(lines, i + 1, location_line(r, lines[i]));
    }
}

/// The numeric value of a size such as `10`, `8K`, `2M` or `1G` (suffix in
/// either case), before it is fitted to a machine word; a size without a
/// number counts as 1048576 units.
pub open spec fn size_value(s: Seq<u8>) -> nat {
    let u = upper(s);
    let mult: nat = if u.len() > 0 && u.last() == 75 {
        1024
    } else if u.len() > 0 && u.last() == 77 {
        1024 * 1024
    } else if u.len() > 0 && u.last() == 71 {
        1024 * 1024 * 1024
    } else {
        1
    };
    let n = match parse_unsigned(strip_non_digits(u), 10) {
        Some(v) => v,
        None => 1048576,
    };
    n * mult
}

/// `s` without its trailing bytes that are not decimal digits.
pub open spec fn strip_non_digits(s: Seq<u8>) -> Seq<u8>
    decreases s.len(),
{
    if s.len() > 0 && !is_digit(s.last()) {
        strip_non_digits(s.drop_last())
    } else {
        s
    }
}

/// The server after one directive line of its block (not a `location`).
pub open spec fn server_line(s: ServerView, line: Seq<u8>) -> ServerView {
    let w = words(line);
    let a = args(w);
    if is_prefix(b("listen "), line) {
        if w.len() >= 2 {
            let addr = a[0];
            match find_last(addr, 58) {
                Some(c) => ServerView {
                    host: addr.subrange(0, c),
                    port: match u16_of(addr.subrange(c + 1, addr.len() as int)) {
                        Some(p) => p,
                        None => 8080,
                    },
                    ..s
                },
                None => ServerView {
                    port: match u16_of(addr) {
                        Some(p) => p,
                        None => 8080,
                    },
                    ..s
                },
            }
        } else {
            s
        }
    } else if is_prefix(b("server_name "), line) {
        ServerView { server_names: s.server_names + a, ..s }
    } else if is_prefix(b("error_page "), line) {
        if w.len() >= 3 {
            match u16_of(w[1]) {
                Some(code) => ServerView { error_pages: set_page(s.error_pages, code, a[1]), ..s },
                None => s,
            }
        } else {
            s
        }
    } else if is_prefix(b("client_max_body_size "), line) {
        if w.len() >= 2 {
            ServerView {
                client_max_body_size: (size_value(a[0]) % (usize::MAX as nat + 1)) as usize,
                ..s
            }
        } else {
            s
        }
    } else {
        s
    }
}

/// The error pages with `code` bound to `path`; a page for the code keeps its place.
pub open spec fn set_page(pages: Seq<(u16, Seq<u8>)>, code: u16, path: Seq<u8>) -> Seq<
    (u16, Seq<u8>),
>
    decreases pages.len(),
{
    if pages.len() == 0 {
        seq![(code, path)]
    } else if pages[0].0 == code {
        pages.update(0, (code, path))
    } else {
        seq![pages[0]] + set_page(pages.drop_first(), code, path)
    }
}

/// A server block's settings before its directives.
pub open spec fn initial_server() -> ServerView {
    ServerView {
        host: b("127.0.0.1"),
        port: 8080,
        server_names: Seq::empty(),
        error_pages: Seq::empty(),
        client_max_body_size: 1048576,
        routes: Seq::empty(),
    }
}

/// The route a server without location blocks serves.
pub open spec fn default_route() -> RouteView {
    RouteView {
        path: b("/"),
        methods: seq![b("GET"), b("POST"), b("DELETE")],
        root: Some(b("./www")),
        index: seq![b("index.html")],
        autoindex: false,
        redirect: None,
        cgi_extension: None,
        cgi_path: None,
        upload_dir: None,
    }
}

/// The directives of a server block from line `i` on, up to its `}` (or the
/// end); gives the server and the index of the closing line.
pub open spec fn server_body(lines: Seq<Seq<u8>>, i: int, s: ServerView) -> (ServerView, int)
    decreases lines.len() + 1 - i,
{
    if i < 0 || i >= lines.len() || lines[i] == b("}") {
        (s, i)
    } else if is_prefix(b("location "), lines[i]) {
        let (r, next) = location_block(lines, i);
        if i < next <= lines.len() {
            server_body(lines, next, ServerView { routes: s.routes.push(r), ..s })
        } else {
            (s, i)
        }
    } else {
        server_body(lines, i + 1, server_line(s, lines[i]))
    }
}

/// What the server block opened at line `start` gives: the server, and the
/// line after the block.
pub open spec fn server_block(lines: Seq<Seq<u8>>, start: int) -> (ServerView, int) {
    let (s, e) = server_body(lines, start + 1, initial_server());
    let s = if s.routes.len() == 0 {
        ServerView { routes: seq![default_route()], ..s }
    } else {
        s
    };
    (s, after(lines, e))
}

proof fn lemma_server_body_end(lines: Seq<Seq<u8>>, i: int, s: ServerView)
    requires
        0 <= i <= lines.len(),
    ensures
        i <= server_body(lines, i, s).1 <= lines.len(),
    decreases lines.len() + 1 - i,
{
    if i < lines.len() && lines[i] != b("}") {
        if is_prefix(b("location "), lines[i]) {
            let (r, next) = location_block(lines, i);
            lemma_location_body_end(lines, i + 1, initial_route(lines[i]));
            if i < next <= lines.len() {
                lemma_server_body_end(lines, next, ServerView { routes: s.routes.push(r), ..s });
            }
        } else {
            lemma_server_body_end(lines, i + 1, server_line(s, lines[i]));
        }
    }
}

/// The server blocks from line `i` on, after those in `acc`.
pub open spec fn server_blocks(lines: Seq<Seq<u8>>, i: int, acc: Seq<ServerView>) -> Seq<ServerView>
    decreases lines.len() + 1 - i,
{
    if i < 0 || i >= lines.len() {
        acc
    } else if is_prefix(b("server {"), lines[i]) {
        let (s, next) = server_block(lines, i);
        if i < next <= lines.len() {
            server_blocks(lines, next, acc.push(s))
        } else {
            acc
        }
    } else {
        server_blocks(lines, i + 1, acc)
    }
}

/// The lines of a text, split at `\n`.
pub open spec fn split_lines(s: Seq<u8>) -> Seq<Seq<u8>>
    decreases s.len(),
{
    match find_first(s, 10) {
        Some(i) => if 0 <= i < s.len() {
            seq![s.subrange(0, i)] + split_lines(s.subrange(i + 1, s.len() as int))
        } else {
            seq![s]
        },
        None => seq![s],
    }
}

/// The trimmed lines of a configuration text.
pub open spec fn config_lines(s: Seq<u8>) -> Seq<Seq<u8>> {
    split_lines(s).map_values(|l: Seq<u8>| trim(l))
}

/// Server `j` repeats the address of an earlier server.
pub open spec fn repeats_address(servers: Seq<ServerView>, j: int) -> bool {
    exists|i: int|
        0 <= i < j && servers[i].host == servers[j].host && servers[i].port == servers[j].port
}

impl ServerConfig {
    /// Path of the custom error page for `code`, if one is configured.
    pub fn error_page_path(&self, code: u16) -> (r: Option<&Vec<u8>>)
        ensures
            r matches Some(p) ==> error_page_for(self.error_pages@, code) == Some(p@),
            r is None ==> error_page_for(self.error_pages@, code) is None,
    {
        let mut i: usize = 0;
        assert(self.error_pages@.subrange(0, self.error_pages@.len() as int) =~= self.error_pages@);
        while i < self.error_pages.len()
            invariant
                i <= self.error_pages@.len(),
                error_page_for(self.error_pages@, code) == error_page_for(
                    self.error_pages@.subrange(i as int, self.error_pages@.len() as int),
                    code,
                ),
            decreases self.error_pages@.len() - i,
        {
            let ghost rest = self.error_pages@.subrange(i as int, self.error_pages@.len() as int);
            assert(rest.drop_first() =~= self.error_pages@.subrange(
                i + 1,
                self.error_pages@.len() as int,
            ));
            if self.error_pages[i].0 == code {
                return Some(&self.error_pages[i].1);
            }
            i = i + 1;
        }
        None
    }
}


fn three_methods() -> (r: Vec<Vec<u8>>)
    ensures
        seqs_view(r@) == seq![b("GET"), b("POST"), b("DELETE")],
{
    let mut r: Vec<Vec<u8>> = Vec::new();
    r.push(text("GET"));
    r.push(text("POST"));
    r.push(text("DELETE"));
    assert(seqs_view(r@) =~= seq![b("GET"), b("POST"), b("DELETE")]);
    r
}

fn uppercase_all(a: &Vec<Vec<u8>>) -> (r: Vec<Vec<u8>>)
    ensures
        seqs_view(r@) == seqs_view(a@).map_values(|x: Seq<u8>| upper(x)),
{
    let mut r: Vec<Vec<u8>> = Vec::new();
    let mut k: usize = 0;
    while k < a.len()
        invariant
            k <= a@.len(),
            seqs_view(r@) == seqs_view(a@).subrange(0, k as int).map_values(|x: Seq<u8>| upper(x)),
        decreases a@.len() - k,
    {
        let ghost before = r@;
        let x = to_upper(a[k].as_slice());
        r.push(x);
        assert(seqs_view(r@) =~= seqs_view(before).push(x@));
        assert(seqs_view(a@).subrange(0, k + 1).map_values(|x: Seq<u8>| upper(x)) =~= seqs_view(
            a@,
        ).subrange(0, k as int).map_values(|x: Seq<u8>| upper(x)).push(upper(a@[k as int]@)));
        k = k + 1;
    }
    assert(seqs_view(a@).subrange(0, k as int) =~= seqs_view(a@));
    r
}

/// Applies one directive line of a location block.
fn apply_location_line(route: &mut Route, line: &[u8])
    ensures
        final(route)@ == location_line(old(route)@, line@),
{
    let w = split_words(line);
    let a = line_args(line);
    let ghost wv = words(line@);
    let ghost av = args(wv);
    assert(wv.len() >= 2 ==> av.len() == wv.len() - 1 && av[0] == arg(wv[1]));
    if starts_with(line, text("allow_methods ").as_slice()) {
        route.methods = uppercase_all(&a);
    } else if starts_with(line, text("root ").as_slice()) {
        if w.len() >= 2 {
            route.root = Some(copy(a[0].as_slice()));
        }
    } else if starts_with(line, text("index ").as_slice()) {
        route.index = a;
    } else if starts_with(line, text("autoindex ").as_slice()) {
        if w.len() >= 2 {
            route.autoindex = bytes_eq(a[0].as_slice(), text("on").as_slice());
        }
    } else if starts_with(line, text("return ").as_slice()) {
        if w.len() >= 3 {
            match parse_u16(w[1].as_slice()) {
                Some(code) => {
                    route.redirect = Some((code, copy(a[1].as_slice())));
                },
                None => {},
            }
        }
    } else if starts_with(line, text("cgi_extension ").as_slice()) {
        if w.len() >= 2 {
            route.cgi_extension = Some(copy(a[0].as_slice()));
        }
    } else if starts_with(line, text("cgi_path ").as_slice()) {
        if w.len() >= 2 {
            route.cgi_path = Some(copy(a[0].as_slice()));
        }
    } else if starts_with(line, text("upload_dir ").as_slice()) {
        if w.len() >= 2 {
            route.upload_dir = Some(copy(a[0].as_slice()));
        }
    }
    assert(final(route)@ =~= location_line(old(route)@, line@)) by {
        assert(seqs_view(final(route).methods@) =~= final(route)@.methods);
    }
}

/// A view of a sequence of lines.
pub open spec fn lines_view(lines: &Vec<Vec<u8>>) -> Seq<Seq<u8>> {
    seqs_view(lines@)
}

/// The numeric value of a size with an optional `K`, `M` or `G` suffix,
/// wrapped to a machine word as unsigned multiplication wraps.
pub fn parse_size(size_str: &[u8]) -> (r: usize)
    ensures
        r as nat == size_value(size_str@) % (usize::MAX as nat + 1),
{
    let u = to_upper(size_str);
    let n = u.len();
    let mult: usize = if n > 0 && u[n - 1] == 75 {
        1024
    } else if n > 0 && u[n - 1] == 77 {
        1024 * 1024
    } else if n > 0 && u[n - 1] == 71 {
        1024 * 1024 * 1024
    } else {
        1
    };
    let mut j = n;
    assert(u@.subrange(0, j as int) =~= u@);
    while j > 0 && !(48 <= u[j - 1] && u[j - 1] <= 57)
        invariant
            j <= u@.len(),
            strip_non_digits(u@) == strip_non_digits(u@.subrange(0, j as int)),
        decreases j,
    {
        assert(u@.subrange(0, j as int).drop_last() =~= u@.subrange(0, j - 1));
        j = j - 1;
    }
    let digits = slice_of(u.as_slice(), 0, j);
    let value: usize = match parse_radix(digits.as_slice(), 10) {
        Some(v) => v,
        None => 1048576,
    };
    let r = value.wrapping_mul(mult);
    assert(r as nat == (value as nat * mult as nat) % (usize::MAX as nat + 1));
    r
}

impl Config {
    /// Parses the location block opened at line `start` of trimmed `lines`;
    /// gives the route and the line after the block.
    fn parse_location(lines: &Vec<Vec<u8>>, start: usize) -> (r: (Route, usize))
        requires
            start < lines@.len(),
        ensures
            (r.0@, r.1 as int) == location_block(lines_view(lines), start as int),
            start < r.1 <= lines@.len(),
    {
        let ghost lv = lines_view(lines);
        let w = split_words(lines[start].as_slice());
        let path = if w.len() >= 2 {
            trim_bytes(strip_end_bytes(w[1].as_slice(), 123).as_slice())
        } else {
            text("/")
        };
        let mut index: Vec<Vec<u8>> = Vec::new();
        index.push(text("index.html"));
        let mut route = Route {
            path,
            methods: three_methods(),
            root: None,
            index,
            autoindex: false,
            redirect: None,
            cgi_extension: None,
            cgi_path: None,
            upload_dir: None,
        };
        assert(route@ =~= initial_route(lv[start as int])) by {
            assert(seqs_view(route.index@) =~= seq![b("index.html")]);
        }
        let n = lines.len();
        let mut i = start + 1;
        while i < n
            invariant
                n == lines@.len(),
                start + 1 <= i <= lines@.len(),
                lv == lines_view(lines),
                location_body(lv, start + 1, initial_route(lv[start as int])) == location_body(
                    lv,
                    i as int,
                    route@,
                ),
            ensures
                start + 1 <= i <= lines@.len(),
                location_body(lv, start + 1, initial_route(lv[start as int])) == location_body(
                    lv,
                    i as int,
                    route@,
                ),
                i >= n || lv[i as int] == b("}"),
            decreases lines@.len() - i,
        {
            if bytes_eq(lines[i].as_slice(), text("}").as_slice()) {
                assert(lv[i as int] == b("}"));
                break;
            }
            apply_location_line(&mut route, lines[i].as_slice());
            i = i + 1;
        }
        assert(location_body(lv, i as int, route@) == (route@, i as int));
        let next = if i < n {
            i + 1
        } else {
            i
        };
        (route, next)
    }
}



proof fn lemma_set_page_at(p: Seq<(u16, Seq<u8>)>, code: u16, path: Seq<u8>, k: int)
    requires
        0 <= k < p.len(),
        p[k].0 == code,
        forall|j: int| 0 <= j < k ==> p[j].0 != code,
    ensures
        set_page(p, code, path) == p.update(k, (code, path)),
    decreases k,
{
    if k > 0 {
        lemma_set_page_at(p.drop_first(), code, path, k - 1);
        assert(seq![p[0]] + p.drop_first().update(k - 1, (code, path)) =~= p.update(k, (code, path)));
    }
}

proof fn lemma_set_page_absent(p: Seq<(u16, Seq<u8>)>, code: u16, path: Seq<u8>)
    requires
        forall|j: int| 0 <= j < p.len() ==> p[j].0 != code,
    ensures
        set_page(p, code, path) == p.push((code, path)),
    decreases p.len(),
{
    if p.len() > 0 {
        lemma_set_page_absent(p.drop_first(), code, path);
        assert(seq![p[0]] + p.drop_first().push((code, path)) =~= p.push((code, path)));
    } else {
        assert(seq![(code, path)] =~= p.push((code, path)));
    }
}

/// Binds error code `code` to `path`.
/// One entry per status code.
pub open spec fn unique_codes(p: Seq<(u16, Seq<u8>)>) -> bool {
    forall|i: int, j: int| 0 <= i < p.len() && 0 <= j < p.len() && p[i].0 == p[j].0 ==> i == j
}

/// Binding a code keeps one entry per code.
proof fn lemma_set_page_unique(p: Seq<(u16, Seq<u8>)>, code: u16, path: Seq<u8>)
    requires
        unique_codes(p),
    ensures
        unique_codes(set_page(p, code, path)),
        forall|i: int|
            0 <= i < set_page(p, code, path).len() ==> #[trigger] set_page(p, code, path)[i].0
                == code || exists|j: int| 0 <= j < p.len() && p[j].0 == set_page(p, code, path)[i].0,
    decreases p.len(),
{
    let q = set_page(p, code, path);
    if p.len() == 0 {
    } else if p[0].0 == code {
        assert forall|i: int| 0 <= i < q.len() implies q[i].0 == p[i].0 by {}
    } else {
        let rest = p.drop_first();
        assert(unique_codes(rest)) by {
            assert forall|i: int, j: int|
                0 <= i < rest.len() && 0 <= j < rest.len() && rest[i].0 == rest[j].0 implies i == j by {
                assert(p[i + 1] == rest[i] && p[j + 1] == rest[j]);
            }
        }
        lemma_set_page_unique(rest, code, path);
        let t = set_page(rest, code, path);
        assert(q == seq![p[0]] + t);
        assert forall|i: int| 0 <= i < t.len() implies t[i].0 != p[0].0 by {
            if t[i].0 != code {
                let j = choose|j: int| 0 <= j < rest.len() && rest[j].0 == t[i].0;
                assert(p[j + 1] == rest[j]);
            }
        }
        assert forall|a: int, c: int|
            0 <= a < q.len() && 0 <= c < q.len() && q[a].0 == q[c].0 implies a == c by {
            if a > 0 && c > 0 {
                assert(q[a] == t[a - 1] && q[c] == t[c - 1]);
            } else if a == 0 && c > 0 {
                assert(q[c] == t[c - 1]);
            } else if c == 0 && a > 0 {
                assert(q[a] == t[a - 1]);
            }
        }
        assert forall|i: int| 0 <= i < q.len() implies #[trigger] q[i].0 == code || exists|j: int|
            0 <= j < p.len() && p[j].0 == q[i].0 by {
            if i > 0 {
                assert(q[i] == t[i - 1]);
                if t[i - 1].0 != code {
                    let j = choose|j: int| 0 <= j < rest.len() && rest[j].0 == t[i - 1].0;
                    assert(p[j + 1] == rest[j]);
                }
            } else {
                assert(p[0].0 == q[0].0);
            }
        }
    }
}

/// A directive line keeps one error page per code.
proof fn lemma_server_line_unique(s: ServerView, line: Seq<u8>)
    requires
        unique_codes(s.error_pages),
    ensures
        unique_codes(server_line(s, line).error_pages),
{
    let w = words(line);
    if w.len() >= 3 {
        if let Some(code) = u16_of(w[1]) {
            lemma_set_page_unique(s.error_pages, code, args(w)[1]);
        }
    }
}

fn set_error_page(pages: &mut Vec<(u16, Vec<u8>)>, code: u16, path: Vec<u8>)
    ensures
        pages_view(final(pages)@) == set_page(pages_view(old(pages)@), code, path@),
{
    let ghost pv = pages_view(pages@);
    let ghost pathv = path@;
    let mut k: usize = 0;
    while k < pages.len()
        invariant
            k <= pages@.len(),
            pv == pages_view(pages@),
            pathv == path@,
            pages@ == old(pages)@,
            forall|j: int| 0 <= j < k ==> pv[j].0 != code,
        decreases pages@.len() - k,
    {
        if pages[k].0 == code {
            proof {
                lemma_set_page_at(pv, code, pathv, k as int);
            }
            let entry = (code, path);
            assert(entry.1@ == pathv);
            pages.set(k, entry);
            assert(pages@ == old(pages)@.update(k as int, entry));
            assert(pages_view(pages@) =~= pv.update(k as int, (code, pathv)));
            return;
        }
        k = k + 1;
    }
    proof {
        lemma_set_page_absent(pv, code, pathv);
    }
    pages.push((code, path));
    assert(pages_view(pages@) =~= pv.push((code, pathv)));
}

/// Applies one directive line of a server block (not a `location`).
fn apply_server_line(server: &mut ServerConfig, line: &[u8])
    ensures
        final(server)@ == server_line(old(server)@, line@),
{
    let w = split_words(line);
    let a = line_args(line);
    let ghost wv = words(line@);
    let ghost av = args(wv);
    assert(wv.len() >= 2 ==> av.len() == wv.len() - 1 && av[0] == arg(wv[1]));
    if starts_with(line, text("listen ").as_slice()) {
        if w.len() >= 2 {
            let addr = a[0].as_slice();
            match rfind_byte(addr, 58) {
                Some(c) => {
                    let n = addr.len();
                    server.host = slice_of(addr, 0, c);
                    server.port = match parse_u16(slice_of(addr, c + 1, n).as_slice()) {
                        Some(p) => p,
                        None => 8080,
                    };
                },
                None => {
                    server.port = match parse_u16(addr) {
                        Some(p) => p,
                        None => 8080,
                    };
                },
            }
        }
    } else if starts_with(line, text("server_name ").as_slice()) {
        let ghost before = server.server_names@;
        let mut k: usize = 0;
        while k < a.len()
            invariant
                k <= a@.len(),
                seqs_view(server.server_names@) == seqs_view(before) + seqs_view(a@).subrange(
                    0,
                    k as int,
                ),
                server.host == old(server).host,
                server.port == old(server).port,
                server.error_pages == old(server).error_pages,
                server.client_max_body_size == old(server).client_max_body_size,
                server.routes == old(server).routes,
            decreases a@.len() - k,
        {
            let ghost names = server.server_names@;
            let x = copy(a[k].as_slice());
            server.server_names.push(x);
            assert(seqs_view(server.server_names@) =~= seqs_view(names).push(x@));
            assert(seqs_view(a@).subrange(0, k + 1) =~= seqs_view(a@).subrange(0, k as int).push(
                x@,
            ));
            k = k + 1;
            assert(seqs_view(server.server_names@) =~= seqs_view(before) + seqs_view(a@).subrange(
                0,
                k as int,
            ));
        }
        assert(seqs_view(a@).subrange(0, k as int) =~= seqs_view(a@));
    } else if starts_with(line, text("error_page ").as_slice()) {
        if w.len() >= 3 {
            match parse_u16(w[1].as_slice()) {
                Some(code) => {
                    set_error_page(&mut server.error_pages, code, copy(a[1].as_slice()));
                },
                None => {},
            }
        }
    } else if starts_with(line, text("client_max_body_size ").as_slice()) {
        if w.len() >= 2 {
            server.client_max_body_size = parse_size(a[0].as_slice());
        }
    }
    assert(final(server)@ =~= server_line(old(server)@, line@)) by {
        assert(final(server)@.error_pages =~= pages_view(final(server).error_pages@));
    }
}

fn default_route_value() -> (r: Route)
    ensures
        r@ == default_route(),
{
    let mut index: Vec<Vec<u8>> = Vec::new();
    index.push(text("index.html"));
    let r = Route {
        path: text("/"),
        methods: three_methods(),
        root: Some(text("./www")),
        index,
        autoindex: false,
        redirect: None,
        cgi_extension: None,
        cgi_path: None,
        upload_dir: None,
    };
    assert(r@ =~= default_route()) by {
        assert(seqs_view(r.index@) =~= seq![b("index.html")]);
    }
    r
}

impl Config {
    /// Parses the server block opened at line `start` of trimmed `lines`;
    /// gives the server and the line after the block.
    fn parse_server(lines: &Vec<Vec<u8>>, start: usize) -> (r: (ServerConfig, usize))
        requires
            start < lines@.len(),
        ensures
            (r.0@, r.1 as int) == server_block(lines_view(lines), start as int),
            start < r.1 <= lines@.len(),
            unique_codes(r.0@.error_pages),
    {
        let ghost lv = lines_view(lines);
        let mut server = ServerConfig {
            host: text("127.0.0.1"),
            port: 8080,
            server_names: Vec::new(),
            error_pages: Vec::new(),
            client_max_body_size: 1048576,
            routes: Vec::new(),
        };
        assert(server@ == initial_server()) by {
            assert(seqs_view(server.server_names@) =~= Seq::<Seq<u8>>::empty());
            assert(pages_view(server.error_pages@) =~= Seq::<(u16, Seq<u8>)>::empty());
            assert(routes_view(server.routes@) =~= Seq::<RouteView>::empty());
        }
        let n = lines.len();
        let mut i = start + 1;
        while i < n
            invariant
                n == lines@.len(),
                start + 1 <= i <= n,
                lv == lines_view(lines),
                server_body(lv, start + 1, initial_server()) == server_body(lv, i as int, server@),
                unique_codes(server@.error_pages),
            ensures
                start + 1 <= i <= n,
                server_body(lv, start + 1, initial_server()) == server_body(lv, i as int, server@),
                unique_codes(server@.error_pages),
                i >= n || lv[i as int] == b("}"),
            decreases n - i,
        {
            let line = lines[i].as_slice();
            if bytes_eq(line, text("}").as_slice()) {
                assert(lv[i as int] == b("}"));
                break;
            }
            if starts_with(line, text("location ").as_slice()) {
                let (route, next) = Self::parse_location(lines, i);
                let ghost before = server@;
                server.routes.push(route);
                assert(routes_view(server.routes@) =~= before.routes.push(route@));
                assert(server@ == (ServerView { routes: before.routes.push(route@), ..before }));
                i = next;
            } else {
                proof {
                    lemma_server_line_unique(server@, line@);
                }
                apply_server_line(&mut server, line);
                i = i + 1;
            }
        }
        assert(server_body(lv, i as int, server@) == (server@, i as int));
        if server.routes.len() == 0 {
            let ghost before = server@;
            server.routes.push(default_route_value());
            assert(routes_view(server.routes@) =~= seq![default_route()]);
            assert(server@ == (ServerView { routes: seq![default_route()], ..before }));
        }
        let next = if i < n {
            i + 1
        } else {
            i
        };
        (server, next)
    }
}

/// The trimmed lines of a configuration text.
fn split_config_lines(s: &[u8]) -> (r: Vec<Vec<u8>>)
    ensures
        seqs_view(r@) == config_lines(s@),
{
    let mut r: Vec<Vec<u8>> = Vec::new();
    let n = s.len();
    let mut i: usize = 0;
    assert(s@.subrange(0, n as int) =~= s@);
    assert(seqs_view(r@) + config_lines(s@) =~= config_lines(s@));
    loop
        invariant
            i <= n == s@.len(),
            config_lines(s@) == seqs_view(r@) + config_lines(s@.subrange(i as int, n as int)),
        decreases n - i,
    {
        let rest = slice_of(s, i, n);
        let ghost before = r@;
        match find_byte(rest.as_slice(), 10) {
            Some(k) => {
                let line = trim_bytes(slice_of(rest.as_slice(), 0, k).as_slice());
                r.push(line);
                assert(split_lines(rest@) == seq![rest@.subrange(0, k as int)] + split_lines(
                    rest@.subrange(k + 1, rest@.len() as int),
                ));
                assert(rest@.subrange(k + 1, rest@.len() as int) =~= s@.subrange(
                    i + k + 1,
                    n as int,
                ));
                assert(config_lines(rest@) =~= seq![line@] + config_lines(
                    s@.subrange(i + k + 1, n as int),
                ));
                assert(seqs_view(r@) =~= seqs_view(before) + seq![line@]);
                i = i + k + 1;
            },
            None => {
                let line = trim_bytes(rest.as_slice());
                r.push(line);
                assert(config_lines(rest@) =~= seq![line@]);
                assert(seqs_view(r@) =~= seqs_view(before) + seq![line@]);
                assert(config_lines(s@) =~= seqs_view(r@));
                return r;
            },
        }
    }
}

/// The servers a configuration text declares, in order.
pub open spec fn declared_servers(content: Seq<u8>) -> Seq<ServerView> {
    server_blocks(config_lines(content), 0, Seq::empty())
}

impl Config {
    /// Parses a configuration text. Fails when it declares no server, or
    /// when a server repeats the host and port of an earlier one.
    pub fn parse(content: &[u8]) -> (r: Result<Config, ConfigError>)
        ensures
            declared_servers(content@).len() == 0 ==> (r matches Err(e) && e.kind
                == ConfigErrorKind::NoServers),
            declared_servers(content@).len() > 0 ==> match r {
                Ok(c) => c@ == declared_servers(content@) && (forall|j: int|
                    0 <= j < declared_servers(content@).len() ==> !repeats_address(
                        declared_servers(content@),
                        j,
                    )) && forall|j: int|
                    0 <= j < c@.len() ==> unique_codes(#[trigger] c@[j].error_pages),
                Err(e) => e.kind == ConfigErrorKind::DuplicateServer && exists|j: int|
                    0 <= j < declared_servers(content@).len() && repeats_address(
                        declared_servers(content@),
                        j,
                    ) && (forall|k: int| 0 <= k < j ==> !repeats_address(declared_servers(content@), k))
                        && e.host@ == declared_servers(content@)[j].host && e.port
                        == declared_servers(content@)[j].port,
            },
    {
        let lines = split_config_lines(content);
        let ghost lv = lines_view(&lines);
        let n = lines.len();
        let mut servers: Vec<ServerConfig> = Vec::new();
        let mut i: usize = 0;
        assert(Seq::new(servers@.len(), |k: int| servers@[k]@) =~= Seq::<ServerView>::empty());
        while i < n
            invariant
                n == lines@.len(),
                i <= n,
                lv == lines_view(&lines),
                server_blocks(lv, 0, Seq::empty()) == server_blocks(
                    lv,
                    i as int,
                    Seq::new(servers@.len(), |k: int| servers@[k]@),
                ),
                forall|k: int| 0 <= k < servers@.len() ==> unique_codes(#[trigger] servers@[k]@.error_pages),
            decreases n - i,
        {
            if starts_with(lines[i].as_slice(), text("server {").as_slice()) {
                let (server, next) = Self::parse_server(&lines, i);
                let ghost before = Seq::new(servers@.len(), |k: int| servers@[k]@);
                servers.push(server);
                assert(Seq::new(servers@.len(), |k: int| servers@[k]@) =~= before.push(server@));
                i = next;
            } else {
                i = i + 1;
            }
        }
        let ghost sv = Seq::new(servers@.len(), |k: int| servers@[k]@);
        assert(sv == declared_servers(content@));
        if servers.len() == 0 {
            return Err(ConfigError { kind: ConfigErrorKind::NoServers, host: Vec::new(), port: 0 });
        }
        let mut j: usize = 0;
        while j < servers.len()
            invariant
                j <= servers@.len(),
                sv == declared_servers(content@),
                sv == Seq::new(servers@.len(), |k: int| servers@[k]@),
                forall|k: int| 0 <= k < servers@.len() ==> unique_codes(#[trigger] servers@[k]@.error_pages),
                forall|k: int| 0 <= k < j ==> !repeats_address(sv, k),
            decreases servers@.len() - j,
        {
            let mut a: usize = 0;
            while a < j
                invariant
                    a <= j < servers@.len(),
                    forall|k: int| 0 <= k < j ==> !repeats_address(sv, k),
                    sv == declared_servers(content@),
                    sv == Seq::new(servers@.len(), |k: int| servers@[k]@),
                    forall|k: int|
                        0 <= k < a ==> !(sv[k].host == sv[j as int].host && sv[k].port == sv[j as int].port),
                decreases j - a,
            {
                if bytes_eq(servers[a].host.as_slice(), servers[j].host.as_slice()) && servers[a].port
                    == servers[j].port {
                    assert(sv[a as int] == servers@[a as int]@ && sv[j as int] == servers@[j as int]@);
                    assert(repeats_address(sv, j as int));
                    let e = ConfigError {
                        kind: ConfigErrorKind::DuplicateServer,
                        host: copy(servers[j].host.as_slice()),
                        port: servers[j].port,
                    };
                    assert(e.host@ == sv[j as int].host);
                    assert(e.port == sv[j as int].port);
                    assert(forall|k: int| 0 <= k < j ==> !repeats_address(sv, k));
                    assert(exists|jj: int|
                        0 <= jj < sv.len() && repeats_address(sv, jj) && (forall|k: int|
                            0 <= k < jj ==> !repeats_address(sv, k)) && e.host@ == sv[jj].host
                            && e.port == sv[jj].port) by {
                        assert(0 <= j < sv.len() && repeats_address(sv, j as int) && (forall|k: int|
                            0 <= k < j ==> !repeats_address(sv, k)) && e.host@ == sv[j as int].host
                            && e.port == sv[j as int].port);
                    }
                    return Err(e);
                }
                assert(sv[a as int] == servers@[a as int]@ && sv[j as int] == servers@[j as int]@);
                a = a + 1;
            }
            j = j + 1;
        }
        Ok(Config { servers })
    }
}

} // verus!
