//! The CGI/1.1 side of the server: the environment handed to a script, and
//! the reading of what the script printed. Spawning the process is the
//! caller's part.
use vstd::prelude::*;
use vstd::utf8::valid_utf8;
use crate::bytes::{
    copy, dec, dec_bytes, find_byte, find_first, find_first_seq, find_last,
    first_occurrence, parse_radix, parse_unsigned, rfind_byte, slice_of, split_words, upper_byte,
    words,
};
use crate::config::Route;
use crate::dispatch::Action;
use crate::fields::{insert, lookup, unique_names, FieldMap, FieldsView};
use crate::http_parser::add_header_line;
use crate::http_response::{b, fresh, text, with_body, with_header, HttpResponse, ResponseView};

verus! {

pub struct CgiHandler;

#[derive(Clone, Copy, PartialEq, Eq, Structural, Debug)]
pub enum CgiError {
    /// The script's output is not UTF-8.
    InvalidUtf8,
}

/// Relies on `std::str::from_utf8`: it accepts exactly the well-formed
/// UTF-8 byte sequences.
#[verifier::external_body]
fn is_utf8(bytes: &[u8]) -> (r: bool)
    ensures
        r == valid_utf8(bytes@),
{
    std::str::from_utf8(bytes).is_ok()
}

/// The header lines of `s` (separated by `\n`) added to `h` in order.
pub open spec fn add_header_lines(h: FieldsView, s: Seq<u8>) -> FieldsView
    decreases s.len(),
{
    match find_first(s, 10) {
        Some(i) => if 0 <= i < s.len() {
            add_header_lines(add_header_line(h, s.subrange(0, i)), s.subrange(i + 1, s.len() as int))
        } else {
            h
        },
        None => add_header_line(h, s),
    }
}

/// Where the script's header block ends and its body starts: the first
/// `\r\n\r\n`, else the first `\n\n`.
pub open spec fn cgi_split(out: Seq<u8>) -> Option<(int, int)> {
    match first_occurrence(out, seq![13u8, 10u8, 13u8, 10u8]) {
        Some(p) => Some((p, p + 4)),
        None => match first_occurrence(out, seq![10u8, 10u8]) {
            Some(p) => Some((p, p + 2)),
            None => None,
        },
    }
}

/// The headers of a script's output, names lower-cased.
pub open spec fn cgi_headers(out: Seq<u8>) -> FieldsView {
    match cgi_split(out) {
        Some((h, _)) => add_header_lines(Seq::empty(), out.subrange(0, h)),
        None => Seq::empty(),
    }
}

/// The body of a script's output: all of it when there is no header block.
pub open spec fn cgi_body(out: Seq<u8>) -> Seq<u8> {
    match cgi_split(out) {
        Some((_, start)) => out.subrange(start, out.len() as int),
        None => out,
    }
}

/// The status a script asks for: the leading number of its `Status`
/// header, else 200.
pub open spec fn cgi_status(h: FieldsView) -> u16 {
    match lookup(h, b("status")) {
        Some(v) => {
            let w = words(v);
            if w.len() > 0 {
                match parse_unsigned(w[0], 10) {
                    Some(n) => if n <= 65535 {
                        n as u16
                    } else {
                        200
                    },
                    None => 200,
                }
            } else {
                200
            }
        },
        None => 200,
    }
}

/// The script's headers but `status`, added to `base` in order.
pub open spec fn copy_headers(base: FieldsView, h: FieldsView) -> FieldsView
    decreases h.len(),
{
    if h.len() == 0 {
        base
    } else {
        let rest = copy_headers(base, h.drop_last());
        if h.last().0 == b("status") {
            rest
        } else {
            insert(rest, h.last().0, h.last().1)
        }
    }
}

/// The response made from a script's output.
pub open spec fn cgi_reply(out: Seq<u8>) -> ResponseView {
    let h = cgi_headers(out);
    let base = fresh(cgi_status(h));
    let copied = ResponseView { headers: copy_headers(base.headers, h), ..base };
    let typed = if lookup(h, b("content-type")) is Some {
        copied
    } else {
        with_header(copied, b("Content-Type"), b("text/html"))
    };
    with_body(typed, cgi_body(out))
}

fn add_lines(h: &mut FieldMap, s: &[u8])
    ensures
        final(h)@ == add_header_lines(old(h)@, s@),
{
    let n = s.len();
    let mut i: usize = 0;
    assert(s@.subrange(0, n as int) =~= s@);
    while i < n
        invariant
            i <= n == s@.len(),
            add_header_lines(old(h)@, s@) == add_header_lines(h@, s@.subrange(i as int, n as int)),
        decreases n - i,
    {
        let rest = slice_of(s, i, n);
        match find_byte(rest.as_slice(), 10) {
            Some(k) => {
                let line = slice_of(rest.as_slice(), 0, k);
                assert(add_header_lines(h@, rest@) == add_header_lines(
                    add_header_line(h@, line@),
                    rest@.subrange(k + 1, rest@.len() as int),
                ));
                add_line(h, line.as_slice());
                assert(rest@.subrange(k + 1, rest@.len() as int) =~= s@.subrange(
                    i + k + 1,
                    n as int,
                ));
                i = i + k + 1;
            },
            None => {
                add_line(h, rest.as_slice());
                assert(s@.subrange(n as int, n as int) =~= Seq::<u8>::empty());
                proof {
                    crate::bytes::lemma_find_first(Seq::<u8>::empty(), 10);
                    crate::bytes::lemma_find_first(Seq::<u8>::empty(), 58);
                }
                i = n;
            },
        }
    }
    proof {
        assert(s@.subrange(n as int, n as int) =~= Seq::<u8>::empty());
        crate::bytes::lemma_find_first(Seq::<u8>::empty(), 10);
        crate::bytes::lemma_find_first(Seq::<u8>::empty(), 58);
    }
}

/// Adds one `name: value` line; a line without `:` is ignored.
fn add_line(h: &mut FieldMap, line: &[u8])
    ensures
        final(h)@ == add_header_line(old(h)@, line@),
{
    match find_byte(line, 58) {
        Some(c) => {
            let name = crate::bytes::trim_bytes(slice_of(line, 0, c).as_slice());
            let key = crate::bytes::to_lower(name.as_slice());
            let n = line.len();
            let value = crate::bytes::trim_bytes(slice_of(line, c + 1, n).as_slice());
            h.insert(key, value);
        },
        None => {},
    }
}

impl CgiHandler {
    /// Splits a script's output into its headers and its body.
    pub fn parse_cgi_output(output: &[u8]) -> (r: Result<(FieldMap, Vec<u8>), CgiError>)
        ensures
            !valid_utf8(output@) ==> r == Err::<(FieldMap, Vec<u8>), CgiError>(
                CgiError::InvalidUtf8,
            ),
            valid_utf8(output@) ==> (r matches Ok((h, body)) && h@ == cgi_headers(output@)
                && body@ == cgi_body(output@)),
    {
        if !is_utf8(output) {
            return Err(CgiError::InvalidUtf8);
        }
        let mut headers = FieldMap::new();
        let n = output.len();
        let crlf2: Vec<u8> = vec![13u8, 10u8, 13u8, 10u8];
        let lf2: Vec<u8> = vec![10u8, 10u8];
        assert(crlf2@ =~= seq![13u8, 10u8, 13u8, 10u8]);
        assert(lf2@ =~= seq![10u8, 10u8]);
        let (head_end, body_start) = match find_first_seq(output, crlf2.as_slice()) {
            Some(p) => (p, p + 4),
            None => match find_first_seq(output, lf2.as_slice()) {
                Some(p) => (p, p + 2),
                None => {
                    return Ok((headers, copy(output)));
                },
            },
        };
        add_lines(&mut headers, slice_of(output, 0, head_end).as_slice());
        Ok((headers, slice_of(output, body_start, output.len())))
    }
}

/// The status a script asks for.
fn status_of(h: &FieldMap) -> (r: u16)
    ensures
        r == cgi_status(h@),
{
    match h.get(text("status").as_slice()) {
        Some(v) => {
            let w = split_words(v.as_slice());
            if w.len() > 0 {
                match parse_radix(w[0].as_slice(), 10) {
                    Some(n) => if n <= 65535 {
                        n as u16
                    } else {
                        200
                    },
                    None => 200,
                }
            } else {
                200
            }
        },
        None => 200,
    }
}

/// Builds the response for a script's output; output that is not UTF-8 is
/// a 500.
pub fn cgi_response(output: &[u8]) -> (a: Action)
    ensures
        !valid_utf8(output@) ==> a == Action::Error(500),
        valid_utf8(output@) ==> (a matches Action::Respond(r) && r@ == cgi_reply(output@)),
{
    match CgiHandler::parse_cgi_output(output) {
        Err(_) => Action::Error(500),
        Ok((h, body)) => {
            let status = status_of(&h);
            let mut response = HttpResponse::new(status);
            let ghost base = response@.headers;
            let mut i: usize = 0;
            while i < h.len()
                invariant
                    i <= h@.len(),
                    response@ == (ResponseView {
                        headers: copy_headers(base, h@.subrange(0, i as int)),
                        ..fresh(status)
                    }),
                decreases h@.len() - i,
            {
                let (k, v) = h.entry(i);
                assert(h@.subrange(0, i + 1).drop_last() =~= h@.subrange(0, i as int));
                if !crate::fields::bytes_eq(k.as_slice(), text("status").as_slice()) {
                    response.add_header(copy(k.as_slice()), copy(v.as_slice()));
                }
                i = i + 1;
            }
            assert(h@.subrange(0, i as int) =~= h@);
            if !h.contains_key(text("content-type").as_slice()) {
                response.add_header(text("Content-Type"), text("text/html"));
            }
            response.set_body(body);
            Action::Respond(response)
        },
    }
}

/// The query string of a request target: what lies between its first `?`
/// and the next one.
pub open spec fn query_of(uri: Seq<u8>) -> Seq<u8> {
    match find_first(uri, 63) {
        Some(q) => {
            let rest = uri.subrange(q + 1, uri.len() as int);
            match find_first(rest, 63) {
                Some(e) => rest.subrange(0, e),
                None => rest,
            }
        },
        None => Seq::empty(),
    }
}

pub fn query_string(uri: &[u8]) -> (r: Vec<u8>)
    ensures
        r@ == query_of(uri@),
{
    match find_byte(uri, 63) {
        Some(q) => {
            let n = uri.len();
            let rest = slice_of(uri, q + 1, n);
            match find_byte(rest.as_slice(), 63) {
                Some(e) => slice_of(rest.as_slice(), 0, e),
                None => rest,
            }
        },
        None => Vec::new(),
    }
}

/// The interpreter a route runs scripts with.
pub fn cgi_interpreter(route: &Route) -> (r: Vec<u8>)
    ensures
        r@ == match route.cgi_path {
            Some(p) => p@,
            None => b("/usr/bin/python3"),
        },
{
    match &route.cgi_path {
        Some(p) => copy(p.as_slice()),
        None => text("/usr/bin/python3"),
    }
}

/// `PATH_INFO`: from the first `/` after the script path's last `.` to the end.
pub open spec fn path_info(script: Seq<u8>) -> Option<Seq<u8>> {
    match find_last(script, 46) {
        Some(d) => match find_first(script.subrange(d, script.len() as int), 47) {
            Some(k) => Some(script.subrange(d + k, script.len() as int)),
            None => None,
        },
        None => None,
    }
}

/// The variable name a request header is exported under.
pub open spec fn http_var(name: Seq<u8>) -> Seq<u8> {
    b("HTTP_") + name.map_values(
        |c: u8|
            if c == 45 {
                95u8
            } else {
                upper_byte(c)
            },
    )
}

/// Every request header exported as `HTTP_<NAME>`, added to `env` in order.
pub open spec fn http_vars(env: FieldsView, headers: FieldsView) -> FieldsView
    decreases headers.len(),
{
    if headers.len() == 0 {
        env
    } else {
        insert(
            http_vars(env, headers.drop_last()),
            http_var(headers.last().0),
            headers.last().1,
        )
    }
}

/// The request facts a CGI environment is built from.
pub struct CgiRequest {
    pub script_path: Vec<u8>,
    pub method: Vec<u8>,
    pub query_string: Vec<u8>,
    pub headers: FieldMap,
    pub body_len: usize,
    pub server_addr: Vec<u8>,
    pub server_port: u16,
    pub remote_addr: Vec<u8>,
}

/// The fixed and per-request variables, before the exported headers.
pub open spec fn base_env(c: CgiRequest) -> FieldsView {
    let e = insert(Seq::empty(), b("GATEWAY_INTERFACE"), b("CGI/1.1"));
    let e = insert(e, b("SERVER_PROTOCOL"), b("HTTP/1.1"));
    let e = insert(e, b("SERVER_SOFTWARE"), b("Webserv/1.0"));
    let e = insert(e, b("REQUEST_METHOD"), c.method@);
    let e = insert(e, b("QUERY_STRING"), c.query_string@);
    let e = insert(e, b("SCRIPT_FILENAME"), c.script_path@);
    let e = insert(e, b("SCRIPT_NAME"), c.script_path@);
    let e = insert(e, b("SERVER_NAME"), c.server_addr@);
    let e = insert(e, b("SERVER_PORT"), dec(c.server_port as nat));
    let e = insert(e, b("REMOTE_ADDR"), c.remote_addr@);
    let e = match path_info(c.script_path@) {
        Some(pi) => insert(e, b("PATH_INFO"), pi),
        None => e,
    };
    let e = match lookup(c.headers@, b("content-type")) {
        Some(ct) => insert(e, b("CONTENT_TYPE"), ct),
        None => e,
    };
    if c.body_len > 0 {
        insert(e, b("CONTENT_LENGTH"), dec(c.body_len as nat))
    } else {
        e
    }
}

/// The environment a CGI script runs with.
pub open spec fn cgi_env(c: CgiRequest) -> FieldsView {
    http_vars(base_env(c), c.headers@)
}

fn push_var(env: &mut FieldMap, name: &str, value: Vec<u8>)
    ensures
        final(env)@ == insert(old(env)@, b(name), value@),
        unique_names(old(env)@) ==> unique_names(final(env)@),
{
    env.insert(text(name), value);
}

/// The CGI/1.1 environment for a request: fixed variables, per-request
/// variables, `PATH_INFO`, `CONTENT_TYPE` and `CONTENT_LENGTH` when they
/// apply, then every request header as `HTTP_<NAME>`.
pub fn cgi_environment(c: &CgiRequest) -> (r: FieldMap)
    ensures
        r@ == cgi_env(*c),
        unique_names(r@),
{
    let mut env = FieldMap::new();
    push_var(&mut env, "GATEWAY_INTERFACE", text("CGI/1.1"));
    push_var(&mut env, "SERVER_PROTOCOL", text("HTTP/1.1"));
    push_var(&mut env, "SERVER_SOFTWARE", text("Webserv/1.0"));
    push_var(&mut env, "REQUEST_METHOD", copy(c.method.as_slice()));
    push_var(&mut env, "QUERY_STRING", copy(c.query_string.as_slice()));
    push_var(&mut env, "SCRIPT_FILENAME", copy(c.script_path.as_slice()));
    push_var(&mut env, "SCRIPT_NAME", copy(c.script_path.as_slice()));
    push_var(&mut env, "SERVER_NAME", copy(c.server_addr.as_slice()));
    push_var(&mut env, "SERVER_PORT", dec_bytes(c.server_port as u64));
    push_var(&mut env, "REMOTE_ADDR", copy(c.remote_addr.as_slice()));
    let sp = c.script_path.as_slice();
    match rfind_byte(sp, 46) {
        Some(d) => {
            let tail = slice_of(sp, d, sp.len());
            match find_byte(tail.as_slice(), 47) {
                Some(k) => {
                    push_var(&mut env, "PATH_INFO", slice_of(sp, d + k, sp.len()));
                },
                None => {},
            }
        },
        None => {},
    }
    match c.headers.get(text("content-type").as_slice()) {
        Some(ct) => {
            push_var(&mut env, "CONTENT_TYPE", copy(ct.as_slice()));
        },
        None => {},
    }
    if c.body_len > 0 {
        push_var(&mut env, "CONTENT_LENGTH", dec_bytes(c.body_len as u64));
    }
    let mut map = env;
    let mut i: usize = 0;
    while i < c.headers.len()
        invariant
            i <= c.headers@.len(),
            map@ == http_vars(base_env(*c), c.headers@.subrange(0, i as int)),
            unique_names(map@),
        decreases c.headers@.len() - i,
    {
        let (k, v) = c.headers.entry(i);
        let mut name = text("HTTP_");
        let mut j: usize = 0;
        let ghost start = name@;
        while j < k.len()
            invariant
                j <= k@.len(),
                name@ == start + k@.subrange(0, j as int).map_values(
                    |ch: u8|
                        if ch == 45 {
                            95u8
                        } else {
                            upper_byte(ch)
                        },
                ),
            decreases k@.len() - j,
        {
            let ch = k[j];
            let up = if ch == 45 {
                95u8
            } else if 97 <= ch && ch <= 122 {
                ch - 32
            } else {
                ch
            };
            name.push(up);
            j = j + 1;
            assert(name@ =~= start + k@.subrange(0, j as int).map_values(
                |ch: u8|
                    if ch == 45 {
                        95u8
                    } else {
                        upper_byte(ch)
                    },
            ));
        }
        assert(k@.subrange(0, j as int) =~= k@);
        map.insert(name, copy(v.as_slice()));
        assert(c.headers@.subrange(0, i + 1).drop_last() =~= c.headers@.subrange(0, i as int));
        i = i + 1;
    }
    assert(c.headers@.subrange(0, i as int) =~= c.headers@);
    map
}

} // verus!
