//! In-memory HTTP responses and their serialization.
use vstd::prelude::*;
use vstd::slice::slice_to_vec;
use vstd::string::StringSliceAdditionalSpecFns;
use crate::bytes::{append_bytes, contains, dec, dec_bytes, is_suffix, occurs_at, ends_with};
use crate::fields::{
    bytes_eq,
    first_key, insert, lemma_first_key, unique_names, lemma_lookup_insert_other, lemma_lookup_insert_same, lookup, FieldMap, FieldsView,
};

verus! {

/// The UTF-8 bytes of `s`.
pub open spec fn b(s: &str) -> Seq<u8> {
    s.spec_bytes()
}

/// Copies a string into a byte vector.
pub fn text(s: &str) -> (r: Vec<u8>)
    ensures
        r@ == b(s),
{
    slice_to_vec(s.as_bytes())
}

pub struct HttpResponse {
    pub status_code: u16,
    pub status_text: Vec<u8>,
    pub headers: FieldMap,
    pub body: Vec<u8>,
}

pub struct ResponseView {
    pub status_code: u16,
    pub status_text: Seq<u8>,
    pub headers: FieldsView,
    pub body: Seq<u8>,
}

impl View for HttpResponse {
    type V = ResponseView;

    open spec fn view(&self) -> ResponseView {
        ResponseView {
            status_code: self.status_code,
            status_text: self.status_text@,
            headers: self.headers@,
            body: self.body@,
        }
    }
}

pub const ERROR_OPEN: &'static str = "<!DOCTYPE html>\n<html>\n<head>\n    <title>";

pub const ERROR_MID: &'static str = "</title>\n    <style>\n        body { font-family: Arial, sans-serif; text-align: center; padding: 50px; }\n        h1 { color: #333; }\n        p { color: #666; }\n    </style>\n</head>\n<body>\n    <h1>";

pub const ERROR_CLOSE: &'static str = "</h1>\n    <p>The server encountered an error processing your request.</p>\n    <hr>\n    <small>Webserv/1.0</small>\n</body>\n</html>";

pub const LISTING_OPEN: &'static str = "<!DOCTYPE html>\n<html>\n<head>\n    <title>Index of ";

pub const LISTING_MID: &'static str = "</title>\n    <style>\n        body { font-family: monospace; padding: 20px; }\n        a { display: block; padding: 5px; text-decoration: none; color: #0066cc; }\n        a:hover { background: #f0f0f0; }\n    </style>\n</head>\n<body>\n    <h1>Index of ";

pub const LISTING_RULE: &'static str = "</h1>\n    <hr>\n";

pub const PARENT_LINK: &'static str = "<a href=\"../\">../</a>";

pub const LISTING_CLOSE: &'static str = "</body></html>";

/// The built-in error page for a status code.
pub open spec fn default_error_body(code: u16) -> Seq<u8> {
    b(ERROR_OPEN) + dec(code as nat) + b(" ") + reason(code) + b(ERROR_MID) + dec(code as nat) + b(
        " ",
    ) + reason(code) + b(ERROR_CLOSE)
}

/// A directory entry as a listing shows it.
pub struct DirEntry {
    pub name: Vec<u8>,
    pub is_dir: bool,
}

/// The link for one entry of a listing of `uri`.
pub open spec fn entry_link(uri: Seq<u8>, e: DirEntry) -> Seq<u8> {
    let sep = if is_suffix(b("/"), uri) {
        Seq::empty()
    } else {
        b("/")
    };
    let shown = if e.is_dir {
        e.name@ + b("/")
    } else {
        e.name@
    };
    b("<a href=\"") + sep + e.name@ + b("\">") + shown + b("</a>")
}

pub open spec fn entry_links(uri: Seq<u8>, entries: Seq<DirEntry>) -> Seq<u8>
    decreases entries.len(),
{
    if entries.len() == 0 {
        Seq::empty()
    } else {
        entry_links(uri, entries.drop_last()) + entry_link(uri, entries.last())
    }
}

/// The HTML listing of a directory reached at `uri`.
pub open spec fn listing_body(uri: Seq<u8>, entries: Seq<DirEntry>) -> Seq<u8> {
    let parent = if uri != b("/") {
        b(PARENT_LINK)
    } else {
        Seq::empty()
    };
    b(LISTING_OPEN) + uri + b(LISTING_MID) + uri + b(LISTING_RULE) + parent + entry_links(
        uri,
        entries,
    ) + b(LISTING_CLOSE)
}

/// The reason phrase of a status code.
pub open spec fn reason(code: u16) -> Seq<u8> {
    if code == 200 {
        b("OK")
    } else if code == 201 {
        b("Created")
    } else if code == 204 {
        b("No Content")
    } else if code == 301 {
        b("Moved Permanently")
    } else if code == 302 {
        b("Found")
    } else if code == 304 {
        b("Not Modified")
    } else if code == 400 {
        b("Bad Request")
    } else if code == 403 {
        b("Forbidden")
    } else if code == 404 {
        b("Not Found")
    } else if code == 405 {
        b("Method Not Allowed")
    } else if code == 413 {
        b("Payload Too Large")
    } else if code == 500 {
        b("Internal Server Error")
    } else if code == 501 {
        b("Not Implemented")
    } else {
        b("Unknown")
    }
}

/// The headers every response starts with.
pub open spec fn default_headers() -> FieldsView {
    insert(
        insert(Seq::empty(), b("Server"), b("Webserv/1.0")),
        b("Connection"),
        b("keep-alive"),
    )
}

/// A new response with status `code`.
pub open spec fn fresh(code: u16) -> ResponseView {
    ResponseView {
        status_code: code,
        status_text: reason(code),
        headers: default_headers(),
        body: Seq::empty(),
    }
}

/// `v` with header `k` set to `val`.
pub open spec fn with_header(v: ResponseView, k: Seq<u8>, val: Seq<u8>) -> ResponseView {
    ResponseView { headers: insert(v.headers, k, val), ..v }
}

/// `v` with body `body` and its length declared.
pub open spec fn with_body(v: ResponseView, body: Seq<u8>) -> ResponseView {
    ResponseView {
        headers: insert(v.headers, b("Content-Length"), dec(body.len())),
        body,
        ..v
    }
}

/// One serialized header line.
pub open spec fn header_line(h: (Seq<u8>, Seq<u8>)) -> Seq<u8> {
    h.0 + b(": ") + h.1 + b("\r\n")
}

/// The serialized header lines, in order.
pub open spec fn header_block(h: FieldsView) -> Seq<u8>
    decreases h.len(),
{
    if h.len() == 0 {
        Seq::empty()
    } else {
        header_block(h.drop_last()) + header_line(h.last())
    }
}

/// Everything that precedes the body on the wire.
pub open spec fn head(v: ResponseView) -> Seq<u8> {
    b("HTTP/1.1 ") + dec(v.status_code as nat) + b(" ") + v.status_text + b("\r\n")
        + header_block(v.headers) + b("\r\n")
}

/// The bytes sent for a response.
pub open spec fn serialize(v: ResponseView) -> Seq<u8> {
    head(v) + v.body
}

/// The response declares the length of its body.
pub open spec fn framed(v: ResponseView) -> bool {
    lookup(v.headers, b("Content-Length")) == Some(dec(v.body.len()))
}

proof fn lemma_block_has_line(h: FieldsView, i: int) -> (parts: (Seq<u8>, Seq<u8>))
    requires
        0 <= i < h.len(),
    ensures
        header_block(h) == parts.0 + header_line(h[i]) + parts.1,
    decreases h.len(),
{
    if i == h.len() - 1 {
        let pre = header_block(h.drop_last());
        assert(header_block(h) =~= pre + header_line(h[i]) + Seq::<u8>::empty());
        (pre, Seq::empty())
    } else {
        let (pre, post) = lemma_block_has_line(h.drop_last(), i);
        assert(header_block(h) =~= pre + header_line(h[i]) + (post + header_line(h.last())));
        (pre, post + header_line(h.last()))
    }
}

/// Response framing: in a response that declares the length of its body, the
/// serialized bytes are a head followed by exactly the body, and the head
/// holds the header line `Content-Length: <that length>`.
pub proof fn lemma_framing(v: ResponseView)
    requires
        framed(v),
    ensures
        serialize(v) == head(v) + v.body,
        contains(head(v), header_line((b("Content-Length"), dec(v.body.len())))),
        is_suffix(v.body, serialize(v)),
        unique_names(v.headers) ==> exists|i: int|
            crate::fields::key_at(v.headers, b("Content-Length"), i) && forall|j: int|
                crate::fields::key_at(v.headers, b("Content-Length"), j) ==> j == i,
{
    let h = v.headers;
    let k = b("Content-Length");
    lemma_first_key(h, k);
    let i = first_key(h, k)->Some_0;
    let (pre, post) = lemma_block_has_line(h, i);
    let line = header_line((b("Content-Length"), dec(v.body.len())));
    assert(header_line(h[i]) =~= line);
    let sl = b("HTTP/1.1 ") + dec(v.status_code as nat) + b(" ") + v.status_text + b("\r\n");
    let hd = head(v);
    assert(hd =~= (sl + pre) + line + (post + b("\r\n")));
    let at: int = sl.len() as int + pre.len() as int;
    assert(hd.subrange(at, at + line.len()) =~= line);
    assert(occurs_at(hd, line, at));
    let s = serialize(v);
    assert(s.subrange(s.len() - v.body.len(), s.len() as int) =~= v.body);
}

/// The link for one entry of a listing of `uri`.
fn link_for(uri: &[u8], e: &DirEntry) -> (r: Vec<u8>)
    ensures
        r@ == entry_link(uri@, *e),
{
    let mut out = text("<a href=\"");
    if !ends_with(uri, text("/").as_slice()) {
        append_bytes(&mut out, text("/").as_slice());
    }
    append_bytes(&mut out, e.name.as_slice());
    append_bytes(&mut out, text("\">").as_slice());
    append_bytes(&mut out, e.name.as_slice());
    if e.is_dir {
        append_bytes(&mut out, text("/").as_slice());
    }
    append_bytes(&mut out, text("</a>").as_slice());
    out
}

impl HttpResponse {
    pub fn new(status_code: u16) -> (r: HttpResponse)
        ensures
            r@ == (ResponseView {
                status_code,
                status_text: reason(status_code),
                headers: default_headers(),
                body: Seq::empty(),
            }),
            unique_names(r@.headers),
    {
        let status_text = Self::status_text(status_code);
        let mut headers = FieldMap::new();
        headers.insert(text("Server"), text("Webserv/1.0"));
        headers.insert(text("Connection"), text("keep-alive"));
        HttpResponse { status_code, status_text, headers, body: Vec::new() }
    }

    pub fn status_text(code: u16) -> (r: Vec<u8>)
        ensures
            r@ == reason(code),
    {
        let s = if code == 200 {
            "OK"
        } else if code == 201 {
            "Created"
        } else if code == 204 {
            "No Content"
        } else if code == 301 {
            "Moved Permanently"
        } else if code == 302 {
            "Found"
        } else if code == 304 {
            "Not Modified"
        } else if code == 400 {
            "Bad Request"
        } else if code == 403 {
            "Forbidden"
        } else if code == 404 {
            "Not Found"
        } else if code == 405 {
            "Method Not Allowed"
        } else if code == 413 {
            "Payload Too Large"
        } else if code == 500 {
            "Internal Server Error"
        } else if code == 501 {
            "Not Implemented"
        } else {
            "Unknown"
        };
        text(s)
    }

    /// Replaces the body and declares its length.
    pub fn set_body(&mut self, body: Vec<u8>)
        ensures
            final(self)@ == (ResponseView {
                headers: insert(old(self)@.headers, b("Content-Length"), dec(body@.len())),
                body: body@,
                ..old(self)@
            }),
            framed(final(self)@),
            unique_names(old(self)@.headers) ==> unique_names(final(self)@.headers),
    {
        let len = dec_bytes(body.len() as u64);
        self.headers.insert(text("Content-Length"), len);
        self.body = body;
        proof {
            lemma_lookup_insert_same(old(self)@.headers, b("Content-Length"), dec(self.body@.len()));
        }
    }

    pub fn set_body_str(&mut self, body: &str)
        ensures
            final(self)@ == (ResponseView {
                headers: insert(old(self)@.headers, b("Content-Length"), dec(b(body).len())),
                body: b(body),
                ..old(self)@
            }),
            framed(final(self)@),
            unique_names(old(self)@.headers) ==> unique_names(final(self)@.headers),
    {
        self.set_body(text(body));
    }

    /// Sets a header; the last write wins.
    pub fn add_header(&mut self, key: Vec<u8>, value: Vec<u8>)
        ensures
            final(self)@ == (ResponseView {
                headers: insert(old(self)@.headers, key@, value@),
                ..old(self)@
            }),
            key@ != b("Content-Length") && framed(old(self)@) ==> framed(final(self)@),
            unique_names(old(self)@.headers) ==> unique_names(final(self)@.headers),
    {
        proof {
            if key@ != b("Content-Length") {
                lemma_lookup_insert_other(old(self)@.headers, key@, value@, b("Content-Length"));
            }
        }
        self.headers.insert(key, value);
    }

    /// An HTML error response: the custom page's content when there is one,
    /// else the built-in page for the code.
    pub fn error_page(code: u16, custom_page: Option<Vec<u8>>) -> (r: HttpResponse)
        ensures
            r@ == with_body(
                with_header(fresh(code), b("Content-Type"), b("text/html")),
                match custom_page {
                    Some(c) => c@,
                    None => default_error_body(code),
                },
            ),
    {
        let mut response = HttpResponse::new(code);
        response.add_header(text("Content-Type"), text("text/html"));
        match custom_page {
            Some(content) => {
                response.set_body(content);
            },
            None => {
                let mut body = text(ERROR_OPEN);
                let d = dec_bytes(code as u64);
                let st = Self::status_text(code);
                append_bytes(&mut body, d.as_slice());
                append_bytes(&mut body, text(" ").as_slice());
                append_bytes(&mut body, st.as_slice());
                append_bytes(&mut body, text(ERROR_MID).as_slice());
                append_bytes(&mut body, d.as_slice());
                append_bytes(&mut body, text(" ").as_slice());
                append_bytes(&mut body, st.as_slice());
                append_bytes(&mut body, text(ERROR_CLOSE).as_slice());
                response.set_body(body);
            },
        }
        response
    }

    /// A 200 HTML listing of `entries`, reached at `uri`; entries are shown in
    /// the order given.
    pub fn directory_listing(uri: &[u8], entries: &Vec<DirEntry>) -> (r: HttpResponse)
        ensures
            r@ == with_body(
                with_header(fresh(200), b("Content-Type"), b("text/html")),
                listing_body(uri@, entries@),
            ),
    {
        let mut response = HttpResponse::new(200);
        let mut body = text(LISTING_OPEN);
        append_bytes(&mut body, uri);
        append_bytes(&mut body, text(LISTING_MID).as_slice());
        append_bytes(&mut body, uri);
        append_bytes(&mut body, text(LISTING_RULE).as_slice());
        if !bytes_eq(uri, text("/").as_slice()) {
            append_bytes(&mut body, text(PARENT_LINK).as_slice());
        }
        let ghost start = body@;
        let mut i: usize = 0;
        while i < entries.len()
            invariant
                i <= entries@.len(),
                body@ == start + entry_links(uri@, entries@.subrange(0, i as int)),
            decreases entries@.len() - i,
        {
            let link = link_for(uri, &entries[i]);
            append_bytes(&mut body, link.as_slice());
            assert(entries@.subrange(0, i + 1).drop_last() =~= entries@.subrange(0, i as int));
            i = i + 1;
        }
        assert(entries@.subrange(0, i as int) =~= entries@);
        append_bytes(&mut body, text(LISTING_CLOSE).as_slice());
        response.add_header(text("Content-Type"), text("text/html"));
        response.set_body(body);
        response
    }

    /// The status line, the header lines, a blank line, then the body.
    pub fn to_bytes(&self) -> (r: Vec<u8>)
        ensures
            r@ == serialize(self@),
    {
        let mut out = text("HTTP/1.1 ");
        append_bytes(&mut out, dec_bytes(self.status_code as u64).as_slice());
        append_bytes(&mut out, text(" ").as_slice());
        append_bytes(&mut out, self.status_text.as_slice());
        append_bytes(&mut out, text("\r\n").as_slice());
        let ghost start = out@;
        let mut i: usize = 0;
        while i < self.headers.len()
            invariant
                i <= self@.headers.len(),
                out@ == start + header_block(self@.headers.subrange(0, i as int)),
            decreases self@.headers.len() - i,
        {
            let (k, v) = self.headers.entry(i);
            append_bytes(&mut out, k.as_slice());
            append_bytes(&mut out, text(": ").as_slice());
            append_bytes(&mut out, v.as_slice());
            append_bytes(&mut out, text("\r\n").as_slice());
            assert(self@.headers.subrange(0, i + 1).drop_last() =~= self@.headers.subrange(
                0,
                i as int,
            ));
            i = i + 1;
        }
        assert(self@.headers.subrange(0, i as int) =~= self@.headers);
        append_bytes(&mut out, text("\r\n").as_slice());
        append_bytes(&mut out, self.body.as_slice());
        out
    }
}

} // verus!
