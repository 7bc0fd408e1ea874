use webserv::http_parser::{parse_query_string, urldecode, HttpParser, HttpRequest, ParseError};

fn feed_all(pieces: &[&[u8]]) -> (HttpParser, HttpRequest, Result<(), ParseError>) {
    let mut parser = HttpParser::new();
    let mut request = HttpRequest::new();
    let mut last = Ok(());
    for p in pieces {
        last = parser.parse(p, &mut request);
        if last.is_err() {
            break;
        }
    }
    (parser, request, last)
}

fn header(r: &HttpRequest, name: &str) -> Option<Vec<u8>> {
    r.headers.get(name.as_bytes()).cloned()
}

#[test]
fn simple_get_request_line_and_headers() {
    let (parser, req, res) = feed_all(&[b"get / HTTP/1.1\r\nHost: x\r\n\r\n"]);
    assert!(res.is_ok());
    assert!(parser.is_complete());
    assert!(req.complete);
    assert_eq!(req.method, b"GET".to_vec());
    assert_eq!(req.uri, b"/".to_vec());
    assert_eq!(req.version, b"HTTP/1.1".to_vec());
    assert_eq!(header(&req, "host"), Some(b"x".to_vec()));
    assert!(req.body.is_empty());
}

#[test]
fn header_names_lowercased_values_trimmed_last_wins() {
    let (_, req, res) = feed_all(&[b"GET /a HTTP/1.1\r\nX-Thing:   one  \r\nx-thing: two\r\n\r\n"]);
    assert!(res.is_ok());
    assert_eq!(header(&req, "x-thing"), Some(b"two".to_vec()));
    assert_eq!(req.headers.len(), 1);
}

#[test]
fn malformed_request_line_is_rejected() {
    let (_, _, res) = feed_all(&[b"GET /only-two\r\n"]);
    assert!(matches!(res, Err(ParseError::MalformedRequestLine)));
    let (_, _, res) = feed_all(&[b"A B C D\r\n"]);
    assert!(matches!(res, Err(ParseError::MalformedRequestLine)));
}

#[test]
fn header_line_without_colon_is_rejected() {
    let (_, _, res) = feed_all(&[b"GET / HTTP/1.1\r\nBadHeader\r\n\r\n"]);
    assert!(matches!(res, Err(ParseError::MalformedHeader)));
}

#[test]
fn fixed_length_body_waits_for_all_bytes() {
    let mut parser = HttpParser::new();
    let mut req = HttpRequest::new();
    assert!(parser.parse(b"POST /u HTTP/1.1\r\nContent-Length: 5\r\n\r\nhel", &mut req).is_ok());
    assert!(!req.complete);
    assert!(!parser.is_complete());
    assert!(parser.parse(b"lo", &mut req).is_ok());
    assert!(req.complete);
    assert_eq!(req.body, b"hello".to_vec());
}

#[test]
fn chunked_body_is_decoded() {
    let (parser, req, res) = feed_all(&[
        b"POST /c HTTP/1.1\r\nTransfer-Encoding: chunked\r\n\r\n5\r\nhello\r\n6\r\n world\r\n0\r\n\r\n",
    ]);
    assert!(res.is_ok());
    assert!(parser.is_complete());
    assert!(req.complete);
    assert_eq!(req.body, b"hello world".to_vec());
}

#[test]
fn chunk_extensions_are_ignored() {
    let (_, req, res) = feed_all(&[
        b"POST /c HTTP/1.1\r\nTransfer-Encoding: Chunked\r\n\r\n3;name=v\r\nabc\r\n0\r\n\r\n",
    ]);
    assert!(res.is_ok());
    assert_eq!(req.body, b"abc".to_vec());
}

#[test]
fn bad_chunk_size_is_rejected() {
    let (_, _, res) = feed_all(&[b"POST /c HTTP/1.1\r\nTransfer-Encoding: chunked\r\n\r\nzz\r\n"]);
    assert!(matches!(res, Err(ParseError::MalformedChunkSize)));
}

#[test]
fn no_length_means_no_body() {
    let (parser, req, res) = feed_all(&[b"POST /p HTTP/1.1\r\nHost: h\r\n\r\nextra"]);
    assert!(res.is_ok());
    assert!(parser.is_complete());
    assert!(req.body.is_empty());
}

#[test]
fn split_at_every_boundary_gives_the_same_request() {
    let raw: &[u8] =
        b"POST /api/x?y=1 HTTP/1.1\r\nHost: example\r\nContent-Length: 11\r\nX-A: b\r\n\r\nhello world";
    let (_, whole, res) = feed_all(&[raw]);
    assert!(res.is_ok());
    assert!(whole.complete);
    for cut in 0..=raw.len() {
        let (a, b) = raw.split_at(cut);
        let (_, req, res) = feed_all(&[a, b]);
        assert!(res.is_ok());
        assert_eq!(req.method, whole.method);
        assert_eq!(req.uri, whole.uri);
        assert_eq!(req.version, whole.version);
        assert_eq!(req.headers.pairs(), whole.headers.pairs());
        assert_eq!(req.body, whole.body);
        assert_eq!(req.complete, whole.complete);
    }
    let singles: Vec<&[u8]> = raw.chunks(1).collect();
    let (_, req, res) = feed_all(&singles);
    assert!(res.is_ok());
    assert_eq!(req.body, whole.body);
    assert_eq!(req.headers.pairs(), whole.headers.pairs());
}

#[test]
fn chunked_request_split_byte_by_byte() {
    let raw: &[u8] =
        b"POST /c HTTP/1.1\r\nTransfer-Encoding: chunked\r\n\r\n5\r\nhello\r\n6\r\n world\r\n0\r\n\r\n";
    let singles: Vec<&[u8]> = raw.chunks(1).collect();
    let (_, req, res) = feed_all(&singles);
    assert!(res.is_ok());
    assert!(req.complete);
    assert_eq!(req.body, b"hello world".to_vec());
}

#[test]
fn urldecode_handles_escapes_and_plus() {
    assert_eq!(urldecode(b"a%20b+c"), b"a b c".to_vec());
    assert_eq!(urldecode(b"%41%zz!"), b"A!".to_vec());
    assert_eq!(urldecode(b"%e9"), "\u{e9}".as_bytes().to_vec());
    assert_eq!(urldecode(b"end%"), b"end".to_vec());
}

#[test]
fn query_string_pairs() {
    let q = parse_query_string(b"/p?a=1&b=x+y&flag&a=2");
    assert_eq!(q.get(b"a").cloned(), Some(b"2".to_vec()));
    assert_eq!(q.get(b"b").cloned(), Some(b"x y".to_vec()));
    assert_eq!(q.get(b"flag"), None);
    assert_eq!(parse_query_string(b"/nothing").len(), 0);
}
