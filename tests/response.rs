use webserv::dispatch::serve_directory_listing;
use webserv::http_response::{DirEntry, HttpResponse};

fn header(r: &HttpResponse, name: &str) -> Option<Vec<u8>> {
    r.headers.get(name.as_bytes()).cloned()
}

fn find(hay: &[u8], needle: &[u8]) -> Option<usize> {
    hay.windows(needle.len()).position(|w| w == needle)
}

#[test]
fn status_texts() {
    assert_eq!(HttpResponse::status_text(200), b"OK".to_vec());
    assert_eq!(HttpResponse::status_text(201), b"Created".to_vec());
    assert_eq!(HttpResponse::status_text(204), b"No Content".to_vec());
    assert_eq!(HttpResponse::status_text(301), b"Moved Permanently".to_vec());
    assert_eq!(HttpResponse::status_text(302), b"Found".to_vec());
    assert_eq!(HttpResponse::status_text(304), b"Not Modified".to_vec());
    assert_eq!(HttpResponse::status_text(400), b"Bad Request".to_vec());
    assert_eq!(HttpResponse::status_text(403), b"Forbidden".to_vec());
    assert_eq!(HttpResponse::status_text(404), b"Not Found".to_vec());
    assert_eq!(HttpResponse::status_text(405), b"Method Not Allowed".to_vec());
    assert_eq!(HttpResponse::status_text(413), b"Payload Too Large".to_vec());
    assert_eq!(HttpResponse::status_text(500), b"Internal Server Error".to_vec());
    assert_eq!(HttpResponse::status_text(501), b"Not Implemented".to_vec());
    assert_eq!(HttpResponse::status_text(299), b"Unknown".to_vec());
}

#[test]
fn new_response_has_default_headers() {
    let r = HttpResponse::new(404);
    assert_eq!(r.status_code, 404);
    assert_eq!(r.status_text, b"Not Found".to_vec());
    assert_eq!(header(&r, "Server"), Some(b"Webserv/1.0".to_vec()));
    assert_eq!(header(&r, "Connection"), Some(b"keep-alive".to_vec()));
    assert!(r.body.is_empty());
}

#[test]
fn serialization_frames_the_body() {
    let mut r = HttpResponse::new(200);
    r.add_header(b"Content-Type".to_vec(), b"text/plain".to_vec());
    r.set_body(b"hello world".to_vec());
    let out = r.to_bytes();
    let expected: &[u8] = b"HTTP/1.1 200 OK\r\nServer: Webserv/1.0\r\nConnection: keep-alive\r\nContent-Type: text/plain\r\nContent-Length: 11\r\n\r\nhello world";
    assert_eq!(out, expected.to_vec());
    let head_end = find(&out, b"\r\n\r\n").unwrap() + 4;
    assert_eq!(&out[head_end..], b"hello world");
    assert!(find(&out[..head_end], b"Content-Length: 11\r\n").is_some());
}

#[test]
fn empty_body_declares_zero() {
    let mut r = HttpResponse::new(204);
    r.set_body_str("");
    let out = r.to_bytes();
    assert!(find(&out, b"Content-Length: 0\r\n").is_some());
    assert!(out.ends_with(b"\r\n\r\n"));
}

#[test]
fn add_header_last_write_wins() {
    let mut r = HttpResponse::new(200);
    r.add_header(b"X".to_vec(), b"1".to_vec());
    r.add_header(b"X".to_vec(), b"2".to_vec());
    assert_eq!(header(&r, "X"), Some(b"2".to_vec()));
    assert_eq!(r.headers.len(), 3);
}

#[test]
fn default_error_page_mentions_code_and_text() {
    let r = HttpResponse::error_page(404, None);
    assert_eq!(r.status_code, 404);
    assert_eq!(header(&r, "Content-Type"), Some(b"text/html".to_vec()));
    assert!(find(&r.body, b"<title>404 Not Found</title>").is_some());
    assert!(find(&r.body, b"<h1>404 Not Found</h1>").is_some());
    assert_eq!(header(&r, "Content-Length"), Some(r.body.len().to_string().into_bytes()));
}

#[test]
fn custom_error_page_body_is_used() {
    let r = HttpResponse::error_page(413, Some(b"<p>too big</p>".to_vec()));
    assert_eq!(r.status_code, 413);
    assert_eq!(r.body, b"<p>too big</p>".to_vec());
    assert_eq!(header(&r, "Content-Length"), Some(b"14".to_vec()));
}

#[test]
fn autoindex_listing_has_parent_link_and_entries() {
    let entries = vec![
        DirEntry { name: b"a.txt".to_vec(), is_dir: false },
        DirEntry { name: b"b".to_vec(), is_dir: true },
    ];
    let r = HttpResponse::directory_listing(b"/files", &entries);
    assert_eq!(r.status_code, 200);
    assert_eq!(header(&r, "Content-Type"), Some(b"text/html".to_vec()));
    let body = &r.body;
    assert!(find(body, b"<a href=\"../\">../</a>").is_some());
    let a = find(body, b"<a href=\"/a.txt\">a.txt</a>").unwrap();
    let b = find(body, b"<a href=\"/b\">b/</a>").unwrap();
    assert!(a < b);
    assert!(body.ends_with(b"</body></html>"));
}

#[test]
fn root_listing_has_no_parent_link() {
    let entries = vec![DirEntry { name: b"x".to_vec(), is_dir: false }];
    let r = HttpResponse::directory_listing(b"/", &entries);
    assert!(find(&r.body, b"../").is_none());
    assert!(find(&r.body, b"<a href=\"x\">x</a>").is_some());
}

#[test]
fn listing_served_in_name_order() {
    let entries = vec![
        DirEntry { name: b"zeta".to_vec(), is_dir: false },
        DirEntry { name: b"Alpha".to_vec(), is_dir: true },
        DirEntry { name: b"beta.txt".to_vec(), is_dir: false },
    ];
    let r = serve_directory_listing(b"/docs/", entries);
    let body = &r.body;
    let a = find(body, b"<a href=\"Alpha\">Alpha/</a>").unwrap();
    let b = find(body, b"<a href=\"beta.txt\">beta.txt</a>").unwrap();
    let z = find(body, b"<a href=\"zeta\">zeta</a>").unwrap();
    assert!(a < b && b < z);
    assert!(find(body, b"<a href=\"../\">../</a>").is_some());
}
