use webserv::http_parser::{HttpParser, HttpRequest};
use webserv::http_response::HttpResponse;
use webserv::session::{create_set_cookie, finish_response, parse_cookies, SessionManager};

fn request(raw: &[u8]) -> HttpRequest {
    let mut p = HttpParser::new();
    let mut r = HttpRequest::new();
    assert!(p.parse(raw, &mut r).is_ok());
    r
}

fn find(hay: &[u8], needle: &[u8]) -> Option<usize> {
    hay.windows(needle.len()).position(|w| w == needle)
}

#[test]
fn cookies_are_split_and_trimmed() {
    let c = parse_cookies(b" a=1; sessionid = abc ;junk; a=2");
    assert_eq!(c.get(b"a").cloned(), Some(b"2".to_vec()));
    assert_eq!(c.get(b"sessionid").cloned(), Some(b"abc".to_vec()));
    assert_eq!(c.len(), 2);
}

#[test]
fn set_cookie_value() {
    assert_eq!(
        create_set_cookie(b"sessionid", b"ff", Some(3600)),
        b"sessionid=ff; Path=/; HttpOnly; Max-Age=3600".to_vec()
    );
    assert_eq!(create_set_cookie(b"a", b"b", None), b"a=b; Path=/; HttpOnly".to_vec());
}

#[test]
fn sessions_create_get_destroy() {
    let mut m = SessionManager::new();
    let id = m.create_session();
    assert!(!id.is_empty());
    assert!(id.iter().all(|c| c.is_ascii_hexdigit() && !c.is_ascii_uppercase()));
    assert!(m.contains(&id));
    assert!(m.get_session(&id));
    assert!(!m.get_session(b"missing"));
    m.destroy_session(&id);
    assert!(!m.contains(&id));
    assert_eq!(m.len(), 0);
}

#[test]
fn cleanup_drops_idle_sessions() {
    let mut m = SessionManager::new();
    m.insert_session(b"old".to_vec(), 100);
    m.insert_session(b"new".to_vec(), 5000);
    m.cleanup_expired_at(5000, 3600);
    assert!(!m.contains(b"old"));
    assert!(m.contains(b"new"));
    assert!(m.touch_session(b"new", 9000));
    m.cleanup_expired_at(9000, 3600);
    assert!(m.contains(b"new"));
}

#[test]
fn response_without_session_gets_cookie() {
    let mut m = SessionManager::new();
    let req = request(b"GET / HTTP/1.1\r\n\r\n");
    let out = finish_response(&mut m, &req, HttpResponse::new(200));
    assert!(find(&out, b"Set-Cookie: sessionid=").is_some());
    assert!(find(&out, b"; Path=/; HttpOnly; Max-Age=3600\r\n").is_some());
    assert_eq!(m.len(), 1);
}

#[test]
fn response_with_live_session_has_no_cookie() {
    let mut m = SessionManager::new();
    m.insert_session(b"abc".to_vec(), 1);
    let req = request(b"GET / HTTP/1.1\r\nCookie: theme=dark; sessionid=abc\r\n\r\n");
    let out = finish_response(&mut m, &req, HttpResponse::new(200));
    assert!(find(&out, b"Set-Cookie").is_none());
    let mut expected = HttpResponse::new(200);
    expected.set_body(Vec::new());
    assert_eq!(out, expected.to_bytes());
    let stale = request(b"GET / HTTP/1.1\r\nCookie: sessionid=gone\r\n\r\n");
    let out = finish_response(&mut m, &stale, HttpResponse::new(200));
    assert!(find(&out, b"Set-Cookie: sessionid=").is_some());
    assert_eq!(m.len(), 2);
}

#[test]
fn every_sent_response_declares_its_length() {
    let mut m = SessionManager::new();
    let req = request(b"DELETE /f HTTP/1.1\r\n\r\n");
    let out = finish_response(&mut m, &req, HttpResponse::new(204));
    assert!(find(&out, b"Content-Length: 0\r\n").is_some());
    let mut r = HttpResponse::new(301);
    r.add_header(b"Location".to_vec(), b"/new".to_vec());
    r.body = b"moved".to_vec();
    let out = finish_response(&mut m, &req, r);
    assert!(find(&out, b"Content-Length: 5\r\n").is_some());
    assert_eq!(out.windows(16).filter(|w| *w == b"Content-Length: ").count(), 1);
    assert!(out.ends_with(b"\r\n\r\nmoved"));
}
