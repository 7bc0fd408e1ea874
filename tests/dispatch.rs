use webserv::config::{Route, ServerConfig};
use webserv::dispatch::{
    find_route, get_content_type, handle_delete, handle_file_upload, handle_get, index_candidates,
    post_received, process_request, redirect, resolve_path, serve_file, upload_dir, upload_target,
    Action, PathKind,
};
use webserv::http_parser::{HttpParser, HttpRequest};

fn route(path: &str, root: &str) -> Route {
    Route {
        path: path.as_bytes().to_vec(),
        methods: vec![b"GET".to_vec(), b"POST".to_vec(), b"DELETE".to_vec()],
        root: Some(root.as_bytes().to_vec()),
        index: vec![b"index.html".to_vec()],
        autoindex: false,
        redirect: None,
        cgi_extension: None,
        cgi_path: None,
        upload_dir: None,
    }
}

fn server(routes: Vec<Route>, max: usize) -> ServerConfig {
    ServerConfig {
        host: b"127.0.0.1".to_vec(),
        port: 8080,
        server_names: vec![],
        error_pages: vec![],
        client_max_body_size: max,
        routes,
    }
}

fn request(raw: &[u8]) -> HttpRequest {
    let mut p = HttpParser::new();
    let mut r = HttpRequest::new();
    p.parse(raw, &mut r).unwrap();
    assert!(r.complete);
    r
}

#[test]
fn longest_prefix_route_wins() {
    let s = server(vec![route("/", "./www"), route("/api/", "./api")], 100);
    assert_eq!(find_route(b"/api/x", &s), Some(1));
    assert_eq!(find_route(b"/other", &s), Some(0));
    assert_eq!(find_route(b"/api/x?q=/api/", &s), Some(1));
}

#[test]
fn equal_length_routes_first_declared_wins() {
    let s = server(vec![route("/a", "./one"), route("/a", "./two")], 100);
    assert_eq!(find_route(b"/a/b", &s), Some(0));
}

#[test]
fn empty_route_path_matches_everything() {
    let s = server(vec![route("", "./www")], 100);
    assert_eq!(find_route(b"/any/path", &s), Some(0));
    let s = server(vec![route("", "./www"), route("/a", "./a")], 100);
    assert_eq!(find_route(b"/a/b", &s), Some(1));
    assert_eq!(find_route(b"/b", &s), Some(0));
}

#[test]
fn no_route_matches() {
    let s = server(vec![route("/api/", "./api")], 100);
    assert_eq!(find_route(b"/x", &s), None);
    let r = request(b"GET /x HTTP/1.1\r\n\r\n");
    assert!(matches!(process_request(&r, &s), Action::Error(404)));
}

#[test]
fn api_request_resolves_under_api_root() {
    let s = server(vec![route("/", "./www"), route("/api/", "./api")], 100);
    let r = request(b"GET /api/x HTTP/1.1\r\nHost: h\r\n\r\n");
    match process_request(&r, &s) {
        Action::Get { route, path } => {
            assert_eq!(route, 1);
            assert_eq!(path, b"./api/x".to_vec());
        }
        _ => panic!("expected a GET"),
    }
}

#[test]
fn resolve_path_strips_prefix_and_slashes() {
    let r = route("/static", "./files");
    assert_eq!(resolve_path(b"/static//css/a.css", &r), b"./files/css/a.css".to_vec());
    assert_eq!(resolve_path(b"/static", &r), b"./files".to_vec());
    let mut no_root = route("/", "x");
    no_root.root = None;
    assert_eq!(resolve_path(b"/a", &no_root), b"./a".to_vec());
}

#[test]
fn oversized_body_is_413_for_every_method() {
    let s = server(vec![route("/", "./www")], 10);
    let post = request(b"POST / HTTP/1.1\r\nContent-Length: 11\r\n\r\nhello world");
    assert!(matches!(process_request(&post, &s), Action::Error(413)));
    let get = request(b"GET / HTTP/1.1\r\nContent-Length: 11\r\n\r\nhello world");
    assert!(matches!(process_request(&get, &s), Action::Error(413)));
    let fits = request(b"POST / HTTP/1.1\r\nContent-Length: 10\r\n\r\nhelloworld");
    assert!(matches!(process_request(&fits, &s), Action::PostReceived));
}

#[test]
fn method_not_allowed() {
    let mut r = route("/", "./www");
    r.methods = vec![b"GET".to_vec()];
    let s = server(vec![r], 100);
    let del = request(b"DELETE /f HTTP/1.1\r\n\r\n");
    assert!(matches!(process_request(&del, &s), Action::Error(405)));
    let put = request(b"PUT /f HTTP/1.1\r\n\r\n");
    assert!(matches!(process_request(&put, &s), Action::Error(405)));
}

#[test]
fn redirect_route() {
    let mut r = route("/old", "./www");
    r.redirect = Some((301, b"/new".to_vec()));
    let s = server(vec![r], 100);
    let get = request(b"GET /old/page HTTP/1.1\r\n\r\n");
    match process_request(&get, &s) {
        Action::Redirect(code, loc) => {
            assert_eq!(code, 301);
            assert_eq!(loc, b"/new".to_vec());
        }
        _ => panic!("expected a redirect"),
    }
    let resp = redirect(301, b"/new".to_vec());
    assert_eq!(resp.headers.get(b"Location").cloned(), Some(b"/new".to_vec()));
}

#[test]
fn post_dispatch_upload_cgi_or_placeholder() {
    let mut r = route("/", "./www");
    r.cgi_extension = Some(b".py".to_vec());
    let s = server(vec![r], 1000);
    let up = request(b"POST /up HTTP/1.1\r\nContent-Type: multipart/form-data; boundary=xyz\r\nContent-Length: 2\r\n\r\nab");
    assert!(matches!(process_request(&up, &s), Action::Upload { route: 0 }));
    let cgi = request(b"POST /run.py?x=1 HTTP/1.1\r\nContent-Length: 1\r\n\r\na");
    match process_request(&cgi, &s) {
        Action::Cgi { route, script } => {
            assert_eq!(route, 0);
            assert_eq!(script, b"./www/run.py".to_vec());
        }
        _ => panic!("expected CGI"),
    }
    let plain = request(b"POST /form HTTP/1.1\r\nContent-Length: 1\r\n\r\na");
    assert!(matches!(process_request(&plain, &s), Action::PostReceived));
    let resp = post_received();
    assert_eq!(resp.body, b"POST request received".to_vec());
}

#[test]
fn delete_dispatch_and_outcome() {
    let s = server(vec![route("/", "./www")], 100);
    let del = request(b"DELETE /f.txt HTTP/1.1\r\n\r\n");
    match process_request(&del, &s) {
        Action::Delete(p) => assert_eq!(p, b"./www/f.txt".to_vec()),
        _ => panic!("expected a DELETE"),
    }
    assert!(matches!(handle_delete(true), Action::Status(204)));
    assert!(matches!(handle_delete(false), Action::Error(404)));
}

#[test]
fn get_decisions_after_lookup() {
    let mut r = route("/", "./www");
    r.autoindex = true;
    r.cgi_extension = Some(b".cgi".to_vec());
    let s = server(vec![r, route("/b/", "./b")], 100);
    assert!(matches!(handle_get(&s, 0, b"./www/x", PathKind::Missing, None), Action::Error(404)));
    match handle_get(&s, 0, b"./www/d", PathKind::Directory, Some(0)) {
        Action::ServeFile(p) => assert_eq!(p, b"./www/d/index.html".to_vec()),
        _ => panic!("expected the index file"),
    }
    match handle_get(&s, 0, b"./www/d", PathKind::Directory, None) {
        Action::Listing(p) => assert_eq!(p, b"./www/d".to_vec()),
        _ => panic!("expected a listing"),
    }
    assert!(matches!(handle_get(&s, 1, b"./b/d", PathKind::Directory, None), Action::Error(403)));
    assert!(matches!(handle_get(&s, 0, b"./www/t.cgi", PathKind::File, None), Action::Cgi { route: 0, .. }));
    match handle_get(&s, 0, b"./www/a.png", PathKind::File, None) {
        Action::ServeFile(p) => assert_eq!(p, b"./www/a.png".to_vec()),
        _ => panic!("expected a file"),
    }
    let c = index_candidates(b"./www/d", &s.routes[0]);
    assert_eq!(c, vec![b"./www/d/index.html".to_vec()]);
}

#[test]
fn simple_get_serves_index_html() {
    let s = server(vec![route("/", "./www")], 1048576);
    let r = request(b"GET / HTTP/1.1\r\nHost: x\r\n\r\n");
    let path = match process_request(&r, &s) {
        Action::Get { path, .. } => path,
        _ => panic!("expected a GET"),
    };
    assert_eq!(path, b"./www".to_vec());
    let file = match handle_get(&s, 0, &path, PathKind::Directory, Some(0)) {
        Action::ServeFile(f) => f,
        _ => panic!("expected the index file"),
    };
    assert_eq!(file, b"./www/index.html".to_vec());
    let resp = serve_file(&file, b"hi".to_vec());
    assert_eq!(resp.status_code, 200);
    assert_eq!(resp.headers.get(b"Content-Type").cloned(), Some(b"text/html".to_vec()));
    assert_eq!(resp.headers.get(b"Content-Length").cloned(), Some(b"2".to_vec()));
    assert_eq!(resp.body, b"hi".to_vec());
}

#[test]
fn content_types_by_extension() {
    assert_eq!(get_content_type(b"a/b.html"), b"text/html".to_vec());
    assert_eq!(get_content_type(b"a/b.htm"), b"text/html".to_vec());
    assert_eq!(get_content_type(b"x.css"), b"text/css".to_vec());
    assert_eq!(get_content_type(b"x.js"), b"application/javascript".to_vec());
    assert_eq!(get_content_type(b"x.json"), b"application/json".to_vec());
    assert_eq!(get_content_type(b"x.png"), b"image/png".to_vec());
    assert_eq!(get_content_type(b"x.jpeg"), b"image/jpeg".to_vec());
    assert_eq!(get_content_type(b"x.jpg"), b"image/jpeg".to_vec());
    assert_eq!(get_content_type(b"x.gif"), b"image/gif".to_vec());
    assert_eq!(get_content_type(b"x.svg"), b"image/svg+xml".to_vec());
    assert_eq!(get_content_type(b"x.pdf"), b"application/pdf".to_vec());
    assert_eq!(get_content_type(b"x.txt"), b"text/plain".to_vec());
    assert_eq!(get_content_type(b"x.tar.gz"), b"application/octet-stream".to_vec());
    assert_eq!(get_content_type(b"dir/.html"), b"application/octet-stream".to_vec());
    assert_eq!(get_content_type(b"a.html/readme"), b"application/octet-stream".to_vec());
}

#[test]
fn upload_file_naming_and_replies() {
    let r = route("/", "./www");
    assert_eq!(upload_dir(&r), b"./uploads".to_vec());
    let req = request(b"POST /u HTTP/1.1\r\nContent-Type: multipart/form-data; boundary=zz\r\nContent-Length: 1\r\n\r\nq");
    let target = upload_target(&req, b"./up", 1700000000).unwrap();
    assert_eq!(target, b"./up/upload_1700000000.bin".to_vec());
    let no_boundary = request(b"POST /u HTTP/1.1\r\nContent-Type: multipart/form-data\r\nContent-Length: 1\r\n\r\nq");
    assert!(upload_target(&no_boundary, b"./up", 1).is_none());
    match handle_file_upload(Some(&target), true) {
        Action::Respond(resp) => {
            assert_eq!(resp.status_code, 201);
            assert_eq!(resp.body, b"File uploaded successfully: ./up/upload_1700000000.bin".to_vec());
        }
        _ => panic!("expected 201"),
    }
    assert!(matches!(handle_file_upload(Some(&target), false), Action::Error(500)));
    match handle_file_upload(None, false) {
        Action::Respond(resp) => assert_eq!(resp.body, b"Upload processed".to_vec()),
        _ => panic!("expected 200"),
    }
}
