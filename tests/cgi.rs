use webserv::cgi::{cgi_environment, cgi_interpreter, cgi_response, query_string, CgiError, CgiHandler, CgiRequest};
use webserv::config::Route;
use webserv::dispatch::Action;
use webserv::fields::FieldMap;

fn env_get(env: &FieldMap, name: &str) -> Option<Vec<u8>> {
    env.get(name.as_bytes()).cloned()
}

#[test]
fn cgi_status_created_round_trip() {
    match cgi_response(b"Status: 201 Created\r\n\r\nfoo") {
        Action::Respond(r) => {
            assert_eq!(r.status_code, 201);
            let out = r.to_bytes();
            assert!(out.starts_with(b"HTTP/1.1 201 Created\r\n"));
            assert!(out.ends_with(b"\r\n\r\nfoo"));
            assert_eq!(r.body, b"foo".to_vec());
            assert_eq!(r.headers.get(b"status"), None);
        }
        _ => panic!("expected a response"),
    }
}

#[test]
fn cgi_json_reply_keeps_its_content_type() {
    let out: &[u8] = b"Status: 202 Accepted\r\nContent-Type: application/json\r\n\r\n{\"ok\":true}";
    match cgi_response(out) {
        Action::Respond(r) => {
            assert_eq!(r.status_code, 202);
            assert_eq!(r.status_text, b"Unknown".to_vec());
            assert_eq!(r.headers.get(b"content-type").cloned(), Some(b"application/json".to_vec()));
            assert_eq!(r.headers.get(b"Content-Type"), None);
            assert_eq!(r.body, b"{\"ok\":true}".to_vec());
            assert_eq!(r.headers.get(b"Content-Length").cloned(), Some(b"11".to_vec()));
        }
        _ => panic!("expected a response"),
    }
}

#[test]
fn cgi_without_headers_is_all_body_html() {
    match cgi_response(b"just text") {
        Action::Respond(r) => {
            assert_eq!(r.status_code, 200);
            assert_eq!(r.headers.get(b"Content-Type").cloned(), Some(b"text/html".to_vec()));
            assert_eq!(r.body, b"just text".to_vec());
        }
        _ => panic!("expected a response"),
    }
}

#[test]
fn cgi_lf_separated_headers() {
    let (h, body) = CgiHandler::parse_cgi_output(b"X-One: 1\nStatus: nope\n\nrest").unwrap();
    assert_eq!(h.get(b"x-one").cloned(), Some(b"1".to_vec()));
    assert_eq!(body, b"rest".to_vec());
    match cgi_response(b"X-One: 1\nStatus: nope\n\nrest") {
        Action::Respond(r) => assert_eq!(r.status_code, 200),
        _ => panic!("expected a response"),
    }
}

#[test]
fn cgi_invalid_utf8_is_500() {
    let bad: &[u8] = &[0x53, 0xff, 0x0d, 0x0a, 0x0d, 0x0a];
    assert!(matches!(CgiHandler::parse_cgi_output(bad), Err(CgiError::InvalidUtf8)));
    assert!(matches!(cgi_response(bad), Action::Error(500)));
}

#[test]
fn cgi_environment_variables() {
    let mut headers = FieldMap::new();
    headers.insert(b"content-type".to_vec(), b"text/plain".to_vec());
    headers.insert(b"x-custom-thing".to_vec(), b"v".to_vec());
    let c = CgiRequest {
        script_path: b"./cgi-bin/run.py/extra/info".to_vec(),
        method: b"POST".to_vec(),
        query_string: b"a=1".to_vec(),
        headers,
        body_len: 5,
        server_addr: b"127.0.0.1".to_vec(),
        server_port: 8080,
        remote_addr: b"10.0.0.1".to_vec(),
    };
    let env = cgi_environment(&c);
    assert_eq!(env_get(&env, "GATEWAY_INTERFACE"), Some(b"CGI/1.1".to_vec()));
    assert_eq!(env_get(&env, "SERVER_PROTOCOL"), Some(b"HTTP/1.1".to_vec()));
    assert_eq!(env_get(&env, "SERVER_SOFTWARE"), Some(b"Webserv/1.0".to_vec()));
    assert_eq!(env_get(&env, "REQUEST_METHOD"), Some(b"POST".to_vec()));
    assert_eq!(env_get(&env, "QUERY_STRING"), Some(b"a=1".to_vec()));
    assert_eq!(env_get(&env, "SCRIPT_FILENAME"), Some(b"./cgi-bin/run.py/extra/info".to_vec()));
    assert_eq!(env_get(&env, "SCRIPT_NAME"), Some(b"./cgi-bin/run.py/extra/info".to_vec()));
    assert_eq!(env_get(&env, "SERVER_NAME"), Some(b"127.0.0.1".to_vec()));
    assert_eq!(env_get(&env, "SERVER_PORT"), Some(b"8080".to_vec()));
    assert_eq!(env_get(&env, "REMOTE_ADDR"), Some(b"10.0.0.1".to_vec()));
    assert_eq!(env_get(&env, "PATH_INFO"), Some(b"/extra/info".to_vec()));
    assert_eq!(env_get(&env, "CONTENT_TYPE"), Some(b"text/plain".to_vec()));
    assert_eq!(env_get(&env, "CONTENT_LENGTH"), Some(b"5".to_vec()));
    assert_eq!(env_get(&env, "HTTP_X_CUSTOM_THING"), Some(b"v".to_vec()));
    assert_eq!(env_get(&env, "HTTP_CONTENT_TYPE"), Some(b"text/plain".to_vec()));
}

#[test]
fn cgi_environment_without_optional_variables() {
    let c = CgiRequest {
        script_path: b"./run.py".to_vec(),
        method: b"GET".to_vec(),
        query_string: vec![],
        headers: FieldMap::new(),
        body_len: 0,
        server_addr: b"h".to_vec(),
        server_port: 80,
        remote_addr: b"r".to_vec(),
    };
    let env = cgi_environment(&c);
    assert_eq!(env_get(&env, "PATH_INFO"), None);
    assert_eq!(env_get(&env, "CONTENT_LENGTH"), None);
    assert_eq!(env_get(&env, "CONTENT_TYPE"), None);
    assert_eq!(env.len(), 10);
}

#[test]
fn query_string_between_question_marks() {
    assert_eq!(query_string(b"/a.py?x=1&y=2"), b"x=1&y=2".to_vec());
    assert_eq!(query_string(b"/a.py?x=1?z"), b"x=1".to_vec());
    assert_eq!(query_string(b"/a.py"), Vec::<u8>::new());
}

#[test]
fn interpreter_default() {
    let mut r = Route {
        path: b"/".to_vec(),
        methods: vec![],
        root: None,
        index: vec![],
        autoindex: false,
        redirect: None,
        cgi_extension: None,
        cgi_path: None,
        upload_dir: None,
    };
    assert_eq!(cgi_interpreter(&r), b"/usr/bin/python3".to_vec());
    r.cgi_path = Some(b"/bin/sh".to_vec());
    assert_eq!(cgi_interpreter(&r), b"/bin/sh".to_vec());
}
