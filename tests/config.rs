use webserv::config::{Config, ConfigErrorKind};

#[test]
fn parses_servers_and_locations() {
    let text = "server {\n    listen 127.0.0.1:9090;\n    server_name a.test b.test;\n    error_page 404 /err/404.html;\n    client_max_body_size 10;\n    location / {\n        root ./www;\n        index index.html home.html;\n        autoindex on;\n    }\n    location /api/ {\n        allow_methods get post;\n        root ./api;\n        cgi_extension .py;\n        cgi_path /usr/bin/python3;\n        upload_dir ./up;\n    }\n    location /old {\n        return 301 /new;\n    }\n}\n";
    let c = Config::parse(text.as_bytes()).ok().unwrap();
    assert_eq!(c.servers.len(), 1);
    let s = &c.servers[0];
    assert_eq!(s.host, b"127.0.0.1".to_vec());
    assert_eq!(s.port, 9090);
    assert_eq!(s.server_names, vec![b"a.test".to_vec(), b"b.test".to_vec()]);
    assert_eq!(s.error_pages, vec![(404u16, b"/err/404.html".to_vec())]);
    assert_eq!(s.client_max_body_size, 10);
    assert_eq!(s.routes.len(), 3);
    assert_eq!(s.routes[0].path, b"/".to_vec());
    assert_eq!(s.routes[0].root, Some(b"./www".to_vec()));
    assert_eq!(s.routes[0].index, vec![b"index.html".to_vec(), b"home.html".to_vec()]);
    assert!(s.routes[0].autoindex);
    assert_eq!(s.routes[1].path, b"/api/".to_vec());
    assert_eq!(s.routes[1].methods, vec![b"GET".to_vec(), b"POST".to_vec()]);
    assert_eq!(s.routes[1].cgi_extension, Some(b".py".to_vec()));
    assert_eq!(s.routes[1].upload_dir, Some(b"./up".to_vec()));
    assert_eq!(s.routes[2].redirect, Some((301u16, b"/new".to_vec())));
}

#[test]
fn defaults_and_default_route() {
    let c = Config::parse(b"server {\n}\n").ok().unwrap();
    let s = &c.servers[0];
    assert_eq!(s.host, b"127.0.0.1".to_vec());
    assert_eq!(s.port, 8080);
    assert_eq!(s.client_max_body_size, 1048576);
    assert_eq!(s.routes.len(), 1);
    let r = &s.routes[0];
    assert_eq!(r.path, b"/".to_vec());
    assert_eq!(r.methods, vec![b"GET".to_vec(), b"POST".to_vec(), b"DELETE".to_vec()]);
    assert_eq!(r.root, Some(b"./www".to_vec()));
    assert_eq!(r.index, vec![b"index.html".to_vec()]);
    assert!(!r.autoindex);
}

#[test]
fn listen_port_only_and_sizes() {
    let c = Config::parse(b"server {\r\n listen 8081;\r\n client_max_body_size 2k;\r\n}\r\nserver {\n listen 8082;\n client_max_body_size 3M;\n}\nserver {\n listen 8083;\n client_max_body_size 1G;\n}").ok().unwrap();
    assert_eq!(c.servers.len(), 3);
    assert_eq!(c.servers[0].port, 8081);
    assert_eq!(c.servers[0].client_max_body_size, 2048);
    assert_eq!(c.servers[1].client_max_body_size, 3 * 1024 * 1024);
    assert_eq!(c.servers[2].client_max_body_size, 1024 * 1024 * 1024);
}

#[test]
fn no_servers_is_an_error() {
    let e = Config::parse(b"# nothing here\n").err().unwrap();
    assert!(e.kind == ConfigErrorKind::NoServers);
}

#[test]
fn duplicate_address_is_an_error() {
    let e = Config::parse(b"server {\nlisten 1.2.3.4:80;\n}\nserver {\nlisten 8080;\n}\nserver {\nlisten 1.2.3.4:80;\n}\n")
        .err()
        .unwrap();
    assert!(e.kind == ConfigErrorKind::DuplicateServer);
    assert_eq!(e.host, b"1.2.3.4".to_vec());
    assert_eq!(e.port, 80);
}

#[test]
fn bad_port_falls_back_to_default() {
    let c = Config::parse(b"server {\nlisten host:99999;\n}\n").ok().unwrap();
    assert_eq!(c.servers[0].host, b"host".to_vec());
    assert_eq!(c.servers[0].port, 8080);
}

#[test]
fn repeated_error_page_keeps_one_entry() {
    let c = Config::parse(b"server {\nerror_page 404 /a.html;\nerror_page 500 /b.html;\nerror_page 404 /c.html;\nlocation {\n}\n}\n").ok().unwrap();
    assert_eq!(c.servers[0].error_pages, vec![(404u16, b"/c.html".to_vec()), (500u16, b"/b.html".to_vec())]);
    assert_eq!(c.servers[0].routes[0].path, b"".to_vec());
}
