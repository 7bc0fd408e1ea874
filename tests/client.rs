use webserv::client::{check_timeouts, find_server_config, Client, ClientState, ReadOutcome, CLIENT_TIMEOUT_MS};
use webserv::config::ServerConfig;

fn server(port: u16) -> ServerConfig {
    ServerConfig {
        host: b"127.0.0.1".to_vec(),
        port,
        server_names: vec![],
        error_pages: vec![],
        client_max_body_size: 10,
        routes: vec![],
    }
}

#[test]
fn read_write_then_fresh_parser() {
    let mut c = Client::new(0, 0);
    assert_eq!(c.on_read(b"GET / HTTP/1.1\r\n", 5), ReadOutcome::Incomplete);
    assert_eq!(c.on_read(b"Host: x\r\n\r\nleftover", 6), ReadOutcome::Complete);
    assert_eq!(c.request.uri, b"/".to_vec());
    c.start_writing(b"0123456789".to_vec());
    assert_eq!(c.unwritten(), b"0123456789".to_vec());
    assert!(!c.on_written(4, 7));
    assert_eq!(c.unwritten(), b"456789".to_vec());
    assert!(c.on_written(6, 8));
    assert!(matches!(c.state, ClientState::Reading));
    assert!(!c.parser.is_complete());
    assert!(c.request.uri.is_empty());
    assert!(c.request.headers.len() == 0);
    assert!(!c.request.complete);
    assert_eq!(c.on_read(b"POST /next HTTP/1.1\r\nContent-Length: 2\r\n\r\nok", 9), ReadOutcome::Complete);
    assert_eq!(c.request.method, b"POST".to_vec());
    assert_eq!(c.request.body, b"ok".to_vec());
    assert_eq!(c.last_activity, 9);
}

#[test]
fn malformed_input_is_reported() {
    let mut c = Client::new(0, 0);
    assert!(!c.close_after_write);
    assert_eq!(c.on_read(b"BAD\r\n", 1), ReadOutcome::Malformed);
    assert!(c.close_after_write);
}

#[test]
fn timeout_selection() {
    let table = vec![(3, 0u64), (4, 1000), (5, 31000), (6, 40000)];
    assert_eq!(check_timeouts(30999, &table), vec![3]);
    assert_eq!(check_timeouts(31001, &table), vec![3, 4]);
    assert_eq!(check_timeouts(31000 + CLIENT_TIMEOUT_MS + 1, &table), vec![3, 4, 5]);
    assert!(check_timeouts(30000, &table).is_empty());
    let c = Client::new(0, 100);
    assert!(!c.timed_out(30100));
    assert!(c.timed_out(30101));
}

#[test]
fn server_for_listener_port() {
    let servers = vec![server(80), server(8080), server(8080)];
    assert_eq!(find_server_config(&servers, 8080), 1);
    assert_eq!(find_server_config(&servers, 80), 0);
    assert_eq!(find_server_config(&servers, 9999), 0);
}
