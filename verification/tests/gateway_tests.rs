use v2proxy_shell::gateway::{
    detect_client_process, header_step, parse_target, GatewayState, MAX_HEADER_BYTES, MAX_RECORDS,
};

fn read_head(input: &[u8]) -> Vec<u8> {
    let mut buf = Vec::new();
    for &b in input {
        if !header_step(&mut buf, b) {
            break;
        }
    }
    buf
}

#[test]
fn header_stops_at_blank_line() {
    let head = read_head(b"GET / HTTP/1.1\r\nHost: a\r\n\r\nBODY");
    assert_eq!(head, b"GET / HTTP/1.1\r\nHost: a\r\n\r\n".to_vec());
}

#[test]
fn header_stops_at_limit() {
    let input = vec![b'a'; MAX_HEADER_BYTES + 10];
    assert_eq!(read_head(&input).len(), MAX_HEADER_BYTES);
}

#[test]
fn connect_target() {
    assert_eq!(
        parse_target(b"CONNECT example.com:8443 HTTP/1.1\r\n\r\n"),
        Some(("example.com".to_string(), 8443, "HTTP CONNECT".to_string()))
    );
    assert_eq!(
        parse_target(b"connect [2001:db8::1]:443 HTTP/1.1\r\n"),
        Some(("2001:db8::1".to_string(), 443, "HTTP CONNECT".to_string()))
    );
    assert_eq!(
        parse_target(b"CONNECT example.com HTTP/1.1\r\n"),
        Some(("example.com".to_string(), 443, "HTTP CONNECT".to_string()))
    );
    assert_eq!(
        parse_target(b"CONNECT host:xx HTTP/1.1\r\n"),
        Some(("host".to_string(), 443, "HTTP CONNECT".to_string()))
    );
}

#[test]
fn absolute_http_target() {
    assert_eq!(
        parse_target(b"GET http://example.com:8080/path?q=1 HTTP/1.1\r\nHost: other\r\n\r\n"),
        Some(("example.com".to_string(), 8080, "HTTP".to_string()))
    );
    assert_eq!(
        parse_target(b"GET http://example.org/ HTTP/1.1\r\n"),
        Some(("example.org".to_string(), 80, "HTTP".to_string()))
    );
}

#[test]
fn host_header_target() {
    assert_eq!(
        parse_target(b"GET /index.html HTTP/1.1\r\nUser-Agent: x\r\nHost:  www.a.com:81 \r\n\r\n"),
        Some(("www.a.com".to_string(), 81, "HTTP".to_string()))
    );
    assert_eq!(
        parse_target(b"GET / HTTP/1.1\r\nhost: b.com\r\n\r\n"),
        Some(("b.com".to_string(), 80, "HTTP".to_string()))
    );
    assert_eq!(parse_target(b"GET / HTTP/1.1\r\nHOST: c.com\r\n\r\n"), None);
    assert_eq!(parse_target(b""), None);
    assert_eq!(parse_target(b"   \r\nHost: a\r\n"), None);
}

#[test]
fn client_process_from_lsof() {
    let raw = "COMMAND PID USER FD TYPE DEVICE SIZE/OFF NODE NAME\n\
curl 4321 me 5u IPv4 0x1 0t0 TCP 127.0.0.1:51000->127.0.0.1:1097 (ESTABLISHED)\n\
v2proxy 99 me 7u IPv4 0x2 0t0 TCP 127.0.0.1:1097->127.0.0.1:51000 (ESTABLISHED)\n";
    assert_eq!(detect_client_process(raw, 51000), ("curl".to_string(), Some(4321)));
    assert_eq!(detect_client_process(raw, 52000), ("Unknown".to_string(), None));
    assert_eq!(detect_client_process("", 1), ("Unknown".to_string(), None));
}

#[test]
fn gateway_start_stop_status() {
    let mut g = GatewayState::new();
    assert!(!g.running);
    assert!(g.start());
    assert!(!g.start());
    let st = g.status();
    assert!(st.running);
    assert_eq!(st.listen_addr, "127.0.0.1:1097");
    assert_eq!(st.upstream_addr, "127.0.0.1:1087");
    assert_eq!(st.records, 0);
    g.stop();
    assert!(!g.status().running);
}

#[test]
fn gateway_log_keeps_newest() {
    let mut g = GatewayState::default();
    for i in 0..(MAX_RECORDS + 5) {
        g.record_connection(
            i as u128,
            "curl".to_string(),
            Some(1),
            "127.0.0.1:5000".to_string(),
            format!("h{}", i),
            80,
            "HTTP".to_string(),
        );
    }
    let log = g.connections();
    assert_eq!(log.len(), MAX_RECORDS);
    assert_eq!(log[0].id, 6);
    assert_eq!(log[0].domain, "h5");
    assert_eq!(log[MAX_RECORDS - 1].id, (MAX_RECORDS + 5) as u64);
    assert_eq!(log[MAX_RECORDS - 1].upstream, "127.0.0.1:1087");
    assert_eq!(g.next_id(), (MAX_RECORDS + 6) as u64);
}

#[test]
fn ids_wrap_around() {
    let mut g = GatewayState::new();
    g.next_id = u64::MAX;
    assert_eq!(g.next_id(), u64::MAX);
    assert_eq!(g.next_id(), 0);
}

#[test]
fn logged_ids_are_distinct_and_count_up() {
    let mut g = GatewayState::new();
    for i in 0..(MAX_RECORDS + 5) {
        g.record_connection(i as u128, "p".to_string(), None, "c".to_string(), "d".to_string(), 80, "HTTP".to_string());
    }
    let log = g.connections();
    assert_eq!(log.len(), MAX_RECORDS);
    for w in log.windows(2) {
        assert!(w[0].id < w[1].id);
    }
    assert_eq!(log[0].id, 6);
    assert_eq!(log[MAX_RECORDS - 1].id, (MAX_RECORDS + 5) as u64);
    assert_eq!(g.next_id, (MAX_RECORDS + 6) as u64);
}

#[test]
fn repeated_starts_spawn_one_listener() {
    let mut g = GatewayState::new();
    assert!(g.start());
    assert!(!g.start());
    assert!(!g.start());
    g.stop();
    assert!(g.start());
}
