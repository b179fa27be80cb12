use std::collections::HashMap;
use v2proxy_shell::traffic::{
    aggregate_connections, endpoint, get_traffic_snapshot, local_host, parse_lsof_connections,
    parse_nettop_counters, system_process, ConnAgg, IpAddress, MonitorState, TrafficMode,
};

fn parse_ip(host: &str) -> Option<IpAddress> {
    if host.contains(':') {
        let v6 = |first: u16, last: u16| Some(IpAddress::V6([first, 0, 0, 0, 0, 0, 0, last]));
        return match host {
            "::1" => v6(0, 1),
            "fe80::1" => v6(0xfe80, 1),
            "febf::1" => v6(0xfebf, 1),
            "fec0::1" => v6(0xfec0, 1),
            "fd00::5" => v6(0xfd00, 5),
            "fc00::1" => v6(0xfc00, 1),
            "fe00::1" => v6(0xfe00, 1),
            "fd7a:115c:a1e0::1" => Some(IpAddress::V6([0xfd7a, 0x115c, 0xa1e0, 0, 0, 0, 0, 1])),
            "2001:db8::1" => Some(IpAddress::V6([0x2001, 0xdb8, 0, 0, 0, 0, 0, 1])),
            _ => None,
        };
    }
    let parts: Vec<&str> = host.split('.').collect();
    if parts.len() != 4 {
        return None;
    }
    let mut o = [0u8; 4];
    for (i, p) in parts.iter().enumerate() {
        o[i] = p.parse().ok()?;
    }
    Some(IpAddress::V4(o))
}

#[test]
fn endpoint_splits_host_and_port() {
    assert_eq!(endpoint("10.0.0.2:443"), ("10.0.0.2".to_string(), 443));
    assert_eq!(endpoint("[fe80::1]:22"), ("fe80::1".to_string(), 22));
    assert_eq!(endpoint("(127.0.0.1:1087)"), ("127.0.0.1".to_string(), 1087));
    assert_eq!(endpoint("host:http"), ("host".to_string(), 0));
    assert_eq!(endpoint("nohost"), ("nohost".to_string(), 0));
    assert_eq!(endpoint("[::1"), ("[:".to_string(), 1));
}

#[test]
fn local_hosts() {
    for h in ["localhost", "127.0.0.1", "::1", "10.1.2.3", "172.16.0.1", "172.31.255.255", "192.168.1.1", "127.9.9.9", "169.254.3.4", "100.64.0.1", "100.127.1.1", "fe80::1", "febf::1", "fd00::5", "fc00::1", "fd7a:115c:a1e0::1"] {
        assert!(local_host(h, parse_ip(h)), "{}", h);
    }
    for h in ["8.8.8.8", "172.32.0.1", "100.128.0.1", "100.63.0.1", "2001:db8::1", "example.com", "fec0::1", "fe00::1"] {
        assert!(!local_host(h, parse_ip(h)), "{}", h);
    }
}

#[test]
fn system_processes() {
    assert!(system_process("Tailscale"));
    assert!(system_process("mDNSResponder"));
    assert!(system_process("com.apple.NESessionManager"));
    assert!(system_process("networkserviceproxy"));
    assert!(!system_process("Safari"));
}

#[test]
fn nettop_counters() {
    let raw = "time,bytes_in,bytes_out,\nSafari.123,1000,200,\nbad line\nxray.77,5,6,,\nSafari.123,1500,300,\nnope,1,2,\nx.9,a,2,\n";
    let m = parse_nettop_counters(raw);
    assert_eq!(m.len(), 2);
    assert_eq!(m.get(&123), Some(&(1500, 300)));
    assert_eq!(m.get(&77), Some(&(5, 6)));
}

const LSOF: &str = "COMMAND PID USER FD TYPE DEVICE SIZE/OFF NODE NAME
Safari 101 me 10u IPv4 0x1 0t0 TCP 192.168.1.5:50000->142.250.1.1:443 (ESTABLISHED)
Safari 101 me 11u IPv4 0x2 0t0 TCP 127.0.0.1:50001->127.0.0.1:1087 (ESTABLISHED)
Chrome 202 me 12u IPv4 0x3 0t0 TCP 127.0.0.1:50002->127.0.0.1:1080 (ESTABLISHED)
xray 303 me 13u IPv4 0x4 0t0 TCP 127.0.0.1:1087->127.0.0.1:50001 (ESTABLISHED)
tailscaled 404 root 14u IPv4 0x5 0t0 TCP 100.64.0.2:41641->100.64.0.3:41641 (ESTABLISHED)
Finder 505 me 15u IPv4 0x6 0t0 TCP 192.168.1.5:50003->192.168.1.9:445 (ESTABLISHED)
Safari 101 me 16u IPv4 0x7 0t0 TCP 192.168.1.5:50004->142.250.1.1:443 (ESTABLISHED)
short line
Bad xx me 15u IPv4 0x6 0t0 TCP 1.1.1.1:1->2.2.2.2:2 (ESTABLISHED)
";

fn aggregate() -> HashMap<u32, ConnAgg> {
    let conns = parse_lsof_connections(LSOF);
    let addrs: Vec<Option<IpAddress>> = conns.iter().map(|c| parse_ip(&c.remote_host)).collect();
    aggregate_connections(&conns, &addrs)
}

#[test]
fn lsof_lines_parse() {
    let conns = parse_lsof_connections(LSOF);
    assert_eq!(conns.len(), 7);
    assert_eq!(conns[0].process, "Safari");
    assert_eq!(conns[0].pid, 101);
    assert_eq!(conns[0].local_host, "192.168.1.5");
    assert_eq!(conns[0].local_port, 50000);
    assert_eq!(conns[0].remote_host, "142.250.1.1");
    assert_eq!(conns[0].remote_port, 443);
}

#[test]
fn connections_are_classified() {
    let m = aggregate();
    let safari = &m[&101];
    assert_eq!((safari.proxy, safari.direct, safari.local), (1, 2, 0));
    assert_eq!(safari.direct_targets, vec!["142.250.1.1:443".to_string()]);
    let chrome = &m[&202];
    assert_eq!((chrome.proxy, chrome.direct), (1, 0));
    assert_eq!(m[&303].xray, 1);
    assert_eq!(m[&404].system, 1);
    assert_eq!(m[&505].local, 1);
    assert_eq!(m.len(), 5);
}

#[test]
fn snapshot_modes_and_rates() {
    let conns = aggregate();
    let mut state = MonitorState::new();
    let mut counters = HashMap::new();
    counters.insert(101u32, (1000u64, 100u64));
    counters.insert(999u32, (10u64, 10u64));
    let first = get_traffic_snapshot(&mut state, &counters, &conns, 1_000_000_000);
    assert_eq!(first.len(), 6);
    assert!(first.iter().all(|s| s.rate.is_none()));
    let mut counters2 = HashMap::new();
    counters2.insert(101u32, (3000u64, 50u64));
    let second = get_traffic_snapshot(&mut state, &counters2, &conns, 3_000_000_000);
    let safari = second.iter().find(|s| s.pid == 101).unwrap();
    assert_eq!(safari.mode, TrafficMode::Mixed);
    assert_eq!(safari.mode.label(), "MIXED");
    let rate = safari.rate.unwrap();
    assert_eq!((rate.bytes_in, rate.bytes_out, rate.elapsed_nanos), (2000, 0, 2_000_000_000));
    let unknown = first.iter().find(|s| s.pid == 999).unwrap();
    assert_eq!(unknown.process, "pid-999");
    assert_eq!(unknown.mode, TrafficMode::Local);
    let modes: HashMap<u32, TrafficMode> = second.iter().map(|s| (s.pid, s.mode)).collect();
    assert_eq!(modes[&202], TrafficMode::Proxy);
    assert_eq!(modes[&303], TrafficMode::Xray);
    assert_eq!(modes[&404], TrafficMode::System);
    assert_eq!(modes[&505], TrafficMode::Local);
    assert_eq!(state.counters[&999].bytes_in, 10);
    assert_eq!(state.counters[&101].at, 3_000_000_000);
}

#[test]
fn unchanged_counters_show_no_traffic() {
    let conns = HashMap::new();
    let mut state = MonitorState::new();
    let mut counters = HashMap::new();
    counters.insert(7u32, (500u64, 500u64));
    get_traffic_snapshot(&mut state, &counters, &conns, 10);
    let second = get_traffic_snapshot(&mut state, &counters, &conns, 25);
    let r = second[0].rate.unwrap();
    assert_eq!((r.bytes_in, r.bytes_out, r.elapsed_nanos), (0, 0, 15));
}

#[test]
fn direct_target_reads_back_through_endpoint() {
    let m = aggregate();
    let target = &m[&101].direct_targets[0];
    assert_eq!(endpoint(target), ("142.250.1.1".to_string(), 443));
    assert_eq!(endpoint("example.com:8080"), ("example.com".to_string(), 8080));
}

#[test]
fn every_connection_counted_once() {
    let conns = parse_lsof_connections(LSOF);
    let m = aggregate();
    for (pid, agg) in &m {
        let n = conns.iter().filter(|c| c.pid == *pid).count();
        assert_eq!(agg.proxy + agg.direct + agg.local + agg.system + agg.xray, n, "{}", pid);
    }
    for c in &conns {
        assert!(m.contains_key(&c.pid));
    }
}

#[test]
fn private_ipv6_traffic_is_local() {
    let raw = "COMMAND PID USER FD TYPE DEVICE SIZE/OFF NODE NAME\n\
sync 606 me 3u IPv6 0x9 0t0 TCP [fd7a:115c:a1e0::2]:5000->[fd7a:115c:a1e0::1]:8080 (ESTABLISHED)\n\
sync 606 me 4u IPv6 0xa 0t0 TCP [fd00::4]:5001->[fd00::5]:445 (ESTABLISHED)\n\
sync 606 me 5u IPv6 0xb 0t0 TCP [2001:db8::2]:5002->[2001:db8::1]:443 (ESTABLISHED)\n";
    let conns = parse_lsof_connections(raw);
    assert_eq!(conns.len(), 3);
    let addrs: Vec<Option<IpAddress>> = conns.iter().map(|c| parse_ip(&c.remote_host)).collect();
    let m = aggregate_connections(&conns, &addrs);
    let a = &m[&606];
    assert_eq!((a.local, a.direct), (2, 1));
    assert_eq!(a.direct_targets, vec!["2001:db8::1:443".to_string()]);
}
