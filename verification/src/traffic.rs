//! Classification of live TCP connections and per-process traffic samples.
use vstd::prelude::*;
use std::collections::HashMap;
use crate::text::{
    chars_of, chars_eq, contains_chars, contains_seq, find_in, find_seq, is_first_occurrence,
    line_bounds, lines, lower_seq, occurs_at, parse_u16, parse_u32, parse_unsigned, pieces,
    rfind_in, rfind_seq, string_of, to_lower, trim_set, trim_set_chars, word_bounds, words,
};

verus! {

broadcast use vstd::std_specs::hash::group_hash_axioms;

/// The port that `u16::from_str` reads from `s`, or 0 where it fails.
pub open spec fn port_or_zero(s: Seq<char>) -> u16 {
    match parse_unsigned(s, u16::MAX as nat) {
        Some(v) => v as u16,
        None => 0,
    }
}

/// Host and port of an `lsof` endpoint such as `10.0.0.2:443`,
/// `[fe80::1]:22` or `(127.0.0.1:1087)`; a port that does not parse reads 0.
pub open spec fn endpoint_spec(value: Seq<char>) -> (Seq<char>, u16) {
    let v = trim_set(value, seq!['(', ')']);
    if v.len() > 0 && v[0] == '[' && rfind_seq(v, seq![']', ':']) is Some {
        let i = rfind_seq(v, seq![']', ':'])->0;
        (v.subrange(1, i), port_or_zero(v.skip(i + 2)))
    } else {
        match rfind_seq(v, seq![':']) {
            Some(i) => (v.take(i), port_or_zero(v.skip(i + 1))),
            None => (v, 0),
        }
    }
}

fn port_chars(s: &[char]) -> (r: u16)
    ensures
        r == port_or_zero(s@),
{
    match parse_u16(s) {
        Some(v) => v,
        None => 0,
    }
}

fn endpoint_chars(value: &[char]) -> (r: (Vec<char>, u16))
    ensures
        r.0@ == endpoint_spec(value@).0,
        r.1 == endpoint_spec(value@).1,
{
    let parens = ['(', ')'];
    assert(parens@ =~= seq!['(', ')']);
    let v = trim_set_chars(value, parens.as_slice(), true, true);
    let close = [']', ':'];
    assert(close@ =~= seq![']', ':']);
    if v.len() > 0 && v[0] == '[' {
        if let Some(i) = rfind_in(v, close.as_slice()) {
            let host = vstd::slice::slice_subrange(v, 1, i);
            let port = vstd::slice::slice_subrange(v, i + 2, v.len());
            return (vstd::slice::slice_to_vec(host), port_chars(port));
        }
    }
    let colon = [':'];
    assert(colon@ =~= seq![':']);
    match rfind_in(v, colon.as_slice()) {
        Some(i) => {
            let host = vstd::slice::slice_subrange(v, 0, i);
            let port = vstd::slice::slice_subrange(v, i + 1, v.len());
            (vstd::slice::slice_to_vec(host), port_chars(port))
        },
        None => (vstd::slice::slice_to_vec(v), 0),
    }
}

/// Splits an `lsof` endpoint into host and port.
pub fn endpoint(value: &str) -> (r: (String, u16))
    ensures
        r.0@ == endpoint_spec(value@).0,
        r.1 == endpoint_spec(value@).1,
{
    let v = chars_of(value);
    let (host, port) = endpoint_chars(v.as_slice());
    (string_of(host.as_slice()), port)
}

/// An IP address as `IpAddr::from_str` reads it: the four octets of a v4
/// address or the eight 16-bit groups of a v6 address.
#[derive(Clone, Copy, Debug, PartialEq, Eq)]
pub enum IpAddress {
    V4([u8; 4]),
    V6([u16; 8]),
}

/// Private (10/8, 172.16/12, 192.168/16), loopback (127/8), link-local
/// (169.254/16) or shared carrier-grade NAT space (100.64/10).
pub open spec fn v4_is_local(o: [u8; 4]) -> bool {
    ||| o[0] == 10
    ||| (o[0] == 172 && 16 <= o[1] && o[1] <= 31)
    ||| (o[0] == 192 && o[1] == 168)
    ||| o[0] == 127
    ||| (o[0] == 169 && o[1] == 254)
    ||| (o[0] == 100 && 64 <= o[1] && o[1] <= 127)
}

/// Loopback (`::1`), unicast link-local (`fe80::/10`) or private
/// unique-local (`fc00::/7`, where Tailscale's `fd7a:115c:a1e0::/48` lies).
pub open spec fn v6_is_local(g: [u16; 8]) -> bool {
    ||| (g[0] == 0 && g[1] == 0 && g[2] == 0 && g[3] == 0 && g[4] == 0 && g[5] == 0 && g[6] == 0
        && g[7] == 1)
    ||| (0xfe80 <= g[0] && g[0] <= 0xfebf)
    ||| (0xfc00 <= g[0] && g[0] <= 0xfdff)
}

/// Whether `host` names the machine itself or its local network; `addr` is
/// what `IpAddr::from_str` makes of `host` (`None` where it is no address).
pub open spec fn local_host_spec(host: Seq<char>, addr: Option<IpAddress>) -> bool {
    if host == "localhost"@ || host == "127.0.0.1"@ || host == "::1"@ {
        true
    } else {
        match addr {
            Some(IpAddress::V4(o)) => v4_is_local(o),
            Some(IpAddress::V6(g)) => v6_is_local(g),
            None => false,
        }
    }
}

fn str_eq(a: &[char], lit: &str) -> (r: bool)
    ensures
        r == (a@ == lit@),
{
    let b = chars_of(lit);
    chars_eq(a, b.as_slice())
}

fn local_host_chars(host: &[char], addr: Option<IpAddress>) -> (r: bool)
    ensures
        r == local_host_spec(host@, addr),
{
    if str_eq(host, "localhost") || str_eq(host, "127.0.0.1") || str_eq(host, "::1") {
        return true;
    }
    match addr {
        Some(IpAddress::V4(o)) => {
            o[0] == 10 || (o[0] == 172 && 16 <= o[1] && o[1] <= 31) || (o[0] == 192 && o[1] == 168)
                || o[0] == 127 || (o[0] == 169 && o[1] == 254) || (o[0] == 100 && 64 <= o[1] && o[1]
                <= 127)
        },
        Some(IpAddress::V6(g)) => {
            (g[0] == 0 && g[1] == 0 && g[2] == 0 && g[3] == 0 && g[4] == 0 && g[5] == 0 && g[6] == 0
                && g[7] == 1) || (0xfe80 <= g[0] && g[0] <= 0xfebf) || (0xfc00 <= g[0] && g[0]
                <= 0xfdff)
        },
        None => false,
    }
}

/// Whether `host` names the machine itself or its local network; `addr` is
/// what `IpAddr::from_str` makes of `host`.
pub fn local_host(host: &str, addr: Option<IpAddress>) -> (r: bool)
    ensures
        r == local_host_spec(host@, addr),
{
    let h = chars_of(host);
    local_host_chars(h.as_slice(), addr)
}

/// Processes whose connections are expected system networking.
pub open spec fn system_process_spec(name: Seq<char>) -> bool {
    let n = lower_seq(name);
    ||| contains_seq(n, "tailscale"@)
    ||| contains_seq(n, "mdnsresponder"@)
    ||| contains_seq(n, "nesession"@)
    ||| contains_seq(n, "networkserviceproxy"@)
}

fn contains_lit(s: &[char], lit: &str) -> (r: bool)
    ensures
        r == contains_seq(s@, lit@),
{
    let p = chars_of(lit);
    contains_chars(s, p.as_slice())
}

fn system_process_chars(name: &[char]) -> (r: bool)
    ensures
        r == system_process_spec(name@),
{
    let n = to_lower(name);
    contains_lit(n.as_slice(), "tailscale") || contains_lit(n.as_slice(), "mdnsresponder")
        || contains_lit(n.as_slice(), "nesession") || contains_lit(n.as_slice(), "networkserviceproxy")
}

/// Whether a process name belongs to expected system networking (Tailscale,
/// mDNSResponder, NESession, NetworkServiceProxy), ignoring ASCII case.
pub fn system_process(name: &str) -> (r: bool)
    ensures
        r == system_process_spec(name@),
{
    let n = chars_of(name);
    system_process_chars(n.as_slice())
}

/// A process name that belongs to the Xray/V2rayU runtime.
pub open spec fn xray_name(name: Seq<char>) -> bool {
    contains_seq(lower_seq(name), "xray"@) || contains_seq(lower_seq(name), "v2ray"@)
}

fn xray_name_chars(name: &[char]) -> (r: bool)
    ensures
        r == xray_name(name@),
{
    let n = to_lower(name);
    contains_lit(n.as_slice(), "xray") || contains_lit(n.as_slice(), "v2ray")
}

/// The local HTTP and SOCKS proxy ports of V2rayU.
pub const DEFAULT_HTTP_PORT: u16 = 1087;
pub const DEFAULT_SOCKS_PORT: u16 = 1080;

pub open spec fn is_loopback_literal(h: Seq<char>) -> bool {
    h == "127.0.0.1"@ || h == "::1"@
}

pub open spec fn is_proxy_port(p: u16) -> bool {
    p == DEFAULT_HTTP_PORT || p == DEFAULT_SOCKS_PORT
}

/// One established TCP connection of `lsof` output.
pub struct LsofConnection {
    pub process: String,
    pub pid: u32,
    pub local_host: String,
    pub local_port: u16,
    pub remote_host: String,
    pub remote_port: u16,
}

pub struct ConnectionView {
    pub process: Seq<char>,
    pub pid: u32,
    pub local_host: Seq<char>,
    pub local_port: u16,
    pub remote_host: Seq<char>,
    pub remote_port: u16,
}

impl View for LsofConnection {
    type V = ConnectionView;

    open spec fn view(&self) -> ConnectionView {
        ConnectionView {
            process: self.process@,
            pid: self.pid,
            local_host: self.local_host@,
            local_port: self.local_port,
            remote_host: self.remote_host@,
            remote_port: self.remote_port,
        }
    }
}

pub open spec fn arrow() -> Seq<char> {
    seq!['-', '>']
}

/// Index of the first word that contains `p`, or `ws.len()`.
pub open spec fn first_containing(ws: Seq<Seq<char>>, p: Seq<char>) -> int
    decreases ws.len(),
{
    if ws.len() == 0 {
        0
    } else if contains_seq(ws[0], p) {
        0
    } else {
        1 + first_containing(ws.drop_first(), p)
    }
}

pub(crate) proof fn lemma_first_containing_at(ws: Seq<Seq<char>>, p: Seq<char>, k: int)
    requires
        0 <= k <= ws.len(),
        forall|i: int| 0 <= i < k ==> !contains_seq(#[trigger] ws[i], p),
        k == ws.len() || contains_seq(ws[k], p),
    ensures
        first_containing(ws, p) == k,
    decreases k,
{
    if k > 0 {
        let t = ws.drop_first();
        assert forall|i: int| 0 <= i < k - 1 implies !contains_seq(#[trigger] t[i], p) by {
            assert(t[i] == ws[i + 1]);
        }
        lemma_first_containing_at(t, p, k - 1);
    }
}

/// The connection that one line of `lsof -nP -iTCP -sTCP:ESTABLISHED` shows:
/// at least nine fields, a numeric PID in the second, and a field with `->`
/// between the local and the remote endpoint.
pub open spec fn lsof_line(line: Seq<char>) -> Option<ConnectionView> {
    let f = words(line);
    if f.len() < 9 {
        None
    } else {
        match parse_unsigned(f[1], u32::MAX as nat) {
            None => None,
            Some(pid) => {
                let k = first_containing(f, arrow());
                if k < 0 || k >= f.len() {
                    None
                } else {
                    let conn = f[k];
                    let i = find_seq(conn, arrow())->0;
                    let (lh, lp) = endpoint_spec(conn.take(i));
                    let (rh, rp) = endpoint_spec(conn.skip(i + 2));
                    Some(
                        ConnectionView {
                            process: f[0],
                            pid: pid as u32,
                            local_host: lh,
                            local_port: lp,
                            remote_host: rh,
                            remote_port: rp,
                        },
                    )
                }
            },
        }
    }
}

fn lsof_line_chars(line: &[char]) -> (r: Option<LsofConnection>)
    ensures
        match r {
            Some(c) => lsof_line(line@) == Some(c@),
            None => lsof_line(line@) is None,
        },
{
    let wb = word_bounds(line);
    let ghost f = words(line@);
    assert(f.len() == wb@.len());
    if wb.len() < 9 {
        return None;
    }
    let (p0, p1) = wb[1];
    assert(line@.subrange(p0 as int, p1 as int) == f[1]);
    let pid = match parse_u32(vstd::slice::slice_subrange(line, p0, p1)) {
        Some(v) => v,
        None => return None,
    };
    let arr = ['-', '>'];
    assert(arr@ =~= arrow());
    let mut k: usize = 0;
    while k < wb.len()
        invariant
            k <= wb@.len() == f.len(),
            crate::text::ranges_within(wb@, line@.len()),
            pieces(line@, wb@) == f,
            arr@ == arrow(),
            f == words(line@),
            f.len() >= 9,
            parse_unsigned(f[1], u32::MAX as nat) == Some(pid as nat),
            forall|i: int| 0 <= i < k ==> !contains_seq(#[trigger] f[i], arrow()),
        decreases wb@.len() - k,
    {
        let (a, b) = wb[k];
        assert(line@.subrange(a as int, b as int) == f[k as int]);
        let w = vstd::slice::slice_subrange(line, a, b);
        match find_in(w, arr.as_slice()) {
            Some(i) => {
                proof {
                    lemma_first_containing_at(f, arrow(), k as int);
                }
                let left = vstd::slice::slice_subrange(w, 0, i);
                let right = vstd::slice::slice_subrange(w, i + 2, w.len());
                let (lh, lp) = endpoint_chars(left);
                let (rh, rp) = endpoint_chars(right);
                let (q0, q1) = wb[0];
                assert(line@.subrange(q0 as int, q1 as int) == f[0]);
                assert(first_containing(f, arrow()) == k as int);
                assert(w@ == f[k as int]);
                assert(left@ =~= w@.take(i as int));
                assert(right@ =~= w@.skip(i + 2));
                assert(parse_unsigned(f[1], u32::MAX as nat) == Some(pid as nat));
                let process = string_of(vstd::slice::slice_subrange(line, q0, q1));
                let c = LsofConnection {
                    process,
                    pid,
                    local_host: string_of(lh.as_slice()),
                    local_port: lp,
                    remote_host: string_of(rh.as_slice()),
                    remote_port: rp,
                };
                assert(find_seq(f[k as int], arrow()) == Some(i as int));
                assert(endpoint_spec(f[k as int].take(i as int)).0 == c.local_host@);
                assert(endpoint_spec(f[k as int].skip(i + 2)).0 == c.remote_host@);
                assert(c.process@ == f[0]);
                let ghost conn = f[k as int];
                let ghost ii = find_seq(conn, arrow())->0;
                assert(ii == i);
                let ghost v = ConnectionView {
                    process: f[0],
                    pid: pid,
                    local_host: endpoint_spec(conn.take(ii)).0,
                    local_port: endpoint_spec(conn.take(ii)).1,
                    remote_host: endpoint_spec(conn.skip(ii + 2)).0,
                    remote_port: endpoint_spec(conn.skip(ii + 2)).1,
                };
                assert(c@ == v);
                assert(lsof_line(line@) == Some(v));
                return Some(c);
            },
            None => {},
        }
        k = k + 1;
    }
    proof {
        lemma_first_containing_at(f, arrow(), f.len() as int);
    }
    None
}

/// The connections of all lines of `ls` that `lsof_line` accepts, in order.
pub open spec fn collect_lsof(ls: Seq<Seq<char>>) -> Seq<ConnectionView>
    decreases ls.len(),
{
    if ls.len() == 0 {
        seq![]
    } else {
        let prev = collect_lsof(ls.drop_last());
        match lsof_line(ls.last()) {
            Some(c) => prev.push(c),
            None => prev,
        }
    }
}

/// The connections of `lsof` output, its header line left out.
pub open spec fn lsof_connections(raw: Seq<char>) -> Seq<ConnectionView> {
    let ls = lines(raw);
    if ls.len() == 0 {
        seq![]
    } else {
        collect_lsof(ls.skip(1))
    }
}

pub open spec fn views_of(v: Seq<LsofConnection>) -> Seq<ConnectionView> {
    v.map_values(|c: LsofConnection| c@)
}

/// Parses the output of `lsof -nP -iTCP -sTCP:ESTABLISHED`.
pub fn parse_lsof_connections(raw: &str) -> (r: Vec<LsofConnection>)
    ensures
        views_of(r@) == lsof_connections(raw@),
{
    let chars = chars_of(raw);
    let s = chars.as_slice();
    let lb = line_bounds(s);
    let ghost ls = lines(s@);
    let mut out: Vec<LsofConnection> = Vec::new();
    if lb.len() == 0 {
        assert(views_of(out@) =~= Seq::<ConnectionView>::empty());
        return out;
    }
    let mut k: usize = 1;
    assert(ls.skip(1).take(0) =~= Seq::<Seq<char>>::empty());
    while k < lb.len()
        invariant
            1 <= k <= lb@.len() == ls.len(),
            crate::text::ranges_within(lb@, s@.len()),
            pieces(s@, lb@) == ls,
            views_of(out@) == collect_lsof(ls.skip(1).take(k - 1)),
        decreases lb@.len() - k,
    {
        let (a, b) = lb[k];
        assert(s@.subrange(a as int, b as int) == ls[k as int]);
        let line = vstd::slice::slice_subrange(s, a, b);
        let ghost before = ls.skip(1).take(k - 1);
        let ghost after = ls.skip(1).take(k as int);
        assert(after.drop_last() =~= before);
        assert(after.last() == ls[k as int]);
        match lsof_line_chars(line) {
            Some(c) => {
                out.push(c);
                assert(views_of(out@) =~= views_of(out@.drop_last()).push(c@));
            },
            None => {},
        }
        k = k + 1;
    }
    assert(ls.skip(1).take(k - 1) =~= ls.skip(1));
    out
}

/// How one connection counts for its process.
#[derive(Clone, Copy, Debug, PartialEq, Eq)]
pub enum ConnClass {
    /// To the local HTTP or SOCKS proxy port.
    Proxy,
    /// Xray/V2rayU runtime traffic.
    Xray,
    /// Expected system networking.
    System,
    /// Loopback, LAN or private destination.
    Local,
    /// Straight to a public destination.
    Direct,
}

/// The class of a connection; `remote_local` tells whether its remote host is
/// local (see `local_host_spec`).
pub open spec fn classify(c: ConnectionView, remote_local: bool) -> ConnClass {
    if is_loopback_literal(c.remote_host) && is_proxy_port(c.remote_port) {
        ConnClass::Proxy
    } else if is_loopback_literal(c.local_host) && is_proxy_port(c.local_port) {
        ConnClass::Xray
    } else if xray_name(c.process) {
        ConnClass::Xray
    } else if system_process_spec(c.process) {
        ConnClass::System
    } else if remote_local {
        ConnClass::Local
    } else {
        ConnClass::Direct
    }
}

/// `host:port` of a connection's remote end.
pub open spec fn target_of(c: ConnectionView) -> Seq<char> {
    c.remote_host + seq![':'] + crate::text::decimal(c.remote_port as nat)
}

/// The connections of one process, counted by class.
pub struct ConnAgg {
    pub process: String,
    pub proxy: usize,
    pub direct: usize,
    pub local: usize,
    pub system: usize,
    pub xray: usize,
    /// Distinct `host:port` targets of the direct connections, first seen first.
    pub direct_targets: Vec<String>,
}

#[verifier::ext_equal]
pub struct AggView {
    pub process: Seq<char>,
    pub proxy: nat,
    pub direct: nat,
    pub local: nat,
    pub system: nat,
    pub xray: nat,
    pub direct_targets: Seq<Seq<char>>,
}

pub open spec fn strings_view(v: Seq<String>) -> Seq<Seq<char>> {
    v.map_values(|s: String| s@)
}

impl View for ConnAgg {
    type V = AggView;

    open spec fn view(&self) -> AggView {
        AggView {
            process: self.process@,
            proxy: self.proxy as nat,
            direct: self.direct as nat,
            local: self.local as nat,
            system: self.system as nat,
            xray: self.xray as nat,
            direct_targets: strings_view(self.direct_targets@),
        }
    }
}

pub open spec fn empty_agg() -> AggView {
    AggView {
        process: seq![],
        proxy: 0,
        direct: 0,
        local: 0,
        system: 0,
        xray: 0,
        direct_targets: seq![],
    }
}

/// `a` after one more connection `c` of class `cls`.
pub open spec fn bump(a: AggView, c: ConnectionView, cls: ConnClass) -> AggView {
    let a = AggView { process: c.process, ..a };
    match cls {
        ConnClass::Proxy => AggView { proxy: a.proxy + 1, ..a },
        ConnClass::Xray => AggView { xray: a.xray + 1, ..a },
        ConnClass::System => AggView { system: a.system + 1, ..a },
        ConnClass::Local => AggView { local: a.local + 1, ..a },
        ConnClass::Direct => AggView {
            direct: a.direct + 1,
            direct_targets: if a.direct_targets.contains(target_of(c)) {
                a.direct_targets
            } else {
                a.direct_targets.push(target_of(c))
            },
            ..a
        },
    }
}

/// The address that `IpAddr::from_str` gave for the remote host of the
/// `i`-th connection; `None` past the end of `addrs`.
pub open spec fn addr_at(addrs: Seq<Option<IpAddress>>, i: int) -> Option<IpAddress> {
    if 0 <= i < addrs.len() {
        addrs[i]
    } else {
        None
    }
}

/// Per-PID aggregate of `cs`: the process name of the PID's last connection
/// and its connections counted by class.
pub open spec fn aggregate_spec(cs: Seq<ConnectionView>, addrs: Seq<Option<IpAddress>>) -> Map<
    u32,
    AggView,
>
    decreases cs.len(),
{
    if cs.len() == 0 {
        Map::empty()
    } else {
        let m = aggregate_spec(cs.drop_last(), addrs);
        let i = cs.len() - 1;
        let c = cs[i];
        let before = if m.contains_key(c.pid) {
            m[c.pid]
        } else {
            empty_agg()
        };
        m.insert(c.pid, bump(before, c, classify(c, local_host_spec(c.remote_host, addr_at(addrs, i)))))
    }
}

pub open spec fn agg_map_view(m: Map<u32, ConnAgg>) -> Map<u32, AggView> {
    Map::new(|k: u32| m.contains_key(k), |k: u32| m[k]@)
}

pub open spec fn agg_bounded(a: AggView, n: nat) -> bool {
    a.proxy <= n && a.direct <= n && a.local <= n && a.system <= n && a.xray <= n
}

proof fn lemma_aggregate_bounded(cs: Seq<ConnectionView>, addrs: Seq<Option<IpAddress>>)
    ensures
        forall|k: u32| #[trigger] aggregate_spec(cs, addrs).contains_key(k) ==> agg_bounded(
            aggregate_spec(cs, addrs)[k],
            cs.len(),
        ),
    decreases cs.len(),
{
    if cs.len() > 0 {
        let prev = cs.drop_last();
        lemma_aggregate_bounded(prev, addrs);
        let m = aggregate_spec(prev, addrs);
        let c = cs[cs.len() - 1];
        let before = if m.contains_key(c.pid) {
            m[c.pid]
        } else {
            empty_agg()
        };
        assert(agg_bounded(before, prev.len()));
        let cls = classify(c, local_host_spec(c.remote_host, addr_at(addrs, cs.len() - 1)));
        assert(agg_bounded(bump(before, c, cls), cs.len()));
        assert forall|k: u32| #[trigger] aggregate_spec(cs, addrs).contains_key(k) implies agg_bounded(
            aggregate_spec(cs, addrs)[k],
            cs.len(),
        ) by {
            if k != c.pid {
                assert(agg_bounded(m[k], prev.len()));
            }
        }
    }
}

fn classify_exec(c: &LsofConnection, addr: Option<IpAddress>) -> (r: ConnClass)
    ensures
        r == classify(c@, local_host_spec(c.remote_host@, addr)),
{
    let rh = chars_of(c.remote_host.as_str());
    let lh = chars_of(c.local_host.as_str());
    let p = chars_of(c.process.as_str());
    let remote_loop = str_eq(rh.as_slice(), "127.0.0.1") || str_eq(rh.as_slice(), "::1");
    let local_loop = str_eq(lh.as_slice(), "127.0.0.1") || str_eq(lh.as_slice(), "::1");
    if remote_loop && (c.remote_port == DEFAULT_HTTP_PORT || c.remote_port == DEFAULT_SOCKS_PORT) {
        ConnClass::Proxy
    } else if local_loop && (c.local_port == DEFAULT_HTTP_PORT || c.local_port
        == DEFAULT_SOCKS_PORT) {
        ConnClass::Xray
    } else if xray_name_chars(p.as_slice()) {
        ConnClass::Xray
    } else if system_process_chars(p.as_slice()) {
        ConnClass::System
    } else if local_host_chars(rh.as_slice(), addr) {
        ConnClass::Local
    } else {
        ConnClass::Direct
    }
}

fn target_string(c: &LsofConnection) -> (r: String)
    ensures
        r@ == target_of(c@),
{
    let mut v = chars_of(c.remote_host.as_str());
    v.push(':');
    crate::text::push_decimal(&mut v, c.remote_port as u128);
    string_of(v.as_slice())
}

fn has_string(v: &Vec<String>, s: &String) -> (r: bool)
    ensures
        r == strings_view(v@).contains(s@),
{
    let mut i: usize = 0;
    while i < v.len()
        invariant
            i <= v@.len(),
            forall|j: int| 0 <= j < i ==> v@[j]@ != s@,
        decreases v@.len() - i,
    {
        if v[i] == *s {
            assert(strings_view(v@)[i as int] == s@);
            return true;
        }
        i = i + 1;
    }
    proof {
        if strings_view(v@).contains(s@) {
            let j = choose|j: int| 0 <= j < strings_view(v@).len() && strings_view(v@)[j] == s@;
            assert(v@[j]@ == s@);
        }
    }
    false
}

/// Counts the connections of each PID by class (see `classify`). `addrs[i]`
/// is what `IpAddr::from_str` makes of the remote host of `conns[i]`.
pub fn aggregate_connections(conns: &Vec<LsofConnection>, addrs: &Vec<Option<IpAddress>>) -> (r:
    HashMap<u32, ConnAgg>)
    ensures
        agg_map_view(r@) == aggregate_spec(views_of(conns@), addrs@),
{
    let mut map: HashMap<u32, ConnAgg> = HashMap::new();
    let ghost cs = views_of(conns@);
    let mut i: usize = 0;
    assert(agg_map_view(map@) =~= aggregate_spec(cs.take(0), addrs@));
    while i < conns.len()
        invariant
            i <= conns@.len(),
            cs == views_of(conns@),
            agg_map_view(map@) == aggregate_spec(cs.take(i as int), addrs@),
        decreases conns@.len() - i,
    {
        let c = &conns[i];
        let addr = if i < addrs.len() { addrs[i] } else { None };
        let cls = classify_exec(c, addr);
        let ghost before_map = map@;
        proof {
            lemma_aggregate_bounded(cs.take(i as int), addrs@);
            assert(cs.take(i + 1).drop_last() =~= cs.take(i as int));
            assert(cs.take(i + 1)[i as int] == c@);
        }
        let mut agg = match map.remove(&c.pid) {
            Some(a) => {
                assert(agg_map_view(before_map).contains_key(c.pid));
                a
            },
            None => ConnAgg {
                process: String::new(),
                proxy: 0,
                direct: 0,
                local: 0,
                system: 0,
                xray: 0,
                direct_targets: Vec::new(),
            },
        };
        let ghost start = agg@;
        assert(start == (if aggregate_spec(cs.take(i as int), addrs@).contains_key(c.pid) {
            aggregate_spec(cs.take(i as int), addrs@)[c.pid]
        } else {
            empty_agg()
        }));
        assert(agg_bounded(start, i as nat));
        agg.process = c.process.clone();
        match cls {
            ConnClass::Proxy => {
                agg.proxy = agg.proxy + 1;
            },
            ConnClass::Xray => {
                agg.xray = agg.xray + 1;
            },
            ConnClass::System => {
                agg.system = agg.system + 1;
            },
            ConnClass::Local => {
                agg.local = agg.local + 1;
            },
            ConnClass::Direct => {
                agg.direct = agg.direct + 1;
                let t = target_string(c);
                if !has_string(&agg.direct_targets, &t) {
                    agg.direct_targets.push(t);
                    assert(strings_view(agg.direct_targets@) =~= strings_view(
                        agg.direct_targets@.drop_last(),
                    ).push(t@));
                }
            },
        }
        assert(agg@ =~= bump(start, c@, cls));
        map.insert(c.pid, agg);
        assert(agg_map_view(map@) =~= aggregate_spec(cs.take(i + 1), addrs@));
        i = i + 1;
    }
    assert(cs.take(i as int) =~= cs);
    map
}

/// The PID and byte counters of one line of `nettop -P -L 1 -J
/// bytes_in,bytes_out` CSV output (`name.pid,bytes_in,bytes_out,`).
pub open spec fn nettop_line(line: Seq<char>) -> Option<(u32, u64, u64)> {
    let t = crate::text::trim_end_set(crate::text::trim(line), seq![',']);
    let f = crate::text::split_char(t, ',');
    if f.len() < 3 {
        None
    } else {
        match rfind_seq(f[0], seq!['.']) {
            None => None,
            Some(i) => {
                match (
                    parse_unsigned(f[0].skip(i + 1), u32::MAX as nat),
                    parse_unsigned(f[1], u64::MAX as nat),
                    parse_unsigned(f[2], u64::MAX as nat),
                ) {
                    (Some(pid), Some(down), Some(up)) => Some((pid as u32, down as u64, up as u64)),
                    _ => None,
                }
            },
        }
    }
}

/// Counters by PID over `ls`; a later line of a PID replaces an earlier one.
pub open spec fn nettop_map(ls: Seq<Seq<char>>) -> Map<u32, (u64, u64)>
    decreases ls.len(),
{
    if ls.len() == 0 {
        Map::empty()
    } else {
        let m = nettop_map(ls.drop_last());
        match nettop_line(ls.last()) {
            Some((pid, down, up)) => m.insert(pid, (down, up)),
            None => m,
        }
    }
}

fn nettop_line_chars(line: &[char]) -> (r: Option<(u32, u64, u64)>)
    ensures
        r == nettop_line(line@),
{
    let t0 = crate::text::trim_chars(line);
    let comma = [','];
    assert(comma@ =~= seq![',']);
    let t = trim_set_chars(t0, comma.as_slice(), false, true);
    let sb = crate::text::split_bounds(t, ',');
    let ghost f = crate::text::split_char(t@, ',');
    assert(sb@.len() == f.len());
    if sb.len() < 3 {
        return None;
    }
    let (a0, b0) = sb[0];
    let (a1, b1) = sb[1];
    let (a2, b2) = sb[2];
    assert(t@.subrange(a0 as int, b0 as int) == f[0]);
    assert(t@.subrange(a1 as int, b1 as int) == f[1]);
    assert(t@.subrange(a2 as int, b2 as int) == f[2]);
    let f0 = vstd::slice::slice_subrange(t, a0, b0);
    let dot = ['.'];
    assert(dot@ =~= seq!['.']);
    let i = match rfind_in(f0, dot.as_slice()) {
        Some(i) => i,
        None => return None,
    };
    let pid = crate::text::parse_u32(vstd::slice::slice_subrange(f0, i + 1, f0.len()));
    let down = crate::text::parse_u64(vstd::slice::slice_subrange(t, a1, b1));
    let up = crate::text::parse_u64(vstd::slice::slice_subrange(t, a2, b2));
    assert(f0@.subrange(i + 1, f0@.len() as int) =~= f0@.skip(i + 1));
    match (pid, down, up) {
        (Some(p), Some(d), Some(u)) => Some((p, d, u)),
        _ => None,
    }
}

/// Parses `nettop` counters by PID; a later line of a PID replaces an
/// earlier one, and lines that do not read as counters are skipped.
pub fn parse_nettop_counters(raw: &str) -> (r: HashMap<u32, (u64, u64)>)
    ensures
        r@ == nettop_map(lines(raw@)),
{
    let chars = chars_of(raw);
    let s = chars.as_slice();
    let lb = line_bounds(s);
    let ghost ls = lines(s@);
    let mut map: HashMap<u32, (u64, u64)> = HashMap::new();
    let mut k: usize = 0;
    assert(map@ =~= nettop_map(ls.take(0)));
    while k < lb.len()
        invariant
            k <= lb@.len() == ls.len(),
            ls == lines(s@),
            crate::text::ranges_within(lb@, s@.len()),
            pieces(s@, lb@) == ls,
            map@ == nettop_map(ls.take(k as int)),
        decreases lb@.len() - k,
    {
        let (a, b) = lb[k];
        assert(s@.subrange(a as int, b as int) == ls[k as int]);
        assert(ls.take(k + 1).drop_last() =~= ls.take(k as int));
        match nettop_line_chars(vstd::slice::slice_subrange(s, a, b)) {
            Some((pid, down, up)) => {
                map.insert(pid, (down, up));
            },
            None => {},
        }
        k = k + 1;
    }
    assert(ls.take(k as int) =~= ls);
    map
}

/// The PIDs of `a` and of `b`, each once.
fn union_pids(a: &HashMap<u32, (u64, u64)>, b: &HashMap<u32, ConnAgg>) -> (r: Vec<u32>)
    ensures
        r@.no_duplicates(),
        r@.to_set() == a@.dom().union(b@.dom()),
{
    let mut out: Vec<u32> = Vec::new();
    if a.len() == 0 {
        assert(a@.dom() =~= Set::<u32>::empty());
    }
    for k in it: a.keys()
        invariant
            out@.no_duplicates(),
            it.seq().unref().no_duplicates(),
            it.seq().unref().to_set() == a@.dom(),
            out@ == it.seq().unref().take(it.index() as int),
            it.index() == 0 ==> out@.len() == 0,
            a@.dom().len() == 0 ==> out@.to_set() == a@.dom(),
            it.index() == it.seq().len() ==> out@.to_set() == a@.dom(),
    {
        out.push(*k);
        assert(out@ =~= it.seq().unref().take(it.index() + 1));
        assert(it.index() + 1 == it.seq().len() ==> it.seq().unref().take(it.index() + 1)
            =~= it.seq().unref());
    }
    assert(out@.to_set() == a@.dom());
    for k in it: b.keys()
        invariant
            out@.no_duplicates(),
            it.seq().unref().no_duplicates(),
            it.seq().unref().to_set() == b@.dom(),
            it.seq().unref().take(it.seq().len() as int) == it.seq().unref(),
            out@.to_set() == a@.dom().union(it.seq().unref().take(it.index() as int).to_set()),
    {
        let ghost pre = out@;
        let ghost t1 = it.seq().unref().take(it.index() as int);
        let ghost t2 = it.seq().unref().take(it.index() + 1);
        assert(t2 =~= t1.push(*k));
        assert(t2.to_set() =~= t1.to_set().insert(*k));
        if !a.contains_key(k) {
            assert(!t1.contains(*k)) by {
                if t1.contains(*k) {
                    let w = choose|w: int| 0 <= w < t1.len() && t1[w] == *k;
                    assert(it.seq().unref()[w] == it.seq().unref()[it.index() as int]);
                }
            }
            assert(!pre.contains(*k)) by {
                if pre.contains(*k) {
                    assert(pre.to_set().contains(*k));
                }
            }
            out.push(*k);
            assert forall|i: int, j: int| 0 <= i < j < out@.len() implies out@[i] != out@[j] by {
                if j == out@.len() - 1 {
                    assert(pre.contains(pre[i]));
                }
            }
            assert(out@ =~= pre.push(*k));
            assert forall|x: u32| out@.to_set().contains(x) <==> pre.to_set().insert(*k).contains(x) by {
                if out@.contains(x) && x != *k {
                    let w = choose|w: int| 0 <= w < out@.len() && out@[w] == x;
                    assert(pre[w] == x);
                }
                if pre.contains(x) {
                    let w = choose|w: int| 0 <= w < pre.len() && pre[w] == x;
                    assert(out@[w] == x);
                }
                if x == *k {
                    assert(out@[out@.len() - 1] == x);
                }
            }
            assert(out@.to_set() =~= pre.to_set().insert(*k));
        }
        assert(out@.to_set() =~= a@.dom().union(t2.to_set()));
        assert(it.seq().unref().take(it.seq().len() as int) =~= it.seq().unref());
    }
    proof {
        if b@.dom().len() == 0 {
            assert(b@.dom() =~= Set::<u32>::empty());
        }
    }
    out
}

/// Byte counters of a process and the monotonic time, in nanoseconds, at
/// which they were read.
#[derive(Clone, Copy, Debug, PartialEq, Eq)]
pub struct CounterSample {
    pub bytes_in: u64,
    pub bytes_out: u64,
    pub at: u64,
}

/// The counters of the previous snapshot, by PID.
pub struct MonitorState {
    pub counters: HashMap<u32, CounterSample>,
}

impl MonitorState {
    pub fn new() -> (r: MonitorState)
        ensures
            r.counters@ == Map::<u32, CounterSample>::empty(),
    {
        MonitorState { counters: HashMap::new() }
    }
}

impl Default for MonitorState {
    fn default() -> (r: MonitorState)
        ensures
            r.counters@ == Map::<u32, CounterSample>::empty(),
    {
        MonitorState::new()
    }
}

/// How a process reaches the network.
#[derive(Clone, Copy, Debug, PartialEq, Eq)]
pub enum TrafficMode {
    Mixed,
    Direct,
    Proxy,
    System,
    Xray,
    Local,
}

pub open spec fn mode_label(m: TrafficMode) -> Seq<char> {
    match m {
        TrafficMode::Mixed => "MIXED"@,
        TrafficMode::Direct => "DIRECT"@,
        TrafficMode::Proxy => "PROXY"@,
        TrafficMode::System => "SYSTEM"@,
        TrafficMode::Xray => "XRAY"@,
        TrafficMode::Local => "LOCAL"@,
    }
}

impl TrafficMode {
    /// The name the UI shows for the mode.
    pub fn label(&self) -> (r: &'static str)
        ensures
            r@ == mode_label(*self),
    {
        match self {
            TrafficMode::Mixed => "MIXED",
            TrafficMode::Direct => "DIRECT",
            TrafficMode::Proxy => "PROXY",
            TrafficMode::System => "SYSTEM",
            TrafficMode::Xray => "XRAY",
            TrafficMode::Local => "LOCAL",
        }
    }
}

/// Mode of a process from its connection counts and name: both proxy and
/// direct sockets make it mixed; then direct, proxy, system, Xray, local.
pub open spec fn mode_of(a: AggView, process: Seq<char>) -> TrafficMode {
    if a.proxy > 0 && a.direct > 0 {
        TrafficMode::Mixed
    } else if a.direct > 0 {
        TrafficMode::Direct
    } else if a.proxy > 0 {
        TrafficMode::Proxy
    } else if a.system > 0 {
        TrafficMode::System
    } else if a.xray > 0 || xray_name(process) {
        TrafficMode::Xray
    } else {
        TrafficMode::Local
    }
}

/// Bytes moved since the previous snapshot and the time that passed.
#[derive(Clone, Copy, Debug, PartialEq, Eq)]
pub struct RateSample {
    pub bytes_in: u64,
    pub bytes_out: u64,
    pub elapsed_nanos: u64,
}

/// One process of a traffic snapshot.
pub struct TrafficSample {
    pub process: String,
    pub pid: u32,
    pub mode: TrafficMode,
    pub proxy_connections: usize,
    pub direct_connections: usize,
    pub local_connections: usize,
    /// `None` unless both this snapshot and the previous one read the
    /// process's counters.
    pub rate: Option<RateSample>,
    pub direct_targets: Vec<String>,
}

pub struct SampleView {
    pub process: Seq<char>,
    pub pid: u32,
    pub mode: TrafficMode,
    pub proxy_connections: nat,
    pub direct_connections: nat,
    pub local_connections: nat,
    pub rate: Option<RateSample>,
    pub direct_targets: Seq<Seq<char>>,
}

impl View for TrafficSample {
    type V = SampleView;

    open spec fn view(&self) -> SampleView {
        SampleView {
            process: self.process@,
            pid: self.pid,
            mode: self.mode,
            proxy_connections: self.proxy_connections as nat,
            direct_connections: self.direct_connections as nat,
            local_connections: self.local_connections as nat,
            rate: self.rate,
            direct_targets: strings_view(self.direct_targets@),
        }
    }
}

pub open spec fn sat_sub(a: u64, b: u64) -> u64 {
    if a >= b {
        (a - b) as u64
    } else {
        0
    }
}

/// The sample of `pid`: its connections (none where `lsof` showed none),
/// `pid-<pid>` as name where no connection names it, and the counters'
/// growth since `prev` (saturating at zero).
pub open spec fn sample_spec(
    pid: u32,
    counters: Map<u32, (u64, u64)>,
    conns: Map<u32, AggView>,
    prev: Map<u32, CounterSample>,
    now: u64,
) -> SampleView {
    let a = if conns.contains_key(pid) {
        conns[pid]
    } else {
        empty_agg()
    };
    let process = if conns.contains_key(pid) {
        conns[pid].process
    } else {
        "pid-"@ + crate::text::decimal(pid as nat)
    };
    SampleView {
        process,
        pid,
        mode: mode_of(a, process),
        proxy_connections: a.proxy,
        direct_connections: a.direct,
        local_connections: a.local,
        rate: if counters.contains_key(pid) && prev.contains_key(pid) {
            Some(
                RateSample {
                    bytes_in: sat_sub(counters[pid].0, prev[pid].bytes_in),
                    bytes_out: sat_sub(counters[pid].1, prev[pid].bytes_out),
                    elapsed_nanos: sat_sub(now, prev[pid].at),
                },
            )
        } else {
            None
        },
        direct_targets: a.direct_targets,
    }
}

/// The previous counters with those of the PIDs in `done` that `counters`
/// holds replaced by this reading.
pub open spec fn refresh(
    prev: Map<u32, CounterSample>,
    counters: Map<u32, (u64, u64)>,
    now: u64,
    done: Set<u32>,
) -> Map<u32, CounterSample> {
    Map::new(
        |k: u32| prev.contains_key(k) || (done.contains(k) && counters.contains_key(k)),
        |k: u32|
            if done.contains(k) && counters.contains_key(k) {
                CounterSample { bytes_in: counters[k].0, bytes_out: counters[k].1, at: now }
            } else {
                prev[k]
            },
    )
}

/// The counters that a snapshot leaves for the next one: every PID read now
/// gets this reading; PIDs not read now keep theirs.
pub open spec fn next_counters(
    prev: Map<u32, CounterSample>,
    counters: Map<u32, (u64, u64)>,
    now: u64,
) -> Map<u32, CounterSample> {
    refresh(prev, counters, now, counters.dom())
}

fn clone_strings(v: &Vec<String>) -> (r: Vec<String>)
    ensures
        strings_view(r@) == strings_view(v@),
{
    let mut out: Vec<String> = Vec::new();
    let mut i: usize = 0;
    while i < v.len()
        invariant
            i <= v@.len(),
            strings_view(out@) == strings_view(v@.take(i as int)),
        decreases v@.len() - i,
    {
        let c = v[i].clone();
        assert(c@ == v@[i as int]@);
        out.push(c);
        assert(strings_view(out@) =~= strings_view(v@.take(i as int)).push(c@));
        assert(strings_view(v@.take(i + 1)) =~= strings_view(v@.take(i as int)).push(v@[i as int]@));
        i = i + 1;
    }
    assert(v@.take(i as int) =~= v@);
    out
}

fn sample_of(
    pid: u32,
    counters: &HashMap<u32, (u64, u64)>,
    conns: &HashMap<u32, ConnAgg>,
    prev: &HashMap<u32, CounterSample>,
    now: u64,
) -> (r: TrafficSample)
    ensures
        r@ == sample_spec(pid, counters@, agg_map_view(conns@), prev@, now),
{
    let ghost cv = agg_map_view(conns@);
    let (process, proxy, direct, local, system, xray, targets) = match conns.get(&pid) {
        Some(a) => {
            assert(cv.contains_key(pid) && cv[pid] == a@);
            (a.process.clone(), a.proxy, a.direct, a.local, a.system, a.xray, clone_strings(
                &a.direct_targets,
            ))
        },
        None => {
            let mut name = chars_of("pid-");
            crate::text::push_decimal(&mut name, pid as u128);
            let none: Vec<String> = Vec::new();
            assert(strings_view(none@) =~= Seq::<Seq<char>>::empty());
            (string_of(name.as_slice()), 0, 0, 0, 0, 0, none)
        },
    };
    let p = chars_of(process.as_str());
    let mode = if proxy > 0 && direct > 0 {
        TrafficMode::Mixed
    } else if direct > 0 {
        TrafficMode::Direct
    } else if proxy > 0 {
        TrafficMode::Proxy
    } else if system > 0 {
        TrafficMode::System
    } else if xray > 0 || xray_name_chars(p.as_slice()) {
        TrafficMode::Xray
    } else {
        TrafficMode::Local
    };
    let rate = match (counters.get(&pid), prev.get(&pid)) {
        (Some(c), Some(o)) => Some(
            RateSample {
                bytes_in: c.0.saturating_sub(o.bytes_in),
                bytes_out: c.1.saturating_sub(o.bytes_out),
                elapsed_nanos: now.saturating_sub(o.at),
            },
        ),
        _ => None,
    };
    let r = TrafficSample {
        process,
        pid,
        mode,
        proxy_connections: proxy,
        direct_connections: direct,
        local_connections: local,
        rate,
        direct_targets: targets,
    };
    r
}

/// One traffic snapshot: a sample for every PID that `nettop` counted or
/// `lsof` showed connected, each once, in no particular order; the state
/// keeps this reading of the counters for the next snapshot.
pub fn get_traffic_snapshot(
    state: &mut MonitorState,
    counters: &HashMap<u32, (u64, u64)>,
    conns: &HashMap<u32, ConnAgg>,
    now: u64,
) -> (r: Vec<TrafficSample>)
    ensures
        forall|j: int|
            0 <= j < r@.len() ==> #[trigger] r@[j]@ == sample_spec(
                r@[j].pid,
                counters@,
                agg_map_view(conns@),
                old(state).counters@,
                now,
            ),
        forall|i: int, j: int| 0 <= i < j < r@.len() ==> r@[i].pid != r@[j].pid,
        forall|p: u32|
            (exists|j: int| 0 <= j < r@.len() && r@[j].pid == p) <==> (counters@.contains_key(p)
                || conns@.contains_key(p)),
        final(state).counters@ == next_counters(old(state).counters@, counters@, now),
{
    let pids = union_pids(counters, conns);
    let ghost prev = state.counters@;
    let mut rows: Vec<TrafficSample> = Vec::new();
    let mut i: usize = 0;
    assert(state.counters@ =~= refresh(prev, counters@, now, pids@.take(0).to_set()));
    while i < pids.len()
        invariant
            i <= pids@.len(),
            pids@.no_duplicates(),
            pids@.to_set() == counters@.dom().union(conns@.dom()),
            rows@.len() == i,
            forall|j: int| 0 <= j < i ==> #[trigger] rows@[j].pid == pids@[j],
            forall|j: int|
                0 <= j < i ==> #[trigger] rows@[j]@ == sample_spec(
                    pids@[j],
                    counters@,
                    agg_map_view(conns@),
                    prev,
                    now,
                ),
            state.counters@ == refresh(prev, counters@, now, pids@.take(i as int).to_set()),
        decreases pids@.len() - i,
    {
        let pid = pids[i];
        let ghost done = pids@.take(i as int).to_set();
        assert(!done.contains(pid)) by {
            if done.contains(pid) {
                let w = choose|w: int| 0 <= w < i && pids@.take(i as int)[w] == pid;
                assert(pids@[w] == pids@[i as int]);
            }
        }
        assert(state.counters@.contains_key(pid) == prev.contains_key(pid));
        assert(prev.contains_key(pid) ==> state.counters@[pid] == prev[pid]);
        let row = sample_of(pid, counters, conns, &state.counters, now);
        assert(row@ == sample_spec(pid, counters@, agg_map_view(conns@), prev, now)) by {
            assert(state.counters@.contains_key(pid) ==> state.counters@[pid] == prev[pid]);
        }
        rows.push(row);
        match counters.get(&pid) {
            Some(c) => {
                state.counters.insert(pid, CounterSample { bytes_in: c.0, bytes_out: c.1, at: now });
            },
            None => {},
        }
        assert(pids@.take(i + 1) =~= pids@.take(i as int).push(pid));
        assert(pids@.take(i + 1).to_set() =~= done.insert(pid)) by {
            let t1 = pids@.take(i as int);
            let t2 = pids@.take(i + 1);
            assert forall|x: u32| t2.contains(x) <==> (t1.contains(x) || x == pid) by {
                if t2.contains(x) && x != pid {
                    let w = choose|w: int| 0 <= w < t2.len() && t2[w] == x;
                    assert(t1[w] == x);
                }
                if t1.contains(x) {
                    let w = choose|w: int| 0 <= w < t1.len() && t1[w] == x;
                    assert(t2[w] == x);
                }
                if x == pid {
                    assert(t2[i as int] == x);
                }
            }
        }
        assert(state.counters@ =~= refresh(prev, counters@, now, pids@.take(i + 1).to_set()));
        i = i + 1;
    }
    assert(pids@.take(i as int) =~= pids@);
    assert(state.counters@ =~= next_counters(prev, counters@, now));
    assert forall|p: u32|
        (exists|j: int| 0 <= j < rows@.len() && rows@[j].pid == p) <==> (counters@.contains_key(p)
            || conns@.contains_key(p)) by {
        if counters@.contains_key(p) || conns@.contains_key(p) {
            assert(pids@.to_set().contains(p));
            let w = choose|w: int| 0 <= w < pids@.len() && pids@[w] == p;
            assert(rows@[w].pid == p);
        }
        if exists|j: int| 0 <= j < rows@.len() && rows@[j].pid == p {
            let w = choose|w: int| 0 <= w < rows@.len() && rows@[w].pid == p;
            assert(pids@.contains(p));
            assert(pids@.to_set().contains(p));
        }
    }
    rows
}

} // verus!
