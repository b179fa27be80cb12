//! The local HTTP gateway in front of Xray: reading a request head, finding
//! the target it asks for, and the log of recent connections.
use vstd::prelude::*;
use crate::routing::{lossy_string, lossy_text};
use crate::text::{
    chars_of, find_char, line_bounds, lines, parse_u16, parse_unsigned, pieces, push_all,
    rfind_in, rfind_seq, starts_with, string_of, trim, trim_chars, trim_set, trim_set_chars,
    upper_seq, word_bounds, words,
};

verus! {

broadcast use vstd::string::group_string_axioms;

/// Where the gateway listens.
pub const GATEWAY_ADDR: &'static str = "127.0.0.1:1097";

/// The Xray HTTP inbound that the gateway forwards to.
pub const XRAY_HTTP_ADDR: &'static str = "127.0.0.1:1087";

/// The longest request head read.
pub const MAX_HEADER_BYTES: usize = 65536;

/// The number of connections that the log keeps.
pub const MAX_RECORDS: usize = 1000;

pub open spec fn crlf2() -> Seq<u8> {
    seq![13u8, 10u8, 13u8, 10u8]
}

/// Whether the head read so far ends with an empty line (`\r\n\r\n`).
pub open spec fn head_complete(buf: Seq<u8>) -> bool {
    buf.len() >= 4 && buf.skip(buf.len() - 4) == crlf2()
}

/// Adds one byte read from the client to the request head; answers whether
/// to read on: not where the head is complete or has reached
/// `MAX_HEADER_BYTES`.
pub fn header_step(buf: &mut Vec<u8>, byte: u8) -> (more: bool)
    ensures
        final(buf)@ == old(buf)@.push(byte),
        more == (!head_complete(final(buf)@) && final(buf)@.len() < MAX_HEADER_BYTES),
{
    buf.push(byte);
    let n = buf.len();
    let done = n >= 4 && buf[n - 4] == 13 && buf[n - 3] == 10 && buf[n - 2] == 13 && buf[n - 1] == 10;
    assert(done == head_complete(buf@)) by {
        if n >= 4 {
            let t = buf@.skip(n - 4);
            if done {
                assert(t =~= crlf2());
            }
            if head_complete(buf@) {
                assert(t[0] == buf@[n - 4] && t[3] == buf@[n - 1]);
                assert(t[1] == buf@[n - 3] && t[2] == buf@[n - 2]);
            }
        }
    }
    !done && n < MAX_HEADER_BYTES
}

/// The port that `s` reads as, or `default` where it does not.
pub open spec fn port_or(s: Seq<char>, default: u16) -> u16 {
    match parse_unsigned(s, u16::MAX as nat) {
        Some(v) => v as u16,
        None => default,
    }
}

/// `host:port` split at the last `:`; without one, the whole is the host
/// and the port is `default`.
pub open spec fn host_port(authority: Seq<char>, default: u16) -> (Seq<char>, u16) {
    match rfind_seq(authority, seq![':']) {
        Some(i) => (authority.take(i), port_or(authority.skip(i + 1), default)),
        None => (authority, default),
    }
}

pub open spec fn http_prefix() -> Seq<char> {
    seq!['h', 't', 't', 'p', ':', '/', '/']
}

pub open spec fn host_field() -> Seq<char> {
    seq!['H', 'o', 's', 't', ':']
}

pub open spec fn host_field_lower() -> Seq<char> {
    seq!['h', 'o', 's', 't', ':']
}

/// The value of the first `Host:` (or `host:`) line of `ls`.
pub open spec fn host_header(ls: Seq<Seq<char>>) -> Option<Seq<char>>
    decreases ls.len(),
{
    if ls.len() == 0 {
        None
    } else if starts_with(ls[0], host_field()) || starts_with(ls[0], host_field_lower()) {
        Some(ls[0].skip(5))
    } else {
        host_header(ls.drop_first())
    }
}

/// The target that the `Host:` header among `ls` names (port 80 by default).
pub open spec fn via_host_header(ls: Seq<Seq<char>>) -> Option<(Seq<char>, u16, Seq<char>)> {
    match host_header(ls) {
        Some(v) => {
            let (h, p) = host_port(trim(v), 80);
            Some((h, p, "HTTP"@))
        },
        None => None,
    }
}

/// Target host, port and protocol of a request head: a `CONNECT` names
/// `host:port` (port 443 by default, brackets of an IPv6 host dropped); an
/// absolute `http://` target names its authority (port 80 by default);
/// otherwise the `Host:` header does.
pub open spec fn parse_target_text(text: Seq<char>) -> Option<(Seq<char>, u16, Seq<char>)> {
    let ls = lines(text);
    if ls.len() == 0 {
        None
    } else {
        let w = words(trim(ls[0]));
        if w.len() == 0 {
            None
        } else {
            let target = if w.len() > 1 {
                w[1]
            } else {
                seq![]
            };
            if upper_seq(w[0]) == "CONNECT"@ {
                let (h, p) = host_port(target, 443);
                Some((trim_set(h, seq!['[', ']']), p, "HTTP CONNECT"@))
            } else if starts_with(target, http_prefix()) {
                let rest = target.skip(7);
                let (h, p) = host_port(rest.take(find_char(rest, '/')), 80);
                Some((h, p, "HTTP"@))
            } else {
                via_host_header(ls.skip(1))
            }
        }
    }
}

fn host_port_exec(authority: &[char], default: u16) -> (r: (Vec<char>, u16))
    ensures
        r.0@ == host_port(authority@, default).0,
        r.1 == host_port(authority@, default).1,
{
    let colon = [':'];
    assert(colon@ =~= seq![':']);
    match rfind_in(authority, colon.as_slice()) {
        Some(i) => {
            assert(crate::text::occurs_at(authority@, colon@, i as int));
            let n = authority.len();
            assert(i + 1 <= n);
            let host = vstd::slice::slice_subrange(authority, 0, i);
            let port = match parse_u16(vstd::slice::slice_subrange(authority, i + 1, n)) {
                Some(v) => v,
                None => default,
            };
            assert(authority@.subrange(i + 1, authority@.len() as int) =~= authority@.skip(i + 1));
            (vstd::slice::slice_to_vec(host), port)
        },
        None => (vstd::slice::slice_to_vec(authority), default),
    }
}

fn eq_lit(a: &[char], lit: &str) -> (r: bool)
    ensures
        r == (a@ == lit@),
{
    let b = chars_of(lit);
    crate::text::chars_eq(a, b.as_slice())
}

proof fn lemma_host_header_skip(ls: Seq<Seq<char>>, k: int)
    requires
        0 <= k <= ls.len(),
        forall|j: int|
            0 <= j < k ==> !starts_with(#[trigger] ls[j], host_field()) && !starts_with(
                ls[j],
                host_field_lower(),
            ),
    ensures
        host_header(ls) == host_header(ls.skip(k)),
    decreases k,
{
    if k == 0 {
        assert(ls.skip(0) =~= ls);
    } else {
        let t = ls.drop_first();
        assert forall|j: int| 0 <= j < k - 1 implies !starts_with(#[trigger] t[j], host_field())
            && !starts_with(t[j], host_field_lower()) by {
            assert(t[j] == ls[j + 1]);
        }
        lemma_host_header_skip(t, k - 1);
        assert(t.skip(k - 1) =~= ls.skip(k));
    }
}

fn parse_target_chars(s: &[char]) -> (r: Option<(Vec<char>, u16, Vec<char>)>)
    ensures
        match r {
            Some((h, p, proto)) => parse_target_text(s@) == Some((h@, p, proto@)),
            None => parse_target_text(s@) is None,
        },
{
    let lb = line_bounds(s);
    let ghost ls = lines(s@);
    if lb.len() == 0 {
        return None;
    }
    let (a0, b0) = lb[0];
    assert(s@.subrange(a0 as int, b0 as int) == ls[0]);
    let first = trim_chars(vstd::slice::slice_subrange(s, a0, b0));
    let wb = word_bounds(first);
    let ghost w = words(first@);
    if wb.len() == 0 {
        return None;
    }
    let (m0, m1) = wb[0];
    assert(first@.subrange(m0 as int, m1 as int) == w[0]);
    let method = crate::text::to_upper(vstd::slice::slice_subrange(first, m0, m1));
    let target: &[char] = if wb.len() > 1 {
        let (t0, t1) = wb[1];
        assert(first@.subrange(t0 as int, t1 as int) == w[1]);
        vstd::slice::slice_subrange(first, t0, t1)
    } else {
        let e: &[char] = &[];
        assert(e@ =~= Seq::<char>::empty());
        e
    };
    if eq_lit(method.as_slice(), "CONNECT") {
        let (h, p) = host_port_exec(target, 443);
        let brackets = ['[', ']'];
        assert(brackets@ =~= seq!['[', ']']);
        let host = trim_set_chars(h.as_slice(), brackets.as_slice(), true, true);
        return Some((vstd::slice::slice_to_vec(host), p, chars_of("HTTP CONNECT")));
    }
    let http = ['h', 't', 't', 'p', ':', '/', '/'];
    assert(http@ =~= http_prefix());
    if crate::text::has_prefix(target, http.as_slice()) {
        let rest = vstd::slice::slice_subrange(target, 7, target.len());
        assert(rest@ =~= target@.skip(7));
        let mut j: usize = 0;
        while j < rest.len() && rest[j] != '/'
            invariant
                j <= rest@.len(),
                forall|i: int| 0 <= i < j ==> #[trigger] rest@[i] != '/',
            decreases rest@.len() - j,
        {
            j = j + 1;
        }
        proof {
            crate::text::lemma_find_char_at(rest@, '/', j as int);
        }
        let authority = vstd::slice::slice_subrange(rest, 0, j);
        let (h, p) = host_port_exec(authority, 80);
        return Some((h, p, chars_of("HTTP")));
    }
    let upper_host = ['H', 'o', 's', 't', ':'];
    let lower_host = ['h', 'o', 's', 't', ':'];
    assert(upper_host@ =~= host_field());
    assert(lower_host@ =~= host_field_lower());
    let mut k: usize = 1;
    assert(parse_target_text(s@) == via_host_header(ls.skip(1)));
    while k < lb.len()
        invariant
            1 <= k <= lb@.len() == ls.len(),
            ls == lines(s@),
            upper_host@ == host_field(),
            lower_host@ == host_field_lower(),
            crate::text::ranges_within(lb@, s@.len()),
            pieces(s@, lb@) == ls,
            parse_target_text(s@) == via_host_header(ls.skip(k as int)),
        decreases lb@.len() - k,
    {
        let (a, b) = lb[k];
        assert(s@.subrange(a as int, b as int) == ls[k as int]);
        let line = vstd::slice::slice_subrange(s, a, b);
        let ghost rest = ls.skip(k as int);
        assert(rest[0] == ls[k as int]);
        assert(rest.drop_first() =~= ls.skip(k + 1));
        if crate::text::has_prefix(line, upper_host.as_slice()) || crate::text::has_prefix(
            line,
            lower_host.as_slice(),
        ) {
            let v = vstd::slice::slice_subrange(line, 5, line.len());
            assert(v@ =~= line@.skip(5));
            let (h, p) = host_port_exec(trim_chars(v), 80);
            return Some((h, p, chars_of("HTTP")));
        }
        k = k + 1;
    }
    assert(ls.skip(k as int) =~= Seq::<Seq<char>>::empty());
    None
}

/// The target of a request head as the gateway logs it: host, port and
/// protocol (see `parse_target_text`); the head is read as UTF-8, malformed
/// sequences replaced.
pub fn parse_target(header: &[u8]) -> (r: Option<(String, u16, String)>)
    ensures
        match r {
            Some((h, p, proto)) => parse_target_text(lossy_text(header@)) == Some((h@, p, proto@)),
            None => parse_target_text(lossy_text(header@)) is None,
        },
{
    let text = lossy_string(header);
    let c = chars_of(text.as_str());
    match parse_target_chars(c.as_slice()) {
        Some((h, p, proto)) => Some((string_of(h.as_slice()), p, string_of(proto.as_slice()))),
        None => None,
    }
}

/// One connection that passed the gateway.
#[derive(Debug)]
pub struct GatewayConnection {
    pub id: u64,
    pub timestamp_ms: u128,
    pub process: String,
    pub pid: Option<u32>,
    pub client_addr: String,
    pub domain: String,
    pub port: u16,
    pub protocol: String,
    pub upstream: String,
}

pub struct ConnectionRecord {
    pub id: u64,
    pub timestamp_ms: u128,
    pub process: Seq<char>,
    pub pid: Option<u32>,
    pub client_addr: Seq<char>,
    pub domain: Seq<char>,
    pub port: u16,
    pub protocol: Seq<char>,
    pub upstream: Seq<char>,
}

impl View for GatewayConnection {
    type V = ConnectionRecord;

    open spec fn view(&self) -> ConnectionRecord {
        ConnectionRecord {
            id: self.id,
            timestamp_ms: self.timestamp_ms,
            process: self.process@,
            pid: self.pid,
            client_addr: self.client_addr@,
            domain: self.domain@,
            port: self.port,
            protocol: self.protocol@,
            upstream: self.upstream@,
        }
    }
}

impl GatewayConnection {
    /// A copy of the record.
    pub fn duplicate(&self) -> (r: GatewayConnection)
        ensures
            r@ == self@,
    {
        GatewayConnection {
            id: self.id,
            timestamp_ms: self.timestamp_ms,
            process: self.process.clone(),
            pid: self.pid,
            client_addr: self.client_addr.clone(),
            domain: self.domain.clone(),
            port: self.port,
            protocol: self.protocol.clone(),
            upstream: self.upstream.clone(),
        }
    }
}

/// What the UI shows of the gateway.
pub struct GatewayStatus {
    pub running: bool,
    pub listen_addr: String,
    pub upstream_addr: String,
    pub records: usize,
}

/// The gateway: whether it runs, the recent connections (at most
/// `MAX_RECORDS`, oldest first) and the id of the next one.
pub struct GatewayState {
    pub running: bool,
    pub records: Vec<GatewayConnection>,
    pub next_id: u64,
}

pub open spec fn records_view(v: Seq<GatewayConnection>) -> Seq<ConnectionRecord> {
    v.map_values(|c: GatewayConnection| c@)
}

/// The log after `c` joined it: the newest `MAX_RECORDS` records.
pub open spec fn log_after(log: Seq<ConnectionRecord>, c: ConnectionRecord) -> Seq<ConnectionRecord> {
    let all = log.push(c);
    if all.len() > MAX_RECORDS {
        all.skip(all.len() - MAX_RECORDS)
    } else {
        all
    }
}

/// The id after `n`: ids count up by one and wrap around after `u64::MAX`.
pub open spec fn next_after(n: u64) -> u64 {
    if n == u64::MAX {
        0
    } else {
        (n + 1) as u64
    }
}

/// A well-kept log: at most `MAX_RECORDS` records, their ids rising from
/// the oldest to the newest, and all below the id that comes next.
pub open spec fn log_ids_ordered(log: Seq<ConnectionRecord>, next: u64) -> bool {
    &&& log.len() <= MAX_RECORDS
    &&& forall|i: int, j: int| 0 <= i < j < log.len() ==> #[trigger] log[i].id < #[trigger] log[j].id
    &&& forall|i: int| 0 <= i < log.len() ==> #[trigger] log[i].id < next
}

impl GatewayState {
    /// The gateway's state is well kept (see `log_ids_ordered`): every method
    /// keeps it, but for an id count that wraps around after `u64::MAX`.
    pub open spec fn wf(&self) -> bool {
        log_ids_ordered(records_view(self.records@), self.next_id)
    }

    /// A stopped gateway with an empty log; ids start at 1.
    pub fn new() -> (r: GatewayState)
        ensures
            !r.running,
            r.records@.len() == 0,
            r.next_id == 1,
            r.wf(),
    {
        GatewayState { running: false, records: Vec::new(), next_id: 1 }
    }

    /// Hands out the next connection id; ids wrap around after `u64::MAX`.
    pub fn next_id(&mut self) -> (id: u64)
        ensures
            id == old(self).next_id,
            final(self).next_id == next_after(old(self).next_id),
            final(self).running == old(self).running,
            final(self).records@ == old(self).records@,
            old(self).wf() && old(self).next_id < u64::MAX ==> final(self).wf(),
    {
        let id = self.next_id;
        self.next_id = if id == u64::MAX {
            0
        } else {
            id + 1
        };
        id
    }

    /// Marks the gateway running; answers whether it was stopped, that is,
    /// whether a listener must be started.
    pub fn start(&mut self) -> (must_spawn: bool)
        ensures
            must_spawn == !old(self).running,
            final(self).running,
            final(self).records@ == old(self).records@,
            final(self).next_id == old(self).next_id,
            old(self).wf() ==> final(self).wf(),
    {
        let was = self.running;
        self.running = true;
        !was
    }

    /// Marks the gateway stopped; the listener ends at its next check.
    pub fn stop(&mut self)
        ensures
            !final(self).running,
            final(self).records@ == old(self).records@,
            final(self).next_id == old(self).next_id,
            old(self).wf() ==> final(self).wf(),
    {
        self.running = false;
    }

    pub fn status(&self) -> (r: GatewayStatus)
        ensures
            r.running == self.running,
            r.listen_addr@ == GATEWAY_ADDR@,
            r.upstream_addr@ == XRAY_HTTP_ADDR@,
            r.records == self.records@.len(),
    {
        GatewayStatus {
            running: self.running,
            listen_addr: GATEWAY_ADDR.to_string(),
            upstream_addr: XRAY_HTTP_ADDR.to_string(),
            records: self.records.len(),
        }
    }

    /// A copy of the log, oldest first.
    pub fn connections(&self) -> (r: Vec<GatewayConnection>)
        ensures
            records_view(r@) == records_view(self.records@),
    {
        let mut out: Vec<GatewayConnection> = Vec::new();
        let mut i: usize = 0;
        while i < self.records.len()
            invariant
                i <= self.records@.len(),
                records_view(out@) == records_view(self.records@.take(i as int)),
            decreases self.records@.len() - i,
        {
            let c = self.records[i].duplicate();
            let ghost before = out@;
            out.push(c);
            assert(records_view(out@) =~= records_view(before).push(self.records@[i as int]@));
            assert(records_view(self.records@.take(i + 1)) =~= records_view(
                self.records@.take(i as int),
            ).push(self.records@[i as int]@));
            i = i + 1;
        }
        assert(self.records@.take(i as int) =~= self.records@);
        out
    }

    /// Logs a connection of the client `client_addr` (process `process`,
    /// `pid`) to `domain:port` over `protocol`, forwarded to Xray, under the
    /// next id; the log keeps the newest `MAX_RECORDS`.
    pub fn record_connection(
        &mut self,
        timestamp_ms: u128,
        process: String,
        pid: Option<u32>,
        client_addr: String,
        domain: String,
        port: u16,
        protocol: String,
    )
        ensures
            records_view(final(self).records@) == log_after(
                records_view(old(self).records@),
                ConnectionRecord {
                    id: old(self).next_id,
                    timestamp_ms,
                    process: process@,
                    pid,
                    client_addr: client_addr@,
                    domain: domain@,
                    port,
                    protocol: protocol@,
                    upstream: XRAY_HTTP_ADDR@,
                },
            ),
            final(self).running == old(self).running,
            final(self).next_id == next_after(old(self).next_id),
            old(self).wf() ==> forall|i: int|
                0 <= i < old(self).records@.len() ==> #[trigger] old(self).records@[i].id
                    != old(self).next_id,
            old(self).wf() && old(self).next_id < u64::MAX ==> final(self).wf(),
    {
        let id = self.next_id();
        let c = GatewayConnection {
            id,
            timestamp_ms,
            process,
            pid,
            client_addr,
            domain,
            port,
            protocol,
            upstream: XRAY_HTTP_ADDR.to_string(),
        };
        let ghost before = records_view(self.records@);
        self.records.push(c);
        assert(records_view(self.records@) =~= before.push(c@));
        if self.records.len() > MAX_RECORDS {
            let excess = self.records.len() - MAX_RECORDS;
            let ghost all = self.records@;
            let kept = self.records.split_off(excess);
            self.records = kept;
            assert(records_view(self.records@) =~= records_view(all).skip(excess as int));
        }
        proof {
            let o = records_view(old(self).records@);
            let n = records_view(self.records@);
            if old(self).wf() && old(self).next_id < u64::MAX {
                let all = o.push(c@);
                assert forall|i: int, j: int| 0 <= i < j < all.len() implies #[trigger] all[i].id
                    < #[trigger] all[j].id by {
                    if j == all.len() - 1 {
                        assert(all[i] == o[i]);
                    } else {
                        assert(all[i] == o[i] && all[j] == o[j]);
                    }
                }
                assert forall|i: int| 0 <= i < all.len() implies #[trigger] all[i].id
                    < self.next_id by {
                    if i < all.len() - 1 {
                        assert(all[i] == o[i]);
                    }
                }
                assert(n == log_after(o, c@));
                if all.len() > MAX_RECORDS {
                    let d = all.len() - MAX_RECORDS;
                    assert forall|i: int, j: int| 0 <= i < j < n.len() implies #[trigger] n[i].id
                        < #[trigger] n[j].id by {
                        assert(n[i] == all[i + d] && n[j] == all[j + d]);
                    }
                    assert forall|i: int| 0 <= i < n.len() implies #[trigger] n[i].id
                        < self.next_id by {
                        assert(n[i] == all[i + d]);
                    }
                } else {
                    assert(n == all);
                }
            }
            if old(self).wf() {
                assert forall|i: int| 0 <= i < old(self).records@.len() implies #[trigger] old(
                    self,
                ).records@[i].id != old(self).next_id by {
                    assert(o[i].id == old(self).records@[i].id);
                }
            }
        }
    }
}

impl Default for GatewayState {
    fn default() -> (r: GatewayState)
        ensures
            !r.running,
            r.records@.len() == 0,
            r.next_id == 1,
            r.wf(),
    {
        GatewayState::new()
    }
}

/// `:<port>`, as the gateway looks for a client's port in `lsof` output.
pub open spec fn port_tag(port: u16) -> Seq<char> {
    seq![':'] + crate::text::decimal(port as nat)
}

/// The process and PID that an `lsof` line shows where the line has the
/// client port as `:<port>->` or `:<port> ` and at least two fields.
pub open spec fn client_line(line: Seq<char>, port: u16) -> Option<(Seq<char>, Option<u32>)> {
    if !crate::text::contains_seq(line, port_tag(port) + "->"@) && !crate::text::contains_seq(
        line,
        port_tag(port) + seq![' '],
    ) {
        None
    } else {
        let f = words(line);
        if f.len() < 2 {
            None
        } else {
            Some(
                (
                    f[0],
                    match parse_unsigned(f[1], u32::MAX as nat) {
                        Some(v) => Some(v as u32),
                        None => None,
                    },
                ),
            )
        }
    }
}

/// The first line of `ls` that names the client, or `Unknown`.
pub open spec fn first_client(ls: Seq<Seq<char>>, port: u16) -> (Seq<char>, Option<u32>)
    decreases ls.len(),
{
    if ls.len() == 0 {
        ("Unknown"@, None)
    } else {
        match client_line(ls[0], port) {
            Some(r) => r,
            None => first_client(ls.drop_first(), port),
        }
    }
}

/// The client of a gateway connection from `lsof -nP -iTCP:<port>
/// -sTCP:ESTABLISHED` output, header left out.
pub open spec fn client_process_spec(raw: Seq<char>, port: u16) -> (Seq<char>, Option<u32>) {
    let ls = lines(raw);
    if ls.len() == 0 {
        ("Unknown"@, None)
    } else {
        first_client(ls.skip(1), port)
    }
}

fn client_line_exec(line: &[char], a: &[char], b: &[char], port: u16) -> (r: Option<
    (String, Option<u32>),
>)
    requires
        a@ == port_tag(port) + "->"@,
        b@ == port_tag(port) + seq![' '],
    ensures
        match r {
            Some((p, pid)) => client_line(line@, port) == Some((p@, pid)),
            None => client_line(line@, port) is None,
        },
{
    if !crate::text::contains_chars(line, a) && !crate::text::contains_chars(line, b) {
        return None;
    }
    let wb = word_bounds(line);
    let ghost f = words(line@);
    if wb.len() < 2 {
        return None;
    }
    let (p0, p1) = wb[0];
    let (q0, q1) = wb[1];
    assert(line@.subrange(p0 as int, p1 as int) == f[0]);
    assert(line@.subrange(q0 as int, q1 as int) == f[1]);
    let pid = crate::text::parse_u32(vstd::slice::slice_subrange(line, q0, q1));
    Some((string_of(vstd::slice::slice_subrange(line, p0, p1)), pid))
}

/// Finds the process of the client that connected from `port`.
pub fn detect_client_process(raw: &str, port: u16) -> (r: (String, Option<u32>))
    ensures
        (r.0@, r.1) == client_process_spec(raw@, port),
{
    let mut a: Vec<char> = vec![':'];
    crate::text::push_decimal(&mut a, port as u128);
    let mut b: Vec<char> = a.clone();
    assert(b@ == a@);
    a.push('-');
    a.push('>');
    b.push(' ');
    assert(a@ =~= port_tag(port) + "->"@) by {
        reveal_strlit("->");
    }
    assert(b@ =~= port_tag(port) + seq![' ']);
    let c = chars_of(raw);
    let s = c.as_slice();
    let lb = line_bounds(s);
    let ghost ls = lines(s@);
    if lb.len() == 0 {
        return ("Unknown".to_string(), None);
    }
    let mut k: usize = 1;
    assert(ls.skip(1).skip(0) =~= ls.skip(1));
    while k < lb.len()
        invariant
            1 <= k <= lb@.len() == ls.len(),
            ls == lines(s@),
            s@ == raw@,
            a@ == port_tag(port) + "->"@,
            b@ == port_tag(port) + seq![' '],
            crate::text::ranges_within(lb@, s@.len()),
            pieces(s@, lb@) == ls,
            client_process_spec(raw@, port) == first_client(ls.skip(k as int), port),
        decreases lb@.len() - k,
    {
        let (x, y) = lb[k];
        assert(s@.subrange(x as int, y as int) == ls[k as int]);
        let ghost rest = ls.skip(k as int);
        assert(rest[0] == ls[k as int]);
        assert(rest.drop_first() =~= ls.skip(k + 1));
        match client_line_exec(vstd::slice::slice_subrange(s, x, y), a.as_slice(), b.as_slice(), port) {
            Some(found) => {
                return found;
            },
            None => {},
        }
        k = k + 1;
    }
    assert(ls.skip(k as int) =~= Seq::<Seq<char>>::empty());
    ("Unknown".to_string(), None)
}

} // verus!
