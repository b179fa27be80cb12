//! Properties that hold across the library's functions: what one step
//! writes, the next one reads back.
use vstd::prelude::*;
use crate::routing::{join_lines, nonempty_trimmed, split_lines_spec, decode_hex_spec, hex_bytes, hex_pair, hex_value, is_hex_digit, sql_quote_spec, lossy_text};

verus! {

use crate::text::{trim_start, trim_end, lemma_trim_start_suffix, all_digits, decimal, digit_char, digit_value, digits_value, is_digit, parse_i64, parse_unsigned, signed_decimal, find_char, is_ws, lemma_find_char_at, lines, strip_cr, trim};

/// The text of a single-quoted SQL literal's body: `''` stands for `'`; a
/// lone `'` would end the literal, so a body with one reads as nothing.
pub open spec fn sql_unquote(q: Seq<char>) -> Option<Seq<char>>
    decreases q.len(),
{
    if q.len() == 0 {
        Some(seq![])
    } else if q[0] == '\'' {
        if q.len() >= 2 && q[1] == '\'' {
            match sql_unquote(q.skip(2)) {
                Some(r) => Some(seq!['\''] + r),
                None => None,
            }
        } else {
            None
        }
    } else {
        match sql_unquote(q.skip(1)) {
            Some(r) => Some(seq![q[0]] + r),
            None => None,
        }
    }
}

proof fn lemma_unquote_after_quote(s: Seq<char>, t: Seq<char>)
    ensures
        sql_unquote(sql_quote_spec(s) + t) == (match sql_unquote(t) {
            Some(r) => Some(s + r),
            None => None,
        }),
    decreases s.len(),
{
    if s.len() == 0 {
        assert(sql_quote_spec(s) + t =~= t);
        match sql_unquote(t) {
            Some(r) => {
                assert(s + r =~= r);
            },
            None => {},
        }
    } else {
        let p = s.drop_last();
        let c = s.last();
        let piece: Seq<char> = if c == '\'' {
            seq!['\'', '\'']
        } else {
            seq![c]
        };
        let t2 = piece + t;
        lemma_unquote_after_quote(p, t2);
        assert(sql_quote_spec(s) + t =~= sql_quote_spec(p) + t2);
        if c == '\'' {
            assert(t2.skip(2) =~= t);
        } else {
            assert(t2.skip(1) =~= t);
        }
        match sql_unquote(t) {
            Some(r) => {
                assert(p + (seq![c] + r) =~= s + r);
            },
            None => {},
        }
    }
}

/// A value quoted by `sql_quote` and put between single quotes reads back
/// as exactly that value: quoting never lets the literal end early.
pub proof fn law_sql_quote_roundtrip(s: Seq<char>)
    ensures
        sql_unquote(sql_quote_spec(s)) == Some(s),
{
    lemma_unquote_after_quote(s, seq![]);
    assert(sql_quote_spec(s) + seq![] =~= sql_quote_spec(s));
    assert(s + seq![] =~= s);
}

/// A hex digit as `sqlite3`'s `hex(..)` writes it (`upper`), or in lower
/// case.
pub open spec fn hex_digit_byte(d: nat, upper: bool) -> u8 {
    if d < 10 {
        (48 + d) as u8
    } else if upper {
        (55 + d) as u8
    } else {
        (87 + d) as u8
    }
}

/// The bytes of the hex form of a value whose bytes are `bs`; `upper` as
/// `sqlite3`'s `hex(..)` writes it.
pub open spec fn hex_encode(bs: Seq<u8>, upper: bool) -> Seq<u8>
    decreases bs.len(),
{
    if bs.len() == 0 {
        seq![]
    } else {
        seq![hex_digit_byte((bs[0] / 16) as nat, upper), hex_digit_byte((bs[0] % 16) as nat, upper)]
            + hex_encode(bs.drop_first(), upper)
    }
}

/// The hex text of a value whose bytes are `bs`.
pub open spec fn hex_text(bs: Seq<u8>, upper: bool) -> Seq<char> {
    hex_encode(bs, upper).map_values(|b: u8| b as char)
}

proof fn lemma_hex_digit(d: nat, upper: bool)
    requires
        d < 16,
    ensures
        is_hex_digit(hex_digit_byte(d, upper)),
        hex_value(hex_digit_byte(d, upper)) == d,
        hex_digit_byte(d, upper) < 128,
{
}

proof fn lemma_hex_encode(bs: Seq<u8>, upper: bool)
    ensures
        hex_bytes(hex_encode(bs, upper)) == bs,
        hex_encode(bs, upper).len() == 2 * bs.len(),
        forall|i: int| 0 <= i < hex_encode(bs, upper).len() ==> #[trigger] hex_encode(bs, upper)[i] < 128,
        forall|i: int|
            0 <= i < hex_encode(bs, upper).len() ==> is_hex_digit(#[trigger] hex_encode(bs, upper)[i]),
    decreases bs.len(),
{
    if bs.len() > 0 {
        let rest = bs.drop_first();
        lemma_hex_encode(rest, upper);
        let hi = (bs[0] / 16) as nat;
        let lo = (bs[0] % 16) as nat;
        lemma_hex_digit(hi, upper);
        lemma_hex_digit(lo, upper);
        let e = hex_encode(bs, upper);
        assert(e.skip(2) =~= hex_encode(rest, upper));
        assert(hex_pair(e[0], e[1]) == Some(bs[0]));
        assert(hex_bytes(e) =~= seq![bs[0]] + rest);
        assert(seq![bs[0]] + rest =~= bs);
        assert forall|i: int| 0 <= i < e.len() implies #[trigger] e[i] < 128 && is_hex_digit(e[i]) by {
            if i >= 2 {
                assert(e[i] == hex_encode(rest, upper)[i - 2]);
            }
        }
    } else {
        assert(hex_bytes(hex_encode(bs, upper)) =~= bs);
    }
}

/// Reading back the hex form of a value, in upper case as `sqlite3` prints
/// `hex(..)` or in lower case, gives the value's bytes, read as UTF-8: the
/// hex columns of the routing table decode to what is stored.
pub proof fn law_hex_roundtrip(bs: Seq<u8>, upper: bool)
    ensures
        hex_bytes(hex_encode(bs, upper)) == bs,
        decode_hex_spec(hex_text(bs, upper)) == lossy_text(bs),
{
    lemma_hex_encode(bs, upper);
    let t = hex_text(bs, upper);
    let e = hex_encode(bs, upper);
    assert(vstd::utf8::is_ascii_chars(t)) by {
        assert forall|i: int| 0 <= i < t.len() implies '\0' <= #[trigger] t[i] <= '\u{7f}' by {
            assert(e[i] < 128);
            assert(t[i] == e[i] as char);
        }
    }
    vstd::utf8::is_ascii_chars_encode_utf8(t);
    assert forall|i: int| 0 <= i < e.len() implies #[trigger] vstd::utf8::encode_utf8(t)[i] == e[i] by {
        assert(t[i] == e[i] as char);
        assert(e[i] < 128);
        assert((e[i] as char) as u8 == e[i]);
    }
    assert(vstd::utf8::encode_utf8(t) =~= e);
}

/// Any text stored in the routing table reads back unchanged from the hex
/// form of its UTF-8 bytes, in upper or lower case.
pub proof fn law_text_hex_roundtrip(s: Seq<char>, upper: bool)
    ensures
        decode_hex_spec(hex_text(vstd::utf8::encode_utf8(s), upper)) == s,
{
    law_hex_roundtrip(vstd::utf8::encode_utf8(s), upper);
    vstd::utf8::encode_utf8_valid_utf8(s);
    vstd::utf8::encode_utf8_decode_utf8(s);
}

/// A rule as V2rayU keeps it in a list: one non-empty, trimmed line.
pub open spec fn is_clean_rule(r: Seq<char>) -> bool {
    r.len() > 0 && trim(r) == r && !r.contains('\n')
}

proof fn lemma_join_front(v: Seq<Seq<char>>)
    requires
        v.len() >= 2,
    ensures
        join_lines(v) == v[0] + seq!['\n'] + join_lines(v.drop_first()),
    decreases v.len(),
{
    let p = v.drop_last();
    let r = v.drop_first();
    if v.len() == 2 {
        assert(p.len() == 1 && p[0] == v[0]);
        assert(join_lines(p) == v[0]);
        assert(r.len() == 1 && r[0] == v[1]);
        assert(join_lines(r) == v[1]);
        assert(join_lines(v) == join_lines(p) + seq!['\n'] + v.last());
    } else {
        lemma_join_front(p);
        assert(p.drop_first() =~= r.drop_last());
        assert(r.last() == v.last());
        assert(join_lines(r) == join_lines(r.drop_last()) + seq!['\n'] + r.last());
        assert(join_lines(v) == join_lines(p) + seq!['\n'] + v.last());
        assert(join_lines(v) =~= v[0] + seq!['\n'] + join_lines(r));
    }
}

proof fn lemma_clean_rule_line(a: Seq<char>)
    requires
        is_clean_rule(a),
    ensures
        strip_cr(a) == a,
        find_char(a, '\n') == a.len(),
{
    assert forall|i: int| 0 <= i < a.len() implies #[trigger] a[i] != '\n' by {
        if a[i] == '\n' {
            assert(a.contains('\n'));
        }
    }
    lemma_find_char_at(a, '\n', a.len() as int);
    crate::text::lemma_trimmed_last(a);
}

proof fn lemma_lines_of_join(v: Seq<Seq<char>>)
    requires
        forall|i: int| 0 <= i < v.len() ==> is_clean_rule(#[trigger] v[i]),
    ensures
        lines(join_lines(v)) == v,
    decreases v.len(),
{
    if v.len() == 0 {
        assert(lines(join_lines(v)) =~= v);
    } else if v.len() == 1 {
        let a = v[0];
        lemma_clean_rule_line(a);
        assert(lines(a) == seq![a]);
        assert(seq![a] =~= v);
    } else {
        let a = v[0];
        let rest = v.drop_first();
        lemma_clean_rule_line(a);
        lemma_join_front(v);
        assert forall|i: int| 0 <= i < rest.len() implies is_clean_rule(#[trigger] rest[i]) by {
            assert(rest[i] == v[i + 1]);
        }
        lemma_lines_of_join(rest);
        let j = join_lines(v);
        assert forall|i: int| 0 <= i < a.len() implies #[trigger] j[i] != '\n' by {
            assert(j[i] == a[i]);
            if a[i] == '\n' {
                assert(a.contains('\n'));
            }
        }
        assert(j[a.len() as int] == '\n');
        lemma_find_char_at(j, '\n', a.len() as int);
        assert(j.take(a.len() as int) =~= a);
        assert(j.skip(a.len() as int + 1) =~= join_lines(rest));
        assert(lines(j) =~= seq![a] + rest);
        assert(seq![a] + rest =~= v);
    }
}

proof fn lemma_nonempty_trimmed_clean(v: Seq<Seq<char>>)
    requires
        forall|i: int| 0 <= i < v.len() ==> is_clean_rule(#[trigger] v[i]),
    ensures
        nonempty_trimmed(v) == v,
    decreases v.len(),
{
    if v.len() == 0 {
        assert(nonempty_trimmed(v) =~= v);
    } else {
        let p = v.drop_last();
        assert forall|i: int| 0 <= i < p.len() implies is_clean_rule(#[trigger] p[i]) by {
            assert(p[i] == v[i]);
        }
        lemma_nonempty_trimmed_clean(p);
        assert(is_clean_rule(v[v.len() - 1]));
        assert(p.push(v.last()) =~= v);
    }
}

/// A Direct / Proxy / Block list of clean rules that a save writes (joined
/// with `\n`) reads back, split into lines, as the same list.
pub proof fn law_rule_list_roundtrip(v: Seq<Seq<char>>)
    requires
        forall|i: int| 0 <= i < v.len() ==> is_clean_rule(#[trigger] v[i]),
    ensures
        split_lines_spec(join_lines(v)) == v,
{
    lemma_lines_of_join(v);
    lemma_nonempty_trimmed_clean(v);
}

proof fn lemma_digit_char(d: nat)
    requires
        d < 10,
    ensures
        is_digit(digit_char(d)),
        digit_value(digit_char(d)) == d,
{
    assert(((d + 48) as u32) as char as u32 == d + 48);
}

pub proof fn lemma_decimal(n: nat)
    ensures
        decimal(n).len() > 0,
        all_digits(decimal(n)),
        digits_value(decimal(n)) == n,
    decreases n,
{
    if n < 10 {
        lemma_digit_char(n);
        let d = decimal(n);
        assert(d.drop_last() =~= Seq::<char>::empty());
        assert(digits_value(d.drop_last()) == 0);
        assert(d.last() == digit_char(n));
        assert(digits_value(d) == digits_value(d.drop_last()) * 10 + digit_value(d.last()));
    } else {
        lemma_decimal(n / 10);
        lemma_digit_char(n % 10);
        let d = decimal(n);
        assert(d.drop_last() =~= decimal(n / 10));
        assert(d.last() == digit_char(n % 10));
        assert((n / 10) * 10 + n % 10 == n);
        assert(digits_value(d) == digits_value(decimal(n / 10)) * 10 + digit_value(d.last()));
        assert forall|i: int| 0 <= i < d.len() implies is_digit(#[trigger] d[i]) by {
            if i < d.len() - 1 {
                assert(d[i] == decimal(n / 10)[i]);
            }
        }
    }
}

/// A number written in decimal reads back as that number: what the library
/// prints (ports, PIDs, `sort` values) parses back unchanged.
pub proof fn law_decimal_roundtrip(n: nat, max: nat)
    requires
        n <= max,
    ensures
        parse_unsigned(decimal(n), max) == Some(n),
{
    lemma_decimal(n);
    let d = decimal(n);
    assert(is_digit(d[0]));
    assert(crate::text::unsigned_body(d) == d);
}

/// A `sort` value written into SQL by `create_routing_profile` reads back,
/// through `list_routing_profiles`, as the same value.
pub proof fn law_sort_roundtrip(v: i64)
    ensures
        parse_i64(signed_decimal(v as int)) == Some(v as int),
{
    if v < 0 {
        let m = (-(v as int)) as nat;
        lemma_decimal(m);
        let s = signed_decimal(v as int);
        assert(s.drop_first() =~= decimal(m));
        assert(s[0] == '-');
    } else {
        law_decimal_roundtrip(v as nat, 0x7fff_ffff_ffff_ffff);
        lemma_decimal(v as nat);
        assert(is_digit(decimal(v as nat)[0]));
    }
}

proof fn lemma_lower_idempotent(s: Seq<char>)
    ensures
        crate::text::lower_seq(crate::text::lower_seq(s)) == crate::text::lower_seq(s),
{
    let l = crate::text::lower_seq(s);
    assert forall|i: int| 0 <= i < l.len() implies #[trigger] crate::text::lower(l[i]) == l[i] by {
        let c = s[i];
        if 'A' <= c && c <= 'Z' {
            assert(((c as u32) + 32) as char as u32 == (c as u32) + 32);
        }
    }
    assert(crate::text::lower_seq(l) =~= l);
}

/// A proxy mode that `set_proxy_mode` accepted is accepted again unchanged:
/// its answer is already the normal form.
pub proof fn law_proxy_mode_normal(mode: Seq<char>)
    requires
        crate::commands::set_proxy_mode_spec(mode) is Ok,
    ensures
        ({
            let n = crate::commands::set_proxy_mode_spec(mode)->Ok_0;
            crate::commands::set_proxy_mode_spec(n) == Ok::<Seq<char>, Seq<char>>(n)
        }),
{
    lemma_lower_idempotent(mode);
}

/// Where a process's counters did not change between two snapshots, the
/// second one shows no traffic for it, over the time between them.
pub proof fn law_unchanged_counters_no_traffic(
    pid: u32,
    counters: Map<u32, (u64, u64)>,
    conns: Map<u32, crate::traffic::AggView>,
    prev: Map<u32, crate::traffic::CounterSample>,
    t1: u64,
    t2: u64,
)
    requires
        counters.contains_key(pid),
    ensures
        crate::traffic::sample_spec(
            pid,
            counters,
            conns,
            crate::traffic::next_counters(prev, counters, t1),
            t2,
        ).rate == Some(
            crate::traffic::RateSample {
                bytes_in: 0,
                bytes_out: 0,
                elapsed_nanos: crate::traffic::sat_sub(t2, t1),
            },
        ),
{
}

/// The gateway's log never holds more than `MAX_RECORDS` connections, and
/// the one logged last is the newest.
pub proof fn law_log_bounded(
    log: Seq<crate::gateway::ConnectionRecord>,
    c: crate::gateway::ConnectionRecord,
)
    requires
        log.len() <= crate::gateway::MAX_RECORDS,
    ensures
        crate::gateway::log_after(log, c).len() <= crate::gateway::MAX_RECORDS,
        crate::gateway::log_after(log, c).last() == c,
        crate::gateway::log_after(log, c).len() == (if log.len() < crate::gateway::MAX_RECORDS {
            log.len() + 1
        } else {
            crate::gateway::MAX_RECORDS as nat
        }),
{
}

/// How many connections of `cs` belong to `pid`.
pub open spec fn connections_of(cs: Seq<crate::traffic::ConnectionView>, pid: u32) -> nat
    decreases cs.len(),
{
    if cs.len() == 0 {
        0
    } else {
        connections_of(cs.drop_last(), pid) + (if cs.last().pid == pid {
            1nat
        } else {
            0nat
        })
    }
}

pub open spec fn agg_total(a: crate::traffic::AggView) -> nat {
    a.proxy + a.direct + a.local + a.system + a.xray
}

/// Every connection counts exactly once for its process: a PID shows up in
/// the aggregate exactly where it has connections, and its class counts add
/// up to their number.
pub proof fn law_every_connection_counted_once(
    cs: Seq<crate::traffic::ConnectionView>,
    addrs: Seq<Option<crate::traffic::IpAddress>>,
    pid: u32,
)
    ensures
        crate::traffic::aggregate_spec(cs, addrs).contains_key(pid) <==> connections_of(cs, pid) > 0,
        crate::traffic::aggregate_spec(cs, addrs).contains_key(pid) ==> agg_total(
            crate::traffic::aggregate_spec(cs, addrs)[pid],
        ) == connections_of(cs, pid),
    decreases cs.len(),
{
    if cs.len() > 0 {
        law_every_connection_counted_once(cs.drop_last(), addrs, pid);
    }
}

/// A direct target as the aggregate writes it (`host:port`) reads back
/// through `endpoint` as the same host and port, where the host has no `:`
/// and does not start with `(`, `)` or `[`.
pub proof fn law_target_endpoint_roundtrip(host: Seq<char>, port: u16)
    requires
        !host.contains(':'),
        host.len() > 0 ==> host[0] != '(' && host[0] != ')' && host[0] != '[',
    ensures
        crate::traffic::endpoint_spec(host + seq![':'] + decimal(port as nat)) == (host, port),
{
    let d = decimal(port as nat);
    lemma_decimal(port as nat);
    law_decimal_roundtrip(port as nat, u16::MAX as nat);
    let s = host + seq![':'] + d;
    let parens = seq!['(', ')'];
    assert(s[0] != '(' && s[0] != ')') by {
        if host.len() == 0 {
            assert(s[0] == ':');
        } else {
            assert(s[0] == host[0]);
        }
    }
    assert(is_digit(s.last())) by {
        assert(s.last() == d[d.len() - 1]);
    }
    assert(!parens.contains(s[0]));
    assert(!parens.contains(s.last()));
    assert(crate::text::trim_start_set(s, parens) == s);
    assert(crate::text::trim_end_set(s, parens) == s);
    let i = host.len() as int;
    assert(crate::text::occurs_at(s, seq![':'], i)) by {
        assert(s.subrange(i, i + 1) =~= seq![':']);
    }
    assert forall|j: int| i < j implies !crate::text::occurs_at(s, seq![':'], j) by {
        if crate::text::occurs_at(s, seq![':'], j) {
            assert(s.subrange(j, j + 1)[0] == ':');
            assert(s[j] == d[j - i - 1]);
            assert(is_digit(d[j - i - 1]));
        }
    }
    crate::text::lemma_rfind_seq_is(s, seq![':'], i);
    assert(s[0] != '[');
    assert(s.take(i) =~= host);
    assert(s.skip(i + 1) =~= d);
}


/// The search finds the least path, in the order of `Path`, among the
/// probed candidates whose listing shows a `routing` table: the candidates
/// come sorted, and every other one with such a listing comes after the one
/// found. Where none is found, no probed listing shows the table.
pub proof fn law_found_is_least(c: Seq<Seq<char>>, o: Seq<Seq<char>>)
    requires
        crate::paths::strictly_ascending(c),
    ensures
        ({
            let n = if o.len() < c.len() {
                o.len() as int
            } else {
                c.len() as int
            };
            let (k, found) = crate::paths::discover_spec(c, o);
            &&& found is Some ==> 0 <= k < n && found == Some(c[k])
                && crate::routing::is_routing_db_spec(o[k])
            &&& found is Some ==> forall|j: int|
                0 <= j < n && j != k && crate::routing::is_routing_db_spec(#[trigger] o[j])
                    ==> crate::paths::path_order(c[k], c[j]) == -1
            &&& found is None ==> forall|j: int|
                0 <= j < n ==> !crate::routing::is_routing_db_spec(#[trigger] o[j])
        }),
{
    let n = if o.len() < c.len() {
        o.len() as int
    } else {
        c.len() as int
    };
    crate::paths::lemma_first_routing_listing(o, n);
    let k = crate::paths::first_routing_listing(o, n);
    assert forall|j: int|
        0 <= j < n && j != k && k < n && crate::routing::is_routing_db_spec(#[trigger] o[j])
            implies crate::paths::path_order(c[k], c[j]) == -1 by {
        assert(j > k);
    }
}


/// A well-kept gateway log, as every gateway method leaves it, holds at most
/// `MAX_RECORDS` connections, no two with the same id.
pub proof fn law_log_ids_distinct(s: crate::gateway::GatewayState)
    requires
        s.wf(),
    ensures
        s.records@.len() <= crate::gateway::MAX_RECORDS,
        forall|i: int, j: int|
            0 <= i < s.records@.len() && 0 <= j < s.records@.len() && i != j
                ==> #[trigger] s.records@[i].id != #[trigger] s.records@[j].id,
{
    let v = crate::gateway::records_view(s.records@);
    assert forall|i: int, j: int|
        0 <= i < s.records@.len() && 0 <= j < s.records@.len() && i != j
            implies #[trigger] s.records@[i].id != #[trigger] s.records@[j].id by {
        assert(v[i].id == s.records@[i].id && v[j].id == s.records@[j].id);
        if i < j {
            assert(v[i].id < v[j].id);
        } else {
            assert(v[j].id < v[i].id);
        }
    }
}

/// The ids that `k` calls of `GatewayState::next_id` hand out, starting at `n`.
pub open spec fn ids_from(n: u64, k: nat) -> Seq<u64>
    decreases k,
{
    if k == 0 {
        seq![]
    } else {
        seq![n] + ids_from(crate::gateway::next_after(n), (k - 1) as nat)
    }
}

/// Ids count up by one from where they start: a gateway made by
/// `GatewayState::new` hands out 1, 2, 3, ..., so fewer than 2^64 calls
/// never hand out the same id twice.
pub proof fn law_ids_count_up(n: u64, k: nat)
    requires
        n + k <= u64::MAX + 1,
    ensures
        ids_from(n, k).len() == k,
        forall|i: int| 0 <= i < k ==> #[trigger] ids_from(n, k)[i] == n + i,
        ids_from(n, k).no_duplicates(),
    decreases k,
{
    if k > 0 {
        let m = crate::gateway::next_after(n);
        assert(k > 1 ==> m == n + 1);
        law_ids_count_up(m, (k - 1) as nat);
        let s = ids_from(n, k);
        assert(s == seq![n] + ids_from(m, (k - 1) as nat));
        assert forall|i: int| 0 <= i < k implies #[trigger] ids_from(n, k)[i] == n + i by {
            if i > 0 {
                assert(s[i] == ids_from(m, (k - 1) as nat)[i - 1]);
            }
        }
        assert forall|i: int, j: int| 0 <= i < s.len() && 0 <= j < s.len() && i != j implies s[i]
            != s[j] by {
            assert(s[i] == n + i && s[j] == n + j);
        }
    }
}

/// One call of `GatewayState::start` as its contract states it: `spawned`
/// answers whether the gateway was stopped, and the call leaves it running
/// with the same log and the same next id.
pub open spec fn start_step(
    a: crate::gateway::GatewayState,
    spawned: bool,
    b: crate::gateway::GatewayState,
) -> bool {
    &&& spawned == !a.running
    &&& b.running
    &&& b.records@ == a.records@
    &&& b.next_id == a.next_id
}

/// Starting a stopped gateway any number of times, with no stop between,
/// starts exactly one listener (at the first call) and leaves the log as it
/// was.
pub proof fn law_one_listener(
    states: Seq<crate::gateway::GatewayState>,
    spawned: Seq<bool>,
)
    requires
        states.len() == spawned.len() + 1,
        !states[0].running,
        forall|i: int|
            0 <= i < spawned.len() ==> start_step(states[i], #[trigger] spawned[i], states[i + 1]),
    ensures
        spawned.len() > 0 ==> spawned[0],
        forall|i: int| 1 <= i < spawned.len() ==> !#[trigger] spawned[i],
        states.last().records@ == states[0].records@,
    decreases spawned.len(),
{
    if spawned.len() > 0 {
        let n = spawned.len() - 1;
        law_one_listener(states.drop_last(), spawned.drop_last());
        assert(start_step(states[n], spawned[n], states[n + 1]));
        assert forall|i: int| 1 <= i < spawned.len() implies !#[trigger] spawned[i] by {
            assert(start_step(states[i - 1], spawned[i - 1], states[i]));
            assert(start_step(states[i], spawned[i], states[i + 1]));
        }
        assert(states.drop_last().last() == states[n]);
    }
}


proof fn lemma_trim_start_first(s: Seq<char>)
    ensures
        trim_start(s).len() > 0 ==> !is_ws(trim_start(s)[0]),
    decreases s.len(),
{
    if s.len() > 0 && is_ws(s[0]) {
        lemma_trim_start_first(s.drop_first());
    }
}

proof fn lemma_trim_end_prefix(s: Seq<char>)
    ensures
        trim_end(s).len() <= s.len(),
        trim_end(s) == s.take(trim_end(s).len() as int),
        trim_end(s).len() > 0 ==> !is_ws(trim_end(s).last()),
    decreases s.len(),
{
    if s.len() > 0 && is_ws(s.last()) {
        let p = s.drop_last();
        lemma_trim_end_prefix(p);
        assert(p.take(trim_end(p).len() as int) =~= s.take(trim_end(p).len() as int));
    } else {
        assert(s.take(s.len() as int) =~= s);
    }
}

/// `trim` keeps a run of `s` and leaves no whitespace at either end, so
/// trimming again changes nothing.
proof fn lemma_trim_clean(s: Seq<char>)
    ensures
        forall|c: char| trim(s).contains(c) ==> s.contains(c),
        trim(trim(s)) == trim(s),
{
    lemma_trim_start_suffix(s);
    lemma_trim_start_first(s);
    let u = trim_start(s);
    lemma_trim_end_prefix(u);
    let t = trim_end(u);
    assert forall|c: char| t.contains(c) implies s.contains(c) by {
        let i = choose|i: int| 0 <= i < t.len() && t[i] == c;
        assert(t[i] == u[i]);
        assert(u[i] == s[i + (s.len() - u.len())]);
    }
    if t.len() > 0 {
        assert(t[0] == u[0]);
        assert(trim_start(t) == t);
        assert(trim_end(t) == t);
    } else {
        assert(trim_start(t) == t);
        assert(trim_end(t) == t);
    }
}

/// `str::lines` hands out no line that holds a `\n`.
proof fn lemma_lines_no_newline(s: Seq<char>)
    ensures
        forall|i: int| 0 <= i < lines(s).len() ==> !(#[trigger] lines(s)[i]).contains('\n'),
    decreases s.len(),
{
    if s.len() > 0 {
        let i = find_char(s, '\n');
        crate::text::lemma_find_char(s, '\n');
        if i < s.len() {
            lemma_lines_no_newline(s.skip(i + 1));
            let first = strip_cr(s.take(i));
            assert(!first.contains('\n')) by {
                if first.contains('\n') {
                    let w = choose|w: int| 0 <= w < first.len() && first[w] == '\n';
                    assert(first[w] == s[w]);
                }
            }
            let ls = lines(s);
            let rest = lines(s.skip(i + 1));
            assert(ls == seq![first] + rest);
            assert forall|j: int| 0 <= j < ls.len() implies !(#[trigger] ls[j]).contains('\n') by {
                if j > 0 {
                    assert(ls[j] == rest[j - 1]);
                }
            }
        } else {
            assert(!s.contains('\n')) by {
                if s.contains('\n') {
                    let w = choose|w: int| 0 <= w < s.len() && s[w] == '\n';
                    assert(w < find_char(s, '\n'));
                }
            }
        }
    }
}

proof fn lemma_nonempty_trimmed_of_lines(ls: Seq<Seq<char>>)
    requires
        forall|i: int| 0 <= i < ls.len() ==> !(#[trigger] ls[i]).contains('\n'),
    ensures
        forall|i: int| 0 <= i < nonempty_trimmed(ls).len() ==> is_clean_rule(
            #[trigger] nonempty_trimmed(ls)[i],
        ),
    decreases ls.len(),
{
    if ls.len() > 0 {
        let p = ls.drop_last();
        assert forall|i: int| 0 <= i < p.len() implies !(#[trigger] p[i]).contains('\n') by {
            assert(p[i] == ls[i]);
        }
        lemma_nonempty_trimmed_of_lines(p);
        let t = trim(ls.last());
        lemma_trim_clean(ls.last());
        assert(!ls[ls.len() - 1].contains('\n'));
        assert(!t.contains('\n'));
        let prev = nonempty_trimmed(p);
        if t.len() > 0 {
            assert forall|i: int| 0 <= i < prev.push(t).len() implies is_clean_rule(
                #[trigger] prev.push(t)[i],
            ) by {
                if i < prev.len() {
                    assert(prev.push(t)[i] == prev[i]);
                }
            }
        }
    }
}

/// What `split_lines` reads from any text is a list of clean rules (each
/// non-empty, trimmed, on one line), and splitting that list, joined with
/// `\n`, again gives the same list: a save of a listed profile writes its
/// rules back unchanged.
pub proof fn law_split_lines_clean(s: Seq<char>)
    ensures
        forall|i: int| 0 <= i < split_lines_spec(s).len() ==> is_clean_rule(
            #[trigger] split_lines_spec(s)[i],
        ),
        split_lines_spec(join_lines(split_lines_spec(s))) == split_lines_spec(s),
{
    lemma_lines_no_newline(s);
    lemma_nonempty_trimmed_of_lines(lines(s));
    law_rule_list_roundtrip(split_lines_spec(s));
}


/// The hex column that `sqlite3` prints for a stored text.
pub open spec fn hex_column(v: Seq<char>) -> Seq<char> {
    hex_text(vstd::utf8::encode_utf8(v), true)
}

/// Columns separated by `|`, `last` after them, as `sqlite3 -separator '|'`
/// prints a row.
pub open spec fn row_of(cols: Seq<Seq<char>>, last: Seq<char>) -> Seq<char>
    decreases cols.len(),
{
    if cols.len() == 0 {
        last
    } else {
        cols[0] + seq!['|'] + row_of(cols.drop_first(), last)
    }
}

/// The text values that saving `p` writes into its row, in the order of
/// the listing's columns: UUID, name, remark, strategy, matcher, and the
/// Block / Proxy / Direct lists joined with `\n`.
pub open spec fn saved_values(p: crate::routing::ProfileView) -> Seq<Seq<char>> {
    seq![
        p.uuid,
        p.name,
        p.remark,
        p.domain_strategy,
        p.domain_matcher,
        join_lines(p.block),
        join_lines(p.proxy),
        join_lines(p.direct),
    ]
}

/// The row that listing the routing table prints for a profile stored as
/// `p` with sort value `p.sort`.
pub open spec fn stored_row(p: crate::routing::ProfileView) -> Seq<char> {
    row_of(saved_values(p).map_values(|v: Seq<char>| hex_column(v)), signed_decimal(p.sort as int))
}

proof fn lemma_split_row(cols: Seq<Seq<char>>, last: Seq<char>)
    requires
        forall|i: int| 0 <= i < cols.len() ==> !(#[trigger] cols[i]).contains('|'),
        !last.contains('|'),
    ensures
        crate::text::split_char(row_of(cols, last), '|') == cols.push(last),
    decreases cols.len(),
{
    if cols.len() == 0 {
        assert forall|j: int| 0 <= j < last.len() implies #[trigger] last[j] != '|' by {
            if last[j] == '|' {
                assert(last.contains('|'));
            }
        }
        lemma_find_char_at(last, '|', last.len() as int);
        assert(seq![last] =~= cols.push(last));
    } else {
        let a = cols[0];
        let rest = cols.drop_first();
        assert forall|i: int| 0 <= i < rest.len() implies !(#[trigger] rest[i]).contains('|') by {
            assert(rest[i] == cols[i + 1]);
        }
        lemma_split_row(rest, last);
        let r = row_of(cols, last);
        assert(!a.contains('|'));
        assert forall|j: int| 0 <= j < a.len() implies #[trigger] r[j] != '|' by {
            assert(r[j] == a[j]);
            if a[j] == '|' {
                assert(a.contains('|'));
            }
        }
        assert(r[a.len() as int] == '|');
        lemma_find_char_at(r, '|', a.len() as int);
        assert(r.take(a.len() as int) =~= a);
        assert(r.skip(a.len() as int + 1) =~= row_of(rest, last));
        assert(seq![a] + rest.push(last) =~= cols.push(last));
    }
}

proof fn lemma_hex_column_plain(v: Seq<char>)
    ensures
        !hex_column(v).contains('|'),
        decode_hex_spec(hex_column(v)) == v,
{
    let bs = vstd::utf8::encode_utf8(v);
    lemma_hex_encode(bs, true);
    law_text_hex_roundtrip(v, true);
    let t = hex_column(v);
    let e = hex_encode(bs, true);
    if t.contains('|') {
        let j = choose|j: int| 0 <= j < t.len() && t[j] == '|';
        assert(t[j] == e[j] as char);
        assert(is_hex_digit(e[j]));
    }
}

/// A profile that `save_routing_profile` wrote reads back, through
/// `list_routing_profiles`, as the same profile: `sqlite3` stores each
/// quoted value of the update SQL as the value itself (the quoting reads
/// back exactly), and the row it then lists, every text column in hex,
/// reads back to the same UUID, name, remark, strategy, matcher and sort,
/// and to the rule lists as `split_lines` reads them back (the same lists
/// where the rules are clean, see `law_rule_list_roundtrip`).
pub proof fn law_saved_profile_lists_back(p: crate::routing::ProfileView, active: Seq<char>)
    ensures
        forall|i: int|
            0 <= i < saved_values(p).len() ==> sql_unquote(
                sql_quote_spec(#[trigger] saved_values(p)[i]),
            ) == Some(saved_values(p)[i]),
        crate::routing::profile_row(stored_row(p), active) == Some(
            crate::routing::ProfileView {
                uuid: p.uuid,
                name: p.name,
                remark: p.remark,
                domain_strategy: p.domain_strategy,
                domain_matcher: p.domain_matcher,
                block: split_lines_spec(join_lines(p.block)),
                proxy: split_lines_spec(join_lines(p.proxy)),
                direct: split_lines_spec(join_lines(p.direct)),
                sort: p.sort,
                active: p.uuid == active,
            },
        ),
{
    let vals = saved_values(p);
    assert forall|i: int| 0 <= i < vals.len() implies sql_unquote(sql_quote_spec(#[trigger] vals[i]))
        == Some(vals[i]) by {
        law_sql_quote_roundtrip(vals[i]);
    }
    let cols = vals.map_values(|v: Seq<char>| hex_column(v));
    assert forall|i: int| 0 <= i < cols.len() implies !(#[trigger] cols[i]).contains('|') by {
        lemma_hex_column_plain(vals[i]);
    }
    let last = signed_decimal(p.sort as int);
    assert(!last.contains('|')) by {
        let v = p.sort as int;
        let m = if v < 0 {
            (-v) as nat
        } else {
            v as nat
        };
        lemma_decimal(m);
        if last.contains('|') {
            let j = choose|j: int| 0 <= j < last.len() && last[j] == '|';
            if v < 0 {
                assert(last[j] == '-' || last[j] == decimal(m)[j - 1]);
            } else {
                assert(last[j] == decimal(m)[j]);
            }
        }
    }
    lemma_split_row(cols, last);
    let c = crate::text::split_char(stored_row(p), '|');
    assert(c == cols.push(last));
    assert forall|i: int| 0 <= i < 8 implies decode_hex_spec(#[trigger] c[i]) == vals[i] by {
        assert(c[i] == cols[i]);
        lemma_hex_column_plain(vals[i]);
    }
    assert(c[8] == last);
    law_sort_roundtrip(p.sort);
    assert(decode_hex_spec(c[0]) == vals[0]);
    assert(decode_hex_spec(c[1]) == vals[1]);
    assert(decode_hex_spec(c[2]) == vals[2]);
    assert(decode_hex_spec(c[3]) == vals[3]);
    assert(decode_hex_spec(c[4]) == vals[4]);
    assert(decode_hex_spec(c[5]) == vals[5]);
    assert(decode_hex_spec(c[6]) == vals[6]);
    assert(decode_hex_spec(c[7]) == vals[7]);
}


proof fn lemma_trim_start_push(v: Seq<char>, c: char)
    ensures
        trim_start(v).len() > 0 ==> trim_start(v.push(c)) == trim_start(v).push(c),
        trim_start(v).len() == 0 ==> trim_start(v.push(c)) == trim_start(seq![c]),
    decreases v.len(),
{
    if v.len() > 0 {
        assert(v.push(c).drop_first() =~= v.drop_first().push(c));
        if is_ws(v[0]) {
            lemma_trim_start_push(v.drop_first(), c);
        }
    } else {
        assert(v.push(c) =~= seq![c]);
    }
}

/// A value written with `defaults write ... -string` reads back, through
/// `defaults_read` of what `defaults read` prints for it (the value and a
/// line end), as the value trimmed.
pub proof fn law_defaults_string_reads_back(v: Seq<char>)
    ensures
        trim(v + seq!['\n']) == trim(v),
{
    assert(v + seq!['\n'] =~= v.push('\n'));
    lemma_trim_start_push(v, '\n');
    let u = trim_start(v);
    if u.len() > 0 {
        assert(is_ws('\n'));
        assert(u.push('\n').drop_last() =~= u);
    } else {
        assert(seq!['\n'].drop_first() =~= Seq::<char>::empty());
        assert(trim_start(seq!['\n']) == trim_start(Seq::<char>::empty()));
        assert(u =~= Seq::<char>::empty());
    }
}

/// A boolean written with `defaults write ... -bool` reads back through
/// `defaults_read_bool` as the same boolean, whether `defaults read` prints
/// it as written (`true` / `false`) or as `1` / `0`, with its line end.
pub proof fn law_defaults_bool_reads_back(v: bool)
    ensures
        crate::commands::defaults_bool_spec(crate::commands::bool_text(v) + seq!['\n']) == v,
        crate::commands::defaults_bool_spec(
            (if v {
                seq!['1']
            } else {
                seq!['0']
            }) + seq!['\n'],
        ) == v,
{
    reveal_strlit("true");
    reveal_strlit("false");
    reveal_strlit("1");
    reveal_strlit("yes");
    let t = crate::commands::bool_text(v);
    let d = if v {
        seq!['1']
    } else {
        seq!['0']
    };
    law_defaults_string_reads_back(t);
    law_defaults_string_reads_back(d);
    assert(trim_start(t) == t);
    assert(trim_end(t) == t) by {
        assert(!is_ws(t.last()));
    }
    assert(trim_start(d) == d);
    assert(trim_end(d) == d);
    let lt = crate::text::lower_seq(t);
    let ld = crate::text::lower_seq(d);
    assert(lt =~= t);
    assert(ld =~= d);
    assert(trim(t + seq!['\n']) == t);
    assert(crate::text::lower_seq(trim(t + seq!['\n'])) == t);
    if v {
        assert(t == "true"@);
    } else {
        assert(t == "false"@);
        assert(t.len() == 5);
        assert(t != "1"@ && t != "true"@ && t != "yes"@);
    }
    assert(trim(d + seq!['\n']) == d);
    if v {
        assert(d =~= "1"@);
    } else {
        assert(d.len() == 1 && d[0] == '0');
        assert(d != "1"@) by {
            assert("1"@[0] == '1');
        }
        assert(d != "true"@ && d != "yes"@);
    }
}

/// The config path is `$HOME/.V2rayU/config.json`, with one `/` after a
/// home that does not already end in one.
pub proof fn law_config_path(home: Seq<char>)
    ensures
        home.len() > 0 && home.last() != '/' ==> crate::paths::config_path_spec(home) == home
            + "/.V2rayU/config.json"@,
        home.len() > 0 && home.last() == '/' ==> crate::paths::config_path_spec(home) == home
            + ".V2rayU/config.json"@,
{
    reveal_strlit(".V2rayU");
    reveal_strlit("config.json");
    reveal_strlit("/.V2rayU/config.json");
    reveal_strlit(".V2rayU/config.json");
    let d = crate::paths::join_spec(home, ".V2rayU"@);
    assert(d.len() > 0 && d.last() != '/');
    if home.len() > 0 && home.last() != '/' {
        assert(crate::paths::config_path_spec(home) =~= home + "/.V2rayU/config.json"@);
    }
    if home.len() > 0 && home.last() == '/' {
        assert(crate::paths::config_path_spec(home) =~= home + ".V2rayU/config.json"@);
    }
}


/// A process's traffic mode follows its connection counts: it is mixed
/// exactly when it has both proxy and direct connections; direct
/// connections alone make it direct, proxy connections alone make it proxy,
/// and with neither it is none of these three.
pub proof fn law_mode_follows_counts(
    pid: u32,
    counters: Map<u32, (u64, u64)>,
    conns: Map<u32, crate::traffic::AggView>,
    prev: Map<u32, crate::traffic::CounterSample>,
    now: u64,
)
    ensures
        ({
            let s = crate::traffic::sample_spec(pid, counters, conns, prev, now);
            &&& (s.mode == crate::traffic::TrafficMode::Mixed) <==> (s.proxy_connections > 0
                && s.direct_connections > 0)
            &&& s.direct_connections > 0 && s.proxy_connections == 0 ==> s.mode
                == crate::traffic::TrafficMode::Direct
            &&& s.direct_connections == 0 && s.proxy_connections > 0 ==> s.mode
                == crate::traffic::TrafficMode::Proxy
            &&& s.direct_connections == 0 && s.proxy_connections == 0 ==> s.mode
                != crate::traffic::TrafficMode::Mixed && s.mode != crate::traffic::TrafficMode::Direct
                && s.mode != crate::traffic::TrafficMode::Proxy
            &&& conns.contains_key(pid) ==> s.proxy_connections == conns[pid].proxy
                && s.direct_connections == conns[pid].direct
            &&& !conns.contains_key(pid) ==> s.proxy_connections == 0 && s.direct_connections == 0
        }),
{
}

/// Which hosts count as local: the names `localhost`, `127.0.0.1` and
/// `::1`, and IPv4 addresses in 10/8, 172.16/12, 192.168/16, 127/8,
/// 169.254/16 or 100.64/10, and no other IPv4 address (so `192.x` is local
/// only as `192.168.x`, and a public address such as 192.30.255.113 is not).
pub proof fn law_local_host_v4(host: Seq<char>, o: [u8; 4])
    ensures
        crate::traffic::local_host_spec(host, Some(crate::traffic::IpAddress::V4(o))) <==> (host
            == "localhost"@ || host == "127.0.0.1"@ || host == "::1"@ || o[0] == 10 || (o[0] == 172
            && 16 <= o[1] <= 31) || (o[0] == 192 && o[1] == 168) || o[0] == 127 || (o[0] == 169
            && o[1] == 254) || (o[0] == 100 && 64 <= o[1] <= 127)),
        host != "localhost"@ && host != "127.0.0.1"@ && host != "::1"@ && o[0] == 192 ==> (
        crate::traffic::local_host_spec(host, Some(crate::traffic::IpAddress::V4(o))) <==> o[1]
            == 168),
{
}

/// Which IPv6 addresses count as local: `::1`, link-local `fe80::/10` and
/// unique-local `fc00::/7`, beside the local names; a host that is no
/// address is local only by name.
pub proof fn law_local_host_v6(host: Seq<char>, g: [u16; 8])
    ensures
        crate::traffic::local_host_spec(host, Some(crate::traffic::IpAddress::V6(g))) <==> (host
            == "localhost"@ || host == "127.0.0.1"@ || host == "::1"@ || (g[0] == 0 && g[1] == 0
            && g[2] == 0 && g[3] == 0 && g[4] == 0 && g[5] == 0 && g[6] == 0 && g[7] == 1) || (0xfe80
            <= g[0] <= 0xfebf) || (0xfc00 <= g[0] <= 0xfdff)),
        crate::traffic::local_host_spec(host, None) <==> (host == "localhost"@ || host
            == "127.0.0.1"@ || host == "::1"@),
{
}


proof fn lemma_trim_start_append(a: Seq<char>, b: Seq<char>)
    requires
        b.len() > 0,
        !is_ws(b[0]),
    ensures
        trim_start(a + b) == trim_start(a) + b,
    decreases a.len(),
{
    if a.len() == 0 {
        assert(a + b =~= b);
        assert(trim_start(a) + b =~= b);
    } else {
        assert((a + b)[0] == a[0]);
        assert((a + b).drop_first() =~= a.drop_first() + b);
        if is_ws(a[0]) {
            lemma_trim_start_append(a.drop_first(), b);
        }
    }
}

proof fn lemma_no_char(x: Seq<char>, c: char)
    requires
        !x.contains(c),
    ensures
        forall|j: int| 0 <= j < x.len() ==> #[trigger] x[j] != c,
{
    assert forall|j: int| 0 <= j < x.len() implies #[trigger] x[j] != c by {
        if x[j] == c {
            assert(x.contains(c));
        }
    }
}

proof fn lemma_split_none(x: Seq<char>, c: char)
    requires
        !x.contains(c),
    ensures
        crate::text::split_char(x, c) == seq![x],
{
    lemma_no_char(x, c);
    lemma_find_char_at(x, c, x.len() as int);
}

proof fn lemma_split_once(a: Seq<char>, rest: Seq<char>, c: char)
    requires
        !a.contains(c),
    ensures
        crate::text::split_char(a + seq![c] + rest, c) == seq![a] + crate::text::split_char(rest, c),
{
    let x = a + seq![c] + rest;
    lemma_no_char(a, c);
    assert forall|j: int| 0 <= j < a.len() implies #[trigger] x[j] != c by {
        assert(x[j] == a[j]);
    }
    assert(x[a.len() as int] == c);
    lemma_find_char_at(x, c, a.len() as int);
    assert(x.take(a.len() as int) =~= a);
    assert(x.skip(a.len() as int + 1) =~= rest);
}

proof fn lemma_decimal_plain(n: nat)
    ensures
        decimal(n).len() > 0,
        forall|j: int| 0 <= j < decimal(n).len() ==> is_digit(#[trigger] decimal(n)[j]),
        !decimal(n).contains(','),
        !decimal(n).contains('.'),
        !decimal(n).contains('|'),
{
    lemma_decimal(n);
    let d = decimal(n);
    if d.contains(',') {
        let j = choose|j: int| 0 <= j < d.len() && d[j] == ',';
        assert(is_digit(d[j]));
    }
    if d.contains('.') {
        let j = choose|j: int| 0 <= j < d.len() && d[j] == '.';
        assert(is_digit(d[j]));
    }
    if d.contains('|') {
        let j = choose|j: int| 0 <= j < d.len() && d[j] == '|';
        assert(is_digit(d[j]));
    }
}

/// A `nettop` line `<name>.<pid>,<bytes in>,<bytes out>,` gives the counters
/// of that PID: the PID is what follows the last `.` of the first field, so
/// a process name with dots of its own (`com.apple.WebKit.Networking`) does
/// not hide it; and the text of such a single line parses to exactly that
/// one entry.
pub proof fn law_nettop_pid_after_last_dot(name: Seq<char>, pid: u32, down: u64, up: u64)
    requires
        !name.contains(','),
    ensures
        crate::traffic::nettop_line(
            name + seq!['.'] + decimal(pid as nat) + seq![','] + decimal(down as nat) + seq![',']
                + decimal(up as nat) + seq![','],
        ) == Some((pid, down, up)),
        !name.contains('\n') ==> crate::traffic::nettop_map(
            lines(
                name + seq!['.'] + decimal(pid as nat) + seq![','] + decimal(down as nat) + seq![',']
                    + decimal(up as nat) + seq![','],
            ),
        ) == Map::<u32, (u64, u64)>::empty().insert(pid, (down, up)),
{
    let dp = decimal(pid as nat);
    let dd = decimal(down as nat);
    let du = decimal(up as nat);
    lemma_decimal_plain(pid as nat);
    lemma_decimal_plain(down as nat);
    lemma_decimal_plain(up as nat);
    let line = name + seq!['.'] + dp + seq![','] + dd + seq![','] + du + seq![','];
    let b = seq!['.'] + dp + seq![','] + dd + seq![','] + du + seq![','];
    assert(line =~= name + b);
    lemma_trim_start_append(name, b);
    let n1 = trim_start(name);
    lemma_trim_start_suffix(name);
    assert(!n1.contains(',')) by {
        if n1.contains(',') {
            let j = choose|j: int| 0 <= j < n1.len() && n1[j] == ',';
            assert(n1[j] == name[j + (name.len() - n1.len())]);
            assert(name.contains(','));
        }
    }
    let t0 = n1 + b;
    assert(trim_start(line) == t0);
    assert(t0.last() == ',');
    assert(trim_end(t0) == t0);
    assert(crate::text::trim(line) == t0);
    let f0 = n1 + seq!['.'] + dp;
    let t1 = f0 + seq![','] + dd + seq![','] + du;
    assert(t0 =~= t1.push(','));
    let comma = seq![','];
    assert(t1.last() == du[du.len() - 1]);
    assert(is_digit(t1.last()));
    assert(!comma.contains(t1.last()));
    assert(t0.drop_last() =~= t1);
    assert(crate::text::trim_end_set(t1, comma) == t1);
    assert(crate::text::trim_end_set(t0, comma) == t1);
    assert(!f0.contains(',')) by {
        if f0.contains(',') {
            let j = choose|j: int| 0 <= j < f0.len() && f0[j] == ',';
            if j < n1.len() {
                assert(f0[j] == n1[j]);
                assert(n1.contains(','));
            } else if j > n1.len() {
                assert(f0[j] == dp[j - n1.len() - 1]);
                assert(dp.contains(','));
            }
        }
    }
    assert(t1 =~= f0 + seq![','] + (dd + seq![','] + du));
    lemma_split_once(f0, dd + seq![','] + du, ',');
    lemma_split_once(dd, du, ',');
    lemma_split_none(du, ',');
    let f = crate::text::split_char(t1, ',');
    assert(f =~= seq![f0, dd, du]);
    let i = n1.len() as int;
    assert(crate::text::occurs_at(f0, seq!['.'], i)) by {
        assert(f0.subrange(i, i + 1) =~= seq!['.']);
    }
    assert forall|j: int| i < j implies !crate::text::occurs_at(f0, seq!['.'], j) by {
        if crate::text::occurs_at(f0, seq!['.'], j) {
            assert(f0.subrange(j, j + 1)[0] == '.');
            assert(f0[j] == dp[j - i - 1]);
            assert(dp.contains('.'));
        }
    }
    crate::text::lemma_rfind_seq_is(f0, seq!['.'], i);
    assert(f0.skip(i + 1) =~= dp);
    law_decimal_roundtrip(pid as nat, u32::MAX as nat);
    law_decimal_roundtrip(down as nat, u64::MAX as nat);
    law_decimal_roundtrip(up as nat, u64::MAX as nat);
    if !name.contains('\n') {
        assert forall|j: int| 0 <= j < line.len() implies #[trigger] line[j] != '\n' by {
            if j < name.len() {
                assert(line[j] == name[j]);
                if name[j] == '\n' {
                    assert(name.contains('\n'));
                }
            } else {
                assert(line[j] == b[j - name.len()]);
                let k = j - name.len();
                if 1 <= k < 1 + dp.len() {
                    assert(b[k] == dp[k - 1]);
                    assert(is_digit(dp[k - 1]));
                } else if 2 + dp.len() <= k < 2 + dp.len() + dd.len() {
                    assert(b[k] == dd[k - 2 - dp.len()]);
                    assert(is_digit(dd[k - 2 - dp.len()]));
                } else if 3 + dp.len() + dd.len() <= k < 3 + dp.len() + dd.len() + du.len() {
                    assert(b[k] == du[k - 3 - dp.len() - dd.len()]);
                    assert(is_digit(du[k - 3 - dp.len() - dd.len()]));
                }
            }
        }
        lemma_find_char_at(line, '\n', line.len() as int);
        let ls = lines(line);
        assert(ls == seq![line]);
        assert(ls.drop_last() =~= Seq::<Seq<char>>::empty());
        assert(crate::traffic::nettop_map(ls.drop_last()) == Map::<u32, (u64, u64)>::empty());
    }
}


/// An `UPDATE` of the routing table that sets the eight columns to the given
/// single-quoted literal bodies, for the row with the given UUID, and then
/// prints how many rows changed.
pub open spec fn update_statement(
    name: Seq<char>,
    remark: Seq<char>,
    strategy: Seq<char>,
    matcher: Seq<char>,
    block: Seq<char>,
    proxy: Seq<char>,
    direct: Seq<char>,
    uuid: Seq<char>,
) -> Seq<char> {
    "UPDATE routing SET name='"@ + name + "',remark='"@ + remark + "',domainStrategy='"@ + strategy
        + "',domainMatcher='"@ + matcher + "',block='"@ + block + "',proxy='"@ + proxy
        + "',direct='"@ + direct + "' WHERE uuid='"@ + uuid + "'; SELECT changes();"@
}

/// The SQL that saves a profile sets every column to a literal that reads
/// back as the profile's own value: name, remark, strategy and matcher as
/// they are, each of the Block, Proxy and Direct lists as all of its rules
/// joined with `\n` (not some of them), for the row of the profile's UUID.
/// Where the rules are clean, each list splits back into the same rules.
pub proof fn law_update_saves_every_field(p: crate::routing::ProfileView)
    ensures
        ({
            let q = |v: Seq<char>| sql_quote_spec(v);
            crate::routing::update_sql_spec(p) == update_statement(
                q(p.name),
                q(p.remark),
                q(p.domain_strategy),
                q(p.domain_matcher),
                q(join_lines(p.block)),
                q(join_lines(p.proxy)),
                q(join_lines(p.direct)),
                q(p.uuid),
            )
        }),
        sql_unquote(sql_quote_spec(p.name)) == Some(p.name),
        sql_unquote(sql_quote_spec(p.remark)) == Some(p.remark),
        sql_unquote(sql_quote_spec(p.domain_strategy)) == Some(p.domain_strategy),
        sql_unquote(sql_quote_spec(p.domain_matcher)) == Some(p.domain_matcher),
        sql_unquote(sql_quote_spec(join_lines(p.block))) == Some(join_lines(p.block)),
        sql_unquote(sql_quote_spec(join_lines(p.proxy))) == Some(join_lines(p.proxy)),
        sql_unquote(sql_quote_spec(join_lines(p.direct))) == Some(join_lines(p.direct)),
        sql_unquote(sql_quote_spec(p.uuid)) == Some(p.uuid),
        (forall|i: int| 0 <= i < p.block.len() ==> is_clean_rule(#[trigger] p.block[i]))
            ==> split_lines_spec(join_lines(p.block)) == p.block,
        (forall|i: int| 0 <= i < p.proxy.len() ==> is_clean_rule(#[trigger] p.proxy[i]))
            ==> split_lines_spec(join_lines(p.proxy)) == p.proxy,
        (forall|i: int| 0 <= i < p.direct.len() ==> is_clean_rule(#[trigger] p.direct[i]))
            ==> split_lines_spec(join_lines(p.direct)) == p.direct,
{
    law_sql_quote_roundtrip(p.name);
    law_sql_quote_roundtrip(p.remark);
    law_sql_quote_roundtrip(p.domain_strategy);
    law_sql_quote_roundtrip(p.domain_matcher);
    law_sql_quote_roundtrip(join_lines(p.block));
    law_sql_quote_roundtrip(join_lines(p.proxy));
    law_sql_quote_roundtrip(join_lines(p.direct));
    law_sql_quote_roundtrip(p.uuid);
    if forall|i: int| 0 <= i < p.block.len() ==> is_clean_rule(#[trigger] p.block[i]) {
        law_rule_list_roundtrip(p.block);
    }
    if forall|i: int| 0 <= i < p.proxy.len() ==> is_clean_rule(#[trigger] p.proxy[i]) {
        law_rule_list_roundtrip(p.proxy);
    }
    if forall|i: int| 0 <= i < p.direct.len() ==> is_clean_rule(#[trigger] p.direct[i]) {
        law_rule_list_roundtrip(p.direct);
    }
}


proof fn lemma_targets_of_lines(ls: Seq<Seq<char>>, t: Seq<char>)
    ensures
        crate::targets::targets_of(ls).contains(t) <==> exists|j: int|
            0 <= j < ls.len() && #[trigger] crate::targets::target_of_line(ls[j]) == Some(t),
    decreases ls.len(),
{
    if ls.len() > 0 {
        let p = ls.drop_last();
        lemma_targets_of_lines(p, t);
        if exists|j: int| 0 <= j < p.len() && #[trigger] crate::targets::target_of_line(p[j]) == Some(t) {
            let j = choose|j: int|
                0 <= j < p.len() && #[trigger] crate::targets::target_of_line(p[j]) == Some(t);
            assert(ls[j] == p[j]);
        }
        if exists|j: int| 0 <= j < ls.len() && #[trigger] crate::targets::target_of_line(ls[j]) == Some(t) {
            let j = choose|j: int|
                0 <= j < ls.len() && #[trigger] crate::targets::target_of_line(ls[j]) == Some(t);
            if j < p.len() {
                assert(p[j] == ls[j]);
            }
        }
    }
}

/// The endpoints of a process are exactly those that the lines of the
/// `lsof` output after its first (header) line show: every such line whose
/// connection field has a remote end contributes it, and nothing else does.
pub proof fn law_targets_every_line_after_header(raw: Seq<char>, t: Seq<char>)
    ensures
        crate::targets::process_targets_spec(raw).contains(t) <==> exists|j: int|
            1 <= j < lines(raw).len() && #[trigger] crate::targets::target_of_line(lines(raw)[j])
                == Some(t),
{
    let ls = lines(raw);
    if ls.len() > 0 {
        let r = ls.skip(1);
        lemma_targets_of_lines(r, t);
        if exists|j: int| 0 <= j < r.len() && #[trigger] crate::targets::target_of_line(r[j]) == Some(t) {
            let j = choose|j: int|
                0 <= j < r.len() && #[trigger] crate::targets::target_of_line(r[j]) == Some(t);
            assert(r[j] == ls[j + 1]);
        }
        if exists|j: int|
            1 <= j < ls.len() && #[trigger] crate::targets::target_of_line(ls[j]) == Some(t) {
            let j = choose|j: int|
                1 <= j < ls.len() && #[trigger] crate::targets::target_of_line(ls[j]) == Some(t);
            assert(r[j - 1] == ls[j]);
        }
    }
}

/// The endpoint of an `lsof` line: where the first field with `->` is
/// `<local>-><remote>` (the local end without `->`), the remote end is the
/// endpoint, provided it is not empty and is not itself the
/// `(ESTABLISHED)` marker's text.
pub proof fn law_target_is_remote_end(line: Seq<char>, k: int, local: Seq<char>, remote: Seq<char>)
    requires
        0 <= k < crate::text::words(line).len(),
        forall|j: int|
            0 <= j < k ==> !crate::text::contains_seq(
                #[trigger] crate::text::words(line)[j],
                crate::traffic::arrow(),
            ),
        crate::text::words(line)[k] == local + crate::traffic::arrow() + remote,
        !crate::text::contains_seq(local, crate::traffic::arrow()),
        remote.len() > 0,
        forall|i: int| 0 <= i < remote.len() ==> !is_ws(#[trigger] remote[i]),
        !crate::text::ends_with(remote, crate::targets::established()),
    ensures
        crate::targets::target_of_line(line) == Some(remote),
{
    let f = crate::text::words(line);
    let w = f[k];
    let a = crate::traffic::arrow();
    let i = local.len() as int;
    assert(crate::text::occurs_at(w, a, i)) by {
        assert(w.subrange(i, i + 2) =~= a);
    }
    crate::traffic::lemma_first_containing_at(f, a, k);
    assert forall|j: int| 0 <= j < i implies !crate::text::occurs_at(w, a, j) by {
        if crate::text::occurs_at(w, a, j) {
            if j + 2 <= i {
                assert(local.subrange(j, j + 2) =~= w.subrange(j, j + 2));
                assert(crate::text::occurs_at(local, a, j));
            } else {
                assert(w.subrange(j, j + 2)[1] == '>');
                assert(w[j + 1] == w[i]);
                assert(w[i] == '-');
            }
        }
    }
    crate::text::lemma_find_seq_is(w, a, i);
    assert(w.skip(i + 2) =~= remote);
    assert(crate::text::trim_end_seq(remote, crate::targets::established()) == remote);
    assert(trim_start(remote) == remote);
    assert(trim_end(remote) == remote);
}

} // verus!
