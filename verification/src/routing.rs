//! V2rayU's persisted routing profiles: reading the `routing` table through
//! `sqlite3`, and the SQL that saves, creates and deletes profiles.
use vstd::prelude::*;
use crate::text::{
    chars_of, contains_seq, lines, line_bounds, pieces, push_all, string_of, trim, trim_chars,
};

verus! {

/// Names what `String::from_utf8_lossy` makes of a byte sequence.
pub uninterp spec fn utf8_lossy(bytes: Seq<u8>) -> Seq<char>;

/// `String::from_utf8_lossy(bytes).into_owned()`: the decoded text, where
/// invalid sequences become U+FFFD. The contract names the result and states
/// that well-formed UTF-8 decodes unchanged; the replacement of malformed
/// sequences is left unsaid.
#[verifier::external_body]
pub(crate) fn lossy_string(bytes: &[u8]) -> (r: String)
    ensures
        r@ == utf8_lossy(bytes@),
        vstd::utf8::valid_utf8(bytes@) ==> r@ == vstd::utf8::decode_utf8(bytes@),
{
    String::from_utf8_lossy(bytes).into_owned()
}

pub open spec fn is_hex_digit(b: u8) -> bool {
    (48 <= b && b <= 57) || (97 <= b && b <= 102) || (65 <= b && b <= 70)
}

pub open spec fn hex_value(b: u8) -> nat {
    if 48 <= b && b <= 57 {
        (b - 48) as nat
    } else if 97 <= b && b <= 102 {
        (b - 87) as nat
    } else {
        (b - 55) as nat
    }
}

/// `u8::from_str_radix(pair, 16)` for a two-byte chunk: two hex digits, or
/// `+` and one hex digit.
pub open spec fn hex_pair(a: u8, b: u8) -> Option<u8> {
    if is_hex_digit(a) && is_hex_digit(b) {
        Some((hex_value(a) * 16 + hex_value(b)) as u8)
    } else if a == 43 && is_hex_digit(b) {
        Some(hex_value(b) as u8)
    } else {
        None
    }
}

/// The bytes that the two-byte chunks of `bs` read as; chunks that do not
/// read, and an odd last byte, are dropped.
pub open spec fn hex_bytes(bs: Seq<u8>) -> Seq<u8>
    decreases bs.len(),
{
    if bs.len() < 2 {
        seq![]
    } else {
        (match hex_pair(bs[0], bs[1]) {
            Some(x) => seq![x],
            None => seq![],
        }) + hex_bytes(bs.skip(2))
    }
}

/// Bytes read as UTF-8 text the way `String::from_utf8_lossy` reads them:
/// well-formed UTF-8 decodes to its characters; other bytes give what
/// `utf8_lossy` names (malformed sequences replaced).
pub open spec fn lossy_text(bytes: Seq<u8>) -> Seq<char> {
    if vstd::utf8::valid_utf8(bytes) {
        vstd::utf8::decode_utf8(bytes)
    } else {
        utf8_lossy(bytes)
    }
}

/// Text of a column that `sqlite3` printed with `hex(..)`.
pub open spec fn decode_hex_spec(s: Seq<char>) -> Seq<char> {
    lossy_text(hex_bytes(vstd::utf8::encode_utf8(s)))
}

fn hex_digit_value(b: u8) -> (r: Option<u8>)
    ensures
        match r {
            Some(v) => is_hex_digit(b) && v == hex_value(b),
            None => !is_hex_digit(b),
        },
{
    if 48 <= b && b <= 57 {
        Some(b - 48)
    } else if 97 <= b && b <= 102 {
        Some(b - 87)
    } else if 65 <= b && b <= 70 {
        Some(b - 55)
    } else {
        None
    }
}

fn hex_pair_exec(a: u8, b: u8) -> (r: Option<u8>)
    ensures
        r == hex_pair(a, b),
{
    match (hex_digit_value(a), hex_digit_value(b)) {
        (Some(x), Some(y)) => Some(x * 16 + y),
        (None, Some(y)) => {
            if a == 43 {
                Some(y)
            } else {
                None
            }
        },
        _ => None,
    }
}

/// The bytes that `hex_bytes` reads from `bs`.
pub fn decode_hex_bytes(bs: &[u8]) -> (r: Vec<u8>)
    ensures
        r@ == hex_bytes(bs@),
{
    let n = bs.len();
    let mut out: Vec<u8> = Vec::new();
    let mut i: usize = 0;
    assert(bs@.skip(0) =~= bs@);
    while i < n && n - i >= 2
        invariant
            i <= n == bs@.len(),
            out@ + hex_bytes(bs@.skip(i as int)) == hex_bytes(bs@),
        decreases n - i,
    {
        let ghost rest = bs@.skip(i as int);
        assert(rest.skip(2) =~= bs@.skip(i + 2));
        assert(rest[0] == bs@[i as int] && rest[1] == bs@[i + 1]);
        match hex_pair_exec(bs[i], bs[i + 1]) {
            Some(x) => {
                out.push(x);
                assert(out@ + hex_bytes(bs@.skip(i + 2)) =~= out@.drop_last() + hex_bytes(rest));
            },
            None => {
                assert(out@ + hex_bytes(bs@.skip(i + 2)) =~= out@ + hex_bytes(rest));
            },
        }
        i = i + 2;
    }
    assert(out@ + hex_bytes(bs@.skip(i as int)) =~= out@);
    out
}

/// Decodes a column that `sqlite3` printed with `hex(..)`: each two-byte
/// chunk that reads as a hex byte gives that byte, the rest are dropped, and
/// the bytes are read as UTF-8 (malformed sequences replaced).
pub fn decode_hex(value: &str) -> (r: String)
    ensures
        r@ == decode_hex_spec(value@),
{
    let bs = value.as_bytes();
    let out = decode_hex_bytes(bs);
    lossy_string(out.as_slice())
}

/// The trimmed, non-empty lines of `ls`, in order.
pub open spec fn nonempty_trimmed(ls: Seq<Seq<char>>) -> Seq<Seq<char>>
    decreases ls.len(),
{
    if ls.len() == 0 {
        seq![]
    } else {
        let prev = nonempty_trimmed(ls.drop_last());
        let t = trim(ls.last());
        if t.len() > 0 {
            prev.push(t)
        } else {
            prev
        }
    }
}

/// The rule lines of a Direct / Proxy / Block list.
pub open spec fn split_lines_spec(s: Seq<char>) -> Seq<Seq<char>> {
    nonempty_trimmed(lines(s))
}

pub open spec fn strings_view(v: Seq<String>) -> Seq<Seq<char>> {
    v.map_values(|s: String| s@)
}

fn split_lines_chars(s: &[char]) -> (r: Vec<String>)
    ensures
        strings_view(r@) == split_lines_spec(s@),
{
    let lb = line_bounds(s);
    let ghost ls = lines(s@);
    let mut out: Vec<String> = Vec::new();
    let mut k: usize = 0;
    assert(ls.take(0) =~= Seq::<Seq<char>>::empty());
    assert(strings_view(out@) =~= Seq::<Seq<char>>::empty());
    while k < lb.len()
        invariant
            k <= lb@.len() == ls.len(),
            ls == lines(s@),
            crate::text::ranges_within(lb@, s@.len()),
            pieces(s@, lb@) == ls,
            strings_view(out@) == nonempty_trimmed(ls.take(k as int)),
        decreases lb@.len() - k,
    {
        let (a, b) = lb[k];
        assert(s@.subrange(a as int, b as int) == ls[k as int]);
        assert(ls.take(k + 1).drop_last() =~= ls.take(k as int));
        let t = trim_chars(vstd::slice::slice_subrange(s, a, b));
        if t.len() > 0 {
            let st = string_of(t);
            out.push(st);
            assert(strings_view(out@) =~= strings_view(out@.drop_last()).push(st@));
        }
        k = k + 1;
    }
    assert(ls.take(k as int) =~= ls);
    out
}

/// Splits a stored rule list into its trimmed, non-empty lines.
pub fn split_lines(value: String) -> (r: Vec<String>)
    ensures
        strings_view(r@) == split_lines_spec(value@),
{
    let c = chars_of(value.as_str());
    split_lines_chars(c.as_slice())
}

/// Text with every `'` doubled, for a single-quoted SQL literal.
pub open spec fn sql_quote_spec(s: Seq<char>) -> Seq<char>
    decreases s.len(),
{
    if s.len() == 0 {
        seq![]
    } else {
        sql_quote_spec(s.drop_last()) + (if s.last() == '\'' {
            seq!['\'', '\'']
        } else {
            seq![s.last()]
        })
    }
}

fn push_quoted(out: &mut Vec<char>, s: &[char])
    ensures
        final(out)@ == old(out)@ + sql_quote_spec(s@),
{
    let mut i: usize = 0;
    assert(s@.take(0) =~= Seq::<char>::empty());
    while i < s.len()
        invariant
            i <= s@.len(),
            out@ == old(out)@ + sql_quote_spec(s@.take(i as int)),
        decreases s@.len() - i,
    {
        assert(s@.take(i + 1).drop_last() =~= s@.take(i as int));
        if s[i] == '\'' {
            out.push('\'');
            out.push('\'');
        } else {
            out.push(s[i]);
        }
        assert(out@ =~= old(out)@ + sql_quote_spec(s@.take(i + 1)));
        i = i + 1;
    }
    assert(s@.take(i as int) =~= s@);
}

/// Doubles every `'` so that the text can stand in a single-quoted SQL literal.
pub fn sql_quote(value: &str) -> (r: String)
    ensures
        r@ == sql_quote_spec(value@),
{
    let c = chars_of(value);
    let mut out: Vec<char> = Vec::new();
    push_quoted(&mut out, c.as_slice());
    assert(out@ =~= sql_quote_spec(value@));
    string_of(out.as_slice())
}

/// A persisted V2rayU routing profile.
pub struct RoutingProfile {
    pub uuid: String,
    pub name: String,
    pub remark: String,
    pub domain_strategy: String,
    pub domain_matcher: String,
    pub block: Vec<String>,
    pub proxy: Vec<String>,
    pub direct: Vec<String>,
    pub sort: i64,
    /// Whether this is the profile that V2rayU runs.
    pub active: bool,
}

pub struct ProfileView {
    pub uuid: Seq<char>,
    pub name: Seq<char>,
    pub remark: Seq<char>,
    pub domain_strategy: Seq<char>,
    pub domain_matcher: Seq<char>,
    pub block: Seq<Seq<char>>,
    pub proxy: Seq<Seq<char>>,
    pub direct: Seq<Seq<char>>,
    pub sort: i64,
    pub active: bool,
}

impl View for RoutingProfile {
    type V = ProfileView;

    open spec fn view(&self) -> ProfileView {
        ProfileView {
            uuid: self.uuid@,
            name: self.name@,
            remark: self.remark@,
            domain_strategy: self.domain_strategy@,
            domain_matcher: self.domain_matcher@,
            block: strings_view(self.block@),
            proxy: strings_view(self.proxy@),
            direct: strings_view(self.direct@),
            sort: self.sort,
            active: self.active,
        }
    }
}

/// The query whose output `list_routing_profiles` reads (`sqlite3 -separator
/// '|'`): every text column hex-encoded, ordered by `sort`, then `rowid`.
pub fn routing_list_sql() -> (r: &'static str)
    ensures
        r@ == "SELECT hex(uuid),hex(name),hex(remark),hex(domainStrategy),hex(domainMatcher),hex(block),hex(proxy),hex(direct),sort FROM routing ORDER BY sort,rowid;"@,
{
    "SELECT hex(uuid),hex(name),hex(remark),hex(domainStrategy),hex(domainMatcher),hex(block),hex(proxy),hex(direct),sort FROM routing ORDER BY sort,rowid;"
}

/// The value of a `sort` column: the `i64` it writes, or 0.
pub open spec fn sort_or_zero(s: Seq<char>) -> i64 {
    match crate::text::parse_i64(s) {
        Some(v) => v as i64,
        None => 0,
    }
}

/// The profile of one output row: nine `|`-separated columns, the first
/// eight hex-encoded, the rule lists split into lines; `active` is the UUID
/// that V2rayU runs.
pub open spec fn profile_row(row: Seq<char>, active: Seq<char>) -> Option<ProfileView> {
    let c = crate::text::split_char(row, '|');
    if c.len() != 9 {
        None
    } else {
        let uuid = decode_hex_spec(c[0]);
        Some(
            ProfileView {
                uuid,
                name: decode_hex_spec(c[1]),
                remark: decode_hex_spec(c[2]),
                domain_strategy: decode_hex_spec(c[3]),
                domain_matcher: decode_hex_spec(c[4]),
                block: split_lines_spec(decode_hex_spec(c[5])),
                proxy: split_lines_spec(decode_hex_spec(c[6])),
                direct: split_lines_spec(decode_hex_spec(c[7])),
                sort: sort_or_zero(c[8]),
                active: uuid == active,
            },
        )
    }
}

/// The profiles of the rows in `ls` that read as profiles, in order.
pub open spec fn collect_profiles(ls: Seq<Seq<char>>, active: Seq<char>) -> Seq<ProfileView>
    decreases ls.len(),
{
    if ls.len() == 0 {
        seq![]
    } else {
        let prev = collect_profiles(ls.drop_last(), active);
        match profile_row(ls.last(), active) {
            Some(p) => prev.push(p),
            None => prev,
        }
    }
}

pub open spec fn profiles_view(v: Seq<RoutingProfile>) -> Seq<ProfileView> {
    v.map_values(|p: RoutingProfile| p@)
}

fn decode_column(raw: &str, a: usize, b: usize) -> (r: String)
    requires
        a <= b <= raw@.len(),
    ensures
        r@ == decode_hex_spec(raw@.subrange(a as int, b as int)),
{
    let col = raw.substring_char(a, b);
    decode_hex(col)
}

fn lines_column(raw: &str, a: usize, b: usize) -> (r: Vec<String>)
    requires
        a <= b <= raw@.len(),
    ensures
        strings_view(r@) == split_lines_spec(decode_hex_spec(raw@.subrange(a as int, b as int))),
{
    split_lines(decode_column(raw, a, b))
}

fn profile_row_exec(raw: &str, s: &[char], a: usize, b: usize, active: &str) -> (r: Option<
    RoutingProfile,
>)
    requires
        s@ == raw@,
        a <= b <= s@.len(),
    ensures
        match r {
            Some(p) => profile_row(s@.subrange(a as int, b as int), active@) == Some(p@),
            None => profile_row(s@.subrange(a as int, b as int), active@) is None,
        },
{
    let line = vstd::slice::slice_subrange(s, a, b);
    let sb = crate::text::split_bounds(line, '|');
    let ghost c = crate::text::split_char(line@, '|');
    assert(sb@.len() == c.len());
    if sb.len() != 9 {
        return None;
    }
    assert forall|j: int| 0 <= j < 9 implies raw@.subrange(a + sb@[j].0, a + sb@[j].1) == #[trigger] c[j] by {
        assert(line@.subrange(sb@[j].0 as int, sb@[j].1 as int) == c[j]);
        assert(raw@.subrange(a + sb@[j].0, a + sb@[j].1) =~= line@.subrange(sb@[j].0 as int, sb@[j].1 as int));
    }
    let uuid = decode_column(raw, a + sb[0].0, a + sb[0].1);
    let name = decode_column(raw, a + sb[1].0, a + sb[1].1);
    let remark = decode_column(raw, a + sb[2].0, a + sb[2].1);
    let domain_strategy = decode_column(raw, a + sb[3].0, a + sb[3].1);
    let domain_matcher = decode_column(raw, a + sb[4].0, a + sb[4].1);
    let block = lines_column(raw, a + sb[5].0, a + sb[5].1);
    let proxy = lines_column(raw, a + sb[6].0, a + sb[6].1);
    let direct = lines_column(raw, a + sb[7].0, a + sb[7].1);
    let sort = match crate::text::parse_i64_chars(
        vstd::slice::slice_subrange(line, sb[8].0, sb[8].1),
    ) {
        Some(v) => v,
        None => 0,
    };
    let active_now = uuid == active.to_string();
    Some(
        RoutingProfile {
            uuid,
            name,
            remark,
            domain_strategy,
            domain_matcher,
            block,
            proxy,
            direct,
            sort,
            active: active_now,
        },
    )
}

/// Reads the profiles from the output of `routing_list_sql()`; rows that do
/// not have nine columns are skipped. `active` is the UUID that V2rayU runs.
pub fn list_routing_profiles(raw: &str, active: &str) -> (r: Vec<RoutingProfile>)
    ensures
        profiles_view(r@) == collect_profiles(lines(raw@), active@),
{
    let chars = chars_of(raw);
    let s = chars.as_slice();
    let lb = line_bounds(s);
    let ghost ls = lines(s@);
    let mut out: Vec<RoutingProfile> = Vec::new();
    let mut k: usize = 0;
    assert(ls.take(0) =~= Seq::<Seq<char>>::empty());
    assert(profiles_view(out@) =~= Seq::<ProfileView>::empty());
    while k < lb.len()
        invariant
            k <= lb@.len() == ls.len(),
            s@ == raw@,
            ls == lines(s@),
            crate::text::ranges_within(lb@, s@.len()),
            pieces(s@, lb@) == ls,
            profiles_view(out@) == collect_profiles(ls.take(k as int), active@),
        decreases lb@.len() - k,
    {
        let (a, b) = lb[k];
        assert(s@.subrange(a as int, b as int) == ls[k as int]);
        assert(ls.take(k + 1).drop_last() =~= ls.take(k as int));
        match profile_row_exec(raw, s, a, b, active) {
            Some(p) => {
                out.push(p);
                assert(profiles_view(out@) =~= profiles_view(out@.drop_last()).push(out@.last()@));
            },
            None => {},
        }
        k = k + 1;
    }
    assert(ls.take(k as int) =~= ls);
    out
}

fn push_lit(out: &mut Vec<char>, lit: &str)
    ensures
        final(out)@ == old(out)@ + lit@,
{
    let c = chars_of(lit);
    push_all(out, c.as_slice());
}

fn push_quoted_str(out: &mut Vec<char>, s: &str)
    ensures
        final(out)@ == old(out)@ + sql_quote_spec(s@),
{
    let c = chars_of(s);
    push_quoted(out, c.as_slice());
}

/// The rule lines joined with `\n`, as V2rayU stores a list.
pub open spec fn join_lines(v: Seq<Seq<char>>) -> Seq<char>
    decreases v.len(),
{
    if v.len() == 0 {
        seq![]
    } else if v.len() == 1 {
        v[0]
    } else {
        join_lines(v.drop_last()) + seq!['\n'] + v.last()
    }
}

fn joined(v: &Vec<String>) -> (r: Vec<char>)
    ensures
        r@ == join_lines(strings_view(v@)),
{
    let mut out: Vec<char> = Vec::new();
    let mut i: usize = 0;
    assert(strings_view(v@).take(0) =~= Seq::<Seq<char>>::empty());
    while i < v.len()
        invariant
            i <= v@.len(),
            out@ == join_lines(strings_view(v@).take(i as int)),
        decreases v@.len() - i,
    {
        let ghost t = strings_view(v@).take(i + 1);
        assert(t.drop_last() =~= strings_view(v@).take(i as int));
        assert(t.last() == v@[i as int]@);
        if i > 0 {
            out.push('\n');
        }
        let c = chars_of(v[i].as_str());
        push_all(&mut out, c.as_slice());
        proof {
            if i == 0 {
                assert(out@ =~= t[0]);
            } else {
                assert(out@ =~= join_lines(t.drop_last()) + seq!['\n'] + t.last());
            }
        }
        i = i + 1;
    }
    assert(strings_view(v@).take(i as int) =~= strings_view(v@));
    out
}

/// The SQL that saves a profile's fields under its UUID and then prints the
/// number of rows it changed.
pub open spec fn update_sql_spec(p: ProfileView) -> Seq<char> {
    "UPDATE routing SET name='"@ + sql_quote_spec(p.name) + "',remark='"@ + sql_quote_spec(p.remark)
        + "',domainStrategy='"@ + sql_quote_spec(p.domain_strategy) + "',domainMatcher='"@
        + sql_quote_spec(p.domain_matcher) + "',block='"@ + sql_quote_spec(join_lines(p.block))
        + "',proxy='"@ + sql_quote_spec(join_lines(p.proxy)) + "',direct='"@ + sql_quote_spec(
        join_lines(p.direct),
    ) + "' WHERE uuid='"@ + sql_quote_spec(p.uuid) + "'; SELECT changes();"@
}

/// The SQL that saves `profile` (see `update_sql_spec`); it is built only
/// once a backup of the routing database was taken.
pub fn update_routing_sql(profile: &RoutingProfile, _backup: &crate::paths::BackupTaken) -> (r: String)
    ensures
        r@ == update_sql_spec(profile@),
{
    let mut out: Vec<char> = Vec::new();
    push_lit(&mut out, "UPDATE routing SET name='");
    push_quoted_str(&mut out, profile.name.as_str());
    push_lit(&mut out, "',remark='");
    push_quoted_str(&mut out, profile.remark.as_str());
    push_lit(&mut out, "',domainStrategy='");
    push_quoted_str(&mut out, profile.domain_strategy.as_str());
    push_lit(&mut out, "',domainMatcher='");
    push_quoted_str(&mut out, profile.domain_matcher.as_str());
    push_lit(&mut out, "',block='");
    let b = joined(&profile.block);
    push_quoted(&mut out, b.as_slice());
    push_lit(&mut out, "',proxy='");
    let p = joined(&profile.proxy);
    push_quoted(&mut out, p.as_slice());
    push_lit(&mut out, "',direct='");
    let d = joined(&profile.direct);
    push_quoted(&mut out, d.as_slice());
    push_lit(&mut out, "' WHERE uuid='");
    push_quoted_str(&mut out, profile.uuid.as_str());
    push_lit(&mut out, "'; SELECT changes();");
    assert(out@ =~= update_sql_spec(profile@));
    string_of(out.as_slice())
}

/// The statement printed `1` as its last line: exactly one row changed.
pub open spec fn one_row_changed(output: Seq<char>) -> bool {
    let ls = lines(output);
    ls.len() > 0 && trim(ls.last()) == "1"@
}

fn one_row_changed_exec(output: &str) -> (r: bool)
    ensures
        r == one_row_changed(output@),
{
    let c = chars_of(output);
    let s = c.as_slice();
    let lb = line_bounds(s);
    if lb.len() == 0 {
        return false;
    }
    let (a, b) = lb[lb.len() - 1];
    assert(s@.subrange(a as int, b as int) == lines(s@).last());
    let t = trim_chars(vstd::slice::slice_subrange(s, a, b));
    let one = chars_of("1");
    crate::text::chars_eq(t, one.as_slice())
}

/// What remains after the update of a saved profile ran.
pub struct SavePlan {
    /// `defaults write` of `runningRouting` where the profile becomes the
    /// running one; V2rayU then restarts.
    pub activation: Option<crate::commands::CommandLine>,
    /// The answer once all has run.
    pub message: String,
}

/// `Saved <remark, or name where the remark is empty> · backup <backup>`.
pub open spec fn saved_message(p: ProfileView, backup: Seq<char>) -> Seq<char> {
    "Saved "@ + (if p.remark.len() == 0 {
        p.name
    } else {
        p.remark
    }) + " · backup "@ + backup
}

pub open spec fn running_routing_write(uuid: Seq<char>) -> (Seq<char>, Seq<Seq<char>>) {
    (
        "defaults"@,
        seq![
            "write"@,
            crate::commands::V2RAYU_DOMAIN@,
            "runningRouting"@,
            "-string"@,
            uuid,
        ],
    )
}

/// Decides a save once `update_routing_sql` ran: where its output does not
/// end in one changed row the profile was not saved; else the profile is
/// made the running one where `activate` asks or it already was.
pub fn save_routing_profile(
    profile: &RoutingProfile,
    activate: bool,
    backup: &crate::paths::BackupTaken,
    output: &str,
) -> (r: Result<SavePlan, String>)
    ensures
        one_row_changed(output@) <==> r is Ok,
        r matches Err(e) ==> e@ == "routing profile was not updated"@,
        r matches Ok(plan) ==> {
            &&& plan.message@ == saved_message(profile@, backup.backup())
            &&& ((activate || profile.active) <==> plan.activation is Some)
            &&& plan.activation matches Some(c) ==> c@ == running_routing_write(profile.uuid@)
        },
{
    if !one_row_changed_exec(output) {
        return Err("routing profile was not updated".to_string());
    }
    let activation = if activate || profile.active {
        Some(crate::commands::defaults_write_string("runningRouting", profile.uuid.as_str()))
    } else {
        None
    };
    let mut m: Vec<char> = Vec::new();
    push_lit(&mut m, "Saved ");
    if profile.remark.unicode_len() == 0 {
        push_lit(&mut m, profile.name.as_str());
    } else {
        push_lit(&mut m, profile.remark.as_str());
    }
    push_lit(&mut m, " · backup ");
    push_lit(&mut m, backup.path());
    assert(m@ =~= saved_message(profile@, backup.backup()));
    Ok(SavePlan { activation, message: string_of(m.as_slice()) })
}

/// The SQL that deletes the profile with `uuid` and prints the number of
/// rows it changed.
pub open spec fn delete_sql_spec(uuid: Seq<char>) -> Seq<char> {
    "DELETE FROM routing WHERE uuid='"@ + sql_quote_spec(uuid) + "'; SELECT changes();"@
}

/// Refuses to delete the running profile (`active` is the UUID that V2rayU
/// runs); otherwise the delete may go on: a backup is taken, then
/// `delete_sql` runs.
pub fn delete_routing_profile(uuid: &str, active: &str) -> (r: Result<(), String>)
    ensures
        uuid@ == active@ <==> r is Err,
        r matches Err(e) ==> e@
            == "The active routing profile cannot be deleted. Activate another profile first."@,
{
    let u = chars_of(uuid);
    let a = chars_of(active);
    if crate::text::chars_eq(u.as_slice(), a.as_slice()) {
        return Err(
            "The active routing profile cannot be deleted. Activate another profile first.".to_string(),
        );
    }
    Ok(())
}

/// The SQL that deletes the profile with `uuid` (see `delete_sql_spec`); it
/// is built only once a backup of the routing database was taken.
pub fn delete_sql(uuid: &str, _backup: &crate::paths::BackupTaken) -> (r: String)
    ensures
        r@ == delete_sql_spec(uuid@),
{
    let u = chars_of(uuid);
    let mut out: Vec<char> = Vec::new();
    push_lit(&mut out, "DELETE FROM routing WHERE uuid='");
    push_quoted(&mut out, u.as_slice());
    push_lit(&mut out, "'; SELECT changes();");
    assert(out@ =~= delete_sql_spec(uuid@));
    string_of(out.as_slice())
}

/// Decides a delete once its SQL ran: one changed row means deleted.
pub fn routing_deleted(output: &str, backup: &crate::paths::BackupTaken) -> (r: Result<String, String>)
    ensures
        one_row_changed(output@) <==> r is Ok,
        r matches Ok(m) ==> m@ == "Deleted routing · backup "@ + backup.backup(),
        r matches Err(e) ==> e@ == "routing profile was not deleted"@,
{
    if !one_row_changed_exec(output) {
        return Err("routing profile was not deleted".to_string());
    }
    let mut m: Vec<char> = Vec::new();
    push_lit(&mut m, "Deleted routing · backup ");
    push_lit(&mut m, backup.path());
    Ok(string_of(m.as_slice()))
}

/// The title of a new profile: the trimmed name, or `New routing`.
pub open spec fn title_spec(name: Seq<char>) -> Seq<char> {
    if trim(name).len() == 0 {
        "New routing"@
    } else {
        trim(name)
    }
}

/// The `sort` of a new profile from the output of `next_sort_sql()`: the
/// number it prints, or 1.
pub open spec fn next_sort_spec(output: Seq<char>) -> i64 {
    match crate::text::parse_i64(trim(output)) {
        Some(v) => v as i64,
        None => 1,
    }
}

/// The query that prints the `sort` for a new profile.
pub fn next_sort_sql() -> (r: &'static str)
    ensures
        r@ == "SELECT COALESCE(MAX(sort),0)+1 FROM routing;"@,
{
    "SELECT COALESCE(MAX(sort),0)+1 FROM routing;"
}

/// The UUID of a profile created at `millis` since the Unix epoch.
pub open spec fn new_uuid_spec(millis: u128) -> Seq<char> {
    "v2proxyshell-"@ + crate::text::decimal(millis as nat)
}

/// The SQL that inserts a new, empty profile.
pub open spec fn insert_sql_spec(uuid: Seq<char>, title: Seq<char>, sort: i64) -> Seq<char> {
    "INSERT INTO routing(uuid,name,remark,domainStrategy,domainMatcher,block,proxy,direct,sort) VALUES('"@
        + sql_quote_spec(uuid) + "','"@ + sql_quote_spec(title) + "','"@ + sql_quote_spec(title)
        + "','AsIs','hybrid','','','',"@ + crate::text::signed_decimal(sort as int) + ");"@
}

/// A profile to create: its UUID and the SQL that inserts it.
pub struct CreatePlan {
    pub uuid: String,
    pub sql: String,
}

/// Plans a new profile named `name` (trimmed; `New routing` where empty)
/// with `AsIs` strategy, `hybrid` matcher, empty lists, the UUID of `millis`
/// and the `sort` that `next_sort_sql()` printed (1 where it printed none);
/// it is planned only once a backup of the routing database was taken.
pub fn create_routing_profile(
    name: &str,
    millis: u128,
    sort_output: &str,
    _backup: &crate::paths::BackupTaken,
) -> (r: CreatePlan)
    ensures
        r.uuid@ == new_uuid_spec(millis),
        r.sql@ == insert_sql_spec(new_uuid_spec(millis), title_spec(name@), next_sort_spec(sort_output@)),
{
    let mut u = chars_of("v2proxyshell-");
    crate::text::push_decimal(&mut u, millis);
    let nc = chars_of(name);
    let t = trim_chars(nc.as_slice());
    let title: Vec<char> = if t.len() == 0 {
        chars_of("New routing")
    } else {
        vstd::slice::slice_to_vec(t)
    };
    let oc = chars_of(sort_output);
    let sort: i64 = match crate::text::parse_i64_chars(trim_chars(oc.as_slice())) {
        Some(v) => v,
        None => 1,
    };
    let mut out: Vec<char> = Vec::new();
    push_lit(&mut out, "INSERT INTO routing(uuid,name,remark,domainStrategy,domainMatcher,block,proxy,direct,sort) VALUES('");
    push_quoted(&mut out, u.as_slice());
    push_lit(&mut out, "','");
    push_quoted(&mut out, title.as_slice());
    push_lit(&mut out, "','");
    push_quoted(&mut out, title.as_slice());
    push_lit(&mut out, "','AsIs','hybrid','','','',");
    crate::text::push_signed_decimal(&mut out, sort);
    push_lit(&mut out, ");");
    assert(out@ =~= insert_sql_spec(new_uuid_spec(millis), title_spec(name@), next_sort_spec(sort_output@)));
    CreatePlan { uuid: string_of(u.as_slice()), sql: string_of(out.as_slice()) }
}

/// The answer to a create: `<uuid>|<backup path>`.
pub fn created_message(uuid: &str, backup: &crate::paths::BackupTaken) -> (r: String)
    ensures
        r@ == uuid@ + "|"@ + backup.backup(),
{
    let mut m = chars_of(uuid);
    push_lit(&mut m, "|");
    push_lit(&mut m, backup.path());
    string_of(m.as_slice())
}

/// Whether `sqlite3` printed a line `routing` for the query `routing_table_sql()`.
pub open spec fn is_routing_db_spec(output: Seq<char>) -> bool {
    exists|k: int| 0 <= k < lines(output).len() && trim(#[trigger] lines(output)[k]) == "routing"@
}

/// The query that lists a table named `routing`.
pub fn routing_table_sql() -> (r: &'static str)
    ensures
        r@ == "SELECT name FROM sqlite_master WHERE type='table' AND name='routing';"@,
{
    "SELECT name FROM sqlite_master WHERE type='table' AND name='routing';"
}

/// Whether the output of `routing_table_sql()` shows a `routing` table.
pub fn is_routing_db(output: &str) -> (r: bool)
    ensures
        r == is_routing_db_spec(output@),
{
    let c = chars_of(output);
    let s = c.as_slice();
    let lb = line_bounds(s);
    let routing = chars_of("routing");
    let mut k: usize = 0;
    while k < lb.len()
        invariant
            k <= lb@.len() == lines(s@).len(),
            s@ == output@,
            routing@ == "routing"@,
            crate::text::ranges_within(lb@, s@.len()),
            pieces(s@, lb@) == lines(s@),
            forall|j: int| 0 <= j < k ==> trim(#[trigger] lines(s@)[j]) != "routing"@,
        decreases lb@.len() - k,
    {
        let (a, b) = lb[k];
        assert(s@.subrange(a as int, b as int) == lines(s@)[k as int]);
        let t = trim_chars(vstd::slice::slice_subrange(s, a, b));
        if crate::text::chars_eq(t, routing.as_slice()) {
            return true;
        }
        k = k + 1;
    }
    false
}

} // verus!
