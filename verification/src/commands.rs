//! The command lines that talk to V2rayU's `defaults` domain, and the
//! decisions made on what the commands print.
use vstd::prelude::*;
use crate::text::{
    chars_of, contains_chars, contains_seq, lower_seq, push_all, string_of, to_lower, trim,
    trim_chars,
};

verus! {

broadcast use vstd::string::group_string_axioms;

/// The `defaults` domain under which V2rayU keeps its settings.
pub const V2RAYU_DOMAIN: &'static str = "net.yanue.V2rayU";

/// A program to run and its arguments.
pub struct CommandLine {
    pub program: String,
    pub args: Vec<String>,
}

pub open spec fn strings_view(v: Seq<String>) -> Seq<Seq<char>> {
    v.map_values(|s: String| s@)
}

impl View for CommandLine {
    type V = (Seq<char>, Seq<Seq<char>>);

    open spec fn view(&self) -> (Seq<char>, Seq<Seq<char>>) {
        (self.program@, strings_view(self.args@))
    }
}

fn owned(s: &str) -> (r: String)
    ensures
        r@ == s@,
{
    s.to_string()
}

/// `defaults read net.yanue.V2rayU <key>`.
pub fn defaults_read_command(key: &str) -> (r: CommandLine)
    ensures
        r@ == ("defaults"@, seq!["read"@, V2RAYU_DOMAIN@, key@]),
{
    let args = vec![owned("read"), owned(V2RAYU_DOMAIN), owned(key)];
    let r = CommandLine { program: owned("defaults"), args };
    assert(strings_view(r.args@) =~= seq!["read"@, V2RAYU_DOMAIN@, key@]);
    r
}

/// The value that `defaults read` printed: its output, trimmed.
pub fn defaults_read(raw: &str) -> (r: String)
    ensures
        r@ == trim(raw@),
{
    let c = chars_of(raw);
    string_of(trim_chars(c.as_slice()))
}

/// `defaults write net.yanue.V2rayU <key> -string <value>`.
pub fn defaults_write_string(key: &str, value: &str) -> (r: CommandLine)
    ensures
        r@ == ("defaults"@, seq!["write"@, V2RAYU_DOMAIN@, key@, "-string"@, value@]),
{
    let args = vec![owned("write"), owned(V2RAYU_DOMAIN), owned(key), owned("-string"), owned(value)];
    let r = CommandLine { program: owned("defaults"), args };
    assert(strings_view(r.args@) =~= seq!["write"@, V2RAYU_DOMAIN@, key@, "-string"@, value@]);
    r
}

pub open spec fn bool_text(value: bool) -> Seq<char> {
    if value {
        "true"@
    } else {
        "false"@
    }
}

/// `defaults write net.yanue.V2rayU <key> -bool true|false`.
pub fn defaults_write_bool(key: &str, value: bool) -> (r: CommandLine)
    ensures
        r@ == ("defaults"@, seq!["write"@, V2RAYU_DOMAIN@, key@, "-bool"@, bool_text(value)]),
{
    let text = if value {
        owned("true")
    } else {
        owned("false")
    };
    let args = vec![owned("write"), owned(V2RAYU_DOMAIN), owned(key), owned("-bool"), text];
    let r = CommandLine { program: owned("defaults"), args };
    assert(strings_view(r.args@) =~= seq!["write"@, V2RAYU_DOMAIN@, key@, "-bool"@, bool_text(value)]);
    r
}

/// A `defaults` boolean as `defaults read` prints it: `1`, `true` or `yes`,
/// ignoring ASCII case and surrounding whitespace.
pub open spec fn defaults_bool_spec(raw: Seq<char>) -> bool {
    let v = lower_seq(trim(raw));
    v == "1"@ || v == "true"@ || v == "yes"@
}

fn eq_lit(a: &[char], lit: &str) -> (r: bool)
    ensures
        r == (a@ == lit@),
{
    let b = chars_of(lit);
    crate::text::chars_eq(a, b.as_slice())
}

/// Reads a `defaults` boolean from the output of `defaults read`.
pub fn defaults_read_bool(raw: &str) -> (r: bool)
    ensures
        r == defaults_bool_spec(raw@),
{
    let c = chars_of(raw);
    let v = to_lower(trim_chars(c.as_slice()));
    eq_lit(v.as_slice(), "1") || eq_lit(v.as_slice(), "true") || eq_lit(v.as_slice(), "yes")
}

/// The outcome of a finished command: its standard output where it
/// succeeded; else its trimmed standard error, or `<program> exited with
/// <status>` where that is empty.
pub open spec fn command_output_spec(
    program: Seq<char>,
    success: bool,
    status: Seq<char>,
    stdout: Seq<char>,
    stderr: Seq<char>,
) -> Result<Seq<char>, Seq<char>> {
    if success {
        Ok(stdout)
    } else if trim(stderr).len() == 0 {
        Err(program + " exited with "@ + status)
    } else {
        Err(trim(stderr))
    }
}

fn push_lit(out: &mut Vec<char>, lit: &str)
    ensures
        final(out)@ == old(out)@ + lit@,
{
    let c = chars_of(lit);
    push_all(out, c.as_slice());
}

/// Decides what a finished command gave: `status` is how the exit status
/// prints, `stdout` and `stderr` its output as text.
pub fn command_output(program: &str, success: bool, status: &str, stdout: String, stderr: &str) -> (r:
    Result<String, String>)
    ensures
        match r {
            Ok(s) => command_output_spec(program@, success, status@, stdout@, stderr@) == Ok::<
                Seq<char>,
                Seq<char>,
            >(s@),
            Err(e) => command_output_spec(program@, success, status@, stdout@, stderr@) == Err::<
                Seq<char>,
                Seq<char>,
            >(e@),
        },
{
    if success {
        return Ok(stdout);
    }
    let e = chars_of(stderr);
    let t = trim_chars(e.as_slice());
    if t.len() == 0 {
        let mut m = chars_of(program);
        push_lit(&mut m, " exited with ");
        push_lit(&mut m, status);
        assert(m@ =~= program@ + " exited with "@ + status@);
        Err(string_of(m.as_slice()))
    } else {
        Err(string_of(t))
    }
}

/// The output of a command, or empty text where it failed.
pub fn output_lossy(result: Result<String, String>) -> (r: String)
    ensures
        r@ == (match result {
            Ok(s) => s@,
            Err(_) => Seq::<char>::empty(),
        }),
{
    match result {
        Ok(s) => s,
        Err(_) => String::new(),
    }
}

/// The proxy mode: the persisted `runMode` where it is set; else `global`
/// where `scutil --proxy` shows an enabled HTTP, HTTPS or SOCKS proxy, and
/// `manual` otherwise.
pub open spec fn proxy_mode_spec(persisted: Seq<char>, scutil: Seq<char>) -> Seq<char> {
    if persisted.len() > 0 {
        persisted
    } else if contains_seq(scutil, "HTTPEnable : 1"@) || contains_seq(scutil, "HTTPSEnable : 1"@)
        || contains_seq(scutil, "SOCKSEnable : 1"@) {
        "global"@
    } else {
        "manual"@
    }
}

/// Whether detecting the proxy mode needs the output of `scutil --proxy`:
/// only where no `runMode` is persisted (`persisted` as `defaults_read`
/// gives it); otherwise the persisted mode is the answer, whatever `scutil`
/// prints.
pub fn needs_scutil(persisted: &str) -> (r: bool)
    ensures
        r == (persisted@.len() == 0),
        !r ==> forall|scutil: Seq<char>| #[trigger] proxy_mode_spec(persisted@, scutil) == persisted@,
{
    persisted.unicode_len() == 0
}

fn contains_lit(s: &[char], lit: &str) -> (r: bool)
    ensures
        r == contains_seq(s@, lit@),
{
    let p = chars_of(lit);
    contains_chars(s, p.as_slice())
}

/// Detects the proxy mode from the persisted `runMode` (as `defaults_read`
/// gives it) and the output of `scutil --proxy`.
pub fn detect_proxy_mode(persisted: &str, scutil: &str) -> (r: String)
    ensures
        r@ == proxy_mode_spec(persisted@, scutil@),
{
    if persisted.unicode_len() > 0 {
        return owned(persisted);
    }
    let c = chars_of(scutil);
    let s = c.as_slice();
    if contains_lit(s, "HTTPEnable : 1") || contains_lit(s, "HTTPSEnable : 1") || contains_lit(
        s,
        "SOCKSEnable : 1",
    ) {
        owned("global")
    } else {
        owned("manual")
    }
}

/// The modes that V2rayU runs in.
pub open spec fn is_supported_mode(m: Seq<char>) -> bool {
    m == "pac"@ || m == "manual"@ || m == "global"@ || m == "tun"@
}

/// A requested proxy mode, ASCII-lowercased, where it is one of `pac`,
/// `manual`, `global`, `tun`; else the error that names it.
pub open spec fn set_proxy_mode_spec(mode: Seq<char>) -> Result<Seq<char>, Seq<char>> {
    if is_supported_mode(lower_seq(mode)) {
        Ok(lower_seq(mode))
    } else {
        Err("unsupported proxy mode: "@ + mode)
    }
}

/// Checks and normalises a requested proxy mode. On `Ok` the caller writes
/// it as `runMode`, turns the core on and restarts V2rayU.
pub fn set_proxy_mode(mode: &str) -> (r: Result<String, String>)
    ensures
        match r {
            Ok(s) => set_proxy_mode_spec(mode@) == Ok::<Seq<char>, Seq<char>>(s@),
            Err(e) => set_proxy_mode_spec(mode@) == Err::<Seq<char>, Seq<char>>(e@),
        },
{
    let c = chars_of(mode);
    let n = to_lower(c.as_slice());
    let ns = n.as_slice();
    if eq_lit(ns, "pac") || eq_lit(ns, "manual") || eq_lit(ns, "global") || eq_lit(ns, "tun") {
        Ok(string_of(ns))
    } else {
        let mut m = chars_of("unsupported proxy mode: ");
        push_all(&mut m, c.as_slice());
        Err(string_of(m.as_slice()))
    }
}

/// What a runtime control action does before V2rayU restarts: `start` turns
/// the core on, `stop` turns it off, `restart` changes nothing.
pub struct ControlPlan {
    /// The value to write as `v2rayTurnOn`, if any.
    pub core_enabled: Option<bool>,
}

pub open spec fn control_spec(action: Seq<char>) -> Result<Option<bool>, Seq<char>> {
    if action == "start"@ {
        Ok(Some(true))
    } else if action == "stop"@ {
        Ok(Some(false))
    } else if action == "restart"@ {
        Ok(None)
    } else {
        Err("unsupported action: "@ + action)
    }
}

/// Decides a runtime control action (`start`, `stop`, `restart`); the caller
/// writes `v2rayTurnOn` as the plan says, restarts V2rayU and answers with
/// the action.
pub fn control_v2rayu(action: &str) -> (r: Result<ControlPlan, String>)
    ensures
        match r {
            Ok(p) => control_spec(action@) == Ok::<Option<bool>, Seq<char>>(p.core_enabled),
            Err(e) => control_spec(action@) == Err::<Option<bool>, Seq<char>>(e@),
        },
{
    let c = chars_of(action);
    let a = c.as_slice();
    if eq_lit(a, "start") {
        Ok(ControlPlan { core_enabled: Some(true) })
    } else if eq_lit(a, "stop") {
        Ok(ControlPlan { core_enabled: Some(false) })
    } else if eq_lit(a, "restart") {
        Ok(ControlPlan { core_enabled: None })
    } else {
        let mut m = chars_of("unsupported action: ");
        push_all(&mut m, a);
        Err(string_of(m.as_slice()))
    }
}

} // verus!
