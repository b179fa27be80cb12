//! The state of V2rayU and Xray that the UI shows, and the clock.
use vstd::prelude::*;
use crate::commands::{defaults_bool_spec, defaults_read, defaults_read_bool, detect_proxy_mode, proxy_mode_spec};
use crate::text::trim;

verus! {

/// The state of the V2rayU installation.
pub struct AppStatus {
    pub v2rayu_running: bool,
    pub xray_running: bool,
    pub config_path: String,
    pub routing_db_path: Option<String>,
    pub active_routing_uuid: String,
    pub proxy_mode: String,
    pub core_enabled: bool,
}

/// Puts the status together from what was read: whether the V2rayU app and
/// the Xray core run, the config path, the routing database (if found), and
/// the output of `defaults read` for `runningRouting`, `runMode` and
/// `v2rayTurnOn`, with that of `scutil --proxy`.
pub fn get_status(
    v2rayu_running: bool,
    xray_running: bool,
    config_path: String,
    routing_db_path: Option<String>,
    running_routing_output: &str,
    run_mode_output: &str,
    scutil_output: &str,
    turn_on_output: &str,
) -> (r: AppStatus)
    ensures
        r.v2rayu_running == v2rayu_running,
        r.xray_running == xray_running,
        r.config_path == config_path,
        r.routing_db_path == routing_db_path,
        r.active_routing_uuid@ == trim(running_routing_output@),
        r.proxy_mode@ == proxy_mode_spec(trim(run_mode_output@), scutil_output@),
        r.core_enabled == defaults_bool_spec(turn_on_output@),
{
    let active = defaults_read(running_routing_output);
    let persisted = defaults_read(run_mode_output);
    let mode = detect_proxy_mode(persisted.as_str(), scutil_output);
    AppStatus {
        v2rayu_running,
        xray_running,
        config_path,
        routing_db_path,
        active_routing_uuid: active,
        proxy_mode: mode,
        core_enabled: defaults_read_bool(turn_on_output),
    }
}

/// `SystemTime::now()` as milliseconds since the Unix epoch; `None` where
/// the clock reads earlier. Nothing is stated of the reading: it is the time.
#[verifier::external_body]
fn millis_since_epoch() -> Option<u128> {
    match std::time::SystemTime::now().duration_since(std::time::UNIX_EPOCH) {
        Ok(d) => Some(d.as_millis()),
        Err(_) => None,
    }
}

/// Milliseconds since the Unix epoch, 0 where the clock reads earlier.
pub fn now_ms() -> u128 {
    match millis_since_epoch() {
        Some(ms) => ms,
        None => 0,
    }
}

} // verus!
