use v2proxy_shell::commands::{
    command_output, control_v2rayu, defaults_read, defaults_read_bool, defaults_read_command,
    defaults_write_bool, defaults_write_string, detect_proxy_mode, needs_scutil, output_lossy,
    set_proxy_mode,
};
use v2proxy_shell::paths::{config_path, is_candidate_db_name, join_path, routing_db_roots};
use v2proxy_shell::status::{get_status, now_ms};

#[test]
fn defaults_commands() {
    let r = defaults_read_command("runMode");
    assert_eq!(r.program, "defaults");
    assert_eq!(r.args, vec!["read", "net.yanue.V2rayU", "runMode"]);
    let w = defaults_write_string("runMode", "pac");
    assert_eq!(w.args, vec!["write", "net.yanue.V2rayU", "runMode", "-string", "pac"]);
    let b = defaults_write_bool("v2rayTurnOn", false);
    assert_eq!(b.args, vec!["write", "net.yanue.V2rayU", "v2rayTurnOn", "-bool", "false"]);
    assert_eq!(defaults_write_bool("k", true).args[4], "true");
}

#[test]
fn defaults_values() {
    assert_eq!(defaults_read("  global\n"), "global");
    assert!(defaults_read_bool("1\n"));
    assert!(defaults_read_bool("TRUE"));
    assert!(defaults_read_bool(" Yes "));
    assert!(!defaults_read_bool("0"));
    assert!(!defaults_read_bool(""));
}

#[test]
fn command_outcomes() {
    assert_eq!(command_output("p", true, "exit status: 0", "out".to_string(), "err"), Ok("out".to_string()));
    assert_eq!(command_output("p", false, "exit status: 1", String::new(), " bad \n"), Err("bad".to_string()));
    assert_eq!(
        command_output("sqlite3", false, "exit status: 2", String::new(), "  "),
        Err("sqlite3 exited with exit status: 2".to_string())
    );
    assert_eq!(output_lossy(Ok("x".to_string())), "x");
    assert_eq!(output_lossy(Err("e".to_string())), "");
}

#[test]
fn proxy_mode_detection() {
    assert_eq!(detect_proxy_mode("pac", "HTTPEnable : 1"), "pac");
    assert_eq!(detect_proxy_mode("", "<dictionary> {\n  HTTPEnable : 1\n}"), "global");
    assert_eq!(detect_proxy_mode("", "SOCKSEnable : 1"), "global");
    assert_eq!(detect_proxy_mode("", "HTTPSEnable : 1"), "global");
    assert_eq!(detect_proxy_mode("", "HTTPEnable : 0"), "manual");
}

#[test]
fn proxy_mode_setting() {
    assert_eq!(set_proxy_mode("PAC"), Ok("pac".to_string()));
    assert_eq!(set_proxy_mode("Tun"), Ok("tun".to_string()));
    assert_eq!(set_proxy_mode("global"), Ok("global".to_string()));
    assert_eq!(set_proxy_mode("Manual"), Ok("manual".to_string()));
    assert_eq!(set_proxy_mode("direct"), Err("unsupported proxy mode: direct".to_string()));
    let once = set_proxy_mode("GLOBAL").unwrap();
    assert_eq!(set_proxy_mode(&once), Ok(once.clone()));
}

#[test]
fn control_actions() {
    assert_eq!(control_v2rayu("start").ok().unwrap().core_enabled, Some(true));
    assert_eq!(control_v2rayu("stop").ok().unwrap().core_enabled, Some(false));
    assert_eq!(control_v2rayu("restart").ok().unwrap().core_enabled, None);
    assert_eq!(control_v2rayu("Start").err().unwrap(), "unsupported action: Start");
}

#[test]
fn paths() {
    assert_eq!(join_path("/Users/me", ".V2rayU"), "/Users/me/.V2rayU");
    assert_eq!(join_path("/Users/me/", "x"), "/Users/me/x");
    assert_eq!(join_path("", "x"), "x");
    assert_eq!(config_path(Some("/Users/me".to_string())), Ok("/Users/me/.V2rayU/config.json".to_string()));
    assert_eq!(config_path(None), Err("HOME is unavailable".to_string()));
    assert_eq!(
        routing_db_roots("/h"),
        vec![
            "/h/.V2rayU".to_string(),
            "/h/Library/Application Support/V2rayU".to_string(),
            "/h/Library/Application Support/net.yanue.V2rayU".to_string()
        ]
    );
}

#[test]
fn candidate_names() {
    assert!(is_candidate_db_name("Data.DB"));
    assert!(is_candidate_db_name("x.sqlite"));
    assert!(is_candidate_db_name("x.SQLITE3"));
    assert!(is_candidate_db_name("V2rayU.store"));
    assert!(!is_candidate_db_name("config.json"));
    assert!(!is_candidate_db_name("x.db-wal"));
}

#[test]
fn status_assembly() {
    let s = get_status(true, false, "/c".to_string(), None, " u-1 \n", "\n", "HTTPEnable : 1", "1\n");
    assert!(s.v2rayu_running);
    assert!(!s.xray_running);
    assert_eq!(s.active_routing_uuid, "u-1");
    assert_eq!(s.proxy_mode, "global");
    assert!(s.core_enabled);
    assert_eq!(s.routing_db_path, None);
}

#[test]
fn clock_reads_after_epoch() {
    assert!(now_ms() > 1_600_000_000_000);
}

#[test]
fn scutil_only_without_persisted_mode() {
    assert!(needs_scutil(""));
    assert!(!needs_scutil("pac"));
    assert_eq!(detect_proxy_mode("pac", "HTTPEnable : 1"), "pac");
}

#[test]
fn defaults_values_read_back() {
    assert!(defaults_read_bool("1\n"));
    assert!(!defaults_read_bool("0\n"));
    assert!(defaults_read_bool("true\n"));
    assert!(!defaults_read_bool("false\n"));
    assert_eq!(defaults_read(" rule-1 \n"), "rule-1");
}
