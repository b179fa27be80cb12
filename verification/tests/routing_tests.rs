use v2proxy_shell::paths::BackupTaken;
use v2proxy_shell::routing::{
    create_routing_profile, created_message, decode_hex, delete_routing_profile, delete_sql,
    is_routing_db, list_routing_profiles, routing_deleted, save_routing_profile, split_lines,
    sql_quote, update_routing_sql, RoutingProfile,
};

fn taken(db: &str, stamp: u64) -> BackupTaken {
    BackupTaken::confirm(db, stamp, Ok(String::new())).ok().unwrap()
}

fn hex(s: &str) -> String {
    s.bytes().map(|b| format!("{:02X}", b)).collect()
}

fn profile(uuid: &str, name: &str, remark: &str, active: bool) -> RoutingProfile {
    RoutingProfile {
        uuid: uuid.to_string(),
        name: name.to_string(),
        remark: remark.to_string(),
        domain_strategy: "AsIs".to_string(),
        domain_matcher: "hybrid".to_string(),
        block: vec!["geosite:category-ads".to_string()],
        proxy: vec!["geosite:google".to_string(), "domain:openai.com".to_string()],
        direct: vec!["geoip:private".to_string()],
        sort: 2,
        active,
    }
}

#[test]
fn decode_hex_reads_sqlite_hex() {
    assert_eq!(decode_hex("414243"), "ABC");
    assert_eq!(decode_hex("e4bda0e5a5bd"), "你好");
    assert_eq!(decode_hex(""), "");
}

#[test]
fn decode_hex_drops_odd_and_bad_chunks() {
    assert_eq!(decode_hex("41zz42"), "AB");
    assert_eq!(decode_hex("414"), "A");
    assert_eq!(decode_hex("+A"), "\n");
}

#[test]
fn decode_hex_replaces_malformed_utf8() {
    assert_eq!(decode_hex("FF41"), "\u{FFFD}A");
}

#[test]
fn decode_hex_reads_back_hex_of_text() {
    let text = "geosite:cn\ndomain:例子.com";
    assert_eq!(decode_hex(&hex(text)), text);
}

#[test]
fn split_lines_trims_and_drops_empty() {
    assert_eq!(
        split_lines(" a \n\n b\r\n".to_string()),
        vec!["a".to_string(), "b".to_string()]
    );
    assert_eq!(split_lines(String::new()), Vec::<String>::new());
}

#[test]
fn split_lines_reads_back_joined_rules() {
    let rules = vec!["geoip:cn".to_string(), "domain:example.com".to_string()];
    assert_eq!(split_lines(rules.join("\n")), rules);
}

#[test]
fn sql_quote_doubles_quotes() {
    assert_eq!(sql_quote("it's"), "it''s");
    assert_eq!(sql_quote("''"), "''''");
    assert_eq!(sql_quote("plain"), "plain");
}

#[test]
fn list_reads_rows_and_marks_active() {
    let row1 = format!(
        "{}|{}|{}|{}|{}|{}|{}|{}|3",
        hex("u-1"),
        hex("Global"),
        hex(""),
        hex("AsIs"),
        hex("hybrid"),
        hex("geosite:category-ads\n"),
        hex("geosite:google\n domain:x.com "),
        hex(""),
    );
    let row2 = format!(
        "{}|{}|{}|{}|{}|{}|{}|{}|oops",
        hex("u-2"),
        hex("CN"),
        hex("China direct"),
        hex("IPIfNonMatch"),
        hex("linear"),
        hex(""),
        hex(""),
        hex("geoip:cn"),
    );
    let raw = format!("{}\nnot|a|row\n{}\n", row1, row2);
    let list = list_routing_profiles(&raw, "u-2");
    assert_eq!(list.len(), 2);
    assert_eq!(list[0].uuid, "u-1");
    assert_eq!(list[0].name, "Global");
    assert_eq!(list[0].block, vec!["geosite:category-ads".to_string()]);
    assert_eq!(
        list[0].proxy,
        vec!["geosite:google".to_string(), "domain:x.com".to_string()]
    );
    assert!(list[0].direct.is_empty());
    assert_eq!(list[0].sort, 3);
    assert!(!list[0].active);
    assert_eq!(list[1].remark, "China direct");
    assert_eq!(list[1].domain_strategy, "IPIfNonMatch");
    assert_eq!(list[1].domain_matcher, "linear");
    assert_eq!(list[1].direct, vec!["geoip:cn".to_string()]);
    assert_eq!(list[1].sort, 0);
    assert!(list[1].active);
}

#[test]
fn update_sql_quotes_every_field() {
    let mut p = profile("u'1", "Bob's", "", false);
    p.block = vec![];
    assert_eq!(
        update_routing_sql(&p, &taken("/db.sqlite", 1)),
        "UPDATE routing SET name='Bob''s',remark='',domainStrategy='AsIs',domainMatcher='hybrid',block='',proxy='geosite:google\ndomain:openai.com',direct='geoip:private' WHERE uuid='u''1'; SELECT changes();"
    );
}

#[test]
fn save_requires_one_changed_row() {
    let p = profile("u1", "Name", "", false);
    let b = taken("/tmp/b.db", 1);
    let err = save_routing_profile(&p, false, &b, "0\n").err().unwrap();
    assert_eq!(err, "routing profile was not updated");
    assert!(save_routing_profile(&p, false, &b, "").is_err());
}

#[test]
fn save_message_prefers_remark_and_activates_on_request() {
    let p = profile("u1", "Name", "", false);
    let plan = save_routing_profile(&p, false, &taken("/db.sqlite", 1), " 1 \n").ok().unwrap();
    assert_eq!(plan.message, "Saved Name · backup /db.v2proxyshell-1.bak");
    assert!(plan.activation.is_none());
    let q = profile("u1", "Name", "Remark", false);
    let plan = save_routing_profile(&q, true, &taken("b", 2), "1").ok().unwrap();
    assert_eq!(plan.message, "Saved Remark · backup b.v2proxyshell-2.bak");
    let cmd = plan.activation.unwrap();
    assert_eq!(cmd.program, "defaults");
    assert_eq!(
        cmd.args,
        vec!["write", "net.yanue.V2rayU", "runningRouting", "-string", "u1"]
    );
}

#[test]
fn save_of_active_profile_reactivates() {
    let p = profile("u1", "Name", "", true);
    let plan = save_routing_profile(&p, false, &taken("b", 2), "1").ok().unwrap();
    assert!(plan.activation.is_some());
}

#[test]
fn delete_refuses_active_profile() {
    assert_eq!(
        delete_routing_profile("u1", "u1").err().unwrap(),
        "The active routing profile cannot be deleted. Activate another profile first."
    );
    assert!(delete_routing_profile("o'k", "u1").is_ok());
    assert_eq!(
        delete_sql("o'k", &taken("/x.db", 3)),
        "DELETE FROM routing WHERE uuid='o''k'; SELECT changes();"
    );
}

#[test]
fn delete_outcome_checks_changes() {
    let b = taken("/x.db", 3);
    assert_eq!(
        routing_deleted("1\n", &b).ok().unwrap(),
        "Deleted routing · backup /x.v2proxyshell-3.bak"
    );
    assert_eq!(
        routing_deleted("0", &b).err().unwrap(),
        "routing profile was not deleted"
    );
}

#[test]
fn create_builds_insert() {
    let plan = create_routing_profile("  My 'list'  ", 1700000000123, "5\n", &taken("/d.db", 1));
    assert_eq!(plan.uuid, "v2proxyshell-1700000000123");
    assert_eq!(
        plan.sql,
        "INSERT INTO routing(uuid,name,remark,domainStrategy,domainMatcher,block,proxy,direct,sort) VALUES('v2proxyshell-1700000000123','My ''list''','My ''list''','AsIs','hybrid','','','',5);"
    );
}

#[test]
fn create_defaults_title_and_sort() {
    let plan = create_routing_profile("   ", 7, "", &taken("/d.db", 1));
    assert_eq!(
        plan.sql,
        "INSERT INTO routing(uuid,name,remark,domainStrategy,domainMatcher,block,proxy,direct,sort) VALUES('v2proxyshell-7','New routing','New routing','AsIs','hybrid','','','',1);"
    );
    let neg = create_routing_profile("x", 7, "-3", &taken("/d.db", 1));
    assert!(neg.sql.ends_with(",-3);"));
}

#[test]
fn created_message_joins_uuid_and_backup() {
    assert_eq!(
        created_message("v2proxyshell-7", &taken("/b.db", 9)),
        "v2proxyshell-7|/b.v2proxyshell-9.bak"
    );
}

#[test]
fn routing_table_listing() {
    assert!(is_routing_db("routing\n"));
    assert!(is_routing_db("  routing  "));
    assert!(!is_routing_db(""));
    assert!(!is_routing_db("routings\n"));
}

#[test]
fn sort_reads_back_as_written() {
    for v in [-12i64, 0, 7, i64::MAX, i64::MIN] {
        let row = format!(
            "{}|{}|{}|{}|{}|{}|{}|{}|{}",
            hex("u-9"),
            hex("N"),
            hex(""),
            hex("AsIs"),
            hex("hybrid"),
            hex(""),
            hex(""),
            hex(""),
            v
        );
        let list = list_routing_profiles(&row, "");
        assert_eq!(list.len(), 1);
        assert_eq!(list[0].sort, v);
    }
}

#[test]
fn failed_backup_stops_the_change() {
    let r = BackupTaken::confirm("/d.db", 1, Err("disk full".to_string()));
    assert_eq!(r.err().unwrap(), "disk full");
    let ok = taken("/d.db", 1);
    assert_eq!(ok.path(), "/d.v2proxyshell-1.bak");
}

#[test]
fn saved_profile_lists_back() {
    let p = profile("u-5", "Name", "Rem", false);
    let row = format!(
        "{}|{}|{}|{}|{}|{}|{}|{}|{}",
        hex(&p.uuid),
        hex(&p.name),
        hex(&p.remark),
        hex(&p.domain_strategy),
        hex(&p.domain_matcher),
        hex(&p.block.join("\n")),
        hex(&p.proxy.join("\n")),
        hex(&p.direct.join("\n")),
        p.sort
    );
    let list = list_routing_profiles(&row, "u-5");
    assert_eq!(list.len(), 1);
    let q = &list[0];
    assert_eq!((q.uuid.as_str(), q.name.as_str(), q.remark.as_str()), ("u-5", "Name", "Rem"));
    assert_eq!(q.block, p.block);
    assert_eq!(q.proxy, p.proxy);
    assert_eq!(q.direct, p.direct);
    assert_eq!(q.sort, p.sort);
    assert!(q.active);
    assert_eq!(decode_hex(&hex("Ünïcode ✓").to_lowercase()), "Ünïcode ✓");
}

#[test]
fn split_lines_gives_clean_rules_and_is_stable() {
    let once = split_lines("  a \n\n\tb\r\n".to_string());
    assert_eq!(once, vec!["a".to_string(), "b".to_string()]);
    assert_eq!(split_lines(once.join("\n")), once);
}
