use v2proxy_shell::paths::{
    backup_database, discover_routing_db, reads_dir, routing_db_candidates, walk_entry, DbSearchStep,
    WalkEntry,
};
use v2proxy_shell::targets::{get_process_targets, lsof_error, process_targets};

#[test]
fn targets_sorted_distinct() {
    let raw = "COMMAND PID USER FD TYPE DEVICE SIZE/OFF NODE NAME\n\
Safari 1 me 1u IPv4 0 0t0 TCP 10.0.0.2:5000->b.example:443 (ESTABLISHED)\n\
Safari 1 me 2u IPv4 0 0t0 TCP 10.0.0.2:5001->a.example:443 (ESTABLISHED)\n\
Safari 1 me 3u IPv4 0 0t0 TCP 10.0.0.2:5002->b.example:443 (ESTABLISHED)\n\
Safari 1 me 4u IPv4 0 0t0 TCP 10.0.0.2:5003->(ESTABLISHED)\n\
header-like line without arrow\n";
    assert_eq!(
        process_targets(raw),
        vec!["a.example:443".to_string(), "b.example:443".to_string()]
    );
    assert!(process_targets("").is_empty());
}

#[test]
fn targets_result_or_error() {
    assert_eq!(get_process_targets(false, "", "  "), Err("lsof failed".to_string()));
    assert_eq!(get_process_targets(false, "", " denied\n"), Err("denied".to_string()));
    assert_eq!(lsof_error("x"), "x");
    assert_eq!(get_process_targets(true, "H\n", ""), Ok(vec![]));
}

#[test]
fn candidates_sorted_by_path_and_deduplicated() {
    let v = vec![
        "/h/b.db".to_string(),
        "/h/a-b.db".to_string(),
        "/h/a/b.db".to_string(),
        "/h/b.db".to_string(),
        "/h//b.db".to_string(),
    ];
    assert_eq!(
        routing_db_candidates(v),
        vec!["/h/a/b.db".to_string(), "/h/a-b.db".to_string(), "/h/b.db".to_string()]
    );
}

#[test]
fn discovery_steps() {
    let c = vec!["/a.db".to_string(), "/b.db".to_string()];
    assert!(matches!(discover_routing_db(&c, &vec![]), DbSearchStep::Probe(0)));
    assert!(matches!(discover_routing_db(&c, &vec!["".to_string()]), DbSearchStep::Probe(1)));
    match discover_routing_db(&c, &vec!["".to_string(), "routing\n".to_string()]) {
        DbSearchStep::Found(p) => assert_eq!(p, "/b.db"),
        _ => panic!("expected the second candidate"),
    }
    match discover_routing_db(&c, &vec!["x".to_string(), "y".to_string()]) {
        DbSearchStep::NotFound(e) => assert_eq!(e, "V2rayU routing database was not found"),
        _ => panic!("expected no database"),
    }
    match discover_routing_db(&vec![], &vec![]) {
        DbSearchStep::NotFound(_) => {}
        _ => panic!("expected no database"),
    }
}

#[test]
fn backup_plan() {
    let p = backup_database("/h/.V2rayU/v2ray.db", 1700000000);
    assert_eq!(p.backup, "/h/.V2rayU/v2ray.v2proxyshell-1700000000.bak");
    assert_eq!(p.command.program, "sqlite3");
    assert_eq!(
        p.command.args,
        vec![
            "/h/.V2rayU/v2ray.db".to_string(),
            ".backup '/h/.V2rayU/v2ray.v2proxyshell-1700000000.bak'".to_string()
        ]
    );
    let q = backup_database("/it's/data", 5);
    assert_eq!(q.command.args[1], ".backup '/it''s/data.v2proxyshell-5.bak'");
}

#[test]
fn first_of_equal_paths_stays() {
    let v = vec!["/h//c.db".to_string(), "/h/c.db".to_string(), "/h/./c.db".to_string()];
    assert_eq!(routing_db_candidates(v), vec!["/h//c.db".to_string()]);
}

#[test]
fn search_walk_decisions() {
    assert!(reads_dir(4, true));
    assert!(!reads_dir(0, true));
    assert!(!reads_dir(3, false));
    assert_eq!(walk_entry(4, true, false, "sub"), WalkEntry::Descend(3));
    assert_eq!(walk_entry(1, true, false, "sub"), WalkEntry::Skip);
    assert_eq!(walk_entry(2, false, true, "Routing.SQLite3"), WalkEntry::Collect);
    assert_eq!(walk_entry(2, false, true, "my-V2Ray-data"), WalkEntry::Collect);
    assert_eq!(walk_entry(2, false, true, "notes.txt"), WalkEntry::Skip);
    assert_eq!(walk_entry(2, false, false, "x.db"), WalkEntry::Skip);
}
