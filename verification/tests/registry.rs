use codegraph::registry::{housekeeping, human_bytes, parse_u64, run_gc, sweep, ttl_from_setting, DbFacts, Entry, Registry};

const DAY: u64 = 86_400;

fn entry(db: &str, last_touch: u64) -> Entry {
    Entry { db: db.into(), last_touch, indexed_at: 0 }
}

fn facts(db: &str, exists: bool, safe_dir: bool, bytes: u64) -> DbFacts {
    DbFacts { db: db.into(), exists, safe_dir, bytes }
}

fn fixture(t: u64) -> (Registry, Vec<DbFacts>) {
    let mut reg = Registry::new();
    reg.projects = vec![
        ("gone".into(), entry("/tmp/gone/.codegraph/graph.db", t)),
        ("new".into(), entry("/tmp/new/.codegraph/graph.db", t)),
        ("old".into(), entry("/tmp/old/.codegraph/graph.db", t - 100 * DAY)),
    ];
    let f = vec![
        facts("/tmp/gone/.codegraph/graph.db", false, true, 0),
        facts("/tmp/new/.codegraph/graph.db", true, true, 10),
        facts("/tmp/old/.codegraph/graph.db", true, true, 2048),
    ];
    (reg, f)
}

#[test]
fn sweep_removes_expired_keeps_fresh_and_prunes_dangling() {
    let t = 1_000 * DAY;
    let (mut reg, f) = fixture(t);
    let report = sweep(&mut reg, &f, t, 30 * DAY, false);
    assert_eq!(report.removed.len(), 1, "only the expired graph is removed");
    assert_eq!(report.removed[0], ("old".to_string(), 2048));
    assert_eq!(report.freed_bytes, 2048);
    let keys: Vec<&str> = reg.projects.iter().map(|(k, _)| k.as_str()).collect();
    assert_eq!(keys, vec!["new"], "fresh graph kept, dangling entry pruned");
}

#[test]
fn sweep_never_deletes_an_unsafe_directory() {
    let t = 1_000 * DAY;
    let (mut reg, mut f) = fixture(t);
    f[2].safe_dir = false;
    let report = sweep(&mut reg, &f, t, 30 * DAY, false);
    assert!(report.removed.is_empty());
    let keys: Vec<&str> = reg.projects.iter().map(|(k, _)| k.as_str()).collect();
    assert_eq!(keys, vec!["new", "old"]);
}

#[test]
fn zero_ttl_only_prunes_and_force_all_removes_everything() {
    let t = 1_000 * DAY;
    let (mut reg, f) = fixture(t);
    let report = sweep(&mut reg, &f, t, 0, false);
    assert!(report.removed.is_empty());
    assert_eq!(reg.projects.len(), 2);
    let (mut reg2, f2) = fixture(t);
    let report2 = sweep(&mut reg2, &f2, t, 30 * DAY, true);
    assert_eq!(report2.removed.len(), 2);
    assert_eq!(report2.freed_bytes, 2058);
    assert!(reg2.projects.is_empty());
}

#[test]
fn run_gc_records_the_sweep_unless_dry_run() {
    let t = 1_000 * DAY;
    let (mut reg, f) = fixture(t);
    let r = run_gc(&mut reg, &f, None, 0, false, true, t);
    assert_eq!(r.removed.len(), 1);
    assert_eq!(reg.last_gc, 0);
    let (mut reg2, f2) = fixture(t);
    let _ = run_gc(&mut reg2, &f2, Some(200 * DAY), 30 * DAY, false, false, t);
    assert_eq!(reg2.last_gc, t);
    assert_eq!(reg2.projects.len(), 2, "nothing idle past the overridden TTL");
}

#[test]
fn housekeeping_stamps_the_current_project() {
    let mut reg = Registry::new();
    let f = vec![facts("/p/.codegraph/graph.db", true, true, 1)];
    assert!(housekeeping(&mut reg, Some(("/p".into(), "/p/.codegraph/graph.db".into(), true)), &f, 0, 5000).is_none());
    assert_eq!(reg.projects.len(), 1);
    assert_eq!(reg.projects[0].0, "/p");
    assert_eq!(reg.projects[0].1.last_touch, 5000);
    assert_eq!(reg.projects[0].1.indexed_at, 5000);
    assert_eq!(reg.last_gc, 0, "a zero TTL never sweeps");
    let swept = housekeeping(&mut reg, Some(("/p".into(), "/p/.codegraph/graph.db".into(), false)), &f, 30 * DAY, 9000);
    assert!(swept.map(|r| r.removed.is_empty()).unwrap_or(false), "the sweep ran and kept the project in use");
    assert_eq!(reg.projects[0].1.last_touch, 9000);
    assert_eq!(reg.projects[0].1.indexed_at, 5000);
    assert_eq!(reg.last_gc, 9000);
}

#[test]
fn human_bytes_formats_like_one_decimal() {
    assert_eq!(human_bytes(0), "0 B");
    assert_eq!(human_bytes(1023), "1023 B");
    assert_eq!(human_bytes(1024), "1.0 KB");
    assert_eq!(human_bytes(1536), "1.5 KB");
    assert_eq!(human_bytes(1126), "1.1 KB");
    assert_eq!(human_bytes(1024 * 1024), "1.0 MB");
    assert_eq!(human_bytes(5 * 1024 * 1024 * 1024), "5.0 GB");
    assert_eq!(human_bytes(1024u64.pow(4)), "1024.0 GB");
    for b in [1u64, 999, 1000, 1025, 10_000, 1_048_575, 3_000_000_000, u64::MAX] {
        assert_eq!(human_bytes(b), float_reference(b), "{b}");
    }
}

fn float_reference(b: u64) -> String {
    const U: [&str; 4] = ["B", "KB", "MB", "GB"];
    let mut v = b as f64;
    let mut i = 0;
    while v >= 1024.0 && i < U.len() - 1 {
        v /= 1024.0;
        i += 1;
    }
    if i == 0 {
        format!("{b} B")
    } else {
        format!("{v:.1} {}", U[i])
    }
}

#[test]
fn ttl_setting_parsed_in_days() {
    assert_eq!(ttl_from_setting(None), 30 * DAY);
    assert_eq!(ttl_from_setting(Some(" 7 ")), 7 * DAY);
    assert_eq!(ttl_from_setting(Some("0")), 0);
    assert_eq!(ttl_from_setting(Some("soon")), 30 * DAY);
    assert_eq!(parse_u64(&"42".chars().collect()), Some(42));
    assert_eq!(parse_u64(&"+1".chars().collect()), Some(1));
    assert_eq!(parse_u64(&"".chars().collect()), None);
    assert_eq!(parse_u64(&"18446744073709551616".chars().collect()), None);
}

#[test]
fn dry_run_reports_what_the_sweep_reclaims() {
    let t = 1_000 * DAY;
    let (mut dry, f) = fixture(t);
    let (mut real, f2) = fixture(t);
    let a = run_gc(&mut dry, &f, None, 30 * DAY, false, true, t);
    let b = run_gc(&mut real, &f2, None, 30 * DAY, false, false, t);
    assert_eq!(a.removed, b.removed);
    assert_eq!(a.freed_bytes, b.freed_bytes);
    assert_eq!(dry.last_gc, 0);
    assert_eq!(real.last_gc, t);
}

#[test]
fn explicit_gc_ignores_a_zero_ttl_setting_and_zero_override_reclaims_nothing() {
    let t = 1_000 * DAY;
    let (mut a, f) = fixture(t);
    let (mut b, f2) = fixture(t);
    let ra = run_gc(&mut a, &f, None, 0, false, false, t);
    let rb = run_gc(&mut b, &f2, Some(30 * DAY), 7 * DAY, false, false, t);
    assert_eq!(ra.removed, rb.removed);
    let (mut c, f3) = fixture(t);
    assert!(run_gc(&mut c, &f3, Some(0), 7 * DAY, false, false, t).removed.is_empty());
}

#[test]
fn forced_sweep_reclaims_only_deletable_existing_graphs() {
    let t = 1_000 * DAY;
    let (mut reg, mut f) = fixture(t);
    f[1].safe_dir = false;
    let report = sweep(&mut reg, &f, t, 30 * DAY, true);
    assert_eq!(report.removed, vec![("old".to_string(), 2048)]);
    let keys: Vec<&str> = reg.projects.iter().map(|(k, _)| k.as_str()).collect();
    assert_eq!(keys, vec!["new"]);
}
