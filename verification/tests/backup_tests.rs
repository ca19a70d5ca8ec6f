use blaze_db::backup::{
    backup_due, backup_file_name, backups_to_remove, due_backups, get_effective_interval_hours, record_backup,
    scheduled_backups,
    BackupConfig,
};
use blaze_db::catalog::ServerFile;
use blaze_db::data::VectorBase;
use blaze_db::metrics::Metrics;

fn vb(name: &str, hours: i32, next: Option<&str>) -> VectorBase {
    VectorBase {
        vb_id: format!("id-{}", name),
        vb_name: name.to_string(),
        dimension: 768,
        node_count: 0,
        created_at: "t".to_string(),
        last_queried_at: "t".to_string(),
        metric_type: Metrics::Cosine,
        backup_interval_hours: hours,
        last_backup_at: None,
        will_backup_at: next.map(|s| s.to_string()),
    }
}

fn catalog() -> ServerFile {
    let mut c = ServerFile::new();
    c.add_source("1".into(), "inherit".into(), "t".into()).unwrap();
    let mut s = c.get_source("inherit").unwrap();
    s.backup_interval_hours = 0;
    c.update_source(s).unwrap();
    c.add_source("2".into(), "own".into(), "t".into()).unwrap();
    let mut s = c.get_source("own").unwrap();
    s.backup_interval_hours = 6;
    c.update_source(s).unwrap();
    c.add_vector_base("inherit", vb("never", -1, None)).unwrap();
    c.add_vector_base("inherit", vb("past", 0, Some("2000-01-01T00:00:00Z"))).unwrap();
    c.add_vector_base("own", vb("future", 0, Some("2999-01-01T00:00:00+00:00"))).unwrap();
    c.add_vector_base("own", vb("garbled", 3, Some("not a time"))).unwrap();
    c.add_vector_base("own", vb("fresh", 0, None)).unwrap();
    c
}

#[test]
fn config_defaults() {
    let cfg = BackupConfig::with_base_dir("/b".to_string());
    assert_eq!((cfg.default_interval_hours, cfg.max_backups_per_database, cfg.compression_level), (48, 5, 18));
    assert_eq!(cfg.backup_base_dir, "/b");
}

#[test]
fn effective_interval_inherits_down() {
    let cfg = BackupConfig::with_base_dir("/b".to_string());
    let c = catalog();
    assert_eq!(get_effective_interval_hours(&cfg, &c, "inherit", "past"), 48);
    assert_eq!(get_effective_interval_hours(&cfg, &c, "inherit", "never"), -1);
    assert_eq!(get_effective_interval_hours(&cfg, &c, "own", "future"), 6);
    assert_eq!(get_effective_interval_hours(&cfg, &c, "own", "garbled"), 3);
    assert_eq!(get_effective_interval_hours(&cfg, &c, "own", "missing"), 6);
    assert_eq!(get_effective_interval_hours(&cfg, &c, "missing", "x"), 48);
}

#[test]
fn backup_due_cases() {
    let now = (1_000, 500);
    assert!(!backup_due(-1, None, now));
    assert!(backup_due(5, None, now));
    assert!(backup_due(5, Some(None), now));
    assert!(backup_due(5, Some(Some((1_000, 500))), now));
    assert!(backup_due(5, Some(Some((999, 900))), now));
    assert!(!backup_due(5, Some(Some((1_000, 501))), now));
    assert!(!backup_due(-1, Some(Some((1, 0))), now));
}

#[test]
fn due_backups_picks_due_databases() {
    let cfg = BackupConfig::with_base_dir("/b".to_string());
    let c = catalog();
    let now = (1_700_000_000, 0);
    let mut due: Vec<(String, String)> = due_backups(&cfg, &c, now);
    due.sort();
    let expected: Vec<(String, String)> = vec![
        ("inherit".into(), "past".into()),
        ("own".into(), "fresh".into()),
        ("own".into(), "garbled".into()),
    ];
    assert_eq!(due, expected);
    let now_due = scheduled_backups(&cfg, &c);
    assert!(now_due.iter().all(|(s, _)| c.source_exists(s)));
    assert!(!now_due.iter().any(|(_, d)| d == "never" || d == "future"));
}

#[test]
fn backups_to_remove_keeps_the_newest() {
    let files = vec![
        ("backup_1.tar.zst".to_string(), (100, 0)),
        ("backup_2.tar.zst".to_string(), (300, 0)),
        ("notes.txt".to_string(), (50, 0)),
        ("backup_3.tar.zst".to_string(), (200, 0)),
        ("backup_4.tar.zst".to_string(), (200, 0)),
        ("backup_5.tar".to_string(), (10, 0)),
    ];
    let mut gone = backups_to_remove(&files, "backup_", 2);
    gone.sort();
    assert_eq!(gone, vec!["backup_1.tar.zst".to_string(), "backup_4.tar.zst".to_string()]);
    assert!(backups_to_remove(&files, "backup_", 5).is_empty());
    assert_eq!(backups_to_remove(&files, "backup_", 0).len(), 4);
    assert!(backup_file_name("backup_x.tar.zst", "backup_"));
    assert!(!backup_file_name("x.tar.zst", "backup_"));
    assert!(!backup_file_name(".tar.zs", ""));
}

#[test]
fn record_backup_sets_the_schedule() {
    let cfg = BackupConfig::with_base_dir("/b".to_string());
    let mut c = catalog();
    let now = (1_700_000_000, 0);
    assert!(due_backups(&cfg, &c, now).iter().any(|(_, d)| d == "past"));
    assert!(record_backup(&cfg, &mut c, "inherit", "past"));
    let vb = c.get_vector_base("inherit", "past").unwrap();
    assert!(vb.last_backup_at.is_some());
    assert!(vb.will_backup_at.is_some());
    assert_ne!(vb.will_backup_at.as_deref(), Some("2000-01-01T00:00:00Z"));
    assert_eq!((vb.node_count, vb.backup_interval_hours), (0, 0));
    assert!(!due_backups(&cfg, &c, now).iter().any(|(_, d)| d == "past"));
    assert!(!record_backup(&cfg, &mut c, "inherit", "missing"));
    assert!(!record_backup(&cfg, &mut c, "nowhere", "past"));
}
