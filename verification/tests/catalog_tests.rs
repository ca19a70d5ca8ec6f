use blaze_db::catalog::{CatalogError, ServerFile, SyncReport};
use blaze_db::config::ClientConfig;
use blaze_db::data::{Source, VectorBase};
use blaze_db::metrics::Metrics;

fn vb(name: &str, id: &str) -> VectorBase {
    VectorBase {
        vb_id: id.to_string(),
        vb_name: name.to_string(),
        dimension: 768,
        node_count: 0,
        created_at: "t0".to_string(),
        last_queried_at: "t0".to_string(),
        metric_type: Metrics::Cosine,
        backup_interval_hours: 0,
        last_backup_at: None,
        will_backup_at: None,
    }
}

fn catalog() -> ServerFile {
    let mut c = ServerFile::new();
    c.add_source("id-a".to_string(), "alpha".to_string(), "t1".to_string()).unwrap();
    c.add_source("id-b".to_string(), "beta".to_string(), "t2".to_string()).unwrap();
    c.add_vector_base("alpha", vb("docs", "vb-1")).unwrap();
    c
}

#[test]
fn add_source_then_get_source() {
    let c = catalog();
    let s = c.get_source("alpha").unwrap();
    assert_eq!(s.src_id, "id-a");
    assert_eq!(s.created_at, "t1");
    assert_eq!(s.vector_bases.len(), 1);
    assert!(c.get_source("gamma").is_none());
    assert!(c.source_exists("beta"));
    assert!(c.source_exists_in_store("beta"));
    assert!(!c.source_exists("gamma"));
}

#[test]
fn add_source_refuses_taken_name() {
    let mut c = catalog();
    let r = c.add_source("other".to_string(), "alpha".to_string(), "t9".to_string());
    assert!(matches!(r, Err(CatalogError::SourceExists(ref n)) if n == "alpha"));
    assert_eq!(c.get_source("alpha").unwrap().src_id, "id-a");
}

#[test]
fn add_source_with_generated_id() {
    let mut c = ServerFile::new();
    let s = c.add_source_with_generated("gen".to_string()).unwrap();
    assert_eq!(s.src_id.len(), 36);
    assert_eq!(s.src_id.chars().nth(14), Some('4'));
    assert!(matches!(c.add_source_with_generated("gen".to_string()), Err(CatalogError::SourceExists(_))));
}

#[test]
fn list_sources_names_each_once() {
    let c = catalog();
    let mut names = c.list_sources();
    names.sort();
    assert_eq!(names, vec!["alpha".to_string(), "beta".to_string()]);
    assert_eq!(c.get_all_sources().len(), 2);
}

#[test]
fn update_and_remove_source() {
    let mut c = catalog();
    let mut s = c.get_source("beta").unwrap();
    s.backup_interval_hours = 12;
    c.update_source(s).unwrap();
    assert_eq!(c.get_source("beta").unwrap().backup_interval_hours, 12);
    let missing = Source::new("x".to_string(), "zeta".to_string(), "t".to_string());
    assert!(matches!(c.update_source(missing), Err(CatalogError::SourceNotFound(_))));
    let removed = c.remove_source("beta").unwrap();
    assert_eq!(removed.src_id, "id-b");
    assert!(!c.source_exists("beta"));
    assert!(matches!(c.remove_source("beta"), Err(CatalogError::SourceNotFound(ref n)) if n == "beta"));
}

#[test]
fn is_source_valid_needs_store_and_disk() {
    let c = catalog();
    assert!(c.is_source_valid("alpha", true));
    assert!(!c.is_source_valid("alpha", false));
    assert!(!c.is_source_valid("gamma", true));
}

#[test]
fn add_vector_base_then_get() {
    let mut c = catalog();
    c.add_vector_base("beta", vb("imgs", "vb-2")).unwrap();
    let got = c.get_vector_base("beta", "imgs").unwrap();
    assert_eq!(got.vb_id, "vb-2");
    assert!(c.get_vector_base("beta", "docs").is_none());
    assert!(c.get_vector_base("nowhere", "docs").is_none());
}

#[test]
fn add_vector_base_refusals() {
    let mut c = catalog();
    assert!(matches!(c.add_vector_base("alpha", vb("docs", "vb-9")), Err(CatalogError::VectorBaseExists(ref n)) if n == "docs"));
    assert!(matches!(c.add_vector_base("nowhere", vb("x", "vb-9")), Err(CatalogError::SourceNotFound(_))));
    assert_eq!(c.list_vector_bases("alpha").unwrap().len(), 1);
}

#[test]
fn update_and_remove_vector_base() {
    let mut c = catalog();
    let mut changed = vb("docs2", "vb-1");
    changed.dimension = 1024;
    c.update_vector_base("alpha", changed).unwrap();
    assert_eq!(c.get_vector_base("alpha", "docs2").unwrap().dimension, 1024);
    assert!(matches!(c.update_vector_base("alpha", vb("q", "vb-404")), Err(CatalogError::VectorBaseNotFound(ref n)) if n == "vb-404"));
    let removed = c.remove_vector_base("alpha", "vb-1").unwrap();
    assert_eq!(removed.vb_name, "docs2");
    assert!(c.list_vector_bases("alpha").unwrap().is_empty());
    assert!(matches!(c.remove_vector_base("alpha", "vb-1"), Err(CatalogError::VectorBaseNotFound(_))));
    assert!(matches!(c.list_vector_bases("nowhere"), Err(CatalogError::SourceNotFound(_))));
}

#[test]
fn update_node_count_and_touch() {
    let mut c = catalog();
    c.update_node_count("alpha", "docs", 42).unwrap();
    let got = c.get_vector_base("alpha", "docs").unwrap();
    assert_eq!(got.node_count, 42);
    assert_ne!(got.last_queried_at, "t0");
    assert_eq!(got.created_at, "t0");
    c.touch_vector_base("alpha", "docs").unwrap();
    assert_eq!(c.get_vector_base("alpha", "docs").unwrap().node_count, 42);
    assert!(matches!(c.update_node_count("alpha", "nope", 1), Err(CatalogError::VectorBaseNotFound(ref n)) if n == "nope"));
    assert!(matches!(c.touch_vector_base("nowhere", "docs"), Err(CatalogError::SourceNotFound(_))));
}

#[test]
fn sync_sources_reports_both_sides() {
    let c = catalog();
    let fs = vec!["beta".to_string(), "gamma".to_string(), "delta".to_string()];
    let r = c.sync_sources(&fs);
    assert_eq!(r.orphaned_in_store, vec!["alpha".to_string()]);
    assert_eq!(r.untracked_on_fs, vec!["gamma".to_string(), "delta".to_string()]);
    assert!(!r.is_clean());
}

#[test]
fn sync_is_clean_when_names_agree() {
    let c = catalog();
    let fs = vec!["beta".to_string(), "alpha".to_string()];
    let r = c.sync_sources(&fs);
    assert!(r.is_clean());
    assert!(SyncReport::default().is_clean());
}

#[test]
fn client_config_new_update_default() {
    let mut cfg = ClientConfig::new("http://h:1".to_string(), 5);
    assert_eq!((cfg.url.as_str(), cfg.timeout), ("http://h:1", 5));
    cfg.update("http://h:2".to_string(), 9);
    assert_eq!((cfg.url.as_str(), cfg.timeout), ("http://h:2", 9));
    let d = ClientConfig::default();
    assert_eq!((d.url.as_str(), d.timeout), ("http://localhost:8080", 30));
}

#[test]
fn provider_display_shortens_url_and_key() {
    let t = blaze_db::config::provider_display("qwen", "http://localhost:1234/v1", "secret-key");
    assert_eq!(t, "Provider (Model: qwen, Url: http://local..., Key: secr...)");
    let short = blaze_db::config::provider_display("m", "u", "");
    assert_eq!(short, "Provider (Model: m, Url: u..., Key: ...)");
}

#[test]
fn touch_and_count_at_given_times() {
    let mut c = catalog();
    c.touch_vector_base_at("alpha", "docs", "2024-05-01T00:00:00+00:00").unwrap();
    let v = c.get_vector_base("alpha", "docs").unwrap();
    assert_eq!(v.last_queried_at, "2024-05-01T00:00:00+00:00");
    assert_eq!((v.vb_id.as_str(), v.dimension), ("vb-1", 768));
    c.update_node_count_at("alpha", "docs", 42, "2024-05-02T00:00:00+00:00").unwrap();
    let v = c.get_vector_base("alpha", "docs").unwrap();
    assert_eq!((v.node_count, v.last_queried_at.as_str()), (42, "2024-05-02T00:00:00+00:00"));
    assert!(matches!(c.touch_vector_base_at("alpha", "nope", "t"), Err(CatalogError::VectorBaseNotFound(_))));
    assert!(matches!(c.update_node_count_at("nowhere", "docs", 1, "t"), Err(CatalogError::SourceNotFound(_))));
    c.touch_vector_base("alpha", "docs").unwrap();
    assert!(c.get_vector_base("alpha", "docs").unwrap().last_queried_at.ends_with("+00:00"));
}
