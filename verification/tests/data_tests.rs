use blaze_db::data::{Source, VectorBase};
use blaze_db::metrics::Metrics;

fn uuid_like(s: &str) -> bool {
    let b: Vec<char> = s.chars().collect();
    b.len() == 36
        && [8, 13, 18, 23].iter().all(|&i| b[i] == '-')
        && b[14] == '4'
        && "89ab".contains(b[19])
        && b.iter().enumerate().all(|(i, c)| [8, 13, 18, 23].contains(&i) || c.is_ascii_hexdigit() && !c.is_ascii_uppercase())
}

#[test]
fn vector_base_new_is_empty_with_fresh_id() {
    let v = VectorBase::new("docs".to_string(), 768, Metrics::DotProduct);
    assert!(uuid_like(&v.vb_id));
    assert_eq!(v.node_count, 0);
    assert_eq!(v.created_at, v.last_queried_at);
    assert_eq!(v.metric_type, Metrics::DotProduct);
    let w = VectorBase::new("docs".to_string(), 768, Metrics::Cosine);
    assert_ne!(v.vb_id, w.vb_id);
}

#[test]
fn source_add_find_remove_vector_bases() {
    let mut s = Source::new("sid".to_string(), "src".to_string(), "now".to_string());
    assert_eq!(s.backup_interval_hours, 0);
    let a = VectorBase::new("a".to_string(), 768, Metrics::Cosine);
    let b = VectorBase::new("b".to_string(), 768, Metrics::Cosine);
    let a_id = a.vb_id.clone();
    s.add_vector_base(a);
    s.add_vector_base(b);
    assert_eq!(s.find_vector_base("b").unwrap().vb_name, "b");
    assert!(s.find_vector_base("c").is_none());
    let removed = s.remove_vector_base(&a_id).unwrap();
    assert_eq!(removed.vb_name, "a");
    assert!(s.remove_vector_base(&a_id).is_none());
    assert_eq!(s.vector_bases.len(), 1);
}

#[test]
fn find_vector_base_mut_changes_in_place() {
    let mut s = Source::new("sid".to_string(), "src".to_string(), "now".to_string());
    s.add_vector_base(VectorBase::new("a".to_string(), 768, Metrics::Cosine));
    s.find_vector_base_mut("a").unwrap().set_node_count(7);
    assert_eq!(s.vector_bases[0].node_count, 7);
    assert!(s.find_vector_base_mut("z").is_none());
}

#[test]
fn update_vector_base_by_id() {
    let mut s = Source::new("sid".to_string(), "src".to_string(), "now".to_string());
    let a = VectorBase::new("a".to_string(), 768, Metrics::Cosine);
    let mut changed = a.clone();
    s.add_vector_base(a);
    changed.node_count = 99;
    assert!(s.update_vector_base(changed));
    assert_eq!(s.vector_bases[0].node_count, 99);
    let stranger = VectorBase::new("x".to_string(), 768, Metrics::Cosine);
    assert!(!s.update_vector_base(stranger));
}

#[test]
fn set_node_count_touches() {
    let mut v = VectorBase::new("a".to_string(), 768, Metrics::Cosine);
    v.last_queried_at = "long ago".to_string();
    v.set_node_count(5);
    assert_eq!(v.node_count, 5);
    assert_ne!(v.last_queried_at, "long ago");
    assert!(v.last_queried_at.ends_with("+00:00"));
}

#[test]
fn defaults() {
    let s = Source::default();
    assert_eq!(s.source_name, "default_src");
    assert!(uuid_like(&s.src_id));
    let v = VectorBase::default();
    assert_eq!((v.vb_name.as_str(), v.dimension), ("default_vb", 1024));
    assert_eq!(v.metric_type, Metrics::Cosine);
    let g = Source::new_with_generated("g".to_string());
    assert!(uuid_like(&g.src_id));
}

#[test]
fn metric_names() {
    assert_eq!(Metrics::Cosine.to_string(), "COSINE");
    assert_eq!(Metrics::Euclidean.to_string(), "EUCLIDEAN");
    assert_eq!(Metrics::DotProduct.to_string(), "DOT_PRODUCT");
}

#[test]
fn touch_writes_the_current_utc_time() {
    let mut v = VectorBase::new("a".to_string(), 768, Metrics::Cosine);
    v.last_queried_at = "long ago".to_string();
    let id = v.vb_id.clone();
    v.touch();
    assert!(v.last_queried_at.ends_with("+00:00"));
    assert!(v.last_queried_at.len() >= 25);
    assert_eq!(v.last_queried_at.as_bytes()[10], b'T');
    assert_eq!((v.vb_id.clone(), v.node_count), (id, 0));
}

#[test]
fn touch_at_and_set_node_count_at_use_the_given_time() {
    let mut v = VectorBase::new("a".to_string(), 768, Metrics::Cosine);
    v.touch_at("2001-01-01T00:00:00+00:00");
    assert_eq!(v.last_queried_at, "2001-01-01T00:00:00+00:00");
    v.set_node_count_at(9, "2002-02-02T00:00:00+00:00");
    assert_eq!((v.node_count, v.last_queried_at.as_str()), (9, "2002-02-02T00:00:00+00:00"));
}
