use blaze_db::catalog::ServerFile;
use blaze_db::data::VectorBase;
use blaze_db::hnsw::graph::Hnsw;
use blaze_db::metrics::Metrics;
use blaze_db::page::{compute_page, PAGE_SIZE};
use blaze_db::validate::parse_database_name;

fn score(q: &i64, v: &i64) -> i64 {
    -(q - v).abs()
}

fn line_graph(n: i64) -> Hnsw<i64> {
    let mut g: Hnsw<i64> = Hnsw::new(3, 8, 3, &None);
    for i in 0..n {
        g.insert(format!("p{}", i), i * 10, format!("m{}", i), (i % 3) as usize, &score).unwrap();
    }
    g
}

#[test]
fn law_lookup_after_insert() {
    let mut g = line_graph(5);
    let idx = g.insert("new".to_string(), 7, "fresh".to_string(), 1, &score).unwrap();
    let node = g.get_node_by_id("new").unwrap();
    assert_eq!(idx, 5);
    assert_eq!(node.vector, 7);
    assert_eq!(g.get_metadata_by_id(idx).unwrap(), "fresh");
}

#[test]
fn law_delete_moves_one_node_to_dead() {
    let mut g = line_graph(6);
    let (live, dead) = (g.active_count(), g.tombstone_count());
    g.delete_node_by_id("p2").unwrap();
    assert_eq!((g.active_count(), g.tombstone_count()), (live - 1, dead + 1));
    assert_eq!(g.nodes.len(), 6);
}

#[test]
fn law_reindex_keeps_live_count_and_ids() {
    let mut g = line_graph(7);
    g.delete_node_by_id("p0").unwrap();
    g.delete_node_by_id("p5").unwrap();
    let live = g.active_count();
    g.reindex().unwrap();
    assert_eq!(g.active_count(), live);
    assert_eq!(g.tombstone_count(), 0);
    for id in ["p1", "p2", "p3", "p4", "p6"] {
        assert!(g.get_node_by_id(id).is_some());
    }
    assert!(g.get_node_by_id("p0").is_none());
}

#[test]
fn law_sync_clean_iff_same_names() {
    let mut c = ServerFile::new();
    c.add_source("1".into(), "a".into(), "t".into()).unwrap();
    c.add_source("2".into(), "b".into(), "t".into()).unwrap();
    assert!(c.sync_sources(&vec!["b".to_string(), "a".to_string(), "a".to_string()]).is_clean());
    assert!(!c.sync_sources(&vec!["a".to_string()]).is_clean());
    assert!(!c.sync_sources(&vec!["a".to_string(), "b".to_string(), "c".to_string()]).is_clean());
}

#[test]
fn law_added_vector_base_is_found() {
    let mut c = ServerFile::new();
    c.add_source("1".into(), "s".into(), "t".into()).unwrap();
    let vb = VectorBase::new("docs".to_string(), 768, Metrics::Cosine);
    let id = vb.vb_id.clone();
    c.add_vector_base("s", vb).unwrap();
    assert_eq!(c.get_vector_base("s", "docs").unwrap().vb_id, id);
}

#[test]
fn law_pages_partition() {
    let total = 3 * PAGE_SIZE + 17;
    for i in [0, PAGE_SIZE - 1, PAGE_SIZE, 2 * PAGE_SIZE + 5, total - 1] {
        let p = i / PAGE_SIZE + 1;
        let (_, served, start, end) = compute_page(total, p);
        assert_eq!(served, p);
        assert!(start <= i && i < end);
    }
}

#[test]
fn law_database_name_round_trip() {
    for (a, b, c, d) in [("x", "y", "z", "w"), ("", "", "", ""), ("a_", "#b", "c#", "_d")] {
        let s = format!("#{}_#{}_#{}_#{}", a, b, c, d);
        let r = parse_database_name(&s).unwrap();
        assert_eq!((r.0.as_str(), r.1.as_str(), r.2.as_str(), r.3.as_str()), (a, b, c, d), "{}", s);
    }
}

#[test]
fn law_layers_shrink_going_up() {
    let g = line_graph(30);
    let count = |l: usize| g.nodes.iter().filter(|n| n.max_level >= l).count();
    assert_eq!(count(0), g.nodes.len());
    for l in 0..g.max_layers {
        assert!(count(l + 1) <= count(l));
    }
}

#[test]
fn law_pruning_keeps_newest_and_at_most_max() {
    let files: Vec<(String, (i64, u32))> = (0..9)
        .map(|i| (format!("db_{}.tar.zst", i), ((i * 7 % 5) as i64, (i % 2) as u32)))
        .collect();
    for max in 0..10 {
        let removed = blaze_db::backup::backups_to_remove(&files, "db_", max);
        let kept: Vec<&(String, (i64, u32))> = files.iter().filter(|f| !removed.contains(&f.0)).collect();
        assert!(kept.len() <= max);
        for k in &kept {
            for r in files.iter().filter(|f| removed.contains(&f.0)) {
                assert!(k.1 >= r.1);
            }
        }
    }
}

#[test]
fn law_stored_vector_comes_back_first() {
    let g = line_graph(12);
    for i in 0..12i64 {
        let r = g.brute_force_search(&(i * 10), 3, &score);
        assert_eq!(r[0].0, format!("p{}", i));
        assert_eq!(r[0].1, 0);
    }
}

fn names_and_bases(c: &ServerFile) -> Vec<(String, Vec<String>)> {
    c.get_all_sources()
        .iter()
        .map(|s| (s.source_name.clone(), s.vector_bases.iter().map(|v| v.vb_id.clone()).collect()))
        .collect()
}

#[test]
fn law_remove_undoes_add_source_on_a_catalog() {
    let mut c = ServerFile::new();
    c.add_source("id-a".to_string(), "alpha".to_string(), "t1".to_string()).unwrap();
    let before = names_and_bases(&c);
    c.add_source("id-b".to_string(), "beta".to_string(), "t2".to_string()).unwrap();
    assert_ne!(names_and_bases(&c), before);
    let removed = c.remove_source("beta").unwrap();
    assert_eq!(removed.src_id, "id-b");
    assert_eq!(names_and_bases(&c), before);
}

#[test]
fn law_remove_undoes_add_vector_base_on_a_catalog() {
    let mut c = ServerFile::new();
    c.add_source("id-a".to_string(), "alpha".to_string(), "t1".to_string()).unwrap();
    let mut first = VectorBase::new("docs".to_string(), 4, Metrics::Cosine);
    first.vb_id = "vb-1".to_string();
    c.add_vector_base("alpha", first).unwrap();
    let before = names_and_bases(&c);
    let mut second = VectorBase::new("notes".to_string(), 4, Metrics::Euclidean);
    second.vb_id = "vb-2".to_string();
    c.add_vector_base("alpha", second).unwrap();
    let removed = c.remove_vector_base("alpha", "vb-2").unwrap();
    assert_eq!(removed.vb_name, "notes");
    assert_eq!(names_and_bases(&c), before);
}
