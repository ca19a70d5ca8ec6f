use blaze_db::hnsw::graph::{Hnsw, HnswError, Node};
use blaze_db::metrics::Metrics;
use blaze_db::page::live_on_page;

type P = (i64, i64);

fn closeness(q: &P, v: &P) -> i64 {
    let dx = q.0 - v.0;
    let dy = q.1 - v.1;
    -(dx * dx + dy * dy)
}

fn grid() -> Hnsw<P> {
    let mut g: Hnsw<P> = Hnsw::new(4, 16, 4, &Some(Metrics::Euclidean));
    let points = [(0, 0), (1, 0), (0, 1), (5, 5), (6, 5), (10, 10), (11, 11), (3, 2)];
    for (i, p) in points.iter().enumerate() {
        let level = if i == 3 { 2 } else { i % 2 };
        g.insert(format!("n{}", i), *p, format!("meta{}", i), level, &closeness).unwrap();
    }
    g
}

#[test]
fn insert_assigns_consecutive_indices() {
    let mut g: Hnsw<P> = Hnsw::new(4, 16, 4, &None);
    assert_eq!(g.insert("a".to_string(), (0, 0), "A".to_string(), 0, &closeness).unwrap(), 0);
    assert_eq!(g.insert("b".to_string(), (1, 1), "B".to_string(), 1, &closeness).unwrap(), 1);
    assert_eq!(g.entry_point, Some(1));
    assert_eq!(g.nodes.len(), 2);
}

#[test]
fn insert_refuses_duplicate_id() {
    let mut g = grid();
    let r = g.insert("n3".to_string(), (9, 9), "x".to_string(), 0, &closeness);
    assert!(matches!(r, Err(HnswError::DuplicateId(ref s)) if s == "n3"));
    assert_eq!(g.nodes.len(), 8);
}

#[test]
fn inserted_node_is_found_by_id() {
    let g = grid();
    let n = g.get_node_by_id("n6").unwrap();
    assert_eq!(n.vector, (11, 11));
    assert_eq!(n.metadata, "meta6");
    assert!(g.get_node_by_id("missing").is_none());
    assert_eq!(g.find_index(&"n2".to_string()), Some(2));
}

#[test]
fn neighbor_lists_are_symmetric_and_bounded() {
    let g = grid();
    for (i, node) in g.nodes.iter().enumerate() {
        assert_eq!(node.neighbors.len(), node.max_level + 1);
        for (l, list) in node.neighbors.iter().enumerate() {
            assert!(list.len() <= g.max_neighbors);
            for &x in list {
                assert_ne!(x, i);
                assert!(g.nodes[x].neighbors[l].contains(&i));
            }
        }
    }
}

#[test]
fn brute_force_search_returns_exact_top_k() {
    let g = grid();
    let r = g.brute_force_search(&(0, 0), 3, &closeness);
    let ids: Vec<&str> = r.iter().map(|(id, _)| id.as_str()).collect();
    assert_eq!(ids[0], "n0");
    assert_eq!(r.len(), 3);
    assert!(ids.contains(&"n1") && ids.contains(&"n2"));
    assert_eq!(r[0].1, 0);
    assert_eq!(r[1].1, -1);
    assert_eq!(r[2].1, -1);
}

#[test]
fn search_finds_nearest_and_is_sorted() {
    let g = grid();
    let r = g.search(&(10, 10), 2, None, &closeness);
    assert!(!r.is_empty() && r.len() <= 2);
    assert_eq!(r[0].0, "n5");
    for w in r.windows(2) {
        assert!(w[0].1 >= w[1].1);
    }
}

#[test]
fn search_with_metadata_attaches_metadata() {
    let g = grid();
    let r = g.search_with_metadata(&(6, 5), 1, Some(8), &closeness);
    assert_eq!(r.len(), 1);
    assert_eq!(r[0].0, "n4");
    assert_eq!(r[0].2, "meta4");
    let b = g.brute_force_search_with_metadata(&(0, 1), 1, &closeness);
    assert_eq!(b[0].0, "n2");
    assert_eq!(b[0].2, "meta2");
}

#[test]
fn search_on_empty_graph_is_empty() {
    let g: Hnsw<P> = Hnsw::new(4, 16, 4, &None);
    assert!(g.search(&(0, 0), 5, None, &closeness).is_empty());
    assert!(g.brute_force_search(&(0, 0), 5, &closeness).is_empty());
}

#[test]
fn deleted_node_is_never_returned() {
    let mut g = grid();
    g.delete_node_by_id("n0").unwrap();
    assert!(g.nodes[0].is_deleted());
    let r = g.brute_force_search(&(0, 0), 8, &closeness);
    assert_eq!(r.len(), 7);
    assert!(r.iter().all(|(id, _)| id != "n0"));
    let s = g.search(&(0, 0), 8, None, &closeness);
    assert!(s.iter().all(|(id, _)| id != "n0"));
}

#[test]
fn delete_unknown_id_is_refused() {
    let mut g = grid();
    let r = g.delete_node_by_id("nope");
    assert!(matches!(r, Err(HnswError::UnknownId(ref s)) if s == "nope"));
    assert_eq!(g.tombstone_count(), 0);
}

#[test]
fn delete_counts_move_from_live_to_dead() {
    let mut g = grid();
    assert_eq!((g.active_count(), g.tombstone_count()), (8, 0));
    g.delete_node_by_id("n5").unwrap();
    assert_eq!((g.active_count(), g.tombstone_count()), (7, 1));
    g.delete_node_by_id("n5").unwrap();
    assert_eq!((g.active_count(), g.tombstone_count()), (7, 1));
    assert_eq!(g.active_count() + g.tombstone_count(), g.nodes.len());
}

#[test]
fn deleting_the_entry_point_picks_the_highest_live_node() {
    let mut g = grid();
    assert_eq!(g.entry_point, Some(3));
    g.delete_node_by_id("n3").unwrap();
    let e = g.entry_point.unwrap();
    assert!(!g.nodes[e].tombstone);
    assert_eq!(g.nodes[e].max_level, 1);
    assert_eq!(e, 1);
}

#[test]
fn reindex_drops_deleted_nodes_and_keeps_the_rest() {
    let mut g = grid();
    g.delete_node_by_id("n1").unwrap();
    g.delete_node_by_id("n4").unwrap();
    g.reindex().unwrap();
    assert_eq!(g.nodes.len(), 6);
    assert_eq!(g.tombstone_count(), 0);
    let ids: Vec<&str> = g.nodes.iter().map(|n| n.node_id.as_str()).collect();
    assert_eq!(ids, vec!["n0", "n2", "n3", "n5", "n6", "n7"]);
    for (i, node) in g.nodes.iter().enumerate() {
        for (l, list) in node.neighbors.iter().enumerate() {
            for &x in list {
                assert!(x < g.nodes.len());
                assert!(g.nodes[x].neighbors[l].contains(&i));
            }
        }
    }
    assert_eq!(g.entry_point, Some(2));
    assert_eq!(g.get_node_by_id("n7").unwrap().vector, (3, 2));
}

#[test]
fn reindex_without_deletions_changes_nothing() {
    let mut g = grid();
    let before: Vec<String> = g.nodes.iter().map(|n| n.node_id.clone()).collect();
    g.reindex().unwrap();
    let after: Vec<String> = g.nodes.iter().map(|n| n.node_id.clone()).collect();
    assert_eq!(before, after);
}

#[test]
fn set_new_entry_point_chooses_first_highest_live() {
    let mut g = grid();
    g.nodes[3].tombstone = true;
    g.set_new_entry_point();
    assert_eq!(g.entry_point, Some(1));
}

#[test]
fn insert_batch_inserts_in_order() {
    let mut g: Hnsw<P> = Hnsw::new(4, 16, 4, &None);
    let batch = vec![
        ("x".to_string(), (0, 0), "X".to_string(), 0),
        ("y".to_string(), (1, 0), "Y".to_string(), 1),
        ("z".to_string(), (2, 0), "Z".to_string(), 0),
    ];
    assert_eq!(g.insert_batch(batch, &closeness).unwrap(), 3);
    assert_eq!(g.nodes[2].node_id, "z");
}

#[test]
fn insert_batch_stops_at_first_duplicate() {
    let mut g: Hnsw<P> = Hnsw::new(4, 16, 4, &None);
    let batch = vec![
        ("x".to_string(), (0, 0), "X".to_string(), 0),
        ("y".to_string(), (1, 0), "Y".to_string(), 0),
        ("x".to_string(), (2, 0), "X2".to_string(), 0),
        ("w".to_string(), (3, 0), "W".to_string(), 0),
    ];
    let r = g.insert_batch(batch, &closeness);
    assert!(matches!(r, Err(HnswError::DuplicateId(ref s)) if s == "x"));
    assert_eq!(g.nodes.len(), 2);
}

#[test]
fn lookups_by_index() {
    let g = grid();
    assert_eq!(g.get_metadata_by_id(3).unwrap(), "meta3");
    assert_eq!(*g.get_vector_by_id(4).unwrap(), (6, 5));
    assert!(g.get_metadata_by_id(8).is_none());
    assert!(g.get_vector_by_id(99).is_none());
}

#[test]
fn clamp_level_caps_at_top_layer() {
    let g: Hnsw<P> = Hnsw::new(4, 16, 4, &None);
    assert_eq!(g.clamp_level(2), 2);
    assert_eq!(g.clamp_level(9), 3);
}

#[test]
fn default_graph_settings() {
    let g: Hnsw<P> = Hnsw::default();
    assert_eq!((g.max_neighbors, g.ef_construction, g.max_layers), (16, 200, 12));
    assert_eq!(g.metrics, Some(Metrics::Cosine));
    assert!(g.nodes.is_empty());
}

#[test]
fn node_new_has_empty_layers() {
    let n = Node::new("id".to_string(), (1, 2), "m".to_string(), 3);
    assert_eq!(n.neighbors.len(), 4);
    assert!(n.neighbors.iter().all(|l| l.is_empty()));
    assert!(!n.is_deleted());
}

#[test]
fn page_lists_live_nodes_only() {
    let mut g = grid();
    g.delete_node_by_id("n2").unwrap();
    let (pages, page, idx) = live_on_page(&g.nodes, 1, false);
    assert_eq!((pages, page), (1, 1));
    assert_eq!(idx, vec![0, 1, 3, 4, 5, 6, 7]);
    let (_, fallback, _) = live_on_page(&g.nodes, 5, false);
    assert_eq!(fallback, 1);
    let (_, _, all) = live_on_page(&g.nodes, 1, true);
    assert_eq!(all, vec![0, 1, 2, 3, 4, 5, 6, 7]);
}

#[test]
fn well_formed_graph_passes_the_check() {
    let g = grid();
    assert!(g.is_well_formed());
    let empty: Hnsw<P> = Hnsw::new(4, 16, 4, &None);
    assert!(empty.is_well_formed());
}

#[test]
fn damaged_graphs_fail_the_check() {
    let mut one_way = grid();
    let x = one_way.nodes[0].neighbors[0][0];
    one_way.nodes[x].neighbors[0].retain(|&y| y != 0);
    assert!(!one_way.is_well_formed());

    let mut twin_ids = grid();
    twin_ids.nodes[7].node_id = "n0".to_string();
    assert!(!twin_ids.is_well_formed());

    let mut misshaped = grid();
    misshaped.nodes[2].neighbors.push(Vec::new());
    assert!(!misshaped.is_well_formed());

    let mut lost_entry = grid();
    lost_entry.entry_point = Some(99);
    assert!(!lost_entry.is_well_formed());

    let mut self_loop = grid();
    self_loop.nodes[4].neighbors[0].push(4);
    assert!(!self_loop.is_well_formed());
}

#[test]
fn search_with_a_live_entry_finds_something() {
    let g = grid();
    let e = g.entry_point.unwrap();
    assert!(!g.nodes[e].tombstone);
    for q in [(0, 0), (100, -100), (6, 6)] {
        assert!(!g.search(&q, 1, None, &closeness).is_empty());
        assert!(!g.search_with_metadata(&q, 3, Some(2), &closeness).is_empty());
        assert!(!g.search_internal(&q, 2, 8, &closeness).is_empty());
    }
    let r = g.search_internal(&(10, 10), 3, 8, &closeness);
    assert!(r.iter().all(|(i, _)| !g.nodes[*i].tombstone));
}

#[test]
fn insert_all_stores_every_entry_under_fresh_ids() {
    let mut g = grid();
    let n0 = g.nodes.len();
    let batch = vec![((2, 2), "x".to_string(), 0), ((2, 2), "x".to_string(), 1), ((9, 9), "y".to_string(), 0)];
    assert_eq!(g.insert_all(batch, &closeness), 3);
    assert_eq!(g.nodes.len(), n0 + 3);
    assert_eq!(g.nodes[n0].vector, (2, 2));
    assert_eq!(g.nodes[n0 + 1].metadata, "x");
    assert_eq!(g.nodes[n0 + 2].vector, (9, 9));
    let mut ids: Vec<String> = g.nodes.iter().map(|n| n.node_id.clone()).collect();
    ids.sort();
    ids.dedup();
    assert_eq!(ids.len(), n0 + 3);
    assert!(g.is_well_formed());
    let again = vec![((2, 2), "x".to_string(), 0)];
    assert_eq!(g.insert_all(again, &closeness), 1);
    assert!(g.get_node_by_id(&g.fresh_id()).is_none());
}

#[test]
fn insert_links_the_new_node_both_ways() {
    let mut h: Hnsw<P> = Hnsw::new(4, 10, 4, &Some(Metrics::Cosine));
    h.insert("a".to_string(), (1, 0), "ma".to_string(), 0, &closeness).unwrap();
    assert_eq!(h.insert("b".to_string(), (0, 1), "mb".to_string(), 2, &closeness).unwrap(), 1);
    assert_eq!(h.entry_point, Some(1));
    assert_eq!(h.nodes[1].neighbors[0], vec![0]);
    assert_eq!(h.nodes[0].neighbors[0], vec![1]);
    assert!(h.nodes[1].neighbors[1].is_empty());
    assert!(h.nodes[1].neighbors[2].is_empty());
}

#[test]
fn reindex_keeps_links_between_kept_nodes() {
    let mut h: Hnsw<P> = Hnsw::new(4, 10, 4, &Some(Metrics::Cosine));
    h.insert("a".to_string(), (1, 0), "ma".to_string(), 0, &closeness).unwrap();
    h.insert("b".to_string(), (0, 1), "mb".to_string(), 0, &closeness).unwrap();
    h.insert("c".to_string(), (1, 1), "mc".to_string(), 0, &closeness).unwrap();
    h.delete_node_by_id("b").unwrap();
    h.reindex().unwrap();
    assert_eq!(h.nodes.len(), 2);
    assert_eq!((h.nodes[0].node_id.as_str(), h.nodes[1].node_id.as_str()), ("a", "c"));
    assert_eq!(h.get_node_by_id("c").unwrap().metadata, "mc");
    assert!(h.get_node_by_id("b").is_none());
    assert_eq!(h.tombstone_count(), 0);
    assert_eq!(h.entry_point, Some(0));
    assert_eq!(h.nodes[0].neighbors[0], vec![1]);
    assert_eq!(h.nodes[1].neighbors[0], vec![0]);
}

#[test]
fn full_beam_search_matches_brute_force() {
    let g = grid();
    let n = g.nodes.len();
    for q in [(0, 0), (4, 4), (10, 9), (-3, 7)] {
        for k in [1, 3, 8, 20] {
            let fast: Vec<i64> = g.search(&q, k, Some(n), &closeness).into_iter().map(|(_, s)| s).collect();
            let exact: Vec<i64> = g.brute_force_search(&q, k, &closeness).into_iter().map(|(_, s)| s).collect();
            assert_eq!(fast, exact);
        }
    }
}

#[test]
fn deleting_the_entry_point_moves_it_to_a_live_node() {
    let mut g = grid();
    while let Some(e) = g.entry_point {
        let id = g.nodes[e].node_id.clone();
        g.delete_node_by_id(&id).unwrap();
        if let Some(e2) = g.entry_point {
            assert!(!g.nodes[e2].tombstone);
        }
    }
    assert_eq!(g.active_count(), 0);
}

#[test]
fn narrow_beam_search_returns_k_hits_or_covers_the_graph() {
    let g = grid();
    for k in [1, 3, 5] {
        assert_eq!(g.search(&(4, 4), k, Some(2), &closeness).len(), k);
    }
    let all = g.search(&(4, 4), 50, Some(2), &closeness);
    assert_eq!(all.len(), g.active_count());
}
