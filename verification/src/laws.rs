//! Properties of the library that relate several operations.

use vstd::prelude::*;
use crate::catalog::{is_sync_report, names_of, touched};
use crate::service::listed;
use crate::data::{SourceView, VectorBase, first_named, first_with_id};
use crate::hnsw::graph::{Hnsw, Node, nbs};
use crate::hnsw::reindex::{compacted, rank, lemma_rank_injective, lemma_source};
use crate::hnsw::tombstone::{count_dead, count_live, lemma_live_plus_dead};
use crate::hnsw::insert::same_payload;
use crate::page::{PAGE_SIZE, total_pages_spec, served_page_spec};
use crate::hnsw::search::{lemma_live_hits_first, keeps_best_seen, layer0_closed, lists_node, top_of, live_hits, hit_of, lemma_live_hits_all_live, scored_by, hits_sorted, hits_distinct};
use crate::ranking::{Scored, ids_distinct, sorted_desc};
use crate::ingest::{chunk_state, chunks_spec, lemma_chunk_state_filled, lemma_chunk_state_linked, starts_with_tail_of};
use crate::backup::{ahead_count, due_in, effective_interval, is_backup_file, later, ranks_ahead, to_remove};

verus! {

/// A node of a well-formed graph is what a lookup of its identifier finds:
/// once `insert` has put a node at index `i`, `get_node_by_id` with its
/// identifier returns that node.
pub proof fn law_lookup_finds_node<V>(g: Hnsw<V>, i: int)
    requires
        g.wf(),
        0 <= i < g.n(),
    ensures
        g.index_of(g.nodes@[i].node_id@) == Some(i),
{
    let id = g.nodes@[i].node_id@;
    assert(g.nodes@[i].node_id@ == id);
    let k = choose|k: int| 0 <= k < g.n() && (#[trigger] g.nodes@[k]).node_id@ == id;
    if k != i {
        assert(g.nodes@[k].node_id@ != g.nodes@[i].node_id@);
    }
}

/// Deleting a node soft-deletes it only: the live count drops by one when it
/// was live (and is unchanged otherwise), the deleted count grows by the
/// same amount, and the number of nodes stays the same.
pub proof fn law_delete_counts<V>(s: Seq<Node<V>>, i: int)
    requires
        0 <= i < s.len(),
    ensures
        count_live(s.update(i, Node { tombstone: true, ..s[i] })) == count_live(s) - if s[i].tombstone { 0int } else { 1int },
        count_dead(s.update(i, Node { tombstone: true, ..s[i] })) == count_dead(s) + if s[i].tombstone { 0int } else { 1int },
    decreases s.len(),
{
    let t = s.update(i, Node { tombstone: true, ..s[i] });
    if i < s.len() - 1 {
        law_delete_counts(s.drop_last(), i);
        assert(t.drop_last() == s.drop_last().update(i, Node { tombstone: true, ..s[i] }));
        assert(t.last() == s.last());
    } else {
        assert(t.drop_last() == s.drop_last());
    }
}

/// Every node is counted once: live plus deleted is the number of nodes.
pub proof fn law_live_and_dead_add_up<V>(g: Hnsw<V>)
    ensures
        count_live(g.nodes@) + count_dead(g.nodes@) == g.n(),
{
    lemma_live_plus_dead(g.nodes@);
}

/// Compaction keeps every live node and drops every deleted one: afterwards
/// nothing is deleted, the number of live nodes is unchanged, and each live
/// node is found again under its identifier.
pub proof fn law_reindex_keeps_live_nodes<V>(a: Seq<Node<V>>, b: Seq<Node<V>>)
    requires
        compacted(a, b),
    ensures
        count_dead(b) == 0,
        count_live(b) == count_live(a),
        forall|i: int|
            0 <= i < a.len() && !a[i].tombstone ==> exists|k: int| 0 <= k < b.len() && (#[trigger] b[k]).node_id == a[i].node_id,
{
    assert forall|k: int| 0 <= k < b.len() implies !(#[trigger] b[k]).tombstone by {
        let i = lemma_source(a, k);
    }
    lemma_no_dead_counted(b);
    lemma_live_plus_dead(b);
    assert forall|i: int| 0 <= i < a.len() && !a[i].tombstone implies exists|k: int|
        0 <= k < b.len() && (#[trigger] b[k]).node_id == a[i].node_id by {
        lemma_rank_injective(a, i, i);
        let k = rank(a, i) as int;
        assert(b[k].node_id == a[i].node_id);
    }
}

/// A sequence of live nodes counts no deleted one.
proof fn lemma_no_dead_counted<V>(s: Seq<Node<V>>)
    requires
        forall|k: int| 0 <= k < s.len() ==> !(#[trigger] s[k]).tombstone,
    ensures
        count_dead(s) == 0,
    decreases s.len(),
{
    if s.len() > 0 {
        let d = s.drop_last();
        assert forall|k: int| 0 <= k < d.len() implies !(#[trigger] d[k]).tombstone by {
            assert(d[k] == s[k]);
        }
        lemma_no_dead_counted(d);
    }
}

/// Catalog and disk agree exactly when the comparison reports nothing:
/// a report is clean if and only if the catalog's source names are the
/// directory names found on disk.
pub proof fn law_sync_clean_iff_same_names(
    dom: Set<Seq<char>>,
    fs: Seq<String>,
    orphaned: Seq<String>,
    untracked: Seq<String>,
)
    requires
        is_sync_report(dom, fs, orphaned, untracked),
    ensures
        (orphaned.len() == 0 && untracked.len() == 0) <==> dom == names_of(fs),
{
    let pred = |n: String| !dom.contains(n@);
    if orphaned.len() == 0 && untracked.len() == 0 {
        assert forall|k: Seq<char>| dom.contains(k) <==> names_of(fs).contains(k) by {
            if dom.contains(k) && !names_of(fs).contains(k) {
                let i = choose|i: int| 0 <= i < orphaned.len() && (#[trigger] orphaned[i])@ == k;
            }
            if names_of(fs).contains(k) && !dom.contains(k) {
                let i = choose|i: int| 0 <= i < fs.len() && (#[trigger] fs[i])@ == k;
                fs.lemma_filter_contains(pred, i);
            }
        }
        assert(dom =~= names_of(fs));
    }
    if dom == names_of(fs) {
        if untracked.len() > 0 {
            fs.lemma_filter_pred(pred, 0);
            let e = untracked[0];
            assert(fs.filter(pred).contains(e));
            fs.lemma_filter_contains_rev(pred, e);
            let i = choose|i: int| 0 <= i < fs.len() && fs[i] == e;
            assert(names_of(fs).contains(fs[i]@));
        }
        if orphaned.len() > 0 {
            assert(dom.contains(orphaned[0]@));
        }
    }
}

/// A vector base added to a source that had none of its name is the one a
/// lookup of that name finds afterwards.
pub proof fn law_added_vector_base_is_found(vbs: Seq<VectorBase>, vb: VectorBase)
    requires
        first_named(vbs, vb.vb_name@) is None,
    ensures
        first_named(vbs.push(vb), vb.vb_name@) == Some(vbs.len() as int),
{
    let t = vbs.push(vb);
    assert(t[vbs.len() as int].vb_name@ == vb.vb_name@);
    assert forall|j: int| 0 <= j < vbs.len() implies (#[trigger] t[j]).vb_name@ != vb.vb_name@ by {
        assert(t[j] == vbs[j]);
        if vbs[j].vb_name@ == vb.vb_name@ {
            assert(exists|i: int| 0 <= i < vbs.len() && (#[trigger] vbs[i]).vb_name@ == vb.vb_name@);
        }
    }
    crate::data::lemma_first_named(t, vb.vb_name@, vbs.len() as int);
}

/// Removing a source right after adding it gives back the catalog it was
/// added to.
pub proof fn law_remove_undoes_add_source(c: Map<Seq<char>, SourceView>, name: Seq<char>, s: SourceView)
    requires
        !c.dom().contains(name),
    ensures
        c.insert(name, s).remove(name) == c,
{
    assert(c.insert(name, s).remove(name) =~= c);
}

/// Removing a vector base by its identifier right after adding it to a
/// source gives back the catalog it was added to, when no vector base of
/// that source had the identifier before: the removal finds the added one.
pub proof fn law_remove_undoes_add_vector_base(c: Map<Seq<char>, SourceView>, name: Seq<char>, vb: VectorBase)
    requires
        c.dom().contains(name),
        first_with_id(c[name].vector_bases, vb.vb_id@) is None,
    ensures
        ({
            let added = c.insert(name, SourceView { vector_bases: c[name].vector_bases.push(vb), ..c[name] });
            &&& first_with_id(added[name].vector_bases, vb.vb_id@) == Some(c[name].vector_bases.len() as int)
            &&& added.insert(
                name,
                SourceView {
                    vector_bases: added[name].vector_bases.remove(c[name].vector_bases.len() as int),
                    ..added[name]
                },
            ) == c
        }),
{
    let vbs = c[name].vector_bases;
    let t = vbs.push(vb);
    let added = c.insert(name, SourceView { vector_bases: t, ..c[name] });
    assert(added[name].vector_bases == t);
    assert forall|j: int| 0 <= j < vbs.len() implies (#[trigger] t[j]).vb_id@ != vb.vb_id@ by {
        assert(t[j] == vbs[j]);
        if vbs[j].vb_id@ == vb.vb_id@ {
            assert(exists|i: int| 0 <= i < vbs.len() && (#[trigger] vbs[i]).vb_id@ == vb.vb_id@);
        }
    }
    assert(t[vbs.len() as int] == vb);
    crate::data::lemma_first_with_id(t, vb.vb_id@, vbs.len() as int);
    assert(t.remove(vbs.len() as int) =~= vbs);
    let back = added.insert(name, SourceView { vector_bases: t.remove(vbs.len() as int), ..added[name] });
    assert(back[name] == c[name]);
    assert(back =~= c);
}

/// The pages cover the entries exactly once: entry `i` is on page
/// `i / PAGE_SIZE + 1`, which is served as requested, and on no other page
/// that is served as requested.
pub proof fn law_pages_partition_entries(total: int, i: int, q: int)
    requires
        0 <= i < total,
    ensures
        ({
            let p = i / PAGE_SIZE as int + 1;
            &&& 1 <= p <= total_pages_spec(total)
            &&& served_page_spec(total, p) == p
            &&& (p - 1) * PAGE_SIZE <= i < p * PAGE_SIZE
        }),
        served_page_spec(total, q) == q && (q - 1) * PAGE_SIZE <= i < q * PAGE_SIZE ==> q == i / PAGE_SIZE as int + 1,
{
    let p = i / PAGE_SIZE as int + 1;
    assert((p - 1) * PAGE_SIZE <= i < p * PAGE_SIZE) by (nonlinear_arith)
        requires
            p == i / 1024 + 1,
            0 <= i,
            PAGE_SIZE == 1024,
    ;
    assert(p <= total_pages_spec(total)) by (nonlinear_arith)
        requires
            p == i / 1024 + 1,
            0 <= i < total,
            total_pages_spec(total) == (total + 1023) / 1024,
    ;
    if served_page_spec(total, q) == q && (q - 1) * PAGE_SIZE <= i < q * PAGE_SIZE {
        assert(q == p) by (nonlinear_arith)
            requires
                (q - 1) * 1024 <= i < q * 1024,
                (p - 1) * 1024 <= i < p * 1024,
        ;
    }
}

/// When every file ahead of `f` is ahead of `g`, at least as many files
/// are ahead of `g`.
proof fn lemma_ahead_count_mono(files: Seq<(String, (i64, u32))>, pattern: Seq<char>, f: int, g: int, bound: int)
    requires
        forall|j: int| 0 <= j < bound && ranks_ahead(files, pattern, f, j) ==> ranks_ahead(files, pattern, g, j),
    ensures
        ahead_count(files, pattern, g, bound) >= ahead_count(files, pattern, f, bound),
    decreases bound,
{
    if bound > 0 {
        lemma_ahead_count_mono(files, pattern, f, g, bound - 1);
    }
}

/// ... and one more when some file is ahead of `g` but not of `f`.
proof fn lemma_ahead_count_more(files: Seq<(String, (i64, u32))>, pattern: Seq<char>, f: int, g: int, w: int, bound: int)
    requires
        forall|j: int| 0 <= j < bound && ranks_ahead(files, pattern, f, j) ==> ranks_ahead(files, pattern, g, j),
        0 <= w < bound,
        ranks_ahead(files, pattern, g, w),
        !ranks_ahead(files, pattern, f, w),
    ensures
        ahead_count(files, pattern, g, bound) >= ahead_count(files, pattern, f, bound) + 1,
    decreases bound,
{
    if w < bound - 1 {
        lemma_ahead_count_more(files, pattern, f, g, w, bound - 1);
    } else {
        lemma_ahead_count_mono(files, pattern, f, g, bound - 1);
    }
}

/// Pruning keeps the newest backups: every backup kept is newer than every
/// backup removed, or as new and listed before it.
pub proof fn law_kept_backups_are_newest(
    files: Seq<(String, (i64, u32))>,
    pattern: Seq<char>,
    max_backups: nat,
    f: int,
    g: int,
)
    requires
        0 <= f < files.len(),
        0 <= g < files.len(),
        to_remove(files, pattern, max_backups, f),
        is_backup_file(files[g].0@, pattern),
        !to_remove(files, pattern, max_backups, g),
    ensures
        later(files[g].1, files[f].1) || (files[g].1 == files[f].1 && g < f),
{
    let n = files.len() as int;
    if !(later(files[g].1, files[f].1) || (files[g].1 == files[f].1 && g < f)) {
        assert(f != g);
        assert(ranks_ahead(files, pattern, g, f));
        assert(!ranks_ahead(files, pattern, f, f));
        assert forall|j: int| 0 <= j < n && ranks_ahead(files, pattern, f, j) implies ranks_ahead(files, pattern, g, j) by {}
        lemma_ahead_count_more(files, pattern, f, g, f, n);
    }
}

/// The backups pruning keeps: backup archives not removed.
pub open spec fn kept_backups(files: Seq<(String, (i64, u32))>, pattern: Seq<char>, max_backups: nat) -> Set<int> {
    Set::new(
        |i: int|
            0 <= i < files.len() && is_backup_file(files[i].0@, pattern) && !to_remove(files, pattern, max_backups, i),
    )
}

/// Between two distinct backups, one is ahead of the other, and the one
/// behind has more backups ahead of it.
proof fn lemma_ahead_counts_differ(files: Seq<(String, (i64, u32))>, pattern: Seq<char>, i: int, j: int)
    requires
        0 <= i < files.len(),
        0 <= j < files.len(),
        i != j,
        is_backup_file(files[i].0@, pattern),
        is_backup_file(files[j].0@, pattern),
    ensures
        ahead_count(files, pattern, i, files.len() as int) != ahead_count(files, pattern, j, files.len() as int),
{
    let n = files.len() as int;
    if ranks_ahead(files, pattern, i, j) {
        assert(!ranks_ahead(files, pattern, j, j));
        assert forall|k: int| 0 <= k < n && ranks_ahead(files, pattern, j, k) implies ranks_ahead(files, pattern, i, k) by {}
        lemma_ahead_count_more(files, pattern, j, i, j, n);
    } else {
        assert(ranks_ahead(files, pattern, j, i));
        assert(!ranks_ahead(files, pattern, i, i));
        assert forall|k: int| 0 <= k < n && ranks_ahead(files, pattern, i, k) implies ranks_ahead(files, pattern, j, k) by {}
        lemma_ahead_count_more(files, pattern, i, j, i, n);
    }
}

/// Pruning keeps at most `max_backups` backups.
pub proof fn law_at_most_max_backups_kept(files: Seq<(String, (i64, u32))>, pattern: Seq<char>, max_backups: nat)
    ensures
        kept_backups(files, pattern, max_backups).finite(),
        kept_backups(files, pattern, max_backups).len() <= max_backups,
{
    let n = files.len() as int;
    let k = kept_backups(files, pattern, max_backups);
    let f = |i: int| ahead_count(files, pattern, i, n) as int;
    vstd::set_lib::lemma_int_range(0, n);
    vstd::set_lib::lemma_len_subset(k, vstd::set_lib::set_int_range(0, n));
    assert(vstd::relations::injective_on(f, k)) by {
        assert forall|a: int, b: int| k.contains(a) && k.contains(b) && #[trigger] f(a) == #[trigger] f(b) implies a == b by {
            if a != b {
                lemma_ahead_counts_differ(files, pattern, a, b);
            }
        }
    }
    let image = k.map(f);
    vstd::set_lib::lemma_map_size(k, image, f);
    vstd::set_lib::lemma_int_range(0, max_backups as int);
    assert(image.subset_of(vstd::set_lib::set_int_range(0, max_backups as int))) by {
        assert forall|v: int| image.contains(v) implies vstd::set_lib::set_int_range(0, max_backups as int).contains(v) by {
            let a = choose|a: int| k.contains(a) && f(a) == v;
        }
    }
    vstd::set_lib::lemma_len_subset(image, vstd::set_lib::set_int_range(0, max_backups as int));
}

/// How many nodes live in layer `l`.
pub open spec fn layer_count<V>(ns: Seq<Node<V>>, l: int) -> nat
    decreases ns.len(),
{
    if ns.len() == 0 {
        0
    } else {
        layer_count(ns.drop_last(), l) + if ns.last().max_level >= l { 1nat } else { 0nat }
    }
}

/// Layers thin out going up: layer 0 holds every node, and no layer holds
/// more nodes than the one below it.
pub proof fn law_layers_shrink<V>(ns: Seq<Node<V>>, l: int)
    requires
        l >= 0,
    ensures
        layer_count(ns, 0) == ns.len(),
        layer_count(ns, l + 1) <= layer_count(ns, l),
    decreases ns.len(),
{
    if ns.len() > 0 {
        law_layers_shrink(ns.drop_last(), l);
    }
}

/// An exhaustive search puts a best match first: when `k >= 1` and a live
/// node exists, the first result scores at least as high as every live
/// node (so a stored vector queried for itself, under a score that is
/// highest for equal vectors, comes back first or tied first).
pub proof fn law_brute_force_best_first<V>(g: Hnsw<V>, s: Seq<i64>, k: usize, r: Seq<(String, i64)>)
    requires
        g.wf(),
        s.len() == g.n(),
        g.top_k_by(s, k, r),
        k >= 1,
        count_live(g.nodes@) >= 1,
    ensures
        r.len() >= 1,
        forall|i: int| 0 <= i < g.n() && !g.nodes@[i].tombstone ==> s[i] <= r[0].1,
{
    assert forall|i: int| 0 <= i < g.n() && !g.nodes@[i].tombstone implies s[i] <= r[0].1 by {
        if exists|j: int| 0 <= j < r.len() && (#[trigger] r[j]).0@ == g.nodes@[i].node_id@ {
            let j = choose|j: int| 0 <= j < r.len() && (#[trigger] r[j]).0@ == g.nodes@[i].node_id@;
            let i2 = choose|i2: int|
                0 <= i2 < g.n() && !g.nodes@[i2].tombstone && #[trigger] g.nodes@[i2].node_id@ == (#[trigger] r[j]).0@
                    && s[i2] == r[j].1;
            if i2 != i {
                assert(g.nodes@[i2].node_id@ != g.nodes@[i].node_id@);
            }
            if j > 0 {
                assert(r[0].1 >= r[j].1);
            }
        } else {
            assert(r[0].0@ != g.nodes@[i].node_id@);
        }
    }
}

/// The position in `c` of an entry for node `i`.
pub open spec fn slot_of(c: Seq<Scored>, i: int) -> int {
    choose|q: int| 0 <= q < c.len() && c[q].0 == i
}

/// The layer-0 graph is connected: the only set of search entries that
/// holds some node and each neighbor at layer 0 of every node it holds is
/// one that holds every node.
pub open spec fn layer0_connected<V>(ns: Seq<Node<V>>) -> bool {
    forall|start: int, c: Seq<Scored>|
        #![trigger layer0_closed(ns, start, c)]
        0 <= start < ns.len() && layer0_closed(ns, start, c) ==> forall|i: int| 0 <= i < ns.len() ==> lists_node(c, i)
}

/// A search whose beam covers the whole graph finds what an exhaustive
/// search finds, when nothing is deleted and the graph is connected at
/// layer 0: its hits are the `k` best nodes by score (ties aside), as
/// `brute_force_search` promises.
pub proof fn law_full_beam_search_is_exact<V, Q, F: Fn(&Q, &V) -> i64>(
    g: Hnsw<V>,
    query: &Q,
    sim: &F,
    k: usize,
    r: Seq<(String, i64)>,
)
    requires
        g.wf(),
        forall|i: int| 0 <= i < g.n() ==> !(#[trigger] g.nodes@[i]).tombstone,
        layer0_connected(g.nodes@),
        g.full_beam_hits(query, sim, k, r),
    ensures
        exists|s: Seq<i64>|
            s.len() == g.n() && (forall|i: int|
                0 <= i < g.n() && !g.nodes@[i].tombstone ==> scored_by(sim, query, g.nodes@, i, #[trigger] s[i]))
                && g.top_k_by(s, k, r),
{
    let ns = g.nodes@;
    let n = g.n();
    let (start, c, t) = choose|start: int, c: Seq<Scored>, t: Seq<Scored>|
        #![trigger layer0_closed(ns, start, c), top_of(c, k, t)]
        0 <= start < n && layer0_closed(ns, start, c) && ids_distinct(c) && (forall|m: int|
            0 <= m < c.len() ==> (#[trigger] c[m]).0 < n && scored_by(sim, query, ns, c[m].0 as int, c[m].1)) && top_of(c, k, t)
            && r == live_hits(ns, t);
    assert(layer0_closed(ns, start, c));
    assert forall|i: int| 0 <= i < n implies lists_node(c, i) by {}
    // Every node is listed once, so `c` has `n` entries.
    let ids = c.map_values(|e: Scored| e.0 as int);
    assert(ids.no_duplicates()) by {
        assert forall|a: int, b: int| 0 <= a < ids.len() && 0 <= b < ids.len() && a != b implies ids[a] != ids[b] by {
            if a < b {
                assert(c[a].0 != c[b].0);
            } else {
                assert(c[b].0 != c[a].0);
            }
        }
    }
    ids.unique_seq_to_set();
    assert(ids.to_set() =~= vstd::set_lib::set_int_range(0, n as int)) by {
        assert forall|i: int| ids.to_set().contains(i) implies 0 <= i < n by {
            let q = choose|q: int| 0 <= q < ids.len() && ids[q] == i;
            assert(c[q].0 < n);
        }
        assert forall|i: int| 0 <= i < n implies ids.to_set().contains(i) by {
            assert(lists_node(c, i));
            let q = choose|q: int| #![trigger c[q]] 0 <= q < c.len() && c[q].0 == i;
            assert(ids[q] == i);
        }
    }
    vstd::set_lib::lemma_int_range(0, n as int);
    assert(c.len() == n);
    lemma_no_dead_counted(ns);
    lemma_live_plus_dead(ns);
    assert(count_live(ns) == n);
    // The score of each node is the one `c` gives it.
    let s = Seq::new(n as nat, |i: int| c[slot_of(c, i)].1);
    assert forall|i: int| 0 <= i < n implies 0 <= #[trigger] slot_of(c, i) < c.len() && c[slot_of(c, i)].0 == i by {
        assert(lists_node(c, i));
        let q0 = choose|q: int| #![trigger c[q]] 0 <= q < c.len() && c[q].0 == i;
        assert(0 <= q0 < c.len() && c[q0].0 == i);
    }
    assert forall|i: int| 0 <= i < n && !ns[i].tombstone implies scored_by(sim, query, ns, i, #[trigger] s[i]) by {
        let q = slot_of(c, i);
        assert(c[q] == c[q]);
    }
    // The hits are all of `t`, as every node is live.
    assert forall|j: int| 0 <= j < t.len() implies !ns[(#[trigger] t[j]).0 as int].tombstone by {
        assert(c.contains(t[j]));
        let q = choose|q: int| 0 <= q < c.len() && c[q] == t[j];
        assert(c[q].0 < n);
    }
    lemma_live_hits_all_live(ns, t);
    assert(r == t.map_values(hit_of(ns)));
    assert forall|j: int| 0 <= j < t.len() implies (#[trigger] t[j]).0 < n && s[t[j].0 as int] == t[j].1 by {
        assert(c.contains(t[j]));
        let q = choose|q: int| 0 <= q < c.len() && c[q] == t[j];
        assert(c[q].0 < n);
        let i = t[j].0 as int;
        let q2 = slot_of(c, i);
        assert(0 <= q2 < c.len() && c[q2].0 == i);
        if q2 != q {
            if q2 < q {
                assert(c[q2].0 != c[q].0);
            } else {
                assert(c[q].0 != c[q2].0);
            }
        }
    }
    assert(hits_sorted(r)) by {
        assert forall|a: int, b: int| 0 <= a < b < r.len() implies r[a].1 >= r[b].1 by {
            assert(r[a] == hit_of(ns)(t[a]) && r[b] == hit_of(ns)(t[b]));
        }
    }
    assert(hits_distinct(r)) by {
        assert forall|a: int, b: int| 0 <= a < b < r.len() implies r[a].0@ != r[b].0@ by {
            assert(r[a] == hit_of(ns)(t[a]) && r[b] == hit_of(ns)(t[b]));
            assert(t[a].0 != t[b].0);
            assert(t[a].0 < n && t[b].0 < n);
            assert(ns[t[a].0 as int].node_id@ != ns[t[b].0 as int].node_id@);
        }
    }
    assert forall|j: int| 0 <= j < r.len() implies exists|i: int|
        0 <= i < g.n() && !g.nodes@[i].tombstone && #[trigger] g.nodes@[i].node_id@ == (#[trigger] r[j]).0@ && s[i] == r[j].1 by {
        assert(r[j] == hit_of(ns)(t[j]));
        let i = t[j].0 as int;
        assert(g.nodes@[i].node_id@ == r[j].0@);
    }
    assert forall|i: int|
        0 <= i < g.n() && !g.nodes@[i].tombstone && (forall|j: int|
            0 <= j < r.len() ==> (#[trigger] r[j]).0@ != g.nodes@[i].node_id@) implies forall|j: int|
        0 <= j < r.len() ==> s[i] <= (#[trigger] r[j]).1 by {
        let q = slot_of(c, i);
        assert(0 <= q < c.len() && c[q].0 == i);
        let e = c[q];
        assert(c.contains(e));
        if t.contains(e) {
            let j = choose|j: int| 0 <= j < t.len() && t[j] == e;
            assert(r[j] == hit_of(ns)(t[j]));
            assert(r[j].0@ == g.nodes@[i].node_id@);
        }
        assert forall|j: int| 0 <= j < r.len() implies s[i] <= (#[trigger] r[j]).1 by {
            assert(r[j] == hit_of(ns)(t[j]));
            assert(e.1 <= t[j].1);
        }
    }
    assert(g.top_k_by(s, k, r));
    assert(s.len() == g.n() && (forall|i: int|
        0 <= i < g.n() && !g.nodes@[i].tombstone ==> scored_by(sim, query, g.nodes@, i, #[trigger] s[i]))
        && g.top_k_by(s, k, r));
}

/// No live node exactly when the live count is zero.
proof fn lemma_count_live_zero<V>(s: Seq<Node<V>>)
    ensures
        count_live(s) == 0 <==> forall|k: int| 0 <= k < s.len() ==> (#[trigger] s[k]).tombstone,
    decreases s.len(),
{
    if s.len() > 0 {
        let d = s.drop_last();
        lemma_count_live_zero(d);
        if forall|k: int| 0 <= k < s.len() ==> (#[trigger] s[k]).tombstone {
            assert forall|k: int| 0 <= k < d.len() implies (#[trigger] d[k]).tombstone by {
                assert(d[k] == s[k]);
            }
            assert(s[s.len() - 1].tombstone);
        }
        if count_live(s) == 0 {
            assert forall|k: int| 0 <= k < s.len() implies (#[trigger] s[k]).tombstone by {
                if k < d.len() {
                    assert(d[k] == s[k]);
                }
            }
        }
    }
}

/// The entry point is set exactly when some node is live, and is then a
/// live node.
pub open spec fn entry_is_live<V>(g: Hnsw<V>) -> bool {
    &&& (g.entry_point is None <==> count_live(g.nodes@) == 0)
    &&& g.entry_point matches Some(e) ==> 0 <= e < g.n() && !g.nodes@[e as int].tombstone
}

/// Every node's top layer is below the graph's layer count.
pub open spec fn levels_in_range<V>(g: Hnsw<V>) -> bool {
    forall|i: int| 0 <= i < g.n() ==> (#[trigger] g.nodes@[i]).max_level < g.max_layers
}

/// Deleting keeps the entry point on a live node, and unset only when no
/// node is live: from a graph where that holds and every level is below
/// the layer count, the graph `delete_node_by_id` leaves after deleting
/// node `i` (as its contract describes it) has it too.
pub proof fn law_delete_keeps_entry_live<V>(a: Hnsw<V>, b: Hnsw<V>, i: int)
    requires
        a.wf(),
        entry_is_live(a),
        levels_in_range(a),
        0 <= i < a.n(),
        b.nodes@ == a.nodes@.update(i, Node { tombstone: true, ..a.nodes@[i] }),
        b.max_layers == a.max_layers,
        if a.entry_point == Some(i as usize) {
            match b.entry_point {
                Some(e) => b.entry_choice(e as int),
                None => b.no_entry_choice(),
            }
        } else {
            b.entry_point == a.entry_point
        },
    ensures
        entry_is_live(b),
{
    lemma_count_live_zero(a.nodes@);
    lemma_count_live_zero(b.nodes@);
    match b.entry_point {
        Some(e) => {
            if a.entry_point == Some(i as usize) {
                assert(!b.nodes@[e as int].tombstone);
            } else {
                assert(e as int != i);
                assert(b.nodes@[e as int] == a.nodes@[e as int]);
            }
            assert(!(forall|k: int| 0 <= k < b.n() ==> (#[trigger] b.nodes@[k]).tombstone));
        },
        None => {
            if a.entry_point == Some(i as usize) {
                assert forall|k: int| 0 <= k < b.n() implies (#[trigger] b.nodes@[k]).tombstone by {
                    if k != i {
                        assert(b.nodes@[k] == a.nodes@[k]);
                        assert(a.nodes@[k].max_level < a.max_layers);
                    }
                }
            } else {
                assert(a.entry_point is None);
                assert forall|k: int| 0 <= k < b.n() implies (#[trigger] b.nodes@[k]).tombstone by {
                    if k != i {
                        assert(b.nodes@[k] == a.nodes@[k]);
                    }
                }
            }
        },
    }
}

/// Inserting keeps the entry point on a live node: the graph `insert`
/// leaves after adding the live node `idx` (as its contract describes it)
/// has its entry point set, on a live node.
pub proof fn law_insert_keeps_entry_live<V>(a: Hnsw<V>, b: Hnsw<V>, idx: int)
    requires
        entry_is_live(a),
        idx == a.n(),
        b.n() == a.n() + 1,
        !b.nodes@[idx].tombstone,
        forall|k: int| 0 <= k < a.n() ==> same_payload(#[trigger] b.nodes@[k], a.nodes@[k]),
        b.entry_point == match a.entry_point {
            None => Some(idx as usize),
            Some(e) => if b.nodes@[idx].max_level > a.nodes@[e as int].max_level {
                Some(idx as usize)
            } else {
                Some(e)
            },
        },
    ensures
        entry_is_live(b),
{
    lemma_count_live_zero(b.nodes@);
    assert(a.nodes.len() == a.n());
    assert((idx as usize) as int == idx);
    match b.entry_point {
        Some(e) => {
            if e as int != idx {
                assert(same_payload(b.nodes@[e as int], a.nodes@[e as int]));
            }
            assert(!b.nodes@[e as int].tombstone);
            assert(!(forall|k: int| 0 <= k < b.n() ==> (#[trigger] b.nodes@[k]).tombstone));
        },
        None => {},
    }
}

/// Once `insert` has placed a node with identifier `id` at `idx` in a
/// well-formed graph, a lookup of `id` finds it, with its vector, metadata
/// and level, and not deleted.
pub proof fn law_inserted_node_is_found<V>(b: Hnsw<V>, idx: int, id: Seq<char>, vector: V, metadata: Seq<char>, level: usize)
    requires
        b.wf(),
        0 <= idx < b.n(),
        b.nodes@[idx].node_id@ == id,
        b.nodes@[idx].vector == vector,
        b.nodes@[idx].metadata@ == metadata,
        b.nodes@[idx].max_level == level,
        !b.nodes@[idx].tombstone,
    ensures
        b.index_of(id) == Some(idx),
        b.nodes@[b.index_of(id)->0].vector == vector && b.nodes@[b.index_of(id)->0].metadata@ == metadata
            && b.nodes@[b.index_of(id)->0].max_level == level && !b.nodes@[b.index_of(id)->0].tombstone,
{
    law_lookup_finds_node(b, idx);
}

/// A beam search never drops a node it has seen in favour of a worse one:
/// where node `x` has the one score `sx` against the query, and the search
/// came upon `x`, then `x` is among the results as soon as `sx` is higher
/// than the score of any node kept.
pub proof fn law_beam_keeps_what_beats_it<Q, V, F: Fn(&Q, &V) -> i64>(
    sim: &F,
    query: &Q,
    ns: Seq<Node<V>>,
    layer: int,
    entry: int,
    ef: int,
    r: Seq<Scored>,
    visited: Seq<bool>,
    sc: Seq<i64>,
    x: int,
    sx: i64,
    k: int,
)
    requires
        keeps_best_seen(sim, query, ns, layer, entry, ef, r, visited, sc),
        0 <= x < ns.len(),
        visited[x],
        forall|s: i64| #[trigger] scored_by(sim, query, ns, x, s) ==> s == sx,
        0 <= k < r.len(),
        sx > r[k].1,
    ensures
        lists_node(r, x),
{
    if !lists_node(r, x) {
        assert(scored_by(sim, query, ns, x, sc[x]));
        assert(sc[x] <= r[k].1);
    }
}

/// A node that scores strictly above every other node comes first out of a
/// beam search that came upon it: with a score that is highest exactly on
/// the query's own vector, a stored copy of the query is the first result.
pub proof fn law_beam_puts_best_seen_first<Q, V, F: Fn(&Q, &V) -> i64>(
    sim: &F,
    query: &Q,
    ns: Seq<Node<V>>,
    layer: int,
    entry: int,
    ef: int,
    r: Seq<Scored>,
    visited: Seq<bool>,
    sc: Seq<i64>,
    x: int,
)
    requires
        keeps_best_seen(sim, query, ns, layer, entry, ef, r, visited, sc),
        r.len() >= 1,
        sorted_desc(r),
        ids_distinct(r),
        forall|j: int| 0 <= j < r.len() ==> (#[trigger] r[j]).0 < ns.len() && scored_by(sim, query, ns, r[j].0 as int, r[j].1),
        0 <= x < ns.len(),
        visited[x],
        forall|y: int, sy: i64, s: i64|
            0 <= y < ns.len() && y != x && #[trigger] scored_by(sim, query, ns, y, sy) && #[trigger] scored_by(
                sim,
                query,
                ns,
                x,
                s,
            ) ==> sy < s,
    ensures
        r[0].0 == x,
{
    if !lists_node(r, x) {
        assert(scored_by(sim, query, ns, x, sc[x]));
        assert(sc[x] <= r[0].1);
        assert(scored_by(sim, query, ns, r[0].0 as int, r[0].1));
        assert(r[0].0 as int != x);
    } else {
        let w = choose|w: int| #![trigger r[w]] 0 <= w < r.len() && r[w].0 == x;
        if w != 0 {
            assert(r[0].0 != r[w].0);
            assert(scored_by(sim, query, ns, r[w].0 as int, r[w].1));
            assert(scored_by(sim, query, ns, r[0].0 as int, r[0].1));
            assert(r[0].1 >= r[w].1);
        }
    }
}

/// Chunking never yields an empty chunk: a chunk is closed only once it
/// holds words, and the last one is kept only when it holds some.
pub proof fn law_chunks_hold_words(lines: Seq<Seq<Seq<char>>>, size: nat, overlap: nat)
    ensures
        forall|k: int|
            0 <= k < chunks_spec(lines, size, overlap).len() ==> (#[trigger] chunks_spec(lines, size, overlap)[k]).len() > 0,
{
    lemma_chunk_state_filled(lines, size, overlap);
}

/// The interval of a database falls back one step at a time: its own
/// setting when it is not `0`, else its source's when that is not `0`
/// (`-1`, never, included), else the default; at `-1` the database is never
/// due, whatever its schedule says.
pub proof fn law_effective_interval_falls_back(
    default_hours: u32,
    c: Map<Seq<char>, SourceView>,
    source: Seq<char>,
    database: Seq<char>,
    j: int,
    now: (i64, u32),
)
    requires
        c.dom().contains(source),
        first_named(c[source].vector_bases, database) == Some(j),
    ensures
        c[source].vector_bases[j].backup_interval_hours != 0 ==> effective_interval(default_hours, c, source, database)
            == c[source].vector_bases[j].backup_interval_hours,
        c[source].vector_bases[j].backup_interval_hours == 0 && c[source].backup_interval_hours != 0 ==> effective_interval(
            default_hours,
            c,
            source,
            database,
        ) == c[source].backup_interval_hours,
        c[source].vector_bases[j].backup_interval_hours == 0 && c[source].backup_interval_hours == 0 ==> effective_interval(
            default_hours,
            c,
            source,
            database,
        ) == default_hours as i32,
        effective_interval(default_hours, c, source, database) == -1 ==> !due_in(default_hours, c[source], j, now),
{
}

/// A source whose backups are switched off (interval `-1`) switches them
/// off for every database of it that inherits its setting (interval `0`):
/// such a database is never due, and a lookup of a database in that source
/// gives `-1` unless the database sets an interval of its own.
pub proof fn law_disabled_source_stays_disabled(
    default_hours: u32,
    c: Map<Seq<char>, SourceView>,
    source: Seq<char>,
    database: Seq<char>,
    now: (i64, u32),
)
    requires
        c.dom().contains(source),
        c[source].backup_interval_hours == -1,
    ensures
        forall|j: int|
            0 <= j < c[source].vector_bases.len() && (#[trigger] c[source].vector_bases[j]).backup_interval_hours == 0
                ==> !due_in(default_hours, c[source], j, now),
        effective_interval(default_hours, c, source, database) == match first_named(c[source].vector_bases, database) {
            Some(j) => if c[source].vector_bases[j].backup_interval_hours == 0 {
                -1i32
            } else {
                c[source].vector_bases[j].backup_interval_hours
            },
            None => -1i32,
        },
{
}

/// The listing reports what is stored: each database's identifier, name,
/// dimension, node count, metric and creation time, field for field; so
/// after the node count of a database was set to `count` (which changes
/// nothing else but its last-query time), its listing shows `count` as the
/// node count and its dimension unchanged.
pub proof fn law_listing_shows_stored_fields(before: VectorBase, after: VectorBase, count: u32)
    requires
        touched(VectorBase { node_count: count, ..before }, after),
    ensures
        listed(after).id == after.vb_id,
        listed(after).name == after.vb_name,
        listed(after).dimensions == after.dimension as usize,
        listed(after).node_count == after.node_count as usize,
        listed(after).metrics == after.metric_type,
        listed(after).created_at == after.created_at,
        listed(after).node_count == count as usize,
        listed(after).dimensions == before.dimension as usize,
{
}

/// A search hands back first the node that scores strictly above every
/// other node, whenever its layer-0 beam came upon that node and the node is
/// live: with a score that is highest exactly on the query's own vector, a
/// stored copy of the query is the first hit.
pub proof fn law_search_returns_best_seen_first<V, Q, F: Fn(&Q, &V) -> i64>(
    g: Hnsw<V>,
    query: &Q,
    sim: &F,
    k: usize,
    ef: usize,
    start: int,
    c: Seq<Scored>,
    t: Seq<Scored>,
    visited: Seq<bool>,
    sc: Seq<i64>,
    q: Seq<Scored>,
    x: int,
)
    requires
        g.beam_top_of(query, sim, k, ef, start, c, t, visited, sc, q),
        k >= 1,
        0 <= x < g.n(),
        visited[x],
        !g.nodes@[x].tombstone,
        forall|y: int, sy: i64, s: i64|
            0 <= y < g.n() && y != x && #[trigger] scored_by(sim, query, g.nodes@, y, sy) && #[trigger] scored_by(
                sim,
                query,
                g.nodes@,
                x,
                s,
            ) ==> sy < s,
    ensures
        live_hits(g.nodes@, q).len() >= 1,
        live_hits(g.nodes@, q)[0].0 == g.nodes@[x].node_id,
{
    let ns = g.nodes@;
    let m0: int = if lists_node(c, x) {
        choose|m: int| #![trigger c[m]] 0 <= m < c.len() && c[m].0 == x
    } else {
        assert(scored_by(sim, query, ns, x, sc[x]));
        assert(sc[x] <= c[0].1);
        assert(scored_by(sim, query, ns, c[0].0 as int, c[0].1));
        assert(c[0].0 as int != x);
        0
    };
    assert(t[m0].0 == c[m0].0);
    assert(t[m0].0 as int == x);
    assert(scored_by(sim, query, ns, x, t[m0].1));
    assert(q.len() >= 1);
    assert(t.contains(q[0]));
    let w = choose|w: int| 0 <= w < t.len() && t[w] == q[0];
    assert(scored_by(sim, query, ns, q[0].0 as int, q[0].1));
    if q[0].0 as int != x {
        assert(q[0].1 < t[m0].1);
        if q.contains(t[m0]) {
            let p = choose|p: int| 0 <= p < q.len() && q[p] == t[m0];
            assert(p != 0);
            assert(q[0].1 >= q[p].1);
        } else {
            assert(t.contains(t[m0]));
            assert(t[m0].1 <= q[0].1);
        }
    }
    lemma_live_hits_first(ns, q);
}

/// Neighbouring chunks overlap: each chunk after the first starts with the
/// last `overlap` words of the chunk before it (all of them where that chunk
/// is shorter).
pub proof fn law_chunks_overlap(lines: Seq<Seq<Seq<char>>>, size: nat, overlap: nat, k: int)
    requires
        0 <= k < chunks_spec(lines, size, overlap).len() - 1,
    ensures
        starts_with_tail_of(chunks_spec(lines, size, overlap)[k], chunks_spec(lines, size, overlap)[k + 1], overlap),
{
    lemma_chunk_state_linked(lines, size, overlap);
    let (chunks, cur) = chunk_state(lines, size, overlap);
    let cs = chunks_spec(lines, size, overlap);
    assert(cs[k] == chunks[k]);
    if k < chunks.len() - 1 {
        assert(cs[k + 1] == chunks[k + 1]);
    } else {
        assert(chunks[k] == chunks.last());
        assert(cs[k + 1] == cur);
    }
}

} // verus!
