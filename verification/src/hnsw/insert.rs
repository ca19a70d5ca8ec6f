//! Insertion: connecting a new node at every layer it lives in, and pruning
//! neighbor lists that grow too long.

use vstd::prelude::*;
use super::graph::{Hnsw, HnswError, Node, NodeIndex, nbs, lvl, graph_wf};
use super::edit::{
    copy_list, remove_all, without, lemma_without, agree_off_layer, graph_wf_but, pruned, lemma_pruned_wf,
    edge_added, lemma_edge_added_wf, lemma_push_fresh, lemma_wf_but_bounded,
};
use super::search::{scorer_total, reached, scored_by, lists_node};
use crate::ranking::{Scored, sorted_desc, ids_distinct, sort_desc};

verus! {

/// Whether `x` occurs in `v`.
pub fn list_contains(v: &Vec<NodeIndex>, x: NodeIndex) -> (b: bool)
    ensures
        b == v@.contains(x),
{
    let mut i: usize = 0;
    while i < v.len()
        invariant
            i <= v@.len(),
            forall|k: int| 0 <= k < i ==> v@[k] != x,
        decreases v@.len() - i,
    {
        if v[i] == x {
            assert(v@[i as int] == x);
            return true;
        }
        i = i + 1;
    }
    false
}

/// Two nodes agree on everything but their neighbor lists.
pub open spec fn same_payload<V>(a: Node<V>, b: Node<V>) -> bool {
    &&& a.node_id == b.node_id
    &&& a.metadata == b.metadata
    &&& a.vector == b.vector
    &&& a.max_level == b.max_level
    &&& a.tombstone == b.tombstone
}

/// How an insertion chose the neighbors of the new node `new` at layer `l`,
/// going from nodes `a` to nodes `b`: a beam search from `start` (an old
/// node living at `l`) found the candidates `cands`, live nodes of layer
/// `l` (or `start`) scored against the new node's vector, best first;
/// when the beam `ef` was wider than the old graph, they are every node
/// reached from `start` through live neighbors at `l`. The new node's list
/// holds only members of the first `min(m, |cands|)` of them, and holds
/// each such member whose old list at `l` had room (fewer than `m`
/// entries); a member whose list was full kept its `m` most similar
/// neighbors, which may have left the new node out.
pub open spec fn layer_choice<V, F: Fn(&V, &V) -> i64>(
    sim: &F,
    a: Seq<Node<V>>,
    b: Seq<Node<V>>,
    new: int,
    l: int,
    m: usize,
    ef: usize,
    start: int,
    cands: Seq<Scored>,
) -> bool {
    let take = if m < cands.len() { m as int } else { cands.len() as int };
    &&& 0 <= start < a.len() && l <= lvl(a, start)
    &&& 1 <= cands.len()
    &&& sorted_desc(cands)
    &&& ids_distinct(cands)
    &&& forall|q: int|
        0 <= q < cands.len() ==> (#[trigger] cands[q]).0 < a.len() && l <= lvl(a, cands[q].0 as int) && (cands[q].0
            == start || !a[cands[q].0 as int].tombstone) && scored_by(sim, &b[new].vector, a, cands[q].0 as int, cands[q].1)
    &&& ef > a.len() ==> lists_node(cands, start) && forall|q: int, y: NodeIndex|
        #![trigger cands[q], nbs(a, cands[q].0 as int, l).contains(y)]
        0 <= q < cands.len() && nbs(a, cands[q].0 as int, l).contains(y) && !a[y as int].tombstone ==> lists_node(
            cands,
            y as int,
        )
    &&& forall|x: NodeIndex| #[trigger] nbs(b, new, l).contains(x) ==> exists|w: int| 0 <= w < take && cands[w].0 == x
    &&& forall|w: int|
        0 <= w < take && #[trigger] nbs(a, cands[w].0 as int, l).len() < m ==> nbs(b, new, l).contains(cands[w].0)
}

/// Some beam search at layer `l` chose the new node's neighbors there (see
/// `layer_choice`).
pub open spec fn chosen_at<V, F: Fn(&V, &V) -> i64>(
    sim: &F,
    a: Seq<Node<V>>,
    b: Seq<Node<V>>,
    new: int,
    l: int,
    m: usize,
    ef: usize,
) -> bool {
    exists|start: int, cands: Seq<Scored>|
        #![trigger layer_choice(sim, a, b, new, l, m, ef, start, cands)]
        layer_choice(sim, a, b, new, l, m, ef, start, cands)
}

/// An insertion from nodes `a` with entry point `entry` to nodes `b` linked
/// the new node `idx`, of top layer `max_level`, as `insert` promises: on
/// every layer it shares with the old entry point, to the best candidates of
/// a beam search of width `ef` there (see `layer_choice`).
pub open spec fn links_new_node<V, F: Fn(&V, &V) -> i64>(
    sim: &F,
    a: Seq<Node<V>>,
    entry: Option<NodeIndex>,
    m: usize,
    ef: usize,
    b: Seq<Node<V>>,
    idx: int,
    max_level: usize,
) -> bool {
    forall|l: int|
        0 <= l <= max_level && entry is Some && l <= lvl(a, entry->0 as int) ==> #[trigger] chosen_at(
            sim,
            a,
            b,
            idx,
            l,
            m,
            ef,
        )
}

impl<V> Hnsw<V> {
    /// Keeps only the `max_neighbors` live neighbors of `node_id` at `layer`
    /// most similar to it, and removes the reverse edges of the others.
    fn prune_connections<F: Fn(&V, &V) -> i64>(&mut self, node_id: NodeIndex, layer: usize, sim: &F)
        requires
            graph_wf_but(old(self).nodes@, old(self).max_neighbors, node_id as int, layer as int),
            old(self).entry_valid(),
            node_id < old(self).n(),
            layer <= old(self).level(node_id as int),
            scorer_total(sim),
        ensures
            final(self).wf(),
            agree_off_layer(old(self).nodes@, final(self).nodes@, layer as int),
            forall|i: int, x: NodeIndex|
                0 <= i < old(self).n() && layer <= old(self).level(i) && #[trigger] nbs(final(self).nodes@, i, layer as int).contains(x)
                    ==> nbs(old(self).nodes@, i, layer as int).contains(x),
            forall|i: int|
                0 <= i < old(self).n() && i != node_id && layer <= old(self).level(i) ==> (#[trigger] nbs(
                    final(self).nodes@,
                    i,
                    layer as int,
                )).len() <= nbs(old(self).nodes@, i, layer as int).len(),
            forall|i: int, x: NodeIndex|
                0 <= i < old(self).n() && i != node_id && x != node_id && layer <= old(self).level(i) && nbs(
                    old(self).nodes@,
                    i,
                    layer as int,
                ).contains(x) ==> #[trigger] nbs(final(self).nodes@, i, layer as int).contains(x),
            final(self).entry_point == old(self).entry_point,
            final(self).max_layers == old(self).max_layers,
            final(self).max_neighbors == old(self).max_neighbors,
            final(self).ef_construction == old(self).ef_construction,
            final(self).metrics == old(self).metrics,
            // only live neighbors are kept, the most similar ones
            ({
                let before = nbs(old(self).nodes@, node_id as int, layer as int);
                let kept = nbs(final(self).nodes@, node_id as int, layer as int);
                &&& forall|y: NodeIndex| #[trigger] kept.contains(y) ==> before.contains(y) && !old(self).nodes@[y as int].tombstone
                &&& exists|sc: Seq<i64>|
                    sc.len() == old(self).n() && (forall|y: NodeIndex|
                        #[trigger] before.contains(y) && !old(self).nodes@[y as int].tombstone ==> sim.ensures(
                            (&old(self).nodes@[node_id as int].vector, &old(self).nodes@[y as int].vector),
                            sc[y as int],
                        )) && (forall|y: NodeIndex, z: NodeIndex|
                        before.contains(y) && !old(self).nodes@[y as int].tombstone && !#[trigger] kept.contains(y)
                            && #[trigger] kept.contains(z) ==> sc[y as int] <= sc[z as int]) && ((exists|y: NodeIndex|
                        before.contains(y) && !old(self).nodes@[y as int].tombstone && !#[trigger] kept.contains(y))
                        ==> kept.len() == old(self).max_neighbors)
            }),
    {
        let ghost a = self.nodes@;
        let m = self.max_neighbors;
        let old_list = copy_list(&self.nodes[node_id].neighbors[layer]);
        proof {
            assert(a[node_id as int].neighbors@.len() == a[node_id as int].max_level + 1);
            assert(old_list@ == nbs(a, node_id as int, layer as int));
            assert(old_list@.no_duplicates());
            assert forall|k: int| 0 <= k < old_list@.len() implies (#[trigger] old_list@[k]) < a.len() by {
                assert(old_list@.contains(old_list@[k]));
            }
        }
        let n = self.nodes.len();
        let mut sims: Vec<Scored> = Vec::new();
        let ghost mut sc: Seq<i64> = Seq::new(n as nat, |i: int| 0i64);
        let mut j: usize = 0;
        while j < old_list.len()
            invariant
                self.nodes@ == a,
                n == a.len(),
                scorer_total(sim),
                node_id < n,
                sc.len() == n,
                j <= old_list@.len(),
                old_list@ == nbs(a, node_id as int, layer as int),
                old_list@.no_duplicates(),
                forall|k: int| 0 <= k < old_list@.len() ==> (#[trigger] old_list@[k]) < n,
                ids_distinct(sims@),
                forall|e: Scored| sims@.contains(e) <==> (old_list@.take(j as int).contains(e.0) && !a[e.0 as int].tombstone
                    && e.1 == sc[e.0 as int]),
                forall|y: NodeIndex|
                    old_list@.take(j as int).contains(y) && !a[y as int].tombstone ==> sim.ensures(
                        (&a[node_id as int].vector, &a[y as int].vector),
                        #[trigger] sc[y as int],
                    ),
            decreases old_list@.len() - j,
        {
            let nb = old_list[j];
            proof {
                assert(old_list@.take(j + 1) == old_list@.take(j as int).push(nb));
                assert(!old_list@.take(j as int).contains(nb)) by {
                    if old_list@.take(j as int).contains(nb) {
                        let tj = old_list@.take(j as int);
                        let k = choose|k: int| 0 <= k < tj.len() && tj[k] == nb;
                        assert(old_list@[k] == old_list@[j as int]);
                    }
                }
            }
            let ghost before = sims@;
            if !self.nodes[nb].tombstone {
                let v = sim(&self.nodes[node_id].vector, &self.nodes[nb].vector);
                sims.push((nb, v));
                proof {
                    sc = sc.update(nb as int, v);
                    assert forall|k: int| 0 <= k < before.len() implies before[k].0 != nb by {
                        assert(before.contains(before[k]));
                    }
                    assert forall|c: int, d: int| 0 <= c < d < sims@.len() implies sims@[c].0 != sims@[d].0 by {
                        if d == before.len() {
                            assert(sims@[c] == before[c]);
                        } else {
                            assert(sims@[c] == before[c] && sims@[d] == before[d]);
                        }
                    }
                    assert forall|e: Scored| sims@.contains(e) <==> (old_list@.take(j + 1).contains(e.0)
                        && !a[e.0 as int].tombstone && e.1 == sc[e.0 as int]) by {
                        if sims@.contains(e) {
                            let k = choose|k: int| 0 <= k < sims@.len() && sims@[k] == e;
                            if k < before.len() {
                                assert(before[k] == e);
                                assert(before.contains(e));
                                let tj = old_list@.take(j as int);
                                let w = choose|w: int| 0 <= w < tj.len() && tj[w] == e.0;
                                assert(old_list@.take(j + 1)[w] == e.0);
                            } else {
                                assert(old_list@.take(j + 1)[j as int] == nb);
                            }
                        }
                        if old_list@.take(j + 1).contains(e.0) && !a[e.0 as int].tombstone && e.1 == sc[e.0 as int] {
                            if e.0 == nb {
                                assert(sims@[before.len() as int] == e);
                            } else {
                                let tk = old_list@.take(j + 1);
                                let k = choose|k: int| 0 <= k < tk.len() && tk[k] == e.0;
                                assert(old_list@.take(j as int)[k] == e.0);
                                assert(before.contains(e));
                                let q = choose|q: int| 0 <= q < before.len() && before[q] == e;
                                assert(sims@[q] == e);
                            }
                        }
                    }
                }
            } else {
                proof {
                    assert forall|e: Scored| sims@.contains(e) <==> (old_list@.take(j + 1).contains(e.0)
                        && !a[e.0 as int].tombstone && e.1 == sc[e.0 as int]) by {
                        if old_list@.take(j + 1).contains(e.0) && e.0 != nb {
                            let tk = old_list@.take(j + 1);
                            let k = choose|k: int| 0 <= k < tk.len() && tk[k] == e.0;
                            assert(old_list@.take(j as int)[k] == e.0);
                        }
                    }
                }
            }
            j = j + 1;
        }
        assert(old_list@.take(old_list@.len() as int) == old_list@);
        let mut ranked = sort_desc(&sims);
        let ghost sorted = ranked@;
        ranked.truncate(m);
        let mut new_list: Vec<NodeIndex> = Vec::new();
        let mut k: usize = 0;
        while k < ranked.len()
            invariant
                k <= ranked@.len(),
                new_list@.len() == k,
                forall|q: int| 0 <= q < k ==> new_list@[q] == (#[trigger] ranked@[q]).0,
            decreases ranked@.len() - k,
        {
            new_list.push(ranked[k].0);
            k = k + 1;
        }
        let kept = copy_list(&new_list);
        proof {
            assert(ranked@ == sorted.take(ranked@.len() as int));
            assert forall|q: int| 0 <= q < sorted.len() implies old_list@.contains((#[trigger] sorted[q]).0)
                && !a[sorted[q].0 as int].tombstone && sorted[q].1 == sc[sorted[q].0 as int] by {
                assert(sorted.contains(sorted[q]));
                assert(sims@.contains(sorted[q]));
            }
            assert(kept@.no_duplicates()) by {
                assert forall|c: int, d: int| 0 <= c < kept@.len() && 0 <= d < kept@.len() && c != d implies kept@[c] != kept@[d] by {
                    assert(ranked@[c] == sorted[c] && ranked@[d] == sorted[d]);
                    if c < d {
                    } else {
                    }
                }
            }
            assert forall|y: NodeIndex| #[trigger] kept@.contains(y) implies old_list@.contains(y) && !a[y as int].tombstone by {
                let q = choose|q: int| 0 <= q < kept@.len() && kept@[q] == y;
                assert(ranked@[q] == sorted[q]);
            }
        }
        self.nodes[node_id].neighbors[layer] = new_list;
        let ghost mid = self.nodes@;
        proof {
            assert(mid[node_id as int].neighbors@.len() == a[node_id as int].neighbors@.len());
            assert(nbs(mid, node_id as int, layer as int) == kept@);
        }
        let mut j: usize = 0;
        while j < old_list.len()
            invariant
                a.len() == n,
                self.nodes@.len() == n,
                node_id < n,
                layer <= lvl(a, node_id as int),
                graph_wf_but(a, m, node_id as int, layer as int),
                j <= old_list@.len(),
                old_list@ == nbs(a, node_id as int, layer as int),
                old_list@.no_duplicates(),
                !old_list@.contains(node_id),
                forall|y: NodeIndex| kept@.contains(y) ==> old_list@.contains(y),
                agree_off_layer(a, self.nodes@, layer as int),
                nbs(self.nodes@, node_id as int, layer as int) == kept@,
                forall|i: int|
                    0 <= i < n && i != node_id && layer < a[i].neighbors@.len() ==> #[trigger] nbs(self.nodes@, i, layer as int)
                        == if old_list@.take(j as int).contains(i as NodeIndex) && !kept@.contains(i as NodeIndex) {
                        without(nbs(a, i, layer as int), node_id)
                    } else {
                        nbs(a, i, layer as int)
                    },
                self.entry_point == old(self).entry_point,
                self.max_layers == old(self).max_layers,
                self.max_neighbors == old(self).max_neighbors,
                self.ef_construction == old(self).ef_construction,
                self.metrics == old(self).metrics,
            decreases old_list@.len() - j,
        {
            let r = old_list[j];
            proof {
                assert(old_list@.take(j + 1) == old_list@.take(j as int).push(r));
                assert(old_list@.contains(r));
                assert(r < n && layer <= lvl(a, r as int));
                assert(r != node_id);
                assert(!old_list@.take(j as int).contains(r)) by {
                    if old_list@.take(j as int).contains(r) {
                        let tj = old_list@.take(j as int);
                        let k = choose|k: int| 0 <= k < tj.len() && tj[k] == r;
                        assert(old_list@[k] == old_list@[j as int]);
                    }
                }
                assert(a[r as int].neighbors@.len() == a[r as int].max_level + 1);
            }
            if !list_contains(&kept, r) && layer <= self.nodes[r].max_level {
                let ghost before = self.nodes@;
                remove_all(&mut self.nodes[r].neighbors[layer], node_id);
                proof {
                    assert forall|i: int| 0 <= i < n && i != node_id && layer < a[i].neighbors@.len() implies #[trigger] nbs(
                        self.nodes@,
                        i,
                        layer as int,
                    ) == if old_list@.take(j + 1).contains(i as NodeIndex) && !kept@.contains(i as NodeIndex) {
                        without(nbs(a, i, layer as int), node_id)
                    } else {
                        nbs(a, i, layer as int)
                    } by {
                        if i == r {
                            assert(old_list@.take(j + 1)[j as int] == r);
                            assert(nbs(before, r as int, layer as int) == nbs(a, r as int, layer as int));
                        }
                        if i != r {
                            assert(nbs(self.nodes@, i, layer as int) == nbs(before, i, layer as int));
                            if old_list@.take(j + 1).contains(i as NodeIndex) {
                                let tk = old_list@.take(j + 1);
                                let k = choose|k: int| 0 <= k < tk.len() && tk[k] == i as NodeIndex;
                                assert(old_list@.take(j as int)[k] == i as NodeIndex);
                            }
                        }
                    }
                    assert forall|i: int, l: int| 0 <= i < n && 0 <= l < a[i].neighbors@.len() && l != layer implies #[trigger] nbs(
                        self.nodes@,
                        i,
                        l,
                    ) == nbs(a, i, l) by {
                        assert(nbs(self.nodes@, i, l) == nbs(before, i, l));
                    }
                }
            } else {
                proof {
                    assert forall|i: int| 0 <= i < n && i != node_id && layer < a[i].neighbors@.len() implies #[trigger] nbs(
                        self.nodes@,
                        i,
                        layer as int,
                    ) == if old_list@.take(j + 1).contains(i as NodeIndex) && !kept@.contains(i as NodeIndex) {
                        without(nbs(a, i, layer as int), node_id)
                    } else {
                        nbs(a, i, layer as int)
                    } by {
                        if old_list@.take(j + 1).contains(i as NodeIndex) && i != r {
                            let tk = old_list@.take(j + 1);
                            let k = choose|k: int| 0 <= k < tk.len() && tk[k] == i as NodeIndex;
                            assert(old_list@.take(j as int)[k] == i as NodeIndex);
                        }
                    }
                }
            }
            j = j + 1;
        }
        proof {
            assert(old_list@.take(old_list@.len() as int) == old_list@);
            assert(kept@.len() <= m);
            lemma_pruned_wf(a, self.nodes@, m, node_id as int, layer as int, kept@);
            assert forall|i: int, x: NodeIndex|
                0 <= i < n && layer <= lvl(a, i) && #[trigger] nbs(self.nodes@, i, layer as int).contains(x) implies nbs(
                a,
                i,
                layer as int,
            ).contains(x) by {
                assert(a[i].neighbors@.len() == a[i].max_level + 1);
                if i != node_id && old_list@.contains(i as NodeIndex) && !kept@.contains(i as NodeIndex) {
                    lemma_without(nbs(a, i, layer as int), node_id);
                }
            }
            assert forall|i: int, x: NodeIndex|
                0 <= i < n && i != node_id && x != node_id && layer <= lvl(a, i) && nbs(a, i, layer as int).contains(x)
                    implies #[trigger] nbs(self.nodes@, i, layer as int).contains(x) by {
                assert(a[i].neighbors@.len() == a[i].max_level + 1);
                lemma_without(nbs(a, i, layer as int), node_id);
            }
            assert forall|i: int|
                0 <= i < n && i != node_id && layer <= lvl(a, i) implies (#[trigger] nbs(self.nodes@, i, layer as int)).len()
                    <= nbs(a, i, layer as int).len() by {
                assert(a[i].neighbors@.len() == a[i].max_level + 1);
                lemma_without(nbs(a, i, layer as int), node_id);
            }
            assert forall|y: NodeIndex, z: NodeIndex|
                old_list@.contains(y) && !a[y as int].tombstone && !#[trigger] kept@.contains(y) && #[trigger] kept@.contains(z)
                    implies sc[y as int] <= sc[z as int] by {
                let e: Scored = (y, sc[y as int]);
                assert(sims@.contains(e));
                assert(sorted.contains(e));
                let p = choose|p: int| 0 <= p < sorted.len() && sorted[p] == e;
                if p < ranked@.len() {
                    assert(ranked@[p] == sorted[p]);
                    assert(kept@[p] == ranked@[p].0);
                    assert(kept@[p] == y);
                }
                let q = choose|q: int| 0 <= q < kept@.len() && kept@[q] == z;
                assert(ranked@[q] == sorted[q]);
            }
            if exists|y: NodeIndex| old_list@.contains(y) && !a[y as int].tombstone && !#[trigger] kept@.contains(y) {
                let y = choose|y: NodeIndex| old_list@.contains(y) && !a[y as int].tombstone && !#[trigger] kept@.contains(y);
                let e: Scored = (y, sc[y as int]);
                assert(sims@.contains(e));
                assert(sorted.contains(e));
                let p = choose|p: int| 0 <= p < sorted.len() && sorted[p] == e;
                if p < ranked@.len() {
                    assert(ranked@[p] == sorted[p]);
                    assert(kept@[p] == ranked@[p].0);
                    assert(kept@[p] == y);
                }
            }
        }
    }

    /// Inserts a node with external identifier `vector_id` and level
    /// `max_level`: descends greedily from the entry point to the node's top
    /// layer, then at every layer of the node connects it, in both
    /// directions, to up to `max_neighbors` of the `ef_construction` most
    /// similar nodes found, pruning neighbors whose lists grow too long.
    /// The node becomes the entry point when the graph was empty or when its
    /// level exceeds the entry point's. Returns the node's index.
    pub fn insert<F: Fn(&V, &V) -> i64>(
        &mut self,
        vector_id: String,
        vector: V,
        metadata: String,
        max_level: usize,
        sim: &F,
    ) -> (r: Result<NodeIndex, HnswError>)
        requires
            old(self).wf(),
            max_level < usize::MAX,
            scorer_total(sim),
        ensures
            final(self).wf(),
            final(self).max_layers == old(self).max_layers,
            final(self).max_neighbors == old(self).max_neighbors,
            final(self).ef_construction == old(self).ef_construction,
            final(self).metrics == old(self).metrics,
            (r is Err) == (old(self).index_of(vector_id@) is Some),
            r matches Err(e) ==> (e matches HnswError::DuplicateId(s) && s@ == vector_id@) && final(self).nodes@ == old(
                self,
            ).nodes@ && final(self).entry_point == old(self).entry_point,
            r matches Ok(idx) ==> {
                &&& idx == old(self).n()
                &&& final(self).n() == old(self).n() + 1
                &&& final(self).nodes@[idx as int].node_id == vector_id
                &&& final(self).nodes@[idx as int].vector == vector
                &&& final(self).nodes@[idx as int].metadata == metadata
                &&& final(self).nodes@[idx as int].max_level == max_level
                &&& !final(self).nodes@[idx as int].tombstone
                &&& forall|i: int| 0 <= i < old(self).n() ==> same_payload(#[trigger] final(self).nodes@[i], old(self).nodes@[i])
                &&& links_new_node(
                    sim,
                    old(self).nodes@,
                    old(self).entry_point,
                    old(self).max_neighbors,
                    old(self).ef_construction,
                    final(self).nodes@,
                    idx as int,
                    max_level,
                )
                &&& final(self).entry_point == match old(self).entry_point {
                    None => Some(idx),
                    Some(e) => if max_level > old(self).nodes@[e as int].max_level {
                        Some(idx)
                    } else {
                        Some(e)
                    },
                }
            },
    {
        match self.find_index(&vector_id) {
            Some(_) => {
                return Err(HnswError::DuplicateId(vector_id));
            },
            None => {},
        }
        let node_id = self.nodes.len();
        let node = Node::new(vector_id, vector, metadata, max_level);
        let ghost a = self.nodes@;
        if self.entry_point.is_none() {
            self.nodes.push(node);
            let new_len = self.nodes.len();
            self.entry_point = Some(node_id);
            proof {
                assert(new_len == a.len() + 1);
                assert(self.nodes@ == a.push(node));
                lemma_push_fresh(a, node, self.max_neighbors);
            }
            return Ok(node_id);
        }
        let entry = match self.entry_point {
            Some(e) => e,
            None => 0,
        };
        self.nodes.push(node);
        let new_len = self.nodes.len();
        proof {
            assert(new_len == a.len() + 1);
            assert(self.nodes@ == a.push(node));
            lemma_push_fresh(a, node, self.max_neighbors);
            assert(a.push(node)[node_id as int].max_level == max_level);
            assert(self.nodes@[node_id as int] == node);
            assert forall|i: int| 0 <= i < a.len() implies self.nodes@[i] == a[i] by {}
        }
        let mut current_nearest = entry;
        let entry_level = self.nodes[current_nearest].max_level;
        let mut layer = entry_level;
        while layer > max_level
            invariant
                self.wf(),
                scorer_total(sim),
                node_id == a.len(),
                self.nodes@ == a.push(node),
                a.push(node)[node_id as int].max_level == max_level,
                current_nearest < node_id,
                layer <= entry_level,
                layer == entry_level || layer >= max_level,
                layer <= lvl(a, current_nearest as int),
            decreases layer,
        {
            let ghost prev = current_nearest;
            current_nearest = self.search_layer_greedy(&self.nodes[node_id].vector, current_nearest, layer, sim);
            proof {
                if current_nearest != prev {
                    let c = choose|c: int|
                        0 <= c < self.n() && layer <= lvl(self.nodes@, c) && #[trigger] nbs(self.nodes@, c, layer as int).contains(
                            current_nearest,
                        );
                    assert(layer <= lvl(self.nodes@, current_nearest as int));
                }
                assert(self.nodes@[current_nearest as int] == a[current_nearest as int] || current_nearest == node_id);
            }
            proof {
                assert(self.nodes@[node_id as int].max_level == max_level);
                if current_nearest == node_id {
                    let c = choose|c: int|
                        0 <= c < self.n() && layer <= lvl(self.nodes@, c) && #[trigger] nbs(self.nodes@, c, layer as int).contains(
                            current_nearest,
                        );
                    assert(layer <= lvl(self.nodes@, node_id as int));
                }
            }
            layer = layer - 1;
        }
        let ghost start = self.nodes@;
        let mut layer_i = max_level + 1;
        while layer_i > 0
            invariant
                self.wf(),
                scorer_total(sim),
                node_id == a.len(),
                self.n() == node_id + 1,
                start == a.push(node),
                start[node_id as int].max_level == max_level,
                layer_i <= max_level + 1,
                current_nearest < node_id,
                self.entry_point == Some(entry),
                self.max_layers == old(self).max_layers,
                self.max_neighbors == old(self).max_neighbors,
                self.ef_construction == old(self).ef_construction,
                self.metrics == old(self).metrics,
                forall|i: int| 0 <= i < self.n() ==> same_payload(#[trigger] self.nodes@[i], start[i]),
                forall|i: int, l: int|
                    0 <= i < self.n() && 0 <= l < layer_i && l <= lvl(self.nodes@, i) ==> !(#[trigger] nbs(
                        self.nodes@,
                        i,
                        l,
                    )).contains(node_id),
                entry < node_id,
                entry_level == lvl(a, entry as int),
                layer_i >= 1 ==> (if layer_i - 1 <= entry_level { layer_i - 1 } else { entry_level as int }) <= lvl(
                    a,
                    current_nearest as int,
                ),
                forall|i: int, l: int|
                    0 <= i < node_id && 0 <= l < layer_i && l <= lvl(a, i) ==> #[trigger] nbs(self.nodes@, i, l) == nbs(
                        a,
                        i,
                        l,
                    ),
                forall|l: int|
                    layer_i <= l <= max_level && l <= entry_level ==> #[trigger] chosen_at(
                        sim,
                        a,
                        self.nodes@,
                        node_id as int,
                        l,
                        self.max_neighbors,
                        self.ef_construction,
                    ),
            decreases layer_i,
        {
            let layer = layer_i - 1;
            let candidates = self.search_layer_knn(
                &self.nodes[node_id].vector,
                current_nearest,
                self.ef_construction,
                layer,
                sim,
            );
            let take = if candidates.len() < self.max_neighbors { candidates.len() } else { self.max_neighbors };
            let mut selected: Vec<NodeIndex> = Vec::new();
            let mut q: usize = 0;
            while q < take
                invariant
                    take <= candidates@.len(),
                    q <= take,
                    selected@.len() == q,
                    forall|w: int| 0 <= w < q ==> selected@[w] == (#[trigger] candidates@[w]).0,
                decreases take - q,
            {
                selected.push(candidates[q].0);
                q = q + 1;
            }
            let ghost layer_start = self.nodes@;
            let ghost layer_entry = current_nearest as int;
            proof {
                assert forall|i: int| 0 <= i < node_id implies #[trigger] layer_start[i] == layer_start[i] && same_payload(
                    layer_start[i],
                    a[i],
                ) by {
                    assert(same_payload(layer_start[i], start[i]));
                    assert(start[i] == a[i]);
                }
                assert(same_payload(layer_start[node_id as int], start[node_id as int]));
                // Every candidate is an old node living at this layer, the
                // start or a live node, scored against the new node.
                assert forall|q: int| 0 <= q < candidates@.len() implies (#[trigger] candidates@[q]).0 < node_id && (
                layer <= entry_level ==> layer <= lvl(a, candidates@[q].0 as int)) && (candidates@[q].0 == layer_entry
                    || !a[candidates@[q].0 as int].tombstone) && scored_by(
                    sim,
                    &start[node_id as int].vector,
                    a,
                    candidates@[q].0 as int,
                    candidates@[q].1,
                ) by {
                    let x = candidates@[q].0;
                    assert(reached(layer_start, current_nearest as int, layer as int, x as int));
                    if x != current_nearest {
                        let c = choose|c: int|
                            0 <= c < layer_start.len() && layer <= lvl(layer_start, c) && #[trigger] nbs(
                                layer_start,
                                c,
                                layer as int,
                            ).contains(x);
                        if x == node_id {
                            assert(!nbs(layer_start, c, layer as int).contains(node_id));
                        }
                        assert(layer <= lvl(layer_start, x as int));
                    }
                    assert(same_payload(layer_start[x as int], a[x as int]));
                }
                // With a beam wider than the graph, the candidates are closed
                // under live neighbors at this layer.
                if self.ef_construction >= self.n() {
                    assert forall|q: int, y: NodeIndex|
                        #![trigger candidates@[q], nbs(a, candidates@[q].0 as int, layer as int).contains(y)]
                        0 <= q < candidates@.len() && nbs(a, candidates@[q].0 as int, layer as int).contains(y)
                            && !a[y as int].tombstone && layer <= entry_level implies lists_node(candidates@, y as int) by {
                        let x = candidates@[q].0 as int;
                        assert(x < node_id);
                        assert(layer <= lvl(a, x));
                        assert(nbs(layer_start, x, layer as int) == nbs(a, x, layer as int));
                        assert(layer <= lvl(layer_start, x));
                        assert(y < layer_start.len());
                        if y == node_id {
                            assert(!nbs(layer_start, x, layer as int).contains(node_id));
                        }
                        assert(same_payload(layer_start[y as int], a[y as int]));
                    }
                }
            }
            proof {
                assert(same_payload(self.nodes@[node_id as int], start[node_id as int]));
                assert(self.nodes@[node_id as int].neighbors@.len() == max_level + 1);
                if nbs(layer_start, node_id as int, layer as int).len() > 0 {
                    let x = nbs(layer_start, node_id as int, layer as int)[0];
                    assert(nbs(layer_start, node_id as int, layer as int).contains(x));
                    assert(nbs(layer_start, x as int, layer as int).contains(node_id));
                }
                assert forall|w: int| 0 <= w < selected@.len() implies (#[trigger] selected@[w]) < node_id by {
                    assert(selected@[w] == candidates@[w].0);
                    let x = candidates@[w].0;
                    assert(reached(layer_start, current_nearest as int, layer as int, x as int));
                    if x != current_nearest {
                        let c = choose|c: int|
                            0 <= c < layer_start.len() && layer <= lvl(layer_start, c) && #[trigger] nbs(
                                layer_start,
                                c,
                                layer as int,
                            ).contains(x);
                        if x == node_id {
                            assert(!nbs(layer_start, c, layer as int).contains(node_id));
                        }
                    }
                }
                assert forall|w1: int, w2: int| 0 <= w1 < w2 < selected@.len() implies selected@[w1] != selected@[w2] by {
                    assert(selected@[w1] == candidates@[w1].0);
                    assert(selected@[w2] == candidates@[w2].0);
                }
            }
            let mut j: usize = 0;
            while j < selected.len()
                invariant
                    self.wf(),
                    scorer_total(sim),
                    node_id == a.len(),
                    self.n() == node_id + 1,
                    layer < layer_i <= max_level + 1,
                    layer == layer_i - 1,
                    j <= selected@.len(),
                    selected@.len() <= self.max_neighbors,
                    forall|w: int| 0 <= w < selected@.len() ==> (#[trigger] selected@[w]) < node_id,
                    forall|w1: int, w2: int| 0 <= w1 < w2 < selected@.len() ==> selected@[w1] != selected@[w2],
                    self.entry_point == Some(entry),
                    self.max_layers == old(self).max_layers,
                    self.max_neighbors == old(self).max_neighbors,
                    self.ef_construction == old(self).ef_construction,
                    self.metrics == old(self).metrics,
                    agree_off_layer(layer_start, self.nodes@, layer as int),
                    forall|i: int| 0 <= i < self.n() ==> same_payload(#[trigger] layer_start[i], start[i]),
                    self.nodes@[node_id as int].max_level == max_level,
                    forall|i: int, l: int|
                        0 <= i < self.n() && 0 <= l < layer && l <= lvl(layer_start, i) ==> !(#[trigger] nbs(
                            layer_start,
                            i,
                            l,
                        )).contains(node_id),
                    nbs(self.nodes@, node_id as int, layer as int).len() <= j,
                    forall|x: NodeIndex|
                        #[trigger] nbs(self.nodes@, node_id as int, layer as int).contains(x) ==> selected@.take(
                            j as int,
                        ).contains(x),
                    j == 0 ==> self.nodes@ == layer_start,
                    forall|i: int| 0 <= i < node_id ==> #[trigger] same_payload(layer_start[i], a[i]),
                    forall|w: int|
                        0 <= w < j && layer <= lvl(a, selected@[w] as int) && nbs(a, selected@[w] as int, layer as int).len()
                            < self.max_neighbors ==> nbs(self.nodes@, node_id as int, layer as int).contains(
                            #[trigger] selected@[w],
                        ),
                    forall|i: int|
                        0 <= i < node_id && layer <= lvl(a, i) && !selected@.take(j as int).contains(i as NodeIndex) ==> (
                        #[trigger] nbs(self.nodes@, i, layer as int)).len() <= nbs(a, i, layer as int).len(),
                decreases selected@.len() - j,
            {
                let nb = selected[j];
                proof {
                    assert(selected@.take(j + 1) == selected@.take(j as int).push(nb));
                }
                if layer <= self.nodes[nb].max_level {
                    let cur_len = self.nodes.len();
                    let ghost before = self.nodes@;
                    proof {
                        assert(before.len() == cur_len);
                        assert(!nbs(before, node_id as int, layer as int).contains(nb)) by {
                            if nbs(before, node_id as int, layer as int).contains(nb) {
                                let tj = selected@.take(j as int);
                                assert(tj.contains(nb));
                                let w = choose|w: int| 0 <= w < tj.len() && tj[w] == nb;
                                assert(selected@[w] == selected@[j as int]);
                            }
                        }
                        assert(before[node_id as int].neighbors@.len() == before[node_id as int].max_level + 1);
                        assert(before[nb as int].neighbors@.len() == before[nb as int].max_level + 1);
                    }
                    self.nodes[node_id].neighbors[layer].push(nb);
                    self.nodes[nb].neighbors[layer].push(node_id);
                    proof {
                        assert(edge_added(before, self.nodes@, node_id as int, nb as int, layer as int)) by {
                            assert forall|i: int, l: int|
                                0 <= i < before.len() && 0 <= l < before[i].neighbors@.len() && l != layer implies #[trigger] nbs(
                                self.nodes@,
                                i,
                                l,
                            ) == nbs(before, i, l) by {}
                        }
                        lemma_edge_added_wf(before, self.nodes@, self.max_neighbors, node_id as int, nb as int, layer as int);
                    }
                    proof {
                        assert(nbs(self.nodes@, node_id as int, layer as int) == nbs(before, node_id as int, layer as int).push(nb));
                        assert(nbs(self.nodes@, nb as int, layer as int) == nbs(before, nb as int, layer as int).push(node_id));
                        assert forall|w: int|
                            0 <= w < j && layer <= lvl(a, selected@[w] as int) && nbs(a, selected@[w] as int, layer as int).len()
                                < self.max_neighbors implies nbs(self.nodes@, node_id as int, layer as int).contains(
                            #[trigger] selected@[w],
                        ) by {
                            let x = selected@[w];
                            assert(nbs(before, node_id as int, layer as int).contains(x));
                            let k = choose|k: int|
                                0 <= k < nbs(before, node_id as int, layer as int).len() && nbs(before, node_id as int, layer as int)[k]
                                    == x;
                            assert(nbs(self.nodes@, node_id as int, layer as int)[k] == x);
                        }
                        assert(nbs(self.nodes@, node_id as int, layer as int)[nbs(before, node_id as int, layer as int).len() as int]
                            == nb);
                        assert(nbs(self.nodes@, node_id as int, layer as int).contains(nb));
                        assert(!selected@.take(j as int).contains(nb)) by {
                            if selected@.take(j as int).contains(nb) {
                                let tj = selected@.take(j as int);
                                let w = choose|w: int| 0 <= w < tj.len() && tj[w] == nb;
                                assert(selected@[w] == selected@[j as int]);
                            }
                        }
                        assert(same_payload(layer_start[nb as int], a[nb as int]));
                        if nbs(a, nb as int, layer as int).len() < self.max_neighbors {
                            assert(nbs(before, nb as int, layer as int).len() <= nbs(a, nb as int, layer as int).len());
                            assert(nbs(self.nodes@, nb as int, layer as int).len() <= self.max_neighbors);
                        }
                        assert forall|i: int|
                            0 <= i < node_id && layer <= lvl(a, i) && !selected@.take(j + 1).contains(i as NodeIndex) implies (
                            #[trigger] nbs(self.nodes@, i, layer as int)).len() <= nbs(a, i, layer as int).len() by {
                            assert(selected@.take(j + 1)[j as int] == nb);
                            assert(i != nb);
                            if selected@.take(j as int).contains(i as NodeIndex) {
                                let tj = selected@.take(j as int);
                                let w = choose|w: int| 0 <= w < tj.len() && tj[w] == i as NodeIndex;
                                assert(selected@.take(j + 1)[w] == i as NodeIndex);
                            }
                            assert(same_payload(layer_start[i], a[i]));
                            assert(before[i].neighbors@.len() == before[i].max_level + 1);
                            assert(nbs(self.nodes@, i, layer as int) == nbs(before, i, layer as int));
                        }
                    }
                    if self.nodes[nb].neighbors[layer].len() > self.max_neighbors {
                        let ghost mid = self.nodes@;
                        self.prune_connections(nb, layer, sim);
                        proof {
                            assert forall|w: int|
                                0 <= w < j + 1 && layer <= lvl(a, selected@[w] as int) && nbs(a, selected@[w] as int, layer as int).len()
                                    < self.max_neighbors implies nbs(self.nodes@, node_id as int, layer as int).contains(
                                #[trigger] selected@[w],
                            ) by {
                                if w < j {
                                    assert(selected@[w] != selected@[j as int]);
                                    assert(nbs(mid, node_id as int, layer as int).contains(selected@[w]));
                                }
                            }
                            assert forall|i: int|
                                0 <= i < node_id && layer <= lvl(a, i) && !selected@.take(j + 1).contains(i as NodeIndex) implies (
                                #[trigger] nbs(self.nodes@, i, layer as int)).len() <= nbs(a, i, layer as int).len() by {
                                assert(selected@.take(j + 1)[j as int] == nb);
                                assert(i != nb);
                                assert(same_payload(layer_start[i], a[i]));
                                assert(nbs(self.nodes@, i, layer as int).len() <= nbs(mid, i, layer as int).len());
                            }
                            assert forall|x: NodeIndex| #[trigger] nbs(self.nodes@, node_id as int, layer as int).contains(x) implies selected@.take(
                                j + 1,
                            ).contains(x) by {
                                assert(nbs(mid, node_id as int, layer as int).contains(x));
                                if x == nb {
                                    assert(selected@.take(j + 1)[j as int] == nb);
                                } else {
                                    let k = choose|k: int|
                                        0 <= k < nbs(mid, node_id as int, layer as int).len() && nbs(mid, node_id as int, layer as int)[k] == x;
                                    if k < nbs(before, node_id as int, layer as int).len() {
                                        assert(nbs(before, node_id as int, layer as int)[k] == x);
                                        let tj = selected@.take(j as int);
                                        assert(tj.contains(x));
                                        let w = choose|w: int| 0 <= w < tj.len() && tj[w] == x;
                                        assert(selected@.take(j + 1)[w] == x);
                                    }
                                }
                            }
                        }
                    } else {
                        proof {
                            lemma_wf_but_bounded(self.nodes@, self.max_neighbors, nb as int, layer as int);
                            assert forall|x: NodeIndex| #[trigger] nbs(self.nodes@, node_id as int, layer as int).contains(x) implies selected@.take(
                                j + 1,
                            ).contains(x) by {
                                if x == nb {
                                    assert(selected@.take(j + 1)[j as int] == nb);
                                } else {
                                    let k = choose|k: int|
                                        0 <= k < nbs(self.nodes@, node_id as int, layer as int).len() && nbs(self.nodes@, node_id as int, layer as int)[k] == x;
                                    if k < nbs(before, node_id as int, layer as int).len() {
                                        assert(nbs(before, node_id as int, layer as int)[k] == x);
                                        let tj = selected@.take(j as int);
                                        assert(tj.contains(x));
                                        let w = choose|w: int| 0 <= w < tj.len() && tj[w] == x;
                                        assert(selected@.take(j + 1)[w] == x);
                                    }
                                }
                            }
                        }
                    }
                } else {
                    proof {
                        assert(same_payload(layer_start[nb as int], a[nb as int]));
                        assert forall|i: int|
                            0 <= i < node_id && layer <= lvl(a, i) && !selected@.take(j + 1).contains(i as NodeIndex) implies (
                            #[trigger] nbs(self.nodes@, i, layer as int)).len() <= nbs(a, i, layer as int).len() by {
                            if selected@.take(j as int).contains(i as NodeIndex) {
                                let tj = selected@.take(j as int);
                                let w = choose|w: int| 0 <= w < tj.len() && tj[w] == i as NodeIndex;
                                assert(selected@.take(j + 1)[w] == i as NodeIndex);
                            }
                        }
                        assert forall|x: NodeIndex| #[trigger] nbs(self.nodes@, node_id as int, layer as int).contains(x) implies selected@.take(
                            j + 1,
                        ).contains(x) by {
                            let tj = selected@.take(j as int);
                            assert(tj.contains(x));
                            let w = choose|w: int| 0 <= w < tj.len() && tj[w] == x;
                            assert(selected@.take(j + 1)[w] == x);
                        }
                    }
                }
                j = j + 1;
            }
            let ghost prev_nearest = current_nearest;
            if selected.len() > 0 {
                current_nearest = selected[0];
            }
            proof {
                assert forall|i: int, l: int| 0 <= i < node_id && 0 <= l < layer && l <= lvl(a, i) implies #[trigger] nbs(
                    self.nodes@,
                    i,
                    l,
                ) == nbs(a, i, l) by {
                    assert(same_payload(layer_start[i], start[i]));
                    assert(layer_start[i].neighbors@.len() == layer_start[i].max_level + 1);
                    assert(nbs(self.nodes@, i, l) == nbs(layer_start, i, l));
                }
                assert(same_payload(self.nodes@[node_id as int], start[node_id as int]));
                assert(layer_start[node_id as int].neighbors@.len() == max_level + 1);
                if layer <= entry_level {
                    let b = self.nodes@;
                    let cands = candidates@;
                    let m = self.max_neighbors;
                    let ef = self.ef_construction;
                    assert(take == if m < cands.len() { m as int } else { cands.len() as int });
                    assert forall|q: int| 0 <= q < cands.len() implies (#[trigger] cands[q]).0 < a.len() && layer <= lvl(
                        a,
                        cands[q].0 as int,
                    ) && (cands[q].0 == layer_entry || !a[cands[q].0 as int].tombstone) && scored_by(
                        sim,
                        &b[node_id as int].vector,
                        a,
                        cands[q].0 as int,
                        cands[q].1,
                    ) by {}
                    assert forall|x: NodeIndex| #[trigger] nbs(b, node_id as int, layer as int).contains(x) implies exists|w: int|
                        0 <= w < take && cands[w].0 == x by {
                        assert(selected@.take(j as int) == selected@);
                        let w = choose|w: int| 0 <= w < selected@.len() && selected@[w] == x;
                        assert(selected@[w] == cands[w].0);
                    }
                    assert forall|w: int| 0 <= w < take && #[trigger] nbs(a, cands[w].0 as int, layer as int).len() < m implies nbs(
                        b,
                        node_id as int,
                        layer as int,
                    ).contains(cands[w].0) by {
                        assert(selected@[w] == cands[w].0);
                        assert(layer <= lvl(a, cands[w].0 as int));
                    }
                    if ef > a.len() {
                        assert(lists_node(cands, layer_entry));
                    }
                    assert(layer_choice(sim, a, b, node_id as int, layer as int, m, ef, layer_entry, cands));
                    assert(chosen_at(sim, a, b, node_id as int, layer as int, m, ef));
                }
                assert forall|l: int|
                    layer < l <= max_level && l <= entry_level implies #[trigger] chosen_at(
                    sim,
                    a,
                    self.nodes@,
                    node_id as int,
                    l,
                    self.max_neighbors,
                    self.ef_construction,
                ) by {
                    let m = self.max_neighbors;
                    let ef = self.ef_construction;
                    assert(chosen_at(sim, a, layer_start, node_id as int, l, m, ef));
                    let (st, cs) = choose|st: int, cs: Seq<Scored>|
                        #![trigger layer_choice(sim, a, layer_start, node_id as int, l, m, ef, st, cs)]
                        layer_choice(sim, a, layer_start, node_id as int, l, m, ef, st, cs);
                    assert(nbs(self.nodes@, node_id as int, l) == nbs(layer_start, node_id as int, l));
                    assert(self.nodes@[node_id as int].vector == layer_start[node_id as int].vector);
                    assert(layer_choice(sim, a, self.nodes@, node_id as int, l, m, ef, st, cs));
                }
                if layer >= 1 {
                    if current_nearest != prev_nearest {
                        let x = candidates@[0].0;
                        assert(current_nearest == x);
                        if x != prev_nearest {
                            let c = choose|c: int|
                                0 <= c < layer_start.len() && layer <= lvl(layer_start, c) && #[trigger] nbs(
                                    layer_start,
                                    c,
                                    layer as int,
                                ).contains(x);
                            assert(layer <= lvl(layer_start, x as int));
                        }
                    }
                }
            }
            proof {
                assert forall|i: int| 0 <= i < self.n() implies same_payload(#[trigger] self.nodes@[i], start[i]) by {
                    assert(same_payload(layer_start[i], start[i]));
                }
                assert forall|i: int, l: int|
                    0 <= i < self.n() && 0 <= l < layer && l <= lvl(self.nodes@, i) implies !(#[trigger] nbs(
                        self.nodes@,
                        i,
                        l,
                    )).contains(node_id) by {
                    assert(layer_start[i].neighbors@.len() == layer_start[i].max_level + 1);
                    assert(nbs(self.nodes@, i, l) == nbs(layer_start, i, l));
                }
            }
            layer_i = layer_i - 1;
        }
        if max_level > entry_level {
            self.entry_point = Some(node_id);
        }
        proof {
            assert forall|i: int| 0 <= i < a.len() implies same_payload(#[trigger] self.nodes@[i], a[i]) by {
                assert(same_payload(self.nodes@[i], start[i]));
            }
        }
        Ok(node_id)
    }
}

} // verus!
