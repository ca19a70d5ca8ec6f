//! Inserting a batch of entries, in order.

use vstd::prelude::*;
use super::graph::{Hnsw, HnswError, Node, NodeIndex};
use super::insert::{same_payload, links_new_node};
use super::search::scorer_total;
use crate::stamps::new_uuid;

verus! {

/// An entry of a batch: external identifier, vector, metadata, and the
/// highest layer it is to live in.
pub type Entry<V> = (String, V, String, usize);

/// The entry `e` stands at a node: same identifier, vector, metadata and
/// level, not deleted.
pub open spec fn holds_entry<V>(nd: Node<V>, e: Entry<V>) -> bool {
    &&& nd.node_id == e.0
    &&& nd.vector == e.1
    &&& nd.metadata == e.2
    &&& nd.max_level == e.3
    &&& !nd.tombstone
}

/// The identifier of entry `j` is new: not in the graph, and not that of an
/// earlier entry.
pub open spec fn fresh_at<V>(g: Hnsw<V>, batch: Seq<Entry<V>>, j: int) -> bool {
    &&& g.index_of(batch[j].0@) is None
    &&& forall|t: int| 0 <= t < j ==> (#[trigger] batch[t]).0@ != batch[j].0@
}

/// The top layers of the entries of a batch.
pub open spec fn levels_of<V>(batch: Seq<Entry<V>>) -> Seq<usize> {
    batch.map_values(|e: Entry<V>| e.3)
}

/// A run of insertions: `h` lists the nodes and entry point before the first
/// and after each one; insertion `t` added node `n0 + t` with top layer
/// `levels[t]` and linked it as `insert` promises.
pub open spec fn insertion_history<V, F: Fn(&V, &V) -> i64>(
    sim: &F,
    h: Seq<(Seq<Node<V>>, Option<NodeIndex>)>,
    m: usize,
    ef: usize,
    n0: int,
    levels: Seq<usize>,
) -> bool {
    forall|t: int|
        0 <= t < h.len() - 1 ==> #[trigger] links_new_node(sim, h[t].0, h[t].1, m, ef, h[t + 1].0, n0 + t, levels[t])
}

impl<V> Hnsw<V> {
    /// Inserts the entries of `batch` one after the other, stopping at the
    /// first whose identifier is already taken (by a node of the graph or
    /// an earlier entry): that one is reported as `DuplicateId`, the entries
    /// before it stay inserted. On success, returns how many were inserted.
    pub fn insert_batch<F: Fn(&V, &V) -> i64>(&mut self, batch: Vec<Entry<V>>, sim: &F) -> (r: Result<usize, HnswError>)
        requires
            old(self).wf(),
            scorer_total(sim),
            forall|j: int| 0 <= j < batch@.len() ==> (#[trigger] batch@[j]).3 < usize::MAX,
        ensures
            final(self).wf(),
            final(self).max_layers == old(self).max_layers,
            final(self).max_neighbors == old(self).max_neighbors,
            final(self).ef_construction == old(self).ef_construction,
            final(self).metrics == old(self).metrics,
            forall|i: int| 0 <= i < old(self).n() ==> same_payload(#[trigger] final(self).nodes@[i], old(self).nodes@[i]),
            (r is Ok) == (forall|j: int| 0 <= j < batch@.len() ==> fresh_at(*old(self), batch@, j)),
            r matches Ok(c) ==> c == batch@.len() && final(self).n() == old(self).n() + c,
            r matches Err(e) ==> exists|j: int|
                0 <= j < batch@.len() && !fresh_at(*old(self), batch@, j) && (forall|t: int|
                    0 <= t < j ==> fresh_at(*old(self), batch@, t)) && (e matches HnswError::DuplicateId(s) && s@
                    == batch@[j].0@) && final(self).n() == old(self).n() + j,
            forall|t: int|
                0 <= t < final(self).n() - old(self).n() ==> holds_entry(
                    #[trigger] final(self).nodes@[old(self).n() + t],
                    batch@[t],
                ),
            exists|h: Seq<(Seq<Node<V>>, Option<NodeIndex>)>|
                #![trigger insertion_history(sim, h, old(self).max_neighbors, old(self).ef_construction, old(self).n() as int, levels_of(batch@))]
                h.len() == final(self).n() - old(self).n() + 1 && h[0] == (old(self).nodes@, old(self).entry_point)
                    && h.last() == (final(self).nodes@, final(self).entry_point) && insertion_history(
                    sim,
                    h,
                    old(self).max_neighbors,
                    old(self).ef_construction,
                    old(self).n() as int,
                    levels_of(batch@),
                ),
    {
        let ghost n0 = self.n();
        let ghost g0 = *self;
        let ghost all = batch@;
        let len = batch.len();
        let mut items = batch;
        let mut rev: Vec<Entry<V>> = Vec::new();
        loop
            invariant
                items@ == all.take(items@.len() as int),
                items@.len() <= len,
                len == all.len(),
                rev@.len() + items@.len() == len,
                forall|q: int| 0 <= q < rev@.len() ==> #[trigger] rev@[q] == all[len - 1 - q],
            ensures
                items@.len() == 0,
            decreases items@.len(),
        {
            match items.pop() {
                Some(e) => {
                    rev.push(e);
                },
                None => {
                    break;
                },
            }
        }
        let mut j: usize = 0;
        let mut failure: Option<HnswError> = None;
        let ghost levels = levels_of(all);
        let ghost mut hist: Seq<(Seq<Node<V>>, Option<NodeIndex>)> = seq![(self.nodes@, self.entry_point)];
        loop
            invariant_except_break
                rev@.len() == len - j,
                forall|q: int| 0 <= q < rev@.len() ==> #[trigger] rev@[q] == all[len - 1 - q],
                failure is None,
            invariant
                self.wf(),
                scorer_total(sim),
                self.max_layers == g0.max_layers,
                self.max_neighbors == g0.max_neighbors,
                self.ef_construction == g0.ef_construction,
                self.metrics == g0.metrics,
                n0 == g0.n(),
                len == all.len(),
                j <= len,
                forall|q: int| 0 <= q < all.len() ==> (#[trigger] all[q]).3 < usize::MAX,
                self.n() == n0 + j,
                forall|i: int| 0 <= i < n0 ==> same_payload(#[trigger] self.nodes@[i], g0.nodes@[i]),
                forall|t: int| 0 <= t < j ==> holds_entry(#[trigger] self.nodes@[n0 + t], all[t]),
                forall|t: int| 0 <= t < j ==> fresh_at(g0, all, t),
                levels == levels_of(all),
                hist.len() == j + 1,
                hist[0] == (g0.nodes@, g0.entry_point),
                hist.last() == (self.nodes@, self.entry_point),
                insertion_history(sim, hist, g0.max_neighbors, g0.ef_construction, n0 as int, levels),
            ensures
                hist.len() == j + 1,
                hist[0] == (g0.nodes@, g0.entry_point),
                hist.last() == (self.nodes@, self.entry_point),
                insertion_history(sim, hist, g0.max_neighbors, g0.ef_construction, n0 as int, levels),
                self.wf(),
                self.max_layers == g0.max_layers,
                self.max_neighbors == g0.max_neighbors,
                self.ef_construction == g0.ef_construction,
                self.metrics == g0.metrics,
                forall|i: int| 0 <= i < n0 ==> same_payload(#[trigger] self.nodes@[i], g0.nodes@[i]),
                j <= len,
                self.n() == n0 + j,
                forall|t: int| 0 <= t < j ==> holds_entry(#[trigger] self.nodes@[n0 + t], all[t]),
                forall|t: int| 0 <= t < j ==> fresh_at(g0, all, t),
                failure is None ==> j == len,
                failure matches Some(e) ==> j < len && !fresh_at(g0, all, j as int) && (e matches HnswError::DuplicateId(s)
                    && s@ == all[j as int].0@),
            decreases rev@.len(),
        {
            match rev.pop() {
                Some(e) => {
                    let (id, vector, metadata, level) = e;
                    let ghost before = self.nodes@;
                    proof {
                        assert(e == all[j as int]);
                        // The identifier is taken now exactly when it was taken before
                        // the batch or by an earlier entry.
                        let idv = all[j as int].0@;
                        if g0.index_of(idv) is Some {
                            let i = g0.index_of(idv)->0;
                            assert(g0.nodes@[i].node_id@ == idv);
                            assert(self.nodes@[i].node_id@ == idv);
                        }
                        if exists|t: int| 0 <= t < j && (#[trigger] all[t]).0@ == idv {
                            let t = choose|t: int| 0 <= t < j && (#[trigger] all[t]).0@ == idv;
                            assert(self.nodes@[n0 + t].node_id@ == idv);
                        }
                        if self.index_of(idv) is Some {
                            let i = self.index_of(idv)->0;
                            if i < n0 {
                                assert(g0.nodes@[i].node_id@ == idv);
                            } else {
                                assert(holds_entry(self.nodes@[n0 + (i - n0)], all[i - n0]));
                            }
                        }
                    }
                    let ghost pre_nodes = self.nodes@;
                    let ghost pre_entry = self.entry_point;
                    match self.insert(id, vector, metadata, level, sim) {
                        Ok(_) => {
                            proof {
                                let old_hist = hist;
                                hist = hist.push((self.nodes@, self.entry_point));
                                assert(levels[j as int] == level);
                                assert forall|t: int| 0 <= t < hist.len() - 1 implies #[trigger] links_new_node(
                                    sim,
                                    hist[t].0,
                                    hist[t].1,
                                    g0.max_neighbors,
                                    g0.ef_construction,
                                    hist[t + 1].0,
                                    n0 + t,
                                    levels[t],
                                ) by {
                                    if t < j {
                                        assert(hist[t] == old_hist[t] && hist[t + 1] == old_hist[t + 1]);
                                        assert(links_new_node(sim, old_hist[t].0, old_hist[t].1, g0.max_neighbors, g0.ef_construction, old_hist[t + 1].0, n0 + t, levels[t]));
                                    } else {
                                        assert(hist[t] == (pre_nodes, pre_entry));
                                    }
                                }
                            }
                            proof {
                                assert forall|t: int| 0 <= t < j + 1 implies holds_entry(
                                    #[trigger] self.nodes@[n0 + t],
                                    all[t],
                                ) by {
                                    if t < j {
                                        assert(same_payload(self.nodes@[n0 + t], before[n0 + t]));
                                    }
                                }
                                assert forall|i: int| 0 <= i < n0 implies same_payload(#[trigger] self.nodes@[i], g0.nodes@[i]) by {
                                    assert(same_payload(self.nodes@[i], before[i]));
                                }
                            }
                        },
                        Err(err) => {
                            proof {
                                assert(self.nodes@ == pre_nodes);
                            }
                            failure = Some(err);
                            break;
                        },
                    }
                    j = j + 1;
                },
                None => {
                    break;
                },
            }
        }
        match failure {
            Some(e) => Err(e),
            None => Ok(len),
        }
    }
}

/// An entry stored under an identifier the graph picks: vector, metadata,
/// and the highest layer it is to live in.
pub type Unnamed<V> = (V, String, usize);

/// The top layers of the entries of an unnamed batch.
pub open spec fn unnamed_levels<V>(batch: Seq<Unnamed<V>>) -> Seq<usize> {
    batch.map_values(|e: Unnamed<V>| e.2)
}

/// The entry `e` stands at a node, which is not deleted.
pub open spec fn holds_unnamed<V>(nd: Node<V>, e: Unnamed<V>) -> bool {
    &&& nd.vector == e.0
    &&& nd.metadata == e.1
    &&& nd.max_level == e.2
    &&& !nd.tombstone
}

impl<V> Hnsw<V> {
    /// An identifier that no node of the graph carries: a random UUID, or,
    /// should a node carry that one already, the longest identifier of the
    /// graph with `#` appended.
    pub fn fresh_id(&self) -> (id: String)
        requires
            self.wf(),
        ensures
            self.index_of(id@) is None,
    {
        let u = new_uuid();
        match self.find_index(&u) {
            None => u,
            Some(_) => {
                let mut best: usize = 0;
                let mut i: usize = 1;
                while i < self.nodes.len()
                    invariant
                        self.wf(),
                        1 <= i <= self.n(),
                        best < i,
                        forall|t: int| 0 <= t < i ==> (#[trigger] self.nodes@[t]).node_id@.len() <= self.nodes@[best as int].node_id@.len(),
                    decreases self.n() - i,
                {
                    if self.nodes[i].node_id.as_str().unicode_len() > self.nodes[best].node_id.as_str().unicode_len() {
                        best = i;
                    }
                    i = i + 1;
                }
                let longer = self.nodes[best].node_id.clone().concat("#");
                proof {
                    reveal_strlit("#");
                    assert forall|t: int| 0 <= t < self.n() implies (#[trigger] self.nodes@[t]).node_id@ != longer@ by {
                        assert(self.nodes@[t].node_id@.len() < longer@.len());
                    }
                }
                longer
            },
        }
    }

    /// Inserts every entry of `batch`, in order, each under a fresh
    /// identifier (see `fresh_id`). Every entry is inserted; returns how
    /// many there were.
    pub fn insert_all<F: Fn(&V, &V) -> i64>(&mut self, batch: Vec<Unnamed<V>>, sim: &F) -> (r: usize)
        requires
            old(self).wf(),
            scorer_total(sim),
            forall|j: int| 0 <= j < batch@.len() ==> (#[trigger] batch@[j]).2 < usize::MAX,
        ensures
            final(self).wf(),
            final(self).max_layers == old(self).max_layers,
            final(self).max_neighbors == old(self).max_neighbors,
            final(self).ef_construction == old(self).ef_construction,
            final(self).metrics == old(self).metrics,
            forall|i: int| 0 <= i < old(self).n() ==> same_payload(#[trigger] final(self).nodes@[i], old(self).nodes@[i]),
            r == batch@.len(),
            final(self).n() == old(self).n() + r,
            forall|t: int|
                0 <= t < r ==> holds_unnamed(#[trigger] final(self).nodes@[old(self).n() + t], batch@[t]),
            exists|h: Seq<(Seq<Node<V>>, Option<NodeIndex>)>|
                #![trigger insertion_history(sim, h, old(self).max_neighbors, old(self).ef_construction, old(self).n() as int, unnamed_levels(batch@))]
                h.len() == r + 1 && h[0] == (old(self).nodes@, old(self).entry_point) && h.last() == (
                final(self).nodes@,
                final(self).entry_point,
                ) && insertion_history(sim, h, old(self).max_neighbors, old(self).ef_construction, old(self).n() as int, unnamed_levels(batch@)),
    {
        let ghost n0 = self.n();
        let ghost g0 = *self;
        let ghost all = batch@;
        let len = batch.len();
        let mut items = batch;
        let mut rev: Vec<Unnamed<V>> = Vec::new();
        loop
            invariant
                items@ == all.take(items@.len() as int),
                items@.len() <= len,
                len == all.len(),
                rev@.len() + items@.len() == len,
                forall|q: int| 0 <= q < rev@.len() ==> #[trigger] rev@[q] == all[len - 1 - q],
            ensures
                items@.len() == 0,
            decreases items@.len(),
        {
            match items.pop() {
                Some(e) => {
                    rev.push(e);
                },
                None => {
                    break;
                },
            }
        }
        let mut j: usize = 0;
        let ghost levels = unnamed_levels(all);
        let ghost mut hist: Seq<(Seq<Node<V>>, Option<NodeIndex>)> = seq![(self.nodes@, self.entry_point)];
        while j < len
            invariant
                levels == unnamed_levels(all),
                hist.len() == j + 1,
                hist[0] == (g0.nodes@, g0.entry_point),
                hist.last() == (self.nodes@, self.entry_point),
                insertion_history(sim, hist, g0.max_neighbors, g0.ef_construction, n0 as int, levels),
                rev@.len() == len - j,
                forall|q: int| 0 <= q < rev@.len() ==> #[trigger] rev@[q] == all[len - 1 - q],
                self.wf(),
                scorer_total(sim),
                self.max_layers == g0.max_layers,
                self.max_neighbors == g0.max_neighbors,
                self.ef_construction == g0.ef_construction,
                self.metrics == g0.metrics,
                n0 == g0.n(),
                len == all.len(),
                j <= len,
                forall|q: int| 0 <= q < all.len() ==> (#[trigger] all[q]).2 < usize::MAX,
                self.n() == n0 + j,
                forall|i: int| 0 <= i < n0 ==> same_payload(#[trigger] self.nodes@[i], g0.nodes@[i]),
                forall|t: int| 0 <= t < j ==> holds_unnamed(#[trigger] self.nodes@[n0 + t], all[t]),
            decreases len - j,
        {
            let e = rev.pop().unwrap();
            proof {
                assert(e == all[j as int]);
            }
            let (vector, metadata, level) = e;
            let id = self.fresh_id();
            let ghost before = self.nodes@;
            let ghost pre_entry = self.entry_point;
            let inserted = self.insert(id, vector, metadata, level, sim);
            proof {
                assert(inserted is Ok);
                let old_hist = hist;
                hist = hist.push((self.nodes@, self.entry_point));
                assert(levels[j as int] == level);
                assert forall|t: int| 0 <= t < hist.len() - 1 implies #[trigger] links_new_node(
                    sim,
                    hist[t].0,
                    hist[t].1,
                    g0.max_neighbors,
                    g0.ef_construction,
                    hist[t + 1].0,
                    n0 + t,
                    levels[t],
                ) by {
                    if t < j {
                        assert(hist[t] == old_hist[t] && hist[t + 1] == old_hist[t + 1]);
                        assert(links_new_node(sim, old_hist[t].0, old_hist[t].1, g0.max_neighbors, g0.ef_construction, old_hist[t + 1].0, n0 + t, levels[t]));
                    } else {
                        assert(hist[t] == (before, pre_entry));
                    }
                }
                assert forall|t: int| 0 <= t < j + 1 implies holds_unnamed(#[trigger] self.nodes@[n0 + t], all[t]) by {
                    if t < j {
                        assert(same_payload(self.nodes@[n0 + t], before[n0 + t]));
                    }
                }
                assert forall|i: int| 0 <= i < n0 implies same_payload(#[trigger] self.nodes@[i], g0.nodes@[i]) by {
                    assert(same_payload(self.nodes@[i], before[i]));
                }
            }
            j = j + 1;
        }
        len
    }
}

} // verus!
