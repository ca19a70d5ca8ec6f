//! Soft deletion: counting, marking and choosing a new entry point.

use vstd::prelude::*;
use super::graph::{Hnsw, HnswError, Node, NodeIndex, lemma_same_structure_wf};

verus! {

/// Number of soft-deleted nodes in a node sequence.
pub open spec fn count_dead<V>(s: Seq<Node<V>>) -> nat
    decreases s.len(),
{
    if s.len() == 0 {
        0
    } else {
        count_dead(s.drop_last()) + if s.last().tombstone { 1nat } else { 0nat }
    }
}

/// Number of live nodes in a node sequence.
pub open spec fn count_live<V>(s: Seq<Node<V>>) -> nat
    decreases s.len(),
{
    if s.len() == 0 {
        0
    } else {
        count_live(s.drop_last()) + if s.last().tombstone { 0nat } else { 1nat }
    }
}

/// Every node is either live or deleted.
pub proof fn lemma_live_plus_dead<V>(s: Seq<Node<V>>)
    ensures
        count_live(s) + count_dead(s) == s.len(),
    decreases s.len(),
{
    if s.len() > 0 {
        lemma_live_plus_dead(s.drop_last());
    }
}

/// `e` is the first live node, in index order, among the live nodes of
/// highest level below `max_layers`.
pub open spec fn entry_choice_in<V>(ns: Seq<Node<V>>, max_layers: usize, e: int) -> bool {
    &&& 0 <= e < ns.len()
    &&& !ns[e].tombstone
    &&& ns[e].max_level < max_layers
    &&& forall|i: int|
        0 <= i < ns.len() && !ns[i].tombstone && ns[i].max_level < max_layers ==> (#[trigger] ns[i]).max_level
            <= ns[e].max_level
    &&& forall|i: int| 0 <= i < e && !ns[i].tombstone ==> (#[trigger] ns[i]).max_level != ns[e].max_level
}

/// No live node has a level below `max_layers`.
pub open spec fn no_entry_choice_in<V>(ns: Seq<Node<V>>, max_layers: usize) -> bool {
    forall|i: int| 0 <= i < ns.len() ==> (#[trigger] ns[i]).tombstone || ns[i].max_level >= max_layers
}

impl<V> Hnsw<V> {
    /// `e` is the node a new entry point is chosen as: the first live node,
    /// in index order, among those of highest level below `max_layers`.
    pub open spec fn entry_choice(self, e: int) -> bool {
        entry_choice_in(self.nodes@, self.max_layers, e)
    }

    /// No live node has a level below `max_layers`.
    pub open spec fn no_entry_choice(self) -> bool {
        no_entry_choice_in(self.nodes@, self.max_layers)
    }

    /// Number of live nodes.
    pub fn active_count(&self) -> (c: usize)
        ensures
            c == count_live(self.nodes@),
    {
        let mut c: usize = 0;
        let mut i: usize = 0;
        while i < self.nodes.len()
            invariant
                i <= self.n(),
                c == count_live(self.nodes@.take(i as int)),
                c <= i,
            decreases self.n() - i,
        {
            assert(self.nodes@.take(i + 1).drop_last() == self.nodes@.take(i as int));
            if !self.nodes[i].tombstone {
                c = c + 1;
            }
            i = i + 1;
        }
        assert(self.nodes@.take(self.n()) == self.nodes@);
        c
    }

    /// Number of soft-deleted nodes.
    pub fn tombstone_count(&self) -> (c: usize)
        ensures
            c == count_dead(self.nodes@),
    {
        let mut c: usize = 0;
        let mut i: usize = 0;
        while i < self.nodes.len()
            invariant
                i <= self.n(),
                c == count_dead(self.nodes@.take(i as int)),
                c <= i,
            decreases self.n() - i,
        {
            assert(self.nodes@.take(i + 1).drop_last() == self.nodes@.take(i as int));
            if self.nodes[i].tombstone {
                c = c + 1;
            }
            i = i + 1;
        }
        assert(self.nodes@.take(self.n()) == self.nodes@);
        c
    }

    /// Marks node `node_id` as deleted.
    fn mark_tombstone(&mut self, node_id: NodeIndex) -> (r: Result<NodeIndex, HnswError>)
        requires
            old(self).wf(),
        ensures
            final(self).wf(),
            final(self).entry_point == old(self).entry_point,
            final(self).max_layers == old(self).max_layers,
            final(self).max_neighbors == old(self).max_neighbors,
            final(self).ef_construction == old(self).ef_construction,
            final(self).metrics == old(self).metrics,
            node_id < old(self).n() ==> r == Ok::<NodeIndex, HnswError>(node_id) && final(self).nodes@ == old(
                self,
            ).nodes@.update(node_id as int, Node { tombstone: true, ..old(self).nodes@[node_id as int] }),
            node_id >= old(self).n() ==> (r matches Err(HnswError::InvalidIndex(k)) && k == node_id
                && final(self).nodes@ == old(self).nodes@),
    {
        if node_id < self.nodes.len() {
            self.nodes[node_id].tombstone = true;
            proof {
                assert(self.nodes@ =~= old(self).nodes@.update(
                    node_id as int,
                    Node { tombstone: true, ..old(self).nodes@[node_id as int] },
                ));
                lemma_same_structure_wf(old(self).nodes@, self.nodes@, self.max_neighbors);
            }
            Ok(node_id)
        } else {
            Err(HnswError::InvalidIndex(node_id))
        }
    }

    /// Chooses a new entry point: the first live node, in index order,
    /// among those of the highest level below `max_layers`; `None` when
    /// there is none.
    pub fn set_new_entry_point(&mut self)
        requires
            old(self).wf(),
        ensures
            final(self).wf(),
            final(self).nodes == old(self).nodes,
            final(self).max_layers == old(self).max_layers,
            final(self).max_neighbors == old(self).max_neighbors,
            final(self).ef_construction == old(self).ef_construction,
            final(self).metrics == old(self).metrics,
            match final(self).entry_point {
                Some(e) => final(self).entry_choice(e as int),
                None => final(self).no_entry_choice(),
            },
    {
        let mut layer = self.max_layers;
        while layer > 0
            invariant
                layer <= self.max_layers,
                self.wf(),
                self.nodes == old(self).nodes,
                self.max_layers == old(self).max_layers,
                self.max_neighbors == old(self).max_neighbors,
                self.ef_construction == old(self).ef_construction,
                self.metrics == old(self).metrics,
                forall|i: int|
                    0 <= i < self.n() && !self.nodes@[i].tombstone && self.nodes@[i].max_level < self.max_layers
                        ==> #[trigger] self.nodes@[i].max_level < layer,
            decreases layer,
        {
            layer = layer - 1;
            let mut id: usize = 0;
            while id < self.nodes.len()
                invariant
                    id <= self.n(),
                    layer < self.max_layers,
                    self.wf(),
                    self.nodes == old(self).nodes,
                    self.max_layers == old(self).max_layers,
                    self.max_neighbors == old(self).max_neighbors,
                    self.ef_construction == old(self).ef_construction,
                    self.metrics == old(self).metrics,
                    forall|i: int|
                        0 <= i < self.n() && !self.nodes@[i].tombstone && self.nodes@[i].max_level
                            < self.max_layers ==> #[trigger] self.nodes@[i].max_level <= layer,
                    forall|i: int|
                        0 <= i < id && !self.nodes@[i].tombstone ==> #[trigger] self.nodes@[i].max_level != layer,
                decreases self.n() - id,
            {
                if self.nodes[id].max_level == layer && !self.nodes[id].tombstone {
                    self.entry_point = Some(id);
                    return;
                }
                id = id + 1;
            }
        }
        self.entry_point = None;
    }

    /// Soft-deletes the node with external identifier `node_id`; when it was
    /// the entry point, a new entry point is chosen.
    pub fn delete_node_by_id(&mut self, node_id: &str) -> (r: Result<(), HnswError>)
        requires
            old(self).wf(),
        ensures
            final(self).wf(),
            final(self).max_layers == old(self).max_layers,
            final(self).max_neighbors == old(self).max_neighbors,
            final(self).ef_construction == old(self).ef_construction,
            final(self).metrics == old(self).metrics,
            match old(self).index_of(node_id@) {
                None => (r matches Err(HnswError::UnknownId(s)) && s@ == node_id@ && final(self).nodes@
                    == old(self).nodes@ && final(self).entry_point == old(self).entry_point),
                Some(i) => {
                    &&& r is Ok
                    &&& final(self).nodes@ == old(self).nodes@.update(
                        i,
                        Node { tombstone: true, ..old(self).nodes@[i] },
                    )
                    &&& if old(self).entry_point == Some(i as NodeIndex) {
                        match final(self).entry_point {
                            Some(e) => final(self).entry_choice(e as int),
                            None => final(self).no_entry_choice(),
                        }
                    } else {
                        final(self).entry_point == old(self).entry_point
                    }
                },
            },
    {
        let key = node_id.to_owned();
        let idx = match self.find_index(&key) {
            Some(i) => i,
            None => {
                return Err(HnswError::UnknownId(key));
            },
        };
        let _ = self.mark_tombstone(idx);
        if let Some(entry) = self.entry_point {
            if entry == idx {
                self.set_new_entry_point();
            }
        }
        Ok(())
    }
}

} // verus!
