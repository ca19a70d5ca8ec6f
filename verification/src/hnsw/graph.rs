//! Nodes, the graph type, its well-formedness, and lookups.

use vstd::prelude::*;
use crate::metrics::Metrics;

verus! {

/// Index of a node in the graph's node array.
pub type NodeIndex = usize;

/// External, caller-chosen identifier of a node.
pub type NodeID = String;

/// Errors reported by graph operations.
#[derive(Debug, Clone)]
pub enum HnswError {
    /// A node with this external identifier already exists.
    DuplicateId(String),
    /// No node carries this external identifier.
    UnknownId(String),
    /// The node index is outside the node array.
    InvalidIndex(usize),
}

/// A node of the graph.
pub struct Node<V> {
    /// External identifier, unique within a graph.
    pub node_id: NodeID,
    /// Payload returned with search results.
    pub metadata: String,
    /// The vector this node stands for.
    pub vector: V,
    /// Neighbors per layer: `neighbors[l]` lists the neighbors at layer `l`.
    pub neighbors: Vec<Vec<NodeIndex>>,
    /// The highest layer this node exists in.
    pub max_level: usize,
    /// Soft-deletion marker: deleted nodes are skipped by searches and
    /// removed by `Hnsw::reindex`.
    pub tombstone: bool,
}

/// Builds `count` empty neighbor lists.
pub fn empty_layers(count: usize) -> (r: Vec<Vec<NodeIndex>>)
    ensures
        r@.len() == count,
        forall|l: int| 0 <= l < count ==> (#[trigger] r@[l])@.len() == 0,
{
    let mut r: Vec<Vec<NodeIndex>> = Vec::new();
    let mut i: usize = 0;
    while i < count
        invariant
            i <= count,
            r@.len() == i,
            forall|l: int| 0 <= l < i ==> (#[trigger] r@[l])@.len() == 0,
        decreases count - i,
    {
        r.push(Vec::new());
        i = i + 1;
    }
    r
}

impl<V> Node<V> {
    /// Creates a live node with empty neighbor lists for layers
    /// `0..=max_level`.
    pub fn new(id: String, vector: V, metadata: String, max_level: usize) -> (n: Self)
        requires
            max_level < usize::MAX,
        ensures
            n.node_id == id,
            n.vector == vector,
            n.metadata == metadata,
            n.max_level == max_level,
            !n.tombstone,
            n.neighbors@.len() == max_level + 1,
            forall|l: int| 0 <= l <= max_level ==> (#[trigger] n.neighbors@[l])@.len() == 0,
    {
        Node {
            node_id: id,
            metadata,
            vector,
            neighbors: empty_layers(max_level + 1),
            max_level,
            tombstone: false,
        }
    }

    /// Whether the node has been soft-deleted.
    pub fn is_deleted(&self) -> (b: bool)
        ensures
            b == self.tombstone,
    {
        self.tombstone
    }
}

/// Hierarchical navigable small-world graph.
pub struct Hnsw<V> {
    /// All nodes of the graph, indexed by `NodeIndex`.
    pub nodes: Vec<Node<V>>,
    /// Node where every search starts.
    pub entry_point: Option<NodeIndex>,
    /// Number of layers node levels are drawn from.
    pub max_layers: usize,
    /// Maximal number of neighbors kept per node and layer.
    pub max_neighbors: usize,
    /// Beam width used while inserting.
    pub ef_construction: usize,
    /// Similarity metric the vectors are compared with.
    pub metrics: Option<Metrics>,
}

/// Neighbor list of node `i` at layer `l`.
pub open spec fn nbs<V>(ns: Seq<Node<V>>, i: int, l: int) -> Seq<NodeIndex> {
    ns[i].neighbors@[l]@
}

/// Highest layer of node `i`.
pub open spec fn lvl<V>(ns: Seq<Node<V>>, i: int) -> int {
    ns[i].max_level as int
}

/// Every node has one neighbor list per layer it lives in.
pub open spec fn shaped<V>(ns: Seq<Node<V>>) -> bool {
    forall|i: int| 0 <= i < ns.len() ==> (#[trigger] ns[i]).neighbors@.len() == ns[i].max_level + 1
}

/// Every neighbor is an existing node that lives in that layer.
pub open spec fn edges_valid<V>(ns: Seq<Node<V>>) -> bool {
    forall|i: int, l: int, x: NodeIndex|
        0 <= i < ns.len() && 0 <= l <= lvl(ns, i) && #[trigger] nbs(ns, i, l).contains(x) ==> x < ns.len()
            && l <= lvl(ns, x as int)
}

/// Edges are bidirectional: if `x` lists `y` at a layer, `y` lists `x`.
pub open spec fn symmetric<V>(ns: Seq<Node<V>>) -> bool {
    forall|i: int, l: int, x: NodeIndex|
        0 <= i < ns.len() && 0 <= l <= lvl(ns, i) && #[trigger] nbs(ns, i, l).contains(x) ==> nbs(
            ns,
            x as int,
            l,
        ).contains(i as NodeIndex)
}

/// No neighbor list is longer than `m`.
pub open spec fn bounded<V>(ns: Seq<Node<V>>, m: usize) -> bool {
    forall|i: int, l: int| 0 <= i < ns.len() && 0 <= l <= lvl(ns, i) ==> (#[trigger] nbs(ns, i, l)).len() <= m
}

/// Neighbor lists hold no duplicates and no self-loops.
pub open spec fn simple<V>(ns: Seq<Node<V>>) -> bool {
    forall|i: int, l: int|
        0 <= i < ns.len() && 0 <= l <= lvl(ns, i) ==> (#[trigger] nbs(ns, i, l)).no_duplicates() && !nbs(
            ns,
            i,
            l,
        ).contains(i as NodeIndex)
}

/// External identifiers are pairwise distinct.
pub open spec fn ids_unique<V>(ns: Seq<Node<V>>) -> bool {
    forall|i: int, j: int|
        0 <= i < ns.len() && 0 <= j < ns.len() && i != j ==> (#[trigger] ns[i]).node_id@ != (#[trigger] ns[j]).node_id@
}

/// Well-formedness of a node array whose lists hold at most `m` neighbors.
pub open spec fn graph_wf<V>(ns: Seq<Node<V>>, m: usize) -> bool {
    &&& shaped(ns)
    &&& edges_valid(ns)
    &&& symmetric(ns)
    &&& bounded(ns, m)
    &&& simple(ns)
    &&& ids_unique(ns)
}

/// Two node arrays with the same identifiers, levels and neighbor lists.
pub open spec fn same_structure<V>(a: Seq<Node<V>>, b: Seq<Node<V>>) -> bool {
    &&& a.len() == b.len()
    &&& forall|i: int|
        0 <= i < a.len() ==> (#[trigger] a[i]).neighbors == b[i].neighbors && a[i].max_level == b[i].max_level
            && a[i].node_id == b[i].node_id
}

/// Well-formedness depends only on identifiers, levels and neighbor lists.
pub proof fn lemma_same_structure_wf<V>(a: Seq<Node<V>>, b: Seq<Node<V>>, m: usize)
    requires
        same_structure(a, b),
        graph_wf(a, m),
    ensures
        graph_wf(b, m),
{
    assert forall|i: int| 0 <= i < b.len() implies (#[trigger] b[i]).neighbors@.len() == b[i].max_level + 1 by {
        assert(a[i].neighbors == b[i].neighbors);
    }
    assert forall|i: int, l: int, x: NodeIndex|
        0 <= i < b.len() && 0 <= l <= lvl(b, i) && #[trigger] nbs(b, i, l).contains(x) implies x < b.len()
        && l <= lvl(b, x as int) && nbs(b, x as int, l).contains(i as NodeIndex) by {
        assert(a[i].neighbors == b[i].neighbors);
        assert(nbs(a, i, l) == nbs(b, i, l));
        assert(a[x as int].neighbors == b[x as int].neighbors);
        assert(nbs(a, x as int, l) == nbs(b, x as int, l));
    }
    assert forall|i: int, l: int| 0 <= i < b.len() && 0 <= l <= lvl(b, i) implies (#[trigger] nbs(b, i, l)).len()
        <= m && nbs(b, i, l).no_duplicates() && !nbs(b, i, l).contains(i as NodeIndex) by {
        assert(a[i].neighbors == b[i].neighbors);
        assert(nbs(a, i, l) == nbs(b, i, l));
    }
    assert forall|i: int, j: int|
        0 <= i < b.len() && 0 <= j < b.len() && i != j implies (#[trigger] b[i]).node_id@ != (
        #[trigger] b[j]).node_id@ by {
        assert(a[i].node_id == b[i].node_id);
        assert(a[j].node_id == b[j].node_id);
    }
}

impl<V> Hnsw<V> {
    /// Number of nodes, deleted ones included.
    pub open spec fn n(self) -> int {
        self.nodes@.len() as int
    }

    /// Highest layer of node `i`.
    pub open spec fn level(self, i: int) -> int {
        lvl(self.nodes@, i)
    }

    /// Neighbor list of node `i` at layer `l`.
    pub open spec fn nb(self, i: int, l: int) -> Seq<NodeIndex> {
        nbs(self.nodes@, i, l)
    }

    /// Whether node `i` is soft-deleted.
    pub open spec fn dead(self, i: int) -> bool {
        self.nodes@[i].tombstone
    }

    /// The entry point, if any, is a node of the graph.
    pub open spec fn entry_valid(self) -> bool {
        self.entry_point matches Some(e) ==> e < self.n()
    }

    /// Well-formedness of the graph.
    pub open spec fn wf(self) -> bool {
        &&& graph_wf(self.nodes@, self.max_neighbors)
        &&& self.entry_valid()
    }

    /// Index of the node whose external identifier is `id`, if any.
    pub open spec fn index_of(self, id: Seq<char>) -> Option<int> {
        if exists|i: int| 0 <= i < self.n() && (#[trigger] self.nodes@[i]).node_id@ == id {
            Some(choose|i: int| 0 <= i < self.n() && (#[trigger] self.nodes@[i]).node_id@ == id)
        } else {
            None
        }
    }

    /// Creates an empty graph.
    pub fn new(
        max_neighbors: usize,
        ef_construction: usize,
        max_layers: usize,
        metrics: &Option<Metrics>,
    ) -> (g: Self)
        ensures
            g.wf(),
            g.nodes@.len() == 0,
            g.entry_point is None,
            g.max_neighbors == max_neighbors,
            g.ef_construction == ef_construction,
            g.max_layers == max_layers,
            g.metrics == *metrics,
    {
        Hnsw {
            nodes: Vec::new(),
            entry_point: None,
            max_layers,
            max_neighbors,
            ef_construction,
            metrics: *metrics,
        }
    }

    /// Finds the index of the node with external identifier `id`.
    pub fn find_index(&self, id: &String) -> (r: Option<NodeIndex>)
        requires
            ids_unique(self.nodes@),
        ensures
            match r {
                Some(i) => i < self.n() && self.nodes@[i as int].node_id@ == id@,
                None => forall|i: int| 0 <= i < self.n() ==> (#[trigger] self.nodes@[i]).node_id@ != id@,
            },
            r matches Some(i) ==> self.index_of(id@) == Some(i as int),
            r is None ==> self.index_of(id@) is None,
    {
        let mut i: usize = 0;
        while i < self.nodes.len()
            invariant
                i <= self.n(),
                ids_unique(self.nodes@),
                forall|k: int| 0 <= k < i ==> (#[trigger] self.nodes@[k]).node_id@ != id@,
            decreases self.n() - i,
        {
            if self.nodes[i].node_id == *id {
                proof {
                    let c = choose|k: int| 0 <= k < self.n() && (#[trigger] self.nodes@[k]).node_id@ == id@;
                    assert(self.nodes@[i as int].node_id@ == id@);
                    if c != i {
                        assert(self.nodes@[c].node_id@ != self.nodes@[i as int].node_id@);
                    }
                }
                return Some(i);
            }
            i = i + 1;
        }
        None
    }

    /// The node with external identifier `node_id`, if any.
    pub fn get_node_by_id(&self, node_id: &str) -> (r: Option<&Node<V>>)
        requires
            ids_unique(self.nodes@),
        ensures
            match self.index_of(node_id@) {
                Some(i) => r == Some(&self.nodes@[i]),
                None => r is None,
            },
    {
        let key = node_id.to_owned();
        match self.find_index(&key) {
            Some(i) => Some(&self.nodes[i]),
            None => None,
        }
    }

    /// The metadata of node `node_id`, if there is such a node.
    pub fn get_metadata_by_id(&self, node_id: NodeIndex) -> (r: Option<&String>)
        ensures
            node_id < self.n() ==> r == Some(&self.nodes@[node_id as int].metadata),
            node_id >= self.n() ==> r is None,
    {
        if node_id < self.nodes.len() {
            Some(&self.nodes[node_id].metadata)
        } else {
            None
        }
    }

    /// The vector of node `node_id`, if there is such a node.
    pub fn get_vector_by_id(&self, node_id: NodeIndex) -> (r: Option<&V>)
        ensures
            node_id < self.n() ==> r == Some(&self.nodes@[node_id as int].vector),
            node_id >= self.n() ==> r is None,
    {
        if node_id < self.nodes.len() {
            Some(&self.nodes[node_id].vector)
        } else {
            None
        }
    }

    /// The level a new node gets from a drawn level: at most the top layer,
    /// `max_layers - 1`.
    pub fn clamp_level(&self, drawn: usize) -> (l: usize)
        requires
            self.max_layers >= 1,
        ensures
            l == if drawn < self.max_layers { drawn } else { (self.max_layers - 1) as usize },
    {
        if drawn < self.max_layers {
            drawn
        } else {
            self.max_layers - 1
        }
    }
}

impl<V> Default for Hnsw<V> {
    /// An empty graph with 16 neighbors per node and layer, a construction
    /// beam of 200, 12 layers, and cosine similarity.
    fn default() -> (g: Self)
        ensures
            g.wf(),
            g.nodes@.len() == 0,
            g.entry_point is None,
            g.max_neighbors == 16,
            g.ef_construction == 200,
            g.max_layers == 12,
            g.metrics == Some(Metrics::Cosine),
    {
        Hnsw::new(16, 200, 12, &Some(Metrics::Cosine))
    }
}

} // verus!
