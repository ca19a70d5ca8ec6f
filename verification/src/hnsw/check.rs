//! Checking a graph read from elsewhere (such as a file) for
//! well-formedness before it is used.

use vstd::prelude::*;
use super::graph::{Hnsw, Node, NodeIndex, nbs, lvl, shaped, edges_valid, symmetric, bounded, simple, ids_unique, graph_wf};
use super::insert::list_contains;

verus! {

/// What well-formedness asks of one neighbor list: at most `m` entries, no
/// duplicates, no self-loop, and every neighbor an existing node of that
/// layer that lists `i` back.
pub open spec fn list_ok<V>(ns: Seq<Node<V>>, m: usize, i: int, l: int) -> bool {
    &&& nbs(ns, i, l).len() <= m
    &&& nbs(ns, i, l).no_duplicates()
    &&& !nbs(ns, i, l).contains(i as NodeIndex)
    &&& forall|x: NodeIndex| #[trigger] nbs(ns, i, l).contains(x) ==> x < ns.len() && l <= lvl(ns, x as int) && nbs(
        ns,
        x as int,
        l,
    ).contains(i as NodeIndex)
}

/// Well-formedness is shape, sound lists, and distinct identifiers.
proof fn lemma_wf_by_lists<V>(ns: Seq<Node<V>>, m: usize)
    requires
        shaped(ns),
    ensures
        graph_wf(ns, m) <==> (ids_unique(ns) && forall|i: int, l: int|
            0 <= i < ns.len() && 0 <= l <= lvl(ns, i) ==> #[trigger] list_ok(ns, m, i, l)),
{
    if graph_wf(ns, m) {
        assert forall|i: int, l: int| 0 <= i < ns.len() && 0 <= l <= lvl(ns, i) implies #[trigger] list_ok(ns, m, i, l) by {
            assert forall|x: NodeIndex| #[trigger] nbs(ns, i, l).contains(x) implies x < ns.len() && l <= lvl(ns, x as int)
                && nbs(ns, x as int, l).contains(i as NodeIndex) by {}
        }
    }
    if ids_unique(ns) && forall|i: int, l: int| 0 <= i < ns.len() && 0 <= l <= lvl(ns, i) ==> #[trigger] list_ok(ns, m, i, l) {
        assert(edges_valid(ns)) by {
            assert forall|i: int, l: int, x: NodeIndex|
                0 <= i < ns.len() && 0 <= l <= lvl(ns, i) && #[trigger] nbs(ns, i, l).contains(x) implies x < ns.len() && l
                <= lvl(ns, x as int) by {
                assert(list_ok(ns, m, i, l));
            }
        }
        assert(symmetric(ns)) by {
            assert forall|i: int, l: int, x: NodeIndex|
                0 <= i < ns.len() && 0 <= l <= lvl(ns, i) && #[trigger] nbs(ns, i, l).contains(x) implies nbs(
                ns,
                x as int,
                l,
            ).contains(i as NodeIndex) by {
                assert(list_ok(ns, m, i, l));
            }
        }
        assert(bounded(ns, m)) by {
            assert forall|i: int, l: int| 0 <= i < ns.len() && 0 <= l <= lvl(ns, i) implies (#[trigger] nbs(ns, i, l)).len() <= m by {
                assert(list_ok(ns, m, i, l));
            }
        }
        assert(simple(ns)) by {
            assert forall|i: int, l: int| 0 <= i < ns.len() && 0 <= l <= lvl(ns, i) implies (#[trigger] nbs(
                ns,
                i,
                l,
            )).no_duplicates() && !nbs(ns, i, l).contains(i as NodeIndex) by {
                assert(list_ok(ns, m, i, l));
            }
        }
    }
}

/// Whether every node has one neighbor list per layer it lives in.
fn shaped_check<V>(ns: &Vec<Node<V>>) -> (b: bool)
    ensures
        b == shaped(ns@),
{
    let mut i: usize = 0;
    while i < ns.len()
        invariant
            i <= ns@.len(),
            forall|j: int| 0 <= j < i ==> (#[trigger] ns@[j]).neighbors@.len() == ns@[j].max_level + 1,
        decreases ns@.len() - i,
    {
        let k = ns[i].neighbors.len();
        if k == 0 || k - 1 != ns[i].max_level {
            return false;
        }
        i = i + 1;
    }
    true
}

/// Whether no entry of `v` repeats.
fn no_dup_check(v: &Vec<NodeIndex>) -> (b: bool)
    ensures
        b == v@.no_duplicates(),
{
    let mut i: usize = 0;
    while i < v.len()
        invariant
            i <= v@.len(),
            forall|a: int, c: int| 0 <= a < c < v@.len() && a < i ==> v@[a] != v@[c],
        decreases v@.len() - i,
    {
        let mut j: usize = i + 1;
        while j < v.len()
            invariant
                i < v@.len(),
                i + 1 <= j <= v@.len(),
                forall|a: int, c: int| 0 <= a < c < v@.len() && a < i ==> v@[a] != v@[c],
                forall|c: int| i < c < j ==> v@[i as int] != v@[c],
            decreases v@.len() - j,
        {
            if v[i] == v[j] {
                return false;
            }
            j = j + 1;
        }
        i = i + 1;
    }
    true
}

/// Whether the neighbor list of node `i` at layer `l` is sound.
fn list_check<V>(ns: &Vec<Node<V>>, m: usize, i: usize, l: usize) -> (b: bool)
    requires
        shaped(ns@),
        i < ns@.len(),
        l <= lvl(ns@, i as int),
    ensures
        b == list_ok(ns@, m, i as int, l as int),
{
    let list = &ns[i].neighbors[l];
    if list.len() > m {
        return false;
    }
    if !no_dup_check(list) {
        return false;
    }
    if list_contains(list, i) {
        return false;
    }
    let mut k: usize = 0;
    while k < list.len()
        invariant
            shaped(ns@),
            i < ns@.len(),
            l <= lvl(ns@, i as int),
            list@ == nbs(ns@, i as int, l as int),
            k <= list@.len(),
            forall|q: int|
                0 <= q < k ==> (#[trigger] list@[q]) < ns@.len() && l <= lvl(ns@, list@[q] as int) && nbs(
                    ns@,
                    list@[q] as int,
                    l as int,
                ).contains(i as NodeIndex),
        decreases list@.len() - k,
    {
        let x = list[k];
        proof {
            assert(list@[k as int] == x);
            assert(nbs(ns@, i as int, l as int).contains(x));
        }
        if x >= ns.len() || l > ns[x].max_level {
            return false;
        }
        if !list_contains(&ns[x].neighbors[l], i) {
            return false;
        }
        k = k + 1;
    }
    proof {
        assert forall|x: NodeIndex| #[trigger] nbs(ns@, i as int, l as int).contains(x) implies x < ns@.len() && l <= lvl(
            ns@,
            x as int,
        ) && nbs(ns@, x as int, l as int).contains(i as NodeIndex) by {
            let q = choose|q: int| 0 <= q < list@.len() && list@[q] == x;
        }
    }
    true
}

/// Whether no two nodes share an identifier.
fn ids_check<V>(ns: &Vec<Node<V>>) -> (b: bool)
    ensures
        b == ids_unique(ns@),
{
    let mut i: usize = 0;
    while i < ns.len()
        invariant
            i <= ns@.len(),
            forall|a: int, c: int| 0 <= a < ns@.len() && 0 <= c < ns@.len() && a != c && (a < i || c < i) ==> (#[trigger] ns@[a]).node_id@
                != (#[trigger] ns@[c]).node_id@,
        decreases ns@.len() - i,
    {
        let mut j: usize = 0;
        while j < ns.len()
            invariant
                i < ns@.len(),
                j <= ns@.len(),
                forall|a: int, c: int| 0 <= a < ns@.len() && 0 <= c < ns@.len() && a != c && (a < i || c < i) ==> (#[trigger] ns@[a]).node_id@
                    != (#[trigger] ns@[c]).node_id@,
                forall|c: int| 0 <= c < j && c != i ==> ns@[i as int].node_id@ != (#[trigger] ns@[c]).node_id@,
            decreases ns@.len() - j,
        {
            if j != i && ns[i].node_id == ns[j].node_id {
                return false;
            }
            j = j + 1;
        }
        i = i + 1;
    }
    true
}

impl<V> Hnsw<V> {
    /// Whether the graph is well formed: every node has one neighbor list per
    /// layer it lives in; lists hold at most `max_neighbors` distinct
    /// existing nodes of that layer, never the node itself, each listing the
    /// node back; identifiers are distinct; the entry point is a node.
    pub fn is_well_formed(&self) -> (b: bool)
        ensures
            b == self.wf(),
    {
        match self.entry_point {
            Some(e) => {
                if e >= self.nodes.len() {
                    return false;
                }
            },
            None => {},
        }
        if !shaped_check(&self.nodes) {
            return false;
        }
        proof {
            lemma_wf_by_lists(self.nodes@, self.max_neighbors);
        }
        let n = self.nodes.len();
        let mut i: usize = 0;
        while i < n
            invariant
                n == self.nodes@.len(),
                i <= n,
                shaped(self.nodes@),
                forall|a: int, l: int|
                    0 <= a < i && 0 <= l <= lvl(self.nodes@, a) ==> #[trigger] list_ok(self.nodes@, self.max_neighbors, a, l),
            decreases n - i,
        {
            let top = self.nodes[i].max_level;
            let mut l: usize = 0;
            loop
                invariant
                    n == self.nodes@.len(),
                    i < n,
                    top == lvl(self.nodes@, i as int),
                    l <= top,
                    shaped(self.nodes@),
                    forall|a: int, q: int|
                        0 <= a < i && 0 <= q <= lvl(self.nodes@, a) ==> #[trigger] list_ok(self.nodes@, self.max_neighbors, a, q),
                    forall|q: int| 0 <= q < l ==> #[trigger] list_ok(self.nodes@, self.max_neighbors, i as int, q),
                ensures
                    forall|q: int| 0 <= q <= top ==> #[trigger] list_ok(self.nodes@, self.max_neighbors, i as int, q),
                decreases top - l,
            {
                if !list_check(&self.nodes, self.max_neighbors, i, l) {
                    return false;
                }
                if l == top {
                    break;
                }
                l = l + 1;
            }
            proof {
                assert forall|a: int, q: int|
                    0 <= a < i + 1 && 0 <= q <= lvl(self.nodes@, a) implies #[trigger] list_ok(self.nodes@, self.max_neighbors, a, q) by {
                    if a == i {
                        assert(q <= top);
                    }
                }
            }
            i = i + 1;
        }
        ids_check(&self.nodes)
    }
}

} // verus!
