//! Compaction: dropping soft-deleted nodes and renumbering the rest.

use vstd::prelude::*;
use super::graph::{Hnsw, HnswError, Node, NodeIndex, nbs, lvl, graph_wf};
use super::tombstone::{count_live, count_dead, lemma_live_plus_dead};

verus! {

/// The index a live node `i` gets once the deleted nodes are dropped: the
/// number of live nodes before it.
pub open spec fn rank<V>(ns: Seq<Node<V>>, i: int) -> nat {
    count_live(ns.take(i))
}

/// A neighbor list renumbered for the compacted graph: deleted neighbors
/// are dropped and the others replaced by their rank.
pub open spec fn remap<V>(ns: Seq<Node<V>>, s: Seq<NodeIndex>) -> Seq<NodeIndex>
    decreases s.len(),
{
    if s.len() == 0 {
        Seq::empty()
    } else if ns[s.last() as int].tombstone {
        remap(ns, s.drop_last())
    } else {
        remap(ns, s.drop_last()).push(rank(ns, s.last() as int) as NodeIndex)
    }
}

/// The live nodes of `ns`, in order.
pub open spec fn live_nodes<V>(ns: Seq<Node<V>>) -> Seq<Node<V>>
    decreases ns.len(),
{
    if ns.len() == 0 {
        Seq::empty()
    } else if ns.last().tombstone {
        live_nodes(ns.drop_last())
    } else {
        live_nodes(ns.drop_last()).push(ns.last())
    }
}

/// A node's rank is at most its index.
pub proof fn lemma_rank_le<V>(ns: Seq<Node<V>>, i: int)
    requires
        0 <= i <= ns.len(),
    ensures
        rank(ns, i) <= i,
{
    lemma_live_plus_dead(ns.take(i));
}

/// Ranks grow by one past every live node.
pub proof fn lemma_rank_step<V>(ns: Seq<Node<V>>, i: int)
    requires
        0 <= i < ns.len(),
    ensures
        rank(ns, i + 1) == rank(ns, i) + if ns[i].tombstone { 0nat } else { 1nat },
{
    assert(ns.take(i + 1).drop_last() == ns.take(i));
}

/// Ranks never decrease, and strictly increase past a live node.
pub proof fn lemma_rank_mono<V>(ns: Seq<Node<V>>, i: int, j: int)
    requires
        0 <= i <= j <= ns.len(),
    ensures
        rank(ns, i) <= rank(ns, j),
        i < j && !ns[i].tombstone ==> rank(ns, i) < rank(ns, j),
    decreases j - i,
{
    if i < j {
        lemma_rank_mono(ns, i, j - 1);
        lemma_rank_step(ns, j - 1);
        if i == j - 1 {
        }
    }
}

/// Distinct live nodes get distinct ranks, below the number of live nodes.
pub proof fn lemma_rank_injective<V>(ns: Seq<Node<V>>, i: int, j: int)
    requires
        0 <= i < ns.len(),
        0 <= j < ns.len(),
        !ns[i].tombstone,
        !ns[j].tombstone,
    ensures
        rank(ns, i) < count_live(ns),
        i != j ==> rank(ns, i) != rank(ns, j),
{
    assert(ns.take(ns.len() as int) == ns);
    lemma_rank_mono(ns, i, ns.len() as int);
    if i < j {
        lemma_rank_mono(ns, i, j);
    } else if j < i {
        lemma_rank_mono(ns, j, i);
    }
}


/// Every index of the compacted graph is the rank of some live node.
pub proof fn lemma_rank_onto<V>(ns: Seq<Node<V>>, k: int)
    requires
        0 <= k < count_live(ns),
    ensures
        exists|i: int| 0 <= i < ns.len() && !ns[i].tombstone && rank(ns, i) == k,
    decreases ns.len(),
{
    let m = ns.len() - 1;
    let d = ns.drop_last();
    assert(ns.take(m) == d);
    assert(ns.take(ns.len() as int) == ns);
    assert(count_live(ns) == count_live(d) + if ns.last().tombstone { 0nat } else { 1nat });
    if k < count_live(d) {
        lemma_rank_onto(d, k);
        let i = choose|i: int| 0 <= i < d.len() && !d[i].tombstone && rank(d, i) == k;
        assert(d.take(i) == ns.take(i));
        assert(ns[i] == d[i]);
        assert(0 <= i < ns.len() && !ns[i].tombstone && rank(ns, i) == k);
    } else {
        assert(rank(ns, m) == count_live(d));
        assert(!ns[m].tombstone);
        assert(0 <= m < ns.len() && !ns[m].tombstone && rank(ns, m) == k);
    }
}

/// What renumbering a neighbor list keeps.
pub proof fn lemma_remap<V>(ns: Seq<Node<V>>, s: Seq<NodeIndex>)
    requires
        ns.len() <= usize::MAX,
        forall|x: NodeIndex| s.contains(x) ==> x < ns.len(),
    ensures
        remap(ns, s).len() <= s.len(),
        forall|y: NodeIndex|
            #[trigger] remap(ns, s).contains(y) <==> exists|x: NodeIndex|
                #[trigger] s.contains(x) && !ns[x as int].tombstone && rank(ns, x as int) == y,
        s.no_duplicates() ==> remap(ns, s).no_duplicates(),
    decreases s.len(),
{
    if s.len() > 0 {
        let d = s.drop_last();
        let x0 = s.last();
        assert(s == d.push(x0));
        assert forall|x: NodeIndex| d.contains(x) implies x < ns.len() by {
            let k = choose|k: int| 0 <= k < d.len() && d[k] == x;
            assert(s[k] == x);
            assert(s.contains(x));
        }
        assert(s.contains(x0));
        lemma_rank_le(ns, x0 as int);
        assert forall|x: NodeIndex| #[trigger] s.contains(x) implies rank(ns, x as int) < ns.len() by {
            lemma_rank_le(ns, x as int);
        }
        lemma_remap(ns, d);
        let r = remap(ns, d);
        assert(s[s.len() - 1] == x0);
        assert forall|y: NodeIndex|
            #[trigger] remap(ns, s).contains(y) <==> exists|x: NodeIndex|
                #[trigger] s.contains(x) && !ns[x as int].tombstone && rank(ns, x as int) == y by {
            if remap(ns, s).contains(y) {
                if r.contains(y) {
                    let x = choose|x: NodeIndex| #[trigger] d.contains(x) && !ns[x as int].tombstone && rank(ns, x as int) == y;
                    let k = choose|k: int| 0 <= k < d.len() && d[k] == x;
                    assert(s[k] == x);
                    assert(s.contains(x));
                } else {
                    let k = choose|k: int| 0 <= k < remap(ns, s).len() && remap(ns, s)[k] == y;
                    assert(!ns[x0 as int].tombstone);
                    assert(remap(ns, s) == r.push(rank(ns, x0 as int) as NodeIndex));
                    if k < r.len() {
                        assert(r[k] == y);
                    }
                    assert(y == rank(ns, x0 as int) as NodeIndex);
                    assert(s.contains(x0));
        lemma_rank_le(ns, x0 as int);
        assert forall|x: NodeIndex| #[trigger] s.contains(x) implies rank(ns, x as int) < ns.len() by {
            lemma_rank_le(ns, x as int);
        }
                }
            }
            if exists|x: NodeIndex| #[trigger] s.contains(x) && !ns[x as int].tombstone && rank(ns, x as int) == y {
                let x = choose|x: NodeIndex| #[trigger] s.contains(x) && !ns[x as int].tombstone && rank(ns, x as int) == y;
                let k = choose|k: int| 0 <= k < s.len() && s[k] == x;
                if k < d.len() {
                    assert(d[k] == x);
                    assert(d.contains(x));
                    assert(r.contains(y));
                    let q = choose|q: int| 0 <= q < r.len() && r[q] == y;
                    if ns[x0 as int].tombstone {
                        assert(remap(ns, s)[q] == y);
                    } else {
                        assert(remap(ns, s) == r.push(rank(ns, x0 as int) as NodeIndex));
                        assert(remap(ns, s)[q] == y);
                    }
                } else {
                    assert(x == x0);
                    assert(remap(ns, s) == r.push(rank(ns, x0 as int) as NodeIndex));
                    assert(remap(ns, s)[r.len() as int] == y);
                }
            }
        }
        if s.no_duplicates() {
            assert(d.no_duplicates()) by {
                assert forall|a: int, b: int| 0 <= a < d.len() && 0 <= b < d.len() && a != b implies d[a] != d[b] by {
                    assert(s[a] == d[a] && s[b] == d[b]);
                }
            }
            if !ns[x0 as int].tombstone {
                let ny = rank(ns, x0 as int) as NodeIndex;
                assert(!r.contains(ny)) by {
                    if r.contains(ny) {
                        let x = choose|x: NodeIndex| #[trigger] d.contains(x) && !ns[x as int].tombstone && rank(ns, x as int) == ny;
                        let k = choose|k: int| 0 <= k < d.len() && d[k] == x;
                        assert(s[k] == x);
                        assert(s[k] != s[s.len() - 1]);
                        lemma_rank_injective(ns, x as int, x0 as int);
                    }
                }
                let t = r.push(ny);
                assert forall|a: int, b: int| 0 <= a < t.len() && 0 <= b < t.len() && a != b implies t[a] != t[b] by {
                    if a < r.len() && b < r.len() {
                    } else if a == r.len() {
                        assert(r.contains(r[b]));
                    } else {
                        assert(r.contains(r[a]));
                    }
                }
            }
        }
    }
}


/// With no deleted node counted, every node is live.
pub proof fn lemma_no_dead<V>(ns: Seq<Node<V>>)
    requires
        count_dead(ns) == 0,
    ensures
        forall|k: int| 0 <= k < ns.len() ==> !(#[trigger] ns[k]).tombstone,
    decreases ns.len(),
{
    if ns.len() > 0 {
        let d = ns.drop_last();
        lemma_no_dead(d);
        assert forall|k: int| 0 <= k < ns.len() implies !(#[trigger] ns[k]).tombstone by {
            if k < d.len() {
                assert(ns[k] == d[k]);
            }
        }
    }
}

/// The live node whose rank is `k`.
pub proof fn lemma_source<V>(a: Seq<Node<V>>, k: int) -> (i: int)
    requires
        0 <= k < count_live(a),
    ensures
        0 <= i < a.len(),
        !a[i].tombstone,
        rank(a, i) == k,
{
    lemma_rank_onto(a, k);
    choose|i: int| 0 <= i < a.len() && !a[i].tombstone && rank(a, i) == k
}

/// `b` is `a` with the deleted nodes dropped: every live node `i` of `a`
/// reappears, unchanged but for its renumbered neighbor lists, at index
/// `rank(a, i)`.
pub open spec fn compacted<V>(a: Seq<Node<V>>, b: Seq<Node<V>>) -> bool {
    &&& b.len() == count_live(a)
    &&& forall|i: int|
        0 <= i < a.len() && !a[i].tombstone ==> {
            let k = #[trigger] rank(a, i) as int;
            &&& b[k].node_id == a[i].node_id
            &&& b[k].metadata == a[i].metadata
            &&& b[k].vector == a[i].vector
            &&& b[k].max_level == a[i].max_level
            &&& !b[k].tombstone
            &&& b[k].neighbors@.len() == a[i].neighbors@.len()
            &&& forall|l: int| 0 <= l < a[i].neighbors@.len() ==> #[trigger] nbs(b, k, l) == remap(a, nbs(a, i, l))
        }
}

/// Compacting a well-formed graph yields a well-formed graph without
/// deleted nodes.
pub proof fn lemma_compacted_wf<V>(a: Seq<Node<V>>, b: Seq<Node<V>>, m: usize)
    requires
        graph_wf(a, m),
        a.len() <= usize::MAX,
        compacted(a, b),
    ensures
        graph_wf(b, m),
        forall|k: int| 0 <= k < b.len() ==> !(#[trigger] b[k]).tombstone,
{
    assert forall|i: int, j: int|
        0 <= i < a.len() && 0 <= j < a.len() && !a[i].tombstone && !a[j].tombstone && #[trigger] rank(a, i) == #[trigger] rank(
            a,
            j,
        ) implies i == j by {
        lemma_rank_injective(a, i, j);
    }
    assert forall|i: int| 0 <= i < a.len() && !a[i].tombstone implies #[trigger] rank(a, i) < b.len() by {
        lemma_rank_injective(a, i, i);
    }
    assert forall|k: int| 0 <= k < b.len() implies !(#[trigger] b[k]).tombstone && b[k].neighbors@.len() == b[k].max_level + 1 by {
        let i = lemma_source(a, k);
        assert(a[i].neighbors@.len() == a[i].max_level + 1);
    }
    assert forall|k: int, l: int, y: NodeIndex|
        0 <= k < b.len() && 0 <= l <= lvl(b, k) && #[trigger] nbs(b, k, l).contains(y) implies y < b.len() && l <= lvl(
            b,
            y as int,
        ) && nbs(b, y as int, l).contains(k as NodeIndex) by {
        let i = lemma_source(a, k);
        assert(a[i].neighbors@.len() == a[i].max_level + 1);
        assert(nbs(b, k, l) == remap(a, nbs(a, i, l)));
        lemma_remap(a, nbs(a, i, l));
        let x = choose|x: NodeIndex| #[trigger] nbs(a, i, l).contains(x) && !a[x as int].tombstone && rank(a, x as int) == y;
        assert(x < a.len() && l <= lvl(a, x as int));
        assert(nbs(a, x as int, l).contains(i as NodeIndex));
        lemma_rank_le(a, x as int);
        assert(rank(a, x as int) as int == y as int);
        assert(a[x as int].neighbors@.len() == a[x as int].max_level + 1);
        assert(nbs(b, y as int, l) == remap(a, nbs(a, x as int, l)));
        assert forall|z: NodeIndex| nbs(a, x as int, l).contains(z) implies z < a.len() by {}
        lemma_remap(a, nbs(a, x as int, l));
        lemma_rank_le(a, i);
        assert(nbs(a, x as int, l).contains(i as NodeIndex) && !a[i].tombstone && rank(a, i) == k as NodeIndex);
    }
    assert forall|k: int, l: int| 0 <= k < b.len() && 0 <= l <= lvl(b, k) implies (#[trigger] nbs(b, k, l)).len() <= m
        && nbs(b, k, l).no_duplicates() && !nbs(b, k, l).contains(k as NodeIndex) by {
        let i = lemma_source(a, k);
        assert(a[i].neighbors@.len() == a[i].max_level + 1);
        assert(nbs(b, k, l) == remap(a, nbs(a, i, l)));
        lemma_remap(a, nbs(a, i, l));
        lemma_rank_le(a, i);
        if nbs(b, k, l).contains(k as NodeIndex) {
            let x = choose|x: NodeIndex| #[trigger] nbs(a, i, l).contains(x) && !a[x as int].tombstone && rank(a, x as int) == k as NodeIndex;
            lemma_rank_le(a, x as int);
            assert(rank(a, x as int) == rank(a, i));
            assert(x as int == i);
        }
    }
    assert forall|k1: int, k2: int|
        0 <= k1 < b.len() && 0 <= k2 < b.len() && k1 != k2 implies (#[trigger] b[k1]).node_id@ != (#[trigger] b[k2]).node_id@ by {
        let i1 = lemma_source(a, k1);
        let i2 = lemma_source(a, k2);
        assert(a[i1].node_id@ != a[i2].node_id@);
    }
}


/// `k` is the first node of highest level.
pub open spec fn first_top<V>(ns: Seq<Node<V>>, k: int) -> bool {
    &&& 0 <= k < ns.len()
    &&& forall|j: int| 0 <= j < ns.len() ==> (#[trigger] ns[j]).max_level <= ns[k].max_level
    &&& forall|j: int| 0 <= j < k ==> (#[trigger] ns[j]).max_level < ns[k].max_level
}

/// Renumbers one neighbor list, given the deletion flags and ranks of `a`.
fn remap_list<V>(
    src: &Vec<NodeIndex>,
    dead: &Vec<bool>,
    new_index: &Vec<usize>,
    Ghost(a): Ghost<Seq<Node<V>>>,
) -> (r: Vec<NodeIndex>)
    requires
        dead@.len() == a.len(),
        new_index@.len() == a.len(),
        forall|x: int| 0 <= x < a.len() ==> #[trigger] dead@[x] == a[x].tombstone,
        forall|x: int| 0 <= x < a.len() ==> #[trigger] new_index@[x] == rank(a, x),
        forall|x: NodeIndex| src@.contains(x) ==> x < a.len(),
    ensures
        r@ == remap(a, src@),
{
    let mut r: Vec<NodeIndex> = Vec::new();
    let mut j: usize = 0;
    while j < src.len()
        invariant
            j <= src@.len(),
            dead@.len() == a.len(),
            new_index@.len() == a.len(),
            forall|x: int| 0 <= x < a.len() ==> #[trigger] dead@[x] == a[x].tombstone,
            forall|x: int| 0 <= x < a.len() ==> #[trigger] new_index@[x] == rank(a, x),
            forall|x: NodeIndex| src@.contains(x) ==> x < a.len(),
            r@ == remap(a, src@.take(j as int)),
        decreases src@.len() - j,
    {
        let x = src[j];
        proof {
            assert(src@.contains(x));
            assert(src@.take(j + 1).drop_last() == src@.take(j as int));
            assert(src@.take(j + 1).last() == x);
        }
        if !dead[x] {
            r.push(new_index[x]);
        }
        j = j + 1;
    }
    assert(src@.take(src@.len() as int) == src@);
    r
}

/// Renumbers every neighbor list of a node.
fn remap_lists<V>(
    lists: &Vec<Vec<NodeIndex>>,
    dead: &Vec<bool>,
    new_index: &Vec<usize>,
    Ghost(a): Ghost<Seq<Node<V>>>,
) -> (r: Vec<Vec<NodeIndex>>)
    requires
        dead@.len() == a.len(),
        new_index@.len() == a.len(),
        forall|x: int| 0 <= x < a.len() ==> #[trigger] dead@[x] == a[x].tombstone,
        forall|x: int| 0 <= x < a.len() ==> #[trigger] new_index@[x] == rank(a, x),
        forall|l: int, x: NodeIndex| 0 <= l < lists@.len() && #[trigger] lists@[l]@.contains(x) ==> x < a.len(),
    ensures
        r@.len() == lists@.len(),
        forall|l: int| 0 <= l < lists@.len() ==> (#[trigger] r@[l])@ == remap(a, lists@[l]@),
{
    let mut r: Vec<Vec<NodeIndex>> = Vec::new();
    let mut l: usize = 0;
    while l < lists.len()
        invariant
            l <= lists@.len(),
            dead@.len() == a.len(),
            new_index@.len() == a.len(),
            forall|x: int| 0 <= x < a.len() ==> #[trigger] dead@[x] == a[x].tombstone,
            forall|x: int| 0 <= x < a.len() ==> #[trigger] new_index@[x] == rank(a, x),
            forall|l2: int, x: NodeIndex| 0 <= l2 < lists@.len() && #[trigger] lists@[l2]@.contains(x) ==> x < a.len(),
            r@.len() == l,
            forall|l2: int| 0 <= l2 < l ==> (#[trigger] r@[l2])@ == remap(a, lists@[l2]@),
        decreases lists@.len() - l,
    {
        let one = remap_list::<V>(&lists[l], dead, new_index, Ghost(a));
        r.push(one);
        l = l + 1;
    }
    r
}

impl<V> Hnsw<V> {
    /// Drops the soft-deleted nodes: the live nodes keep their order and are
    /// renumbered, their neighbor lists lose the deleted neighbors and are
    /// renumbered accordingly. The entry point is kept when it is live;
    /// otherwise the first node of highest level becomes the entry point.
    pub fn reindex(&mut self) -> (r: Result<(), HnswError>)
        requires
            old(self).wf(),
        ensures
            r is Ok,
            final(self).wf(),
            final(self).max_layers == old(self).max_layers,
            final(self).max_neighbors == old(self).max_neighbors,
            final(self).ef_construction == old(self).ef_construction,
            final(self).metrics == old(self).metrics,
            forall|k: int| 0 <= k < final(self).n() ==> !(#[trigger] final(self).nodes@[k]).tombstone,
            count_dead(old(self).nodes@) == 0 ==> final(self).nodes@ == old(self).nodes@ && final(self).entry_point
                == old(self).entry_point,
            count_dead(old(self).nodes@) > 0 ==> {
                &&& compacted(old(self).nodes@, final(self).nodes@)
                &&& match old(self).entry_point {
                    None => final(self).entry_point is None,
                    Some(e) => if !old(self).nodes@[e as int].tombstone {
                        final(self).entry_point == Some(rank(old(self).nodes@, e as int) as NodeIndex)
                    } else {
                        match final(self).entry_point {
                            None => final(self).n() == 0,
                            Some(k) => first_top(final(self).nodes@, k as int),
                        }
                    },
                }
            },
    {
        let ghost a = self.nodes@;
        if self.tombstone_count() == 0 {
            proof {
                lemma_no_dead(a);
            }
            return Ok(());
        }
        let n = self.nodes.len();
        let mut dead: Vec<bool> = Vec::new();
        let mut new_index: Vec<usize> = Vec::new();
        let mut live: usize = 0;
        let mut i: usize = 0;
        while i < n
            invariant
                self.nodes@ == a,
                n == a.len(),
                i <= n,
                dead@.len() == i,
                new_index@.len() == i,
                forall|x: int| 0 <= x < i ==> #[trigger] dead@[x] == a[x].tombstone,
                forall|x: int| 0 <= x < i ==> #[trigger] new_index@[x] == rank(a, x),
                live == rank(a, i as int),
            decreases n - i,
        {
            proof {
                lemma_rank_step(a, i as int);
                lemma_rank_le(a, i + 1);
            }
            let t = self.nodes[i].tombstone;
            dead.push(t);
            new_index.push(live);
            if !t {
                live = live + 1;
            }
            i = i + 1;
        }
        proof {
            assert(a.take(n as int) == a);
        }
        let old_entry = self.entry_point;
        let mut old_nodes: Vec<Node<V>> = Vec::new();
        std::mem::swap(&mut old_nodes, &mut self.nodes);
        let mut rev: Vec<Node<V>> = Vec::new();
        loop
            invariant
                old_nodes@ == a.take(old_nodes@.len() as int),
                old_nodes@.len() <= n,
                n == a.len(),
                rev@.len() + old_nodes@.len() == n,
                forall|t: int| 0 <= t < rev@.len() ==> #[trigger] rev@[t] == a[n - 1 - t],
            ensures
                old_nodes@.len() == 0,
            decreases old_nodes@.len(),
        {
            match old_nodes.pop() {
                Some(nd) => {
                    rev.push(nd);
                },
                None => {
                    break;
                },
            }
        }
        let mut new_nodes: Vec<Node<V>> = Vec::new();
        let mut i: usize = 0;
        loop
            invariant
                graph_wf(a, self.max_neighbors),
                n == a.len(),
                i <= n,
                rev@.len() == n - i,
                forall|t: int| 0 <= t < rev@.len() ==> #[trigger] rev@[t] == a[n - 1 - t],
                dead@.len() == a.len(),
                new_index@.len() == a.len(),
                forall|x: int| 0 <= x < a.len() ==> #[trigger] dead@[x] == a[x].tombstone,
                forall|x: int| 0 <= x < a.len() ==> #[trigger] new_index@[x] == rank(a, x),
                new_nodes@.len() == rank(a, i as int),
                forall|j: int|
                    0 <= j < i && !a[j].tombstone ==> {
                        let k = #[trigger] rank(a, j) as int;
                        &&& new_nodes@[k].node_id == a[j].node_id
                        &&& new_nodes@[k].metadata == a[j].metadata
                        &&& new_nodes@[k].vector == a[j].vector
                        &&& new_nodes@[k].max_level == a[j].max_level
                        &&& !new_nodes@[k].tombstone
                        &&& new_nodes@[k].neighbors@.len() == a[j].neighbors@.len()
                        &&& forall|l: int| 0 <= l < a[j].neighbors@.len() ==> #[trigger] nbs(new_nodes@, k, l) == remap(a, nbs(a, j, l))
                    },
            ensures
                i == n,
            decreases rev@.len(),
        {
            let popped = rev.pop();
            match popped {
                Some(nd) => {
                    proof {
                        assert(nd == a[i as int]);
                        lemma_rank_step(a, i as int);
                    }
                    if !nd.tombstone {
                        let ghost before = new_nodes@;
                        let Node { node_id, metadata, vector, neighbors, max_level, tombstone: _ } = nd;
                        proof {
                            assert(a[i as int].neighbors@.len() == a[i as int].max_level + 1);
                            assert forall|l: int, x: NodeIndex| 0 <= l < neighbors@.len() && #[trigger] neighbors@[l]@.contains(x) implies x < a.len() by {
                                assert(nbs(a, i as int, l).contains(x));
                            }
                        }
                        let lists = remap_lists::<V>(&neighbors, &dead, &new_index, Ghost(a));
                        new_nodes.push(Node { node_id, metadata, vector, neighbors: lists, max_level, tombstone: false });
                        proof {
                            assert forall|j: int| 0 <= j < i + 1 && !a[j].tombstone implies {
                                let k = #[trigger] rank(a, j) as int;
                                &&& new_nodes@[k].node_id == a[j].node_id
                                &&& new_nodes@[k].metadata == a[j].metadata
                                &&& new_nodes@[k].vector == a[j].vector
                                &&& new_nodes@[k].max_level == a[j].max_level
                                &&& !new_nodes@[k].tombstone
                                &&& new_nodes@[k].neighbors@.len() == a[j].neighbors@.len()
                                &&& forall|l: int| 0 <= l < a[j].neighbors@.len() ==> #[trigger] nbs(new_nodes@, k, l) == remap(a, nbs(a, j, l))
                            } by {
                                let k = rank(a, j) as int;
                                if j < i {
                                    lemma_rank_mono(a, j, i as int);
                                    assert(new_nodes@[k] == before[k]);
                                    assert forall|l: int| 0 <= l < a[j].neighbors@.len() implies #[trigger] nbs(new_nodes@, k, l) == remap(a, nbs(a, j, l)) by {
                                        assert(nbs(new_nodes@, k, l) == nbs(before, k, l));
                                    }
                                } else {
                                    assert(j == i);
                                    assert(k == before.len());
                                    assert(new_nodes@[k].neighbors == lists);
                                    assert forall|l: int| 0 <= l < a[j].neighbors@.len() implies #[trigger] nbs(new_nodes@, k, l) == remap(a, nbs(a, j, l)) by {
                                        assert(nbs(new_nodes@, k, l) == lists@[l]@);
                                        assert(nbs(a, j, l) == neighbors@[l]@);
                                    }
                                }
                            }
                        }
                    } else {
                        proof {
                            assert forall|j: int| 0 <= j < i + 1 && !a[j].tombstone implies {
                                let k = #[trigger] rank(a, j) as int;
                                &&& new_nodes@[k].node_id == a[j].node_id
                                &&& new_nodes@[k].metadata == a[j].metadata
                                &&& new_nodes@[k].vector == a[j].vector
                                &&& new_nodes@[k].max_level == a[j].max_level
                                &&& !new_nodes@[k].tombstone
                                &&& new_nodes@[k].neighbors@.len() == a[j].neighbors@.len()
                                &&& forall|l: int| 0 <= l < a[j].neighbors@.len() ==> #[trigger] nbs(new_nodes@, k, l) == remap(a, nbs(a, j, l))
                            } by {}
                        }
                    }
                    i = i + 1;
                },
                None => {
                    break;
                },
            }
        }
        proof {
            assert(a.take(n as int) == a);
            assert(compacted(a, new_nodes@));
            lemma_compacted_wf(a, new_nodes@, self.max_neighbors);
        }
        let new_entry = match old_entry {
            Some(e) => {
                if !dead[e] {
                    Some(new_index[e])
                } else {
                    let mut best: Option<NodeIndex> = None;
                    let mut k: usize = 0;
                    while k < new_nodes.len()
                        invariant
                            k <= new_nodes@.len(),
                            best matches Some(b) ==> b < k && (forall|j: int| 0 <= j < k ==> (#[trigger] new_nodes@[j]).max_level
                                <= new_nodes@[b as int].max_level) && (forall|j: int| 0 <= j < b ==> (#[trigger] new_nodes@[j]).max_level
                                < new_nodes@[b as int].max_level),
                            best is None ==> k == 0,
                        decreases new_nodes@.len() - k,
                    {
                        match best {
                            None => {
                                best = Some(k);
                            },
                            Some(b) => {
                                if new_nodes[k].max_level > new_nodes[b].max_level {
                                    best = Some(k);
                                }
                            },
                        }
                        k = k + 1;
                    }
                    best
                }
            },
            None => None,
        };
        self.nodes = new_nodes;
        self.entry_point = new_entry;
        proof {
            if let Some(e) = new_entry {
                if !a[old_entry.unwrap() as int].tombstone {
                    lemma_rank_injective(a, old_entry.unwrap() as int, old_entry.unwrap() as int);
                }
            }
        }
        Ok(())
    }
}

} // verus!
