//! Edits of neighbor lists and the facts that keep the graph well formed
//! across them.

use vstd::prelude::*;
use super::graph::{Node, NodeIndex, nbs, lvl, graph_wf, shaped, edges_valid, symmetric, bounded, simple, ids_unique};

verus! {

/// A copy of a neighbor list.
pub fn copy_list(v: &Vec<NodeIndex>) -> (r: Vec<NodeIndex>)
    ensures
        r@ == v@,
{
    let mut r: Vec<NodeIndex> = Vec::new();
    let mut i: usize = 0;
    while i < v.len()
        invariant
            i <= v@.len(),
            r@ == v@.take(i as int),
        decreases v@.len() - i,
    {
        r.push(v[i]);
        i = i + 1;
    }
    assert(v@.take(v@.len() as int) == v@);
    r
}

/// `s` with every occurrence of `x` removed.
pub open spec fn without(s: Seq<NodeIndex>, x: NodeIndex) -> Seq<NodeIndex>
    decreases s.len(),
{
    if s.len() == 0 {
        s
    } else if s.last() == x {
        without(s.drop_last(), x)
    } else {
        without(s.drop_last(), x).push(s.last())
    }
}

/// Facts about removing every occurrence of a value.
pub proof fn lemma_without(s: Seq<NodeIndex>, x: NodeIndex)
    ensures
        without(s, x).len() <= s.len(),
        forall|y: NodeIndex| without(s, x).contains(y) <==> s.contains(y) && y != x,
        s.no_duplicates() ==> without(s, x).no_duplicates(),
    decreases s.len(),
{
    if s.len() > 0 {
        lemma_without(s.drop_last(), x);
        assert(s.drop_last().push(s.last()) == s);
        assert forall|y: NodeIndex| without(s, x).contains(y) <==> s.contains(y) && y != x by {
            let w = without(s.drop_last(), x);
            if s.contains(y) && y != x {
                let k = choose|k: int| 0 <= k < s.len() && s[k] == y;
                if k < s.len() - 1 {
                    assert(s.drop_last()[k] == y);
                    assert(s.drop_last().contains(y));
                    assert(w.contains(y));
                    let k2 = choose|k2: int| 0 <= k2 < w.len() && w[k2] == y;
                    if s.last() == x {
                        assert(without(s, x)[k2] == y);
                    } else {
                        assert(without(s, x) == w.push(s.last()));
                        assert(without(s, x)[k2] == y);
                    }
                } else {
                    assert(without(s, x) == w.push(s.last()));
                    assert(without(s, x)[w.len() as int] == y);
                }
            }
            if without(s, x).contains(y) {
                if without(s.drop_last(), x).contains(y) {
                    assert(s.drop_last().contains(y));
                    let k = choose|k: int| 0 <= k < s.drop_last().len() && s.drop_last()[k] == y;
                    assert(s[k] == y);
                } else {
                    assert(y == s.last());
                    assert(s[s.len() - 1] == y);
                }
            }
        }
        if s.no_duplicates() {
            assert(s.drop_last().no_duplicates()) by {
                assert forall|a: int, b: int| 0 <= a < s.drop_last().len() && 0 <= b < s.drop_last().len() && a != b implies s.drop_last()[a] != s.drop_last()[b] by {
                    assert(s.drop_last()[a] == s[a] && s.drop_last()[b] == s[b]);
                }
            }
            if s.last() != x {
                assert(!s.drop_last().contains(s.last())) by {
                    if s.drop_last().contains(s.last()) {
                        let k = choose|k: int| 0 <= k < s.drop_last().len() && s.drop_last()[k] == s.last();
                        assert(s[k] == s[s.len() - 1]);
                    }
                }
                assert(!without(s.drop_last(), x).contains(s.last()));
                let w = without(s.drop_last(), x);
                assert(without(s, x) == w.push(s.last()));
                assert forall|a: int, b: int| 0 <= a < w.len() + 1 && 0 <= b < w.len() + 1 && a != b implies w.push(s.last())[a] != w.push(s.last())[b] by {
                    if a < w.len() && b < w.len() {
                    } else if a == w.len() {
                        assert(w.contains(w[b]));
                    } else {
                        assert(w.contains(w[a]));
                    }
                }
            }
        }
    }
}

/// Removes every occurrence of `x` from `v`.
pub fn remove_all(v: &mut Vec<NodeIndex>, x: NodeIndex)
    ensures
        final(v)@ == without(old(v)@, x),
{
    let mut r: Vec<NodeIndex> = Vec::new();
    let mut i: usize = 0;
    while i < v.len()
        invariant
            i <= v@.len(),
            v@ == old(v)@,
            r@ == without(v@.take(i as int), x),
        decreases v@.len() - i,
    {
        proof {
            assert(v@.take(i + 1).drop_last() == v@.take(i as int));
        }
        if v[i] != x {
            r.push(v[i]);
        }
        i = i + 1;
    }
    assert(v@.take(v@.len() as int) == v@);
    *v = r;
}

/// Two node arrays agree on everything but neighbor lists, and on the
/// neighbor lists of every layer other than `layer`.
pub open spec fn agree_off_layer<V>(a: Seq<Node<V>>, b: Seq<Node<V>>, layer: int) -> bool {
    &&& a.len() == b.len()
    &&& forall|i: int|
        0 <= i < a.len() ==> (#[trigger] b[i]).node_id == a[i].node_id && b[i].metadata == a[i].metadata
            && b[i].vector == a[i].vector && b[i].max_level == a[i].max_level && b[i].tombstone == a[i].tombstone
            && b[i].neighbors@.len() == a[i].neighbors@.len()
    &&& forall|i: int, l: int| 0 <= i < a.len() && 0 <= l < a[i].neighbors@.len() && l != layer ==> #[trigger] nbs(b, i, l) == nbs(a, i, l)
}

/// Well-formedness, except that the list of `p` at `layer` may be longer
/// than `m`.
pub open spec fn graph_wf_but<V>(ns: Seq<Node<V>>, m: usize, p: int, layer: int) -> bool {
    &&& shaped(ns)
    &&& edges_valid(ns)
    &&& symmetric(ns)
    &&& simple(ns)
    &&& ids_unique(ns)
    &&& forall|i: int, l: int|
        0 <= i < ns.len() && 0 <= l <= lvl(ns, i) && !(i == p && l == layer) ==> (#[trigger] nbs(ns, i, l)).len() <= m
}

/// Removing `p`'s over-long list bound is all `graph_wf_but` relaxes.
pub proof fn lemma_wf_but_bounded<V>(ns: Seq<Node<V>>, m: usize, p: int, layer: int)
    requires
        graph_wf_but(ns, m, p, layer),
        0 <= p < ns.len() && 0 <= layer <= lvl(ns, p) ==> nbs(ns, p, layer).len() <= m,
    ensures
        graph_wf(ns, m),
{
    assert(bounded(ns, m)) by {
        assert forall|i: int, l: int| 0 <= i < ns.len() && 0 <= l <= lvl(ns, i) implies (#[trigger] nbs(ns, i, l)).len() <= m by {
            if i == p && l == layer {
            }
        }
    }
}


/// `b` results from `a` by replacing the list of `p` at `layer` with
/// `kept`, and removing `p` from the lists of the neighbors it dropped.
pub open spec fn pruned<V>(a: Seq<Node<V>>, b: Seq<Node<V>>, p: int, layer: int, kept: Seq<NodeIndex>) -> bool {
    &&& agree_off_layer(a, b, layer)
    &&& nbs(b, p, layer) == kept
    &&& forall|i: int|
        0 <= i < a.len() && i != p && layer < a[i].neighbors@.len() ==> #[trigger] nbs(b, i, layer) == if nbs(
            a,
            p,
            layer,
        ).contains(i as NodeIndex) && !kept.contains(i as NodeIndex) {
            without(nbs(a, i, layer), p as NodeIndex)
        } else {
            nbs(a, i, layer)
        }
}

/// Pruning a list to a duplicate-free subset of at most `m` entries, and
/// dropping the reverse edges of what was cut, restores well-formedness.
pub proof fn lemma_pruned_wf<V>(a: Seq<Node<V>>, b: Seq<Node<V>>, m: usize, p: int, layer: int, kept: Seq<NodeIndex>)
    requires
        graph_wf_but(a, m, p, layer),
        a.len() <= usize::MAX,
        0 <= p < a.len(),
        0 <= layer <= lvl(a, p),
        pruned(a, b, p, layer, kept),
        forall|y: NodeIndex| kept.contains(y) ==> nbs(a, p, layer).contains(y),
        kept.no_duplicates(),
        kept.len() <= m,
    ensures
        graph_wf(b, m),
{
    let pl = p as NodeIndex;
    assert forall|i: int| 0 <= i < b.len() implies (#[trigger] b[i]).neighbors@.len() == b[i].max_level + 1 by {
        assert(a[i].neighbors@.len() == a[i].max_level + 1);
    }
    // every list of `b` is a sub-list of the same list of `a`
    assert forall|i: int, l: int, x: NodeIndex|
        0 <= i < b.len() && 0 <= l <= lvl(b, i) && #[trigger] nbs(b, i, l).contains(x) implies nbs(a, i, l).contains(x)
        && (x != pl || !(l == layer && nbs(a, p, layer).contains(i as NodeIndex) && !kept.contains(i as NodeIndex))
        || i == p) by {
        assert(b[i].max_level == a[i].max_level);
        if l != layer {
            assert(nbs(b, i, l) == nbs(a, i, l));
        } else if i == p {
        } else {
            if nbs(a, p, layer).contains(i as NodeIndex) && !kept.contains(i as NodeIndex) {
                lemma_without(nbs(a, i, layer), pl);
            }
        }
    }
    assert forall|i: int, l: int, x: NodeIndex|
        0 <= i < b.len() && 0 <= l <= lvl(b, i) && #[trigger] nbs(b, i, l).contains(x) implies x < b.len() && l <= lvl(
            b,
            x as int,
        ) && nbs(b, x as int, l).contains(i as NodeIndex) by {
        assert(nbs(a, i, l).contains(x));
        assert(b[i].max_level == a[i].max_level);
        assert(b[x as int].max_level == a[x as int].max_level);
        assert(nbs(a, x as int, l).contains(i as NodeIndex));
        let xi = x as int;
        assert(a[xi].neighbors@.len() == a[xi].max_level + 1);
        if l != layer {
            assert(nbs(b, xi, l) == nbs(a, xi, l));
        } else if xi == p {
            // i was kept by p, or it would have lost its edge to p
            assert(i != p) by {
                if i == p {
                    assert(!nbs(a, p, layer).contains(pl));
                }
            }
            assert(nbs(a, p, layer).contains(i as NodeIndex));
            assert(kept.contains(i as NodeIndex));
            assert(nbs(b, p, layer) == kept);
        } else if i == p {
            // x is kept, so its list is untouched
            assert(nbs(b, p, layer) == kept);
            assert(kept.contains(x));
            assert(nbs(b, xi, layer) == nbs(a, xi, layer));
        } else {
            if nbs(a, p, layer).contains(x) && !kept.contains(x) {
                lemma_without(nbs(a, xi, layer), pl);
                assert(nbs(b, xi, layer) == without(nbs(a, xi, layer), pl));
            } else {
                assert(nbs(b, xi, layer) == nbs(a, xi, layer));
            }
        }
        assert(x < b.len());
        assert(l <= lvl(b, xi));
        assert(nbs(b, xi, l).contains(i as NodeIndex));
    }
    assert forall|i: int, l: int| 0 <= i < b.len() && 0 <= l <= lvl(b, i) implies (#[trigger] nbs(b, i, l)).len() <= m
        && nbs(b, i, l).no_duplicates() && !nbs(b, i, l).contains(i as NodeIndex) by {
        assert(b[i].max_level == a[i].max_level);
        if l != layer {
            assert(nbs(b, i, l) == nbs(a, i, l));
        } else if i == p {
            if kept.contains(i as NodeIndex) {
                assert(nbs(a, p, layer).contains(pl));
            }
        } else {
            if nbs(a, p, layer).contains(i as NodeIndex) && !kept.contains(i as NodeIndex) {
                lemma_without(nbs(a, i, layer), pl);
            }
        }
    }
    assert forall|i: int, j: int|
        0 <= i < b.len() && 0 <= j < b.len() && i != j implies (#[trigger] b[i]).node_id@ != (#[trigger] b[j]).node_id@ by {
        assert(a[i].node_id@ != a[j].node_id@);
    }
}


/// `b` results from `a` by appending `y` to the list of `x` and `x` to the
/// list of `y` at `layer`.
pub open spec fn edge_added<V>(a: Seq<Node<V>>, b: Seq<Node<V>>, x: int, y: int, layer: int) -> bool {
    &&& agree_off_layer(a, b, layer)
    &&& nbs(b, x, layer) == nbs(a, x, layer).push(y as NodeIndex)
    &&& nbs(b, y, layer) == nbs(a, y, layer).push(x as NodeIndex)
    &&& forall|i: int|
        0 <= i < a.len() && i != x && i != y && layer < a[i].neighbors@.len() ==> #[trigger] nbs(b, i, layer) == nbs(
            a,
            i,
            layer,
        )
}

/// Connecting two distinct, unconnected nodes of a layer keeps the graph
/// well formed, except that the second node's list may now hold one entry
/// too many.
pub proof fn lemma_edge_added_wf<V>(a: Seq<Node<V>>, b: Seq<Node<V>>, m: usize, x: int, y: int, layer: int)
    requires
        graph_wf(a, m),
        a.len() <= usize::MAX,
        0 <= x < a.len(),
        0 <= y < a.len(),
        x != y,
        0 <= layer <= lvl(a, x),
        layer <= lvl(a, y),
        !nbs(a, x, layer).contains(y as NodeIndex),
        nbs(a, x, layer).len() < m,
        edge_added(a, b, x, y, layer),
    ensures
        graph_wf_but(b, m, y, layer),
        nbs(b, y, layer).len() == nbs(a, y, layer).len() + 1,
        nbs(a, y, layer).len() <= m,
{
    let xl = x as NodeIndex;
    let yl = y as NodeIndex;
    assert(!nbs(a, y, layer).contains(xl)) by {
        if nbs(a, y, layer).contains(xl) {
            assert(nbs(a, x, layer).contains(yl));
        }
    }
    assert forall|i: int| 0 <= i < b.len() implies (#[trigger] b[i]).neighbors@.len() == b[i].max_level + 1 by {
        assert(a[i].neighbors@.len() == a[i].max_level + 1);
    }
    // the lists of `b` are those of `a`, plus the new edge
    assert forall|i: int, l: int, z: NodeIndex|
        0 <= i < b.len() && 0 <= l <= lvl(b, i) && #[trigger] nbs(b, i, l).contains(z) implies nbs(a, i, l).contains(z)
        || (l == layer && ((i == x && z == yl) || (i == y && z == xl))) by {
        assert(b[i].max_level == a[i].max_level);
        assert(a[i].neighbors@.len() == a[i].max_level + 1);
        if l != layer {
            assert(nbs(b, i, l) == nbs(a, i, l));
        } else if i == x {
            let k = choose|k: int| 0 <= k < nbs(b, i, l).len() && nbs(b, i, l)[k] == z;
            if k < nbs(a, i, l).len() {
                assert(nbs(a, i, l)[k] == z);
            }
        } else if i == y {
            let k = choose|k: int| 0 <= k < nbs(b, i, l).len() && nbs(b, i, l)[k] == z;
            if k < nbs(a, i, l).len() {
                assert(nbs(a, i, l)[k] == z);
            }
        } else {
            assert(nbs(b, i, l) == nbs(a, i, l));
        }
    }
    // ... and every list of `a` is still there
    assert forall|i: int, l: int, z: NodeIndex|
        0 <= i < a.len() && 0 <= l <= lvl(a, i) && #[trigger] nbs(a, i, l).contains(z) implies nbs(b, i, l).contains(z) by {
        assert(a[i].neighbors@.len() == a[i].max_level + 1);
        if l != layer {
            assert(nbs(b, i, l) == nbs(a, i, l));
        } else if i == x || i == y {
            let k = choose|k: int| 0 <= k < nbs(a, i, l).len() && nbs(a, i, l)[k] == z;
            assert(nbs(b, i, l)[k] == z);
        } else {
            assert(nbs(b, i, l) == nbs(a, i, l));
        }
    }
    assert(nbs(b, x, layer)[nbs(a, x, layer).len() as int] == yl);
    assert(nbs(b, y, layer)[nbs(a, y, layer).len() as int] == xl);
    assert forall|i: int, l: int, z: NodeIndex|
        0 <= i < b.len() && 0 <= l <= lvl(b, i) && #[trigger] nbs(b, i, l).contains(z) implies z < b.len() && l <= lvl(
            b,
            z as int,
        ) && nbs(b, z as int, l).contains(i as NodeIndex) by {
        assert(b[i].max_level == a[i].max_level);
        assert(b[z as int].max_level == a[z as int].max_level);
        if nbs(a, i, l).contains(z) {
            assert(nbs(a, z as int, l).contains(i as NodeIndex));
        }
    }
    assert forall|i: int, l: int|
        0 <= i < b.len() && 0 <= l <= lvl(b, i) && !(i == y && l == layer) implies (#[trigger] nbs(b, i, l)).len() <= m by {
        assert(b[i].max_level == a[i].max_level);
        assert(a[i].neighbors@.len() == a[i].max_level + 1);
        if l != layer {
            assert(nbs(b, i, l) == nbs(a, i, l));
        } else if i != x {
            assert(nbs(b, i, l) == nbs(a, i, l));
        }
    }
    assert forall|i: int, l: int| 0 <= i < b.len() && 0 <= l <= lvl(b, i) implies (#[trigger] nbs(b, i, l)).no_duplicates()
        && !nbs(b, i, l).contains(i as NodeIndex) by {
        assert(b[i].max_level == a[i].max_level);
        assert(a[i].neighbors@.len() == a[i].max_level + 1);
        if l != layer {
            assert(nbs(b, i, l) == nbs(a, i, l));
        } else if i == x || i == y {
            let s = nbs(a, i, l);
            let t = nbs(b, i, l);
            let w = if i == x { yl } else { xl };
            assert(t == s.push(w));
            assert(!s.contains(w));
            assert forall|c: int, d: int| 0 <= c < t.len() && 0 <= d < t.len() && c != d implies t[c] != t[d] by {
                if c < s.len() && d < s.len() {
                } else if c == s.len() {
                    assert(s.contains(s[d]));
                } else {
                    assert(s.contains(s[c]));
                }
            }
        } else {
            assert(nbs(b, i, l) == nbs(a, i, l));
        }
    }
    assert forall|i: int, j: int|
        0 <= i < b.len() && 0 <= j < b.len() && i != j implies (#[trigger] b[i]).node_id@ != (#[trigger] b[j]).node_id@ by {
        assert(a[i].node_id@ != a[j].node_id@);
    }
}


/// Appending a node with empty neighbor lists and a fresh identifier keeps
/// the graph well formed; no list mentions the new node.
pub proof fn lemma_push_fresh<V>(a: Seq<Node<V>>, node: Node<V>, m: usize)
    requires
        graph_wf(a, m),
        a.len() < usize::MAX,
        node.neighbors@.len() == node.max_level + 1,
        forall|l: int| 0 <= l < node.neighbors@.len() ==> (#[trigger] node.neighbors@[l])@.len() == 0,
        forall|i: int| 0 <= i < a.len() ==> (#[trigger] a[i]).node_id@ != node.node_id@,
    ensures
        graph_wf(a.push(node), m),
        forall|i: int, l: int|
            0 <= i < a.len() + 1 && 0 <= l <= lvl(a.push(node), i) ==> !(#[trigger] nbs(a.push(node), i, l)).contains(
                a.len() as NodeIndex,
            ),
{
    let b = a.push(node);
    let nl = a.len() as NodeIndex;
    assert forall|i: int| 0 <= i < b.len() implies (#[trigger] b[i]).neighbors@.len() == b[i].max_level + 1 by {
        if i < a.len() {
            assert(b[i] == a[i]);
        }
    }
    assert forall|i: int, l: int, x: NodeIndex|
        0 <= i < b.len() && 0 <= l <= lvl(b, i) && #[trigger] nbs(b, i, l).contains(x) implies i < a.len() && nbs(a, i, l).contains(x)
            && x < a.len() by {
        if i == a.len() {
            assert(nbs(b, i, l).len() == 0);
        } else {
            assert(b[i] == a[i]);
        }
    }
    assert forall|i: int, l: int, x: NodeIndex|
        0 <= i < b.len() && 0 <= l <= lvl(b, i) && #[trigger] nbs(b, i, l).contains(x) implies x < b.len() && l <= lvl(
            b,
            x as int,
        ) && nbs(b, x as int, l).contains(i as NodeIndex) by {
        assert(b[i] == a[i]);
        assert(b[x as int] == a[x as int]);
    }
    assert forall|i: int, l: int| 0 <= i < b.len() && 0 <= l <= lvl(b, i) implies (#[trigger] nbs(b, i, l)).len() <= m
        && nbs(b, i, l).no_duplicates() && !nbs(b, i, l).contains(i as NodeIndex) by {
        if i == a.len() {
            assert(nbs(b, i, l).len() == 0);
            assert(nbs(b, i, l) =~= Seq::<NodeIndex>::empty());
        } else {
            assert(b[i] == a[i]);
            assert(nbs(b, i, l) == nbs(a, i, l));
        }
    }
    assert forall|i: int, j: int|
        0 <= i < b.len() && 0 <= j < b.len() && i != j implies (#[trigger] b[i]).node_id@ != (#[trigger] b[j]).node_id@ by {
        if i < a.len() && j < a.len() {
            assert(b[i] == a[i] && b[j] == a[j]);
        } else if i < a.len() {
            assert(b[i] == a[i]);
        } else {
            assert(b[j] == a[j]);
        }
    }
    assert forall|i: int, l: int|
        0 <= i < a.len() + 1 && 0 <= l <= lvl(b, i) implies !(#[trigger] nbs(b, i, l)).contains(nl) by {
        if nbs(b, i, l).contains(nl) {
        }
    }
}

} // verus!
