//! Graph searches: greedy descent, bounded beam search, and the public
//! k-nearest-neighbor queries.

use vstd::prelude::*;
use super::graph::{Hnsw, Node, NodeIndex, nbs, lvl, edges_valid};
use crate::ranking::{Scored, sorted_desc, sorted_asc, ids_distinct, insert_desc, insert_asc, sort_desc};
use super::tombstone::count_live;

verus! {

/// Number of `true` entries.
pub open spec fn count_true(s: Seq<bool>) -> nat
    decreases s.len(),
{
    if s.len() == 0 {
        0
    } else {
        count_true(s.drop_last()) + if s.last() { 1nat } else { 0nat }
    }
}

/// At most every entry is `true`.
pub proof fn lemma_count_true_bound(s: Seq<bool>)
    ensures
        count_true(s) <= s.len(),
    decreases s.len(),
{
    if s.len() > 0 {
        lemma_count_true_bound(s.drop_last());
    }
}

/// An all-`false` sequence counts zero.
pub proof fn lemma_count_true_zero(s: Seq<bool>)
    requires
        forall|k: int| 0 <= k < s.len() ==> !s[k],
    ensures
        count_true(s) == 0,
    decreases s.len(),
{
    if s.len() > 0 {
        lemma_count_true_zero(s.drop_last());
    }
}

/// Setting a `false` entry to `true` adds one.
pub proof fn lemma_count_true_set(s: Seq<bool>, i: int)
    requires
        0 <= i < s.len(),
        !s[i],
    ensures
        count_true(s.update(i, true)) == count_true(s) + 1,
    decreases s.len(),
{
    let t = s.update(i, true);
    if i == s.len() - 1 {
        assert(t.drop_last() == s.drop_last());
    } else {
        assert(t.drop_last() == s.drop_last().update(i, true));
        lemma_count_true_set(s.drop_last(), i);
    }
}

/// An all-`true` count means every entry is `true`.
pub proof fn lemma_count_true_full(s: Seq<bool>)
    requires
        count_true(s) >= s.len(),
    ensures
        forall|k: int| 0 <= k < s.len() ==> s[k],
    decreases s.len(),
{
    if s.len() > 0 {
        lemma_count_true_bound(s.drop_last());
        lemma_count_true_full(s.drop_last());
        assert forall|k: int| 0 <= k < s.len() implies s[k] by {
            if k < s.len() - 1 {
                assert(s.drop_last()[k] == s[k]);
            }
        }
    }
}

/// Some entry of `s` is node `x`.
pub open spec fn lists_node(s: Seq<Scored>, x: int) -> bool {
    exists|k: int| #![trigger s[k]] 0 <= k < s.len() && s[k].0 == x
}

/// Every live neighbor of node `x` at `layer` is marked in `visited`.
pub open spec fn expanded<V>(ns: Seq<Node<V>>, layer: int, visited: Seq<bool>, x: int) -> bool {
    layer <= lvl(ns, x) ==> forall|y: NodeIndex|
        #[trigger] nbs(ns, x, layer).contains(y) && !ns[y as int].tombstone ==> visited[y as int]
}

/// The entries `c` hold the node `start` and, with every node they hold,
/// each live neighbor it has at layer 0: everything a beam search at layer 0
/// reaches from `start` through live nodes.
pub open spec fn layer0_closed<V>(ns: Seq<Node<V>>, start: int, c: Seq<Scored>) -> bool {
    &&& lists_node(c, start)
    &&& forall|k: int, y: NodeIndex|
        #![trigger c[k], nbs(ns, c[k].0 as int, 0).contains(y)]
        0 <= k < c.len() && nbs(ns, c[k].0 as int, 0).contains(y) && !ns[y as int].tombstone ==> lists_node(c, y as int)
}

/// `r` is the first `k` entries of `c` by score: as many as `k` allows,
/// most similar first, and no entry left out scores higher than one kept.
pub open spec fn top_of(c: Seq<Scored>, k: usize, r: Seq<Scored>) -> bool {
    &&& r.len() == if k <= c.len() { k as int } else { c.len() as int }
    &&& sorted_desc(r)
    &&& ids_distinct(r)
    &&& forall|j: int| 0 <= j < r.len() ==> c.contains(#[trigger] r[j])
    &&& forall|e: Scored, j: int| #[trigger] c.contains(e) && !r.contains(e) && 0 <= j < r.len() ==> e.1 <= #[trigger] r[j].1
}

/// Whether a search entry names a live node.
pub open spec fn keep_live<V>(ns: Seq<Node<V>>) -> spec_fn(Scored) -> bool {
    |e: Scored| !ns[e.0 as int].tombstone
}

/// A search entry as a hit: the node's identifier and the score.
pub open spec fn hit_of<V>(ns: Seq<Node<V>>) -> spec_fn(Scored) -> (String, i64) {
    |e: Scored| (ns[e.0 as int].node_id, e.1)
}

/// The hits for the live nodes among the entries `t`, in order.
pub open spec fn live_hits<V>(ns: Seq<Node<V>>, t: Seq<Scored>) -> Seq<(String, i64)> {
    t.filter(keep_live(ns)).map_values(hit_of(ns))
}

/// Where every entry names a live node, the hits are all the entries.
pub proof fn lemma_live_hits_all_live<V>(ns: Seq<Node<V>>, t: Seq<Scored>)
    requires
        forall|j: int| 0 <= j < t.len() ==> !ns[(#[trigger] t[j]).0 as int].tombstone,
    ensures
        live_hits(ns, t) == t.map_values(hit_of(ns)),
    decreases t.len(),
{
    if t.len() == 0 {
        reveal(Seq::filter);
        assert(live_hits(ns, t) =~= t.map_values(hit_of(ns)));
    } else {
        let d = t.drop_last();
        assert forall|j: int| 0 <= j < d.len() implies !ns[(#[trigger] d[j]).0 as int].tombstone by {
            assert(d[j] == t[j]);
        }
        lemma_live_hits_all_live(ns, d);
        assert(d.push(t.last()) == t);
        lemma_live_hits_push(ns, d, t.last());
        assert(t.map_values(hit_of(ns)) =~= d.map_values(hit_of(ns)).push(hit_of(ns)(t.last())));
    }
}

/// Appending an entry adds its hit when the node is live.
pub proof fn lemma_live_hits_push<V>(ns: Seq<Node<V>>, t: Seq<Scored>, x: Scored)
    ensures
        live_hits(ns, t.push(x)) == if !ns[x.0 as int].tombstone {
            live_hits(ns, t).push((ns[x.0 as int].node_id, x.1))
        } else {
            live_hits(ns, t)
        },
{
    reveal(Seq::filter);
    assert(t.push(x).drop_last() == t);
    let f = keep_live(ns);
    let g = hit_of(ns);
    if f(x) {
        assert(t.push(x).filter(f) == t.filter(f).push(x));
        assert(t.filter(f).push(x).map_values(g) =~= t.filter(f).map_values(g).push(g(x)));
    } else {
        assert(t.push(x).filter(f) == t.filter(f));
    }
}

/// Where the first entry names a live node, the first hit is that entry's.
pub proof fn lemma_live_hits_first<V>(ns: Seq<Node<V>>, t: Seq<Scored>)
    requires
        t.len() >= 1,
        !ns[t[0].0 as int].tombstone,
    ensures
        live_hits(ns, t).len() >= 1,
        live_hits(ns, t)[0] == (ns[t[0].0 as int].node_id, t[0].1),
    decreases t.len(),
{
    let d = t.drop_last();
    assert(d.push(t.last()) == t);
    lemma_live_hits_push(ns, d, t.last());
    if t.len() == 1 {
        reveal(Seq::filter);
        assert(d.len() == 0);
        assert(live_hits(ns, d) =~= Seq::<(String, i64)>::empty());
    } else {
        assert(d[0] == t[0]);
        lemma_live_hits_first(ns, d);
    }
}

/// `x` is the start node of a layer search, or a live node listed as a
/// neighbor at that layer by some node living in it.
pub open spec fn reached<V>(ns: Seq<Node<V>>, start: int, layer: int, x: int) -> bool {
    x == start || (!ns[x].tombstone && exists|c: int|
        0 <= c < ns.len() && layer <= lvl(ns, c) && #[trigger] nbs(ns, c, layer).contains(x as NodeIndex))
}

/// Every call of the scoring function is allowed.
pub open spec fn scorer_total<Q, V, F: Fn(&Q, &V) -> i64>(sim: &F) -> bool {
    forall|q: &Q, v: &V| sim.requires((q, v))
}

/// `s` is a score the scoring function gave `query` against node `i`.
pub open spec fn scored_by<Q, V, F: Fn(&Q, &V) -> i64>(
    sim: &F,
    query: &Q,
    ns: Seq<Node<V>>,
    i: int,
    s: i64,
) -> bool {
    sim.ensures((query, &ns[i].vector), s)
}


/// Node `x` was scored no higher than `s`.
pub open spec fn beaten<Q, V, F: Fn(&Q, &V) -> i64>(sim: &F, query: &Q, ns: Seq<Node<V>>, x: int, s: i64) -> bool {
    exists|sx: i64| #[trigger] scored_by(sim, query, ns, x, sx) && sx <= s
}

/// No live neighbor of node `r` at `layer` scored higher than `sr`.
pub open spec fn locally_best<Q, V, F: Fn(&Q, &V) -> i64>(
    sim: &F,
    query: &Q,
    ns: Seq<Node<V>>,
    r: int,
    layer: int,
    sr: i64,
) -> bool {
    layer <= lvl(ns, r) ==> forall|j: int|
        0 <= j < nbs(ns, r, layer).len() && !ns[#[trigger] nbs(ns, r, layer)[j] as int].tombstone ==> beaten(
            sim,
            query,
            ns,
            nbs(ns, r, layer)[j] as int,
            sr,
        )
}

/// What a greedy descent from `entry` at `layer` ends on: a node scored at
/// least as high as the entry, that no live neighbor at that layer beats.
pub open spec fn greedy_end<Q, V, F: Fn(&Q, &V) -> i64>(
    sim: &F,
    query: &Q,
    ns: Seq<Node<V>>,
    entry: int,
    layer: int,
    r: int,
) -> bool {
    exists|sr: i64|
        #[trigger] scored_by(sim, query, ns, r, sr) && beaten(sim, query, ns, entry, sr) && locally_best(
            sim,
            query,
            ns,
            r,
            layer,
            sr,
        )
}

/// Search results are in descending score order.
pub open spec fn hits_sorted<T>(r: Seq<(T, i64)>) -> bool {
    forall|a: int, b: int| 0 <= a < b < r.len() ==> r[a].1 >= r[b].1
}

/// Search results with the metadata column removed.
pub open spec fn with_metadata_dropped(r: Seq<(String, i64, String)>) -> Seq<(String, i64)> {
    Seq::new(r.len(), |j: int| (r[j].0, r[j].1))
}

/// Search results name pairwise distinct nodes.
pub open spec fn hits_distinct(r: Seq<(String, i64)>) -> bool {
    forall|a: int, b: int| 0 <= a < b < r.len() ==> r[a].0@ != r[b].0@
}

impl<V> Hnsw<V> {
    /// `e` names a live node, paired with a score of `query` against it.
    pub open spec fn is_hit<Q, F: Fn(&Q, &V) -> i64>(self, query: &Q, sim: &F, id: Seq<char>, s: i64) -> bool {
        exists|i: int|
            0 <= i < self.n() && !self.nodes@[i].tombstone && #[trigger] self.nodes@[i].node_id@ == id
                && scored_by(sim, query, self.nodes@, i, s)
    }

    /// `r` ranks live nodes best-first by the scores `s` and keeps the first
    /// `k` of them: every live node left out scores at most as high as every
    /// node kept.
    pub open spec fn top_k_by(self, s: Seq<i64>, k: usize, r: Seq<(String, i64)>) -> bool {
        &&& r.len() == if k <= count_live(self.nodes@) { k as nat } else { count_live(self.nodes@) }
        &&& hits_sorted(r)
        &&& hits_distinct(r)
        &&& forall|j: int|
            0 <= j < r.len() ==> exists|i: int|
                0 <= i < self.n() && !self.nodes@[i].tombstone && #[trigger] self.nodes@[i].node_id@
                    == (#[trigger] r[j]).0@ && s[i] == r[j].1
        &&& forall|i: int|
            0 <= i < self.n() && !self.nodes@[i].tombstone && (forall|j: int|
                0 <= j < r.len() ==> (#[trigger] r[j]).0@ != self.nodes@[i].node_id@) ==> forall|j: int|
                0 <= j < r.len() ==> s[i] <= (#[trigger] r[j]).1
    }

    /// The hits of a search whose beam covered the whole graph: there is a
    /// node `start` at layer 0 and the entries `c` it reaches through live
    /// neighbors there, each scored against `query`; the hits are the live
    /// ones among the `k` best of `c`, in order.
    pub open spec fn full_beam_hits<Q, F: Fn(&Q, &V) -> i64>(
        self,
        query: &Q,
        sim: &F,
        k: usize,
        r: Seq<(String, i64)>,
    ) -> bool {
        exists|start: int, c: Seq<Scored>, t: Seq<Scored>|
            #![trigger layer0_closed(self.nodes@, start, c), top_of(c, k, t)]
            0 <= start < self.n() && layer0_closed(self.nodes@, start, c) && ids_distinct(c) && (forall|m: int|
                0 <= m < c.len() ==> (#[trigger] c[m]).0 < self.n() && scored_by(sim, query, self.nodes@, c[m].0 as int, c[m].1))
                && top_of(c, k, t) && r == live_hits(self.nodes@, t)
    }

    /// `r` is the `k` best of `t`, where `t` rescores, entry for entry, the
    /// nodes `c` that a beam search of width `ef` at layer 0 from node
    /// `start` kept, and that beam search keeps the best it has seen
    /// (`visited` and `sc` as in `keeps_best_seen`).
    pub open spec fn beam_top_of<Q, F: Fn(&Q, &V) -> i64>(
        self,
        query: &Q,
        sim: &F,
        k: usize,
        ef: usize,
        start: int,
        c: Seq<Scored>,
        t: Seq<Scored>,
        visited: Seq<bool>,
        sc: Seq<i64>,
        r: Seq<Scored>,
    ) -> bool {
        &&& 0 <= start < self.n()
        &&& keeps_best_seen(sim, query, self.nodes@, 0, start, ef as int, c, visited, sc)
        &&& c.len() >= 1
        &&& forall|m: int|
            0 <= m < c.len() ==> (#[trigger] c[m]).0 < self.n() && scored_by(sim, query, self.nodes@, c[m].0 as int, c[m].1)
        &&& t.len() == c.len()
        &&& forall|m: int|
            0 <= m < t.len() ==> (#[trigger] t[m]).0 == c[m].0 && scored_by(sim, query, self.nodes@, t[m].0 as int, t[m].1)
        &&& top_of(t, k, r)
    }

    /// `r` is what a search of width `ef` found: the hits for the live nodes
    /// among `q`, where `q` is as `beam_top_of` describes.
    pub open spec fn beam_hits<Q, F: Fn(&Q, &V) -> i64>(
        self,
        query: &Q,
        sim: &F,
        k: usize,
        ef: usize,
        r: Seq<(String, i64)>,
    ) -> bool {
        exists|start: int, c: Seq<Scored>, t: Seq<Scored>, visited: Seq<bool>, sc: Seq<i64>, q: Seq<Scored>|
            #[trigger] self.beam_top_of(query, sim, k, ef, start, c, t, visited, sc, q) && r == live_hits(self.nodes@, q)
    }

    /// Some node carries identifier `id` and metadata `meta`.
    pub open spec fn has_metadata(self, id: Seq<char>, meta: Seq<char>) -> bool {
        exists|i: int|
            0 <= i < self.n() && #[trigger] self.nodes@[i].node_id@ == id && self.nodes@[i].metadata@ == meta
    }

    /// A valid answer to a `k`-nearest-neighbor query: at most `k` live
    /// nodes, distinct, each with a score of `query`, most similar first.
    pub open spec fn valid_hits<Q, F: Fn(&Q, &V) -> i64>(
        self,
        query: &Q,
        sim: &F,
        k: usize,
        r: Seq<(String, i64)>,
    ) -> bool {
        &&& r.len() <= k
        &&& hits_sorted(r)
        &&& hits_distinct(r)
        &&& forall|j: int| 0 <= j < r.len() ==> self.is_hit(query, sim, (#[trigger] r[j]).0@, r[j].1)
    }
}

/// Every entry of `results` has had its live neighbors at `layer` marked in
/// `visited`, is still waiting in `candidates`, or is node `cur` (the node
/// being expanded, or `-1` for none).
pub open spec fn fringe_pending<V>(
    ns: Seq<Node<V>>,
    layer: int,
    results: Seq<Scored>,
    candidates: Seq<Scored>,
    visited: Seq<bool>,
    cur: int,
) -> bool {
    forall|k: int|
        0 <= k < results.len() ==> expanded(ns, layer, visited, (#[trigger] results[k]).0 as int)
            || candidates.contains(results[k]) || results[k].0 as int == cur
}

/// Every node marked in `visited` but not held in `results` was scored
/// `sc[x]`, and that score is no higher than that of any entry of `results`,
/// which then holds at least `ef` entries.
pub open spec fn dropped_below<Q, V, F: Fn(&Q, &V) -> i64>(
    sim: &F,
    query: &Q,
    ns: Seq<Node<V>>,
    ef: int,
    results: Seq<Scored>,
    visited: Seq<bool>,
    sc: Seq<i64>,
) -> bool {
    forall|x: int|
        0 <= x < ns.len() && #[trigger] visited[x] && !lists_node(results, x) ==> scored_by(sim, query, ns, x, sc[x])
            && results.len() >= ef && forall|k: int| 0 <= k < results.len() ==> sc[x] <= (#[trigger] results[k]).1
}

/// What a beam search at `layer` from `entry` with width `ef` returned as
/// `r`: `visited` holds the entry, every node of `r`, and every live neighbor
/// at `layer` of a node of `r`; a node it holds but `r` leaves out was scored
/// `sc[x]`, no higher than any node kept, and then `r` holds `ef` entries or
/// more.
pub open spec fn keeps_best_seen<Q, V, F: Fn(&Q, &V) -> i64>(
    sim: &F,
    query: &Q,
    ns: Seq<Node<V>>,
    layer: int,
    entry: int,
    ef: int,
    r: Seq<Scored>,
    visited: Seq<bool>,
    sc: Seq<i64>,
) -> bool {
    &&& visited.len() == ns.len()
    &&& visited[entry]
    &&& forall|k: int|
        0 <= k < r.len() ==> visited[(#[trigger] r[k]).0 as int] && expanded(ns, layer, visited, r[k].0 as int)
    &&& dropped_below(sim, query, ns, ef, r, visited, sc)
}

/// Marking more nodes keeps a node expanded.
proof fn lemma_expanded_mark<V>(ns: Seq<Node<V>>, layer: int, visited: Seq<bool>, y: int, x: int)
    requires
        expanded(ns, layer, visited, x),
        0 <= y < visited.len(),
        edges_valid(ns),
        visited.len() == ns.len(),
        0 <= x < ns.len(),
        0 <= layer,
    ensures
        expanded(ns, layer, visited.update(y, true), x),
{
    if layer <= lvl(ns, x) {
        assert forall|z: NodeIndex| #[trigger] nbs(ns, x, layer).contains(z) && !ns[z as int].tombstone implies visited.update(
            y,
            true,
        )[z as int] by {
            assert(visited[z as int]);
        }
    }
}

/// Marking a node keeps the pending entries pending.
proof fn lemma_fringe_mark<V>(
    ns: Seq<Node<V>>,
    layer: int,
    results: Seq<Scored>,
    candidates: Seq<Scored>,
    visited: Seq<bool>,
    cur: int,
    y: int,
)
    requires
        fringe_pending(ns, layer, results, candidates, visited, cur),
        0 <= y < visited.len(),
        edges_valid(ns),
        visited.len() == ns.len(),
        0 <= layer,
        forall|k: int| 0 <= k < results.len() ==> (#[trigger] results[k]).0 < ns.len(),
    ensures
        fringe_pending(ns, layer, results, candidates, visited.update(y, true), cur),
{
    assert forall|k: int| 0 <= k < results.len() implies expanded(
        ns,
        layer,
        visited.update(y, true),
        (#[trigger] results[k]).0 as int,
    ) || candidates.contains(results[k]) || results[k].0 as int == cur by {
        if expanded(ns, layer, visited, results[k].0 as int) {
            lemma_expanded_mark(ns, layer, visited, y, results[k].0 as int);
        }
    }
}

/// Adding an entry to both lists keeps every entry pending.
proof fn lemma_fringe_add<V>(
    ns: Seq<Node<V>>,
    layer: int,
    results: Seq<Scored>,
    candidates: Seq<Scored>,
    visited: Seq<bool>,
    cur: int,
    p: int,
    pc: int,
    e: Scored,
)
    requires
        fringe_pending(ns, layer, results, candidates, visited, cur),
        0 <= p <= results.len(),
        0 <= pc <= candidates.len(),
    ensures
        fringe_pending(ns, layer, results.insert(p, e), candidates.insert(pc, e), visited, cur),
{
    let rn = results.insert(p, e);
    let cn = candidates.insert(pc, e);
    assert(cn[pc] == e);
    assert forall|k: int| 0 <= k < rn.len() implies expanded(ns, layer, visited, (#[trigger] rn[k]).0 as int)
        || cn.contains(rn[k]) || rn[k].0 as int == cur by {
        if k != p {
            let o = if k < p { k } else { k - 1 };
            assert(rn[k] == results[o]);
            if candidates.contains(results[o]) {
                let w = choose|w: int| 0 <= w < candidates.len() && candidates[w] == results[o];
                if w < pc {
                    assert(cn[w] == candidates[w]);
                } else {
                    assert(cn[w + 1] == candidates[w]);
                }
            }
        }
    }
}

/// Dropping the last entry of `results` keeps the rest pending.
proof fn lemma_fringe_drop<V>(
    ns: Seq<Node<V>>,
    layer: int,
    results: Seq<Scored>,
    candidates: Seq<Scored>,
    visited: Seq<bool>,
    cur: int,
)
    requires
        fringe_pending(ns, layer, results, candidates, visited, cur),
        results.len() > 0,
    ensures
        fringe_pending(ns, layer, results.drop_last(), candidates, visited, cur),
{
    assert forall|k: int| 0 <= k < results.drop_last().len() implies expanded(
        ns,
        layer,
        visited,
        (#[trigger] results.drop_last()[k]).0 as int,
    ) || candidates.contains(results.drop_last()[k]) || results.drop_last()[k].0 as int == cur by {
        assert(results.drop_last()[k] == results[k]);
    }
}

/// Taking the best candidate `c` off the list: the entries that waited in it
/// are pending on `c`'s node, or on none when `c` scores below every entry.
proof fn lemma_fringe_pop<V>(
    ns: Seq<Node<V>>,
    layer: int,
    results: Seq<Scored>,
    candidates: Seq<Scored>,
    visited: Seq<bool>,
    c: Scored,
    cur: int,
)
    requires
        fringe_pending(ns, layer, results, candidates.push(c), visited, -1),
        cur == c.0 as int || (forall|k: int| 0 <= k < results.len() ==> c.1 < (#[trigger] results[k]).1),
    ensures
        fringe_pending(ns, layer, results, candidates, visited, cur),
{
    assert forall|k: int| 0 <= k < results.len() implies expanded(ns, layer, visited, (#[trigger] results[k]).0 as int)
        || candidates.contains(results[k]) || results[k].0 as int == cur by {
        let cb = candidates.push(c);
        if !expanded(ns, layer, visited, results[k].0 as int) && cb.contains(results[k]) {
            let w = choose|w: int| 0 <= w < cb.len() && cb[w] == results[k];
            if w < candidates.len() {
                assert(candidates[w] == cb[w]);
            } else {
                assert(results[k] == c);
            }
        }
    }
}

/// Once node `cur` is expanded, the entries pending on it are done.
proof fn lemma_fringe_close<V>(
    ns: Seq<Node<V>>,
    layer: int,
    results: Seq<Scored>,
    candidates: Seq<Scored>,
    visited: Seq<bool>,
    cur: int,
)
    requires
        fringe_pending(ns, layer, results, candidates, visited, cur),
        expanded(ns, layer, visited, cur),
    ensures
        fringe_pending(ns, layer, results, candidates, visited, -1),
{
    assert forall|k: int| 0 <= k < results.len() implies expanded(ns, layer, visited, (#[trigger] results[k]).0 as int)
        || candidates.contains(results[k]) || results[k].0 as int == -1 by {
        if results[k].0 as int == cur {
            assert(expanded(ns, layer, visited, results[k].0 as int));
        }
    }
}

/// Marking a node the beam does not take keeps the dropped nodes below the
/// kept ones, that node among them.
proof fn lemma_dropped_skip<Q, V, F: Fn(&Q, &V) -> i64>(
    sim: &F,
    query: &Q,
    ns: Seq<Node<V>>,
    ef: int,
    results: Seq<Scored>,
    visited: Seq<bool>,
    sc: Seq<i64>,
    y: int,
    s: i64,
)
    requires
        dropped_below(sim, query, ns, ef, results, visited, sc),
        visited.len() == ns.len(),
        sc.len() == ns.len(),
        0 <= y < ns.len(),
        !visited[y],
        forall|k: int| 0 <= k < results.len() ==> visited[(#[trigger] results[k]).0 as int],
        scored_by(sim, query, ns, y, s),
        sorted_desc(results),
        results.len() >= 1,
        results.len() >= ef,
        s <= results[results.len() - 1].1,
    ensures
        dropped_below(sim, query, ns, ef, results, visited.update(y, true), sc.update(y, s)),
{
    let v2 = visited.update(y, true);
    let sc2 = sc.update(y, s);
    assert forall|x: int| 0 <= x < ns.len() && #[trigger] v2[x] && !lists_node(results, x) implies scored_by(
        sim,
        query,
        ns,
        x,
        sc2[x],
    ) && results.len() >= ef && forall|k: int| 0 <= k < results.len() ==> sc2[x] <= (#[trigger] results[k]).1 by {
        if x == y {
            assert forall|k: int| 0 <= k < results.len() implies sc2[x] <= (#[trigger] results[k]).1 by {
                if k < results.len() - 1 {
                    assert(results[k].1 >= results[results.len() - 1].1);
                }
            }
        } else {
            assert(visited[x]);
        }
    }
}

/// Marking a node the beam takes into `results` at position `p` keeps the
/// dropped nodes below the kept ones.
proof fn lemma_dropped_take<Q, V, F: Fn(&Q, &V) -> i64>(
    sim: &F,
    query: &Q,
    ns: Seq<Node<V>>,
    ef: int,
    results: Seq<Scored>,
    visited: Seq<bool>,
    sc: Seq<i64>,
    y: NodeIndex,
    s: i64,
    p: int,
)
    requires
        dropped_below(sim, query, ns, ef, results, visited, sc),
        visited.len() == ns.len(),
        0 <= y < ns.len(),
        0 <= p <= results.len(),
        sorted_desc(results),
        results.len() >= 1,
        results.len() < ef || s > results[results.len() - 1].1,
    ensures
        dropped_below(sim, query, ns, ef, results.insert(p, (y, s)), visited.update(y as int, true), sc),
{
    let v2 = visited.update(y as int, true);
    let rn = results.insert(p, (y, s));
    assert(rn[p].0 == y);
    assert forall|x: int| 0 <= x < ns.len() && #[trigger] v2[x] && !lists_node(rn, x) implies scored_by(
        sim,
        query,
        ns,
        x,
        sc[x],
    ) && rn.len() >= ef && forall|k: int| 0 <= k < rn.len() ==> sc[x] <= (#[trigger] rn[k]).1 by {
        assert(x != y);
        assert(visited[x]);
        if lists_node(results, x) {
            let w = choose|w: int| #![trigger results[w]] 0 <= w < results.len() && results[w].0 == x;
            if w < p {
                assert(rn[w] == results[w]);
            } else {
                assert(rn[w + 1] == results[w]);
            }
        }
        assert(sc[x] <= results[results.len() - 1].1);
        assert forall|k: int| 0 <= k < rn.len() implies sc[x] <= (#[trigger] rn[k]).1 by {
            if k < p {
                assert(rn[k] == results[k]);
            } else if k > p {
                assert(rn[k] == results[k - 1]);
            }
        }
    }
}

/// Dropping the worst entry of a list longer than `ef` keeps the dropped
/// nodes below the kept ones, that entry's node among them.
proof fn lemma_dropped_evict<Q, V, F: Fn(&Q, &V) -> i64>(
    sim: &F,
    query: &Q,
    ns: Seq<Node<V>>,
    ef: int,
    results: Seq<Scored>,
    visited: Seq<bool>,
    sc: Seq<i64>,
)
    requires
        dropped_below(sim, query, ns, ef, results, visited, sc),
        sc.len() == ns.len(),
        sorted_desc(results),
        ids_distinct(results),
        results.len() > ef,
        results.len() >= 1,
        results[results.len() - 1].0 < ns.len(),
        scored_by(sim, query, ns, results[results.len() - 1].0 as int, results[results.len() - 1].1),
    ensures
        dropped_below(
            sim,
            query,
            ns,
            ef,
            results.drop_last(),
            visited,
            sc.update(results[results.len() - 1].0 as int, results[results.len() - 1].1),
        ),
{
    let last = results[results.len() - 1];
    let rd = results.drop_last();
    let sc2 = sc.update(last.0 as int, last.1);
    assert forall|x: int| 0 <= x < ns.len() && #[trigger] visited[x] && !lists_node(rd, x) implies scored_by(
        sim,
        query,
        ns,
        x,
        sc2[x],
    ) && rd.len() >= ef && forall|k: int| 0 <= k < rd.len() ==> sc2[x] <= (#[trigger] rd[k]).1 by {
        if x == last.0 as int {
            assert forall|k: int| 0 <= k < rd.len() implies sc2[x] <= (#[trigger] rd[k]).1 by {
                assert(rd[k] == results[k]);
            }
        } else {
            if lists_node(results, x) {
                let w = choose|w: int| #![trigger results[w]] 0 <= w < results.len() && results[w].0 == x;
                assert(w < rd.len());
                assert(rd[w] == results[w]);
            }
            assert forall|k: int| 0 <= k < rd.len() implies sc2[x] <= (#[trigger] rd[k]).1 by {
                assert(rd[k] == results[k]);
            }
        }
    }
}

impl<V> Hnsw<V> {
    /// Greedy search at one layer: repeatedly moves to a more similar
    /// neighbor until no neighbor improves on the current node.
    pub(crate) fn search_layer_greedy<Q, F: Fn(&Q, &V) -> i64>(
        &self,
        query: &Q,
        entry: NodeIndex,
        layer: usize,
        sim: &F,
    ) -> (r: NodeIndex)
        requires
            self.wf(),
            entry < self.n(),
            scorer_total(sim),
        ensures
            r < self.n(),
            reached(self.nodes@, entry as int, layer as int, r as int),
            greedy_end(sim, query, self.nodes@, entry as int, layer as int, r as int),
    {
        let mut current = entry;
        let mut current_sim = sim(query, &self.nodes[current].vector);
        let ghost entry_sim = current_sim;
        loop
            invariant
                self.wf(),
                scorer_total(sim),
                current < self.n(),
                reached(self.nodes@, entry as int, layer as int, current as int),
                scored_by(sim, query, self.nodes@, current as int, current_sim),
                scored_by(sim, query, self.nodes@, entry as int, entry_sim),
                entry_sim <= current_sim,
            ensures
                current < self.n(),
                reached(self.nodes@, entry as int, layer as int, current as int),
                scored_by(sim, query, self.nodes@, current as int, current_sim),
                scored_by(sim, query, self.nodes@, entry as int, entry_sim),
                entry_sim <= current_sim,
                locally_best(sim, query, self.nodes@, current as int, layer as int, current_sim),
            decreases i64::MAX - current_sim,
        {
            let round_sim = current_sim;
            let mut improved = false;
            let start = current;
            if layer <= self.nodes[start].max_level {
                let list = &self.nodes[start].neighbors[layer];
                let mut j: usize = 0;
                while j < list.len()
                    invariant
                        self.wf(),
                        scorer_total(sim),
                        start < self.n(),
                        layer <= self.level(start as int),
                        *list == self.nodes@[start as int].neighbors@[layer as int],
                        j <= list@.len(),
                        current < self.n(),
                        reached(self.nodes@, entry as int, layer as int, current as int),
                        scored_by(sim, query, self.nodes@, current as int, current_sim),
                        scored_by(sim, query, self.nodes@, entry as int, entry_sim),
                        entry_sim <= round_sim,
                        current_sim >= round_sim,
                        improved ==> current_sim > round_sim,
                        !improved ==> current == start && current_sim == round_sim,
                        !improved ==> forall|jj: int|
                            0 <= jj < j && !self.nodes@[#[trigger] list@[jj] as int].tombstone ==> beaten(
                                sim,
                                query,
                                self.nodes@,
                                list@[jj] as int,
                                round_sim,
                            ),
                    decreases list@.len() - j,
                {
                    let neighbor_id = list[j];
                    proof {
                        assert(nbs(self.nodes@, start as int, layer as int)[j as int] == neighbor_id);
                        assert(nbs(self.nodes@, start as int, layer as int).contains(neighbor_id));
                    }
                    if !self.nodes[neighbor_id].tombstone {
                        let neighbor_sim = sim(query, &self.nodes[neighbor_id].vector);
                        if neighbor_sim > current_sim {
                            current = neighbor_id;
                            current_sim = neighbor_sim;
                            improved = true;
                        } else {
                            proof {
                                assert(scored_by(sim, query, self.nodes@, neighbor_id as int, neighbor_sim));
                            }
                        }
                    }
                    j = j + 1;
                }
            }
            if !improved {
                proof {
                    if layer <= lvl(self.nodes@, current as int) {
                        let l = nbs(self.nodes@, current as int, layer as int);
                        assert forall|jj: int| 0 <= jj < l.len() && !self.nodes@[#[trigger] l[jj] as int].tombstone implies beaten(
                            sim,
                            query,
                            self.nodes@,
                            l[jj] as int,
                            current_sim,
                        ) by {
                            assert(l[jj] == self.nodes@[start as int].neighbors@[layer as int]@[jj]);
                        }
                    }
                }
                break;
            }
        }
        proof {
            assert(beaten(sim, query, self.nodes@, entry as int, current_sim));
        }
        current
    }

    /// Bounded beam search at one layer: explores from `entry` and returns
    /// up to `ef` of the most similar nodes found (at least the start node),
    /// with their scores, most similar first.
    #[verifier::rlimit(100)]
    pub(crate) fn search_layer_knn<Q, F: Fn(&Q, &V) -> i64>(
        &self,
        query: &Q,
        entry: NodeIndex,
        ef: usize,
        layer: usize,
        sim: &F,
    ) -> (r: Vec<Scored>)
        requires
            self.wf(),
            entry < self.n(),
            scorer_total(sim),
        ensures
            1 <= r@.len(),
            r@.len() <= ef || r@.len() == 1,
            sorted_desc(r@),
            ids_distinct(r@),
            forall|k: int|
                0 <= k < r@.len() ==> (#[trigger] r@[k]).0 < self.n() && reached(
                    self.nodes@,
                    entry as int,
                    layer as int,
                    r@[k].0 as int,
                ) && scored_by(sim, query, self.nodes@, r@[k].0 as int, r@[k].1),
            ef >= self.n() ==> lists_node(r@, entry as int),
            ef >= self.n() ==> forall|k: int, y: NodeIndex|
                #![trigger r@[k], nbs(self.nodes@, r@[k].0 as int, layer as int).contains(y)]
                0 <= k < r@.len() && layer <= lvl(self.nodes@, r@[k].0 as int) && nbs(
                    self.nodes@,
                    r@[k].0 as int,
                    layer as int,
                ).contains(y) && !self.nodes@[y as int].tombstone ==> lists_node(r@, y as int),
            exists|visited: Seq<bool>, sc: Seq<i64>|
                #[trigger] keeps_best_seen(sim, query, self.nodes@, layer as int, entry as int, ef as int, r@, visited, sc),
    {
        let n = self.nodes.len();
        let mut visited: Vec<bool> = Vec::new();
        let mut i: usize = 0;
        while i < n
            invariant
                i <= n,
                n == self.n(),
                visited@.len() == i,
                forall|k: int| 0 <= k < i ==> !visited@[k],
            decreases n - i,
        {
            visited.push(false);
            i = i + 1;
        }
        proof {
            assert(count_true(visited@) == 0) by {
                lemma_count_true_zero(visited@);
            }
        }
        let entry_sim = sim(query, &self.nodes[entry].vector);
        proof {
            lemma_count_true_set(visited@, entry as int);
        }
        visited.set(entry, true);
        let mut candidates: Vec<Scored> = Vec::new();
        candidates.push((entry, entry_sim));
        let mut results: Vec<Scored> = Vec::new();
        results.push((entry, entry_sim));
        let ghost mut sc: Seq<i64> = Seq::new(n as nat, |x: int| 0i64);
        proof {
            assert(candidates@.contains(results@[0]));
            assert(count_true(visited@) == 1);
            assert(results@[0].0 == entry);
            assert(candidates@[0].0 == entry);
        }
        loop
            invariant
                self.wf(),
                scorer_total(sim),
                entry < self.n(),
                n == self.n(),
                visited@.len() == n,
                count_true(visited@) <= n,
                sorted_asc(candidates@),
                forall|k: int| 0 <= k < candidates@.len() ==> (#[trigger] candidates@[k]).0 < n,
                1 <= results@.len(),
                results@.len() <= ef || results@.len() == 1,
                sorted_desc(results@),
                ids_distinct(results@),
                forall|k: int|
                    0 <= k < results@.len() ==> (#[trigger] results@[k]).0 < n && visited@[results@[k].0 as int]
                        && reached(self.nodes@, entry as int, layer as int, results@[k].0 as int)
                        && scored_by(sim, query, self.nodes@, results@[k].0 as int, results@[k].1),
                visited@[entry as int],
                results@.len() <= count_true(visited@),
                forall|k: int| 0 <= k < candidates@.len() ==> visited@[(#[trigger] candidates@[k]).0 as int],
                forall|c1: int, c2: int| 0 <= c1 < c2 < candidates@.len() ==> candidates@[c1].0 != candidates@[c2].0,
                ef >= n ==> forall|x: int| 0 <= x < n && #[trigger] visited@[x] ==> lists_node(results@, x),
                ef >= n ==> forall|x: int|
                    0 <= x < n && #[trigger] visited@[x] && !lists_node(candidates@, x) ==> expanded(
                        self.nodes@,
                        layer as int,
                        visited@,
                        x,
                    ),
                sc.len() == n,
                fringe_pending(self.nodes@, layer as int, results@, candidates@, visited@, -1),
                dropped_below(sim, query, self.nodes@, ef as int, results@, visited@, sc),
            ensures
                1 <= results@.len(),
                results@.len() <= ef || results@.len() == 1,
                sorted_desc(results@),
                ids_distinct(results@),
                forall|k: int|
                    0 <= k < results@.len() ==> (#[trigger] results@[k]).0 < n && visited@[results@[k].0 as int]
                        && reached(self.nodes@, entry as int, layer as int, results@[k].0 as int)
                        && scored_by(sim, query, self.nodes@, results@[k].0 as int, results@[k].1),
                visited@.len() == n,
                visited@[entry as int],
                ef >= n ==> forall|x: int| 0 <= x < n && #[trigger] visited@[x] ==> lists_node(results@, x),
                ef >= n ==> forall|x: int|
                    0 <= x < n && #[trigger] visited@[x] ==> expanded(self.nodes@, layer as int, visited@, x),
                keeps_best_seen(sim, query, self.nodes@, layer as int, entry as int, ef as int, results@, visited@, sc),
            decreases n - count_true(visited@), candidates@.len(),
        {
            let ghost cand_before = candidates@;
            let popped = candidates.pop();
            let (current_id, current_sim) = match popped {
                Some(c) => c,
                None => {
                    proof {
                        assert(candidates@.len() == 0);
                        assert forall|x: int| 0 <= x < n && #[trigger] visited@[x] implies !lists_node(candidates@, x) by {}
                        assert forall|k: int| 0 <= k < results@.len() implies visited@[(#[trigger] results@[k]).0 as int]
                            && expanded(self.nodes@, layer as int, visited@, results@[k].0 as int) by {
                            assert(!candidates@.contains(results@[k]));
                        }
                    }
                    break;
                },
            };
            proof {
                assert(cand_before == candidates@.push((current_id, current_sim)));
                assert(cand_before[cand_before.len() - 1].0 == current_id);
                assert(visited@[current_id as int]);
                assert forall|x: int| 0 <= x < n && x != current_id && !lists_node(candidates@, x) implies !lists_node(
                    cand_before,
                    x,
                ) by {
                    if lists_node(cand_before, x) {
                        let k = choose|k: int| #![trigger cand_before[k]] 0 <= k < cand_before.len() && cand_before[k].0 == x;
                        if k < candidates@.len() {
                            assert(candidates@[k] == cand_before[k]);
                        }
                    }
                }
                assert forall|c1: int, c2: int| 0 <= c1 < c2 < candidates@.len() implies candidates@[c1].0 != candidates@[c2].0 by {
                    assert(candidates@[c1] == cand_before[c1] && candidates@[c2] == cand_before[c2]);
                }
                assert forall|k: int| 0 <= k < candidates@.len() implies visited@[(#[trigger] candidates@[k]).0 as int] by {
                    assert(candidates@[k] == cand_before[k]);
                }
                assert(sorted_asc(candidates@)) by {
                    assert forall|a: int, b: int| 0 <= a < b < candidates@.len() implies candidates@[a].1 <= candidates@[b].1 by {
                        assert(candidates@[a] == cand_before[a] && candidates@[b] == cand_before[b]);
                    }
                }
            }
            let worst = results[results.len() - 1].1;
            if results.len() >= ef && current_sim < worst {
                proof {
                    if ef >= n {
                        lemma_count_true_full(visited@);
                    }
                    assert forall|k: int| 0 <= k < results@.len() implies current_sim < (#[trigger] results@[k]).1 by {
                        if k < results@.len() - 1 {
                            assert(results@[k].1 >= results@[results@.len() - 1].1);
                        }
                    }
                    lemma_fringe_pop(self.nodes@, layer as int, results@, candidates@, visited@, (current_id, current_sim), -1);
                }
                continue;
            }
            proof {
                lemma_fringe_pop(
                    self.nodes@,
                    layer as int,
                    results@,
                    candidates@,
                    visited@,
                    (current_id, current_sim),
                    current_id as int,
                );
            }
            if layer <= self.nodes[current_id].max_level {
                let list = &self.nodes[current_id].neighbors[layer];
                let mut j: usize = 0;
                let ghost vis_start = count_true(visited@);
                let ghost cand_start = candidates@.len();
                while j < list.len()
                    invariant
                        self.wf(),
                        scorer_total(sim),
                        entry < self.n(),
                        n == self.n(),
                        current_id < n,
                        layer <= self.level(current_id as int),
                        *list == self.nodes@[current_id as int].neighbors@[layer as int],
                        j <= list@.len(),
                        visited@.len() == n,
                        count_true(visited@) <= n,
                        count_true(visited@) >= vis_start,
                        candidates@.len() > cand_start ==> count_true(visited@) > vis_start,
                        sorted_asc(candidates@),
                        forall|k: int| 0 <= k < candidates@.len() ==> (#[trigger] candidates@[k]).0 < n,
                        1 <= results@.len(),
                        results@.len() <= ef || results@.len() == 1,
                        sorted_desc(results@),
                        ids_distinct(results@),
                        forall|k: int|
                            0 <= k < results@.len() ==> (#[trigger] results@[k]).0 < n
                                && visited@[results@[k].0 as int] && reached(
                                self.nodes@,
                                entry as int,
                                layer as int,
                                results@[k].0 as int,
                            ) && scored_by(sim, query, self.nodes@, results@[k].0 as int, results@[k].1),
                        visited@[entry as int],
                        visited@[current_id as int],
                        results@.len() <= count_true(visited@),
                        forall|k: int| 0 <= k < candidates@.len() ==> visited@[(#[trigger] candidates@[k]).0 as int],
                        forall|c1: int, c2: int| 0 <= c1 < c2 < candidates@.len() ==> candidates@[c1].0 != candidates@[c2].0,
                        ef >= n ==> forall|x: int| 0 <= x < n && #[trigger] visited@[x] ==> lists_node(results@, x),
                        ef >= n ==> forall|x: int|
                            0 <= x < n && #[trigger] visited@[x] && x != current_id && !lists_node(candidates@, x) ==> expanded(
                                self.nodes@,
                                layer as int,
                                visited@,
                                x,
                            ),
                        forall|jj: int|
                            0 <= jj < j && !self.nodes@[(#[trigger] list@[jj]) as int].tombstone ==> visited@[list@[jj] as int],
                        sc.len() == n,
                        fringe_pending(self.nodes@, layer as int, results@, candidates@, visited@, current_id as int),
                        dropped_below(sim, query, self.nodes@, ef as int, results@, visited@, sc),
                    decreases list@.len() - j,
                {
                    let neighbor_id = list[j];
                    proof {
                        assert(nbs(self.nodes@, current_id as int, layer as int)[j as int] == neighbor_id);
                        assert(nbs(self.nodes@, current_id as int, layer as int).contains(neighbor_id));
                    }
                    let ghost vis_before = visited@;
                    let ghost cand_before2 = candidates@;
                    let ghost res_before = results@;
                    if !self.nodes[neighbor_id].tombstone && !visited[neighbor_id] {
                        proof {
                            lemma_count_true_set(visited@, neighbor_id as int);
                            lemma_count_true_bound(visited@.update(neighbor_id as int, true));
                            assert forall|k: int| 0 <= k < candidates@.len() implies candidates@[k].0 != neighbor_id by {
                                assert(visited@[candidates@[k].0 as int]);
                            }
                        }
                        proof {
                            lemma_fringe_mark(
                                self.nodes@,
                                layer as int,
                                results@,
                                candidates@,
                                visited@,
                                current_id as int,
                                neighbor_id as int,
                            );
                        }
                        visited.set(neighbor_id, true);
                        proof {
                            assert(count_true(visited@) == count_true(vis_before) + 1);
                            assert(ef >= n ==> results@.len() < ef);
                            assert forall|x: int| 0 <= x < n && x != current_id && visited@[x] && x != neighbor_id
                                && !lists_node(cand_before2, x) && ef >= n implies expanded(
                                self.nodes@,
                                layer as int,
                                visited@,
                                x,
                            ) by {
                                assert(vis_before[x]);
                                assert(expanded(self.nodes@, layer as int, vis_before, x));
                            }
                        }
                        let s = sim(query, &self.nodes[neighbor_id].vector);
                        let worst_now = results[results.len() - 1].1;
                        let should_add = results.len() < ef || s > worst_now;
                        if should_add {
                            let ghost before = results@;
                            assert forall|k: int| 0 <= k < before.len() implies before[k].0 != neighbor_id by {
                                assert(visited@[before[k].0 as int]);
                            }
                            let pc = insert_asc(&mut candidates, (neighbor_id, s));
                            let p = insert_desc(&mut results, (neighbor_id, s));
                            proof {
                                lemma_dropped_take(sim, query, self.nodes@, ef as int, before, vis_before, sc, neighbor_id, s, p as int);
                                lemma_fringe_add(
                                    self.nodes@,
                                    layer as int,
                                    before,
                                    cand_before2,
                                    visited@,
                                    current_id as int,
                                    p as int,
                                    pc as int,
                                    (neighbor_id, s),
                                );
                            }
                            proof {
                                let cn = candidates@;
                                assert(cn == cand_before2.insert(pc as int, (neighbor_id, s)));
                                assert(cn[pc as int].0 == neighbor_id);
                                assert forall|k: int| 0 <= k < cn.len() implies visited@[(#[trigger] cn[k]).0 as int] by {
                                    if k < pc {
                                        assert(cn[k] == cand_before2[k]);
                                    } else if k > pc {
                                        assert(cn[k] == cand_before2[k - 1]);
                                    }
                                }
                                assert forall|c1: int, c2: int| 0 <= c1 < c2 < cn.len() implies cn[c1].0 != cn[c2].0 by {
                                    if c1 < pc && c2 < pc {
                                        assert(cn[c1] == cand_before2[c1] && cn[c2] == cand_before2[c2]);
                                    } else if c1 < pc && c2 > pc {
                                        assert(cn[c1] == cand_before2[c1] && cn[c2] == cand_before2[c2 - 1]);
                                    } else if c1 < pc && c2 == pc {
                                        assert(cn[c1] == cand_before2[c1]);
                                    } else if c1 == pc {
                                        assert(cn[c2] == cand_before2[c2 - 1]);
                                    } else {
                                        assert(cn[c1] == cand_before2[c1 - 1] && cn[c2] == cand_before2[c2 - 1]);
                                    }
                                }
                                assert forall|x: int| 0 <= x < n && lists_node(cand_before2, x) implies lists_node(cn, x) by {
                                    let k = choose|k: int| #![trigger cand_before2[k]] 0 <= k < cand_before2.len() && cand_before2[k].0 == x;
                                    if k < pc {
                                        assert(cn[k] == cand_before2[k]);
                                    } else {
                                        assert(cn[k + 1] == cand_before2[k]);
                                    }
                                }
                                assert(lists_node(cn, neighbor_id as int));
                                if ef >= n {
                                    let rn = results@;
                                    assert(rn[p as int].0 == neighbor_id);
                                    assert forall|x: int| 0 <= x < n && #[trigger] visited@[x] implies lists_node(rn, x) by {
                                        if x != neighbor_id {
                                            assert(vis_before[x]);
                                            assert(lists_node(before, x));
                                            let k = choose|k: int| #![trigger before[k]] 0 <= k < before.len() && before[k].0 == x;
                                            if k < p {
                                                assert(rn[k] == before[k]);
                                            } else {
                                                assert(rn[k + 1] == before[k]);
                                            }
                                        }
                                    }
                                }
                            }
                            proof {
                                assert(results@ == before.insert(p as int, (neighbor_id, s)));
                                assert(reached(self.nodes@, entry as int, layer as int, neighbor_id as int));
                                assert forall|k: int| 0 <= k < results@.len() implies (#[trigger] results@[k]).0 < n
                                    && visited@[results@[k].0 as int] && reached(
                                    self.nodes@,
                                    entry as int,
                                    layer as int,
                                    results@[k].0 as int,
                                ) && scored_by(sim, query, self.nodes@, results@[k].0 as int, results@[k].1) by {
                                    if k < p {
                                        assert(results@[k] == before[k]);
                                    } else if k > p {
                                        assert(results@[k] == before[k - 1]);
                                    }
                                }
                                assert forall|a: int, b: int| 0 <= a < b < results@.len() implies results@[a].0
                                    != results@[b].0 by {
                                    if a < p && b < p {
                                        assert(results@[a] == before[a] && results@[b] == before[b]);
                                    } else if a < p && b > p {
                                        assert(results@[a] == before[a] && results@[b] == before[b - 1]);
                                    } else if a < p && b == p {
                                        assert(results@[a] == before[a]);
                                    } else if a == p {
                                        assert(results@[b] == before[b - 1]);
                                    } else {
                                        assert(results@[a] == before[a - 1] && results@[b] == before[b - 1]);
                                    }
                                }
                            }
                            if results.len() > ef {
                                proof {
                                    let rb = results@;
                                    lemma_dropped_evict(sim, query, self.nodes@, ef as int, rb, visited@, sc);
                                    lemma_fringe_drop(self.nodes@, layer as int, rb, candidates@, visited@, current_id as int);
                                    sc = sc.update(rb[rb.len() - 1].0 as int, rb[rb.len() - 1].1);
                                }
                                let ghost rb = results@;
                                results.pop();
                                proof {
                                    assert(results@ == rb.drop_last());
                                }
                            }
                        } else {
                            proof {
                                lemma_dropped_skip(sim, query, self.nodes@, ef as int, results@, vis_before, sc, neighbor_id as int, s);
                                sc = sc.update(neighbor_id as int, s);
                            }
                        }
                        proof {
                            assert(visited@[neighbor_id as int]);
                        }
                    } else {
                        proof {
                            assert(self.nodes@[neighbor_id as int].tombstone || visited@[neighbor_id as int]);
                        }
                    }
                    proof {
                        assert(visited@ == vis_before || visited@ == vis_before.update(neighbor_id as int, true));
                        assert(self.nodes@[neighbor_id as int].tombstone || visited@[neighbor_id as int]);
                        assert forall|jj: int|
                            0 <= jj < j + 1 && !self.nodes@[(#[trigger] list@[jj]) as int].tombstone implies visited@[list@[jj] as int] by {
                            assert(nbs(self.nodes@, current_id as int, layer as int)[jj] == list@[jj]);
                            assert(nbs(self.nodes@, current_id as int, layer as int).contains(list@[jj]));
                            assert(list@[jj] < n);
                            if jj < j {
                                assert(vis_before[list@[jj] as int]);
                                if visited@ != vis_before {
                                    assert(visited@ == vis_before.update(neighbor_id as int, true));
                                }
                            } else {
                                assert(list@[jj] == neighbor_id);
                                assert(!self.nodes@[neighbor_id as int].tombstone);
                            }
                        }
                    }
                    j = j + 1;
                }
                proof {
                    assert forall|y: NodeIndex|
                        #[trigger] nbs(self.nodes@, current_id as int, layer as int).contains(y)
                            && !self.nodes@[y as int].tombstone implies visited@[y as int] by {
                        let jj = choose|jj: int| 0 <= jj < list@.len() && list@[jj] == y;
                        assert(list@[jj] == y);
                    }
                }
            }
            proof {
                assert(expanded(self.nodes@, layer as int, visited@, current_id as int));
                lemma_fringe_close(self.nodes@, layer as int, results@, candidates@, visited@, current_id as int);
            }
        }
        results
    }

    /// Descends greedily from the entry point to layer 1, then runs a beam
    /// search of width `ef` at layer 0 and keeps the `k` most similar nodes.
    pub fn search_internal<Q, F: Fn(&Q, &V) -> i64>(
        &self,
        query: &Q,
        k: usize,
        ef: usize,
        sim: &F,
    ) -> (r: Vec<Scored>)
        requires
            self.wf(),
            self.entry_point is Some,
            scorer_total(sim),
        ensures
            r@.len() <= k,
            sorted_desc(r@),
            ids_distinct(r@),
            forall|j: int|
                0 <= j < r@.len() ==> (#[trigger] r@[j]).0 < self.n() && scored_by(
                    sim,
                    query,
                    self.nodes@,
                    r@[j].0 as int,
                    r@[j].1,
                ),
            k > 0 ==> r@.len() >= 1,
            !self.nodes@[self.entry_point->0 as int].tombstone ==> forall|j: int|
                0 <= j < r@.len() ==> !self.nodes@[(#[trigger] r@[j]).0 as int].tombstone,
            ef >= self.n() ==> exists|start: int, c: Seq<Scored>|
                #![trigger layer0_closed(self.nodes@, start, c)]
                0 <= start < self.n() && layer0_closed(self.nodes@, start, c) && ids_distinct(c) && (forall|m: int|
                    0 <= m < c.len() ==> (#[trigger] c[m]).0 < self.n() && scored_by(
                        sim,
                        query,
                        self.nodes@,
                        c[m].0 as int,
                        c[m].1,
                    )) && top_of(c, k, r@),
            exists|start: int, c: Seq<Scored>, t: Seq<Scored>, visited: Seq<bool>, sc: Seq<i64>|
                #[trigger] self.beam_top_of(query, sim, k, ef, start, c, t, visited, sc, r@),
    {
        let entry = match self.entry_point {
            Some(e) => e,
            None => 0,
        };
        let entry_level = self.nodes[entry].max_level;
        let mut current = entry;
        let mut layer = entry_level;
        while layer >= 1
            invariant
                self.wf(),
                scorer_total(sim),
                current < self.n(),
                self.entry_point == Some(entry),
                !self.nodes@[entry as int].tombstone ==> !self.nodes@[current as int].tombstone,
            decreases layer,
        {
            current = self.search_layer_greedy(query, current, layer, sim);
            layer = layer - 1;
        }
        let candidates = self.search_layer_knn(query, current, ef, 0, sim);
        let ghost live_start = !self.nodes@[current as int].tombstone;
        assert(live_start ==> forall|m: int|
            0 <= m < candidates@.len() ==> !self.nodes@[(#[trigger] candidates@[m]).0 as int].tombstone);
        let mut rescored: Vec<Scored> = Vec::new();
        let mut j: usize = 0;
        while j < candidates.len()
            invariant
                self.wf(),
                scorer_total(sim),
                j <= candidates@.len(),
                ids_distinct(candidates@),
                forall|m: int| 0 <= m < candidates@.len() ==> (#[trigger] candidates@[m]).0 < self.n(),
                rescored@.len() == j,
                forall|m: int| 0 <= m < j ==> (#[trigger] rescored@[m]).0 == candidates@[m].0,
                forall|m: int|
                    0 <= m < j ==> scored_by(sim, query, self.nodes@, (#[trigger] rescored@[m]).0 as int, rescored@[m].1),
            decreases candidates@.len() - j,
        {
            let id = candidates[j].0;
            let s = sim(query, &self.nodes[id].vector);
            rescored.push((id, s));
            j = j + 1;
        }
        assert(ids_distinct(rescored@)) by {
            assert forall|a: int, b: int| 0 <= a < b < rescored@.len() implies rescored@[a].0 != rescored@[b].0 by {
                assert(rescored@[a].0 == candidates@[a].0);
                assert(rescored@[b].0 == candidates@[b].0);
            }
        }
        let mut results = sort_desc(&rescored);
        proof {
            if live_start {
                assert forall|m: int| 0 <= m < results@.len() implies !self.nodes@[(#[trigger] results@[m]).0 as int].tombstone by {
                    assert(results@.contains(results@[m]));
                    assert(rescored@.contains(results@[m]));
                    let q = choose|q: int| 0 <= q < rescored@.len() && rescored@[q] == results@[m];
                    assert(rescored@[q].0 == candidates@[q].0);
                }
            }
        }
        proof {
            assert forall|m: int| 0 <= m < results@.len() implies (#[trigger] results@[m]).0 < self.n() && scored_by(
                sim,
                query,
                self.nodes@,
                results@[m].0 as int,
                results@[m].1,
            ) by {
                assert(results@.contains(results@[m]));
                assert(rescored@.contains(results@[m]));
                let q = choose|q: int| 0 <= q < rescored@.len() && rescored@[q] == results@[m];
                assert(rescored@[q].0 == candidates@[q].0);
            }
        }
        let ghost sorted = results@;
        results.truncate(k);
        proof {
            if ef >= self.n() {
                assert(results@ == sorted.take(results@.len() as int));
                assert forall|m: int| 0 <= m < rescored@.len() implies (#[trigger] rescored@[m]).0 < self.n() && scored_by(
                    sim,
                    query,
                    self.nodes@,
                    rescored@[m].0 as int,
                    rescored@[m].1,
                ) by {}
                assert(lists_node(rescored@, current as int)) by {
                    let q = choose|q: int| #![trigger candidates@[q]] 0 <= q < candidates@.len() && candidates@[q].0 == current;
                    assert(rescored@[q].0 == candidates@[q].0);
                }
                assert forall|q: int, y: NodeIndex|
                    #![trigger rescored@[q], nbs(self.nodes@, rescored@[q].0 as int, 0).contains(y)]
                    0 <= q < rescored@.len() && nbs(self.nodes@, rescored@[q].0 as int, 0).contains(y)
                        && !self.nodes@[y as int].tombstone implies lists_node(rescored@, y as int) by {
                    assert(rescored@[q].0 == candidates@[q].0);
                    assert(candidates@[q] == candidates@[q]);
                    assert(lists_node(candidates@, y as int));
                    let w = choose|w: int| #![trigger candidates@[w]] 0 <= w < candidates@.len() && candidates@[w].0 == y;
                    assert(rescored@[w].0 == candidates@[w].0);
                }
                assert(layer0_closed(self.nodes@, current as int, rescored@));
            }
            assert(results@ == sorted.take(results@.len() as int));
            assert forall|j: int| 0 <= j < results@.len() implies rescored@.contains(#[trigger] results@[j]) by {
                assert(results@[j] == sorted[j]);
                assert(sorted.contains(sorted[j]));
            }
            assert forall|e: Scored, j: int|
                #[trigger] rescored@.contains(e) && !results@.contains(e) && 0 <= j < results@.len() implies e.1
                <= #[trigger] results@[j].1 by {
                assert(sorted.contains(e));
                let p = choose|p: int| 0 <= p < sorted.len() && sorted[p] == e;
                if p < results@.len() {
                    assert(results@[p] == e);
                }
                assert(results@[j] == sorted[j]);
            }
            assert(top_of(rescored@, k, results@));
            let (vis, sc) = choose|vis: Seq<bool>, sc: Seq<i64>|
                #[trigger] keeps_best_seen(sim, query, self.nodes@, 0, current as int, ef as int, candidates@, vis, sc);
            assert(self.beam_top_of(query, sim, k, ef, current as int, candidates@, rescored@, vis, sc, results@));
        }
        results
    }

    /// Finds up to `k` live nodes most similar to `query`. The beam width
    /// starts at `ef_search` (default `4 * k`) and grows by half until `k`
    /// live results are found or it covers the whole graph.
    pub fn search<Q, F: Fn(&Q, &V) -> i64>(
        &self,
        query: &Q,
        k: usize,
        ef_search: Option<usize>,
        sim: &F,
    ) -> (r: Vec<(String, i64)>)
        requires
            self.wf(),
            scorer_total(sim),
            ef_search is None ==> k <= usize::MAX / 4,
            ef_search matches Some(e) ==> e >= 2 || e >= self.nodes@.len() || k == 0,
        ensures
            self.valid_hits(query, sim, k, r@),
            self.entry_point is None ==> r@.len() == 0,
            k > 0 && self.entry_point is Some && !self.nodes@[self.entry_point->0 as int].tombstone ==> r@.len() >= 1,
            self.entry_point is Some && (match ef_search {
                Some(e) => e as int,
                None => 4 * k,
            }) >= self.n() ==> self.full_beam_hits(query, sim, k, r@),
            self.entry_point is Some ==> r@.len() == k || self.full_beam_hits(query, sim, k, r@),
            self.entry_point is Some ==> exists|ef: usize| #[trigger] self.beam_hits(query, sim, k, ef, r@),
    {
        if self.entry_point.is_none() {
            return Vec::new();
        }
        let ef = match ef_search {
            Some(e) => e,
            None => k * 4,
        };
        let mut current_ef = ef;
        let max_ef = if self.nodes.len() > ef { self.nodes.len() } else { ef };
        loop
            invariant
                self.wf(),
                scorer_total(sim),
                self.entry_point is Some,
                current_ef <= max_ef,
                k > 0 ==> current_ef >= 2 || current_ef >= max_ef,
                ef >= self.n() ==> current_ef == ef && max_ef == ef,
                max_ef >= self.n(),
                ef == (match ef_search {
                    Some(e) => e as int,
                    None => 4 * k,
                }),
            decreases max_ef - current_ef,
        {
            let results = self.search_internal(query, k, current_ef, sim);
            let mut active: Vec<(String, i64)> = Vec::new();
            let mut j: usize = 0;
            while j < results.len()
                invariant
                    self.wf(),
                    j <= results@.len(),
                    results@.len() <= k,
                    sorted_desc(results@),
                    ids_distinct(results@),
                    forall|m: int|
                        0 <= m < results@.len() ==> (#[trigger] results@[m]).0 < self.n() && scored_by(
                            sim,
                            query,
                            self.nodes@,
                            results@[m].0 as int,
                            results@[m].1,
                        ),
                    active@.len() <= j,
                    active@ == live_hits(self.nodes@, results@.take(j as int)),
                    self.entry_point is Some,
                    k > 0 ==> results@.len() >= 1,
                    !self.nodes@[self.entry_point->0 as int].tombstone ==> forall|m: int|
                        0 <= m < results@.len() ==> !self.nodes@[(#[trigger] results@[m]).0 as int].tombstone,
                    !self.nodes@[self.entry_point->0 as int].tombstone ==> active@.len() == j,
                    forall|a: int|
                        0 <= a < active@.len() ==> exists|m: int|
                            0 <= m < j && #[trigger] active@[a].1 == results@[m].1 && !self.nodes@[results@[m].0 as int].tombstone
                                && self.nodes@[results@[m].0 as int].node_id@ == active@[a].0@,
                    forall|a: int, b: int| 0 <= a < b < active@.len() ==> active@[a].0@ != active@[b].0@,
                    hits_sorted(active@),
                    forall|a: int| 0 <= a < active@.len() ==> self.is_hit(query, sim, (#[trigger] active@[a]).0@, active@[a].1),
                    active@.len() > 0 ==> exists|m: int| 0 <= m < j && active@.last().1 == results@[m].1
                        && active@.last().0@ == self.nodes@[results@[m].0 as int].node_id@,
                decreases results@.len() - j,
            {
                let (id, s) = results[j];
                proof {
                    assert(results@.take(j + 1) == results@.take(j as int).push(results@[j as int]));
                    lemma_live_hits_push(self.nodes@, results@.take(j as int), results@[j as int]);
                }
                if !self.nodes[id].tombstone {
                    let ghost before = active@;
                    proof {
                        assert forall|a: int| 0 <= a < before.len() implies before[a].0@ != self.nodes@[id as int].node_id@ by {
                            let m = choose|m: int|
                                0 <= m < j && #[trigger] before[a].1 == results@[m].1 && !self.nodes@[results@[m].0 as int].tombstone
                                    && self.nodes@[results@[m].0 as int].node_id@ == before[a].0@;
                            assert(results@[m].0 != results@[j as int].0);
                        }
                        if before.len() > 0 {
                            let m = choose|m: int| 0 <= m < j && before.last().1 == results@[m].1
                                && before.last().0@ == self.nodes@[results@[m].0 as int].node_id@;
                            assert(results@[m].1 >= results@[j as int].1);
                        }
                    }
                    active.push((self.nodes[id].node_id.clone(), s));
                    proof {
                        assert(self.is_hit(query, sim, active@.last().0@, s));
                        assert forall|a: int| 0 <= a < active@.len() implies exists|m: int|
                            0 <= m < j + 1 && #[trigger] active@[a].1 == results@[m].1 && !self.nodes@[results@[m].0 as int].tombstone
                                && self.nodes@[results@[m].0 as int].node_id@ == active@[a].0@ by {
                            if a < before.len() {
                                assert(active@[a] == before[a]);
                            } else {
                                assert(active@[a].1 == results@[j as int].1);
                            }
                        }
                        assert forall|a: int, b: int| 0 <= a < b < active@.len() implies active@[a].1 >= active@[b].1 by {
                            if b < before.len() {
                                assert(active@[a] == before[a] && active@[b] == before[b]);
                            } else {
                                assert(active@[a] == before[a]);
                                if a < before.len() - 1 {
                                    assert(before[a].1 >= before.last().1);
                                }
                            }
                        }
                        assert forall|a: int| 0 <= a < active@.len() implies self.is_hit(query, sim, (#[trigger] active@[a]).0@, active@[a].1) by {
                            if a < before.len() {
                                assert(active@[a] == before[a]);
                            }
                        }
                    }
                }
                j = j + 1;
            }
            if active.len() >= k || current_ef >= max_ef {
                let ghost before_cut = active@;
                active.truncate(k);
                proof {
                    assert(active@ == before_cut);
                    assert(results@.take(results@.len() as int) == results@);
                    let (start, c, t, vis, sc) = choose|start: int, c: Seq<Scored>, t: Seq<Scored>, vis: Seq<bool>, sc: Seq<i64>|
                        #[trigger] self.beam_top_of(query, sim, k, current_ef, start, c, t, vis, sc, results@);
                    assert(self.beam_hits(query, sim, k, current_ef, active@));
                    if current_ef >= self.n() {
                        assert(results@.take(results@.len() as int) == results@);
                        let (start, c) = choose|start: int, c: Seq<Scored>|
                            #![trigger layer0_closed(self.nodes@, start, c)]
                            0 <= start < self.n() && layer0_closed(self.nodes@, start, c) && ids_distinct(c) && (forall|m: int|
                                0 <= m < c.len() ==> (#[trigger] c[m]).0 < self.n() && scored_by(
                                    sim,
                                    query,
                                    self.nodes@,
                                    c[m].0 as int,
                                    c[m].1,
                                )) && top_of(c, k, results@);
                        assert(top_of(c, k, results@));
                        assert(self.full_beam_hits(query, sim, k, active@));
                    }
                }
                return active;
            }
            let grown = current_ef.saturating_add(current_ef / 2);
            current_ef = if grown < max_ef { grown } else { max_ef };
        }
    }

    /// Like `search`, with each result's metadata attached.
    pub fn search_with_metadata<Q, F: Fn(&Q, &V) -> i64>(
        &self,
        query: &Q,
        k: usize,
        ef_search: Option<usize>,
        sim: &F,
    ) -> (r: Vec<(String, i64, String)>)
        requires
            self.wf(),
            scorer_total(sim),
            ef_search is None ==> k <= usize::MAX / 4,
            ef_search matches Some(e) ==> e >= 2 || e >= self.nodes@.len() || k == 0,
        ensures
            self.valid_hits(query, sim, k, with_metadata_dropped(r@)),
            forall|j: int| 0 <= j < r@.len() ==> self.has_metadata((#[trigger] r@[j]).0@, r@[j].2@),
            k > 0 && self.entry_point is Some && !self.nodes@[self.entry_point->0 as int].tombstone ==> r@.len() >= 1,
            self.entry_point is Some && (match ef_search {
                Some(e) => e as int,
                None => 4 * k,
            }) >= self.n() ==> self.full_beam_hits(query, sim, k, with_metadata_dropped(r@)),
            self.entry_point is Some ==> r@.len() == k || self.full_beam_hits(query, sim, k, with_metadata_dropped(r@)),
            self.entry_point is Some ==> exists|ef: usize| #[trigger] self.beam_hits(query, sim, k, ef, with_metadata_dropped(r@)),
    {
        let results = self.search(query, k, ef_search, sim);
        assert forall|j: int| 0 <= j < results@.len() implies self.index_of(results@[j].0@) is Some by {
            assert(self.is_hit(query, sim, results@[j].0@, results@[j].1));
            let i = choose|i: int|
                0 <= i < self.n() && !self.nodes@[i].tombstone && #[trigger] self.nodes@[i].node_id@ == results@[j].0@
                    && scored_by(sim, query, self.nodes@, i, results@[j].1);
            assert(self.nodes@[i].node_id@ == results@[j].0@);
        }
        let r = self.attach_metadata(&results);
        assert forall|j: int| 0 <= j < r@.len() implies self.has_metadata((#[trigger] r@[j]).0@, r@[j].2@) by {
            assert(with_metadata_dropped(r@)[j] == results@[j]);
            assert(self.index_of(results@[j].0@) is Some);
        }
        assert(with_metadata_dropped(r@).len() == r@.len());
        r
    }

    /// Pairs each named node of `hits` with its metadata.
    fn attach_metadata(&self, hits: &Vec<(String, i64)>) -> (r: Vec<(String, i64, String)>)
        requires
            self.wf(),
        ensures
            with_metadata_dropped(r@) == hits@,
            forall|j: int|
                0 <= j < r@.len() && self.index_of(hits@[j].0@) is Some ==> self.has_metadata(
                    (#[trigger] r@[j]).0@,
                    r@[j].2@,
                ),
    {
        let mut r: Vec<(String, i64, String)> = Vec::new();
        let mut j: usize = 0;
        while j < hits.len()
            invariant
                self.wf(),
                j <= hits@.len(),
                r@.len() == j,
                forall|m: int| 0 <= m < j ==> (#[trigger] r@[m]).0 == hits@[m].0 && r@[m].1 == hits@[m].1,
                forall|m: int|
                    0 <= m < j && self.index_of(hits@[m].0@) is Some ==> self.has_metadata(
                        (#[trigger] r@[m]).0@,
                        r@[m].2@,
                    ),
            decreases hits@.len() - j,
        {
            let id = hits[j].0.clone();
            let metadata = match self.find_index(&id) {
                Some(i) => self.nodes[i].metadata.clone(),
                None => String::new(),
            };
            r.push((id, hits[j].1, metadata));
            j = j + 1;
        }
        assert(with_metadata_dropped(r@) =~= hits@);
        r
    }

    /// Scores every live node against `query` and returns the `k` most
    /// similar, most similar first.
    pub fn brute_force_search<Q, F: Fn(&Q, &V) -> i64>(&self, query: &Q, k: usize, sim: &F) -> (r: Vec<(String, i64)>)
        requires
            self.wf(),
            scorer_total(sim),
        ensures
            exists|s: Seq<i64>|
                s.len() == self.n() && (forall|i: int|
                    0 <= i < self.n() && !self.nodes@[i].tombstone ==> scored_by(sim, query, self.nodes@, i, #[trigger] s[i]))
                    && self.top_k_by(s, k, r@),
    {
        let n = self.nodes.len();
        let mut scored: Vec<Scored> = Vec::new();
        let ghost mut s: Seq<i64> = Seq::new(n as nat, |i: int| 0i64);
        let mut i: usize = 0;
        while i < n
            invariant
                self.wf(),
                scorer_total(sim),
                n == self.n(),
                i <= n,
                s.len() == n,
                scored@.len() == count_live(self.nodes@.take(i as int)),
                forall|m: int| 0 <= m < scored@.len() ==> (#[trigger] scored@[m]).0 < i,
                forall|a: int, b: int| 0 <= a < b < scored@.len() ==> scored@[a].0 < scored@[b].0,
                forall|e: Scored| scored@.contains(e) <==> (e.0 < i && !self.nodes@[e.0 as int].tombstone && e.1 == s[e.0 as int]),
                forall|m: int| 0 <= m < i && !self.nodes@[m].tombstone ==> scored_by(sim, query, self.nodes@, m, #[trigger] s[m]),
            decreases n - i,
        {
            assert(self.nodes@.take(i + 1).drop_last() == self.nodes@.take(i as int));
            let ghost before = scored@;
            if !self.nodes[i].tombstone {
                let v = sim(query, &self.nodes[i].vector);
                scored.push((i, v));
                proof {
                    s = s.update(i as int, v);
                    assert forall|e: Scored| scored@.contains(e) <==> (e.0 < i + 1 && !self.nodes@[e.0 as int].tombstone
                        && e.1 == s[e.0 as int]) by {
                        if scored@.contains(e) {
                            let m = choose|m: int| 0 <= m < scored@.len() && scored@[m] == e;
                            if m < before.len() {
                                assert(before[m] == e);
                                assert(before.contains(e));
                            }
                        }
                        if e.0 < i + 1 && !self.nodes@[e.0 as int].tombstone && e.1 == s[e.0 as int] {
                            if e.0 == i {
                                assert(scored@[before.len() as int] == e);
                            } else {
                                assert(before.contains(e));
                                let m = choose|m: int| 0 <= m < before.len() && before[m] == e;
                                assert(scored@[m] == e);
                            }
                        }
                    }
                }
            } else {
                proof {
                    assert forall|e: Scored| scored@.contains(e) <==> (e.0 < i + 1 && !self.nodes@[e.0 as int].tombstone
                        && e.1 == s[e.0 as int]) by {
                        if e.0 == i && scored@.contains(e) {
                            let m = choose|m: int| 0 <= m < scored@.len() && scored@[m] == e;
                        }
                    }
                }
            }
            i = i + 1;
        }
        assert(self.nodes@.take(n as int) == self.nodes@);
        assert(ids_distinct(scored@));
        let mut top = sort_desc(&scored);
        let ghost sorted = top@;
        proof {
            assert forall|m: int| 0 <= m < sorted.len() implies (#[trigger] sorted[m]).0 < self.n()
                && !self.nodes@[sorted[m].0 as int].tombstone && sorted[m].1 == s[sorted[m].0 as int] by {
                assert(sorted.contains(sorted[m]));
                assert(scored@.contains(sorted[m]));
            }
        }
        top.truncate(k);
        let mut r: Vec<(String, i64)> = Vec::new();
        let mut j: usize = 0;
        while j < top.len()
            invariant
                self.wf(),
                j <= top@.len(),
                top@ == sorted.take(top@.len() as int),
                top@.len() <= sorted.len(),
                sorted_desc(sorted),
                ids_distinct(sorted),
                forall|m: int| 0 <= m < sorted.len() ==> (#[trigger] sorted[m]).0 < self.n(),
                r@.len() == j,
                forall|m: int|
                    0 <= m < j ==> (#[trigger] r@[m]).0@ == self.nodes@[top@[m].0 as int].node_id@ && r@[m].1 == top@[m].1,
            decreases top@.len() - j,
        {
            proof {
                assert(sorted.contains(sorted[j as int]));
            }
            let (idx, v) = top[j];
            r.push((self.nodes[idx].node_id.clone(), v));
            j = j + 1;
        }
        proof {
            assert(hits_sorted(r@));
            assert forall|a: int, b: int| 0 <= a < b < r@.len() implies r@[a].0@ != r@[b].0@ by {
                assert(top@[a] == sorted[a] && top@[b] == sorted[b]);
            }
            assert forall|jj: int| 0 <= jj < r@.len() implies exists|ii: int|
                0 <= ii < self.n() && !self.nodes@[ii].tombstone && #[trigger] self.nodes@[ii].node_id@
                    == (#[trigger] r@[jj]).0@ && s[ii] == r@[jj].1 by {
                let ii = top@[jj].0 as int;
                assert(top@[jj] == sorted[jj]);
                assert(self.nodes@[ii].node_id@ == r@[jj].0@);
            }
            assert forall|ii: int|
                0 <= ii < self.n() && !self.nodes@[ii].tombstone && (forall|jj: int|
                    0 <= jj < r@.len() ==> (#[trigger] r@[jj]).0@ != self.nodes@[ii].node_id@) implies forall|jj: int|
                0 <= jj < r@.len() ==> s[ii] <= (#[trigger] r@[jj]).1 by {
                let e: Scored = (ii as usize, s[ii]);
                assert(scored@.contains(e));
                assert(sorted.contains(e));
                let p = choose|p: int| 0 <= p < sorted.len() && sorted[p] == e;
                if p < r@.len() {
                    assert(top@[p] == sorted[p]);
                    assert(r@[p].0@ == self.nodes@[ii].node_id@);
                }
                assert forall|jj: int| 0 <= jj < r@.len() implies s[ii] <= (#[trigger] r@[jj]).1 by {
                    assert(top@[jj] == sorted[jj]);
                }
            }
        }
        r
    }

    /// Like `brute_force_search`, with each result's metadata attached.
    pub fn brute_force_search_with_metadata<Q, F: Fn(&Q, &V) -> i64>(
        &self,
        query: &Q,
        k: usize,
        sim: &F,
    ) -> (r: Vec<(String, i64, String)>)
        requires
            self.wf(),
            scorer_total(sim),
        ensures
            exists|s: Seq<i64>|
                s.len() == self.n() && (forall|i: int|
                    0 <= i < self.n() && !self.nodes@[i].tombstone ==> scored_by(sim, query, self.nodes@, i, #[trigger] s[i]))
                    && self.top_k_by(s, k, with_metadata_dropped(r@)),
            forall|j: int| 0 <= j < r@.len() ==> self.has_metadata((#[trigger] r@[j]).0@, r@[j].2@),
    {
        let results = self.brute_force_search(query, k, sim);
        let ghost s = choose|s: Seq<i64>|
            s.len() == self.n() && (forall|i: int|
                0 <= i < self.n() && !self.nodes@[i].tombstone ==> scored_by(sim, query, self.nodes@, i, #[trigger] s[i]))
                && self.top_k_by(s, k, results@);
        assert forall|j: int| 0 <= j < results@.len() implies self.index_of(results@[j].0@) is Some by {
            assert(results@[j] == results@[j]);
            let i = choose|i: int|
                0 <= i < self.n() && !self.nodes@[i].tombstone && #[trigger] self.nodes@[i].node_id@
                    == (#[trigger] results@[j]).0@ && s[i] == results@[j].1;
        }
        let r = self.attach_metadata(&results);
        assert forall|j: int| 0 <= j < r@.len() implies self.has_metadata((#[trigger] r@[j]).0@, r@[j].2@) by {
            assert(with_metadata_dropped(r@)[j] == results@[j]);
        }
        r
    }
}

} // verus!
