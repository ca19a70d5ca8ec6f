//! Ordered lists of scored node indices, the working sets of the graph
//! searches. A score is an integer key that orders similarities: a higher key
//! means a more similar node.

use vstd::prelude::*;

verus! {

/// A node index paired with its similarity key.
pub type Scored = (usize, i64);

/// Scores never increase along the sequence (most similar first).
pub open spec fn sorted_desc(s: Seq<Scored>) -> bool {
    forall|i: int, j: int| 0 <= i < j < s.len() ==> s[i].1 >= s[j].1
}

/// Scores never decrease along the sequence (most similar last).
pub open spec fn sorted_asc(s: Seq<Scored>) -> bool {
    forall|i: int, j: int| 0 <= i < j < s.len() ==> s[i].1 <= s[j].1
}

/// No node index occurs twice.
pub open spec fn ids_distinct(s: Seq<Scored>) -> bool {
    forall|i: int, j: int| 0 <= i < j < s.len() ==> s[i].0 != s[j].0
}

/// Inserts `x` into a list kept in descending score order, after every entry
/// whose score is at least as high; returns the position used.
pub fn insert_desc(v: &mut Vec<Scored>, x: Scored) -> (p: usize)
    requires
        sorted_desc(old(v)@),
    ensures
        p <= old(v)@.len(),
        final(v)@ == old(v)@.insert(p as int, x),
        sorted_desc(final(v)@),
{
    let mut p: usize = 0;
    while p < v.len() && v[p].1 >= x.1
        invariant
            p <= v@.len(),
            v@ == old(v)@,
            sorted_desc(v@),
            forall|i: int| 0 <= i < p ==> v@[i].1 >= x.1,
        decreases v@.len() - p,
    {
        p = p + 1;
    }
    let ghost before = v@;
    v.insert(p, x);
    assert(forall|i: int| p <= i < before.len() ==> before[i].1 < x.1);
    p
}

/// Inserts `x` into a list kept in ascending score order, after every entry
/// whose score is at most as high; returns the position used.
pub fn insert_asc(v: &mut Vec<Scored>, x: Scored) -> (p: usize)
    requires
        sorted_asc(old(v)@),
    ensures
        p <= old(v)@.len(),
        final(v)@ == old(v)@.insert(p as int, x),
        sorted_asc(final(v)@),
{
    let mut p: usize = 0;
    while p < v.len() && v[p].1 <= x.1
        invariant
            p <= v@.len(),
            v@ == old(v)@,
            sorted_asc(v@),
            forall|i: int| 0 <= i < p ==> v@[i].1 <= x.1,
        decreases v@.len() - p,
    {
        p = p + 1;
    }
    let ghost before = v@;
    v.insert(p, x);
    assert(forall|i: int| p <= i < before.len() ==> before[i].1 > x.1);
    p
}

/// Sorts scored entries by descending score. The result holds exactly the
/// entries of `v`.
pub fn sort_desc(v: &Vec<Scored>) -> (r: Vec<Scored>)
    requires
        ids_distinct(v@),
    ensures
        sorted_desc(r@),
        ids_distinct(r@),
        r@.len() == v@.len(),
        forall|e: Scored| r@.contains(e) <==> v@.contains(e),
{
    let mut r: Vec<Scored> = Vec::new();
    let mut i: usize = 0;
    while i < v.len()
        invariant
            i <= v@.len(),
            ids_distinct(v@),
            sorted_desc(r@),
            ids_distinct(r@),
            r@.len() == i,
            forall|e: Scored| r@.contains(e) <==> v@.take(i as int).contains(e),
        decreases v@.len() - i,
    {
        let ghost before = r@;
        let x = v[i];
        assert(forall|k: int| 0 <= k < before.len() ==> before[k].0 != x.0) by {
            assert forall|k: int| 0 <= k < before.len() implies before[k].0 != x.0 by {
                assert(before.contains(before[k]));
                assert(v@.take(i as int).contains(before[k]));
                let m = choose|m: int| 0 <= m < i && v@.take(i as int)[m] == before[k];
                assert(v@[m] == before[k]);
            }
        }
        let p = insert_desc(&mut r, x);
        assert(r@ == before.insert(p as int, x));
        assert forall|k: int| 0 <= k < p implies r@[k] == before[k] by {}
        assert forall|k: int| p < k < r@.len() implies r@[k] == before[k - 1] by {}
        assert(r@[p as int] == x);
        assert(v@.take(i + 1) == v@.take(i as int).push(x));
        assert forall|e: Scored| r@.contains(e) <==> v@.take(i + 1).contains(e) by {
            if r@.contains(e) {
                let k = choose|k: int| 0 <= k < r@.len() && r@[k] == e;
                if k < p {
                    assert(before[k] == e);
                    assert(before.contains(e));
                } else if k > p {
                    assert(before[k - 1] == e);
                    assert(before.contains(e));
                }
                if k != p {
                    assert(v@.take(i as int).contains(e));
                    let m = choose|m: int| 0 <= m < i && v@.take(i as int)[m] == e;
                    assert(v@.take(i + 1)[m] == e);
                } else {
                    assert(v@.take(i + 1)[i as int] == e);
                }
            }
            if v@.take(i + 1).contains(e) {
                if e == x {
                    assert(r@[p as int] == x);
                } else {
                    assert(v@.take(i as int).contains(e));
                    assert(before.contains(e));
                    let k = choose|k: int| 0 <= k < before.len() && before[k] == e;
                    if k < p {
                        assert(r@[k] == e);
                    } else {
                        assert(r@[k + 1] == e);
                    }
                }
            }
        }
        assert forall|a: int, b: int| 0 <= a < b < r@.len() implies r@[a].0 != r@[b].0 by {
            if a < p && b < p {
                assert(r@[a] == before[a] && r@[b] == before[b]);
            } else if a < p && b == p {
                assert(r@[a] == before[a]);
            } else if a < p && b > p {
                assert(r@[a] == before[a] && r@[b] == before[b - 1]);
            } else if a == p {
                assert(r@[b] == before[b - 1]);
            } else {
                assert(r@[a] == before[a - 1] && r@[b] == before[b - 1]);
            }
        }
        i = i + 1;
    }
    assert(v@.take(v@.len() as int) == v@);
    r
}

} // verus!
