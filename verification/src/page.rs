//! Pagination arithmetic for listing the entries of an index page by page.

use vstd::prelude::*;
use crate::hnsw::graph::{Node, NodeIndex};

verus! {

/// Number of entries returned per page.
pub const PAGE_SIZE: usize = 1024;

/// The number of pages needed for `total` entries: at least one page, even
/// when there are no entries at all.
pub open spec fn total_pages_spec(total: int) -> int {
    let n = if total < 1 { 1 } else { total };
    (n + PAGE_SIZE - 1) / PAGE_SIZE as int
}

/// The 1-based page actually served for a request: page 0 and pages past the
/// end fall back to the first page.
pub open spec fn served_page_spec(total: int, requested: int) -> int {
    if requested == 0 || requested > total_pages_spec(total) {
        1
    } else {
        requested
    }
}

/// Pagination math: returns `(total_pages, page, start, end)`, where
/// `start..end` is the range of entry indices on the served page.
pub fn compute_page(total_vectors: usize, requested_page: usize) -> (r: (usize, usize, usize, usize))
    requires
        total_vectors <= usize::MAX - (PAGE_SIZE - 1),
    ensures
        r.0 == total_pages_spec(total_vectors as int),
        r.1 == served_page_spec(total_vectors as int, requested_page as int),
        r.2 == (r.1 - 1) * PAGE_SIZE,
        r.3 == if r.2 + PAGE_SIZE <= total_vectors { r.2 + PAGE_SIZE } else { total_vectors as int },
{
    let n = if total_vectors < 1 { 1 } else { total_vectors };
    let total_pages = (n + (PAGE_SIZE - 1)) / PAGE_SIZE;
    let page = if requested_page == 0 || requested_page > total_pages {
        1
    } else {
        requested_page
    };
    assert((page - 1) * PAGE_SIZE <= total_vectors) by (nonlinear_arith)
        requires
            1 <= page <= total_pages,
            total_pages == (n + PAGE_SIZE - 1) / PAGE_SIZE as int,
            n == if total_vectors < 1 { 1 } else { total_vectors as int },
            PAGE_SIZE == 1024,
    ;
    let start = (page - 1) * PAGE_SIZE;
    let end = if total_vectors - start >= PAGE_SIZE { start + PAGE_SIZE } else { total_vectors };
    (total_pages, page, start, end)
}

/// The entries served for a page request over `nodes`: the number of
/// pages, the page served, and the indices of the nodes on that page, in
/// order; deleted nodes are skipped unless `show_tombstone` is set.
pub fn live_on_page<V>(nodes: &Vec<Node<V>>, requested_page: usize, show_tombstone: bool) -> (r: (
    usize,
    usize,
    Vec<NodeIndex>,
))
    requires
        nodes@.len() <= usize::MAX - (PAGE_SIZE - 1),
    ensures
        r.0 == total_pages_spec(nodes@.len() as int),
        r.1 == served_page_spec(nodes@.len() as int, requested_page as int),
        r.2@ == Seq::new(nodes@.len() as nat, |i: int| i as NodeIndex).subrange(
            (r.1 - 1) * PAGE_SIZE,
            if r.1 * PAGE_SIZE <= nodes@.len() { r.1 * PAGE_SIZE } else { nodes@.len() as int },
        ).filter(|i: NodeIndex| show_tombstone || !nodes@[i as int].tombstone),
{
    let (total_pages, page, start, end) = compute_page(nodes.len(), requested_page);
    let ghost all = Seq::new(nodes@.len() as nat, |i: int| i as NodeIndex);
    let mut out: Vec<NodeIndex> = Vec::new();
    let mut i: usize = start;
    while i < end
        invariant
            start <= i <= end,
            end <= nodes@.len(),
            all == Seq::new(nodes@.len() as nat, |i: int| i as NodeIndex),
            out@ == all.subrange(start as int, i as int).filter(|i: NodeIndex| show_tombstone || !nodes@[i as int].tombstone),
        decreases end - i,
    {
        proof {
            assert(all.subrange(start as int, i + 1).drop_last() == all.subrange(start as int, i as int));
            reveal(Seq::filter);
        }
        if show_tombstone || !nodes[i].tombstone {
            out.push(i);
        }
        i = i + 1;
    }
    (total_pages, page, out)
}

} // verus!
