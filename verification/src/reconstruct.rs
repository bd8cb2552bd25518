//! Turning the predecessor links of a finished search into a route.

use vstd::prelude::*;
use crate::cell::Cell;
use crate::error::{AppError, ErrorKind};
use crate::grid::lemma_cell_set_bound;
use crate::model::{trace, SearchNode};
use crate::table::NodeTable;

verus! {

/// A chain with the cells of `tail` appended, if there is a chain.
spec fn followed_by(chain: Option<Seq<Cell>>, tail: Seq<Cell>) -> Option<Seq<Cell>> {
    match chain {
        Some(w) => Some(w + tail),
        None => None,
    }
}

/// Largest number of links followed in a table: a chain with more links than
/// that visits some cell twice.
pub open spec fn link_limit(nodes: &NodeTable) -> nat {
    (nodes.width() * nodes.height() - 1) as nat
}

/// What a chain is made of: it ends at the cell asked for, it is no longer
/// than the links allow, every cell of it has a record, the first has no
/// predecessor, and each other cell has the one before it as predecessor.
pub proof fn lemma_chain_shape(nodes: Map<Cell, SearchNode>, c: Cell, links: nat)
    requires
        trace(nodes, c, links) is Some,
    ensures
        ({
            let w = trace(nodes, c, links)->0;
            &&& 1 <= w.len() <= links + 1
            &&& w[w.len() - 1] == c
            &&& forall|k: int| 0 <= k < w.len() ==> nodes.contains_key(#[trigger] w[k])
            &&& nodes[w[0]].parent is None
            &&& forall|k: int| 1 <= k < w.len() ==> nodes[#[trigger] w[k]].parent == Some(w[k - 1])
        }),
    decreases links,
{
    match nodes[c].parent {
        None => {},
        Some(prev) => {
            lemma_chain_shape(nodes, prev, (links - 1) as nat);
        },
    }
}

/// A chain found within some number of links is found within any number that
/// its length allows.
pub proof fn lemma_chain_needs(nodes: Map<Cell, SearchNode>, c: Cell, links: nat, other: nat)
    requires
        trace(nodes, c, links) is Some,
        other + 1 >= (trace(nodes, c, links)->0).len(),
    ensures
        trace(nodes, c, other) == trace(nodes, c, links),
    decreases links,
{
    match nodes[c].parent {
        None => {},
        Some(prev) => {
            lemma_chain_shape(nodes, prev, (links - 1) as nat);
            lemma_chain_needs(nodes, prev, (links - 1) as nat, (other - 1) as nat);
        },
    }
}

/// No cell occurs twice in a chain: from a repeated cell the links would lead
/// back to it for ever and never reach a cell without predecessor.
pub proof fn lemma_chain_distinct(nodes: Map<Cell, SearchNode>, c: Cell, links: nat, i: int, j: int)
    requires
        trace(nodes, c, links) is Some,
        0 <= i < j < (trace(nodes, c, links)->0).len(),
    ensures
        (trace(nodes, c, links)->0)[i] != (trace(nodes, c, links)->0)[j],
    decreases i,
{
    lemma_chain_shape(nodes, c, links);
    if i > 0 {
        lemma_chain_distinct(nodes, c, links, i - 1, j - 1);
    }
}

/// The limit on links rejects no chain that ends: whatever chain is found
/// with any number of links is found within the limit.  So the only chains
/// given up for their length are those that run in a circle.
pub proof fn lemma_limit_is_enough(nodes: &NodeTable, end: Cell, links: nat)
    requires
        nodes.wf(),
        trace(nodes@, end, links) is Some,
    ensures
        trace(nodes@, end, link_limit(nodes)) == trace(nodes@, end, links),
{
    let w = trace(nodes@, end, links)->0;
    nodes.lemma_domain();
    lemma_chain_shape(nodes@, end, links);
    assert forall|i: int, j: int| 0 <= i < w.len() && 0 <= j < w.len() && i != j implies w[i]
        != w[j] by {
        if i < j {
            lemma_chain_distinct(nodes@, end, links, i, j);
        } else {
            lemma_chain_distinct(nodes@, end, links, j, i);
        }
    }
    w.unique_seq_to_set();
    vstd::seq_lib::seq_to_set_is_finite(w);
    assert forall|c: Cell| #[trigger] w.to_set().contains(c) implies nodes.covers(c) by {
        let k = choose|k: int| 0 <= k < w.len() && w[k] == c;
        assert(nodes@.contains_key(w[k]));
    }
    lemma_cell_set_bound(nodes.width(), nodes.height(), w.to_set());
    lemma_chain_needs(nodes@, end, links, link_limit(nodes));
}

/// The cells of `v` in opposite order.
fn reversed(v: &Vec<Cell>) -> (r: Vec<Cell>)
    ensures
        r@ == v@.reverse(),
{
    let mut r: Vec<Cell> = Vec::new();
    let mut i: usize = v.len();
    while i > 0
        invariant
            i <= v.len(),
            r@.len() == v.len() - i,
            forall|j: int| 0 <= j < r@.len() ==> r@[j] == v@[v.len() - 1 - j],
        decreases i,
    {
        i -= 1;
        r.push(v[i]);
    }
    r
}

/// Walks the predecessor links from `end` back to the cell that has none and
/// returns the cells in forward order.  A chain that leaves the table, meets
/// a cell without record, or does not end within the number of links that
/// distinct cells allow is reported as an internal fault.
pub fn reconstruct(nodes: &NodeTable, end: Cell) -> (res: Result<Vec<Cell>, AppError>)
    requires
        nodes.wf(),
    ensures
        match res {
            Ok(path) => trace(nodes@, end, link_limit(nodes)) == Some(path@),
            Err(e) => {
                &&& trace(nodes@, end, link_limit(nodes)) is None
                &&& e.kind == ErrorKind::InternalFault
                &&& e.message@ == Seq::<char>::empty()
            },
        },
{
    let total: usize = nodes.slot_count();
    let mut left: usize = total - 1;
    let mut back: Vec<Cell> = Vec::new();
    let mut cur: Cell = end;
    proof {
        nodes.lemma_domain();
    }
    loop
        invariant
            nodes.wf(),
            left <= link_limit(nodes),
            forall|c: Cell| #[trigger] nodes@.contains_key(c) ==> nodes.covers(c),
            trace(nodes@, end, link_limit(nodes)) == followed_by(
                trace(nodes@, cur, left as nat),
                back@.reverse(),
            ),
        decreases left,
    {
        if !nodes.has_slot(cur) {
            return Err(AppError::internal());
        }
        match nodes.get(cur) {
            None => {
                return Err(AppError::internal());
            },
            Some(node) => {
                back.push(cur);
                match node.parent {
                    None => {
                        return Ok(reversed(&back));
                    },
                    Some(prev) => {
                        if left == 0 {
                            return Err(AppError::internal());
                        }
                        left -= 1;
                        cur = prev;
                    },
                }
            },
        }
    }
}

} // verus!
