//! A dense table of search records, one slot per cell of a grid.

use vstd::prelude::*;
use crate::cell::Cell;
use crate::grid::{cell_index, lemma_area_bound, lemma_index_bounds, lemma_index_injective, Grid, MAX_SIDE};
use crate::model::SearchNode;

verus! {

/// Records of visited cells, laid out row by row.  A cell that was never
/// visited has an empty slot.
#[derive(Debug)]
pub struct NodeTable {
    width: usize,
    height: usize,
    slots: Vec<Option<SearchNode>>,
}

impl View for NodeTable {
    type V = Map<Cell, SearchNode>;

    closed spec fn view(&self) -> Map<Cell, SearchNode> {
        Map::new(
            |c: Cell|
                0 <= c.x < self.width && 0 <= c.y < self.height && self.slots@[cell_index(
                    self.width as int,
                    c,
                )] is Some,
            |c: Cell| self.slots@[cell_index(self.width as int, c)]->0,
        )
    }
}

impl NodeTable {
    pub closed spec fn width(&self) -> int {
        self.width as int
    }

    pub closed spec fn height(&self) -> int {
        self.height as int
    }

    /// Whether the table has a slot for `c`.
    pub open spec fn covers(&self, c: Cell) -> bool {
        0 <= c.x < self.width() && 0 <= c.y < self.height()
    }

    /// One slot per cell, sides within the limit.
    pub closed spec fn wf(&self) -> bool {
        &&& 1 <= self.width <= MAX_SIDE
        &&& 1 <= self.height <= MAX_SIDE
        &&& self.slots@.len() == self.width * self.height
    }

    /// Only cells with a slot have a record.
    pub proof fn lemma_domain(&self)
        requires
            self.wf(),
        ensures
            1 <= self.width() <= MAX_SIDE,
            1 <= self.height() <= MAX_SIDE,
            forall|c: Cell| #[trigger] self@.contains_key(c) ==> self.covers(c),
    {
    }

    /// An empty table for `grid`.
    pub fn new(grid: &Grid) -> (t: NodeTable)
        requires
            grid.wf(),
        ensures
            t.wf(),
            t.width() == grid@.width,
            t.height() == grid@.height,
            t@ == Map::<Cell, SearchNode>::empty(),
    {
        let w: usize = grid.width() as usize;
        let h: usize = grid.height() as usize;
        proof {
            grid.lemma_view_wf();
            lemma_area_bound(w as int, h as int);
        }
        let total: usize = w * h;
        let mut slots: Vec<Option<SearchNode>> = Vec::new();
        let mut k: usize = 0;
        while k < total
            invariant
                k <= total,
                slots@.len() == k,
                forall|j: int| 0 <= j < k ==> slots@[j] is None,
            decreases total - k,
        {
            slots.push(None);
            k += 1;
        }
        let t = NodeTable { width: w, height: h, slots };
        proof {
            assert forall|c: Cell| !t@.contains_key(c) by {
                if 0 <= c.x < w && 0 <= c.y < h {
                    lemma_index_bounds(w as int, h as int, c);
                }
            }
        }
        t
    }

    /// Whether the table has a slot for `c`.
    pub fn has_slot(&self, c: Cell) -> (b: bool)
        requires
            self.wf(),
        ensures
            b == self.covers(c),
    {
        0 <= c.x && c.x < self.width as i64 && 0 <= c.y && c.y < self.height as i64
    }

    /// Number of slots.
    pub fn slot_count(&self) -> (n: usize)
        requires
            self.wf(),
        ensures
            n == self.width() * self.height(),
            1 <= n <= MAX_SIDE * MAX_SIDE,
    {
        proof {
            lemma_area_bound(self.width as int, self.height as int);
        }
        self.slots.len()
    }

    fn slot_of(&self, c: Cell) -> (i: usize)
        requires
            self.wf(),
            self.covers(c),
        ensures
            i == cell_index(self.width as int, c),
            i < self.slots@.len(),
    {
        let row: usize = c.y as usize;
        let col: usize = c.x as usize;
        proof {
            lemma_index_bounds(self.width as int, self.height as int, c);
            lemma_area_bound(self.width as int, self.height as int);
            assert(row * self.width == c.y * self.width) by (nonlinear_arith)
                requires
                    row == c.y,
            ;
        }
        row * self.width + col
    }

    /// The record of `c`, if it was visited.
    pub fn get(&self, c: Cell) -> (r: Option<SearchNode>)
        requires
            self.wf(),
            self.covers(c),
        ensures
            r is Some <==> self@.contains_key(c),
            r matches Some(node) ==> node == self@[c],
    {
        let i: usize = self.slot_of(c);
        self.slots[i]
    }

    /// Stores `node` as the record of `c`.
    pub fn put(&mut self, c: Cell, node: SearchNode)
        requires
            old(self).wf(),
            old(self).covers(c),
        ensures
            final(self).wf(),
            final(self).width() == old(self).width(),
            final(self).height() == old(self).height(),
            final(self)@ == old(self)@.insert(c, node),
    {
        let i: usize = self.slot_of(c);
        self.slots.set(i, Some(node));
        proof {
            let w = self.width as int;
            let h = self.height as int;
            assert forall|d: Cell| 0 <= d.x < w && 0 <= d.y < h && d != c implies self.slots@[cell_index(
                w,
                d,
            )] == old(self).slots@[cell_index(w, d)] by {
                lemma_index_bounds(w, h, d);
                if cell_index(w, d) == cell_index(w, c) {
                    lemma_index_injective(w, d, c);
                }
            }
        }
    }
}

} // verus!
