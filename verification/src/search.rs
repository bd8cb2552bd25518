//! The engine: best-first search over a grid, one step at a time.

use vstd::prelude::*;
use crate::cell::{heuristic, Cell, DIRECTIONS};
use crate::error::AppError;
use crate::frontier::{lemma_first_unique, Frontier};
use crate::grid::Grid;
use crate::model::{
    budget, close, initial, relax, route, route_of, run, step, Problem, SearchNode, SearchState,
    Status,
};
use crate::reconstruct::reconstruct;
use crate::soundness::{
    closed_cells, consistent, entry_ok, inv, lemma_cells_bounded, lemma_close,
    lemma_closed_bound, lemma_found_shortest, lemma_relax, lemma_route_shortest,
    lemma_route_trivial, lemma_step, measure, node_ok,
};
use crate::table::NodeTable;

verus! {

/// A search in progress on one grid, from one cell to another.
pub struct Search<'a> {
    grid: &'a Grid,
    start: Cell,
    end: Cell,
    nodes: NodeTable,
    frontier: Frontier,
    status: Status,
}

impl<'a> View for Search<'a> {
    type V = SearchState;

    closed spec fn view(&self) -> SearchState {
        SearchState {
            nodes: self.nodes@,
            open: self.frontier.entries(),
            next_seq: self.frontier.next_seq(),
            status: self.status,
        }
    }
}

impl<'a> Search<'a> {
    /// The request this search works on.
    pub closed spec fn problem(&self) -> Problem {
        Problem { grid: self.grid@, start: self.start, end: self.end }
    }

    /// The parts fit together: the table covers the grid and the frontier is
    /// well formed.
    spec fn framed(&self) -> bool {
        &&& self.grid.wf()
        &&& self.nodes.wf()
        &&& self.nodes.width() == self.grid@.width
        &&& self.nodes.height() == self.grid@.height
        &&& self.frontier.wf()
    }

    /// The parts fit together and the invariant of the search holds.
    pub closed spec fn wf(&self) -> bool {
        &&& self.framed()
        &&& inv(self.problem(), self@)
    }

    /// Sets up a search from `start` to `end`.  Nothing is explored yet.
    pub fn new(grid: &'a Grid, start: Cell, end: Cell) -> (s: Search<'a>)
        requires
            grid.wf(),
            grid@.walkable(start),
            grid@.walkable(end),
        ensures
            s.wf(),
            s.problem() == (Problem { grid: grid@, start, end }),
            s@ == initial(),
    {
        proof {
            grid.lemma_view_wf();
        }
        Search {
            grid,
            start,
            end,
            nodes: NodeTable::new(grid),
            frontier: Frontier::new(),
            status: Status::Initialized,
        }
    }

    pub fn status(&self) -> (st: Status)
        ensures
            st == self@.status,
    {
        self.status
    }

    /// Looks one step in direction `dir` from the cell under expansion, which
    /// is `from` and was reached in `cost` steps.
    fn relax(&mut self, from: Cell, cost: u64, dir: u8)
        requires
            old(self).framed(),
            consistent(old(self).problem(), old(self)@, Some(from), dir as int),
            cost == old(self)@.nodes[from].g,
            dir < DIRECTIONS,
        ensures
            final(self).framed(),
            final(self).problem() == old(self).problem(),
            final(self)@ == relax(old(self).problem(), old(self)@, from, dir as int),
            consistent(final(self).problem(), final(self)@, Some(from), dir + 1),
            final(self)@.nodes[from].g == cost,
    {
        let ghost p = self.problem();
        let ghost s0 = self@;
        proof {
            lemma_relax(p, s0, from, dir as int);
            assert(node_ok(p, s0, from, closed_cells(s0).len() as int));
            lemma_cells_bounded(p.grid, from, p.end);
            self.nodes.lemma_domain();
        }
        let to: Cell = from.step(dir);
        if self.grid.is_walkable(to) {
            let g: u64 = cost + 1;
            let known: Option<SearchNode> = self.nodes.get(to);
            let better: bool = match known {
                None => true,
                Some(node) => g < node.g,
            };
            if better {
                proof {
                    lemma_cells_bounded(p.grid, to, p.end);
                }
                let h: u64 = heuristic(to, self.end);
                self.nodes.put(
                    to,
                    SearchNode { cell: to, g, h, parent: Some(from), closed: false },
                );
                self.frontier.push(to, g + h, h);
            }
        }
    }

    /// Takes one step: seeds the search, or takes the first candidate from
    /// the frontier and handles it.  A finished search stays as it is.
    pub fn step(&mut self)
        requires
            old(self).wf(),
        ensures
            final(self).wf(),
            final(self).problem() == old(self).problem(),
            final(self)@ == step(old(self).problem(), old(self)@),
    {
        let ghost p = self.problem();
        let ghost s0 = self@;
        proof {
            lemma_step(p, s0);
            self.grid.lemma_view_wf();
            lemma_cells_bounded(p.grid, p.start, p.end);
            self.nodes.lemma_domain();
        }
        match self.status {
            Status::Initialized => {
                let h: u64 = heuristic(self.start, self.end);
                self.nodes.put(
                    self.start,
                    SearchNode { cell: self.start, g: 0, h, parent: None, closed: false },
                );
                self.frontier.push(self.start, h, h);
                if self.start == self.end {
                    self.status = Status::Found;
                } else {
                    self.status = Status::Running;
                }
            },
            Status::Running => {
                match self.frontier.pop() {
                    None => {
                        self.status = Status::Exhausted;
                    },
                    Some(e) => {
                        proof {
                            lemma_first_unique(s0.open, e);
                            assert(entry_ok(s0, e));
                        }
                        if e.cell == self.end {
                            self.status = Status::Found;
                        } else {
                            match self.nodes.get(e.cell) {
                                Some(node) => {
                                    if !node.closed {
                                        proof {
                                            lemma_close(p, s0, e);
                                        }
                                        self.nodes.put(
                                            e.cell,
                                            SearchNode {
                                                cell: node.cell,
                                                g: node.g,
                                                h: node.h,
                                                parent: node.parent,
                                                closed: true,
                                            },
                                        );
                                        assert(self@ == close(
                                            SearchState { open: s0.open.remove(e), ..s0 },
                                            e.cell,
                                        ));
                                        self.relax(e.cell, node.g, 0);
                                        self.relax(e.cell, node.g, 1);
                                        self.relax(e.cell, node.g, 2);
                                        self.relax(e.cell, node.g, 3);
                                    }
                                },
                                None => {},
                            }
                        }
                    },
                }
            },
            _ => {},
        }
    }

    /// Steps until the search has ended.
    pub fn run(&mut self)
        requires
            old(self).wf(),
        ensures
            final(self).wf(),
            final(self).problem() == old(self).problem(),
            final(self)@ == run(old(self).problem(), old(self)@, budget(old(self).problem().grid)),
            final(self)@.status.is_terminal(),
    {
        let ghost p = self.problem();
        let ghost s0 = self@;
        let ghost mut fuel: nat = budget(p.grid);
        proof {
            self.grid.lemma_view_wf();
            lemma_cells_bounded(p.grid, p.start, p.end);
            if s0.status == Status::Running {
                lemma_closed_bound(p, s0);
            }
        }
        while !self.status.terminal()
            invariant
                self.wf(),
                self.problem() == p,
                fuel >= measure(p, self@),
                run(p, self@, fuel) == run(p, s0, budget(p.grid)),
            decreases measure(p, self@),
        {
            proof {
                lemma_step(p, self@);
                fuel = (fuel - 1) as nat;
            }
            self.step();
        }
    }

    /// The route that the search has arrived at: the recorded chain of
    /// predecessors to the goal once it is found, the empty route before
    /// that and when the search has run dry.  The chain of a well-formed
    /// search is never broken, so this always succeeds.
    pub fn path(&self) -> (res: Result<Vec<Cell>, AppError>)
        requires
            self.wf(),
        ensures
            res matches Ok(path) && path@ == route_of(self.problem(), self@),
    {
        match self.status {
            Status::Found => {
                proof {
                    lemma_found_shortest(self.problem(), self@);
                }
                reconstruct(&self.nodes, self.end)
            },
            _ => Ok(Vec::new()),
        }
    }
}

/// Runs a search from `start` to `end` on `grid` to its end and returns the
/// route: a shortest walk between the two cells, or the empty route when
/// there is no walk.  Both cells must be cells of the grid that are no walls.
/// An internal fault is what a broken chain of predecessors would give; the
/// search never leaves one behind.
pub fn solve(grid: &Grid, start: Cell, end: Cell) -> (res: Result<Vec<Cell>, AppError>)
    requires
        grid.wf(),
        grid@.walkable(start),
        grid@.walkable(end),
    ensures
        res matches Ok(path) && {
            &&& path@ == route(Problem { grid: grid@, start, end })
            &&& path@.len() == 0 <==> !grid@.reachable(start, end)
            &&& path@.len() > 0 ==> grid@.shortest(path@, start, end)
            &&& start == end ==> path@ == seq![start]
        },
{
    let ghost p = Problem { grid: grid@, start, end };
    let mut search = Search::new(grid, start, end);
    search.run();
    proof {
        grid.lemma_view_wf();
        lemma_route_shortest(p);
        if start == end {
            lemma_route_trivial(p);
        }
    }
    search.path()
}

/// Finds a shortest walk from `start` to `end` on `grid`, moving one cell at
/// a time along the axes and never onto a wall.  Returns nothing when no walk
/// exists, which includes a `start` or an `end` that cannot be stood on.
pub fn astar(grid: &Grid, start: Cell, end: Cell) -> (res: Option<Vec<Cell>>)
    requires
        grid.wf(),
    ensures
        res is None <==> !grid@.reachable(start, end),
        res matches Some(path) ==> grid@.shortest(path@, start, end),
        res matches Some(path) ==> path@ == route(Problem { grid: grid@, start, end }),
        start == end && grid@.walkable(start) ==> (res matches Some(path) && path@ == seq![start]),
{
    if !grid.is_walkable(start) || !grid.is_walkable(end) {
        return None;
    }
    match solve(grid, start, end) {
        Ok(path) => {
            if path.len() == 0 {
                None
            } else {
                Some(path)
            }
        },
        Err(_) => None,
    }
}

} // verus!
