//! The search as a state machine over mathematical values.
//!
//! A state holds what is known of each visited cell and the set of open
//! candidates.  One step seeds the search, or takes the first candidate and
//! expands it.  The executable engine follows this machine step by step, so
//! the route it returns is a function of the request alone.

use vstd::prelude::*;
use crate::cell::{manhattan, Cell};
use crate::frontier::{first, Entry};
use crate::grid::GridView;

verus! {

/// What the search knows of a visited cell.
#[derive(Clone, Copy, Debug)]
pub struct SearchNode {
    /// The cell this record belongs to.
    pub cell: Cell,
    /// Best known number of steps from the start.
    pub g: u64,
    /// Estimated number of steps to the goal.
    pub h: u64,
    /// The cell from which the best known route arrives; none for the start.
    pub parent: Option<Cell>,
    /// Whether the cell is finalized: its `g` is settled for good.
    pub closed: bool,
}

impl SearchNode {
    /// Estimated length of a route from start to goal through this cell.
    pub open spec fn total(self) -> int {
        self.g + self.h
    }

    pub fn f(&self) -> (f: u64)
        requires
            self.total() <= u64::MAX,
        ensures
            f == self.total(),
    {
        self.g + self.h
    }
}

/// Where a search stands.
#[derive(Clone, Copy, Debug, PartialEq, Eq, Structural)]
pub enum Status {
    /// Nothing has happened yet.
    Initialized,
    /// The start is seeded and the goal has not been taken from the frontier.
    Running,
    /// The goal was reached.
    Found,
    /// The frontier ran empty before the goal was reached.
    Exhausted,
}

impl Status {
    pub open spec fn is_terminal(self) -> bool {
        self == Status::Found || self == Status::Exhausted
    }

    pub fn terminal(&self) -> (b: bool)
        ensures
            b == self.is_terminal(),
    {
        match self {
            Status::Found => true,
            Status::Exhausted => true,
            _ => false,
        }
    }
}

/// A search request after validation: a grid and two cells to connect.
pub struct Problem {
    pub grid: GridView,
    pub start: Cell,
    pub end: Cell,
}

impl Problem {
    /// The grid is well formed and both cells can be stood on.
    pub open spec fn valid(self) -> bool {
        &&& self.grid.wf()
        &&& self.grid.walkable(self.start)
        &&& self.grid.walkable(self.end)
    }
}

/// The state of a search.
pub struct SearchState {
    /// The record of every cell visited so far.
    pub nodes: Map<Cell, SearchNode>,
    /// The candidates on the frontier.
    pub open: Set<Entry>,
    /// The ticket that the next candidate draws.
    pub next_seq: nat,
    pub status: Status,
}

/// The state before the first step.
pub open spec fn initial() -> SearchState {
    SearchState {
        nodes: Map::empty(),
        open: Set::empty(),
        next_seq: 0,
        status: Status::Initialized,
    }
}

/// The first step: the start is recorded at cost zero and becomes the only
/// candidate.  A search from a cell to itself ends here.
pub open spec fn seed(p: Problem) -> SearchState {
    let h = manhattan(p.start, p.end) as u64;
    SearchState {
        nodes: Map::empty().insert(
            p.start,
            SearchNode { cell: p.start, g: 0, h, parent: None, closed: false },
        ),
        open: Set::empty().insert(Entry { f: h, h, seq: 0, cell: p.start }),
        next_seq: 1,
        status: if p.start == p.end {
            Status::Found
        } else {
            Status::Running
        },
    }
}

/// Marks `c` as finalized.
pub open spec fn close(s: SearchState, c: Cell) -> SearchState {
    SearchState { nodes: s.nodes.insert(c, SearchNode { closed: true, ..s.nodes[c] }), ..s }
}

/// Looks from `from` one step in direction `dir`.  If the cell there can be
/// stood on and is either new or reached in fewer steps than before, it is
/// recorded with `from` as its predecessor and becomes a candidate.
pub open spec fn relax(p: Problem, s: SearchState, from: Cell, dir: int) -> SearchState {
    let to = from.toward(dir);
    let g = s.nodes[from].g + 1;
    if p.grid.walkable(to) && (!s.nodes.contains_key(to) || g < s.nodes[to].g) {
        let h = manhattan(to, p.end) as u64;
        SearchState {
            nodes: s.nodes.insert(
                to,
                SearchNode { cell: to, g: g as u64, h, parent: Some(from), closed: false },
            ),
            open: s.open.insert(Entry { f: (g + h) as u64, h, seq: s.next_seq as u64, cell: to }),
            next_seq: s.next_seq + 1,
            status: s.status,
        }
    } else {
        s
    }
}

/// Finalizes `c` and looks at its four neighbours in the fixed order.
pub open spec fn expand(p: Problem, s: SearchState, c: Cell) -> SearchState {
    relax(p, relax(p, relax(p, relax(p, close(s, c), c, 0), c, 1), c, 2), c, 3)
}

/// What happens to the candidate `e` once it is taken from the frontier: at
/// the goal the search ends; a cell already finalized is skipped; any other
/// cell is expanded.
pub open spec fn advance(p: Problem, s: SearchState, e: Entry) -> SearchState {
    let rest = SearchState { open: s.open.remove(e), ..s };
    if e.cell == p.end {
        SearchState { status: Status::Found, ..rest }
    } else if rest.nodes[e.cell].closed {
        rest
    } else {
        expand(p, rest, e.cell)
    }
}

/// One step of the search.
pub open spec fn step(p: Problem, s: SearchState) -> SearchState {
    match s.status {
        Status::Initialized => seed(p),
        Status::Running => if s.open.is_empty() {
            SearchState { status: Status::Exhausted, ..s }
        } else {
            advance(p, s, first(s.open))
        },
        _ => s,
    }
}

/// Up to `fuel` steps, stopping early at the end of the search.
pub open spec fn run(p: Problem, s: SearchState, fuel: nat) -> SearchState
    decreases fuel,
{
    if fuel == 0 || s.status.is_terminal() {
        s
    } else {
        run(p, step(p, s), (fuel - 1) as nat)
    }
}

/// Number of steps within which every search on the grid ends.
pub open spec fn budget(grid: GridView) -> nat {
    (4 * grid.cells() + 3) as nat
}

/// The state in which the search for `p` ends.
pub open spec fn outcome(p: Problem) -> SearchState {
    run(p, initial(), budget(p.grid))
}

/// The cells from the one without predecessor down to `c`, following at most
/// `links` predecessor links; nothing if the chain leaves the recorded cells
/// or is longer than that.
pub open spec fn trace(nodes: Map<Cell, SearchNode>, c: Cell, links: nat) -> Option<Seq<Cell>>
    decreases links,
{
    if !nodes.contains_key(c) {
        None
    } else {
        match nodes[c].parent {
            None => Some(seq![c]),
            Some(prev) => if links == 0 {
                None
            } else {
                match trace(nodes, prev, (links - 1) as nat) {
                    Some(w) => Some(w.push(c)),
                    None => None,
                }
            },
        }
    }
}

/// Largest number of links a chain of distinct cells of the grid can have.
pub open spec fn max_links(grid: GridView) -> nat {
    (grid.cells() - 1) as nat
}

/// The route that a search in state `last` has arrived at: the chain to the
/// goal if it was found, the empty route otherwise.
pub open spec fn route_of(p: Problem, last: SearchState) -> Seq<Cell> {
    if last.status == Status::Found {
        match trace(last.nodes, p.end, max_links(p.grid)) {
            Some(w) => w,
            None => Seq::empty(),
        }
    } else {
        Seq::empty()
    }
}

/// The route that answers `p`.
pub open spec fn route(p: Problem) -> Seq<Cell> {
    route_of(p, outcome(p))
}

} // verus!
