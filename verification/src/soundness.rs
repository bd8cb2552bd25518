//! What holds of every state the search passes through, and why the route it
//! ends with is a shortest one.

use vstd::prelude::*;
use crate::cell::{
    adjacent, lemma_adjacent_toward, lemma_heuristic_consistent, lemma_manhattan_triangle,
    lemma_toward_adjacent, manhattan, Cell,
};
use crate::frontier::{before, distinct_tickets, first, is_first, lemma_first_unique, Entry};
use crate::grid::{lemma_area_bound, lemma_cell_set_bound, GridView, MAX_SIDE};
use crate::model::{
    advance, budget, close, expand, initial, max_links, outcome, relax, route, run, seed, step,
    trace, Problem, SearchState, Status,
};

verus! {

/// The cells that are finalized in `s`.
pub open spec fn closed_cells(s: SearchState) -> Set<Cell> {
    Set::new(|c: Cell| s.nodes.contains_key(c) && s.nodes[c].closed)
}

/// `c` is finalized in `s`.
pub open spec fn is_closed(s: SearchState, c: Cell) -> bool {
    s.nodes.contains_key(c) && s.nodes[c].closed
}

/// The record of `c` is sound: it belongs to a walkable cell, carries the
/// right estimate, its cost is one more than that of its finalized
/// predecessor, and once finalized no walk from the start is shorter.
pub open spec fn node_ok(p: Problem, s: SearchState, c: Cell, limit: int) -> bool {
    let nd = s.nodes[c];
    &&& p.grid.walkable(c)
    &&& nd.cell == c
    &&& nd.h == manhattan(c, p.end)
    &&& nd.g <= limit
    &&& match nd.parent {
        None => c == p.start && nd.g == 0,
        Some(q) => c != p.start && is_closed(s, q) && adjacent(q, c) && s.nodes[q].g + 1 == nd.g,
    }
    &&& nd.closed ==> c != p.end && p.grid.at_least(p.start, c, nd.g as int)
}

/// The records of `s` are sound.
pub open spec fn records_ok(p: Problem, s: SearchState) -> bool {
    &&& p.valid()
    &&& closed_cells(s).finite()
    &&& s.nodes.contains_key(p.start)
    &&& forall|c: Cell|
        s.nodes.contains_key(c) ==> #[trigger] node_ok(p, s, c, closed_cells(s).len() as int)
}

/// The candidate `e` belongs to a visited cell and is no better than what is
/// recorded for it.
pub open spec fn entry_ok(s: SearchState, e: Entry) -> bool {
    &&& s.nodes.contains_key(e.cell)
    &&& e.h == s.nodes[e.cell].h
    &&& s.nodes[e.cell].g + e.h <= e.f
    &&& e.seq < s.next_seq
}

/// The frontier holds a candidate for `c` with the scores recorded for `c`.
pub open spec fn has_candidate(s: SearchState, c: Cell) -> bool {
    exists|e: Entry| #[trigger] s.open.contains(e) && e.cell == c && e.f == s.nodes[c].total()
}

/// The neighbour of `u` in direction `dir`, if it can be stood on, is
/// recorded at a cost of at most one step more than `u`.
pub open spec fn relaxed(p: Problem, s: SearchState, u: Cell, dir: int) -> bool {
    let v = u.toward(dir);
    p.grid.walkable(v) ==> s.nodes.contains_key(v) && s.nodes[v].g <= s.nodes[u].g + 1
}

/// Directions of the cell under expansion that are still to be looked at.
pub open spec fn slack(cur: Option<Cell>, done: int) -> int {
    if cur is Some {
        4 - done
    } else {
        0
    }
}

/// The state is sound while the search runs.  `cur` is the cell under
/// expansion, if any, and `done` the number of its directions looked at.
pub open spec fn consistent(p: Problem, s: SearchState, cur: Option<Cell>, done: int) -> bool {
    let k = closed_cells(s).len() as int;
    &&& records_ok(p, s)
    &&& s.open.finite()
    &&& distinct_tickets(s.open)
    &&& forall|c: Cell|
        s.nodes.contains_key(c) && !s.nodes[c].closed ==> #[trigger] has_candidate(s, c)
    &&& forall|e: Entry| s.open.contains(e) ==> #[trigger] entry_ok(s, e)
    &&& forall|u: Cell, d: int|
        is_closed(s, u) && 0 <= d < 4 && (cur == Some(u) ==> d < done) ==> #[trigger] relaxed(
            p,
            s,
            u,
            d,
        )
    &&& s.next_seq + slack(cur, done) <= 4 * k + 1
    &&& s.open.len() + slack(cur, done) <= 4 * k + 1
    &&& cur matches Some(c) ==> 0 <= done <= 4 && is_closed(s, c) && s.nodes[c].g + 1 <= k
}

/// The invariant of the search.
pub open spec fn inv(p: Problem, s: SearchState) -> bool {
    &&& p.valid()
    &&& match s.status {
        Status::Initialized => s == initial(),
        Status::Running => consistent(p, s, None, 0),
        Status::Found => {
            &&& records_ok(p, s)
            &&& s.nodes.contains_key(p.end)
            &&& p.grid.at_least(p.start, p.end, s.nodes[p.end].g as int)
        },
        Status::Exhausted => !p.grid.reachable(p.start, p.end),
    }
}

/// Number of steps after which the search has surely ended.
pub open spec fn measure(p: Problem, s: SearchState) -> int {
    match s.status {
        Status::Initialized => 4 * p.grid.cells() + 3,
        Status::Running => 4 * (p.grid.cells() - closed_cells(s).len()) + s.open.len() + 1,
        _ => 0,
    }
}

/// Cells of a well-formed grid are far from the ends of the integer range,
/// and close to each other.
pub proof fn lemma_cells_bounded(grid: GridView, a: Cell, b: Cell)
    requires
        grid.wf(),
        grid.in_bounds(a),
        grid.in_bounds(b),
    ensures
        a.interior(),
        manhattan(a, b) <= 2 * (MAX_SIDE - 1),
        1 <= grid.cells() <= MAX_SIDE * MAX_SIDE,
{
    lemma_area_bound(grid.width, grid.height);
}

/// A walk with its last cell removed is a walk to the cell before.
pub proof fn lemma_walk_prefix(grid: GridView, q: Seq<Cell>, from: Cell, to: Cell)
    requires
        grid.connects(q, from, to),
        q.len() >= 2,
    ensures
        grid.connects(q.drop_last(), from, q[q.len() - 2]),
        adjacent(q[q.len() - 2], to),
{
}

/// A walk followed by a step to a walkable neighbour is a walk.
pub proof fn lemma_walk_extend(grid: GridView, w: Seq<Cell>, from: Cell, to: Cell, next: Cell)
    requires
        grid.connects(w, from, to),
        adjacent(to, next),
        grid.walkable(next),
    ensures
        grid.connects(w.push(next), from, next),
{
}

/// Admissibility of the heuristic: the estimate between two cells never
/// exceeds the number of steps of a walk between them.
pub proof fn lemma_heuristic_admissible(grid: GridView, q: Seq<Cell>, from: Cell, to: Cell)
    requires
        grid.connects(q, from, to),
    ensures
        manhattan(from, to) <= q.len() - 1,
    decreases q.len(),
{
    if q.len() >= 2 {
        let before_last = q[q.len() - 2];
        lemma_walk_prefix(grid, q, from, to);
        lemma_heuristic_admissible(grid, q.drop_last(), from, before_last);
        lemma_manhattan_triangle(from, before_last, to);
    }
}

/// The first step of a search establishes the invariant.
pub proof fn lemma_seed(p: Problem)
    requires
        p.valid(),
    ensures
        inv(p, seed(p)),
        seed(p).status == Status::Running ==> measure(p, seed(p)) < measure(p, initial()),
{
    let s = seed(p);
    lemma_cells_bounded(p.grid, p.start, p.end);
    assert(closed_cells(s) =~= Set::<Cell>::empty());
    let e = Entry { f: s.nodes[p.start].h, h: s.nodes[p.start].h, seq: 0, cell: p.start };
    assert(s.open.contains(e));
}

/// The recorded chain to a visited cell is a walk from the start of as many
/// steps as the cost recorded for the cell.
pub proof fn lemma_trace_walk(p: Problem, s: SearchState, c: Cell, links: nat) -> (w: Seq<Cell>)
    requires
        records_ok(p, s),
        s.nodes.contains_key(c),
        links >= s.nodes[c].g,
    ensures
        trace(s.nodes, c, links) == Some(w),
        p.grid.connects(w, p.start, c),
        w.len() == s.nodes[c].g + 1,
    decreases s.nodes[c].g,
{
    let k = closed_cells(s).len() as int;
    assert(node_ok(p, s, c, k));
    match s.nodes[c].parent {
        None => seq![c],
        Some(q) => {
            let v = lemma_trace_walk(p, s, q, (links - 1) as nat);
            lemma_walk_extend(p.grid, v, p.start, q, c);
            v.push(c)
        },
    }
}

/// As long as the goal is not finalized, fewer cells are finalized than the
/// grid has.
pub proof fn lemma_closed_bound(p: Problem, s: SearchState)
    requires
        records_ok(p, s),
    ensures
        closed_cells(s).len() + 1 <= p.grid.cells(),
{
    let k = closed_cells(s).len() as int;
    let all = closed_cells(s).insert(p.end);
    assert forall|c: Cell| #[trigger] all.contains(c) implies p.grid.in_bounds(c) by {
        if c != p.end {
            assert(node_ok(p, s, c, k));
        }
    }
    if closed_cells(s).contains(p.end) {
        assert(node_ok(p, s, p.end, k));
    }
    lemma_cell_set_bound(p.grid.width, p.grid.height, all);
}

/// While the search runs, every walk from the start to a cell that is not
/// finalized is matched by a candidate on the frontier whose total cost is at
/// most the length of the walk plus the estimate from its end.
pub proof fn lemma_frontier_bound(p: Problem, s: SearchState, q: Seq<Cell>) -> (e: Entry)
    requires
        consistent(p, s, None, 0),
        q.len() > 0,
        p.grid.connects(q, p.start, q[q.len() - 1]),
        !is_closed(s, q[q.len() - 1]),
    ensures
        s.open.contains(e),
        e.f <= q.len() - 1 + manhattan(q[q.len() - 1], p.end),
    decreases q.len(),
{
    let k = closed_cells(s).len() as int;
    let t = q[q.len() - 1];
    if q.len() == 1 {
        assert(node_ok(p, s, p.start, k));
        assert(has_candidate(s, p.start));
        choose|e: Entry| #[trigger] s.open.contains(e) && e.cell == t && e.f == s.nodes[t].total()
    } else {
        let u = q[q.len() - 2];
        let r = q.drop_last();
        lemma_walk_prefix(p.grid, q, p.start, t);
        lemma_heuristic_consistent(u, t, p.end);
        if !is_closed(s, u) {
            lemma_frontier_bound(p, s, r)
        } else {
            assert(node_ok(p, s, u, k));
            let d = lemma_adjacent_toward(u, t);
            assert(relaxed(p, s, u, d));
            assert(node_ok(p, s, t, k));
            assert(has_candidate(s, t));
            choose|e: Entry| #[trigger]
                s.open.contains(e) && e.cell == t && e.f == s.nodes[t].total()
        }
    }
}

/// When the first candidate belongs to a cell that is not finalized, no walk
/// from the start to that cell is shorter than the cost recorded for it.
pub proof fn lemma_first_is_settled(p: Problem, s: SearchState, e: Entry)
    requires
        consistent(p, s, None, 0),
        is_first(s.open, e),
        !is_closed(s, e.cell),
    ensures
        s.nodes.contains_key(e.cell),
        p.grid.at_least(p.start, e.cell, s.nodes[e.cell].g as int),
{
    let k = closed_cells(s).len() as int;
    let c = e.cell;
    assert(entry_ok(s, e));
    assert(node_ok(p, s, c, k));
    assert forall|q: Seq<Cell>| #[trigger] p.grid.connects(q, p.start, c) implies q.len() - 1
        >= s.nodes[c].g by {
        lemma_frontier_bound(p, s, q);
    }
}

/// When the frontier runs empty, the goal cannot be reached.
pub proof fn lemma_exhausted(p: Problem, s: SearchState)
    requires
        consistent(p, s, None, 0),
        s.open.is_empty(),
    ensures
        !p.grid.reachable(p.start, p.end),
{
    let k = closed_cells(s).len() as int;
    if p.grid.reachable(p.start, p.end) {
        let q = choose|q: Seq<Cell>| p.grid.connects(q, p.start, p.end);
        if is_closed(s, p.end) {
            assert(node_ok(p, s, p.end, k));
        }
        lemma_frontier_bound(p, s, q);
    }
}

/// Taking a candidate off the frontier leaves the records sound.
pub proof fn lemma_records_without(p: Problem, s: SearchState, e: Entry)
    requires
        records_ok(p, s),
    ensures
        records_ok(p, SearchState { open: s.open.remove(e), ..s }),
        closed_cells(SearchState { open: s.open.remove(e), ..s }) == closed_cells(s),
{
    let t = SearchState { open: s.open.remove(e), ..s };
    let k = closed_cells(s).len() as int;
    assert forall|c: Cell| t.nodes.contains_key(c) implies #[trigger] node_ok(p, t, c, k) by {
        assert(node_ok(p, s, c, k));
    }
}

/// A candidate for a finalized cell is dropped without harm.
pub proof fn lemma_skip(p: Problem, s: SearchState, e: Entry)
    requires
        consistent(p, s, None, 0),
        s.open.contains(e),
        is_closed(s, e.cell),
    ensures
        consistent(p, SearchState { open: s.open.remove(e), ..s }, None, 0),
        closed_cells(SearchState { open: s.open.remove(e), ..s }) == closed_cells(s),
{
    let t = SearchState { open: s.open.remove(e), ..s };
    lemma_records_without(p, s, e);
    assert forall|c: Cell|
        t.nodes.contains_key(c) && !t.nodes[c].closed implies #[trigger] has_candidate(t, c) by {
        assert(has_candidate(s, c));
        let o = choose|o: Entry| #[trigger]
            s.open.contains(o) && o.cell == c && o.f == s.nodes[c].total();
        assert(t.open.contains(o));
    }
    assert forall|o: Entry| t.open.contains(o) implies #[trigger] entry_ok(t, o) by {
        assert(entry_ok(s, o));
    }
    assert forall|u: Cell, d: int| is_closed(t, u) && 0 <= d < 4 implies #[trigger] relaxed(
        p,
        t,
        u,
        d,
    ) by {
        assert(relaxed(p, s, u, d));
    }
}

/// Finalizing the cell of the first candidate keeps the state sound, with all
/// four directions of the cell still to be looked at.
pub proof fn lemma_close(p: Problem, s: SearchState, e: Entry)
    requires
        consistent(p, s, None, 0),
        is_first(s.open, e),
        !is_closed(s, e.cell),
        e.cell != p.end,
    ensures
        consistent(p, close(SearchState { open: s.open.remove(e), ..s }, e.cell), Some(e.cell), 0),
        closed_cells(close(SearchState { open: s.open.remove(e), ..s }, e.cell)).len()
            == closed_cells(s).len() + 1,
{
    let c = e.cell;
    let rest = SearchState { open: s.open.remove(e), ..s };
    let t = close(rest, c);
    let k = closed_cells(s).len() as int;
    lemma_first_is_settled(p, s, e);
    assert(closed_cells(t) =~= closed_cells(s).insert(c));
    assert(node_ok(p, s, c, k));
    assert forall|x: Cell| t.nodes.contains_key(x) implies #[trigger] node_ok(p, t, x, k + 1) by {
        assert(node_ok(p, s, x, k));
    }
    assert forall|x: Cell|
        t.nodes.contains_key(x) && !t.nodes[x].closed implies #[trigger] has_candidate(t, x) by {
        assert(has_candidate(s, x));
        let o = choose|o: Entry| #[trigger]
            s.open.contains(o) && o.cell == x && o.f == s.nodes[x].total();
        assert(t.open.contains(o));
    }
    assert forall|o: Entry| t.open.contains(o) implies #[trigger] entry_ok(t, o) by {
        assert(entry_ok(s, o));
    }
    assert forall|u: Cell, d: int|
        is_closed(t, u) && 0 <= d < 4 && (Some(c) == Some(u) ==> d < 0) implies #[trigger] relaxed(
            p,
            t,
            u,
            d,
        ) by {
        assert(relaxed(p, s, u, d));
    }
}

/// Looking in one more direction from the cell under expansion keeps the
/// state sound, and the scores written fit their types.
pub proof fn lemma_relax(p: Problem, s: SearchState, c: Cell, dir: int)
    requires
        consistent(p, s, Some(c), dir),
        0 <= dir < 4,
    ensures
        consistent(p, relax(p, s, c, dir), Some(c), dir + 1),
        closed_cells(relax(p, s, c, dir)) == closed_cells(s),
        forall|x: Cell| #[trigger] is_closed(s, x) ==> relax(p, s, c, dir).nodes[x] == s.nodes[x],
        relax(p, s, c, dir).open.len() <= s.open.len() + 1,
        p.grid.walkable(c.toward(dir)) ==> s.nodes[c].g + 1 + manhattan(c.toward(dir), p.end)
            <= u64::MAX,
        s.next_seq < u64::MAX,
{
    let t = relax(p, s, c, dir);
    let k = closed_cells(s).len() as int;
    let v = c.toward(dir);
    let g = s.nodes[c].g + 1;
    lemma_closed_bound(p, s);
    assert(node_ok(p, s, c, k));
    lemma_cells_bounded(p.grid, c, p.end);
    lemma_toward_adjacent(c, dir);
    if p.grid.walkable(v) {
        lemma_cells_bounded(p.grid, v, p.end);
    }
    if p.grid.walkable(v) && (!s.nodes.contains_key(v) || g < s.nodes[v].g) {
        let h = manhattan(v, p.end) as u64;
        let fresh = Entry { f: (g + h) as u64, h, seq: s.next_seq as u64, cell: v };
        if s.nodes.contains_key(v) {
            assert(node_ok(p, s, v, k));
            if s.nodes[v].closed {
                let w = lemma_trace_walk(p, s, c, s.nodes[c].g as nat);
                lemma_walk_extend(p.grid, w, p.start, c, v);
            }
        }
        assert(closed_cells(t) =~= closed_cells(s));
        assert(!s.open.contains(fresh)) by {
            if s.open.contains(fresh) {
                assert(entry_ok(s, fresh));
            }
        }
        assert forall|x: Cell| t.nodes.contains_key(x) implies #[trigger] node_ok(p, t, x, k) by {
            if x != v {
                assert(node_ok(p, s, x, k));
            }
        }
        assert forall|x: Cell|
            t.nodes.contains_key(x) && !t.nodes[x].closed implies #[trigger] has_candidate(
            t,
            x,
        ) by {
            if x == v {
                assert(t.open.contains(fresh));
            } else {
                assert(has_candidate(s, x));
                let o = choose|o: Entry| #[trigger]
                    s.open.contains(o) && o.cell == x && o.f == s.nodes[x].total();
                assert(t.open.contains(o));
            }
        }
        assert forall|o: Entry| t.open.contains(o) implies #[trigger] entry_ok(t, o) by {
            if o != fresh {
                assert(entry_ok(s, o));
            }
        }
        assert forall|u: Cell, d: int|
            is_closed(t, u) && 0 <= d < 4 && (Some(c) == Some(u) ==> d < dir + 1) implies #[trigger] relaxed(
            p,
            t,
            u,
            d,
        ) by {
            if !(u == c && d == dir) {
                assert(relaxed(p, s, u, d));
            }
        }
        assert(distinct_tickets(t.open)) by {
            assert forall|a: Entry, b: Entry|
                #![trigger t.open.contains(a), t.open.contains(b)]
                t.open.contains(a) && t.open.contains(b) && a.seq == b.seq implies a == b by {
                if a != fresh {
                    assert(entry_ok(s, a));
                }
                if b != fresh {
                    assert(entry_ok(s, b));
                }
            }
        }
    }
}

/// Once all four directions are looked at, the expansion is over.
pub proof fn lemma_expanded(p: Problem, s: SearchState, c: Cell)
    requires
        consistent(p, s, Some(c), 4),
    ensures
        consistent(p, s, None, 0),
{
}

/// Handling the first candidate keeps the invariant and brings the search
/// closer to its end.
pub proof fn lemma_advance(p: Problem, s: SearchState, e: Entry)
    requires
        inv(p, s),
        s.status == Status::Running,
        is_first(s.open, e),
    ensures
        inv(p, advance(p, s, e)),
        measure(p, advance(p, s, e)) < measure(p, s),
{
    let rest = SearchState { open: s.open.remove(e), ..s };
    let k = closed_cells(s).len() as int;
    assert(entry_ok(s, e));
    lemma_closed_bound(p, s);
    if e.cell == p.end {
        if is_closed(s, p.end) {
            assert(node_ok(p, s, p.end, k));
        }
        lemma_first_is_settled(p, s, e);
        lemma_records_without(p, s, e);
        let t = SearchState { status: Status::Found, ..rest };
        assert forall|c: Cell| t.nodes.contains_key(c) implies #[trigger] node_ok(p, t, c, k) by {
            assert(node_ok(p, rest, c, k));
        }
    } else if rest.nodes[e.cell].closed {
        lemma_skip(p, s, e);
    } else {
        let c = e.cell;
        lemma_close(p, s, e);
        let s0 = close(rest, c);
        lemma_relax(p, s0, c, 0);
        let s1 = relax(p, s0, c, 0);
        lemma_relax(p, s1, c, 1);
        let s2 = relax(p, s1, c, 1);
        lemma_relax(p, s2, c, 2);
        let s3 = relax(p, s2, c, 2);
        lemma_relax(p, s3, c, 3);
        lemma_expanded(p, relax(p, s3, c, 3), c);
    }
}

/// A finite, non-empty set of candidates with distinct tickets has a first
/// one.
pub proof fn lemma_first_exists(open: Set<Entry>) -> (e: Entry)
    requires
        open.finite(),
        !open.is_empty(),
        distinct_tickets(open),
    ensures
        is_first(open, e),
    decreases open.len(),
{
    let x = open.choose();
    let rest = open.remove(x);
    if rest.is_empty() {
        x
    } else {
        let m = lemma_first_exists(rest);
        if before(x, m) {
            x
        } else {
            m
        }
    }
}

/// Every step keeps the invariant, and before the end every step brings the
/// search closer to it.
pub proof fn lemma_step(p: Problem, s: SearchState)
    requires
        inv(p, s),
    ensures
        inv(p, step(p, s)),
        !s.status.is_terminal() ==> 0 <= measure(p, step(p, s)) < measure(p, s),
{
    match s.status {
        Status::Initialized => {
            lemma_seed(p);
            lemma_cells_bounded(p.grid, p.start, p.end);
            if seed(p).status == Status::Running {
                lemma_closed_bound(p, seed(p));
            }
        },
        Status::Running => {
            lemma_closed_bound(p, s);
            if s.open.is_empty() {
                lemma_exhausted(p, s);
            } else {
                let e = lemma_first_exists(s.open);
                lemma_first_unique(s.open, e);
                lemma_advance(p, s, e);
                if step(p, s).status == Status::Running {
                    lemma_closed_bound(p, step(p, s));
                }
            }
        },
        _ => {},
    }
}

/// What is finalized stays as it is: no step changes the record of a
/// finalized cell, so no cell is ever taken up again.
pub proof fn lemma_finalized_stays(p: Problem, s: SearchState, x: Cell)
    requires
        inv(p, s),
        s.status == Status::Running,
        is_closed(s, x),
    ensures
        is_closed(step(p, s), x),
        step(p, s).nodes[x] == s.nodes[x],
{
    if !s.open.is_empty() {
        let e = lemma_first_exists(s.open);
        lemma_first_unique(s.open, e);
        let rest = SearchState { open: s.open.remove(e), ..s };
        if e.cell != p.end && !rest.nodes[e.cell].closed {
            let c = e.cell;
            assert(entry_ok(s, e));
            lemma_close(p, s, e);
            let s0 = close(rest, c);
            lemma_relax(p, s0, c, 0);
            let s1 = relax(p, s0, c, 0);
            lemma_relax(p, s1, c, 1);
            let s2 = relax(p, s1, c, 1);
            lemma_relax(p, s2, c, 2);
            let s3 = relax(p, s2, c, 2);
            lemma_relax(p, s3, c, 3);
            assert(closed_cells(s0).contains(x));
            assert(closed_cells(s1).contains(x));
            assert(closed_cells(s2).contains(x));
            assert(closed_cells(s3).contains(x));
            assert(closed_cells(relax(p, s3, c, 3)).contains(x));
        }
    }
}

/// With enough fuel the search runs to its end, and the invariant holds
/// there.
pub proof fn lemma_run(p: Problem, s: SearchState, fuel: nat)
    requires
        inv(p, s),
        fuel >= measure(p, s),
    ensures
        inv(p, run(p, s, fuel)),
        run(p, s, fuel).status.is_terminal(),
    decreases fuel,
{
    lemma_step(p, s);
    if fuel == 0 || s.status.is_terminal() {
    } else {
        lemma_run(p, step(p, s), (fuel - 1) as nat);
    }
}

/// A search that has found the goal has recorded a shortest walk to it.
pub proof fn lemma_found_shortest(p: Problem, s: SearchState) -> (w: Seq<Cell>)
    requires
        inv(p, s),
        s.status == Status::Found,
    ensures
        trace(s.nodes, p.end, max_links(p.grid)) == Some(w),
        p.grid.shortest(w, p.start, p.end),
{
    let k = closed_cells(s).len() as int;
    lemma_closed_bound(p, s);
    assert(node_ok(p, s, p.end, k));
    lemma_trace_walk(p, s, p.end, max_links(p.grid))
}

/// The route of a valid request is a shortest walk from start to end when
/// the end can be reached, and empty exactly when it cannot.
pub proof fn lemma_route_shortest(p: Problem)
    requires
        p.valid(),
    ensures
        route(p).len() == 0 <==> !p.grid.reachable(p.start, p.end),
        route(p).len() > 0 ==> p.grid.shortest(route(p), p.start, p.end),
{
    lemma_cells_bounded(p.grid, p.start, p.end);
    lemma_run(p, initial(), budget(p.grid));
    if outcome(p).status == Status::Found {
        lemma_found_shortest(p, outcome(p));
    }
}

/// The route from a cell to itself is that cell alone.
pub proof fn lemma_route_trivial(p: Problem)
    requires
        p.valid(),
        p.start == p.end,
    ensures
        route(p) == seq![p.start],
{
    lemma_cells_bounded(p.grid, p.start, p.end);
    assert(run(p, initial(), budget(p.grid)) == run(p, seed(p), (budget(p.grid) - 1) as nat));
}

/// In the route of a valid request every cell lies inside the grid and on no
/// wall, each cell is one unit step from the next, the first cell is the
/// start and the last is the end.
pub proof fn lemma_route_steps(p: Problem, i: int)
    requires
        p.valid(),
        0 <= i < route(p).len(),
    ensures
        p.grid.in_bounds(route(p)[i]),
        !p.grid.walls.contains(route(p)[i]),
        i + 1 < route(p).len() ==> adjacent(route(p)[i], route(p)[i + 1]),
        route(p)[0] == p.start,
        route(p)[route(p).len() - 1] == p.end,
{
    lemma_route_shortest(p);
}

} // verus!
