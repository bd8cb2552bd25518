//! The one operation offered to callers: a request for a route, checked and
//! answered.

use vstd::prelude::*;
use crate::cell::Cell;
use crate::error::{AppError, ErrorKind};
use crate::grid::{size_refusal, Grid, GridView, MAX_SIDE};
use crate::model::{route, Problem};
use crate::search::solve;

verus! {

/// A request for a route: the size of the grid, the two cells to connect,
/// and the walls.
#[derive(Debug)]
pub struct PathRequestForm {
    pub width: i64,
    pub height: i64,
    pub start_x: i64,
    pub start_y: i64,
    pub end_x: i64,
    pub end_y: i64,
    pub walls: Vec<Cell>,
}

/// The answer to a request: the cells of the route from start to end, or no
/// cells at all when the end cannot be reached.
#[derive(Debug)]
pub struct PathResponse {
    pub path: Vec<Cell>,
}

impl PathRequestForm {
    pub open spec fn start(&self) -> Cell {
        Cell { x: self.start_x, y: self.start_y }
    }

    pub open spec fn end(&self) -> Cell {
        Cell { x: self.end_x, y: self.end_y }
    }

    /// The grid that the request describes.  Walls listed outside the grid
    /// are not part of it.
    pub open spec fn grid(&self) -> GridView {
        GridView {
            width: self.width as int,
            height: self.height as int,
            walls: Set::new(
                |c: Cell|
                    0 <= c.x < self.width && 0 <= c.y < self.height && self.walls@.contains(c),
            ),
        }
    }

    /// The search that the request asks for.
    pub open spec fn problem(&self) -> Problem {
        Problem { grid: self.grid(), start: self.start(), end: self.end() }
    }

    /// Why the request is refused, if it is: the text shown to the caller.
    /// The sides are looked at first, then the start, then the end.  A cell
    /// is refused when it lies outside the grid or on a wall.
    pub open spec fn refusal(&self) -> Option<Seq<char>> {
        if size_refusal(self.width as int, self.height as int) is Some {
            size_refusal(self.width as int, self.height as int)
        } else if !self.grid().walkable(self.start()) {
            Some("Invalid start point"@)
        } else if !self.grid().walkable(self.end()) {
            Some("Invalid end point"@)
        } else {
            None
        }
    }
}

/// `res` is the answer owed to `form`: the reason of the refusal if the
/// request is refused, the route of its search if it is not.
pub open spec fn answers(form: PathRequestForm, res: Result<PathResponse, AppError>) -> bool {
    match res {
        Ok(answer) => form.refusal() is None && answer.path@ == route(form.problem()),
        Err(e) => e.kind == ErrorKind::InvalidInput && form.refusal() == Some(e.message@),
    }
}

/// Answers a request.  A request that is refused yields an error of kind
/// [`ErrorKind::InvalidInput`] with the reason; no search is made for it.
/// Every other request yields the route of its search, which is a shortest
/// walk from start to end, or empty when there is none.
pub fn get_path(payload: &PathRequestForm) -> (res: Result<PathResponse, AppError>)
    ensures
        answers(*payload, res),
        res matches Ok(answer) ==> {
            &&& answer.path@.len() == 0 <==> !payload.grid().reachable(
                payload.start(),
                payload.end(),
            )
            &&& answer.path@.len() > 0 ==> payload.grid().shortest(
                answer.path@,
                payload.start(),
                payload.end(),
            )
            &&& payload.start() == payload.end() ==> answer.path@ == seq![payload.start()]
        },
{
    let grid = match Grid::new(payload.width, payload.height, &payload.walls) {
        Ok(grid) => grid,
        Err(e) => {
            return Err(e);
        },
    };
    proof {
        assert(grid@.walls =~= payload.grid().walls);
        grid.lemma_view_wf();
    }
    let start = Cell { x: payload.start_x, y: payload.start_y };
    let end = Cell { x: payload.end_x, y: payload.end_y };
    if !grid.is_walkable(start) {
        return Err(AppError::new(ErrorKind::InvalidInput, "Invalid start point"));
    }
    if !grid.is_walkable(end) {
        return Err(AppError::new(ErrorKind::InvalidInput, "Invalid end point"));
    }
    match solve(&grid, start, end) {
        Ok(path) => Ok(PathResponse { path }),
        Err(e) => Err(e),
    }
}

/// A request is refused exactly when a side is below one or above the
/// limit, or when the start or the end lies outside the grid or on a wall.
/// Sides at the limit are accepted; one above is refused.
pub proof fn lemma_refusal_bounds(form: PathRequestForm)
    ensures
        form.refusal() is Some <==> {
            ||| form.width < 1
            ||| form.height < 1
            ||| form.width > MAX_SIDE
            ||| form.height > MAX_SIDE
            ||| !form.grid().in_bounds(form.start())
            ||| !form.grid().in_bounds(form.end())
            ||| form.walls@.contains(form.start())
            ||| form.walls@.contains(form.end())
        },
        form.refusal() is None ==> form.problem().valid(),
{
}

/// One request has one answer: whatever is returned for it twice is the same
/// route, or the same refusal.
pub proof fn lemma_one_answer(
    form: PathRequestForm,
    first: Result<PathResponse, AppError>,
    second: Result<PathResponse, AppError>,
)
    requires
        answers(form, first),
        answers(form, second),
    ensures
        match (first, second) {
            (Ok(a), Ok(b)) => a.path@ == b.path@,
            (Err(a), Err(b)) => a.kind == b.kind && a.message@ == b.message@,
            _ => false,
        },
{
}

/// Two requests that agree on the size, on the two cells and on the walls
/// inside the grid get the same answer.  What is listed outside the grid, the
/// order of the list and repetitions in it change nothing.
pub proof fn lemma_walls_outside_ignored(a: PathRequestForm, b: PathRequestForm)
    requires
        a.width == b.width,
        a.height == b.height,
        a.start() == b.start(),
        a.end() == b.end(),
        forall|c: Cell|
            #![trigger a.walls@.contains(c)]
            #![trigger b.walls@.contains(c)]
            a.grid().in_bounds(c) ==> (a.walls@.contains(c) <==> b.walls@.contains(c)),
    ensures
        a.problem() == b.problem(),
        a.refusal() == b.refusal(),
        route(a.problem()) == route(b.problem()),
{
    assert(a.grid().walls =~= b.grid().walls);
}

} // verus!
