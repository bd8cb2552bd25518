//! The grid: its size, its walls, and what it means to walk on it.

use vstd::prelude::*;
use vstd::set_lib::{lemma_int_range, lemma_len_subset, lemma_map_size, set_int_range};
use crate::cell::{adjacent, Cell};
use crate::error::{AppError, ErrorKind};

verus! {

/// Largest width and largest height a grid may have.
pub const MAX_SIDE: i64 = 30;

/// The mathematical content of a grid.
pub struct GridView {
    pub width: int,
    pub height: int,
    pub walls: Set<Cell>,
}

impl GridView {
    pub open spec fn in_bounds(self, c: Cell) -> bool {
        0 <= c.x < self.width && 0 <= c.y < self.height
    }

    /// A cell can be stood on when it lies inside the grid and is no wall.
    pub open spec fn walkable(self, c: Cell) -> bool {
        self.in_bounds(c) && !self.walls.contains(c)
    }

    /// Sides within the limit, and no wall outside the grid.
    pub open spec fn wf(self) -> bool {
        &&& 1 <= self.width <= MAX_SIDE
        &&& 1 <= self.height <= MAX_SIDE
        &&& forall|c: Cell| #[trigger] self.walls.contains(c) ==> self.in_bounds(c)
    }

    /// Number of cells of the grid.
    pub open spec fn cells(self) -> int {
        self.width * self.height
    }

    /// A walk is a sequence of walkable cells in which each cell is adjacent
    /// to the next.
    pub open spec fn is_walk(self, p: Seq<Cell>) -> bool {
        &&& forall|i: int| 0 <= i < p.len() ==> self.walkable(#[trigger] p[i])
        &&& forall|i: int| 0 <= i < p.len() - 1 ==> adjacent(#[trigger] p[i], p[i + 1])
    }

    /// `p` is a walk that starts at `from` and ends at `to`.
    pub open spec fn connects(self, p: Seq<Cell>, from: Cell, to: Cell) -> bool {
        &&& self.is_walk(p)
        &&& p.len() > 0
        &&& p[0] == from
        &&& p[p.len() - 1] == to
    }

    /// Some walk leads from `from` to `to`.
    pub open spec fn reachable(self, from: Cell, to: Cell) -> bool {
        exists|p: Seq<Cell>| self.connects(p, from, to)
    }

    /// Every walk from `from` to `to` takes at least `steps` steps.
    pub open spec fn at_least(self, from: Cell, to: Cell, steps: int) -> bool {
        forall|q: Seq<Cell>| #[trigger] self.connects(q, from, to) ==> q.len() - 1 >= steps
    }

    /// `p` is a walk from `from` to `to`, and no walk between them is shorter.
    pub open spec fn shortest(self, p: Seq<Cell>, from: Cell, to: Cell) -> bool {
        &&& self.connects(p, from, to)
        &&& self.at_least(from, to, p.len() - 1)
    }
}

/// Position of a cell in a row-major table of the given width.
pub open spec fn cell_index(width: int, c: Cell) -> int {
    c.y * width + c.x
}

/// A cell inside a grid has its position inside the table.
pub proof fn lemma_index_bounds(width: int, height: int, c: Cell)
    requires
        0 <= c.x < width,
        0 <= c.y < height,
    ensures
        0 <= c.y * width <= width * height,
        0 <= cell_index(width, c) < width * height,
{
    assert(c.y * width + width <= height * width) by (nonlinear_arith)
        requires
            0 <= c.y < height,
            0 < width,
    ;
    assert(0 <= c.y * width) by (nonlinear_arith)
        requires
            0 <= c.y,
            0 < width,
    ;
}

/// A grid within the limit has at most nine hundred cells.
pub proof fn lemma_area_bound(width: int, height: int)
    requires
        1 <= width <= MAX_SIDE,
        1 <= height <= MAX_SIDE,
    ensures
        1 <= width * height <= MAX_SIDE * MAX_SIDE,
{
    assert(1 <= width * height <= 900) by (nonlinear_arith)
        requires
            1 <= width <= 30,
            1 <= height <= 30,
    ;
}

/// Two cells in the same columns range share a position only if they are equal.
pub proof fn lemma_index_injective(width: int, a: Cell, b: Cell)
    requires
        0 <= a.x < width,
        0 <= b.x < width,
        cell_index(width, a) == cell_index(width, b),
    ensures
        a == b,
{
    if a.y != b.y {
        if a.y > b.y {
            assert(a.y * width - b.y * width >= width) by (nonlinear_arith)
                requires
                    a.y - b.y >= 1,
                    0 < width,
            ;
        } else {
            assert(b.y * width - a.y * width >= width) by (nonlinear_arith)
                requires
                    b.y - a.y >= 1,
                    0 < width,
            ;
        }
    }
}

/// A finite set of cells inside a grid has at most as many members as the
/// grid has cells.
pub proof fn lemma_cell_set_bound(width: int, height: int, cells: Set<Cell>)
    requires
        0 < width,
        0 < height,
        cells.finite(),
        forall|c: Cell| #[trigger] cells.contains(c) ==> 0 <= c.x < width && 0 <= c.y < height,
    ensures
        cells.len() <= width * height,
{
    let f = |c: Cell| cell_index(width, c);
    let image = cells.map(f);
    assert forall|a: Cell, b: Cell| cells.contains(a) && cells.contains(b) && f(a) == f(b) implies a
        == b by {
        lemma_index_injective(width, a, b);
    }
    assert(vstd::relations::injective_on(f, cells));
    lemma_map_size(cells, image, f);
    assert(0 <= width * height) by (nonlinear_arith)
        requires
            0 < width,
            0 < height,
    ;
    lemma_int_range(0, width * height);
    assert forall|i: int| image.contains(i) implies set_int_range(0, width * height).contains(
        i,
    ) by {
        let a = choose|a: Cell| cells.contains(a) && i == f(a);
        lemma_index_bounds(width, height, a);
    }
    lemma_len_subset(image, set_int_range(0, width * height));
}

/// Why a grid of this size is refused, if it is.
pub open spec fn size_refusal(width: int, height: int) -> Option<Seq<char>> {
    if width <= 0 || height <= 0 {
        Some("Invalid width or height"@)
    } else if width > MAX_SIDE || height > MAX_SIDE {
        Some("Grid too large"@)
    } else {
        None
    }
}

/// A bounded grid with a dense table of walls, one flag per cell, row by row.
#[derive(Debug)]
pub struct Grid {
    width: usize,
    height: usize,
    blocked: Vec<bool>,
}

impl View for Grid {
    type V = GridView;

    closed spec fn view(&self) -> GridView {
        GridView {
            width: self.width as int,
            height: self.height as int,
            walls: Set::new(
                |c: Cell|
                    0 <= c.x < self.width && 0 <= c.y < self.height && self.blocked@[cell_index(
                        self.width as int,
                        c,
                    )],
            ),
        }
    }
}

impl Grid {
    /// The table has one flag per cell and the sides are within the limit.
    pub closed spec fn wf(&self) -> bool {
        &&& 1 <= self.width <= MAX_SIDE
        &&& 1 <= self.height <= MAX_SIDE
        &&& self.blocked@.len() == self.width * self.height
    }

    /// A well-formed grid has a well-formed content.
    pub proof fn lemma_view_wf(&self)
        requires
            self.wf(),
        ensures
            self@.wf(),
    {
    }

    /// Builds a grid of the given size.  Walls outside the grid are ignored:
    /// they cannot change what is reachable.
    pub fn new(width: i64, height: i64, walls: &Vec<Cell>) -> (res: Result<Grid, AppError>)
        ensures
            match res {
                Ok(g) => {
                    &&& size_refusal(width as int, height as int) is None
                    &&& g.wf()
                    &&& g@.width == width
                    &&& g@.height == height
                    &&& forall|c: Cell|
                        #![trigger g@.walls.contains(c)]
                        #![trigger walls@.contains(c)]
                        g@.walls.contains(c) <==> g@.in_bounds(c) && walls@.contains(c)
                },
                Err(e) => {
                    &&& e.kind == ErrorKind::InvalidInput
                    &&& size_refusal(width as int, height as int) == Some(e.message@)
                },
            },
    {
        if width <= 0 || height <= 0 {
            return Err(AppError::new(ErrorKind::InvalidInput, "Invalid width or height"));
        }
        if width > MAX_SIDE || height > MAX_SIDE {
            return Err(AppError::new(ErrorKind::InvalidInput, "Grid too large"));
        }
        let w: usize = width as usize;
        let h: usize = height as usize;
        proof {
            lemma_area_bound(w as int, h as int);
        }
        let total: usize = w * h;
        let mut blocked: Vec<bool> = Vec::new();
        let mut k: usize = 0;
        while k < total
            invariant
                k <= total,
                blocked@.len() == k,
                forall|j: int| 0 <= j < k ==> !blocked@[j],
            decreases total - k,
        {
            blocked.push(false);
            k += 1;
        }
        assert forall|c: Cell| 0 <= c.x < w && 0 <= c.y < h implies !(
        #[trigger] blocked@[cell_index(w as int, c)]) by {
            lemma_index_bounds(w as int, h as int, c);
        }
        let mut i: usize = 0;
        while i < walls.len()
            invariant
                i <= walls.len(),
                1 <= w <= 30,
                1 <= h <= 30,
                w == width,
                h == height,
                blocked@.len() == w * h,
                forall|c: Cell|
                    0 <= c.x < w && 0 <= c.y < h ==> (#[trigger] blocked@[cell_index(w as int, c)]
                        <==> exists|j: int| 0 <= j < i && walls@[j] == c),
            decreases walls.len() - i,
        {
            let wall: Cell = walls[i];
            if 0 <= wall.x && wall.x < width && 0 <= wall.y && wall.y < height {
                let row: usize = wall.y as usize;
                let col: usize = wall.x as usize;
                proof {
                    lemma_index_bounds(w as int, h as int, wall);
                    lemma_area_bound(w as int, h as int);
                    assert(row * w == wall.y * w) by (nonlinear_arith)
                        requires
                            row == wall.y,
                    ;
                }
                let at: usize = row * w + col;
                blocked.set(at, true);
                assert forall|c: Cell| 0 <= c.x < w && 0 <= c.y < h implies (
                #[trigger] blocked@[cell_index(w as int, c)] <==> exists|j: int|
                    0 <= j < i + 1 && walls@[j] == c) by {
                    lemma_index_bounds(w as int, h as int, c);
                    if cell_index(w as int, c) == at {
                        lemma_index_injective(w as int, c, wall);
                    }
                }
            } else {
                assert forall|c: Cell| 0 <= c.x < w && 0 <= c.y < h implies (
                #[trigger] blocked@[cell_index(w as int, c)] <==> exists|j: int|
                    0 <= j < i + 1 && walls@[j] == c) by {
                    lemma_index_bounds(w as int, h as int, c);
                }
            }
            i += 1;
        }
        let g = Grid { width: w, height: h, blocked };
        proof {
            assert forall|c: Cell| g@.walls.contains(c) <==> g@.in_bounds(c) && walls@.contains(
                c,
            ) by {
                if g@.in_bounds(c) {
                    lemma_index_bounds(w as int, h as int, c);
                }
            }
        }
        Ok(g)
    }

    pub fn width(&self) -> (w: i64)
        requires
            self.wf(),
        ensures
            w == self@.width,
    {
        self.width as i64
    }

    pub fn height(&self) -> (h: i64)
        requires
            self.wf(),
        ensures
            h == self@.height,
    {
        self.height as i64
    }

    /// Number of cells, which is the length of every table laid over the grid.
    pub fn cell_count(&self) -> (n: usize)
        requires
            self.wf(),
        ensures
            n == self@.cells(),
            1 <= n <= MAX_SIDE * MAX_SIDE,
    {
        proof {
            lemma_area_bound(self.width as int, self.height as int);
        }
        self.width * self.height
    }

    pub fn in_bounds(&self, c: Cell) -> (b: bool)
        requires
            self.wf(),
        ensures
            b == self@.in_bounds(c),
    {
        0 <= c.x && c.x < self.width as i64 && 0 <= c.y && c.y < self.height as i64
    }

    /// Position of a cell of the grid in a row-major table.
    pub fn index_of(&self, c: Cell) -> (i: usize)
        requires
            self.wf(),
            self@.in_bounds(c),
        ensures
            i == cell_index(self@.width, c),
            i < self@.cells(),
    {
        let row: usize = c.y as usize;
        let col: usize = c.x as usize;
        proof {
            lemma_index_bounds(self.width as int, self.height as int, c);
            lemma_area_bound(self.width as int, self.height as int);
            assert(row * self.width == c.y * self.width) by (nonlinear_arith)
                requires
                    row == c.y,
            ;
        }
        row * self.width + col
    }

    /// Whether a wall stands on the cell.  Outside the grid there are none.
    pub fn is_blocked(&self, c: Cell) -> (b: bool)
        requires
            self.wf(),
        ensures
            b == self@.walls.contains(c),
    {
        if self.in_bounds(c) {
            let i: usize = self.index_of(c);
            self.blocked[i]
        } else {
            false
        }
    }

    pub fn is_walkable(&self, c: Cell) -> (b: bool)
        requires
            self.wf(),
        ensures
            b == self@.walkable(c),
    {
        self.in_bounds(c) && !self.is_blocked(c)
    }
}

} // verus!
