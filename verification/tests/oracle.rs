use gridpath::{astar, Cell, Grid};

struct Lcg(u64);

impl Lcg {
    fn next(&mut self, bound: u64) -> u64 {
        self.0 = self.0.wrapping_mul(6364136223846793005).wrapping_add(1442695040888963407);
        (self.0 >> 33) % bound
    }
}

fn compare(width: i64, height: i64, walls: &[Cell], start: Cell, end: Cell) {
    let ours = match Grid::new(width, height, &walls.to_vec()) {
        Ok(grid) => astar(&grid, start, end),
        Err(e) => panic!("no grid: {:?}", e),
    };
    let mut grid = seastar::Grid::new(width as usize, height as usize);
    for w in walls {
        grid.set(w.x as isize, w.y as isize, true);
    }
    let theirs = seastar::astar(
        &grid,
        seastar::Point::new(start.x as isize, start.y as isize),
        seastar::Point::new(end.x as isize, end.y as isize),
    );
    match (ours, theirs) {
        (None, None) => {}
        (Some(a), Some(b)) => {
            assert_eq!(a.len(), b.len(), "{}x{} {:?} {:?} {:?}", width, height, walls, start, end);
            assert_eq!(a[0], Cell::new(b[0].x as i64, b[0].y as i64));
            assert_eq!(a[a.len() - 1], Cell::new(b[b.len() - 1].x as i64, b[b.len() - 1].y as i64));
        }
        (a, b) => panic!("{:?} against {:?}", a, b),
    }
}

fn random_case(rng: &mut Lcg, max_side: u64, density: u64) {
    let width = 1 + rng.next(max_side) as i64;
    let height = 1 + rng.next(max_side) as i64;
    let start = Cell::new(rng.next(width as u64) as i64, rng.next(height as u64) as i64);
    let end = Cell::new(rng.next(width as u64) as i64, rng.next(height as u64) as i64);
    let mut walls = Vec::new();
    for y in 0..height {
        for x in 0..width {
            let c = Cell::new(x, y);
            if c != start && c != end && rng.next(100) < density {
                walls.push(c);
            }
        }
    }
    compare(width, height, &walls, start, end);
}

#[test]
fn agrees_with_seastar_on_its_own_examples() {
    let c = |x: i64, y: i64| Cell::new(x, y);
    compare(3, 3, &[c(0, 1), c(2, 1)], c(0, 0), c(2, 2));
    compare(3, 3, &[c(1, 1), c(2, 1), c(1, 2)], c(0, 0), c(2, 2));
    let walls = [c(0, 1), c(1, 1), c(2, 1), c(1, 3), c(2, 3), c(3, 3), c(4, 3)];
    compare(5, 5, &walls, c(0, 0), c(4, 4));
}

#[test]
fn agrees_with_seastar_on_small_random_grids() {
    let mut rng = Lcg(7);
    for _ in 0..300 {
        random_case(&mut rng, 7, 30);
    }
}

#[test]
fn agrees_with_seastar_on_large_random_grids() {
    let mut rng = Lcg(8);
    for _ in 0..30 {
        random_case(&mut rng, 30, 20);
    }
}
