use gridpath::{get_path, Cell, PathRequestForm};

struct Lcg(u64);

impl Lcg {
    fn next(&mut self, bound: u64) -> u64 {
        self.0 = self.0.wrapping_mul(6364136223846793005).wrapping_add(1442695040888963407);
        (self.0 >> 33) % bound
    }
}

fn breadth_first(width: i64, height: i64, walls: &[Cell], start: Cell, end: Cell) -> Option<usize> {
    let at = |c: Cell| (c.y * width + c.x) as usize;
    let mut blocked = vec![false; (width * height) as usize];
    for w in walls {
        if 0 <= w.x && w.x < width && 0 <= w.y && w.y < height {
            blocked[at(*w)] = true;
        }
    }
    let mut dist: Vec<Option<usize>> = vec![None; (width * height) as usize];
    let mut queue = std::collections::VecDeque::new();
    dist[at(start)] = Some(0);
    queue.push_back(start);
    while let Some(c) = queue.pop_front() {
        if c == end {
            return dist[at(c)];
        }
        for (dx, dy) in [(0, 1), (1, 0), (0, -1), (-1, 0)] {
            let n = Cell::new(c.x + dx, c.y + dy);
            if 0 <= n.x && n.x < width && 0 <= n.y && n.y < height && !blocked[at(n)] && dist[at(n)].is_none() {
                dist[at(n)] = dist[at(c)].map(|d| d + 1);
                queue.push_back(n);
            }
        }
    }
    None
}

fn random_request(rng: &mut Lcg, max_side: u64, density: u64) -> PathRequestForm {
    let width = 1 + rng.next(max_side) as i64;
    let height = 1 + rng.next(max_side) as i64;
    let start = Cell::new(rng.next(width as u64) as i64, rng.next(height as u64) as i64);
    let end = Cell::new(rng.next(width as u64) as i64, rng.next(height as u64) as i64);
    let mut walls = Vec::new();
    for y in -1..=height {
        for x in -1..=width {
            let c = Cell::new(x, y);
            if c != start && c != end && rng.next(100) < density {
                walls.push(c);
            }
        }
    }
    PathRequestForm { width, height, start_x: start.x, start_y: start.y, end_x: end.x, end_y: end.y, walls }
}

fn check(request: &PathRequestForm) {
    let start = Cell::new(request.start_x, request.start_y);
    let end = Cell::new(request.end_x, request.end_y);
    let path = match get_path(request) {
        Ok(answer) => answer.path,
        Err(e) => panic!("refused: {:?}", e),
    };
    match breadth_first(request.width, request.height, &request.walls, start, end) {
        None => assert!(path.is_empty(), "route {:?} where none exists", path),
        Some(steps) => {
            assert_eq!(path.len(), steps + 1, "{:?}", request);
            assert_eq!(path[0], start);
            assert_eq!(path[path.len() - 1], end);
            for pair in path.windows(2) {
                let moved = (pair[0].x - pair[1].x).abs() + (pair[0].y - pair[1].y).abs();
                assert_eq!(moved, 1, "{:?} to {:?}", pair[0], pair[1]);
            }
            for c in &path {
                assert!(0 <= c.x && c.x < request.width && 0 <= c.y && c.y < request.height);
                assert!(!request.walls.contains(c), "route crosses the wall {:?}", c);
            }
        }
    }
}

#[test]
fn routes_on_small_random_grids_are_shortest() {
    let mut rng = Lcg(1);
    for _ in 0..400 {
        let request = random_request(&mut rng, 6, 30);
        check(&request);
    }
}

#[test]
fn routes_on_large_random_grids_are_shortest() {
    let mut rng = Lcg(2);
    for _ in 0..40 {
        let request = random_request(&mut rng, 30, 25);
        check(&request);
    }
}

#[test]
fn routes_through_dense_walls_are_shortest() {
    let mut rng = Lcg(3);
    for _ in 0..200 {
        let request = random_request(&mut rng, 10, 45);
        check(&request);
    }
}

#[test]
fn route_through_a_serpentine() {
    let mut walls = Vec::new();
    for row in 0..14 {
        let y = 2 * row + 1;
        for x in 0..29 {
            walls.push(if row % 2 == 0 { Cell::new(x, y) } else { Cell::new(x + 1, y) });
        }
    }
    let request = PathRequestForm { width: 30, height: 30, start_x: 0, start_y: 0, end_x: 29, end_y: 29, walls };
    check(&request);
    let path = match get_path(&request) {
        Ok(answer) => answer.path,
        Err(e) => panic!("refused: {:?}", e),
    };
    assert_eq!(path.len(), 15 * 29 + 14 * 2 + 1 + 1);
}
