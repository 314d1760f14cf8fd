use spherro::{compute_neighbours, Grid, Point};

fn brute_force(items: &[Point], pos: Point, r: u32, exclude: Option<usize>) -> Vec<usize> {
    let mut out = Vec::new();
    for (j, p) in items.iter().enumerate() {
        if Some(j) == exclude {
            continue;
        }
        let dx = p.x as i128 - pos.x as i128;
        let dy = p.y as i128 - pos.y as i128;
        if dx * dx + dy * dy < (r as i128) * (r as i128) {
            out.push(j);
        }
    }
    out
}

fn sorted(mut v: Vec<usize>) -> Vec<usize> {
    v.sort();
    v
}

fn scattered(n: usize) -> Vec<Point> {
    let mut items = Vec::new();
    let mut s: u64 = 12345;
    for _ in 0..n {
        s = s.wrapping_mul(6364136223846793005).wrapping_add(1442695040888963407);
        let x = ((s >> 33) % 760) as i32 - 30;
        s = s.wrapping_mul(6364136223846793005).wrapping_add(1442695040888963407);
        let y = ((s >> 33) % 560) as i32 - 30;
        items.push(Point::new(x, y));
    }
    items
}

#[test]
fn grid_query_matches_brute_force() {
    for &n in &[0usize, 1, 7, 60, 300] {
        let items = scattered(n);
        let grid = Grid::new(700, 500, 35, &items);
        for &r in &[0u32, 1, 10, 35, 70, 200, 1000] {
            for i in 0..n {
                let got = sorted(grid.nearest_by_idx(i, r));
                assert_eq!(got, brute_force(&items, items[i], r, Some(i)));
            }
            for &(x, y) in &[(0, 0), (350, 250), (699, 499), (-40, 800), (10, 480)] {
                let pos = Point::new(x, y);
                let got = sorted(grid.nearest_by_pos(pos, r));
                assert_eq!(got, brute_force(&items, pos, r, None));
            }
        }
    }
}

#[test]
fn grid_query_excludes_the_queried_item() {
    let items = vec![Point::new(10, 10), Point::new(10, 10), Point::new(11, 10)];
    let grid = Grid::new(100, 100, 10, &items);
    for i in 0..items.len() {
        let got = grid.nearest_by_idx(i, 5);
        assert!(!got.contains(&i));
        assert_eq!(got.len(), 2);
    }
}

#[test]
fn grid_distance_bound_is_strict() {
    let items = vec![Point::new(0, 0), Point::new(3, 4), Point::new(6, 8)];
    let grid = Grid::new(20, 20, 4, &items);
    assert_eq!(sorted(grid.nearest_by_idx(0, 5)), Vec::<usize>::new());
    assert_eq!(sorted(grid.nearest_by_idx(0, 6)), vec![1]);
    assert_eq!(sorted(grid.nearest_by_idx(1, 6)), vec![0, 2]);
    assert_eq!(sorted(grid.nearest_by_pos(Point::new(3, 4), 0)), Vec::<usize>::new());
}

#[test]
fn grid_keeps_points_outside_the_domain() {
    let items = vec![
        Point::new(-5, -5),
        Point::new(100, 100),
        Point::new(101, 99),
        Point::new(-1000, 50),
    ];
    let grid = Grid::new(100, 100, 10, &items);
    assert_eq!(sorted(grid.nearest_by_pos(Point::new(-3, -3), 3)), vec![0]);
    assert_eq!(sorted(grid.nearest_by_idx(1, 2)), vec![2]);
    assert_eq!(sorted(grid.nearest_by_pos(Point::new(-1000, 50), 1)), vec![3]);
    assert_eq!(sorted(grid.nearest_by_pos(Point::new(50, 50), 10)), Vec::<usize>::new());
}

#[test]
fn grid_splits_mark_cell_edges() {
    let items: Vec<Point> = Vec::new();
    let grid = Grid::new(25, 10, 10, &items);
    let splits = grid.debug_get_splits();
    let expected = vec![
        (Point::new(0, 0), Point::new(0, 10)),
        (Point::new(10, 0), Point::new(10, 10)),
        (Point::new(20, 0), Point::new(20, 10)),
        (Point::new(0, 0), Point::new(25, 0)),
    ];
    assert_eq!(splits, expected);
}

#[test]
fn step_neighbours_use_twice_the_smoothing_length() {
    let items = vec![Point::new(0, 0), Point::new(69, 0), Point::new(70, 0), Point::new(300, 300)];
    let forces = vec![(Point::new(300, 310), 11u32), (Point::new(0, 0), 0u32)];
    let (neighbours, force_neighbours) = compute_neighbours(700, 700, 35, &items, &forces);
    assert_eq!(neighbours.len(), 4);
    assert_eq!(sorted(neighbours[0].clone()), vec![1]);
    assert_eq!(sorted(neighbours[1].clone()), vec![0, 2]);
    assert_eq!(sorted(neighbours[2].clone()), vec![1]);
    assert_eq!(neighbours[3], Vec::<usize>::new());
    assert_eq!(force_neighbours.len(), 2);
    assert_eq!(force_neighbours[0], vec![3]);
    assert_eq!(force_neighbours[1], Vec::<usize>::new());
}

#[test]
fn isolated_particles_have_no_neighbours() {
    let items = vec![Point::new(100, 100), Point::new(171, 100)];
    let (neighbours, _) = compute_neighbours(700, 700, 35, &items, &Vec::new());
    assert!(neighbours[0].is_empty());
    assert!(neighbours[1].is_empty());
}
