use bau::broad_phase::candidate_pairs;
use bau::grid::{Grid, GridBounds, GridVec};

fn bounds(x0: i32, y0: i32, x1: i32, y1: i32) -> GridBounds {
    GridBounds::new(GridVec::new(x0, y0), GridVec::new(x1, y1))
}

fn cell(x: i32, y: i32) -> u64 {
    Grid::pair(&GridVec::new(x, y))
}

#[test]
fn cell_keys_exact_values() {
    assert_eq!(cell(0, 0), 0);
    assert_eq!(cell(0, -1), 1);
    assert_eq!(cell(-1, 0), 2);
    assert_eq!(cell(-1, -1), 3);
    assert_eq!(cell(1, 0), 6);
    assert_eq!(cell(0, 1), 4);
    assert_eq!(cell(i32::MIN, i32::MAX), u64::MAX - 1);
}

#[test]
fn cell_keys_round_trip() {
    for x in -40..40 {
        for y in -40..40 {
            assert_eq!(Grid::unpair(cell(x, y)), GridVec::new(x, y));
        }
    }
    for &(x, y) in &[
        (i32::MIN, i32::MIN),
        (i32::MAX, i32::MAX),
        (i32::MIN, i32::MAX),
        (i32::MAX, i32::MIN),
        (0, i32::MIN),
    ] {
        assert_eq!(Grid::unpair(cell(x, y)), GridVec::new(x, y));
    }
}

#[test]
fn cell_keys_are_distinct() {
    let mut keys = Vec::new();
    for x in -20..20 {
        for y in -20..20 {
            keys.push(cell(x, y));
        }
    }
    let n = keys.len();
    keys.sort();
    keys.dedup();
    assert_eq!(keys.len(), n);
}

#[test]
fn insert_records_every_covered_cell() {
    let mut grid = Grid::new();
    grid.insert_body(7, bounds(-1, 0, 1, 1));
    assert!(grid.contains_body(7));
    let cells = grid.get_cells(7).unwrap().clone();
    assert_eq!(
        cells,
        vec![cell(-1, 0), cell(0, 0), cell(1, 0), cell(-1, 1), cell(0, 1), cell(1, 1)]
    );
    for c in &cells {
        assert_eq!(grid.get_bucket(*c).unwrap(), &vec![7u16]);
    }
    assert!(grid.get_bucket(cell(2, 0)).is_none());
}

#[test]
fn inverted_bounds_cover_no_cell() {
    let mut grid = Grid::new();
    grid.insert_body(1, bounds(2, 0, 1, 0));
    assert!(grid.contains_body(1));
    assert!(grid.get_cells(1).unwrap().is_empty());
}

#[test]
fn remove_clears_cells_and_drops_empty_buckets() {
    let mut grid = Grid::new();
    grid.insert_body(1, bounds(0, 0, 1, 0));
    grid.insert_body(2, bounds(1, 0, 2, 0));
    assert_eq!(grid.get_bucket(cell(1, 0)).unwrap(), &vec![1u16, 2]);
    grid.remove_body(1);
    assert!(!grid.contains_body(1));
    assert!(grid.get_cells(1).is_none());
    assert!(grid.get_bucket(cell(0, 0)).is_none());
    assert_eq!(grid.get_bucket(cell(1, 0)).unwrap(), &vec![2u16]);
    grid.remove_body(2);
    assert!(grid.buckets.is_empty());
    assert!(grid.order.is_empty());
    // an id that is not in the grid changes nothing
    grid.remove_body(9);
    assert!(grid.members.is_empty());
}

#[test]
fn update_moves_a_body() {
    let mut grid = Grid::new();
    grid.insert_body(3, bounds(0, 0, 0, 0));
    grid.update_body(3, bounds(5, 5, 5, 6));
    assert!(grid.get_bucket(cell(0, 0)).is_none());
    assert_eq!(grid.get_cells(3).unwrap(), &vec![cell(5, 5), cell(5, 6)]);
    assert_eq!(grid.get_bucket(cell(5, 6)).unwrap(), &vec![3u16]);
    // update inserts a body that was not there
    grid.update_body(4, bounds(5, 6, 5, 6));
    assert_eq!(grid.get_bucket(cell(5, 6)).unwrap(), &vec![3u16, 4]);
}

#[test]
fn negative_cells_are_supported() {
    let mut grid = Grid::new();
    grid.insert_body(1, bounds(-3, -3, -2, -2));
    grid.insert_body(2, bounds(-2, -2, 0, 0));
    assert_eq!(candidate_pairs(&grid), vec![(1, 2)]);
}

#[test]
fn candidate_pairs_share_a_cell_once() {
    let mut grid = Grid::new();
    grid.insert_body(5, bounds(0, 0, 1, 1));
    grid.insert_body(2, bounds(1, 1, 2, 2));
    grid.insert_body(9, bounds(10, 10, 10, 10));
    grid.insert_body(4, bounds(0, 0, 2, 2));
    let mut pairs = candidate_pairs(&grid);
    pairs.sort();
    assert_eq!(pairs, vec![(2, 4), (2, 5), (4, 5)]);
}

#[test]
fn candidate_pairs_of_an_empty_grid() {
    let grid = Grid::new();
    assert!(candidate_pairs(&grid).is_empty());
}

struct Lcg(u64);

impl Lcg {
    fn next(&mut self) -> f32 {
        self.0 = self.0.wrapping_mul(6364136223846793005).wrapping_add(1442695040888963407);
        ((self.0 >> 40) as f32) / ((1u64 << 24) as f32)
    }
}

#[test]
fn grid_query_matches_brute_force() {
    let bucket_size: f32 = 50.0;
    let mut rng = Lcg(12345);
    let mut boxes = Vec::new();
    for _ in 0..100 {
        let x = rng.next() * 1000.0;
        let y = rng.next() * 1000.0;
        boxes.push((x - 5.0, y - 5.0, x + 5.0, y + 5.0));
    }
    let to_cell = |v: f32| (v / bucket_size).floor() as i32;
    let mut grid = Grid::new();
    for (i, b) in boxes.iter().enumerate() {
        grid.insert_body(
            i as u16,
            bounds(to_cell(b.0), to_cell(b.1), to_cell(b.2), to_cell(b.3)),
        );
    }
    let overlaps = |a: &(f32, f32, f32, f32), b: &(f32, f32, f32, f32)| {
        a.0 <= b.2 && a.2 >= b.0 && a.1 <= b.3 && a.3 >= b.1
    };
    let candidates = candidate_pairs(&grid);
    let filtered = candidates
        .iter()
        .filter(|(a, b)| overlaps(&boxes[*a as usize], &boxes[*b as usize]))
        .count();
    let mut brute = 0;
    for i in 0..boxes.len() {
        for j in i + 1..boxes.len() {
            if overlaps(&boxes[i], &boxes[j]) {
                brute += 1;
            }
        }
    }
    assert_eq!(filtered, brute);
    assert!(brute > 0);
}
