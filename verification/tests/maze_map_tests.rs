use maze::errors::MazeError;
use maze::map_value::MapValue;
use maze::maze_map::MazeMap;
use maze::point::Point;
use maze::random::SeededRandom;

fn open_cells(m: &MazeMap) -> Vec<Point> {
    let mut cells = Vec::new();
    for (i, line) in m.map.iter().enumerate() {
        for (j, v) in line.iter().enumerate() {
            if *v != MapValue::Wall {
                cells.push(Point(i as i32, j as i32));
            }
        }
    }
    cells
}

fn count(m: &MazeMap, v: MapValue) -> usize {
    m.map.iter().map(|line| line.iter().filter(|c| **c == v).count()).sum()
}

fn open_neighbours(m: &MazeMap, p: Point) -> usize {
    let mut n = 0;
    for q in [Point(p.0 - 1, p.1), Point(p.0 + 1, p.1), Point(p.0, p.1 - 1), Point(p.0, p.1 + 1)] {
        if !m.is_overrange(q) && m.cell_at(q) != MapValue::Wall {
            n += 1;
        }
    }
    n
}

#[test]
fn dimensions_below_two_are_refused() {
    for (r, c) in [(0, 5), (1, 5), (5, 1), (-3, 4), (4, -3), (1, 1)] {
        match MazeMap::new(r, c) {
            Err(MazeError::Init(why)) => assert_eq!(why, "行和列不能小于2"),
            other => panic!("expected a refusal, got {:?}", other),
        }
        match MazeMap::new_with_random(r, c, SeededRandom::seed_from_u64(1)) {
            Err(MazeError::Init(why)) => assert_eq!(why, "行和列不能小于2"),
            other => panic!("expected a refusal, got {:?}", other),
        }
    }
}

#[test]
fn two_by_two_is_made() {
    let m = MazeMap::new(2, 2).unwrap();
    assert_eq!(m.row(), 2);
    assert_eq!(m.column(), 2);
    assert_eq!(m.st, Point(0, 0));
    assert_ne!(m.st, m.ed);
    assert_eq!(m.cell_at(m.st), MapValue::St);
    assert_eq!(m.cell_at(m.ed), MapValue::Ed);
}

#[test]
fn same_seed_gives_the_same_maze() {
    for seed in [0u64, 1, 123, 99999] {
        let a = MazeMap::new_with_random(10, 20, SeededRandom::seed_from_u64(seed)).unwrap();
        let b = MazeMap::new_with_random(10, 20, SeededRandom::seed_from_u64(seed)).unwrap();
        assert_eq!(a.map, b.map);
        assert_eq!(a.st, b.st);
        assert_eq!(a.ed, b.ed);
        assert_eq!(a.random, b.random);
        assert_eq!(a, b);
    }
}

#[test]
fn different_seeds_differ() {
    let a = MazeMap::new_with_random(10, 20, SeededRandom::seed_from_u64(1)).unwrap();
    let b = MazeMap::new_with_random(10, 20, SeededRandom::seed_from_u64(2)).unwrap();
    assert_ne!(a.map, b.map);
}

#[test]
fn one_start_and_one_end() {
    for seed in 0..20u64 {
        let m = MazeMap::new_with_random(7, 9, SeededRandom::seed_from_u64(seed)).unwrap();
        assert_eq!(count(&m, MapValue::St), 1);
        assert_eq!(count(&m, MapValue::Ed), 1);
        assert_eq!(count(&m, MapValue::Empty), 0);
        assert_eq!(count(&m, MapValue::Border), 0);
        assert_eq!(m.inst_st, Point(0, 0));
        assert_eq!(m.st, Point(0, 0));
        assert_eq!(m.cell_at(m.st), MapValue::St);
        assert_eq!(m.cell_at(m.ed), MapValue::Ed);
        let cells = open_cells(&m);
        assert_eq!(*cells.first().unwrap(), m.st);
        assert_eq!(*cells.last().unwrap(), m.ed);
    }
}

#[test]
fn open_cells_form_a_tree() {
    for seed in 0..20u64 {
        let m = MazeMap::new_with_random(12, 15, SeededRandom::seed_from_u64(seed)).unwrap();
        let cells = open_cells(&m);
        let degree_sum: usize = cells.iter().map(|p| open_neighbours(&m, *p)).sum();
        // A connected graph with one edge fewer than vertices is a tree.
        assert_eq!(degree_sum / 2, cells.len() - 1);
        assert!(cells.len() >= 2);
    }
}

#[test]
fn regeneration_goes_on_with_the_random_source() {
    let mut m = MazeMap::new_with_random(8, 8, SeededRandom::seed_from_u64(5)).unwrap();
    let first = m.clone();
    m.re_generate().unwrap();
    assert_eq!(m.row(), 8);
    assert_eq!(m.column(), 8);
    assert_ne!(m.random, first.random);
    let mut again = first.clone();
    again.generate(8, 8).unwrap();
    assert_eq!(again, m);
}

#[test]
fn generate_with_new_random_is_new_with_random() {
    let mut m = MazeMap::new(3, 3).unwrap();
    m.generate_with_new_random(6, 11, SeededRandom::seed_from_u64(77)).unwrap();
    let fresh = MazeMap::new_with_random(6, 11, SeededRandom::seed_from_u64(77)).unwrap();
    assert_eq!(m, fresh);
}

#[test]
fn refused_generation_changes_nothing() {
    let mut m = MazeMap::new_with_random(5, 5, SeededRandom::seed_from_u64(3)).unwrap();
    let before = m.clone();
    assert!(matches!(m.generate(1, 5), Err(MazeError::Init(_))));
    assert_eq!(m, before);
    assert!(matches!(
        m.generate_with_new_random(5, 0, SeededRandom::seed_from_u64(4)),
        Err(MazeError::Init(_))
    ));
    assert_eq!(m, before);
}

#[test]
fn is_overrange_tells_the_grid_from_the_rest() {
    let m = MazeMap::new(4, 6).unwrap();
    assert!(!m.is_overrange(Point(0, 0)));
    assert!(!m.is_overrange(Point(3, 5)));
    assert!(m.is_overrange(Point(4, 0)));
    assert!(m.is_overrange(Point(0, 6)));
    assert!(m.is_overrange(Point(-1, 0)));
    assert!(m.is_overrange(Point(0, -1)));
}

#[test]
fn two_by_two_leaves_one_wall() {
    for seed in 0..10u64 {
        let m = MazeMap::new_with_random(2, 2, SeededRandom::seed_from_u64(seed)).unwrap();
        assert_eq!(m.st, Point(0, 0));
        assert_eq!(m.ed, Point(1, 1));
        assert_eq!(count(&m, MapValue::Wall), 1);
        assert_eq!(count(&m, MapValue::Road), 1);
    }
}

#[test]
fn every_open_cell_reaches_the_end_on_one_path() {
    for seed in 0..5u64 {
        let m = MazeMap::new_with_random(9, 9, SeededRandom::seed_from_u64(seed)).unwrap();
        for p in open_cells(&m) {
            let path = m.solve(p).unwrap();
            assert_eq!(path[0], p);
            assert_eq!(*path.last().unwrap(), m.ed);
            let mut cells = path.clone();
            cells.sort_by_key(|q| (q.0, q.1));
            cells.dedup();
            assert_eq!(cells.len(), path.len());
        }
    }
}
