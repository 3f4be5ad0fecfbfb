use maze::errors::MazeError;
use maze::map_value::MapValue;
use maze::maze_map::MazeMap;
use maze::move_status::MoveStatus;
use maze::point::Point;
use maze::random::SeededRandom;

fn from_rows(rows: &[&str], st: Point, ed: Point) -> MazeMap {
    let map = rows
        .iter()
        .map(|line| {
            line.chars()
                .map(|c| match c {
                    'O' => MapValue::Wall,
                    'S' => MapValue::St,
                    'E' => MapValue::Ed,
                    _ => MapValue::Road,
                })
                .collect()
        })
        .collect();
    MazeMap { random: SeededRandom::default(), map, inst_st: Point(0, 0), st, ed }
}

fn adjacent(a: Point, b: Point) -> bool {
    (a.0 - b.0).abs() + (a.1 - b.1).abs() == 1
}

#[test]
fn solve_from_the_end_is_the_end() {
    let m = MazeMap::new_with_random(10, 20, SeededRandom::seed_from_u64(123)).unwrap();
    assert_eq!(m.solve(m.ed), Ok(vec![m.ed]));
}

#[test]
fn solve_gives_a_walk_from_start_to_end() {
    for seed in 0..30u64 {
        let m = MazeMap::new_with_random(10, 20, SeededRandom::seed_from_u64(seed)).unwrap();
        let path = m.solve(m.st).unwrap();
        assert_eq!(path[0], m.st);
        assert_eq!(*path.last().unwrap(), m.ed);
        for pair in path.windows(2) {
            assert!(adjacent(pair[0], pair[1]));
        }
        for p in &path {
            assert_ne!(m.cell_at(*p), MapValue::Wall);
        }
        let mut seen = path.clone();
        seen.sort_by_key(|p| (p.0, p.1));
        seen.dedup();
        assert_eq!(seen.len(), path.len());
    }
}

#[test]
fn solve_takes_the_short_way_round() {
    // Two ways lead from the start to the end: seven steps along the top
    // and right, five along the left and bottom.
    let m = from_rows(
        &[
            "S    ", //
            " OOO ", //
            " OOO ", //
            "  E  ", //
        ],
        Point(0, 0),
        Point(3, 2),
    );
    let path = m.solve(Point(0, 0)).unwrap();
    assert_eq!(
        path,
        vec![Point(0, 0), Point(1, 0), Point(2, 0), Point(3, 0), Point(3, 1), Point(3, 2)]
    );
    assert_eq!(m.solve(Point(0, 4)).unwrap().len(), 6);
    assert_eq!(m.solve(Point(3, 3)).unwrap(), vec![Point(3, 3), Point(3, 2)]);
}

#[test]
fn solve_next_to_the_end_is_two_cells() {
    let m = MazeMap::new_with_random(10, 20, SeededRandom::seed_from_u64(123)).unwrap();
    let full = m.solve(m.st).unwrap();
    let near = full[full.len() - 2];
    assert_eq!(m.solve(near), Ok(vec![near, m.ed]));
    let two = full[full.len() - 3];
    assert_eq!(m.solve(two), Ok(vec![two, near, m.ed]));
}

#[test]
fn solve_may_begin_on_a_wall() {
    let m = from_rows(&["SO", " E"], Point(0, 0), Point(1, 1));
    assert_eq!(m.solve(Point(0, 1)), Ok(vec![Point(0, 1), Point(1, 1)]));
}

#[test]
fn solve_without_a_way_is_queue_empty() {
    let m = from_rows(&["SOE", " O "], Point(0, 0), Point(0, 2));
    assert_eq!(m.solve(Point(0, 0)), Err(MazeError::QueueEmpty));
    assert_eq!(m.solve(Point(1, 0)), Err(MazeError::QueueEmpty));
    assert_eq!(m.solve(Point(1, 2)), Ok(vec![Point(1, 2), Point(0, 2)]));
}

#[test]
fn solve_from_outside_the_grid_is_queue_empty() {
    let m = MazeMap::new(4, 4).unwrap();
    assert_eq!(m.solve(Point(-1, 0)), Err(MazeError::QueueEmpty));
    assert_eq!(m.solve(Point(0, 4)), Err(MazeError::QueueEmpty));
    assert_eq!(m.solve(Point(i32::MAX, i32::MIN)), Err(MazeError::QueueEmpty));
}

#[test]
fn a_move_runs_the_whole_corridor() {
    let m = from_rows(
        &[
            "S     ", //
            "OOOOO ", //
            "OOOOOE", //
        ],
        Point(0, 0),
        Point(2, 5),
    );
    // The corridor turns the corner and goes on to the end.
    let plan = m.plan_move(Point(0, 0), MoveStatus::Right).unwrap();
    assert_eq!(
        plan,
        vec![
            Point(0, 0),
            Point(0, 1),
            Point(0, 2),
            Point(0, 3),
            Point(0, 4),
            Point(0, 5),
            Point(1, 5),
            Point(2, 5)
        ]
    );
}

#[test]
fn a_move_stops_at_a_junction() {
    let m = from_rows(
        &[
            "S   O", //
            "OO OO", //
            "OO  E", //
        ],
        Point(0, 0),
        Point(2, 4),
    );
    // At (0, 2) the corridor branches: right and down.
    assert_eq!(
        m.plan_move(Point(0, 0), MoveStatus::Right),
        Ok(vec![Point(0, 0), Point(0, 1), Point(0, 2)])
    );
    // From the junction down, the corridor leads round the corner to the end.
    assert_eq!(
        m.plan_move(Point(0, 2), MoveStatus::Down),
        Ok(vec![Point(0, 2), Point(1, 2), Point(2, 2), Point(2, 3), Point(2, 4)])
    );
    // From the junction right, the corridor ends at once.
    assert_eq!(m.plan_move(Point(0, 2), MoveStatus::Right), Ok(vec![Point(0, 2), Point(0, 3)]));
}

#[test]
fn a_move_stops_on_the_end_in_mid_corridor() {
    let m = from_rows(&["S  E  ", "OOOOOO"], Point(0, 0), Point(0, 3));
    assert_eq!(
        m.plan_move(Point(0, 0), MoveStatus::Right),
        Ok(vec![Point(0, 0), Point(0, 1), Point(0, 2), Point(0, 3)])
    );
    assert_eq!(m.plan_move(Point(0, 3), MoveStatus::Right), Err(MazeError::GameWin));
    assert_eq!(
        m.plan_move(Point(0, 5), MoveStatus::Left),
        Ok(vec![Point(0, 5), Point(0, 4), Point(0, 3)])
    );
}

#[test]
fn a_move_off_the_grid_or_into_a_wall_can_not_be_made() {
    let m = from_rows(&["S  E  ", "OOOOOO"], Point(0, 0), Point(0, 3));
    assert_eq!(m.plan_move(Point(0, 0), MoveStatus::Up), Err(MazeError::CanNotMove));
    assert_eq!(m.plan_move(Point(0, 0), MoveStatus::Left), Err(MazeError::CanNotMove));
    assert_eq!(m.plan_move(Point(0, 0), MoveStatus::Down), Err(MazeError::CanNotMove));
    assert_eq!(m.plan_move(Point(0, 5), MoveStatus::Right), Err(MazeError::CanNotMove));
}

#[test]
fn find_road_is_the_only_way_on() {
    let m = from_rows(
        &[
            "S   O", //
            "OO OO", //
            "OO  E", //
        ],
        Point(0, 0),
        Point(2, 4),
    );
    assert_eq!(m.find_road(Point(0, 1), Point(0, 0)), Some(Point(0, 2)));
    assert_eq!(m.find_road(Point(0, 2), Point(0, 1)), None);
    assert_eq!(m.find_road(Point(0, 3), Point(0, 2)), None);
    assert_eq!(m.find_road(Point(0, 0), Point(0, 1)), None);
    assert_eq!(m.find_road(Point(0, 0), Point(-1, -1)), Some(Point(0, 1)));
}
