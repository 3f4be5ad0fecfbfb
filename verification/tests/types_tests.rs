use maze::errors::MazeError;
use maze::game::{GameValueMap, ToGameValue};
use maze::game_value::GameValue;
use maze::map_value::MapValue;
use maze::maze_map::MazeMap;
use maze::move_status::MoveStatus;
use maze::player::Player;
use maze::point::{CanPointIndex, Point};
use maze::random::{randindex, CanRand, SeededRandom};

#[test]
fn neighbours_come_up_down_left_right() {
    let p = Point(3, 7);
    assert_eq!(p.get_range_vec(), vec![Point(2, 7), Point(4, 7), Point(3, 6), Point(3, 8)]);
    assert_eq!(p.get_range_tuple(), (Point(2, 7), Point(4, 7), Point(3, 6), Point(3, 8)));
    assert_eq!(Point(0, 0).get_range_vec()[0], Point(-1, 0));
}

#[test]
fn points_add_and_subtract() {
    assert_eq!(Point(3, 7) + Point(1, -2), Point(4, 5));
    assert_eq!(Point(3, 7) - Point(1, -2), Point(2, 9));
    assert_eq!(Point(3, 7) + (1, 0), Point(4, 7));
    assert_eq!(Point(3, 7) - (0, 1), Point(3, 6));
    assert_eq!(Point(3, 7).x(), 3);
    assert_eq!(Point(3, 7).y(), 7);
    assert_eq!(Point::default(), Point(0, 0));
}

#[test]
fn a_point_is_written_in_brackets() {
    assert_eq!(Point(3, 7).text(), "(3, 7)");
    assert_eq!(Point(-1, 0).text(), "(-1, 0)");
}

#[test]
fn a_step_leads_to_the_next_cell() {
    let p = Point(5, 5);
    assert_eq!(MoveStatus::Up.get_next(p), Point(4, 5));
    assert_eq!(MoveStatus::Down.get_next(p), Point(6, 5));
    assert_eq!(MoveStatus::Left.get_next(p), Point(5, 4));
    assert_eq!(MoveStatus::Right.get_next(p), Point(5, 6));
}

#[test]
fn a_new_player_has_walked_nothing() {
    let p = Player::new(Point(2, 3), "ann");
    assert_eq!(p.pos, Point(2, 3));
    assert_eq!(p.name, "ann");
    assert_eq!(p.step, 0);
    assert_eq!(p.move_times, 0);
}

#[test]
fn errors_have_their_texts() {
    assert_eq!(MazeError::Init("no".to_string()).message(), "no");
    assert_eq!(MazeError::QueueEmpty.message(), "queue empty");
    assert_eq!(MazeError::SolveException.message(), "solve failed");
    assert_eq!(MazeError::GameWin.message(), "game is over");
    assert_eq!(MazeError::CanNotMove.message(), "can not move");
}

#[test]
fn tags_default_to_empty() {
    assert_eq!(MapValue::default(), MapValue::Empty);
    assert_eq!(GameValue::default(), GameValue::Empty);
}

#[test]
fn tags_pick_their_display_value() {
    let v = GameValueMap {
        empty: 0,
        moved: 1,
        solve: 2,
        wall: 3,
        road: 4,
        border: 5,
        player: 6,
        st: 7,
        ed: 8,
    };
    assert_eq!(*MapValue::Empty.to(&v), 0);
    assert_eq!(*MapValue::Wall.to(&v), 3);
    assert_eq!(*MapValue::Road.to(&v), 4);
    assert_eq!(*MapValue::Border.to(&v), 5);
    assert_eq!(*MapValue::St.to(&v), 7);
    assert_eq!(*MapValue::Ed.to(&v), 8);
    assert_eq!(*GameValue::Empty.to(&v), 0);
    assert_eq!(*GameValue::Move.to(&v), 1);
    assert_eq!(*GameValue::Solve.to(&v), 2);
}

#[test]
fn integers_count_from_zero() {
    assert_eq!(<usize as CanRand>::from_n(4), vec![0usize, 1, 2, 3]);
    assert_eq!(<u8 as CanRand>::from_n(3), vec![0u8, 1, 2]);
    assert_eq!(<i64 as CanRand>::from_n(2), vec![0i64, 1]);
    assert_eq!(<i128 as CanRand>::from_n(0), Vec::<i128>::new());
    // 300 as u8 is 44; 200 as i8 is negative.
    assert_eq!(<u8 as CanRand>::from_n(300).len(), 44);
    assert_eq!(<i8 as CanRand>::from_n(200).len(), 0);
}

#[test]
fn integers_give_their_unit_and_index() {
    assert_eq!(<i32 as CanPointIndex>::one(), 1);
    assert_eq!(<u64 as CanPointIndex>::one(), 1);
    assert_eq!(7i32.to_usize(), 7);
    assert_eq!(7u8.to_usize(), 7);
    assert_eq!(7usize.to_usize(), 7);
    assert_eq!((-1i32).to_usize(), usize::MAX);
}

#[test]
fn randindex_works_in_small_integers() {
    let mut a = SeededRandom::seed_from_u64(11);
    let mut b = SeededRandom::seed_from_u64(11);
    let small: Vec<u8> = randindex::<u8>(&mut a, 10);
    let wide: Vec<usize> = randindex::<usize>(&mut b, 10);
    assert_eq!(small.iter().map(|x| *x as usize).collect::<Vec<usize>>(), wide);
    assert_eq!(a, b);
}

#[test]
fn cells_are_read_and_set_inside_the_grid_only() {
    let mut m = MazeMap::new(3, 3).unwrap();
    assert_eq!(m.get(Point(0, 0)), Some(MapValue::St));
    assert_eq!(m.get(Point(3, 0)), None);
    assert_eq!(m.get(Point(0, -1)), None);
    let held = m.get(Point(1, 1)).unwrap();
    assert_eq!(m.set(Point(1, 1), MapValue::Border), Some(held));
    assert_eq!(m.get(Point(1, 1)), Some(MapValue::Border));
    let before = m.clone();
    assert_eq!(m.set(Point(9, 9), MapValue::Road), None);
    assert_eq!(m, before);
}

#[test]
fn the_default_random_source_is_the_zero_seed() {
    let r = SeededRandom::default();
    assert_eq!(r.seed, [0u8; 32]);
    assert_eq!(r.stream, 0);
    assert_eq!(r.word_pos, 0);
    let a = MazeMap::new(5, 5).unwrap();
    let b = MazeMap::new_with_random(5, 5, SeededRandom::default()).unwrap();
    assert_eq!(a, b);
}
