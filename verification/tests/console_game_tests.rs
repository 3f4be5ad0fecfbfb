use maze::console_game::{Cli, ConsoleGame, RunOnceResult, SubcommandNew};
use maze::errors::MazeError;
use maze::game::{Game, GameField};
use maze::move_status::MoveStatus;
use maze::random::SeededRandom;

#[test]
fn test_run() {
    let seed = 123;
    println!("{:?}", seed);
    let random = SeededRandom::seed_from_u64(seed);
    let mut game = ConsoleGame::new_with_random(10, 20, random).unwrap();
    assert!(!game.is_win().unwrap());
    game.move_to(MoveStatus::Right).unwrap();
    game.move_to(MoveStatus::Right).unwrap();
    game.move_to(MoveStatus::Right).unwrap();
    game.move_to(MoveStatus::Right).unwrap();
    game.move_to(MoveStatus::Down).unwrap();
    game.move_to(MoveStatus::Right).unwrap();
    game.move_to(MoveStatus::Right).unwrap();
    game.move_to(MoveStatus::Right).unwrap();
    game.move_to(MoveStatus::Down).unwrap();
    game.move_to(MoveStatus::Down).unwrap();
    assert!(game.is_win().unwrap());
}

#[test]
fn moves_after_the_win_are_refused() {
    let mut game = ConsoleGame::new_with_random(10, 20, SeededRandom::seed_from_u64(123)).unwrap();
    for mv in [
        MoveStatus::Right,
        MoveStatus::Right,
        MoveStatus::Right,
        MoveStatus::Right,
        MoveStatus::Down,
        MoveStatus::Right,
        MoveStatus::Right,
        MoveStatus::Right,
        MoveStatus::Down,
        MoveStatus::Down,
    ] {
        game.move_to(mv).unwrap();
    }
    assert_eq!(game.player().pos, game.map().ed);
    let before = game.clone();
    for mv in [MoveStatus::Up, MoveStatus::Down, MoveStatus::Left, MoveStatus::Right] {
        assert_eq!(game.move_to(mv), Err(MazeError::GameWin));
        assert_eq!(game, before);
    }
    assert_eq!(game.inner_move(MoveStatus::Up), RunOnceResult::Error("game is over".to_string()));
}

#[test]
fn other_seeds_report_no_false_win() {
    for seed in [1u64, 2, 3, 4, 5, 124] {
        let mut game =
            ConsoleGame::new_with_random(10, 20, SeededRandom::seed_from_u64(seed)).unwrap();
        for mv in [
            MoveStatus::Right,
            MoveStatus::Right,
            MoveStatus::Right,
            MoveStatus::Right,
            MoveStatus::Down,
            MoveStatus::Right,
            MoveStatus::Right,
            MoveStatus::Right,
            MoveStatus::Down,
            MoveStatus::Down,
        ] {
            let _ = game.move_to(mv);
        }
        assert_eq!(game.is_win().unwrap(), game.player().pos == game.map().ed);
    }
}

#[test]
fn a_move_counts_its_steps() {
    let mut game = ConsoleGame::new_with_random(10, 20, SeededRandom::seed_from_u64(123)).unwrap();
    let from = game.player().pos;
    let plan = game.move_to(MoveStatus::Right).unwrap();
    assert_eq!(plan[0], from);
    assert_eq!(*plan.last().unwrap(), game.player().pos);
    assert_eq!(game.player().step, plan.len() as i32 - 1);
    assert_eq!(game.player().move_times, 1);
    assert!(game.is_move);
}

#[test]
fn a_move_into_a_wall_changes_nothing() {
    let mut game = ConsoleGame::new_with_random(10, 20, SeededRandom::seed_from_u64(123)).unwrap();
    let before = game.clone();
    assert_eq!(game.move_to(MoveStatus::Up), Err(MazeError::CanNotMove));
    assert_eq!(game.move_to(MoveStatus::Left), Err(MazeError::CanNotMove));
    assert_eq!(game, before);
    assert_eq!(game.inner_move(MoveStatus::Up), RunOnceResult::CanNotMove);
}

#[test]
fn commands_do_what_they_say() {
    let mut game = ConsoleGame::new_with_random(6, 6, SeededRandom::seed_from_u64(9)).unwrap();
    assert_eq!(game.run_once(Cli::Solve), RunOnceResult::Done);
    assert!(game.will_solve);
    assert_eq!(game.run_once(Cli::UnSolve), RunOnceResult::Done);
    assert!(!game.will_solve);
    assert_eq!(game.run_once(Cli::Quit), RunOnceResult::Quit);
    assert_eq!(game.run_once(Cli::Display), RunOnceResult::Display);
    let new = Cli::New(SubcommandNew { row: 1, column: 9, seed: None });
    assert_eq!(game.run_once(new), RunOnceResult::Error("行和列不能小于2".to_string()));
    let new = Cli::New(SubcommandNew { row: 4, column: 9, seed: Some(5) });
    assert_eq!(game.run_once(new), RunOnceResult::Done);
    let fresh = ConsoleGame::new_with_random(4, 9, SeededRandom::seed_from_u64(5)).unwrap();
    assert_eq!(game, fresh);
}

#[test]
fn a_new_game_resets_the_agent() {
    let mut game = ConsoleGame::new_with_random(10, 20, SeededRandom::seed_from_u64(123)).unwrap();
    assert_eq!(game.run_once(Cli::Right), RunOnceResult::Done);
    assert!(game.move_list.is_some());
    assert_ne!(game.player().pos, game.map().st);
    game.new_game(8, 8).unwrap();
    assert_eq!(game.player().pos, game.map().st);
    assert_eq!(game.player().step, 0);
    assert_eq!(game.player().move_times, 0);
    assert_eq!(game.player().name, "player");
    assert_eq!(game.move_list, None);
    assert_eq!(game.solve_list, None);
    assert!(!game.is_move);
    assert_eq!(game.row(), 8);
    assert_eq!(game.column(), 8);
}

#[test]
fn restart_goes_back_to_the_start_and_keeps_the_counters() {
    let mut game = ConsoleGame::new_with_random(10, 20, SeededRandom::seed_from_u64(123)).unwrap();
    game.run_once(Cli::Right);
    game.run_once(Cli::Right);
    let steps = game.player().step;
    assert!(steps > 0);
    assert_eq!(game.run_once(Cli::Restart), RunOnceResult::Done);
    assert_eq!(game.player().pos, game.map().st);
    assert_eq!(game.player().step, steps);
    assert_eq!(game.player().move_times, 2);
    assert_eq!(game.move_list, None);
}

#[test]
fn the_agent_is_placed_on_corridors_only() {
    let mut game = ConsoleGame::new_with_random(10, 20, SeededRandom::seed_from_u64(123)).unwrap();
    let end = game.map().ed;
    assert_eq!(game.move_player(end), Ok(()));
    assert_eq!(game.player().pos, end);
    assert!(game.is_win().unwrap());
    let before = game.clone();
    assert_eq!(game.move_player(maze::point::Point(-1, 0)), Err(MazeError::CanNotMove));
    assert_eq!(game.move_player(maze::point::Point(10, 0)), Err(MazeError::CanNotMove));
    let mut wall = None;
    for i in 0..10 {
        for j in 0..20 {
            let p = maze::point::Point(i, j);
            if game.map().cell_at(p) == maze::map_value::MapValue::Wall {
                wall = Some(p);
            }
        }
    }
    assert_eq!(game.move_player(wall.unwrap()), Err(MazeError::CanNotMove));
    assert_eq!(game, before);
}

#[test]
fn words_are_split_as_by_a_shell() {
    assert_eq!(
        ConsoleGame::words("new 10 '20 30'"),
        Ok(vec!["new".to_string(), "10".to_string(), "20 30".to_string()])
    );
    assert_eq!(ConsoleGame::words(""), Ok(vec![]));
    assert_eq!(ConsoleGame::words("up 'open"), Err(RunOnceResult::InValid));
}

#[test]
fn the_counters_wrap_at_the_limit() {
    let mut game = ConsoleGame::new_with_random(10, 20, SeededRandom::seed_from_u64(123)).unwrap();
    game.player.step = i32::MAX;
    game.player.move_times = i32::MAX;
    let plan = game.move_to(MoveStatus::Right).unwrap();
    assert_eq!(game.player().step, i32::MAX.wrapping_add(plan.len() as i32 - 1));
    assert_eq!(game.player().move_times, i32::MIN);
}

#[test]
fn moves_never_leave_the_corridors() {
    for seed in 0..10u64 {
        let mut game =
            ConsoleGame::new_with_random(8, 12, SeededRandom::seed_from_u64(seed)).unwrap();
        let moves = [MoveStatus::Right, MoveStatus::Down, MoveStatus::Left, MoveStatus::Up];
        for round in 0..40 {
            let _ = game.move_to(moves[(round * 7 + seed as usize) % 4]);
            let pos = game.player().pos;
            assert!(!game.map().is_overrange(pos));
            assert_ne!(game.map().cell_at(pos), maze::map_value::MapValue::Wall);
        }
    }
}

#[test]
fn a_game_seeded_by_the_system_is_sound() {
    let game = ConsoleGame::new(6, 9).unwrap();
    assert_eq!(game.row(), 6);
    assert_eq!(game.column(), 9);
    assert_eq!(game.player().pos, game.map().st);
    assert_eq!(game.player().name, "player");
    assert!(game.map().solve(game.map().st).is_ok());
    assert!(matches!(ConsoleGame::new(1, 9), Err(MazeError::Init(_))));
    assert!(matches!(ConsoleGame::new(6, 0), Err(MazeError::Init(_))));
}

#[test]
fn the_system_seeds_at_the_start_of_the_stream() {
    let a = SeededRandom::from_thread_rng().unwrap();
    let b = SeededRandom::from_thread_rng().unwrap();
    assert_eq!(a.stream, 0);
    assert_eq!(a.word_pos, 0);
    assert_ne!(a.seed, b.seed);
}
