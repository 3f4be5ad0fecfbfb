use maze::console_game::{Cli, ConsoleGame, RunOnceResult};
use maze::game::GameField;
use maze::map_value::MapValue;
use maze::point::Point;
use maze::random::SeededRandom;

fn board(game: &ConsoleGame) -> Vec<String> {
    game.display_text().unwrap().lines().skip(3).map(|l| l.to_string()).collect()
}

fn at(lines: &[String], p: Point) -> char {
    lines[p.0 as usize].chars().nth(p.1 as usize).unwrap()
}

#[test]
fn the_head_names_the_agent_and_its_counters() {
    let game = ConsoleGame::new_with_random(4, 5, SeededRandom::seed_from_u64(1)).unwrap();
    let text = game.display_text().unwrap();
    let lines: Vec<&str> = text.lines().collect();
    assert_eq!(lines[0], "player name: player");
    assert_eq!(lines[1], "step: 0");
    assert_eq!(lines[2], "move times: 0");
    assert_eq!(lines.len(), 3 + 4);
    assert!(!text.ends_with('\n'));
    for line in &lines[3..] {
        assert_eq!(line.chars().count(), 5);
    }
}

#[test]
fn the_board_shows_ground_agent_and_end() {
    let game = ConsoleGame::new_with_random(6, 7, SeededRandom::seed_from_u64(3)).unwrap();
    let lines = board(&game);
    for i in 0..6 {
        for j in 0..7 {
            let p = Point(i, j);
            let expected = if p == game.player().pos {
                'P'
            } else {
                match game.map().cell_at(p) {
                    MapValue::Wall => 'O',
                    MapValue::Road => ' ',
                    MapValue::St => 'S',
                    MapValue::Ed => 'E',
                    MapValue::Border => 'O',
                    MapValue::Empty => '?',
                }
            };
            assert_eq!(at(&lines, p), expected);
        }
    }
    // The agent stands on the start and hides it.
    assert_eq!(at(&lines, game.map().st), 'P');
    assert_eq!(at(&lines, game.map().ed), 'E');
}

#[test]
fn the_agent_hides_the_move_and_the_move_hides_the_solution() {
    let mut game = ConsoleGame::new_with_random(10, 20, SeededRandom::seed_from_u64(123)).unwrap();
    assert_eq!(game.turn(Ok(Cli::Solve)), RunOnceResult::Done);
    assert_eq!(game.turn(Ok(Cli::Right)), RunOnceResult::Done);
    let trail = game.map().solve(game.player().pos).unwrap();
    let passed = game.move_list.clone().unwrap();
    let lines = board(&game);
    for i in 0..10 {
        for j in 0..20 {
            let p = Point(i, j);
            let shown = at(&lines, p);
            if p == game.player().pos {
                assert_eq!(shown, 'P');
            } else if passed.contains(&p) {
                assert_eq!(shown, '.');
            } else if trail.contains(&p) {
                assert_eq!(shown, '#');
            } else {
                assert_ne!(shown, 'P');
                assert_ne!(shown, '.');
                assert_ne!(shown, '#');
            }
        }
    }
    assert!(passed.len() >= 2);
    assert_eq!(at(&lines, passed[0]), '.');
    // The end lies on the solution, which hides it.
    assert_eq!(at(&lines, game.map().ed), '#');
}

#[test]
fn without_the_solution_nothing_of_it_is_shown() {
    let mut game = ConsoleGame::new_with_random(10, 20, SeededRandom::seed_from_u64(123)).unwrap();
    game.turn(Ok(Cli::Solve));
    assert!(game.display_text().unwrap().contains('#'));
    game.turn(Ok(Cli::UnSolve));
    assert!(!game.display_text().unwrap().contains('#'));
}

#[test]
fn a_turn_forgets_the_last_move() {
    let mut game = ConsoleGame::new_with_random(10, 20, SeededRandom::seed_from_u64(123)).unwrap();
    assert_eq!(game.turn(Ok(Cli::Right)), RunOnceResult::Done);
    assert!(game.display_text().unwrap().contains('.'));
    assert_eq!(game.turn(Ok(Cli::Display)), RunOnceResult::Display);
    assert_eq!(game.move_list, None);
    assert!(!game.display_text().unwrap().contains('.'));
    assert_eq!(game.turn(Ok(Cli::Right)), RunOnceResult::Done);
    assert_eq!(game.turn(Err(RunOnceResult::InValid)), RunOnceResult::InValid);
    assert_eq!(game.move_list, None);
    let why = RunOnceResult::CmdError("no such command".to_string());
    assert_eq!(game.turn(Err(why)), RunOnceResult::CmdError("no such command".to_string()));
}

#[test]
fn the_report_says_how_a_command_went() {
    let game = ConsoleGame::new_with_random(4, 5, SeededRandom::seed_from_u64(1)).unwrap();
    let shown = game.display_text().unwrap();
    assert_eq!(game.report(&RunOnceResult::Done), Some(shown.clone()));
    assert_eq!(game.report(&RunOnceResult::Display), Some(shown));
    assert_eq!(game.report(&RunOnceResult::InValid), Some("invalid input".to_string()));
    assert_eq!(game.report(&RunOnceResult::CanNotMove), Some("can not move".to_string()));
    assert_eq!(game.report(&RunOnceResult::Quit), None);
    assert_eq!(
        game.report(&RunOnceResult::Error("game is over".to_string())),
        Some("error: game is over".to_string())
    );
    assert_eq!(
        game.report(&RunOnceResult::CmdError("usage".to_string())),
        Some("usage".to_string())
    );
}

#[test]
fn regeneration_leaves_no_overlay_of_the_old_maze() {
    let mut game = ConsoleGame::new_with_random(10, 20, SeededRandom::seed_from_u64(123)).unwrap();
    game.turn(Ok(Cli::Right));
    assert!(game.move_list.is_some());
    game.new_game_with_random(10, 20, SeededRandom::seed_from_u64(7)).unwrap();
    assert_eq!(game.move_list, None);
    assert_eq!(game.solve_list, None);
    assert_eq!(game.player().pos, game.map().st);
    let text = game.display_text().unwrap();
    assert!(!text.contains('.'));
    assert!(!text.contains('#'));
    let mut maze = game.map().clone();
    maze.re_generate().unwrap();
    assert_eq!(maze.st, Point(0, 0));
    assert_eq!(maze.cell_at(maze.st), MapValue::St);
}
