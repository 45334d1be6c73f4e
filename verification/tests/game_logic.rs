use four_in_a_row::game_logic::test_utils::{get_random_position, get_random_positions};
use four_in_a_row::game_logic::{
    eval, fast_eval, fast_num_wins, fast_result, get_legal, is_full, num_wins, placed_discs, play,
    result, GameGlobals, GameResult, GameState, Move, PaddedGameState, Player, Score,
};

fn as_f32(score: Score) -> f32 {
    match score {
        Score::NegInf => f32::NEG_INFINITY,
        Score::Finite(v) => v as f32,
        Score::PosInf => f32::INFINITY,
    }
}

#[test]
fn win_check_horizontal() {
    let gs = GameState::new_from_board(vec![
        vec![0, 0, 0, 1, 1, 1, 1],
        vec![0, 0, 1, 2, 0, 0, 0],
        vec![0, 0, 0, 0, 0, 0, 0],
        vec![0, 0, 0, 0, 0, 0, 0],
        vec![0, 0, 0, 0, 0, 0, 0],
        vec![2, 0, 0, 0, 0, 0, 1],
    ]);
    assert_eq!(result(&gs), Some(GameResult::Win(Player::P1)));
    let gs = GameState::new_from_board(vec![
        vec![0, 0, 0, 0, 0, 0, 0],
        vec![0, 0, 1, 2, 0, 0, 0],
        vec![0, 0, 0, 0, 0, 0, 0],
        vec![0, 0, 0, 0, 0, 0, 0],
        vec![0, 0, 0, 0, 0, 0, 0],
        vec![1, 1, 1, 1, 0, 0, 1],
    ]);
    assert_eq!(result(&gs), Some(GameResult::Win(Player::P1)));
    let gs = GameState::new_from_board(vec![
        vec![0, 0, 0, 1, 1, 1, 0],
        vec![1, 2, 2, 2, 2, 0, 0],
        vec![0, 0, 0, 0, 0, 0, 0],
        vec![0, 0, 0, 0, 0, 0, 0],
        vec![0, 0, 0, 0, 0, 0, 0],
        vec![0, 1, 1, 1, 0, 0, 1],
    ]);
    assert_eq!(result(&gs), Some(GameResult::Win(Player::P2)));
}

#[test]
fn win_check_vertical() {
    let gs = GameState::new_from_board(vec![
        vec![1, 0, 0, 0, 0, 0, 0],
        vec![1, 0, 1, 2, 0, 0, 0],
        vec![1, 0, 0, 0, 0, 0, 0],
        vec![1, 0, 0, 0, 0, 0, 0],
        vec![0, 0, 0, 0, 0, 0, 0],
        vec![2, 0, 0, 0, 0, 0, 1],
    ]);
    assert_eq!(result(&gs), Some(GameResult::Win(Player::P1)));
    let gs = GameState::new_from_board(vec![
        vec![0, 0, 0, 0, 0, 0, 0],
        vec![0, 0, 1, 2, 0, 0, 0],
        vec![0, 0, 0, 0, 0, 0, 1],
        vec![0, 0, 0, 0, 0, 0, 1],
        vec![0, 0, 0, 0, 0, 0, 1],
        vec![1, 1, 0, 1, 0, 0, 1],
    ]);
    assert_eq!(result(&gs), Some(GameResult::Win(Player::P1)));
    let gs = GameState::new_from_board(vec![
        vec![0, 0, 0, 1, 1, 1, 0],
        vec![1, 2, 2, 0, 2, 0, 0],
        vec![0, 0, 2, 0, 0, 0, 0],
        vec![0, 0, 2, 0, 0, 0, 0],
        vec![0, 0, 2, 0, 0, 0, 0],
        vec![0, 1, 1, 1, 0, 0, 1],
    ]);
    assert_eq!(result(&gs), Some(GameResult::Win(Player::P2)));
}

#[test]
fn win_check_diag_tl_to_br() {
    let gs = GameState::new_from_board(vec![
        vec![1, 0, 0, 0, 0, 0, 0],
        vec![0, 1, 1, 2, 0, 0, 0],
        vec![1, 0, 1, 0, 0, 0, 0],
        vec![1, 0, 0, 1, 0, 0, 0],
        vec![0, 0, 0, 0, 0, 0, 0],
        vec![2, 0, 0, 0, 0, 0, 1],
    ]);
    assert_eq!(result(&gs), Some(GameResult::Win(Player::P1)));
    let gs = GameState::new_from_board(vec![
        vec![0, 0, 0, 0, 0, 0, 0],
        vec![0, 0, 2, 2, 0, 0, 0],
        vec![0, 0, 0, 1, 0, 0, 1],
        vec![0, 0, 0, 0, 1, 0, 1],
        vec![0, 0, 0, 0, 0, 1, 0],
        vec![1, 1, 0, 1, 0, 0, 1],
    ]);
    assert_eq!(result(&gs), Some(GameResult::Win(Player::P1)));
    let gs = GameState::new_from_board(vec![
        vec![0, 0, 0, 1, 1, 1, 0],
        vec![1, 2, 2, 0, 2, 0, 0],
        vec![1, 0, 2, 0, 0, 0, 0],
        vec![0, 1, 0, 0, 0, 0, 0],
        vec![0, 0, 1, 0, 0, 0, 0],
        vec![0, 1, 1, 1, 0, 0, 1],
    ]);
    assert_eq!(result(&gs), Some(GameResult::Win(Player::P1)));
    let gs = GameState::new_from_board(vec![
        vec![0, 0, 0, 1, 1, 1, 0],
        vec![1, 2, 2, 0, 1, 0, 0],
        vec![1, 0, 2, 0, 0, 1, 0],
        vec![0, 1, 0, 0, 0, 0, 1],
        vec![0, 0, 0, 0, 0, 0, 0],
        vec![0, 1, 0, 1, 0, 0, 1],
    ]);
    assert_eq!(result(&gs), Some(GameResult::Win(Player::P1)));
}

#[test]
fn win_check_diag_tr_to_bl() {
    let gs = GameState::new_from_board(vec![
        vec![1, 0, 0, 0, 0, 0, 1],
        vec![0, 1, 1, 2, 0, 1, 0],
        vec![1, 0, 0, 0, 1, 0, 0],
        vec![1, 0, 0, 1, 0, 0, 0],
        vec![0, 0, 0, 0, 0, 0, 0],
        vec![2, 0, 0, 0, 0, 0, 1],
    ]);
    assert_eq!(result(&gs), Some(GameResult::Win(Player::P1)));
    let gs = GameState::new_from_board(vec![
        vec![0, 0, 0, 0, 0, 0, 0],
        vec![0, 0, 2, 2, 0, 0, 0],
        vec![0, 0, 0, 1, 0, 0, 1],
        vec![0, 0, 1, 0, 0, 0, 0],
        vec![0, 1, 0, 0, 0, 1, 0],
        vec![1, 1, 0, 1, 0, 0, 1],
    ]);
    assert_eq!(result(&gs), Some(GameResult::Win(Player::P1)));
    let gs = GameState::new_from_board(vec![
        vec![0, 0, 0, 1, 0, 1, 0],
        vec![1, 2, 2, 0, 2, 0, 0],
        vec![1, 0, 2, 0, 0, 0, 1],
        vec![0, 0, 0, 0, 0, 1, 0],
        vec![0, 0, 1, 0, 1, 0, 0],
        vec![0, 1, 0, 1, 0, 0, 1],
    ]);
    assert_eq!(result(&gs), Some(GameResult::Win(Player::P1)));
    let gs = GameState::new_from_board(vec![
        vec![0, 0, 0, 1, 0, 1, 0],
        vec![1, 2, 1, 0, 0, 0, 0],
        vec![1, 1, 2, 0, 0, 1, 0],
        vec![1, 1, 0, 0, 0, 0, 1],
        vec![0, 0, 0, 0, 0, 0, 0],
        vec![0, 1, 0, 1, 0, 0, 1],
    ]);
    assert_eq!(result(&gs), Some(GameResult::Win(Player::P1)));
}

#[test]
fn draw() {
    let gs = GameState::new_from_board(vec![
        vec![2, 1, 2, 1, 1, 2, 1],
        vec![2, 1, 1, 2, 1, 2, 1],
        vec![1, 2, 1, 2, 1, 1, 2],
        vec![1, 2, 1, 1, 2, 1, 2],
        vec![1, 2, 2, 1, 2, 2, 1],
        vec![2, 1, 1, 1, 2, 2, 1],
    ]);
    assert_eq!(result(&gs), Some(GameResult::Draw));
}

#[test]
fn no_result() {
    let gs = GameState::new_from_board(vec![
        vec![0, 1, 2, 1, 1, 2, 1],
        vec![2, 1, 1, 2, 1, 2, 1],
        vec![1, 2, 1, 2, 1, 1, 2],
        vec![1, 2, 1, 1, 2, 1, 2],
        vec![1, 2, 2, 1, 2, 2, 1],
        vec![2, 1, 1, 1, 2, 2, 1],
    ]);
    assert_eq!(result(&gs), None);
}

#[test]
fn eval_function() {
    let gs = GameState::new_from_board(vec![
        vec![0, 0, 0, 0, 0, 0, 0],
        vec![0, 0, 0, 0, 0, 0, 0],
        vec![0, 0, 0, 0, 0, 0, 0],
        vec![0, 0, 0, 0, 0, 0, 0],
        vec![0, 0, 0, 0, 0, 0, 0],
        vec![0, 0, 0, 0, 0, 0, 0],
    ]);
    assert_eq!(as_f32(eval(&gs)), 0.0);
    let gs = GameState::new_from_board(vec![
        vec![0, 1, 2, 1, 1, 2, 1],
        vec![2, 1, 1, 2, 1, 2, 1],
        vec![1, 2, 1, 2, 1, 1, 2],
        vec![1, 2, 1, 1, 2, 1, 2],
        vec![1, 2, 2, 1, 2, 2, 1],
        vec![2, 1, 1, 1, 2, 2, 1],
    ]);
    assert_eq!(as_f32(eval(&gs)), 1.0);
    let gs = GameState::new_from_board(vec![
        vec![2, 1, 2, 1, 1, 2, 1],
        vec![2, 1, 1, 2, 1, 2, 1],
        vec![1, 2, 1, 2, 1, 1, 2],
        vec![1, 2, 1, 1, 2, 1, 2],
        vec![1, 2, 2, 1, 2, 2, 1],
        vec![2, 1, 1, 1, 2, 2, 1],
    ]);
    assert_eq!(as_f32(eval(&gs)), 0.0);
}

#[test]
fn fast_eval_function() {
    let game_globals = &GameGlobals::new(6, 7);
    let padded_gs = PaddedGameState::new(&GameGlobals::new(6, 7));
    assert_eq!(as_f32(eval(&padded_gs.gs)), 0.0);
    assert_eq!(
        as_f32(fast_eval(&padded_gs, Move { row: 5, col: 0 }, game_globals)),
        as_f32(eval(&play(Move { row: 5, col: 0 }, &padded_gs.gs).unwrap()))
    );
    let padded_gs = PaddedGameState::new_from_board(vec![
        vec![0, 0, 0, 0, 0, 0, 0],
        vec![0, 0, 0, 0, 0, 0, 0],
        vec![0, 0, 0, 0, 0, 0, 0],
        vec![1, 2, 0, 0, 0, 0, 0],
        vec![1, 2, 0, 0, 0, 0, 0],
        vec![1, 2, 0, 0, 0, 0, 0],
    ]);
    assert_eq!(
        as_f32(fast_eval(&padded_gs, Move { row: 2, col: 0 }, game_globals)),
        f32::INFINITY
    );
    assert_eq!(
        fast_result(&padded_gs, Move { row: 2, col: 0 }, game_globals),
        Some(GameResult::Win(Player::P1))
    );
    for mov in get_legal(&padded_gs.gs) {
        assert_eq!(
            as_f32(fast_eval(&padded_gs, mov, game_globals)),
            as_f32(eval(&play(mov, &padded_gs.gs).unwrap()))
        );
    }
}

#[test]
fn fast_eval_function_loop() {
    let game_globals = &GameGlobals::new(6, 7);
    let states = get_random_positions(42, 1000, &GameGlobals::new(6, 7));
    for gs in states {
        let padded_gs = PaddedGameState::new_from_game_state(&gs);
        for mov in get_legal(&padded_gs.gs) {
            assert_eq!(
                as_f32(fast_eval(&padded_gs, mov, game_globals)),
                as_f32(eval(&play(mov, &padded_gs.gs).unwrap()))
            );
        }
    }
}

#[test]
fn win_squares() {
    let game_globals = GameGlobals::new(2, 2);
    println!("{:?}", game_globals);
}

#[test]
fn rays_of_a_corner_and_of_an_inner_cell() {
    let game_globals = GameGlobals::new(2, 2);
    let rays = game_globals.lookup(Move { row: 0, col: 0 });
    assert_eq!(rays.len(), 4);
    assert_eq!(rays[0], vec![vec![(0, 1)], vec![]]);
    assert_eq!(rays[1], vec![vec![(1, 0)], vec![]]);
    assert_eq!(rays[2], vec![vec![(1, 1)], vec![]]);
    assert_eq!(rays[3], vec![vec![], vec![]]);
    let rays = game_globals.lookup(Move { row: 1, col: 0 });
    assert_eq!(rays[3], vec![vec![], vec![(0, 1)]]);

    let game_globals = GameGlobals::new(6, 7);
    let rays = game_globals.lookup(Move { row: 2, col: 3 });
    assert_eq!(rays[0][0], vec![(2, 4), (2, 5), (2, 6)]);
    assert_eq!(rays[0][1], vec![(2, 2), (2, 1), (2, 0)]);
    assert_eq!(rays[1][0], vec![(3, 3), (4, 3), (5, 3)]);
    assert_eq!(rays[1][1], vec![(1, 3), (0, 3)]);
    assert_eq!(rays[2][0], vec![(3, 4), (4, 5), (5, 6)]);
    assert_eq!(rays[2][1], vec![(1, 2), (0, 1)]);
    assert_eq!(rays[3][0], vec![(3, 2), (4, 1), (5, 0)]);
    assert_eq!(rays[3][1], vec![(1, 4), (0, 5)]);
    assert_eq!(game_globals.rows(), 6);
    assert_eq!(game_globals.cols(), 7);
}

#[test]
fn rays_run_to_the_edge_of_a_wide_board() {
    let game_globals = GameGlobals::new(1, 150);
    let rays = game_globals.lookup(Move { row: 0, col: 10 });
    assert_eq!(rays[0][0].len(), 139);
    assert_eq!(rays[0][1].len(), 10);
    assert_eq!(rays[0][0][138], (0, 149));
    assert_eq!(rays[1], vec![vec![], vec![]]);
}

#[test]
fn empty_board_evaluates_to_zero() {
    let game_globals = GameGlobals::new(6, 7);
    let gs = GameState::new(&game_globals);
    assert_eq!(eval(&gs), Score::Finite(0));
    assert_eq!(as_f32(eval(&gs)), 0.0);
    assert_eq!(num_wins(&gs, Player::P1, true), 69);
    assert_eq!(num_wins(&gs, Player::P2, true), 69);
    assert_eq!(num_wins(&gs, Player::P1, false), 0);
    assert_eq!(result(&gs), None);
    assert_eq!(gs.rows(), 6);
    assert_eq!(gs.cols(), 7);
    assert_eq!(gs.turn(), Player::P1);
    assert_eq!(placed_discs(&gs), 0);
    assert!(!is_full(&gs));
}

#[test]
fn empty_state_of_a_given_size() {
    let gs = GameState::empty(3, 2);
    assert_eq!(gs.rows(), 3);
    assert_eq!(gs.cols(), 2);
    assert_eq!(gs.turn(), Player::P1);
    assert_eq!(placed_discs(&gs), 0);
    assert!(gs.same(&GameState::new(&GameGlobals::new(3, 2))));
    assert_eq!(get_legal(&gs), vec![Move { row: 2, col: 0 }, Move { row: 2, col: 1 }]);
}

#[test]
fn new_state_has_the_size_of_the_geometry() {
    let gs = GameState::new(&GameGlobals::new(4, 5));
    assert_eq!(gs.rows(), 4);
    assert_eq!(gs.cols(), 5);
    assert_eq!(get_legal(&gs).len(), 5);
    assert_eq!(get_legal(&gs)[4], Move { row: 3, col: 4 });
    // Four rows of two windows, five columns of one, two diagonals each way.
    assert_eq!(num_wins(&gs, Player::P1, true), 8 + 5 + 2 + 2);
}

#[test]
fn four_stacked_in_the_first_column_win() {
    let gs = GameState::new_from_board(vec![
        vec![0, 0, 0, 0, 0, 0, 0],
        vec![0, 0, 0, 0, 0, 0, 0],
        vec![1, 0, 0, 0, 0, 0, 0],
        vec![1, 2, 0, 0, 0, 0, 0],
        vec![1, 2, 0, 0, 0, 0, 0],
        vec![1, 2, 0, 0, 0, 0, 0],
    ]);
    assert_eq!(result(&gs), Some(GameResult::Win(Player::P1)));
    assert_eq!(eval(&gs), Score::PosInf);
}

#[test]
fn second_player_win_evaluates_to_minus_infinity() {
    let gs = GameState::new_from_board(vec![
        vec![0, 0, 0, 0, 0, 0, 0],
        vec![0, 0, 0, 0, 0, 0, 0],
        vec![0, 0, 0, 0, 0, 0, 0],
        vec![0, 0, 0, 0, 0, 0, 0],
        vec![1, 1, 1, 0, 0, 0, 0],
        vec![2, 2, 2, 2, 1, 0, 0],
    ]);
    assert_eq!(result(&gs), Some(GameResult::Win(Player::P2)));
    assert_eq!(eval(&gs), Score::NegInf);
    assert_eq!(as_f32(eval(&gs)), f32::NEG_INFINITY);
}

#[test]
fn first_player_is_looked_at_first() {
    let gs = GameState::new_from_board(vec![
        vec![0, 0, 0, 0, 0, 0, 0],
        vec![0, 0, 0, 0, 0, 0, 0],
        vec![0, 0, 0, 0, 0, 0, 0],
        vec![0, 0, 0, 0, 0, 0, 0],
        vec![2, 2, 2, 2, 0, 0, 0],
        vec![1, 1, 1, 1, 0, 0, 0],
    ]);
    assert_eq!(result(&gs), Some(GameResult::Win(Player::P1)));
}

#[test]
fn full_board_without_four_is_a_draw() {
    let gs = GameState::new_from_board(vec![
        vec![2, 1, 2, 1, 1, 2, 1],
        vec![2, 1, 1, 2, 1, 2, 1],
        vec![1, 2, 1, 2, 1, 1, 2],
        vec![1, 2, 1, 1, 2, 1, 2],
        vec![1, 2, 2, 1, 2, 2, 1],
        vec![2, 1, 1, 1, 2, 2, 1],
    ]);
    assert!(is_full(&gs));
    assert_eq!(placed_discs(&gs), 42);
    assert_eq!(result(&gs), Some(GameResult::Draw));
    assert_eq!(eval(&gs), Score::Finite(0));
    assert!(get_legal(&gs).is_empty());
}

#[test]
fn last_move_that_makes_four_is_a_win() {
    let game_globals = GameGlobals::new(6, 7);
    let padded_gs = PaddedGameState::new_from_board(vec![
        vec![0, 1, 2, 1, 2, 1, 2],
        vec![1, 2, 1, 1, 2, 2, 1],
        vec![1, 2, 2, 2, 1, 2, 1],
        vec![2, 1, 1, 2, 2, 2, 1],
        vec![2, 2, 2, 1, 1, 1, 2],
        vec![1, 1, 2, 1, 1, 1, 2],
    ]);
    assert_eq!(padded_gs.gs.turn(), Player::P2);
    assert_eq!(result(&padded_gs.gs), None);
    let mov = Move { row: 0, col: 0 };
    assert_eq!(get_legal(&padded_gs.gs), vec![mov]);
    assert_eq!(fast_result(&padded_gs, mov, &game_globals), Some(GameResult::Win(Player::P2)));
    assert_eq!(fast_eval(&padded_gs, mov, &game_globals), Score::NegInf);
    let after = play(mov, &padded_gs.gs).unwrap();
    assert!(is_full(&after));
    assert_eq!(result(&after), Some(GameResult::Win(Player::P2)));
    assert_eq!(eval(&after), Score::NegInf);
}

#[test]
fn last_move_without_four_is_a_draw() {
    let game_globals = GameGlobals::new(6, 7);
    let padded_gs = PaddedGameState::new_from_board(vec![
        vec![0, 1, 2, 1, 1, 2, 1],
        vec![2, 1, 1, 2, 1, 2, 1],
        vec![1, 2, 1, 2, 1, 1, 2],
        vec![1, 2, 1, 1, 2, 1, 2],
        vec![1, 2, 2, 1, 2, 2, 1],
        vec![2, 1, 1, 1, 2, 2, 1],
    ]);
    assert_eq!(padded_gs.gs.turn(), Player::P2);
    let mov = Move { row: 0, col: 0 };
    assert_eq!(fast_result(&padded_gs, mov, &game_globals), Some(GameResult::Draw));
    assert_eq!(fast_eval(&padded_gs, mov, &game_globals), Score::Finite(0));
    assert_eq!(result(&play(mov, &padded_gs.gs).unwrap()), Some(GameResult::Draw));
}

#[test]
fn play_places_a_disc_and_passes_the_turn() {
    let gs = GameState::new(&GameGlobals::new(6, 7));
    let after = play(Move { row: 5, col: 3 }, &gs).unwrap();
    assert_eq!(after.cell(5, 3), Some(Player::P1));
    assert_eq!(after.cell(5, 2), None);
    assert_eq!(after.turn(), Player::P2);
    assert_eq!(placed_discs(&after), 1);
    // The state that was played on is as it was.
    assert_eq!(gs.cell(5, 3), None);
    assert_eq!(gs.turn(), Player::P1);
    let twice = play(Move { row: 4, col: 3 }, &after).unwrap();
    assert_eq!(twice.cell(4, 3), Some(Player::P2));
    assert_eq!(twice.turn(), Player::P1);
    assert!(after.same(&after.copy()));
    assert!(!after.same(&twice));
    assert_eq!(after, after.copy());
}

#[test]
fn play_refuses_what_is_not_legal() {
    let gs = GameState::new(&GameGlobals::new(6, 7));
    // A disc that would float.
    assert!(play(Move { row: 4, col: 0 }, &gs).is_none());
    assert!(play(Move { row: 0, col: 6 }, &gs).is_none());
    // A cell off the board.
    assert!(play(Move { row: 6, col: 0 }, &gs).is_none());
    assert!(play(Move { row: 5, col: 7 }, &gs).is_none());
    // An occupied cell.
    let after = play(Move { row: 5, col: 0 }, &gs).unwrap();
    assert!(play(Move { row: 5, col: 0 }, &after).is_none());
    assert!(play(Move { row: 4, col: 0 }, &after).is_some());
}

#[test]
fn legal_moves_are_the_landing_cells_by_column() {
    let gs = GameState::new_from_board(vec![
        vec![0, 0, 2, 0, 0, 0, 0],
        vec![0, 0, 1, 0, 0, 0, 0],
        vec![0, 0, 2, 0, 0, 0, 0],
        vec![0, 0, 1, 0, 0, 0, 1],
        vec![0, 2, 2, 0, 0, 0, 2],
        vec![1, 1, 1, 2, 0, 0, 1],
    ]);
    assert_eq!(
        get_legal(&gs),
        vec![
            Move { row: 4, col: 0 },
            Move { row: 3, col: 1 },
            Move { row: 4, col: 3 },
            Move { row: 5, col: 4 },
            Move { row: 5, col: 5 },
            Move { row: 2, col: 6 },
        ]
    );
}

#[test]
fn every_legal_move_is_accepted() {
    let game_globals = GameGlobals::new(6, 7);
    for gs in get_random_positions(42, 200, &game_globals) {
        let moves = get_legal(&gs);
        assert!(!moves.is_empty());
        for mov in moves {
            let after = play(mov, &gs).unwrap();
            assert_eq!(placed_discs(&after), placed_discs(&gs) + 1);
            assert_eq!(after.cell(mov.row, mov.col), Some(gs.turn()));
        }
    }
}

#[test]
fn relabeling_the_discs_negates_the_evaluation() {
    let game_globals = GameGlobals::new(6, 7);
    for gs in get_random_positions(30, 200, &game_globals) {
        let mut swapped: Vec<Vec<i8>> = Vec::new();
        for row in 0..gs.rows() {
            let mut line = Vec::new();
            for col in 0..gs.cols() {
                line.push(match gs.cell(row, col) {
                    None => 0,
                    Some(Player::P1) => 2,
                    Some(Player::P2) => 1,
                });
            }
            swapped.push(line);
        }
        let other = GameState::new_from_board(swapped);
        match (eval(&gs), eval(&other)) {
            (Score::Finite(a), Score::Finite(b)) => assert_eq!(a, -b),
            (a, b) => panic!("a game in progress evaluates to {:?} and {:?}", a, b),
        }
    }
    let gs = GameState::new_from_board(vec![
        vec![0, 0, 0, 0, 0, 0, 0],
        vec![0, 0, 0, 0, 0, 0, 0],
        vec![0, 0, 0, 0, 0, 0, 0],
        vec![0, 0, 0, 0, 0, 0, 0],
        vec![0, 0, 0, 0, 0, 0, 0],
        vec![0, 0, 0, 1, 0, 0, 0],
    ]);
    assert_eq!(eval(&gs), Score::Finite(7));
    let gs = GameState::new_from_board(vec![
        vec![0, 0, 0, 0, 0, 0, 0],
        vec![0, 0, 0, 0, 0, 0, 0],
        vec![0, 0, 0, 0, 0, 0, 0],
        vec![0, 0, 0, 0, 0, 0, 0],
        vec![0, 0, 0, 0, 0, 0, 0],
        vec![0, 0, 0, 2, 0, 0, 0],
    ]);
    assert_eq!(eval(&gs), Score::Finite(-7));
}

#[test]
fn fast_num_wins_counts_what_a_move_takes_and_makes() {
    let game_globals = GameGlobals::new(6, 7);
    let gs = GameState::new(&game_globals);
    // Through the middle of the floor: four windows along the row, one up the
    // column and one along each diagonal.
    assert_eq!(fast_num_wins(&gs, true, Move { row: 5, col: 3 }, &game_globals), 7);
    assert_eq!(fast_num_wins(&gs, true, Move { row: 5, col: 0 }, &game_globals), 3);
    assert_eq!(fast_num_wins(&gs, false, Move { row: 5, col: 3 }, &game_globals), 0);
    let gs = GameState::new_from_board(vec![
        vec![0, 0, 0, 0, 0, 0, 0],
        vec![0, 0, 0, 0, 0, 0, 0],
        vec![0, 0, 0, 0, 0, 0, 0],
        vec![0, 0, 0, 0, 0, 0, 0],
        vec![2, 2, 2, 0, 0, 0, 0],
        vec![1, 1, 1, 0, 1, 1, 0],
    ]);
    // Five in a row: runs of three and of two on either side.
    assert_eq!(gs.turn(), Player::P1);
    assert_eq!(fast_num_wins(&gs, false, Move { row: 5, col: 3 }, &game_globals), 3);
    assert_eq!(fast_num_wins(&gs, false, Move { row: 5, col: 6 }, &game_globals), 0);
}

#[test]
fn random_positions_are_games_in_progress() {
    let game_globals = GameGlobals::new(6, 7);
    let states = get_random_positions(42, 100, &game_globals);
    assert_eq!(states.len(), 100);
    for gs in states.iter() {
        assert_eq!(result(gs), None);
        assert!(placed_discs(gs) < 42);
        let expected = if placed_discs(gs) % 2 == 0 { Player::P1 } else { Player::P2 };
        assert_eq!(gs.turn(), expected);
        for col in 0..7 {
            for row in 0..5 {
                if gs.cell(row, col).is_some() {
                    assert!(gs.cell(row + 1, col).is_some());
                }
            }
        }
    }
    // The same seed gives the same position.
    let again = get_random_positions(42, 100, &game_globals);
    for (a, b) in states.iter().zip(again.iter()) {
        assert!(a.same(b));
    }
    let one = get_random_position(10, 3, &game_globals);
    let same = get_random_position(10, 3, &game_globals);
    assert!(one.same(&same));
    assert!(placed_discs(&one) <= 10);
    assert_eq!(placed_discs(&get_random_position(0, 3, &game_globals)), 0);
    // With moves drawn from 1..2 every position has one disc.
    for gs in get_random_positions(2, 20, &game_globals) {
        assert_eq!(placed_discs(&gs), 1);
    }
}

#[test]
fn turn_follows_the_number_of_discs() {
    let gs = GameState::new_from_board(vec![vec![0, 0, 0, 0], vec![1, 0, 0, 0]]);
    assert_eq!(gs.turn(), Player::P2);
    let gs = GameState::new_from_board(vec![vec![0, 0, 0, 0], vec![1, 2, 0, 0]]);
    assert_eq!(gs.turn(), Player::P1);
    let gs = GameState::new_from_board(vec![vec![0, 0, 7, -1], vec![1, 2, 3, 0]]);
    assert_eq!(gs.turn(), Player::P1);
    assert_eq!(gs.cell(0, 2), None);
    assert_eq!(gs.cell(1, 2), None);
    assert_eq!(gs.rows(), 2);
    assert_eq!(gs.cols(), 4);
}

#[test]
fn small_boards_have_no_diagonal_lines() {
    let gs = GameState::new(&GameGlobals::new(3, 4));
    assert_eq!(num_wins(&gs, Player::P1, true), 3);
    let gs = GameState::new(&GameGlobals::new(4, 3));
    assert_eq!(num_wins(&gs, Player::P2, true), 3);
    let gs = GameState::new(&GameGlobals::new(2, 2));
    assert_eq!(num_wins(&gs, Player::P1, true), 0);
    assert_eq!(eval(&gs), Score::Finite(0));
    assert_eq!(result(&gs), None);
}
