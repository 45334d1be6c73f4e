use four_in_a_row::game::{
    from_clock, Agent, AgentError, ConfigError, MinMaxAgent, RandomMover, Step,
    TranspositionTable,
};
use four_in_a_row::game_logic::test_utils::get_random_positions;
use four_in_a_row::game_logic::{
    eval, get_legal, play, result, GameGlobals, GameState, Move, PaddedGameState, Player, Score,
};

#[test]
fn min_max_call_count() {
    let gg = GameGlobals::new(6, 7);
    let states = get_random_positions(42, 10, &gg);
    for state in states.iter() {
        for depth in 7..8 {
            let agent = MinMaxAgent::new_with_args(false, 0, depth, 6, 7).unwrap();
            agent.next_move(&state).unwrap();
        }
    }
}

/// The value of a state by a walk over every line of play to the given depth,
/// with no bounds, no table and no pruning.
fn exhaustive(gs: &GameState, depth: i32) -> Score {
    let here = eval(gs);
    match here {
        Score::Finite(_) => {}
        decided => return decided,
    }
    if depth == 0 {
        return here;
    }
    let maximizing = gs.turn() == Player::P1;
    let mut best = if maximizing { Score::NegInf } else { Score::PosInf };
    for mov in get_legal(gs) {
        let value = exhaustive(&play(mov, gs).unwrap(), depth - 1);
        best = if maximizing { best.larger(value) } else { best.smaller(value) };
    }
    best
}

fn searched(agent: &MinMaxAgent, gs: &GameState, depth: i32) -> Score {
    let padded = PaddedGameState::new_from_game_state(gs);
    let mut visited = TranspositionTable::new();
    agent.min_max(&padded, depth, Score::NegInf, Score::PosInf, &mut visited)
}

#[test]
fn search_agrees_with_the_exhaustive_walk_on_small_boards() {
    for (rows, cols) in [(4, 4), (4, 5), (5, 4), (5, 5)] {
        let game_globals = GameGlobals::new(rows, cols);
        let agent = MinMaxAgent::new_with_args(false, 0, 1, rows, cols).unwrap();
        let empty = GameState::new(&game_globals);
        for depth in 0..6 {
            assert_eq!(searched(&agent, &empty, depth), exhaustive(&empty, depth));
        }
        for gs in get_random_positions(8, 10, &game_globals) {
            for depth in 0..5 {
                assert_eq!(searched(&agent, &gs, depth), exhaustive(&gs, depth));
            }
        }
    }
}

#[test]
fn search_agrees_with_the_exhaustive_walk_on_the_full_size_board() {
    let game_globals = GameGlobals::new(6, 7);
    let agent = MinMaxAgent::new_with_args(false, 0, 1, 6, 7).unwrap();
    let empty = GameState::new(&game_globals);
    for depth in 0..4 {
        assert_eq!(searched(&agent, &empty, depth), exhaustive(&empty, depth));
    }
    for gs in get_random_positions(30, 20, &game_globals) {
        for depth in 0..4 {
            assert_eq!(searched(&agent, &gs, depth), exhaustive(&gs, depth));
        }
    }
}

#[test]
fn table_can_make_a_deep_search_miss_the_exhaustive_value() {
    // The table keeps what a walk without a cut has found, which within narrow
    // bounds can be a bound and not the value; where the same position comes
    // up again, the search takes it for the value.
    let agent = MinMaxAgent::new_with_args(false, 0, 1, 5, 5).unwrap();
    let gs = GameState::new_from_board(vec![
        vec![0, 0, 0, 0, 0],
        vec![0, 0, 0, 0, 0],
        vec![0, 0, 0, 0, 0],
        vec![0, 1, 1, 0, 0],
        vec![1, 2, 2, 2, 0],
    ]);
    assert_eq!(gs.turn(), Player::P1);
    assert_eq!(searched(&agent, &gs, 6), Score::Finite(1));
    assert_eq!(exhaustive(&gs, 6), Score::Finite(2));
    // Up to depth two the two agree on every board.
    for depth in 0..3 {
        assert_eq!(searched(&agent, &gs, depth), exhaustive(&gs, depth));
    }
}

#[test]
fn depth_one_on_the_empty_board() {
    let game_globals = GameGlobals::new(6, 7);
    let agent = MinMaxAgent::new_with_args(false, 0, 1, 6, 7).unwrap();
    let gs = GameState::new(&game_globals);
    let padded = PaddedGameState::new_from_game_state(&gs);
    for mov in get_legal(&gs) {
        let child = PaddedGameState::next(&padded, mov, &game_globals);
        let mut visited = TranspositionTable::new();
        let value = agent.min_max(&child, 1, Score::NegInf, Score::PosInf, &mut visited);
        match value {
            Score::Finite(_) => {}
            decided => panic!("column {} has the value {:?}", mov.col, decided),
        }
    }
    let first = agent.next_move(&gs).unwrap();
    assert!(get_legal(&gs).contains(&first));
    for _ in 0..5 {
        assert_eq!(agent.next_move(&gs).unwrap(), first);
    }
    // After a disc in the middle of the floor the second player can hold the
    // first to four lines more; the first column that does so is picked.
    assert_eq!(first, Move { row: 5, col: 3 });
}

#[test]
fn search_takes_a_win_and_stops_one() {
    let agent = MinMaxAgent::new_with_args(false, 0, 2, 6, 7).unwrap();
    let gs = GameState::new_from_board(vec![
        vec![0, 0, 0, 0, 0, 0, 0],
        vec![0, 0, 0, 0, 0, 0, 0],
        vec![0, 0, 0, 0, 0, 0, 0],
        vec![0, 0, 0, 0, 0, 0, 0],
        vec![2, 2, 2, 0, 0, 0, 0],
        vec![1, 1, 1, 0, 0, 0, 0],
    ]);
    assert_eq!(gs.turn(), Player::P1);
    assert_eq!(agent.next_move(&gs).unwrap(), Move { row: 5, col: 3 });
    let gs = GameState::new_from_board(vec![
        vec![0, 0, 0, 0, 0, 0, 0],
        vec![0, 0, 0, 0, 0, 0, 0],
        vec![0, 0, 0, 0, 0, 0, 0],
        vec![0, 0, 0, 0, 0, 0, 0],
        vec![2, 0, 0, 0, 0, 0, 0],
        vec![1, 1, 1, 0, 0, 0, 2],
    ]);
    assert_eq!(gs.turn(), Player::P2);
    assert_eq!(agent.next_move(&gs).unwrap(), Move { row: 5, col: 3 });
}

#[test]
fn search_returns_legal_moves() {
    let game_globals = GameGlobals::new(6, 7);
    for depth in 1..4 {
        let agent = MinMaxAgent::new_with_args(false, 0, depth, 6, 7).unwrap();
        for gs in get_random_positions(42, 30, &game_globals) {
            let mov = agent.next_move(&gs).unwrap();
            assert!(get_legal(&gs).contains(&mov));
            assert!(play(mov, &gs).is_some());
        }
    }
}

#[test]
fn shallow_search_picks_a_best_move() {
    let game_globals = GameGlobals::new(6, 7);
    let agent = MinMaxAgent::new_with_args(false, 0, 1, 6, 7).unwrap();
    let mut states = get_random_positions(42, 60, &game_globals);
    states.push(GameState::new(&game_globals));
    for gs in states.iter() {
        let picked = agent.next_move(gs).unwrap();
        let value = exhaustive(&play(picked, gs).unwrap(), 1);
        for mov in get_legal(gs) {
            let other = exhaustive(&play(mov, gs).unwrap(), 1);
            if gs.turn() == Player::P1 {
                assert!(!value.less_than(&other));
            } else {
                assert!(!other.less_than(&value));
            }
        }
    }
}

#[test]
fn decided_state_has_its_evaluation_at_any_depth() {
    let agent = MinMaxAgent::new_with_args(false, 0, 3, 6, 7).unwrap();
    let padded = PaddedGameState::new_from_board(vec![
        vec![0, 0, 0, 0, 0, 0, 0],
        vec![0, 0, 0, 0, 0, 0, 0],
        vec![1, 0, 0, 0, 0, 0, 0],
        vec![1, 2, 0, 0, 0, 0, 0],
        vec![1, 2, 0, 0, 0, 0, 0],
        vec![1, 2, 0, 0, 0, 0, 0],
    ]);
    let mut visited = TranspositionTable::new();
    assert_eq!(
        agent.min_max(&padded, 3, Score::NegInf, Score::PosInf, &mut visited),
        Score::PosInf
    );
    // A decided state is not kept in the table.
    assert_eq!(visited.get(&padded.gs), None);
}

#[test]
fn table_value_is_used_whatever_the_depth() {
    let game_globals = GameGlobals::new(6, 7);
    let agent = MinMaxAgent::new_with_args(false, 0, 3, 6, 7).unwrap();
    let padded = PaddedGameState::new(&game_globals);
    let mut visited = TranspositionTable::new();
    let shallow = agent.min_max(&padded, 1, Score::NegInf, Score::PosInf, &mut visited);
    assert_eq!(shallow, Score::Finite(7));
    assert_eq!(visited.get(&padded.gs), Some(shallow));
    let deep = agent.min_max(&padded, 3, Score::NegInf, Score::PosInf, &mut visited);
    assert_eq!(deep, shallow);
    // With an empty table the deeper search finds another value.
    assert_eq!(exhaustive(&padded.gs, 3), Score::Finite(9));
    assert_eq!(searched(&agent, &padded.gs, 3), Score::Finite(9));
    let mut fresh = TranspositionTable::new();
    fresh.insert(padded.gs.copy(), Score::Finite(-17));
    assert_eq!(
        agent.min_max(&padded, 2, Score::NegInf, Score::PosInf, &mut fresh),
        Score::Finite(-17)
    );
    fresh.insert(padded.gs.copy(), Score::Finite(5));
    assert_eq!(fresh.get(&padded.gs), Some(Score::Finite(5)));
    let other = play(Move { row: 5, col: 0 }, &padded.gs).unwrap();
    assert_eq!(fresh.get(&other), None);
}

#[test]
fn values_of_the_empty_board() {
    let game_globals = GameGlobals::new(6, 7);
    let agent = MinMaxAgent::new_with_args(false, 0, 1, 6, 7).unwrap();
    let gs = GameState::new(&game_globals);
    assert_eq!(searched(&agent, &gs, 0), Score::Finite(0));
    assert_eq!(searched(&agent, &gs, 1), Score::Finite(7));
    assert_eq!(searched(&agent, &gs, 2), Score::Finite(-3));
    assert_eq!(searched(&agent, &gs, 3), Score::Finite(9));
    assert_eq!(searched(&agent, &gs, 4), Score::Finite(-2));
    assert_eq!(searched(&agent, &gs, 5), Score::Finite(6));
}

#[test]
fn depth_zero_is_the_evaluation() {
    let game_globals = GameGlobals::new(6, 7);
    let agent = MinMaxAgent::new_with_args(false, 0, 1, 6, 7).unwrap();
    for gs in get_random_positions(42, 20, &game_globals) {
        let padded = PaddedGameState::new_from_game_state(&gs);
        let mut visited = TranspositionTable::new();
        assert_eq!(
            agent.min_max(&padded, 0, Score::NegInf, Score::PosInf, &mut visited),
            eval(&gs)
        );
    }
}

#[test]
fn agent_settings_are_checked() {
    assert!(MinMaxAgent::new_with_args(false, 0, 1, 6, 7).is_ok());
    assert!(MinMaxAgent::new_with_args(false, 0, 10, 6, 7).is_ok());
    assert!(MinMaxAgent::new_with_args(false, 5000, 10, 6, 7).is_ok());
    assert_eq!(
        MinMaxAgent::new_with_args(false, 0, 0, 6, 7).err(),
        Some(ConfigError::DepthOutOfRange)
    );
    assert_eq!(
        MinMaxAgent::new_with_args(false, 10, 11, 6, 7).err(),
        Some(ConfigError::DepthOutOfRange)
    );
    assert_eq!(
        MinMaxAgent::new_with_args(false, 10, -3, 6, 7).err(),
        Some(ConfigError::DepthOutOfRange)
    );
    assert!(MinMaxAgent::new_with_args(true, 1, 0, 6, 7).is_ok());
    assert!(MinMaxAgent::new_with_args(true, 600, 99, 6, 7).is_ok());
    assert_eq!(
        MinMaxAgent::new_with_args(true, 0, 5, 6, 7).err(),
        Some(ConfigError::TimeOutOfRange)
    );
    assert_eq!(
        MinMaxAgent::new_with_args(true, 601, 5, 6, 7).err(),
        Some(ConfigError::TimeOutOfRange)
    );
}

#[test]
fn time_is_up_after_a_seventh_of_the_time() {
    let agent = MinMaxAgent::new_with_args(true, 1, 0, 6, 7).unwrap();
    // 1000 / 7 = 142 milliseconds.
    assert!(!agent.time_is_up(0));
    assert!(!agent.time_is_up(142));
    assert!(agent.time_is_up(143));
    let agent = MinMaxAgent::new_with_args(true, 600, 0, 6, 7).unwrap();
    // 600000 / 7 = 85714 milliseconds.
    assert!(!agent.time_is_up(85714));
    assert!(agent.time_is_up(85715));
    assert!(agent.time_is_up(u128::MAX));
}

#[test]
fn round_of_a_timed_search_follows_the_reading() {
    let game_globals = GameGlobals::new(6, 7);
    let gs = GameState::new(&game_globals);
    let timed = MinMaxAgent::new_with_args(true, 1, 0, 6, 7).unwrap();
    let fixed = MinMaxAgent::new_with_args(false, 0, 2, 6, 7).unwrap();
    let held = Move { row: 5, col: 0 };
    let deeper = fixed.next_move(&gs).unwrap();
    assert_ne!(deeper, held);
    // A clock that cannot be read ends the search with an error.
    let broken = std::io::Error::new(std::io::ErrorKind::Other, "no clock");
    assert_eq!(timed.after_reading(&gs, held, 2, Err(broken)), Err(AgentError::Clock));
    // Beyond 1000 / 7 = 142 milliseconds the move of the last search stands.
    assert_eq!(timed.after_reading(&gs, held, 2, Ok(143)), Ok(Step::Stop(held)));
    assert_eq!(timed.after_reading(&gs, held, 2, Ok(u128::MAX)), Ok(Step::Stop(held)));
    // Up to there the next depth is searched.
    assert_eq!(timed.after_reading(&gs, held, 2, Ok(142)), Ok(Step::Deeper(deeper)));
    assert_eq!(timed.after_reading(&gs, held, 2, Ok(0)), Ok(Step::Deeper(deeper)));
}

#[test]
fn clock_error_becomes_the_error_of_the_agent() {
    assert_eq!(from_clock::<u128>(Ok(5)), Ok(5));
    let broken = std::io::Error::new(std::io::ErrorKind::Other, "no clock");
    assert_eq!(from_clock::<u128>(Err(broken)), Err(AgentError::Clock));
}

#[test]
fn timed_agent_returns_a_legal_move() {
    let game_globals = GameGlobals::new(6, 7);
    let agent = MinMaxAgent::new_with_args(true, 1, 0, 6, 7).unwrap();
    let gs = GameState::new(&game_globals);
    match agent.next_move(&gs) {
        Ok(mov) => assert!(get_legal(&gs).contains(&mov)),
        Err(AgentError::Clock) => panic!("the clock of the process cannot be read"),
    }
}

#[test]
fn random_mover_returns_a_legal_move() {
    let game_globals = GameGlobals::new(6, 7);
    let agent = RandomMover::new();
    let mut seen = Vec::new();
    for gs in get_random_positions(42, 50, &game_globals) {
        let mov = agent.next_move(&gs).unwrap();
        assert!(get_legal(&gs).contains(&mov));
    }
    let gs = GameState::new(&game_globals);
    for _ in 0..200 {
        let mov = agent.next_move(&gs).unwrap();
        assert!(get_legal(&gs).contains(&mov));
        if !seen.contains(&mov.col) {
            seen.push(mov.col);
        }
    }
    // Two hundred draws from seven columns do not all land in one.
    assert!(seen.len() > 1);
}

#[test]
fn asymmetry_count_is_zero_exactly_on_mirrored_boards() {
    let game_globals = GameGlobals::new(6, 7);
    let start = PaddedGameState::new(&game_globals);
    assert!(start.is_symmetrical());
    assert_eq!(start.unsymmetrical_count, 0);
    // The middle column of a board of odd width changes nothing.
    let middle = PaddedGameState::next(&start, Move { row: 5, col: 3 }, &game_globals);
    assert!(middle.is_symmetrical());
    // A disc on one side, then the same player's disc on the other side.
    let left = PaddedGameState::next(&middle, Move { row: 5, col: 0 }, &game_globals);
    assert_eq!(left.unsymmetrical_count, 1);
    assert!(!left.is_symmetrical());
    let back = PaddedGameState::next(&left, Move { row: 4, col: 3 }, &game_globals);
    assert_eq!(back.unsymmetrical_count, 1);
    let right = PaddedGameState::next(&back, Move { row: 5, col: 6 }, &game_globals);
    assert_eq!(right.gs.cell(5, 0), right.gs.cell(5, 6));
    assert_eq!(right.unsymmetrical_count, 0);
    assert!(right.is_symmetrical());
    assert_eq!(PaddedGameState::new_from_game_state(&right.gs).unsymmetrical_count, 0);
}

#[test]
fn board_of_even_width_has_no_middle_column() {
    let game_globals = GameGlobals::new(4, 4);
    let start = PaddedGameState::new(&game_globals);
    // Column 2 of four is no middle column: its mirror image is column 1.
    let one = PaddedGameState::next(&start, Move { row: 3, col: 2 }, &game_globals);
    assert_eq!(one.unsymmetrical_count, 1);
    assert!(!one.is_symmetrical());
    let two = PaddedGameState::next(&one, Move { row: 2, col: 2 }, &game_globals);
    assert_eq!(two.unsymmetrical_count, 2);
    let three = PaddedGameState::next(&two, Move { row: 3, col: 1 }, &game_globals);
    assert_eq!(three.unsymmetrical_count, 1);
    assert_eq!(PaddedGameState::new_from_game_state(&three.gs).unsymmetrical_count, 1);
    // On a board of odd width the middle column changes nothing.
    let game_globals = GameGlobals::new(4, 5);
    let start = PaddedGameState::new(&game_globals);
    let one = PaddedGameState::next(&start, Move { row: 3, col: 2 }, &game_globals);
    assert_eq!(one.unsymmetrical_count, 0);
}

#[test]
fn asymmetry_count_runs_ahead_on_contested_cells() {
    let game_globals = GameGlobals::new(6, 7);
    let start = PaddedGameState::new(&game_globals);
    let one = PaddedGameState::next(&start, Move { row: 5, col: 0 }, &game_globals);
    assert_eq!(one.unsymmetrical_count, 1);
    // The other player's disc on the mirrored cell: still one cell differs
    // from its mirror image, and the running count goes up.
    let two = PaddedGameState::next(&one, Move { row: 5, col: 6 }, &game_globals);
    assert_eq!(two.unsymmetrical_count, 2);
    assert!(!two.is_symmetrical());
    assert_eq!(PaddedGameState::new_from_game_state(&two.gs).unsymmetrical_count, 1);
}

#[test]
fn asymmetry_count_is_mismatched_plus_contested_cells() {
    let game_globals = GameGlobals::new(6, 7);
    for game in 0..40usize {
        let mut padded = PaddedGameState::new(&game_globals);
        let mut step = game;
        while result(&padded.gs).is_none() {
            let moves = get_legal(&padded.gs);
            step = step * 31 + 7;
            let mov = moves[step % moves.len()];
            padded = PaddedGameState::next(&padded, mov, &game_globals);
            let mut mismatched = 0;
            let mut contested = 0;
            for row in 0..6 {
                for col in 0..3 {
                    let here = padded.gs.cell(row, col);
                    let there = padded.gs.cell(row, 6 - col);
                    if here != there {
                        mismatched += 1;
                        if here.is_some() && there.is_some() {
                            contested += 1;
                        }
                    }
                }
            }
            assert_eq!(padded.unsymmetrical_count, mismatched + contested);
            assert_eq!(padded.is_symmetrical(), mismatched == 0);
            assert_eq!(padded.eval, eval(&padded.gs));
        }
    }
}

#[test]
fn asymmetry_count_follows_random_play() {
    let game_globals = GameGlobals::new(6, 7);
    for gs in get_random_positions(20, 100, &game_globals) {
        let padded = PaddedGameState::new_from_game_state(&gs);
        let mut mismatched = 0;
        for row in 0..6 {
            for col in 0..3 {
                if gs.cell(row, col) != gs.cell(row, 6 - col) {
                    mismatched += 1;
                }
            }
        }
        assert_eq!(padded.unsymmetrical_count, mismatched);
        assert_eq!(padded.is_symmetrical(), mismatched == 0);
        for mov in get_legal(&gs) {
            let next = PaddedGameState::next(&padded, mov, &game_globals);
            let again = PaddedGameState::new_from_game_state(&next.gs);
            assert_eq!(next.is_symmetrical(), again.is_symmetrical());
            assert!(next.unsymmetrical_count >= again.unsymmetrical_count);
            assert_eq!(next.eval, again.eval);
            assert_eq!(next.placed, again.placed);
            assert_eq!(result(&next.gs).is_some(), matches!(next.eval, Score::NegInf | Score::PosInf)
                || next.placed == 42);
        }
    }
}

#[test]
fn mirrored_board_is_searched_on_one_half() {
    // On a mirrored board the search looks at the first half of the moves,
    // and the value is that of the walk over all of them.
    let game_globals = GameGlobals::new(4, 4);
    let agent = MinMaxAgent::new_with_args(false, 0, 1, 4, 4).unwrap();
    let gs = GameState::new(&game_globals);
    let mov = agent.next_move(&gs).unwrap();
    assert!(mov.col < 2);
}
