use tools_2048::{Game, GameMove, Error};
use tools_2048::{best_direction, rollout, rollout_batch, rollouts_per_worker};

fn one_legal_move_board() -> Vec<Vec<u64>> {
    // the empty top row can only be filled from below: Up is the single
    // legal direction
    vec![
        vec![0, 0, 0, 0],
        vec![2, 4, 2, 4],
        vec![4, 2, 4, 2],
        vec![2, 4, 2, 4],
    ]
}

fn terminal_board() -> Vec<Vec<u64>> {
    vec![
        vec![2, 4, 2, 4],
        vec![4, 2, 4, 2],
        vec![2, 4, 2, 4],
        vec![4, 2, 4, 2],
    ]
}

#[test]
fn single_legal_move_returned_without_rollouts() {
    let game = Game::from_existing(&one_legal_move_board()).unwrap();
    assert_eq!(game.legal_moves(), vec![GameMove::Up]);
    assert_eq!(game.find_best_move(1000).unwrap(), GameMove::Up);
}

#[test]
fn search_on_terminal_board_fails() {
    let game = Game::from_existing(&terminal_board()).unwrap();
    assert_eq!(game.find_best_move(1000).unwrap_err(), Error::NoValidMove);
}

#[test]
fn search_returns_a_legal_move() {
    let game = Game::new(4).unwrap();
    let best = game.find_best_move(8).unwrap();
    assert!(game.legal_moves().contains(&best));
}

#[test]
fn search_at_recommended_depth() {
    let game = Game::new(4).unwrap();
    let best = game.find_best_move(1000).unwrap();
    assert!(game.legal_moves().contains(&best));
}

#[test]
fn short_endgame_played_to_completion() {
    let board: Vec<Vec<u64>> = vec![
        vec![0, 4, 2, 4],
        vec![4, 2, 4, 2],
        vec![2, 4, 2, 4],
        vec![4, 2, 4, 2],
    ];
    let mut game = Game::from_existing(&board).unwrap();
    while let Ok(best) = game.find_best_move(20) {
        game.make_move(best).unwrap();
    }
    assert!(game.is_terminal());
}

#[test]
fn rollout_rejects_invalid_boards() {
    let small: Vec<Vec<u64>> = vec![vec![2, 0, 0], vec![0, 0, 0], vec![0, 0, 0]];
    assert_eq!(rollout(&small, GameMove::Left).unwrap_err(), Error::InvalidSize);
    let ragged: Vec<Vec<u64>> = vec![
        vec![2, 0, 0, 0],
        vec![0, 0, 0],
        vec![0, 0, 0, 0],
        vec![0, 0, 0, 0],
    ];
    assert_eq!(rollout(&ragged, GameMove::Left).unwrap_err(), Error::InvalidBoard);
    let bad_cell: Vec<Vec<u64>> = vec![
        vec![3, 0, 0, 0],
        vec![0, 0, 0, 0],
        vec![0, 0, 0, 0],
        vec![0, 0, 0, 0],
    ];
    assert_eq!(rollout(&bad_cell, GameMove::Left).unwrap_err(), Error::InvalidValue);
}

#[test]
fn rollout_accepts_valid_boards() {
    let board: Vec<Vec<u64>> = vec![
        vec![0, 4, 2, 4],
        vec![4, 2, 4, 2],
        vec![2, 4, 2, 4],
        vec![4, 2, 4, 2],
    ];
    assert!(rollout(&board, GameMove::Up).is_ok());
    assert!(rollout_batch(&board, GameMove::Up, 5).is_ok());
    // a playout that starts by merging the top-left pair scores at least
    // that merge
    let merging: Vec<Vec<u64>> = vec![
        vec![8, 8, 2, 4],
        vec![4, 2, 4, 2],
        vec![2, 4, 2, 4],
        vec![4, 2, 4, 2],
    ];
    let score = rollout(&merging, GameMove::Left).unwrap();
    assert!(score >= 16);
}

#[test]
fn rollouts_per_worker_rounds_up() {
    assert_eq!(rollouts_per_worker(1000, 4, 1), 250);
    assert_eq!(rollouts_per_worker(1000, 3, 1), 334);
    assert_eq!(rollouts_per_worker(1000, 2, 8), 63);
    assert_eq!(rollouts_per_worker(10, 4, 8), 1);
    assert_eq!(rollouts_per_worker(0, 2, 1), 1);
}

#[test]
fn best_direction_takes_maximum_with_fixed_tie_break() {
    let all = vec![true, true, true, true];
    assert_eq!(best_direction(&vec![5, 7, 7, 1], &all), GameMove::Right);
    assert_eq!(best_direction(&vec![4, 4, 4, 4], &all), GameMove::Left);
    assert_eq!(best_direction(&vec![0, 1, 2, 3], &all), GameMove::Down);
    let some = vec![true, false, true, true];
    assert_eq!(best_direction(&vec![3, 9, 2, 2], &some), GameMove::Left);
}
