use tools_2048::{Game, GameMove, GameState, GameResult, MoveOutcome, Error};
use tools_2048::board_transform;

fn board_sum(b: &Vec<Vec<u64>>) -> u64 {
    let mut total: u64 = 0;
    for row in b {
        for &cell in row {
            total += cell;
        }
    }
    total
}

fn tile_count(b: &Vec<Vec<u64>>) -> usize {
    let mut count: usize = 0;
    for row in b {
        for &cell in row {
            if cell != 0 {
                count += 1;
            }
        }
    }
    count
}

fn terminal_board() -> Vec<Vec<u64>> {
    vec![
        vec![2, 4, 2, 4],
        vec![4, 2, 4, 2],
        vec![2, 4, 2, 4],
        vec![4, 2, 4, 2],
    ]
}

#[test]
fn create_game_4() {
    let game = Game::new(4).unwrap();
    let game_default = Game::default();
    let game_from = Game::from_existing(game.board()).unwrap();

    assert_eq!(game.size(), 4);
    assert_eq!(game_default.size(), 4);
    assert_eq!(game_from.size(), 4);

    assert_eq!(game.score(), 0);
    assert_eq!(game_default.score(), 0);
    assert_eq!(game_from.score(), 0);

    assert_eq!(game.state(), GameState::InProgress);
    assert_eq!(game_default.state(), GameState::InProgress);
    assert_eq!(game_from.state(), GameState::InProgress);

    assert_eq!(game.result(), GameResult::Pending);
    assert_eq!(game_default.result(), GameResult::Pending);
    assert_eq!(game_from.result(), GameResult::Pending);
}

#[test]
fn create_game_5() {
    let game = Game::new(5).unwrap();
    let game_from = Game::from_existing(game.board()).unwrap();

    assert_eq!(game.size(), 5);
    assert_eq!(game_from.size(), 5);

    assert_eq!(game.score(), 0);
    assert_eq!(game_from.score(), 0);

    assert_eq!(game.state(), GameState::InProgress);
    assert_eq!(game_from.state(), GameState::InProgress);

    assert_eq!(game.result(), GameResult::Pending);
    assert_eq!(game_from.result(), GameResult::Pending);
}

#[test]
fn new_game_rejects_small_size() {
    assert_eq!(Game::new(3).unwrap_err(), Error::InvalidSize);
    assert_eq!(Game::new(0).unwrap_err(), Error::InvalidSize);
}

#[test]
fn new_game_spawns_one_tile() {
    let game = Game::new(4).unwrap();
    assert_eq!(tile_count(game.board()), 1);
    let sum = board_sum(game.board());
    assert!(sum == 2 || sum == 4);
}

#[test]
fn from_existing_rejects_value_one() {
    let board: Vec<Vec<u64>> = vec![
        vec![2, 1, 0, 0],
        vec![0, 0, 0, 0],
        vec![0, 0, 0, 0],
        vec![0, 0, 0, 0],
    ];
    assert_eq!(Game::from_existing(&board).unwrap_err(), Error::InvalidValue);
}

#[test]
fn from_existing_rejects_non_power() {
    let board: Vec<Vec<u64>> = vec![
        vec![2, 6, 0, 0],
        vec![0, 0, 0, 0],
        vec![0, 0, 0, 0],
        vec![0, 0, 0, 0],
    ];
    assert_eq!(Game::from_existing(&board).unwrap_err(), Error::InvalidValue);
}

#[test]
fn from_existing_rejects_non_square() {
    let board: Vec<Vec<u64>> = vec![
        vec![2, 0, 0, 0],
        vec![0, 0, 0],
        vec![0, 0, 0, 0],
        vec![0, 0, 0, 0],
    ];
    assert_eq!(Game::from_existing(&board).unwrap_err(), Error::InvalidBoard);
}

#[test]
fn from_existing_rejects_small_board() {
    let board: Vec<Vec<u64>> = vec![vec![2, 0, 0], vec![0, 0, 0], vec![0, 0, 0]];
    assert_eq!(Game::from_existing(&board).unwrap_err(), Error::InvalidSize);
}

#[test]
fn move_left_merges_and_scores() {
    let board: Vec<Vec<u64>> = vec![
        vec![2, 2, 0, 0],
        vec![0, 0, 0, 0],
        vec![0, 0, 0, 0],
        vec![0, 0, 0, 0],
    ];
    let (mid, delta, changed) = board_transform(&board, GameMove::Left);
    assert!(changed);
    assert_eq!(delta, 4);

    let mut game = Game::from_existing(&board).unwrap();
    let outcome = game.make_move(GameMove::Left).unwrap();
    assert_eq!(outcome, MoveOutcome::Moved);
    assert_eq!(game.score(), 4);
    assert_eq!(game.board()[0][0], 4);
    // exactly one tile spawned on top of the transformed board
    assert_eq!(tile_count(game.board()), tile_count(&mid) + 1);
    let spawned = board_sum(game.board()) - board_sum(&mid);
    assert!(spawned == 2 || spawned == 4);
}

#[test]
fn illegal_move_leaves_state_unchanged() {
    let board: Vec<Vec<u64>> = vec![
        vec![2, 4, 0, 0],
        vec![0, 0, 0, 0],
        vec![0, 0, 0, 0],
        vec![0, 0, 0, 0],
    ];
    // the first row is already compacted to the left and cannot merge
    let mut game = Game::from_existing(&board).unwrap();
    let before = game.board().clone();
    assert_eq!(game.make_move(GameMove::Left).unwrap_err(), Error::InvalidMove);
    assert_eq!(game.board(), &before);
    assert_eq!(game.score(), 0);
}

#[test]
fn full_board_without_neighbours_is_terminal() {
    let game = Game::from_existing(&terminal_board()).unwrap();
    assert!(game.is_terminal());
    assert_eq!(game.state(), GameState::GameOver);
    assert_eq!(game.result(), GameResult::Loss);
    assert!(game.legal_moves().is_empty());
    let mut game = game;
    for direction in [GameMove::Left, GameMove::Right, GameMove::Up, GameMove::Down] {
        assert_eq!(game.make_move(direction).unwrap_err(), Error::InvalidMove);
    }
}

#[test]
fn legal_moves_ordered_and_consistent() {
    let board: Vec<Vec<u64>> = vec![
        vec![0, 4, 2, 0],
        vec![0, 0, 0, 0],
        vec![0, 0, 0, 0],
        vec![0, 0, 0, 0],
    ];
    let game = Game::from_existing(&board).unwrap();
    let legal = game.legal_moves();
    // the tiles sit in the top row: every direction but Up moves them
    assert_eq!(legal, vec![GameMove::Left, GameMove::Right, GameMove::Down]);
    assert!(!game.is_terminal());
}

#[test]
fn victory_latches_once_reached() {
    let board: Vec<Vec<u64>> = vec![
        vec![1024, 1024, 0, 0],
        vec![0, 0, 0, 0],
        vec![0, 0, 0, 0],
        vec![0, 0, 0, 0],
    ];
    let mut game = Game::from_existing(&board).unwrap();
    assert_eq!(game.result(), GameResult::Pending);
    assert!(!game.is_won());
    let outcome = game.make_move(GameMove::Left).unwrap();
    assert_eq!(outcome, MoveOutcome::Victory);
    assert_eq!(game.result(), GameResult::Victory);
    assert!(game.is_won());
    assert_eq!(game.score(), 2048);
    // victory stays latched over later moves, which report Moved
    for _ in 0..5 {
        let legal = game.legal_moves();
        if legal.is_empty() {
            break;
        }
        let outcome = game.make_move(legal[0]).unwrap();
        assert_ne!(outcome, MoveOutcome::Victory);
        assert_eq!(game.result(), GameResult::Victory);
        assert!(game.is_won());
    }
}

#[test]
fn existing_winning_tile_is_recognised() {
    let board: Vec<Vec<u64>> = vec![
        vec![2048, 0, 0, 0],
        vec![0, 0, 0, 0],
        vec![0, 0, 0, 0],
        vec![0, 0, 0, 0],
    ];
    let game = Game::from_existing(&board).unwrap();
    assert_eq!(game.result(), GameResult::Victory);
    assert!(game.is_won());
    assert_eq!(game.score(), 0);
}

#[test]
fn score_accumulates_over_moves() {
    let board: Vec<Vec<u64>> = vec![
        vec![2, 2, 4, 4],
        vec![0, 0, 0, 0],
        vec![0, 0, 0, 0],
        vec![0, 0, 0, 0],
    ];
    let mut game = Game::from_existing(&board).unwrap();
    game.make_move(GameMove::Left).unwrap();
    assert_eq!(game.score(), 12);
    let before = game.score();
    let legal = game.legal_moves();
    game.make_move(legal[0]).unwrap();
    assert!(game.score() >= before);
}

#[test]
fn huge_merges_saturate_the_score() {
    let big: u64 = 1 << 62;
    let board: Vec<Vec<u64>> = vec![
        vec![big, big, big, big],
        vec![big, big, big, big],
        vec![big, big, big, big],
        vec![big, big, big, big],
    ];
    // every row merges into two tiles of 2^63; the exact delta, four
    // times 2^64, exceeds the u64 range and saturates
    let (mid, delta, changed) = board_transform(&board, GameMove::Left);
    assert!(changed);
    assert_eq!(delta, u64::MAX);
    assert_eq!(mid[0], vec![1 << 63, 1 << 63, 0, 0]);

    let mut game = Game::from_existing(&board).unwrap();
    game.make_move(GameMove::Left).unwrap();
    assert_eq!(game.score(), u64::MAX);
}

#[test]
fn move_index_round_trip() {
    for (index, direction) in [
        (0usize, GameMove::Left),
        (1, GameMove::Right),
        (2, GameMove::Up),
        (3, GameMove::Down),
    ] {
        assert_eq!(direction.index(), index);
        assert_eq!(GameMove::from_index(index), direction);
    }
}
