use tools_2048::GameMove;
use tools_2048::board_transform;

fn board_sum(b: &Vec<Vec<u64>>) -> u64 {
    let mut total: u64 = 0;
    for row in b {
        for &cell in row {
            total += cell;
        }
    }
    total
}

#[test]
fn left_merges_leading_pair() {
    let board: Vec<Vec<u64>> = vec![
        vec![2, 2, 0, 0],
        vec![0, 0, 0, 0],
        vec![0, 0, 0, 0],
        vec![0, 0, 0, 0],
    ];
    let (next, delta, changed) = board_transform(&board, GameMove::Left);
    assert_eq!(next[0], vec![4, 0, 0, 0]);
    assert_eq!(next[1], vec![0, 0, 0, 0]);
    assert_eq!(delta, 4);
    assert!(changed);
}

#[test]
fn delta_sums_doubled_merges() {
    let board: Vec<Vec<u64>> = vec![
        vec![2, 2, 4, 4],
        vec![0, 0, 0, 0],
        vec![0, 0, 0, 0],
        vec![0, 0, 0, 0],
    ];
    let (next, delta, changed) = board_transform(&board, GameMove::Left);
    assert_eq!(next[0], vec![4, 8, 0, 0]);
    assert_eq!(delta, 12);
    assert!(changed);
}

#[test]
fn triple_merges_only_front_pair() {
    let board: Vec<Vec<u64>> = vec![
        vec![2, 2, 2, 0],
        vec![0, 0, 0, 0],
        vec![0, 0, 0, 0],
        vec![0, 0, 0, 0],
    ];
    let (next, delta, _) = board_transform(&board, GameMove::Left);
    assert_eq!(next[0], vec![4, 2, 0, 0]);
    assert_eq!(delta, 4);
    let (next_r, delta_r, _) = board_transform(&board, GameMove::Right);
    assert_eq!(next_r[0], vec![0, 0, 2, 4]);
    assert_eq!(delta_r, 4);
}

#[test]
fn vertical_slides_mirror_horizontal_ones() {
    let board: Vec<Vec<u64>> = vec![
        vec![2, 0, 0, 0],
        vec![2, 0, 0, 0],
        vec![4, 0, 0, 0],
        vec![0, 0, 0, 0],
    ];
    let (up, delta_up, changed_up) = board_transform(&board, GameMove::Up);
    assert_eq!(up[0][0], 4);
    assert_eq!(up[1][0], 4);
    assert_eq!(up[2][0], 0);
    assert_eq!(delta_up, 4);
    assert!(changed_up);
    let (down, delta_down, changed_down) = board_transform(&board, GameMove::Down);
    assert_eq!(down[3][0], 4);
    assert_eq!(down[2][0], 4);
    assert_eq!(down[1][0], 0);
    assert_eq!(delta_down, 4);
    assert!(changed_down);
}

#[test]
fn slide_preserves_cell_sum() {
    let board: Vec<Vec<u64>> = vec![
        vec![2, 2, 4, 8],
        vec![0, 4, 4, 0],
        vec![16, 0, 0, 16],
        vec![2, 0, 2, 2],
    ];
    let before = board_sum(&board);
    for direction in [GameMove::Left, GameMove::Right, GameMove::Up, GameMove::Down] {
        let (next, _, _) = board_transform(&board, direction);
        assert_eq!(board_sum(&next), before);
    }
}

#[test]
fn settled_direction_changes_nothing_twice() {
    let board: Vec<Vec<u64>> = vec![
        vec![0, 4, 2, 0],
        vec![0, 0, 0, 0],
        vec![0, 0, 0, 0],
        vec![0, 0, 0, 0],
    ];
    let (first, _, changed_first) = board_transform(&board, GameMove::Left);
    assert!(changed_first);
    assert_eq!(first[0], vec![4, 2, 0, 0]);
    let (second, delta_second, changed_second) = board_transform(&first, GameMove::Left);
    assert!(!changed_second);
    assert_eq!(second, first);
    assert_eq!(delta_second, 0);
}

#[test]
fn largest_tiles_no_longer_merge() {
    let top: u64 = 1 << 63;
    let board: Vec<Vec<u64>> = vec![
        vec![top, top, 0, 0],
        vec![0, 0, 0, 0],
        vec![0, 0, 0, 0],
        vec![0, 0, 0, 0],
    ];
    let (_, _, changed_left) = board_transform(&board, GameMove::Left);
    assert!(!changed_left);
    let (right, delta_right, changed_right) = board_transform(&board, GameMove::Right);
    assert!(changed_right);
    assert_eq!(delta_right, 0);
    assert_eq!(right[0], vec![0, 0, top, top]);
}
