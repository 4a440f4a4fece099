//! Board-level measures — cell sums, tile counts, cell validity, winning
//! tiles — and how the transition engine acts on them: a slide preserves
//! the sum over all cells, keeps tiles valid, and a changed board always
//! keeps at least one empty cell.

use vstd::prelude::*;
use crate::direction::GameMove;
use crate::transform::{
    WINNING_TILE, nonzeros, merged, merged_delta, pad, slid_line, line_delta,
    spec_can_merge, is_square, transpose, rows_slid, rows_slid_rev, spec_transform, spec_delta,
    spec_changed, rows_delta_upto, rows_delta_rev_upto, lemma_merged_len, lemma_nonzeros_len,
    lemma_slid_len, lemma_rows_delta_upto_nonneg, lemma_rows_delta_rev_upto_nonneg,
};

verus! {

/// The sum of the first `k` cells of a line.
pub open spec fn line_sum_upto(s: Seq<u64>, k: int) -> int
    decreases k,
{
    if k <= 0 {
        0
    } else {
        line_sum_upto(s, k - 1) + s[k - 1]
    }
}

/// The sum of all cells of a line.
pub open spec fn line_sum(s: Seq<u64>) -> int {
    line_sum_upto(s, s.len() as int)
}

/// The sum of all cells of the first `k` rows.
pub open spec fn board_sum_upto(b: Seq<Seq<u64>>, k: int) -> int
    decreases k,
{
    if k <= 0 {
        0
    } else {
        board_sum_upto(b, k - 1) + line_sum(b[k - 1])
    }
}

/// The sum over all cells of a board.
pub open spec fn board_sum(b: Seq<Seq<u64>>) -> int {
    board_sum_upto(b, b.len() as int)
}

/// The number of non-zero cells among the first `k` cells of a line.
pub open spec fn line_tiles_upto(s: Seq<u64>, k: int) -> int
    decreases k,
{
    if k <= 0 {
        0
    } else {
        line_tiles_upto(s, k - 1) + if s[k - 1] != 0 {
            1int
        } else {
            0int
        }
    }
}

/// The number of non-zero cells of a line.
pub open spec fn line_tiles(s: Seq<u64>) -> int {
    line_tiles_upto(s, s.len() as int)
}

/// The number of non-zero cells of the first `k` rows.
pub open spec fn board_tiles_upto(b: Seq<Seq<u64>>, k: int) -> int
    decreases k,
{
    if k <= 0 {
        0
    } else {
        board_tiles_upto(b, k - 1) + line_tiles(b[k - 1])
    }
}

/// The number of non-zero cells — the tile count — of a board.
pub open spec fn board_tiles(b: Seq<Seq<u64>>) -> int {
    board_tiles_upto(b, b.len() as int)
}

/// Whether some cell of the board is empty.
pub open spec fn has_empty_cell(b: Seq<Seq<u64>>) -> bool {
    exists|i: int, j: int|
        0 <= i < b.len() && 0 <= j < b[i].len() && b[i][j] == 0
}

/// Whether some cell of the board has reached the winning value.
pub open spec fn has_winning_tile(b: Seq<Seq<u64>>) -> bool {
    exists|i: int, j: int|
        0 <= i < b.len() && 0 <= j < b[i].len() && b[i][j] >= WINNING_TILE
}

/// Whether `v` is a power of two.
pub open spec fn is_power_of_two(v: int) -> bool
    decreases v,
{
    if v <= 1 {
        v == 1
    } else {
        v % 2 == 0 && is_power_of_two(v / 2)
    }
}

/// Whether `v` may stand in a cell: empty, or a power of two of at
/// least two.
pub open spec fn is_tile(v: u64) -> bool {
    v == 0 || (v >= 2 && is_power_of_two(v as int))
}

/// Whether every cell of the board holds a permissible value.
pub open spec fn all_tiles_valid(b: Seq<Seq<u64>>) -> bool {
    forall|i: int, j: int|
        0 <= i < b.len() && 0 <= j < b[i].len() ==> is_tile(#[trigger] b[i][j])
}

/// Whether a board is acceptable to build a game from: square, of side at
/// least four, with every cell valid.
pub open spec fn valid_board(b: Seq<Seq<u64>>) -> bool {
    b.len() >= 4 && is_square(b) && all_tiles_valid(b)
}

/// Prefix sums only read the prefix.
proof fn lemma_line_sum_upto_agree(s1: Seq<u64>, s2: Seq<u64>, k: int)
    requires
        forall|i: int| 0 <= i < k ==> s1[i] == s2[i],
    ensures
        line_sum_upto(s1, k) == line_sum_upto(s2, k),
        line_tiles_upto(s1, k) == line_tiles_upto(s2, k),
    decreases k,
{
    if k > 0 {
        lemma_line_sum_upto_agree(s1, s2, k - 1);
    }
}

/// Appending one cell adds its value to the sum.
proof fn lemma_line_sum_push(s: Seq<u64>, v: u64)
    ensures
        line_sum(s.push(v)) == line_sum(s) + v,
        line_tiles(s.push(v)) == line_tiles(s) + if v != 0 {
            1int
        } else {
            0int
        },
{
    lemma_line_sum_upto_agree(s.push(v), s, s.len() as int);
}

/// Concatenation adds the sums.
proof fn lemma_line_sum_concat(a: Seq<u64>, b: Seq<u64>)
    ensures
        line_sum(a + b) == line_sum(a) + line_sum(b),
        line_tiles(a + b) == line_tiles(a) + line_tiles(b),
    decreases b.len(),
{
    if b.len() == 0 {
        assert(a + b =~= a);
    } else {
        let b0 = b.drop_last();
        assert(a + b =~= (a + b0).push(b.last()));
        assert(b =~= b0.push(b.last()));
        lemma_line_sum_concat(a, b0);
        lemma_line_sum_push(a + b0, b.last());
        lemma_line_sum_push(b0, b.last());
    }
}

/// A one-cell line sums to its cell.
proof fn lemma_line_sum_single(v: u64)
    ensures
        line_sum(seq![v]) == v,
        line_tiles(seq![v]) == if v != 0 {
            1int
        } else {
            0int
        },
{
    assert(line_sum_upto(seq![v], 1) == line_sum_upto(seq![v], 0) + v);
    assert(line_tiles_upto(seq![v], 1) == line_tiles_upto(seq![v], 0) + if v != 0 {
        1int
    } else {
        0int
    });
}

/// Splitting off the first cell of a non-empty line.
proof fn lemma_line_sum_skip(s: Seq<u64>)
    requires
        s.len() >= 1,
    ensures
        line_sum(s) == s[0] + line_sum(s.skip(1)),
        line_tiles(s) == line_tiles(s.skip(1)) + if s[0] != 0 {
            1int
        } else {
            0int
        },
{
    assert(s =~= seq![s[0]] + s.skip(1));
    lemma_line_sum_concat(seq![s[0]], s.skip(1));
    lemma_line_sum_single(s[0]);
}

/// Compacting a line preserves its sum; its tile count equals the length
/// of the compaction.
proof fn lemma_nonzeros_sum(s: Seq<u64>)
    ensures
        line_sum(nonzeros(s)) == line_sum(s),
        line_tiles(s) == nonzeros(s).len(),
    decreases s.len(),
{
    if s.len() == 0 {
    } else {
        lemma_nonzeros_sum(s.skip(1));
        lemma_line_sum_skip(s);
        if s[0] == 0 {
        } else {
            lemma_line_sum_concat(seq![s[0]], nonzeros(s.skip(1)));
            lemma_line_sum_single(s[0]);
        }
    }
}

/// The merging pass preserves the sum of a line.
proof fn lemma_merged_sum(s: Seq<u64>)
    ensures
        line_sum(merged(s)) == line_sum(s),
    decreases s.len(),
{
    if s.len() >= 2 && s[0] == s[1] && spec_can_merge(s[0]) {
        lemma_merged_sum(s.skip(2));
        lemma_line_sum_concat(seq![(2 * s[0]) as u64], merged(s.skip(2)));
        lemma_line_sum_single((2 * s[0]) as u64);
        lemma_line_sum_skip(s);
        lemma_line_sum_skip(s.skip(1));
        assert(s.skip(1).skip(1) =~= s.skip(2));
        assert(s.skip(1)[0] == s[1]);
    } else if s.len() >= 1 {
        lemma_merged_sum(s.skip(1));
        lemma_line_sum_concat(seq![s[0]], merged(s.skip(1)));
        lemma_line_sum_single(s[0]);
        lemma_line_sum_skip(s);
    }
}

/// A run of zero cells sums to zero.
proof fn lemma_zero_seq_sum(n: nat)
    ensures
        line_sum(Seq::new(n, |i: int| 0u64)) == 0,
        line_tiles(Seq::new(n, |i: int| 0u64)) == 0,
    decreases n,
{
    if n > 0 {
        lemma_zero_seq_sum((n - 1) as nat);
        assert(Seq::new(n, |i: int| 0u64) =~= Seq::new((n - 1) as nat, |i: int| 0u64).push(0u64));
        lemma_line_sum_push(Seq::new((n - 1) as nat, |i: int| 0u64), 0u64);
    }
}

/// Zero-filling preserves the sum.
proof fn lemma_pad_sum(s: Seq<u64>, n: nat)
    ensures
        line_sum(pad(s, n)) == line_sum(s),
        line_tiles(pad(s, n)) == line_tiles(s),
{
    if s.len() < n {
        lemma_line_sum_concat(s, Seq::new((n - s.len()) as nat, |i: int| 0u64));
        lemma_zero_seq_sum((n - s.len()) as nat);
    }
}

/// Reversal preserves the sum.
proof fn lemma_reverse_sum(s: Seq<u64>)
    ensures
        line_sum(s.reverse()) == line_sum(s),
        line_tiles(s.reverse()) == line_tiles(s),
    decreases s.len(),
{
    if s.len() == 0 {
        assert(s.reverse() =~= s);
    } else {
        let s0 = s.drop_last();
        assert(s.reverse() =~= seq![s.last()] + s0.reverse());
        lemma_reverse_sum(s0);
        lemma_line_sum_concat(seq![s.last()], s0.reverse());
        lemma_line_sum_single(s.last());
        assert(s =~= s0.push(s.last()));
        lemma_line_sum_push(s0, s.last());
    }
}

/// One slid line keeps the sum of its cells.
proof fn lemma_slid_line_sum(line: Seq<u64>, n: nat)
    ensures
        line_sum(slid_line(line, n)) == line_sum(line),
{
    lemma_pad_sum(merged(nonzeros(line)), n);
    lemma_merged_sum(nonzeros(line));
    lemma_nonzeros_sum(line);
}

/// Boards whose rows sum alike sum alike.
proof fn lemma_board_sum_pointwise(b1: Seq<Seq<u64>>, b2: Seq<Seq<u64>>, k: int)
    requires
        forall|i: int|
            0 <= i < k ==> line_sum(#[trigger] b1[i]) == line_sum(#[trigger] b2[i]),
    ensures
        board_sum_upto(b1, k) == board_sum_upto(b2, k),
    decreases k,
{
    if k > 0 {
        lemma_board_sum_pointwise(b1, b2, k - 1);
    }
}

/// Sliding all rows towards either end preserves the board sum.
proof fn lemma_rows_slid_sum(b: Seq<Seq<u64>>)
    ensures
        board_sum(rows_slid(b)) == board_sum(b),
        board_sum(rows_slid_rev(b)) == board_sum(b),
{
    let n = b.len();
    assert forall|i: int| 0 <= i < n implies line_sum(#[trigger] rows_slid(b)[i]) == line_sum(
        #[trigger] b[i],
    ) by {
        lemma_slid_line_sum(b[i], n);
    }
    lemma_board_sum_pointwise(rows_slid(b), b, n as int);
    assert forall|i: int| 0 <= i < n implies line_sum(#[trigger] rows_slid_rev(b)[i]) == line_sum(
        #[trigger] b[i],
    ) by {
        lemma_reverse_sum(slid_line(b[i].reverse(), n));
        lemma_slid_line_sum(b[i].reverse(), n);
        lemma_reverse_sum(b[i]);
    }
    lemma_board_sum_pointwise(rows_slid_rev(b), b, n as int);
}

/// The column `j` of a board, top to bottom.
spec fn col_seq(b: Seq<Seq<u64>>, j: int) -> Seq<u64> {
    Seq::new(b.len(), |i: int| b[i][j])
}

/// The summed columns of `b`, over the first `k` columns.
spec fn cols_sum_upto(b: Seq<Seq<u64>>, k: int) -> int
    decreases k,
{
    if k <= 0 {
        0
    } else {
        cols_sum_upto(b, k - 1) + line_sum(col_seq(b, k - 1))
    }
}

/// Splitting off the first row of a non-empty board.
proof fn lemma_board_sum_skip(b: Seq<Seq<u64>>, k: int)
    requires
        1 <= k <= b.len(),
    ensures
        board_sum_upto(b, k) == line_sum(b[0]) + board_sum_upto(b.skip(1), k - 1),
        board_tiles_upto(b, k) == line_tiles(b[0]) + board_tiles_upto(b.skip(1), k - 1),
    decreases k,
{
    if k == 1 {
        assert(board_sum_upto(b, 1) == board_sum_upto(b, 0) + line_sum(b[0]));
        assert(board_sum_upto(b.skip(1), 0) == 0);
        assert(board_tiles_upto(b, 1) == board_tiles_upto(b, 0) + line_tiles(b[0]));
        assert(board_tiles_upto(b.skip(1), 0) == 0);
    } else {
        lemma_board_sum_skip(b, k - 1);
        assert(b.skip(1)[k - 2] == b[k - 1]);
    }
}

/// Summing the first `k` columns of a board row by row.
proof fn lemma_cols_sum_split(b: Seq<Seq<u64>>, m: int, k: int)
    requires
        b.len() >= 1,
        forall|i: int| 0 <= i < b.len() ==> (#[trigger] b[i]).len() == m,
        0 <= k <= m,
    ensures
        cols_sum_upto(b, k) == line_sum_upto(b[0], k) + cols_sum_upto(b.skip(1), k),
    decreases k,
{
    if k > 0 {
        lemma_cols_sum_split(b, m, k - 1);
        assert(col_seq(b, k - 1) =~= seq![b[0][k - 1]] + col_seq(b.skip(1), k - 1));
        lemma_line_sum_concat(seq![b[0][k - 1]], col_seq(b.skip(1), k - 1));
        lemma_line_sum_single(b[0][k - 1]);
    }
}

/// Summing a rectangular board by columns equals summing it by rows.
proof fn lemma_cols_sum_eq_board_sum(b: Seq<Seq<u64>>, m: int)
    requires
        forall|i: int| 0 <= i < b.len() ==> (#[trigger] b[i]).len() == m,
        m >= 0,
    ensures
        cols_sum_upto(b, m) == board_sum(b),
    decreases b.len(),
{
    if b.len() == 0 {
        lemma_cols_sum_empty(b, m);
    } else {
        lemma_cols_sum_split(b, m, m);
        lemma_cols_sum_eq_board_sum(b.skip(1), m);
        lemma_board_sum_skip(b, b.len() as int);
        assert(line_sum_upto(b[0], m) == line_sum(b[0]));
    }
}

/// A board without rows has empty columns, which sum to zero.
proof fn lemma_cols_sum_empty(b: Seq<Seq<u64>>, k: int)
    requires
        b.len() == 0,
    ensures
        cols_sum_upto(b, k) == 0,
    decreases k,
{
    if k > 0 {
        lemma_cols_sum_empty(b, k - 1);
        assert(col_seq(b, k - 1) =~= Seq::<u64>::empty());
    }
}

/// Transposition preserves the board sum.
proof fn lemma_transpose_sum(b: Seq<Seq<u64>>)
    requires
        is_square(b),
    ensures
        board_sum(transpose(b)) == board_sum(b),
{
    let n = b.len() as int;
    assert forall|j: int| 0 <= j < n implies line_sum(#[trigger] transpose(b)[j]) == line_sum(
        col_seq(b, j),
    ) by {
        assert(transpose(b)[j] =~= col_seq(b, j));
    }
    assert forall|k: int| 0 <= k <= n implies board_sum_upto(transpose(b), k) == cols_sum_upto(
        b,
        k,
    ) by {
        lemma_transpose_sum_upto(b, k);
    }
    lemma_cols_sum_eq_board_sum(b, n);
}

/// Row sums of the transpose are column sums of the board.
proof fn lemma_transpose_sum_upto(b: Seq<Seq<u64>>, k: int)
    requires
        0 <= k <= b.len(),
    ensures
        board_sum_upto(transpose(b), k) == cols_sum_upto(b, k),
    decreases k,
{
    if k > 0 {
        lemma_transpose_sum_upto(b, k - 1);
        assert(transpose(b)[k - 1] =~= col_seq(b, k - 1));
    }
}

/// The shape of a transformed board: as square as the board itself.
pub proof fn lemma_transform_shape(b: Seq<Seq<u64>>, m: GameMove)
    requires
        is_square(b),
    ensures
        spec_transform(b, m).len() == b.len(),
        is_square(spec_transform(b, m)),
{
    let n = b.len();
    assert forall|i: int| 0 <= i < n implies (#[trigger] rows_slid(b)[i]).len() == n by {
        lemma_slid_len(b[i], n);
    }
    assert forall|i: int| 0 <= i < n implies (#[trigger] rows_slid_rev(b)[i]).len() == n by {
        lemma_slid_len(b[i].reverse(), n);
    }
    assert(is_square(transpose(b)));
    assert forall|i: int| 0 <= i < n implies (#[trigger] rows_slid(transpose(b))[i]).len()
        == n by {
        lemma_slid_len(transpose(b)[i], n);
    }
    assert forall|i: int| 0 <= i < n implies (#[trigger] rows_slid_rev(transpose(b))[i]).len()
        == n by {
        lemma_slid_len(transpose(b)[i].reverse(), n);
    }
    assert(is_square(spec_transform(b, m))) by {
        match m {
            GameMove::Left => {},
            GameMove::Right => {},
            GameMove::Up => {},
            GameMove::Down => {},
        }
    }
}

/// Prefix measures of a line after updating one cell.
proof fn lemma_line_sum_upto_update(s: Seq<u64>, j: int, v: u64, k: int)
    requires
        0 <= j < s.len(),
        k <= s.len(),
    ensures
        k <= j ==> line_sum_upto(s.update(j, v), k) == line_sum_upto(s, k)
            && line_tiles_upto(s.update(j, v), k) == line_tiles_upto(s, k),
        k > j ==> line_sum_upto(s.update(j, v), k) == line_sum_upto(s, k) - s[j] + v
            && line_tiles_upto(s.update(j, v), k) == line_tiles_upto(s, k) - (
        if s[j] != 0 {
            1int
        } else {
            0int
        }) + (
        if v != 0 {
            1int
        } else {
            0int
        }),
    decreases k,
{
    if k > 0 {
        lemma_line_sum_upto_update(s, j, v, k - 1);
    }
}

/// Measures of a line after updating one cell.
proof fn lemma_line_update(s: Seq<u64>, j: int, v: u64)
    requires
        0 <= j < s.len(),
    ensures
        line_sum(s.update(j, v)) == line_sum(s) - s[j] + v,
        line_tiles(s.update(j, v)) == line_tiles(s) - (
        if s[j] != 0 {
            1int
        } else {
            0int
        }) + (
        if v != 0 {
            1int
        } else {
            0int
        }),
{
    lemma_line_sum_upto_update(s, j, v, s.len() as int);
}

/// Prefix measures of a board after replacing one row.
proof fn lemma_board_sum_upto_update(b: Seq<Seq<u64>>, i: int, row: Seq<u64>, k: int)
    requires
        0 <= i < b.len(),
        k <= b.len(),
    ensures
        k <= i ==> board_sum_upto(b.update(i, row), k) == board_sum_upto(b, k)
            && board_tiles_upto(b.update(i, row), k) == board_tiles_upto(b, k),
        k > i ==> board_sum_upto(b.update(i, row), k) == board_sum_upto(b, k) - line_sum(b[i])
            + line_sum(row) && board_tiles_upto(b.update(i, row), k) == board_tiles_upto(b, k)
            - line_tiles(b[i]) + line_tiles(row),
    decreases k,
{
    if k > 0 {
        lemma_board_sum_upto_update(b, i, row, k - 1);
    }
}

/// Measures of a board after updating one cell.
pub proof fn lemma_board_cell_update(b: Seq<Seq<u64>>, i: int, j: int, v: u64)
    requires
        0 <= i < b.len(),
        0 <= j < b[i].len(),
    ensures
        board_sum(b.update(i, b[i].update(j, v))) == board_sum(b) - b[i][j] + v,
        board_tiles(b.update(i, b[i].update(j, v))) == board_tiles(b) - (
        if b[i][j] != 0 {
            1int
        } else {
            0int
        }) + (
        if v != 0 {
            1int
        } else {
            0int
        }),
{
    lemma_line_update(b[i], j, v);
    lemma_board_sum_upto_update(b, i, b[i].update(j, v), b.len() as int);
}

/// Bounds on prefix sums of a line.
proof fn lemma_line_sum_upto_bound(s: Seq<u64>, k: int)
    requires
        0 <= k <= s.len(),
    ensures
        0 <= line_sum_upto(s, k) <= k * (u64::MAX as int),
    decreases k,
{
    if k > 0 {
        lemma_line_sum_upto_bound(s, k - 1);
    }
}

/// The sum over all cells of a square board is bounded by the cell count
/// times the largest cell value.
pub proof fn lemma_board_sum_bound(b: Seq<Seq<u64>>)
    requires
        is_square(b),
    ensures
        0 <= board_sum(b) <= b.len() * b.len() * (u64::MAX as int),
{
    let n = b.len() as int;
    let m = u64::MAX as int;
    lemma_board_sum_upto_bound(b, n);
    assert(n * (n * m) == n * n * m) by (nonlinear_arith);
}

/// Bounds on prefix sums of a square board.
proof fn lemma_board_sum_upto_bound(b: Seq<Seq<u64>>, k: int)
    requires
        is_square(b),
        0 <= k <= b.len(),
    ensures
        0 <= board_sum_upto(b, k) <= k * (b.len() * (u64::MAX as int)),
    decreases k,
{
    let n = b.len() as int;
    if k > 0 {
        lemma_board_sum_upto_bound(b, k - 1);
        lemma_line_sum_upto_bound(b[k - 1], b[k - 1].len() as int);
        assert((k - 1) * (n * (u64::MAX as int)) + n * (u64::MAX as int) == k * (n * (
        u64::MAX as int))) by (nonlinear_arith);
    }
}

/// A merging pass that shortens nothing merged nothing.
proof fn lemma_merged_full(s: Seq<u64>)
    requires
        merged(s).len() == s.len(),
    ensures
        merged(s) == s,
    decreases s.len(),
{
    if s.len() >= 2 && s[0] == s[1] && spec_can_merge(s[0]) {
        lemma_merged_len(s.skip(2));
        assert(false);
    } else if s.len() >= 1 {
        lemma_merged_full(s.skip(1));
        assert(merged(s) =~= s);
    } else {
        assert(merged(s) =~= s);
    }
}

/// A compaction that shortens nothing moved nothing.
proof fn lemma_nonzeros_full(s: Seq<u64>)
    requires
        nonzeros(s).len() == s.len(),
    ensures
        nonzeros(s) == s,
    decreases s.len(),
{
    if s.len() == 0 {
        assert(nonzeros(s) =~= s);
    } else if s[0] == 0 {
        lemma_nonzeros_len(s.skip(1));
        assert(false);
    } else {
        lemma_nonzeros_full(s.skip(1));
        assert(nonzeros(s) =~= s);
    }
}

/// A slid line without empty cells is the line itself.
proof fn lemma_slid_full_identity(line: Seq<u64>, n: nat)
    requires
        line.len() == n,
        forall|k: int| 0 <= k < slid_line(line, n).len() ==> slid_line(line, n)[k] != 0,
    ensures
        slid_line(line, n) == line,
{
    let nz = nonzeros(line);
    let m = merged(nz);
    lemma_nonzeros_len(line);
    lemma_merged_len(nz);
    lemma_slid_len(line, n);
    if m.len() < n {
        assert(slid_line(line, n)[m.len() as int] == 0);
        assert(false);
    }
    lemma_merged_full(nz);
    lemma_nonzeros_full(line);
}

/// Transposing twice gives the board back.
pub proof fn lemma_transpose_involution(b: Seq<Seq<u64>>)
    requires
        is_square(b),
    ensures
        transpose(transpose(b)) == b,
{
    let n = b.len() as int;
    assert forall|i: int| 0 <= i < n implies #[trigger] transpose(transpose(b))[i] == b[i] by {
        assert(transpose(transpose(b))[i] =~= b[i]);
    }
    assert(transpose(transpose(b)) =~= b);
}

/// A transform whose result has no empty cell changed nothing.
proof fn lemma_full_transform_unchanged(b: Seq<Seq<u64>>, m: GameMove)
    requires
        is_square(b),
        !has_empty_cell(spec_transform(b, m)),
    ensures
        !spec_changed(b, m),
{
    let n = b.len() as nat;
    lemma_transform_shape(b, m);
    let r = spec_transform(b, m);
    assert forall|i: int, j: int| 0 <= i < r.len() && 0 <= j < r[i].len() implies r[i][j]
        != 0 by {
        if r[i][j] == 0 {
            assert(has_empty_cell(r));
        }
    }
    match m {
        GameMove::Left => {
            assert forall|i: int| 0 <= i < n implies #[trigger] rows_slid(b)[i] == b[i] by {
                lemma_slid_len(b[i], n);
                assert(forall|k: int|
                    0 <= k < slid_line(b[i], n).len() ==> #[trigger] slid_line(b[i], n)[k] == r[i][k]);
                lemma_slid_full_identity(b[i], n);
            }
            assert(rows_slid(b) =~= b);
        },
        GameMove::Right => {
            assert forall|i: int| 0 <= i < n implies #[trigger] rows_slid_rev(b)[i] == b[i] by {
                lemma_slid_len(b[i].reverse(), n);
                let s = slid_line(b[i].reverse(), n);
                assert(forall|k: int| 0 <= k < n ==> #[trigger] s.reverse()[k] == r[i][k]);
                assert(forall|k: int| 0 <= k < n ==> s[k] == s.reverse()[n - 1 - k]);
                lemma_slid_full_identity(b[i].reverse(), n);
                assert(b[i].reverse().reverse() =~= b[i]);
            }
            assert(rows_slid_rev(b) =~= b);
        },
        GameMove::Up => {
            let t = transpose(b);
            let x = rows_slid(t);
            lemma_transform_shape(t, GameMove::Left);
            assert forall|i: int| 0 <= i < n implies #[trigger] x[i] == t[i] by {
                lemma_slid_len(t[i], n);
                assert forall|k: int| 0 <= k < n implies #[trigger] slid_line(t[i], n)[k]
                    != 0 by {
                    assert(r[k].len() == n);
                    assert(r[k][i] == x[i][k]);
                    assert(r[k][i] != 0);
                }
                lemma_slid_full_identity(t[i], n);
            }
            assert(x =~= t);
            lemma_transpose_involution(b);
        },
        GameMove::Down => {
            let t = transpose(b);
            let x = rows_slid_rev(t);
            lemma_transform_shape(t, GameMove::Right);
            assert forall|i: int| 0 <= i < n implies #[trigger] x[i] == t[i] by {
                lemma_slid_len(t[i].reverse(), n);
                let s = slid_line(t[i].reverse(), n);
                assert forall|k: int| 0 <= k < n implies #[trigger] s[k] != 0 by {
                    assert(r[n - 1 - k].len() == n);
                    assert(r[n - 1 - k][i] == x[i][n - 1 - k]);
                    assert(x[i][n - 1 - k] == s.reverse()[n - 1 - k]);
                    assert(s.reverse()[n - 1 - k] == s[k]);
                    assert(r[n - 1 - k][i] != 0);
                }
                lemma_slid_full_identity(t[i].reverse(), n);
                assert(t[i].reverse().reverse() =~= t[i]);
            }
            assert(x =~= t);
            lemma_transpose_involution(b);
        },
    }
}

/// A changed board always keeps at least one empty cell, so a tile can be
/// spawned after every legal move.
pub proof fn lemma_changed_has_empty(b: Seq<Seq<u64>>, m: GameMove)
    requires
        is_square(b),
        spec_changed(b, m),
    ensures
        has_empty_cell(spec_transform(b, m)),
{
    if !has_empty_cell(spec_transform(b, m)) {
        lemma_full_transform_unchanged(b, m);
    }
}

/// Doubling a mergeable valid tile yields a valid tile.
proof fn lemma_tile_double(v: u64)
    requires
        is_tile(v),
        spec_can_merge(v),
    ensures
        is_tile((2 * v) as u64),
{
    assert((2 * v) as u64 == 2 * (v as int));
    assert(is_power_of_two(2 * (v as int)));
}

/// The compaction of a line of valid tiles holds valid tiles.
proof fn lemma_nonzeros_tiles_valid(s: Seq<u64>)
    requires
        forall|i: int| 0 <= i < s.len() ==> is_tile(#[trigger] s[i]),
    ensures
        forall|i: int| 0 <= i < nonzeros(s).len() ==> is_tile(#[trigger] nonzeros(s)[i]),
    decreases s.len(),
{
    if s.len() > 0 {
        assert(forall|i: int| 0 <= i < s.skip(1).len() ==> is_tile(#[trigger] s.skip(1)[i]));
        lemma_nonzeros_tiles_valid(s.skip(1));
        if s[0] != 0 {
            assert forall|i: int| 0 <= i < nonzeros(s).len() implies is_tile(
                #[trigger] nonzeros(s)[i],
            ) by {
                if i > 0 {
                    assert(nonzeros(s)[i] == nonzeros(s.skip(1))[i - 1]);
                }
            }
        }
    }
}

/// The merging pass of a line of valid tiles yields valid tiles.
proof fn lemma_merged_tiles_valid(s: Seq<u64>)
    requires
        forall|i: int| 0 <= i < s.len() ==> is_tile(#[trigger] s[i]),
    ensures
        forall|i: int| 0 <= i < merged(s).len() ==> is_tile(#[trigger] merged(s)[i]),
    decreases s.len(),
{
    if s.len() >= 2 && s[0] == s[1] && spec_can_merge(s[0]) {
        assert(forall|i: int| 0 <= i < s.skip(2).len() ==> is_tile(#[trigger] s.skip(2)[i]));
        lemma_merged_tiles_valid(s.skip(2));
        lemma_tile_double(s[0]);
        assert forall|i: int| 0 <= i < merged(s).len() implies is_tile(
            #[trigger] merged(s)[i],
        ) by {
            if i == 0 {
                assert(merged(s)[0] == (2 * s[0]) as u64);
            } else {
                assert(merged(s)[i] == merged(s.skip(2))[i - 1]);
            }
        }
    } else if s.len() >= 1 {
        assert(forall|i: int| 0 <= i < s.skip(1).len() ==> is_tile(#[trigger] s.skip(1)[i]));
        lemma_merged_tiles_valid(s.skip(1));
        assert forall|i: int| 0 <= i < merged(s).len() implies is_tile(
            #[trigger] merged(s)[i],
        ) by {
            if i > 0 {
                assert(merged(s)[i] == merged(s.skip(1))[i - 1]);
            }
        }
    }
}

/// A slid line of valid tiles holds valid tiles.
proof fn lemma_slid_tiles_valid(line: Seq<u64>, n: nat)
    requires
        forall|j: int| 0 <= j < line.len() ==> is_tile(#[trigger] line[j]),
    ensures
        forall|j: int| 0 <= j < slid_line(line, n).len() ==> is_tile(#[trigger] slid_line(line, n)[j]),
{
    lemma_nonzeros_tiles_valid(line);
    lemma_merged_tiles_valid(nonzeros(line));
}

/// Every cell of a transformed board is again empty or a power of two of
/// at least two.
pub proof fn lemma_transform_valid(b: Seq<Seq<u64>>, m: GameMove)
    requires
        is_square(b),
        all_tiles_valid(b),
    ensures
        all_tiles_valid(spec_transform(b, m)),
{
    let n = b.len() as nat;
    lemma_transform_shape(b, m);
    let r = spec_transform(b, m);
    assert(all_tiles_valid(transpose(b)));
    match m {
        GameMove::Left => {
            assert forall|i: int, j: int| 0 <= i < r.len() && 0 <= j < r[i].len() implies is_tile(
                #[trigger] r[i][j],
            ) by {
                lemma_slid_tiles_valid(b[i], n);
            }
        },
        GameMove::Right => {
            assert forall|i: int, j: int| 0 <= i < r.len() && 0 <= j < r[i].len() implies is_tile(
                #[trigger] r[i][j],
            ) by {
                assert(forall|k: int|
                    0 <= k < b[i].len() ==> #[trigger] b[i].reverse()[k] == b[i][b[i].len() - 1
                        - k]);
                lemma_slid_tiles_valid(b[i].reverse(), n);
                let s = slid_line(b[i].reverse(), n);
                lemma_slid_len(b[i].reverse(), n);
                assert(r[i][j] == s.reverse()[j]);
                assert(s.reverse()[j] == s[n - 1 - j]);
            }
        },
        GameMove::Up => {
            let t = transpose(b);
            assert forall|i: int, j: int| 0 <= i < r.len() && 0 <= j < r[i].len() implies is_tile(
                #[trigger] r[i][j],
            ) by {
                lemma_transform_shape(t, GameMove::Left);
                assert(r[i][j] == rows_slid(t)[j][i]);
                lemma_slid_tiles_valid(t[j], n);
            }
        },
        GameMove::Down => {
            let t = transpose(b);
            assert forall|i: int, j: int| 0 <= i < r.len() && 0 <= j < r[i].len() implies is_tile(
                #[trigger] r[i][j],
            ) by {
                lemma_transform_shape(t, GameMove::Right);
                assert(r[i][j] == rows_slid_rev(t)[j][i]);
                assert(forall|k: int|
                    0 <= k < t[j].len() ==> #[trigger] t[j].reverse()[k] == t[j][t[j].len() - 1
                        - k]);
                lemma_slid_tiles_valid(t[j].reverse(), n);
                let s = slid_line(t[j].reverse(), n);
                lemma_slid_len(t[j].reverse(), n);
                assert(rows_slid_rev(t)[j][i] == s.reverse()[i]);
                assert(s.reverse()[i] == s[n - 1 - i]);
            }
        },
    }
}

/// A compaction keeps a tile at least as large as any given cell.
proof fn lemma_nonzeros_keeps_big(s: Seq<u64>, i0: int, w: u64)
    requires
        0 <= i0 < s.len(),
        s[i0] >= w,
        w >= 1,
    ensures
        exists|k: int| 0 <= k < nonzeros(s).len() && nonzeros(s)[k] >= w,
    decreases s.len(),
{
    if s[0] == 0 {
        lemma_nonzeros_keeps_big(s.skip(1), i0 - 1, w);
        let k = choose|k: int| 0 <= k < nonzeros(s.skip(1)).len() && nonzeros(s.skip(1))[k] >= w;
        assert(nonzeros(s)[k] >= w);
    } else if i0 == 0 {
        assert(nonzeros(s)[0] >= w);
    } else {
        lemma_nonzeros_keeps_big(s.skip(1), i0 - 1, w);
        let k = choose|k: int| 0 <= k < nonzeros(s.skip(1)).len() && nonzeros(s.skip(1))[k] >= w;
        assert(nonzeros(s)[k + 1] >= w);
    }
}

/// A merging pass keeps a tile at least as large as any given cell.
proof fn lemma_merged_keeps_big(s: Seq<u64>, i0: int, w: u64)
    requires
        0 <= i0 < s.len(),
        s[i0] >= w,
    ensures
        exists|k: int| 0 <= k < merged(s).len() && merged(s)[k] >= w,
    decreases s.len(),
{
    if s.len() >= 2 && s[0] == s[1] && spec_can_merge(s[0]) {
        if i0 <= 1 {
            assert(merged(s)[0] == (2 * s[0]) as u64);
            assert((2 * s[0]) as u64 >= s[0]);
            assert(merged(s)[0] >= w);
        } else {
            lemma_merged_keeps_big(s.skip(2), i0 - 2, w);
            let k = choose|k: int| 0 <= k < merged(s.skip(2)).len() && merged(s.skip(2))[k] >= w;
            assert(merged(s)[k + 1] >= w);
        }
    } else if i0 == 0 {
        assert(merged(s)[0] >= w);
    } else {
        lemma_merged_keeps_big(s.skip(1), i0 - 1, w);
        let k = choose|k: int| 0 <= k < merged(s.skip(1)).len() && merged(s.skip(1))[k] >= w;
        assert(merged(s)[k + 1] >= w);
    }
}

/// A slid line keeps a tile at least as large as any given cell.
proof fn lemma_slid_keeps_big(line: Seq<u64>, n: nat, j0: int, w: u64)
    requires
        0 <= j0 < line.len(),
        line[j0] >= w,
        w >= 1,
    ensures
        exists|k: int| 0 <= k < slid_line(line, n).len() && slid_line(line, n)[k] >= w,
{
    lemma_nonzeros_keeps_big(line, j0, w);
    let k1 = choose|k: int| 0 <= k < nonzeros(line).len() && nonzeros(line)[k] >= w;
    lemma_merged_keeps_big(nonzeros(line), k1, w);
    let k2 = choose|k: int| 0 <= k < merged(nonzeros(line)).len() && merged(nonzeros(line))[k] >= w;
    assert(slid_line(line, n)[k2] >= w);
}

/// A winning tile survives any slide: it either stays or merges into a
/// yet larger tile.
pub proof fn lemma_transform_keeps_winning(b: Seq<Seq<u64>>, m: GameMove)
    requires
        is_square(b),
        has_winning_tile(b),
    ensures
        has_winning_tile(spec_transform(b, m)),
{
    let n = b.len() as nat;
    lemma_transform_shape(b, m);
    let r = spec_transform(b, m);
    let (i0, j0) = choose|i: int, j: int|
        0 <= i < b.len() && 0 <= j < b[i].len() && b[i][j] >= WINNING_TILE;
    match m {
        GameMove::Left => {
            lemma_slid_keeps_big(b[i0], n, j0, WINNING_TILE);
            let k = choose|k: int|
                0 <= k < slid_line(b[i0], n).len() && slid_line(b[i0], n)[k] >= WINNING_TILE;
            assert(r[i0][k] >= WINNING_TILE);
        },
        GameMove::Right => {
            let rev = b[i0].reverse();
            assert(rev[b[i0].len() - 1 - j0] == b[i0][j0]);
            lemma_slid_keeps_big(rev, n, b[i0].len() - 1 - j0, WINNING_TILE);
            let s = slid_line(rev, n);
            lemma_slid_len(rev, n);
            let k = choose|k: int| 0 <= k < s.len() && s[k] >= WINNING_TILE;
            assert(s.reverse()[n - 1 - k] == s[k]);
            assert(r[i0][n - 1 - k] >= WINNING_TILE);
        },
        GameMove::Up => {
            let t = transpose(b);
            assert(t[j0][i0] == b[i0][j0]);
            lemma_slid_keeps_big(t[j0], n, i0, WINNING_TILE);
            lemma_transform_shape(t, GameMove::Left);
            let k = choose|k: int|
                0 <= k < slid_line(t[j0], n).len() && slid_line(t[j0], n)[k] >= WINNING_TILE;
            assert(rows_slid(t)[j0][k] >= WINNING_TILE);
            assert(r[k][j0] == rows_slid(t)[j0][k]);
        },
        GameMove::Down => {
            let t = transpose(b);
            assert(t[j0][i0] == b[i0][j0]);
            let rev = t[j0].reverse();
            assert(rev[t[j0].len() - 1 - i0] == t[j0][i0]);
            lemma_slid_keeps_big(rev, n, t[j0].len() - 1 - i0, WINNING_TILE);
            lemma_transform_shape(t, GameMove::Right);
            let s = slid_line(rev, n);
            lemma_slid_len(rev, n);
            let k = choose|k: int| 0 <= k < s.len() && s[k] >= WINNING_TILE;
            assert(s.reverse()[n - 1 - k] == s[k]);
            assert(rows_slid_rev(t)[j0][n - 1 - k] >= WINNING_TILE);
            assert(r[n - 1 - k][j0] == rows_slid_rev(t)[j0][n - 1 - k]);
        },
    }
}

/// Prefix measures of an all-zero line are zero.
proof fn lemma_line_all_zero_upto(s: Seq<u64>, k: int)
    requires
        forall|t: int| 0 <= t < s.len() ==> s[t] == 0,
        k <= s.len(),
    ensures
        line_sum_upto(s, k) == 0,
        line_tiles_upto(s, k) == 0,
    decreases k,
{
    if k > 0 {
        lemma_line_all_zero_upto(s, k - 1);
    }
}

/// Prefix measures of an all-zero board are zero.
proof fn lemma_board_all_zero_upto(b: Seq<Seq<u64>>, k: int)
    requires
        forall|i: int, j: int| 0 <= i < b.len() && 0 <= j < b[i].len() ==> b[i][j] == 0,
        k <= b.len(),
    ensures
        board_sum_upto(b, k) == 0,
        board_tiles_upto(b, k) == 0,
    decreases k,
{
    if k > 0 {
        lemma_board_all_zero_upto(b, k - 1);
        lemma_line_all_zero_upto(b[k - 1], b[k - 1].len() as int);
    }
}

/// An all-zero board holds no tile and sums to zero.
pub proof fn lemma_board_all_zero(b: Seq<Seq<u64>>)
    requires
        forall|i: int, j: int| 0 <= i < b.len() && 0 <= j < b[i].len() ==> b[i][j] == 0,
    ensures
        board_sum(b) == 0,
        board_tiles(b) == 0,
{
    lemma_board_all_zero_upto(b, b.len() as int);
}

/// The score delta of any move is non-negative: every merge contributes
/// the positive value `2 * v`.
pub proof fn lemma_delta_nonneg(b: Seq<Seq<u64>>, m: GameMove)
    ensures
        spec_delta(b, m) >= 0,
{
    match m {
        GameMove::Left => {
            lemma_rows_delta_upto_nonneg(b, b.len() as int);
        },
        GameMove::Right => {
            lemma_rows_delta_rev_upto_nonneg(b, b.len() as int);
        },
        GameMove::Up => {
            lemma_rows_delta_upto_nonneg(transpose(b), transpose(b).len() as int);
        },
        GameMove::Down => {
            lemma_rows_delta_rev_upto_nonneg(transpose(b), transpose(b).len() as int);
        },
    }
}

/// The merging pass never awards more than the merged line holds: every
/// merge contributes the value of the one tile it produces.
proof fn lemma_merged_delta_le_sum(s: Seq<u64>)
    ensures
        merged_delta(s) <= line_sum(merged(s)),
    decreases s.len(),
{
    if s.len() >= 2 && s[0] == s[1] && spec_can_merge(s[0]) {
        lemma_merged_delta_le_sum(s.skip(2));
        lemma_line_sum_concat(seq![(2 * s[0]) as u64], merged(s.skip(2)));
        lemma_line_sum_single((2 * s[0]) as u64);
    } else if s.len() >= 1 {
        lemma_merged_delta_le_sum(s.skip(1));
        lemma_line_sum_concat(seq![s[0]], merged(s.skip(1)));
        lemma_line_sum_single(s[0]);
    }
}

/// The score delta of one line is bounded by the sum of its cells.
proof fn lemma_line_delta_le_sum(line: Seq<u64>)
    ensures
        line_delta(line) <= line_sum(line),
{
    lemma_merged_delta_le_sum(nonzeros(line));
    lemma_merged_sum(nonzeros(line));
    lemma_nonzeros_sum(line);
}

/// Row by row, the summed deltas are bounded by the summed cells.
proof fn lemma_rows_delta_le_sum_upto(b: Seq<Seq<u64>>, k: int)
    ensures
        rows_delta_upto(b, k) <= board_sum_upto(b, k),
        rows_delta_rev_upto(b, k) <= board_sum_upto(b, k),
    decreases k,
{
    if k > 0 {
        lemma_rows_delta_le_sum_upto(b, k - 1);
        lemma_line_delta_le_sum(b[k - 1]);
        lemma_line_delta_le_sum(b[k - 1].reverse());
        lemma_reverse_sum(b[k - 1]);
    }
}

/// The score delta of any move never exceeds the sum over all cells of
/// the board: each merge contributes the value of the one tile it
/// produces, and those tiles are distinct cells of the resulting board.
pub proof fn lemma_delta_le_sum(b: Seq<Seq<u64>>, m: GameMove)
    requires
        is_square(b),
    ensures
        spec_delta(b, m) <= board_sum(b),
{
    lemma_rows_delta_le_sum_upto(b, b.len() as int);
    match m {
        GameMove::Left => {},
        GameMove::Right => {},
        GameMove::Up => {
            lemma_rows_delta_le_sum_upto(transpose(b), transpose(b).len() as int);
            lemma_transpose_sum(b);
        },
        GameMove::Down => {
            lemma_rows_delta_le_sum_upto(transpose(b), transpose(b).len() as int);
            lemma_transpose_sum(b);
        },
    }
}

/// The compaction of an all-zero line is empty.
proof fn lemma_nonzeros_all_zero(s: Seq<u64>)
    requires
        forall|k: int| 0 <= k < s.len() ==> s[k] == 0,
    ensures
        nonzeros(s) == Seq::<u64>::empty(),
    decreases s.len(),
{
    if s.len() > 0 {
        assert(forall|k: int| 0 <= k < s.skip(1).len() ==> s.skip(1)[k] == 0);
        lemma_nonzeros_all_zero(s.skip(1));
    }
}

/// The compaction of a line with exactly one non-zero cell is that cell.
proof fn lemma_nonzeros_single(s: Seq<u64>, j0: int)
    requires
        0 <= j0 < s.len(),
        s[j0] != 0,
        forall|k: int| 0 <= k < s.len() && k != j0 ==> s[k] == 0,
    ensures
        nonzeros(s) == seq![s[j0]],
    decreases s.len(),
{
    if s[0] == 0 {
        assert(forall|k: int| 0 <= k < s.skip(1).len() && k != j0 - 1 ==> s.skip(1)[k] == 0);
        lemma_nonzeros_single(s.skip(1), j0 - 1);
    } else {
        assert(j0 == 0);
        assert(forall|k: int| 0 <= k < s.skip(1).len() ==> s.skip(1)[k] == 0);
        lemma_nonzeros_all_zero(s.skip(1));
        assert(nonzeros(s) =~= seq![s[0]]);
    }
}

/// A board with exactly one tile always has a legal move: the tile can
/// slide towards a far edge.
pub proof fn lemma_single_tile_not_terminal(b: Seq<Seq<u64>>, i0: int, j0: int)
    requires
        is_square(b),
        b.len() >= 2,
        0 <= i0 < b.len(),
        0 <= j0 < b[i0].len(),
        b[i0][j0] != 0,
        forall|i: int, j: int|
            0 <= i < b.len() && 0 <= j < b[i].len() && !(i == i0 && j == j0) ==> b[i][j] == 0,
    ensures
        exists|m: GameMove| #[trigger] spec_changed(b, m),
{
    reveal_with_fuel(merged, 2);
    let n = b.len() as int;
    let v = b[i0][j0];
    lemma_transform_shape(b, GameMove::Left);
    lemma_transform_shape(b, GameMove::Right);
    lemma_nonzeros_single(b[i0], j0);
    assert(merged(seq![v]) =~= seq![v]);
    if j0 < n - 1 {
        let r = spec_transform(b, GameMove::Right);
        let rev = b[i0].reverse();
        assert(rev[n - 1 - j0] == v);
        assert(forall|k: int| 0 <= k < rev.len() && k != n - 1 - j0 ==> rev[k] == 0);
        lemma_nonzeros_single(rev, n - 1 - j0);
        let s = slid_line(rev, n as nat);
        lemma_slid_len(rev, n as nat);
        assert(s[0] == v);
        assert(r[i0][n - 1] == s.reverse()[n - 1]);
        assert(s.reverse()[n - 1] == s[0]);
        assert(b[i0][n - 1] == 0);
        assert(r[i0][n - 1] != b[i0][n - 1]);
        assert(r != b) by {
            if r == b {
                assert(r[i0] == b[i0]);
            }
        }
        assert(spec_changed(b, GameMove::Right));
    } else {
        let r = spec_transform(b, GameMove::Left);
        let s = slid_line(b[i0], n as nat);
        lemma_slid_len(b[i0], n as nat);
        assert(s[0] == v);
        assert(r[i0][0] == s[0]);
        assert(b[i0][0] == 0);
        assert(r[i0][0] != b[i0][0]);
        assert(r != b) by {
            if r == b {
                assert(r[i0] == b[i0]);
            }
        }
        assert(spec_changed(b, GameMove::Left));
    }
}

/// A slide in any direction preserves the sum over all cells: compaction
/// moves tiles, and a merge replaces two tiles of value `v` by one tile
/// of value `2 * v`.
pub proof fn lemma_transform_sum(b: Seq<Seq<u64>>, m: GameMove)
    requires
        is_square(b),
    ensures
        board_sum(spec_transform(b, m)) == board_sum(b),
{
    let t = transpose(b);
    match m {
        GameMove::Left => {
            lemma_rows_slid_sum(b);
        },
        GameMove::Right => {
            lemma_rows_slid_sum(b);
        },
        GameMove::Up => {
            lemma_transpose_sum(b);
            lemma_rows_slid_sum(t);
            lemma_transform_shape(t, GameMove::Left);
            lemma_transpose_sum(rows_slid(t));
        },
        GameMove::Down => {
            lemma_transpose_sum(b);
            lemma_rows_slid_sum(t);
            lemma_transform_shape(t, GameMove::Right);
            lemma_transpose_sum(rows_slid_rev(t));
        },
    }
}

} // verus!
