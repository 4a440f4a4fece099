//! The board transition engine: sliding and merging of tiles.
//!
//! A line (row or column, read in slide direction) is transformed by
//! compacting its non-zero tiles towards the front, merging each tile with
//! its immediate neighbour when equal — scanning in slide direction, each
//! tile merging at most once — and zero-filling the vacated tail.  A merge
//! of two tiles of value `v` produces one tile of value `2 * v` and
//! contributes `2 * v` to the score delta of the move.  Since a tile lives
//! in a `u64`, two tiles merge only when the doubled value is representable,
//! that is when `v < MERGE_LIMIT`.

use vstd::prelude::*;
use crate::direction::GameMove;

verus! {

/// A tile of this value or above can no longer merge: the doubled value
/// would not fit in a `u64` cell.
pub const MERGE_LIMIT: u64 = 0x8000_0000_0000_0000;

/// The value at which a board counts as won.
pub const WINNING_TILE: u64 = 2048;

/// The integer `x`, saturated into the `u64` range (used for score deltas,
/// whose mathematical value is tracked exactly at the specification level).
pub open spec fn sat64(x: int) -> u64 {
    if x >= u64::MAX {
        u64::MAX
    } else if x <= 0 {
        0u64
    } else {
        x as u64
    }
}

/// Whether a tile of value `v` can take part in a merge.
pub open spec fn spec_can_merge(v: u64) -> bool {
    v != 0 && v < MERGE_LIMIT
}

/// The non-zero tiles of a line, in order: the result of compacting the
/// line towards the front.
pub open spec fn nonzeros(s: Seq<u64>) -> Seq<u64>
    decreases s.len(),
{
    if s.len() == 0 {
        Seq::<u64>::empty()
    } else if s[0] == 0 {
        nonzeros(s.skip(1))
    } else {
        seq![s[0]] + nonzeros(s.skip(1))
    }
}

/// One merging pass over a compacted line, scanning in slide direction:
/// whenever the two front tiles are equal (and may merge) they become one
/// doubled tile, which takes no further part in the pass.
pub open spec fn merged(s: Seq<u64>) -> Seq<u64>
    decreases s.len(),
{
    if s.len() >= 2 && s[0] == s[1] && spec_can_merge(s[0]) {
        seq![(2 * s[0]) as u64] + merged(s.skip(2))
    } else if s.len() >= 1 {
        seq![s[0]] + merged(s.skip(1))
    } else {
        Seq::<u64>::empty()
    }
}

/// The score contributed by the merging pass: the sum of `2 * v` over
/// every merge performed.
pub open spec fn merged_delta(s: Seq<u64>) -> int
    decreases s.len(),
{
    if s.len() >= 2 && s[0] == s[1] && spec_can_merge(s[0]) {
        2 * s[0] + merged_delta(s.skip(2))
    } else if s.len() >= 1 {
        merged_delta(s.skip(1))
    } else {
        0
    }
}

/// Whether the last tile placed by the merging pass is still eligible to
/// merge with a tile appended after `s`.
pub open spec fn merged_open(s: Seq<u64>) -> bool
    decreases s.len(),
{
    if s.len() == 0 {
        false
    } else if s.len() >= 2 && s[0] == s[1] && spec_can_merge(s[0]) {
        merged_open(s.skip(2))
    } else if s.len() == 1 {
        true
    } else {
        merged_open(s.skip(1))
    }
}

/// `s`, zero-filled at the back up to length `n`.
pub open spec fn pad(s: Seq<u64>, n: nat) -> Seq<u64> {
    if s.len() >= n {
        s
    } else {
        s + Seq::new((n - s.len()) as nat, |i: int| 0u64)
    }
}

/// The full transform of one line of length `n`, slid towards the front.
pub open spec fn slid_line(line: Seq<u64>, n: nat) -> Seq<u64> {
    pad(merged(nonzeros(line)), n)
}

/// The score delta of one line, slid towards the front.
pub open spec fn line_delta(line: Seq<u64>) -> int {
    merged_delta(nonzeros(line))
}

proof fn lemma_push_skip(s: Seq<u64>, v: u64, k: int)
    requires
        0 <= k <= s.len(),
    ensures
        s.push(v).skip(k) == s.skip(k).push(v),
{
    assert(s.push(v).skip(k) =~= s.skip(k).push(v));
}

/// Appending a tile to a line appends it to the compaction exactly when it
/// is non-zero.
proof fn lemma_nonzeros_push(s: Seq<u64>, v: u64)
    ensures
        v != 0 ==> nonzeros(s.push(v)) == nonzeros(s).push(v),
        v == 0 ==> nonzeros(s.push(v)) == nonzeros(s),
    decreases s.len(),
{
    reveal_with_fuel(nonzeros, 3);
    if s.len() == 0 {
        assert(s.push(v).skip(1) =~= Seq::<u64>::empty());
        if v != 0 {
            assert(seq![v] + Seq::<u64>::empty() =~= Seq::<u64>::empty().push(v));
        }
    } else {
        lemma_push_skip(s, v, 1);
        lemma_nonzeros_push(s.skip(1), v);
        if s[0] != 0 {
            if v != 0 {
                assert(seq![s[0]] + nonzeros(s.skip(1)).push(v) =~= (seq![s[0]]
                    + nonzeros(s.skip(1))).push(v));
            }
        }
    }
}

/// Size and sign facts about the merging pass.
pub(crate) proof fn lemma_merged_len(s: Seq<u64>)
    ensures
        merged(s).len() <= s.len(),
        s.len() >= 1 ==> merged(s).len() >= 1,
        merged_delta(s) >= 0,
        merged_open(s) ==> s.len() >= 1,
    decreases s.len(),
{
    if s.len() >= 2 && s[0] == s[1] && spec_can_merge(s[0]) {
        lemma_merged_len(s.skip(2));
    } else if s.len() >= 1 {
        lemma_merged_len(s.skip(1));
    }
}

/// How one merging pass grows when a non-zero tile is appended: the new
/// tile either merges into the still-eligible last tile, doubling it, or
/// is placed after it and becomes eligible itself.
proof fn lemma_merged_push(s: Seq<u64>, v: u64)
    ensures
        (merged_open(s) && merged(s).len() >= 1 && merged(s).last() == v && spec_can_merge(v))
            ==> (merged(s.push(v)) == merged(s).update(merged(s).len() - 1, (2 * v) as u64)
            && merged_delta(s.push(v)) == merged_delta(s) + 2 * v && !merged_open(s.push(v))),
        !(merged_open(s) && merged(s).len() >= 1 && merged(s).last() == v && spec_can_merge(v))
            ==> (merged(s.push(v)) == merged(s).push(v) && merged_delta(s.push(v))
            == merged_delta(s) && merged_open(s.push(v))),
    decreases s.len(),
{
    reveal_with_fuel(merged, 3);
    reveal_with_fuel(merged_delta, 3);
    reveal_with_fuel(merged_open, 3);
    let p = s.push(v);
    if s.len() == 0 {
        assert(p =~= seq![v]);
        assert(p.skip(1) =~= Seq::<u64>::empty());
        assert(merged(p) =~= Seq::<u64>::empty().push(v));
    } else if s.len() == 1 {
        assert(s =~= seq![s[0]]);
        assert(s.skip(1) =~= Seq::<u64>::empty());
        assert(p.skip(1) =~= seq![v]);
        assert(p.skip(2) =~= Seq::<u64>::empty());
        assert(merged(s) =~= seq![s[0]]);
        assert(merged_open(s));
        if s[0] == v && spec_can_merge(v) {
            assert(merged(p) =~= seq![(2 * v) as u64]);
            assert(merged(s).update(0, (2 * v) as u64) =~= seq![(2 * v) as u64]);
        } else {
            assert(merged(p) =~= seq![s[0], v]);
            assert(merged(s).push(v) =~= seq![s[0], v]);
            assert(merged(p.skip(1)) =~= seq![v]);
            assert(merged_open(p) == merged_open(p.skip(1)));
        }
    } else {
        lemma_merged_len(s);
        if s[0] == s[1] && spec_can_merge(s[0]) {
            let t = s.skip(2);
            lemma_push_skip(s, v, 2);
            lemma_merged_push(t, v);
            lemma_merged_len(t);
            let m = merged(t);
            assert(merged(s) == seq![(2 * s[0]) as u64] + m);
            assert(merged(p) == seq![(2 * s[0]) as u64] + merged(t.push(v)));
            assert(merged_open(s) == merged_open(t));
            assert(merged_open(p) == merged_open(t.push(v)));
            if merged_open(t) && m.len() >= 1 && m.last() == v && spec_can_merge(v) {
                assert(merged(s).last() == m.last());
                assert(seq![(2 * s[0]) as u64] + m.update(m.len() - 1, (2 * v) as u64)
                    =~= (seq![(2 * s[0]) as u64] + m).update(m.len() as int, (2 * v) as u64));
            } else {
                assert(seq![(2 * s[0]) as u64] + m.push(v) =~= (seq![(2 * s[0]) as u64]
                    + m).push(v));
                if merged_open(s) {
                    assert(m.len() >= 1);
                    assert(merged(s).last() == m.last());
                }
            }
        } else {
            let t = s.skip(1);
            lemma_push_skip(s, v, 1);
            lemma_merged_push(t, v);
            lemma_merged_len(t);
            let m = merged(t);
            assert(merged(s) == seq![s[0]] + m);
            assert(merged(p) == seq![s[0]] + merged(t.push(v)));
            assert(merged_open(s) == merged_open(t));
            assert(merged_open(p) == merged_open(t.push(v)));
            if merged_open(t) && m.len() >= 1 && m.last() == v && spec_can_merge(v) {
                assert(merged(s).last() == m.last());
                assert(seq![s[0]] + m.update(m.len() - 1, (2 * v) as u64) =~= (seq![s[0]]
                    + m).update(m.len() as int, (2 * v) as u64));
            } else {
                assert(seq![s[0]] + m.push(v) =~= (seq![s[0]] + m).push(v));
                if merged_open(s) {
                    assert(m.len() >= 1);
                    assert(merged(s).last() == m.last());
                }
            }
        }
    }
}

/// The compaction of a line is no longer than the line.
pub(crate) proof fn lemma_nonzeros_len(s: Seq<u64>)
    ensures
        nonzeros(s).len() <= s.len(),
    decreases s.len(),
{
    if s.len() > 0 {
        lemma_nonzeros_len(s.skip(1));
    }
}

/// Slides one row towards the front (index zero), merging equal
/// neighbours, and returns the new row together with the saturated score
/// delta of the row.
fn slide_row_left(row: &Vec<u64>) -> (r: (Vec<u64>, u64))
    ensures
        r.0@ == slid_line(row@, row@.len() as nat),
        r.0@.len() == row@.len(),
        r.1 == sat64(line_delta(row@)),
{
    let n = row.len();
    let mut out: Vec<u64> = Vec::new();
    let mut delta: u64 = 0;
    let mut open_tile: bool = false;
    let mut k: usize = 0;
    while k < n
        invariant
            n == row@.len(),
            k <= n,
            out@ == merged(nonzeros(row@.take(k as int))),
            open_tile == merged_open(nonzeros(row@.take(k as int))),
            delta == sat64(merged_delta(nonzeros(row@.take(k as int)))),
        decreases n - k,
    {
        let v = row[k];
        proof {
            assert(row@.take(k + 1) =~= row@.take(k as int).push(row@[k as int]));
            lemma_nonzeros_push(row@.take(k as int), v);
            lemma_merged_len(nonzeros(row@.take(k as int)));
            if v != 0 {
                lemma_merged_push(nonzeros(row@.take(k as int)), v);
            }
        }
        if v != 0 {
            if open_tile && out[out.len() - 1] == v && v < MERGE_LIMIT {
                let m = v * 2;
                let last = out.len() - 1;
                out.set(last, m);
                delta = if delta <= u64::MAX - m {
                    delta + m
                } else {
                    u64::MAX
                };
                open_tile = false;
            } else {
                out.push(v);
                open_tile = true;
            }
        }
        k = k + 1;
    }
    proof {
        assert(row@.take(n as int) =~= row@);
        lemma_nonzeros_len(row@);
        lemma_merged_len(nonzeros(row@));
    }
    while out.len() < n
        invariant
            n == row@.len(),
            merged(nonzeros(row@)).len() <= out@.len() <= n,
            out@ == pad(merged(nonzeros(row@)), out@.len() as nat),
        decreases n - out@.len(),
    {
        out.push(0);
        proof {
            assert(out@ =~= pad(merged(nonzeros(row@)), out@.len() as nat));
        }
    }
    (out, delta)
}

/// The score delta of any line is non-negative.
pub(crate) proof fn lemma_line_delta_nonneg(line: Seq<u64>)
    ensures
        line_delta(line) >= 0,
{
    lemma_merged_len(nonzeros(line));
}

/// A line no longer than `n` slides to a line of length exactly `n`.
pub(crate) proof fn lemma_slid_len(line: Seq<u64>, n: nat)
    requires
        line.len() <= n,
    ensures
        slid_line(line, n).len() == n,
{
    lemma_nonzeros_len(line);
    lemma_merged_len(nonzeros(line));
}

/// The rows of a board, each as a mathematical sequence.
pub open spec fn grid_view(b: Seq<Vec<u64>>) -> Seq<Seq<u64>> {
    Seq::new(b.len(), |i: int| b[i]@)
}

/// Whether a board is square: as many cells in every row as there are rows.
pub open spec fn is_square(b: Seq<Seq<u64>>) -> bool {
    forall|i: int| 0 <= i < b.len() ==> (#[trigger] b[i]).len() == b.len()
}

/// The board mirrored along its main diagonal.
pub open spec fn transpose(b: Seq<Seq<u64>>) -> Seq<Seq<u64>> {
    Seq::new(b.len(), |j: int| Seq::new(b.len(), |i: int| b[i][j]))
}

/// Every row slid towards the front (a slide to the left).
pub open spec fn rows_slid(b: Seq<Seq<u64>>) -> Seq<Seq<u64>> {
    Seq::new(b.len(), |i: int| slid_line(b[i], b.len()))
}

/// Every row slid towards the back (a slide to the right).
pub open spec fn rows_slid_rev(b: Seq<Seq<u64>>) -> Seq<Seq<u64>> {
    Seq::new(b.len(), |i: int| slid_line(b[i].reverse(), b.len()).reverse())
}

/// The summed score delta of the first `k` rows, slid towards the front.
pub open spec fn rows_delta_upto(b: Seq<Seq<u64>>, k: int) -> int
    decreases k,
{
    if k <= 0 {
        0
    } else {
        rows_delta_upto(b, k - 1) + line_delta(b[k - 1])
    }
}

/// The summed score delta of a board whose rows slide towards the front.
pub open spec fn rows_delta(b: Seq<Seq<u64>>) -> int {
    rows_delta_upto(b, b.len() as int)
}

/// The summed score delta of the first `k` rows, slid towards the back.
pub open spec fn rows_delta_rev_upto(b: Seq<Seq<u64>>, k: int) -> int
    decreases k,
{
    if k <= 0 {
        0
    } else {
        rows_delta_rev_upto(b, k - 1) + line_delta(b[k - 1].reverse())
    }
}

/// The summed score delta of a board whose rows slide towards the back.
pub open spec fn rows_delta_rev(b: Seq<Seq<u64>>) -> int {
    rows_delta_rev_upto(b, b.len() as int)
}

/// The board that applying `m` to `b` produces.  The vertical directions
/// are the horizontal ones conjugated by transposition.
pub open spec fn spec_transform(b: Seq<Seq<u64>>, m: GameMove) -> Seq<Seq<u64>> {
    match m {
        GameMove::Left => rows_slid(b),
        GameMove::Right => rows_slid_rev(b),
        GameMove::Up => transpose(rows_slid(transpose(b))),
        GameMove::Down => transpose(rows_slid_rev(transpose(b))),
    }
}

/// The exact score delta of applying `m` to `b`: the sum of `2 * v` over
/// every merge the move performs.
pub open spec fn spec_delta(b: Seq<Seq<u64>>, m: GameMove) -> int {
    match m {
        GameMove::Left => rows_delta(b),
        GameMove::Right => rows_delta_rev(b),
        GameMove::Up => rows_delta(transpose(b)),
        GameMove::Down => rows_delta_rev(transpose(b)),
    }
}

/// The sole legality criterion: a direction is legal exactly when its
/// transform yields a board different from the current one.
pub open spec fn spec_changed(b: Seq<Seq<u64>>, m: GameMove) -> bool {
    spec_transform(b, m) != b
}

/// Returns `row` reversed.
fn reverse_row(row: &Vec<u64>) -> (r: Vec<u64>)
    ensures
        r@ == row@.reverse(),
{
    let n = row.len();
    let mut out: Vec<u64> = Vec::new();
    let mut k: usize = 0;
    while k < n
        invariant
            n == row@.len(),
            k <= n,
            out@.len() == k,
            forall|t: int| 0 <= t < k ==> out@[t] == row@[n - 1 - t],
        decreases n - k,
    {
        out.push(row[n - 1 - k]);
        k = k + 1;
    }
    proof {
        assert(out@ =~= row@.reverse());
    }
    out
}

/// Slides one row towards the back (the highest index), merging equal
/// neighbours, and returns the new row with the saturated score delta.
fn slide_row_right(row: &Vec<u64>) -> (r: (Vec<u64>, u64))
    ensures
        r.0@ == slid_line(row@.reverse(), row@.len() as nat).reverse(),
        r.0@.len() == row@.len(),
        r.1 == sat64(line_delta(row@.reverse())),
{
    let rev = reverse_row(row);
    let slid = slide_row_left(&rev);
    let out = reverse_row(&slid.0);
    (out, slid.1)
}

/// Returns the transposed board.
fn transpose_board(b: &Vec<Vec<u64>>) -> (r: Vec<Vec<u64>>)
    requires
        is_square(grid_view(b@)),
    ensures
        grid_view(r@) == transpose(grid_view(b@)),
        r@.len() == b@.len(),
        is_square(grid_view(r@)),
{
    let n = b.len();
    let mut out: Vec<Vec<u64>> = Vec::new();
    let mut j: usize = 0;
    while j < n
        invariant
            n == b@.len(),
            j <= n,
            is_square(grid_view(b@)),
            out@.len() == j,
            forall|t: int| 0 <= t < j ==> #[trigger] out@[t]@ == transpose(grid_view(b@))[t],
        decreases n - j,
    {
        let mut col: Vec<u64> = Vec::new();
        let mut i: usize = 0;
        while i < n
            invariant
                n == b@.len(),
                j < n,
                i <= n,
                is_square(grid_view(b@)),
                col@.len() == i,
                forall|t: int| 0 <= t < i ==> col@[t] == grid_view(b@)[t][j as int],
            decreases n - i,
        {
            proof {
                assert(grid_view(b@)[i as int].len() == n);
            }
            col.push(b[i][j]);
            i = i + 1;
        }
        proof {
            assert(col@ =~= transpose(grid_view(b@))[j as int]);
        }
        out.push(col);
        j = j + 1;
    }
    proof {
        assert(grid_view(out@) =~= transpose(grid_view(b@)));
    }
    out
}

/// Compares two rows cell by cell.
fn rows_equal(x: &Vec<u64>, y: &Vec<u64>) -> (r: bool)
    ensures
        r == (x@ == y@),
{
    if x.len() != y.len() {
        return false;
    }
    let mut i: usize = 0;
    while i < x.len()
        invariant
            x@.len() == y@.len(),
            i <= x@.len(),
            forall|t: int| 0 <= t < i ==> x@[t] == y@[t],
        decreases x@.len() - i,
    {
        if x[i] != y[i] {
            return false;
        }
        i = i + 1;
    }
    proof {
        assert(x@ =~= y@);
    }
    true
}

/// Compares two boards cell by cell.
fn boards_equal(a: &Vec<Vec<u64>>, b: &Vec<Vec<u64>>) -> (r: bool)
    ensures
        r == (grid_view(a@) == grid_view(b@)),
{
    if a.len() != b.len() {
        proof {
            assert(grid_view(a@).len() != grid_view(b@).len());
        }
        return false;
    }
    let mut i: usize = 0;
    while i < a.len()
        invariant
            a@.len() == b@.len(),
            i <= a@.len(),
            forall|t: int| 0 <= t < i ==> grid_view(a@)[t] == grid_view(b@)[t],
        decreases a@.len() - i,
    {
        if !rows_equal(&a[i], &b[i]) {
            proof {
                assert(grid_view(a@)[i as int] != grid_view(b@)[i as int]);
            }
            return false;
        }
        i = i + 1;
    }
    proof {
        assert(grid_view(a@) =~= grid_view(b@));
    }
    true
}

/// Saturating addition on `u64`.
pub(crate) fn sat_add64(a: u64, b: u64) -> (r: u64)
    ensures
        r == sat64(a + b),
{
    if a <= u64::MAX - b {
        a + b
    } else {
        u64::MAX
    }
}

/// Slides every row of `b` towards the front and sums the row deltas,
/// saturating the executable sum while the specification sum is exact.
fn transform_rows_left(b: &Vec<Vec<u64>>) -> (r: (Vec<Vec<u64>>, u64))
    requires
        is_square(grid_view(b@)),
    ensures
        grid_view(r.0@) == rows_slid(grid_view(b@)),
        r.1 == sat64(rows_delta(grid_view(b@))),
        r.0@.len() == b@.len(),
        is_square(grid_view(r.0@)),
{
    let n = b.len();
    let mut out: Vec<Vec<u64>> = Vec::new();
    let mut delta: u64 = 0;
    let mut i: usize = 0;
    while i < n
        invariant
            n == b@.len(),
            i <= n,
            is_square(grid_view(b@)),
            out@.len() == i,
            forall|t: int| 0 <= t < i ==> #[trigger] out@[t]@ == rows_slid(grid_view(b@))[t],
            delta == sat64(rows_delta_upto(grid_view(b@), i as int)),
        decreases n - i,
    {
        let slid = slide_row_left(&b[i]);
        proof {
            lemma_line_delta_nonneg(grid_view(b@)[i as int]);
            lemma_rows_delta_upto_nonneg(grid_view(b@), i as int);
        }
        let new_delta = sat_add64(delta, slid.1);
        proof {
            assert(new_delta == sat64(rows_delta_upto(grid_view(b@), i + 1)));
        }
        delta = new_delta;
        out.push(slid.0);
        i = i + 1;
    }
    proof {
        assert(grid_view(out@) =~= rows_slid(grid_view(b@)));
        assert forall|t: int| 0 <= t < grid_view(out@).len() implies (#[trigger] grid_view(
            out@,
        )[t]).len() == grid_view(out@).len() by {
            lemma_slid_len(grid_view(b@)[t], n as nat);
        }
    }
    (out, delta)
}

/// Slides every row of `b` towards the back and sums the row deltas.
fn transform_rows_right(b: &Vec<Vec<u64>>) -> (r: (Vec<Vec<u64>>, u64))
    requires
        is_square(grid_view(b@)),
    ensures
        grid_view(r.0@) == rows_slid_rev(grid_view(b@)),
        r.1 == sat64(rows_delta_rev(grid_view(b@))),
        r.0@.len() == b@.len(),
        is_square(grid_view(r.0@)),
{
    let n = b.len();
    let mut out: Vec<Vec<u64>> = Vec::new();
    let mut delta: u64 = 0;
    let mut i: usize = 0;
    while i < n
        invariant
            n == b@.len(),
            i <= n,
            is_square(grid_view(b@)),
            out@.len() == i,
            forall|t: int| 0 <= t < i ==> #[trigger] out@[t]@ == rows_slid_rev(grid_view(b@))[t],
            delta == sat64(rows_delta_rev_upto(grid_view(b@), i as int)),
        decreases n - i,
    {
        let slid = slide_row_right(&b[i]);
        proof {
            lemma_line_delta_nonneg(grid_view(b@)[i as int].reverse());
            lemma_rows_delta_rev_upto_nonneg(grid_view(b@), i as int);
        }
        let new_delta = sat_add64(delta, slid.1);
        proof {
            assert(new_delta == sat64(rows_delta_rev_upto(grid_view(b@), i + 1)));
        }
        delta = new_delta;
        out.push(slid.0);
        i = i + 1;
    }
    proof {
        assert(grid_view(out@) =~= rows_slid_rev(grid_view(b@)));
        assert forall|t: int| 0 <= t < grid_view(out@).len() implies (#[trigger] grid_view(
            out@,
        )[t]).len() == grid_view(out@).len() by {
            lemma_slid_len(grid_view(b@)[t].reverse(), n as nat);
        }
    }
    (out, delta)
}

/// The summed row deltas of any prefix of rows are non-negative.
pub(crate) proof fn lemma_rows_delta_upto_nonneg(b: Seq<Seq<u64>>, k: int)
    ensures
        rows_delta_upto(b, k) >= 0,
    decreases k,
{
    if k > 0 {
        lemma_rows_delta_upto_nonneg(b, k - 1);
        lemma_line_delta_nonneg(b[k - 1]);
    }
}

/// The summed reversed-row deltas of any prefix of rows are non-negative.
pub(crate) proof fn lemma_rows_delta_rev_upto_nonneg(b: Seq<Seq<u64>>, k: int)
    ensures
        rows_delta_rev_upto(b, k) >= 0,
    decreases k,
{
    if k > 0 {
        lemma_rows_delta_rev_upto_nonneg(b, k - 1);
        lemma_line_delta_nonneg(b[k - 1].reverse());
    }
}

/// Computes, for one direction, the board that the slide produces, the
/// saturated score delta, and whether the board changed — the sole
/// legality criterion.
pub fn board_transform(board: &Vec<Vec<u64>>, direction: GameMove) -> (r: (Vec<Vec<u64>>, u64, bool))
    requires
        is_square(grid_view(board@)),
    ensures
        grid_view(r.0@) == spec_transform(grid_view(board@), direction),
        r.1 == sat64(spec_delta(grid_view(board@), direction)),
        r.2 == spec_changed(grid_view(board@), direction),
        r.0@.len() == board@.len(),
        is_square(grid_view(r.0@)),
{
    let next: (Vec<Vec<u64>>, u64) = match direction {
        GameMove::Left => transform_rows_left(board),
        GameMove::Right => transform_rows_right(board),
        GameMove::Up => {
            let t = transpose_board(board);
            let slid = transform_rows_left(&t);
            let back = transpose_board(&slid.0);
            (back, slid.1)
        },
        GameMove::Down => {
            let t = transpose_board(board);
            let slid = transform_rows_right(&t);
            let back = transpose_board(&slid.0);
            (back, slid.1)
        },
    };
    let changed = !boards_equal(&next.0, board);
    (next.0, next.1, changed)
}

} // verus!
