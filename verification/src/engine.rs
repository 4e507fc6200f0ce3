//! Pure move transforms: row compaction and merging, quarter-turn grid
//! rotation, and the four directional moves composed from them.

use vstd::prelude::*;
use crate::board::Board;
use crate::board::grid_wf;

verus! {

/// Largest tile value a move accepts: doubling it still fits in a cell.
pub const TILE_LIMIT: u32 = 0x7fff_ffff;

/// Every value of the row is small enough to be doubled.
pub open spec fn row_fits(s: Seq<u32>) -> bool {
    forall|i: int| 0 <= i < s.len() ==> s[i] <= TILE_LIMIT
}

/// Every cell of the grid is small enough to be doubled.
pub open spec fn grid_fits(g: Seq<Seq<u32>>) -> bool {
    forall|i: int, j: int|
        0 <= i < g.len() && 0 <= j < g[i].len() ==> g[i][j] <= TILE_LIMIT
}

/// The tiles of a row with the gaps removed, order kept.
pub open spec fn nonzeros(s: Seq<u32>) -> Seq<u32>
    decreases s.len(),
{
    if s.len() == 0 {
        Seq::empty()
    } else if s[0] == 0u32 {
        nonzeros(s.skip(1))
    } else {
        seq![s[0]] + nonzeros(s.skip(1))
    }
}

/// One left-to-right merge pass: two equal neighbours become one doubled
/// tile and the pair is consumed, so a merged tile never merges again in
/// the same pass.
pub open spec fn merge_pairs(s: Seq<u32>) -> Seq<u32>
    decreases s.len(),
{
    if s.len() < 2 {
        s
    } else if s[0] == s[1] {
        seq![(s[0] + s[1]) as u32] + merge_pairs(s.skip(2))
    } else {
        seq![s[0]] + merge_pairs(s.skip(1))
    }
}

/// `s` padded with zeros on the right up to length `n`.
pub open spec fn pad_right(s: Seq<u32>, n: nat) -> Seq<u32>
    recommends
        s.len() <= n,
{
    s + Seq::new((n - s.len()) as nat, |i: int| 0u32)
}

/// What a row looks like after a leftward move: compact, merge once,
/// pad back to the row length.
pub open spec fn row_left_spec(s: Seq<u32>) -> Seq<u32> {
    pad_right(merge_pairs(nonzeros(s)), s.len())
}

/// What a row looks like after a rightward move: the mirror image of the
/// leftward move.
pub open spec fn row_right_spec(s: Seq<u32>) -> Seq<u32> {
    row_left_spec(s.reverse()).reverse()
}

/// Compaction never lengthens a row.
pub proof fn lemma_nonzeros_len(s: Seq<u32>)
    ensures
        nonzeros(s).len() <= s.len(),
    decreases s.len(),
{
    if s.len() > 0 {
        lemma_nonzeros_len(s.skip(1));
    }
}

/// Compaction keeps every value under any bound the row respects.
pub proof fn lemma_nonzeros_bound(s: Seq<u32>, b: u32)
    requires
        forall|i: int| 0 <= i < s.len() ==> s[i] <= b,
    ensures
        forall|i: int| 0 <= i < nonzeros(s).len() ==> nonzeros(s)[i] <= b,
    decreases s.len(),
{
    if s.len() > 0 {
        assert(forall|i: int| 0 <= i < s.skip(1).len() ==> s.skip(1)[i] <= b);
        lemma_nonzeros_bound(s.skip(1), b);
        if s[0] == 0u32 {
            assert(nonzeros(s) == nonzeros(s.skip(1)));
            assert forall|i: int| 0 <= i < nonzeros(s).len() implies nonzeros(s)[i] <= b by {
                assert(nonzeros(s)[i] == nonzeros(s.skip(1))[i]);
            }
        } else {
            assert(nonzeros(s) == seq![s[0]] + nonzeros(s.skip(1)));
            assert forall|i: int| 0 <= i < nonzeros(s).len() implies nonzeros(s)[i] <= b by {
                if i == 0 {
                    assert(nonzeros(s)[0] == s[0]);
                } else {
                    assert(nonzeros(s)[i] == nonzeros(s.skip(1))[i - 1]);
                }
            }
        }
    }
}

/// A merge pass never lengthens a row.
pub proof fn lemma_merge_pairs_len(s: Seq<u32>)
    ensures
        merge_pairs(s).len() <= s.len(),
    decreases s.len(),
{
    if s.len() >= 2 {
        if s[0] == s[1] {
            lemma_merge_pairs_len(s.skip(2));
        } else {
            lemma_merge_pairs_len(s.skip(1));
        }
    }
}

/// A leftward move keeps the row length.
pub proof fn lemma_row_left_len(s: Seq<u32>)
    ensures
        row_left_spec(s).len() == s.len(),
{
    lemma_nonzeros_len(s);
    lemma_merge_pairs_len(nonzeros(s));
}

/// A rightward move keeps the row length.
pub proof fn lemma_row_right_len(s: Seq<u32>)
    ensures
        row_right_spec(s).len() == s.len(),
{
    lemma_row_left_len(s.reverse());
}

/// No tile of the row has an empty cell on its left: the zeros form a
/// suffix.
pub open spec fn is_compacted(s: Seq<u32>) -> bool {
    forall|i: int, j: int| 0 <= i < j < s.len() && s[i] == 0u32 ==> s[j] == 0u32
}

/// No two neighbouring tiles of the row are equal, so a merge pass has
/// nothing to do.
pub open spec fn is_merged(s: Seq<u32>) -> bool {
    forall|i: int| 0 <= i && i + 1 < s.len() && #[trigger] s[i] != 0u32 ==> s[i] != s[i + 1]
}

/// A row of empty cells has no tiles.
proof fn lemma_nonzeros_all_zero(s: Seq<u32>)
    requires
        forall|i: int| 0 <= i < s.len() ==> s[i] == 0u32,
    ensures
        nonzeros(s) == Seq::<u32>::empty(),
    decreases s.len(),
{
    if s.len() > 0 {
        assert(forall|i: int| 0 <= i < s.skip(1).len() ==> s.skip(1)[i] == 0u32);
        lemma_nonzeros_all_zero(s.skip(1));
    }
}

/// Compacting and merging is idempotent: a row that is already compacted
/// and already merged comes back unchanged, so a second pass returns the
/// same row as the first.
pub proof fn lemma_compact_merge_idempotent(s: Seq<u32>)
    requires
        is_compacted(s),
        is_merged(s),
    ensures
        row_left_spec(s) == s,
        row_left_spec(row_left_spec(s)) == row_left_spec(s),
    decreases s.len(),
{
    lemma_row_left_len(s);
    if s.len() == 0 {
        assert(row_left_spec(s) =~~= s);
    } else if s[0] == 0u32 {
        assert forall|j: int| 0 <= j < s.len() implies s[j] == 0u32 by {
            if j > 0 {
                assert(s[0] == 0u32 && 0 < j < s.len());
            }
        }
        lemma_nonzeros_all_zero(s);
        assert(row_left_spec(s) =~~= s);
    } else {
        let t = s.skip(1);
        assert forall|i: int, j: int|
            0 <= i < j < t.len() && t[i] == 0u32 implies t[j] == 0u32 by {
            assert(s[i + 1] == t[i] && s[j + 1] == t[j]);
        }
        assert forall|i: int| 0 <= i && i + 1 < t.len() && #[trigger] t[i] != 0u32 implies t[i]
            != t[i + 1] by {
            assert(s[i + 1] == t[i] && s[i + 2] == t[i + 1]);
        }
        lemma_compact_merge_idempotent(t);
        lemma_nonzeros_len(t);
        lemma_merge_pairs_len(nonzeros(t));
        let m = merge_pairs(nonzeros(t));
        assert(nonzeros(s) == seq![s[0]] + nonzeros(t));
        if nonzeros(t).len() == 0 {
            assert(nonzeros(s) =~~= seq![s[0]]);
            assert(merge_pairs(nonzeros(s)) == seq![s[0]]);
            assert(seq![s[0]] + m =~~= seq![s[0]]);
        } else {
            if t.len() == 0 {
                assert(false);
            } else if t[0] == 0u32 {
                assert forall|j: int| 0 <= j < t.len() implies t[j] == 0u32 by {
                    if j > 0 {
                        assert(s[1] == 0u32 && 1 < j + 1 < s.len());
                        assert(s[j + 1] == t[j]);
                    }
                }
                lemma_nonzeros_all_zero(t);
                assert(false);
            } else {
                assert(nonzeros(t)[0] == t[0]);
                assert(t[0] == s[1]);
                assert(s[0] != s[1]);
            }
            let u = seq![s[0]] + nonzeros(t);
            assert(u.len() >= 2 && u[0] == s[0] && u[1] == nonzeros(t)[0]);
            assert(u[0] != u[1]);
            assert(u.skip(1) =~~= nonzeros(t));
            assert(merge_pairs(u) == seq![s[0]] + m);
        }
        assert forall|k: int| 0 <= k < s.len() implies row_left_spec(s)[k] == s[k] by {
            if k == 0 {
                assert(row_left_spec(s)[0] == s[0]);
            } else {
                assert(s[k] == t[k - 1]);
                assert(t[k - 1] == row_left_spec(t)[k - 1]);
                if k - 1 < m.len() {
                    assert(row_left_spec(t)[k - 1] == m[k - 1]);
                    assert(row_left_spec(s)[k] == m[k - 1]);
                } else {
                    assert(row_left_spec(t)[k - 1] == 0u32);
                    assert(row_left_spec(s)[k] == 0u32);
                }
            }
        }
        assert(row_left_spec(s) =~~= s);
    }
}

/// Turning twice lands each cell on the diagonally opposite cell.
proof fn lemma_rotate_left_twice(g: Seq<Seq<u32>>)
    requires
        grid_wf(g),
    ensures
        grid_wf(rotate_left_spec(rotate_left_spec(g))),
        rotate_left_spec(rotate_left_spec(g)).len() == g.len(),
        forall|r: int, c: int|
            0 <= r < g.len() && 0 <= c < g.len() ==> rotate_left_spec(rotate_left_spec(g))[r][c]
                == g[g.len() - 1 - r][g.len() - 1 - c],
{
    let n = g.len() as int;
    lemma_rotate_wf(g);
    lemma_rotate_wf(rotate_left_spec(g));
    assert forall|r: int, c: int|
        0 <= r < n && 0 <= c < n implies rotate_left_spec(rotate_left_spec(g))[r][c] == g[n - 1
        - r][n - 1 - c] by {
        assert(rotate_left_spec(rotate_left_spec(g))[r][c] == rotate_left_spec(g)[c][n - 1 - r]);
        assert(rotate_left_spec(g)[c][n - 1 - r] == g[n - 1 - r][n - 1 - c]);
    }
}

/// Turning twice clockwise lands each cell on the diagonally opposite
/// cell as well.
proof fn lemma_rotate_right_twice(g: Seq<Seq<u32>>)
    requires
        grid_wf(g),
    ensures
        grid_wf(rotate_right_spec(rotate_right_spec(g))),
        rotate_right_spec(rotate_right_spec(g)).len() == g.len(),
        forall|r: int, c: int|
            0 <= r < g.len() && 0 <= c < g.len() ==> rotate_right_spec(rotate_right_spec(g))[r][c]
                == g[g.len() - 1 - r][g.len() - 1 - c],
{
    let n = g.len() as int;
    lemma_rotate_wf(g);
    lemma_rotate_wf(rotate_right_spec(g));
    assert forall|r: int, c: int|
        0 <= r < n && 0 <= c < n implies rotate_right_spec(rotate_right_spec(g))[r][c] == g[n - 1
        - r][n - 1 - c] by {
        assert(rotate_right_spec(rotate_right_spec(g))[r][c] == rotate_right_spec(g)[n - 1 - c][r]);
        assert(rotate_right_spec(g)[n - 1 - c][r] == g[n - 1 - r][n - 1 - c]);
    }
}

/// Rotation generates a cyclic group of order four: four quarter turns
/// counter-clockwise give back the original grid, and so do four quarter
/// turns clockwise.
pub proof fn lemma_rotate_four_times(g: Seq<Seq<u32>>)
    requires
        grid_wf(g),
    ensures
        rotate_left_spec(rotate_left_spec(rotate_left_spec(rotate_left_spec(g)))) == g,
        rotate_right_spec(rotate_right_spec(rotate_right_spec(rotate_right_spec(g)))) == g,
{
    let n = g.len() as int;
    let gl2 = rotate_left_spec(rotate_left_spec(g));
    let gl4 = rotate_left_spec(rotate_left_spec(gl2));
    lemma_rotate_left_twice(g);
    lemma_rotate_left_twice(gl2);
    assert forall|r: int| 0 <= r < n implies gl4[r] == g[r] by {
        assert forall|c: int| 0 <= c < n implies gl4[r][c] == g[r][c] by {
            assert(gl4[r][c] == gl2[n - 1 - r][n - 1 - c]);
            assert(gl2[n - 1 - r][n - 1 - c] == g[r][c]);
        }
        assert(gl4[r] =~~= g[r]);
    }
    assert(gl4 =~~= g);
    let gr2 = rotate_right_spec(rotate_right_spec(g));
    let gr4 = rotate_right_spec(rotate_right_spec(gr2));
    lemma_rotate_right_twice(g);
    lemma_rotate_right_twice(gr2);
    assert forall|r: int| 0 <= r < n implies gr4[r] == g[r] by {
        assert forall|c: int| 0 <= c < n implies gr4[r][c] == g[r][c] by {
            assert(gr4[r][c] == gr2[n - 1 - r][n - 1 - c]);
            assert(gr2[n - 1 - r][n - 1 - c] == g[r][c]);
        }
        assert(gr4[r] =~~= g[r]);
    }
    assert(gr4 =~~= g);
}

/// The tiles of the row, gaps removed, order kept.
fn gather_tiles(row: &Vec<u32>) -> (r: Vec<u32>)
    ensures
        r@ == nonzeros(row@),
        r@.len() <= row@.len(),
{
    let len = row.len();
    let mut out: Vec<u32> = Vec::new();
    let mut i: usize = 0;
    proof {
        assert(row@.skip(0) =~~= row@);
        assert(Seq::<u32>::empty() + nonzeros(row@) =~~= nonzeros(row@));
    }
    while i < len
        invariant
            len == row@.len(),
            i <= len,
            out@.len() <= i,
            nonzeros(row@) == out@ + nonzeros(row@.skip(i as int)),
        decreases len - i,
    {
        proof {
            assert(row@.skip(i as int)[0] == row@[i as int]);
            assert(row@.skip(i as int).skip(1) =~~= row@.skip(i + 1));
        }
        if row[i] != 0 {
            out.push(row[i]);
            proof {
                assert(out@ + nonzeros(row@.skip(i + 1)) =~~= (out@.drop_last() + (seq![
                    row@[i as int],
                ] + nonzeros(row@.skip(i + 1)))));
            }
        }
        i = i + 1;
    }
    proof {
        assert(row@.skip(len as int) =~~= Seq::<u32>::empty());
        assert(out@ + Seq::<u32>::empty() =~~= out@);
    }
    out
}

/// One merge pass over an already compacted row.
fn merge_tiles(c: &Vec<u32>) -> (r: Vec<u32>)
    requires
        forall|i: int| 0 <= i < c@.len() ==> c@[i] <= TILE_LIMIT,
    ensures
        r@ == merge_pairs(c@),
        r@.len() <= c@.len(),
{
    let len = c.len();
    let mut out: Vec<u32> = Vec::new();
    let mut i: usize = 0;
    proof {
        assert(c@.skip(0) =~~= c@);
        assert(Seq::<u32>::empty() + merge_pairs(c@) =~~= merge_pairs(c@));
    }
    while i < len
        invariant
            len == c@.len(),
            forall|k: int| 0 <= k < c@.len() ==> c@[k] <= TILE_LIMIT,
            i <= len,
            out@.len() <= i,
            merge_pairs(c@) == out@ + merge_pairs(c@.skip(i as int)),
        decreases len - i,
    {
        proof {
            assert(c@.skip(i as int)[0] == c@[i as int]);
            if i + 1 < len {
                assert(c@.skip(i as int)[1] == c@[i + 1]);
            }
            assert(c@.skip(i as int).skip(1) =~~= c@.skip(i + 1));
            if i + 2 <= len {
                assert(c@.skip(i as int).skip(2) =~~= c@.skip(i + 2));
            }
        }
        if i + 1 < len && c[i] == c[i + 1] {
            out.push(c[i] + c[i + 1]);
            proof {
                assert(out@ + merge_pairs(c@.skip(i + 2)) =~~= (out@.drop_last() + (seq![
                    (c@[i as int] + c@[i + 1]) as u32,
                ] + merge_pairs(c@.skip(i + 2)))));
            }
            i = i + 2;
        } else {
            out.push(c[i]);
            proof {
                if i + 1 == len {
                    assert(c@.skip(i as int) =~~= seq![c@[i as int]]);
                    assert(merge_pairs(c@.skip(i + 1)) =~~= Seq::<u32>::empty());
                }
                assert(out@ + merge_pairs(c@.skip(i + 1)) =~~= (out@.drop_last() + (seq![
                    c@[i as int],
                ] + merge_pairs(c@.skip(i + 1)))));
            }
            i = i + 1;
        }
    }
    proof {
        assert(c@.skip(len as int) =~~= Seq::<u32>::empty());
        assert(out@ + Seq::<u32>::empty() =~~= out@);
    }
    out
}

/// Pad a row with zeros on the right up to length `n`.
fn pad_row(v: Vec<u32>, n: usize) -> (r: Vec<u32>)
    requires
        v@.len() <= n,
    ensures
        r@ == pad_right(v@, n as nat),
{
    let ghost orig = v@;
    let mut out = v;
    while out.len() < n
        invariant
            orig.len() <= out@.len() <= n,
            forall|k: int| 0 <= k < orig.len() ==> out@[k] == orig[k],
            forall|k: int| orig.len() <= k < out@.len() ==> out@[k] == 0u32,
        decreases n - out.len(),
    {
        out.push(0u32);
    }
    proof {
        assert(out@ =~~= pad_right(orig, n as nat));
    }
    out
}

/// A copy of the row in reverse order.
fn reverse_row(row: &Vec<u32>) -> (r: Vec<u32>)
    ensures
        r@ == row@.reverse(),
{
    let len = row.len();
    let mut out: Vec<u32> = Vec::new();
    let mut i: usize = 0;
    while i < len
        invariant
            len == row@.len(),
            i <= len,
            out@.len() == i,
            forall|k: int| 0 <= k < i ==> out@[k] == row@[len - 1 - k],
        decreases len - i,
    {
        out.push(row[len - 1 - i]);
        i = i + 1;
    }
    proof {
        assert(out@ =~~= row@.reverse());
    }
    out
}

/// A single leftward pass over one row: remove the gaps, merge each pair of
/// equal neighbours once, and pad with zeros on the right.
pub fn compact_and_merge_left(row: &Vec<u32>) -> (r: Vec<u32>)
    requires
        row_fits(row@),
    ensures
        r@ == row_left_spec(row@),
        r@.len() == row@.len(),
{
    let gathered = gather_tiles(row);
    proof {
        lemma_nonzeros_bound(row@, TILE_LIMIT);
    }
    let merged = merge_tiles(&gathered);
    proof {
        lemma_row_left_len(row@);
    }
    pad_row(merged, row.len())
}

/// The mirror image pass: merge toward the right, pad on the left.
pub fn compact_and_merge_right(row: &Vec<u32>) -> (r: Vec<u32>)
    requires
        row_fits(row@),
    ensures
        r@ == row_right_spec(row@),
        r@.len() == row@.len(),
{
    let rev = reverse_row(row);
    proof {
        assert(row_fits(rev@));
        lemma_row_left_len(rev@);
    }
    let shifted = compact_and_merge_left(&rev);
    let out = reverse_row(&shifted);
    proof {
        assert(row@.reverse().reverse() =~~= row@);
    }
    out
}

/// A move selector: the side toward which the tiles slide.
#[derive(Clone, Copy, PartialEq, Eq, Structural, Debug)]
pub enum Direction {
    Up,
    Down,
    Left,
    Right,
}

/// A quarter turn counter-clockwise: row `i`, column `j` of the source
/// lands in row `n-1-j`, column `i` of the target.
pub open spec fn rotate_left_spec(g: Seq<Seq<u32>>) -> Seq<Seq<u32>> {
    Seq::new(g.len(), |r: int| Seq::new(g.len(), |c: int| g[c][g.len() - 1 - r]))
}

/// A quarter turn clockwise: row `i`, column `j` of the source lands in
/// row `j`, column `n-1-i` of the target.
pub open spec fn rotate_right_spec(g: Seq<Seq<u32>>) -> Seq<Seq<u32>> {
    Seq::new(g.len(), |r: int| Seq::new(g.len(), |c: int| g[g.len() - 1 - c][r]))
}

/// Every row slid toward the left.
pub open spec fn shift_left_spec(g: Seq<Seq<u32>>) -> Seq<Seq<u32>> {
    Seq::new(g.len(), |i: int| row_left_spec(g[i]))
}

/// Every row slid toward the right.
pub open spec fn shift_right_spec(g: Seq<Seq<u32>>) -> Seq<Seq<u32>> {
    Seq::new(g.len(), |i: int| row_right_spec(g[i]))
}

/// Every column slid toward the top: a leftward slide between two
/// opposite rotations.
pub open spec fn shift_up_spec(g: Seq<Seq<u32>>) -> Seq<Seq<u32>> {
    rotate_right_spec(shift_left_spec(rotate_left_spec(g)))
}

/// Every column slid toward the bottom: the mirror composition.
pub open spec fn shift_down_spec(g: Seq<Seq<u32>>) -> Seq<Seq<u32>> {
    rotate_left_spec(shift_left_spec(rotate_right_spec(g)))
}

/// The grid after sliding toward `d`.
pub open spec fn move_spec(g: Seq<Seq<u32>>, d: Direction) -> Seq<Seq<u32>> {
    match d {
        Direction::Up => shift_up_spec(g),
        Direction::Down => shift_down_spec(g),
        Direction::Left => shift_left_spec(g),
        Direction::Right => shift_right_spec(g),
    }
}

/// A rotation of a well-formed grid is well formed and keeps every value.
pub proof fn lemma_rotate_wf(g: Seq<Seq<u32>>)
    requires
        grid_wf(g),
    ensures
        grid_wf(rotate_left_spec(g)),
        grid_wf(rotate_right_spec(g)),
        grid_fits(g) ==> grid_fits(rotate_left_spec(g)),
        grid_fits(g) ==> grid_fits(rotate_right_spec(g)),
{
    let n = g.len() as int;
    assert forall|i: int| 0 <= i < n implies (#[trigger] rotate_left_spec(g)[i]).len() == n by {}
    assert forall|i: int| 0 <= i < n implies (#[trigger] rotate_right_spec(g)[i]).len() == n by {}
    if grid_fits(g) {
        assert forall|i: int, j: int|
            0 <= i < n && 0 <= j < rotate_left_spec(g)[i].len() implies rotate_left_spec(
            g,
        )[i][j] <= TILE_LIMIT by {
            assert(rotate_left_spec(g)[i][j] == g[j][n - 1 - i]);
        }
        assert forall|i: int, j: int|
            0 <= i < n && 0 <= j < rotate_right_spec(g)[i].len() implies rotate_right_spec(
            g,
        )[i][j] <= TILE_LIMIT by {
            assert(rotate_right_spec(g)[i][j] == g[n - 1 - j][i]);
        }
    }
}

/// A shift of a well-formed grid is well formed.
pub proof fn lemma_shift_wf(g: Seq<Seq<u32>>)
    requires
        grid_wf(g),
    ensures
        grid_wf(shift_left_spec(g)),
        grid_wf(shift_right_spec(g)),
{
    assert forall|i: int| 0 <= i < g.len() implies (#[trigger] shift_left_spec(g)[i]).len()
        == g.len() by {
        lemma_row_left_len(g[i]);
    }
    assert forall|i: int| 0 <= i < g.len() implies (#[trigger] shift_right_spec(g)[i]).len()
        == g.len() by {
        lemma_row_right_len(g[i]);
    }
}

/// The board turned a quarter counter-clockwise.
pub fn rotate_left(b: &Board) -> (r: Board)
    requires
        b.wf(),
    ensures
        r.wf(),
        r@ == rotate_left_spec(b@),
        r@.len() == b@.len(),
{
    let n = b.size();
    let mut rows: Vec<Vec<u32>> = Vec::new();
    let mut i: usize = 0;
    while i < n
        invariant
            b.wf(),
            n == b@.len(),
            i <= n,
            rows@.len() == i,
            forall|rr: int| 0 <= rr < i ==> (#[trigger] rows@[rr])@.len() == n,
            forall|rr: int, cc: int|
                0 <= rr < i && 0 <= cc < n ==> rows@[rr]@[cc] == b@[cc][n - 1 - rr],
        decreases n - i,
    {
        let mut row: Vec<u32> = Vec::new();
        let mut j: usize = 0;
        while j < n
            invariant
                b.wf(),
                n == b@.len(),
                i < n,
                j <= n,
                row@.len() == j,
                forall|cc: int| 0 <= cc < j ==> row@[cc] == b@[cc][n - 1 - i],
            decreases n - j,
        {
            row.push(b.get(j, n - 1 - i));
            j = j + 1;
        }
        rows.push(row);
        i = i + 1;
    }
    let r = Board::from_rows_exact(rows);
    proof {
        assert forall|rr: int| 0 <= rr < n implies r@[rr] == rotate_left_spec(b@)[rr] by {
            assert(r@[rr] == rows@[rr]@);
            assert forall|cc: int|
                0 <= cc < n implies r@[rr][cc] == rotate_left_spec(b@)[rr][cc] by {
                assert(rows@[rr]@[cc] == b@[cc][n - 1 - rr]);
            }
            assert(r@[rr] =~~= rotate_left_spec(b@)[rr]);
        }
        assert(r@ =~~= rotate_left_spec(b@));
    }
    r
}

/// The board turned a quarter clockwise.
pub fn rotate_right(b: &Board) -> (r: Board)
    requires
        b.wf(),
    ensures
        r.wf(),
        r@ == rotate_right_spec(b@),
        r@.len() == b@.len(),
{
    let n = b.size();
    let mut rows: Vec<Vec<u32>> = Vec::new();
    let mut i: usize = 0;
    while i < n
        invariant
            b.wf(),
            n == b@.len(),
            i <= n,
            rows@.len() == i,
            forall|rr: int| 0 <= rr < i ==> (#[trigger] rows@[rr])@.len() == n,
            forall|rr: int, cc: int|
                0 <= rr < i && 0 <= cc < n ==> rows@[rr]@[cc] == b@[n - 1 - cc][rr],
        decreases n - i,
    {
        let mut row: Vec<u32> = Vec::new();
        let mut j: usize = 0;
        while j < n
            invariant
                b.wf(),
                n == b@.len(),
                i < n,
                j <= n,
                row@.len() == j,
                forall|cc: int| 0 <= cc < j ==> row@[cc] == b@[n - 1 - cc][i as int],
            decreases n - j,
        {
            row.push(b.get(n - 1 - j, i));
            j = j + 1;
        }
        rows.push(row);
        i = i + 1;
    }
    let r = Board::from_rows_exact(rows);
    proof {
        assert forall|rr: int| 0 <= rr < n implies r@[rr] == rotate_right_spec(b@)[rr] by {
            assert(r@[rr] == rows@[rr]@);
            assert forall|cc: int|
                0 <= cc < n implies r@[rr][cc] == rotate_right_spec(b@)[rr][cc] by {
                assert(rows@[rr]@[cc] == b@[n - 1 - cc][rr]);
            }
            assert(r@[rr] =~~= rotate_right_spec(b@)[rr]);
        }
        assert(r@ =~~= rotate_right_spec(b@));
    }
    r
}

/// Slide every row of the board toward the left.
pub fn shift_left(b: &Board) -> (r: Board)
    requires
        b.wf(),
        grid_fits(b@),
    ensures
        r.wf(),
        r@ == shift_left_spec(b@),
        r@.len() == b@.len(),
{
    let n = b.size();
    let rows = b.get_board();
    let mut out: Vec<Vec<u32>> = Vec::new();
    let mut i: usize = 0;
    while i < n
        invariant
            b.wf(),
            grid_fits(b@),
            n == b@.len(),
            rows@.len() == n,
            forall|rr: int| 0 <= rr < n ==> (#[trigger] rows@[rr])@ == b@[rr],
            i <= n,
            out@.len() == i,
            forall|rr: int| 0 <= rr < i ==> (#[trigger] out@[rr])@ == row_left_spec(b@[rr]),
            forall|rr: int| 0 <= rr < i ==> (#[trigger] out@[rr])@.len() == n,
        decreases n - i,
    {
        proof {
            assert(row_fits(rows@[i as int]@));
        }
        let shifted = compact_and_merge_left(&rows[i]);
        out.push(shifted);
        i = i + 1;
    }
    let r = Board::from_rows_exact(out);
    proof {
        assert forall|rr: int| 0 <= rr < n implies r@[rr] == shift_left_spec(b@)[rr] by {
            assert(r@[rr] == out@[rr]@);
            assert(out@[rr]@ == row_left_spec(b@[rr]));
        }
        assert(r@ =~~= shift_left_spec(b@));
        lemma_shift_wf(b@);
    }
    r
}

/// Slide every row of the board toward the right.
pub fn shift_right(b: &Board) -> (r: Board)
    requires
        b.wf(),
        grid_fits(b@),
    ensures
        r.wf(),
        r@ == shift_right_spec(b@),
        r@.len() == b@.len(),
{
    let n = b.size();
    let rows = b.get_board();
    let mut out: Vec<Vec<u32>> = Vec::new();
    let mut i: usize = 0;
    while i < n
        invariant
            b.wf(),
            grid_fits(b@),
            n == b@.len(),
            rows@.len() == n,
            forall|rr: int| 0 <= rr < n ==> (#[trigger] rows@[rr])@ == b@[rr],
            i <= n,
            out@.len() == i,
            forall|rr: int| 0 <= rr < i ==> (#[trigger] out@[rr])@ == row_right_spec(b@[rr]),
            forall|rr: int| 0 <= rr < i ==> (#[trigger] out@[rr])@.len() == n,
        decreases n - i,
    {
        proof {
            assert(row_fits(rows@[i as int]@));
        }
        let shifted = compact_and_merge_right(&rows[i]);
        out.push(shifted);
        i = i + 1;
    }
    let r = Board::from_rows_exact(out);
    proof {
        assert forall|rr: int| 0 <= rr < n implies r@[rr] == shift_right_spec(b@)[rr] by {
            assert(r@[rr] == out@[rr]@);
            assert(out@[rr]@ == row_right_spec(b@[rr]));
        }
        assert(r@ =~~= shift_right_spec(b@));
        lemma_shift_wf(b@);
    }
    r
}

/// Slide every column of the board toward the top.
pub fn shift_up(b: &Board) -> (r: Board)
    requires
        b.wf(),
        grid_fits(b@),
    ensures
        r.wf(),
        r@ == shift_up_spec(b@),
        r@.len() == b@.len(),
{
    let turned = rotate_left(b);
    proof {
        lemma_rotate_wf(b@);
    }
    let slid = shift_left(&turned);
    rotate_right(&slid)
}

/// Slide every column of the board toward the bottom.
pub fn shift_down(b: &Board) -> (r: Board)
    requires
        b.wf(),
        grid_fits(b@),
    ensures
        r.wf(),
        r@ == shift_down_spec(b@),
        r@.len() == b@.len(),
{
    let turned = rotate_right(b);
    proof {
        lemma_rotate_wf(b@);
    }
    let slid = shift_left(&turned);
    rotate_left(&slid)
}

/// Apply one directional move and report whether it changed the grid.
/// An impossible move is no error: it comes back unchanged with a `false`
/// flag.
pub fn apply_move(b: &Board, d: Direction) -> (r: (Board, bool))
    requires
        b.wf(),
        grid_fits(b@),
    ensures
        r.0.wf(),
        r.0@ == move_spec(b@, d),
        r.0@.len() == b@.len(),
        r.1 == (move_spec(b@, d) != b@),
{
    let moved = match d {
        Direction::Up => shift_up(b),
        Direction::Down => shift_down(b),
        Direction::Left => shift_left(b),
        Direction::Right => shift_right(b),
    };
    let changed = !moved.equals(b);
    (moved, changed)
}

} // verus!
