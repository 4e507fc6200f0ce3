//! The game state: a board, a target value, and the outcome, driven by
//! directional moves and random tile spawns.

use vstd::prelude::*;
use crate::board::Board;
use crate::board::grid_wf;
use crate::board::grid_set;
use crate::board::count_zeros_row;
use crate::board::count_occupied_row;
use crate::board::count_zeros_grid;
use crate::board::count_occupied_grid;
use crate::board::lemma_empty_occupied_split;
use crate::engine::Direction;
use crate::engine::TILE_LIMIT;
use crate::engine::grid_fits;
use crate::engine::move_spec;
use crate::engine::apply_move;
use crate::rng::next_in_range;

verus! {

/// Largest target value a game accepts: any tile below it can still be
/// doubled without leaving `u32`.
pub const TARGET_LIMIT: u32 = 0x8000_0000;

/// The face value of a freshly spawned tile, for seeding and for the
/// spawn after a successful move. A policy that sometimes spawns a
/// higher tile would change this one value.
pub const SPAWN_VALUE: u32 = 2;

/// Where the game stands.
#[derive(Clone, Copy, PartialEq, Eq, Structural, Debug)]
pub enum Outcome {
    InProgress,
    Win,
    Lose,
}

/// Some cell has reached the target value.
pub open spec fn wins_spec(g: Seq<Seq<u32>>, target: u32) -> bool {
    exists|i: int, j: int| 0 <= i < g.len() && 0 <= j < g[i].len() && g[i][j] >= target
}

/// No directional move would change the grid.
pub open spec fn stuck_spec(g: Seq<Seq<u32>>) -> bool {
    &&& move_spec(g, Direction::Up) == g
    &&& move_spec(g, Direction::Down) == g
    &&& move_spec(g, Direction::Left) == g
    &&& move_spec(g, Direction::Right) == g
}

/// The outcome a grid calls for: a win as soon as any cell reaches the
/// target; a loss only when no cell is empty and no directional move
/// would change the grid; otherwise the game goes on.
pub open spec fn eval_outcome_spec(g: Seq<Seq<u32>>, target: u32) -> Outcome {
    if wins_spec(g, target) {
        Outcome::Win
    } else if count_zeros_grid(g) == 0 && stuck_spec(g) {
        Outcome::Lose
    } else {
        Outcome::InProgress
    }
}

/// Replacing one value of a row moves the two counts by at most one step.
proof fn lemma_count_row_set(s: Seq<u32>, c: int, v: u32)
    requires
        0 <= c < s.len(),
    ensures
        count_zeros_row(s.update(c, v)) == count_zeros_row(s) - (if s[c] == 0u32 {
            1int
        } else {
            0int
        }) + (if v == 0u32 {
            1int
        } else {
            0int
        }),
        count_occupied_row(s.update(c, v)) == count_occupied_row(s) - (if s[c] == 0u32 {
            0int
        } else {
            1int
        }) + (if v == 0u32 {
            0int
        } else {
            1int
        }),
    decreases s.len(),
{
    let t = s.update(c, v);
    if c == s.len() - 1 {
        assert(t.drop_last() =~~= s.drop_last());
        assert(t.last() == v);
    } else {
        assert(t.drop_last() =~~= s.drop_last().update(c, v));
        assert(t.last() == s.last());
        lemma_count_row_set(s.drop_last(), c, v);
    }
}

/// Replacing one row of a grid trades that row's counts for the new ones.
proof fn lemma_count_grid_setrow(g: Seq<Seq<u32>>, r: int, row: Seq<u32>)
    requires
        0 <= r < g.len(),
    ensures
        count_zeros_grid(g.update(r, row)) == count_zeros_grid(g) - count_zeros_row(g[r])
            + count_zeros_row(row),
        count_occupied_grid(g.update(r, row)) == count_occupied_grid(g) - count_occupied_row(g[r])
            + count_occupied_row(row),
    decreases g.len(),
{
    let t = g.update(r, row);
    if r == g.len() - 1 {
        assert(t.drop_last() =~~= g.drop_last());
        assert(t.last() == row);
    } else {
        assert(t.drop_last() =~~= g.drop_last().update(r, row));
        assert(t.last() == g.last());
        lemma_count_grid_setrow(g.drop_last(), r, row);
    }
}

/// Writing a tile into an empty cell fills exactly that one cell.
proof fn lemma_count_grid_set(g: Seq<Seq<u32>>, r: int, c: int, v: u32)
    requires
        0 <= r < g.len(),
        0 <= c < g[r].len(),
        g[r][c] == 0u32,
        v != 0u32,
    ensures
        count_zeros_grid(grid_set(g, r, c, v)) == count_zeros_grid(g) - 1,
        count_occupied_grid(grid_set(g, r, c, v)) == count_occupied_grid(g) + 1,
{
    lemma_count_row_set(g[r], c, v);
    lemma_count_grid_setrow(g, r, g[r].update(c, v));
}

/// A grid of empty cells has no occupied cell.
proof fn lemma_count_all_zero(g: Seq<Seq<u32>>)
    requires
        forall|i: int, j: int| 0 <= i < g.len() && 0 <= j < g[i].len() ==> g[i][j] == 0u32,
    ensures
        count_occupied_grid(g) == 0,
    decreases g.len(),
{
    if g.len() > 0 {
        let d = g.drop_last();
        assert(forall|i: int, j: int|
            0 <= i < d.len() && 0 <= j < d[i].len() ==> d[i][j] == 0u32);
        lemma_count_all_zero(d);
        let l = g.last();
        assert forall|j: int| 0 <= j < l.len() implies l[j] == 0u32 by {
            assert(g[g.len() - 1][j] == 0u32);
        }
        lemma_occupied_all_zero_row(l);
    }
}

/// A row of empty cells has no occupied cell.
proof fn lemma_occupied_all_zero_row(s: Seq<u32>)
    requires
        forall|j: int| 0 <= j < s.len() ==> s[j] == 0u32,
    ensures
        count_occupied_row(s) == 0,
    decreases s.len(),
{
    if s.len() > 0 {
        assert(forall|j: int| 0 <= j < s.drop_last().len() ==> s.drop_last()[j] == 0u32);
        lemma_occupied_all_zero_row(s.drop_last());
    }
}

/// Whether some cell has reached the target value.
fn has_winning_tile(b: &Board, target: u32) -> (r: bool)
    requires
        b.wf(),
    ensures
        r == wins_spec(b@, target),
{
    let n = b.size();
    let mut i: usize = 0;
    while i < n
        invariant
            b.wf(),
            n == b@.len(),
            i <= n,
            forall|r: int, c: int| 0 <= r < i && 0 <= c < n ==> b@[r][c] < target,
        decreases n - i,
    {
        let mut j: usize = 0;
        while j < n
            invariant
                b.wf(),
                n == b@.len(),
                i < n,
                j <= n,
                forall|r: int, c: int| 0 <= r < i && 0 <= c < n ==> b@[r][c] < target,
                forall|c: int| 0 <= c < j ==> b@[i as int][c] < target,
            decreases n - j,
        {
            if b.get(i, j) >= target {
                proof {
                    assert(b@[i as int][j as int] >= target);
                    assert(0 <= i < b@.len() && 0 <= j < b@[i as int].len());
                }
                return true;
            }
            j = j + 1;
        }
        i = i + 1;
    }
    proof {
        if wins_spec(b@, target) {
            let (wi, wj) = choose|i: int, j: int|
                0 <= i < b@.len() && 0 <= j < b@[i].len() && b@[i][j] >= target;
            assert(b@[wi][wj] < target);
        }
    }
    false
}

/// Compute the outcome a grid calls for: first the win check, then the
/// loss check (a full board with no move left), else the game goes on.
pub fn evaluate(b: &Board, target: u32) -> (o: Outcome)
    requires
        b.wf(),
        1 <= target <= TARGET_LIMIT,
    ensures
        o == eval_outcome_spec(b@, target),
{
    if has_winning_tile(b, target) {
        return Outcome::Win;
    }
    if b.count_empty() > 0 {
        return Outcome::InProgress;
    }
    proof {
        assert forall|i: int, j: int|
            0 <= i < b@.len() && 0 <= j < b@[i].len() implies b@[i][j] <= TILE_LIMIT by {
            assert(b@[i][j] < target);
        }
    }
    let (_, changed_up) = apply_move(b, Direction::Up);
    if changed_up {
        return Outcome::InProgress;
    }
    let (_, changed_down) = apply_move(b, Direction::Down);
    if changed_down {
        return Outcome::InProgress;
    }
    let (_, changed_left) = apply_move(b, Direction::Left);
    if changed_left {
        return Outcome::InProgress;
    }
    let (_, changed_right) = apply_move(b, Direction::Right);
    if changed_right {
        return Outcome::InProgress;
    }
    Outcome::Lose
}

/// Put a fresh tile of value 2 into a random empty cell.
fn spawn_tile(b: &mut Board)
    requires
        old(b).wf(),
        count_zeros_grid(old(b)@) > 0,
    ensures
        final(b).wf(),
        final(b)@.len() == old(b)@.len(),
        exists|r: int, c: int|
            0 <= r < old(b)@.len() && 0 <= c < old(b)@.len() && old(b)@[r][c] == 0u32
                && final(b)@ == grid_set(old(b)@, r, c, SPAWN_VALUE),
        count_zeros_grid(final(b)@) == count_zeros_grid(old(b)@) - 1,
        count_occupied_grid(final(b)@) == count_occupied_grid(old(b)@) + 1,
{
    let spots = b.empty_cells();
    let idx = next_in_range(0, spots.len());
    let (r, c) = spots[idx];
    proof {
        assert(old(b)@[r as int].len() == old(b)@.len());
        lemma_count_grid_set(old(b)@, r as int, c as int, SPAWN_VALUE);
    }
    b.set(r, c, SPAWN_VALUE);
    proof {
        assert(0 <= r < old(b)@.len() && 0 <= c < old(b)@.len() && old(b)@[r as int][c as int]
            == 0u32 && b@ == grid_set(old(b)@, r as int, c as int, SPAWN_VALUE));
    }
}

/// What a freshly seeded grid looks like: exactly two occupied cells,
/// both holding a tile of value 2.
pub open spec fn seeded_spec(g: Seq<Seq<u32>>) -> bool {
    &&& count_occupied_grid(g) == 2
    &&& forall|i: int, j: int|
        0 <= i < g.len() && 0 <= j < g[i].len() && g[i][j] != 0u32 ==> (#[trigger] g[i][j])
            == SPAWN_VALUE
}

/// A fresh board seeded with two tiles of value 2 in two distinct random
/// empty cells.
fn seeded_board(size: usize) -> (b: Board)
    requires
        2 <= size,
        size * size <= usize::MAX,
    ensures
        b.wf(),
        b@.len() == size,
        seeded_spec(b@),
{
    let mut b = Board::new(size);
    proof {
        lemma_count_all_zero(b@);
        lemma_empty_occupied_split(b@);
        assert(count_zeros_grid(b@) == size * size);
        assert(4 <= size * size) by (nonlinear_arith)
            requires
                2 <= size,
        ;
    }
    let ghost g0 = b@;
    spawn_tile(&mut b);
    let ghost g1 = b@;
    spawn_tile(&mut b);
    proof {
        assert forall|i: int, j: int|
            0 <= i < b@.len() && 0 <= j < b@[i].len() && b@[i][j] != 0u32 implies (
        #[trigger] b@[i][j]) == SPAWN_VALUE by {
            let (r1, c1) = choose|r: int, c: int|
                0 <= r < g0.len() && 0 <= c < g0.len() && g0[r][c] == 0u32 && g1 == grid_set(
                    g0,
                    r,
                    c,
                    SPAWN_VALUE,
                );
            let (r2, c2) = choose|r: int, c: int|
                0 <= r < g1.len() && 0 <= c < g1.len() && g1[r][c] == 0u32 && b@ == grid_set(
                    g1,
                    r,
                    c,
                    SPAWN_VALUE,
                );
            assert(g0[r1].len() == g0.len());
            assert(g1[r2].len() == g1.len());
            if i == r2 && j == c2 {
            } else {
                assert(b@[i][j] == g1[i][j]);
                if i == r1 && j == c1 {
                } else {
                    assert(g1[i][j] == g0[i][j]);
                }
            }
        }
    }
    b
}

/// Why a game could not be created.
#[derive(Clone, Copy, PartialEq, Eq, Structural, Debug)]
pub enum NewGameError {
    /// The requested side length is below two.
    SizeTooSmall,
    /// The requested target value is zero.
    TargetZero,
}

/// The state the collaborator plays against: one board, the target value,
/// and the current outcome.
pub struct GameState {
    board: Board,
    target: u32,
    outcome: Outcome,
}

impl GameState {
    /// The cells of the current grid.
    pub closed spec fn grid(&self) -> Seq<Seq<u32>> {
        self.board@
    }

    /// The value a tile must reach for a win.
    pub closed spec fn target_spec(&self) -> u32 {
        self.target
    }

    /// The current outcome.
    pub closed spec fn outcome_spec(&self) -> Outcome {
        self.outcome
    }

    /// The game invariant: a well-formed grid, a positive target small
    /// enough for every tile below it to be doubled, and an outcome that
    /// is always the one the grid calls for.
    pub open spec fn inv(&self) -> bool {
        &&& grid_wf(self.grid())
        &&& 1 <= self.target_spec() <= TARGET_LIMIT
        &&& self.outcome_spec() == eval_outcome_spec(self.grid(), self.target_spec())
    }

    /// While the game is in progress no tile has reached the target, so
    /// every tile can still be doubled.
    pub proof fn lemma_in_progress_fits(&self)
        requires
            self.inv(),
            self.outcome_spec() == Outcome::InProgress,
        ensures
            grid_fits(self.grid()),
            forall|i: int, j: int|
                0 <= i < self.grid().len() && 0 <= j < self.grid()[i].len()
                    ==> #[trigger] self.grid()[i][j] < self.target_spec(),
    {
        let g = self.grid();
        let t = self.target_spec();
        assert(!wins_spec(g, t));
        assert forall|i: int, j: int|
            0 <= i < g.len() && 0 <= j < g[i].len() implies #[trigger] g[i][j] < t by {
            if g[i][j] >= t {
                assert(wins_spec(g, t));
            }
        }
    }

    /// Start a game on a fresh seeded board. The side length must be at
    /// least two and the target at least one, else nothing is built.
    pub fn new(size: usize, target: u32) -> (r: Result<GameState, NewGameError>)
        requires
            size * size <= usize::MAX,
            target <= TARGET_LIMIT,
        ensures
            r is Ok <==> (2 <= size && 1 <= target),
            r is Err ==> r->Err_0 == (if size < 2 {
                NewGameError::SizeTooSmall
            } else {
                NewGameError::TargetZero
            }),
            r is Ok ==> {
                let gs = r->Ok_0;
                &&& gs.inv()
                &&& gs.grid().len() == size
                &&& gs.target_spec() == target
                &&& seeded_spec(gs.grid())
            },
    {
        if size < 2 {
            return Err(NewGameError::SizeTooSmall);
        }
        if target < 1 {
            return Err(NewGameError::TargetZero);
        }
        let board = seeded_board(size);
        let outcome = evaluate(&board, target);
        Ok(GameState { board, target, outcome })
    }

    /// Adopt a given board, for a deterministic start. The target must be
    /// at least one, else nothing is built.
    pub fn from_board(board: Board, target: u32) -> (r: Option<GameState>)
        requires
            board.wf(),
            target <= TARGET_LIMIT,
        ensures
            r is Some <==> 1 <= target,
            r is Some ==> {
                let gs = r->Some_0;
                &&& gs.inv()
                &&& gs.grid() == board@
                &&& gs.target_spec() == target
            },
    {
        if target < 1 {
            return None;
        }
        let outcome = evaluate(&board, target);
        Some(GameState { board, target, outcome })
    }

    /// The current grid snapshot and outcome, for a re-render.
    pub fn current(&self) -> (r: (Board, Outcome))
        requires
            self.inv(),
        ensures
            r.0.wf(),
            r.0@ == self.grid(),
            r.1 == self.outcome_spec(),
    {
        (self.board.snapshot(), self.outcome)
    }

    /// Discard the board and start over on a fresh seeded grid of the
    /// same size, with the same target.
    pub fn reset(&mut self) -> (r: (Board, Outcome))
        requires
            old(self).inv(),
        ensures
            final(self).inv(),
            final(self).target_spec() == old(self).target_spec(),
            final(self).grid().len() == old(self).grid().len(),
            seeded_spec(final(self).grid()),
            final(self).outcome_spec() == eval_outcome_spec(
                final(self).grid(),
                final(self).target_spec(),
            ),
            r.0.wf(),
            r.0@ == final(self).grid(),
            r.1 == final(self).outcome_spec(),
    {
        let size = self.board.size();
        self.board = seeded_board(size);
        self.outcome = evaluate(&self.board, self.target);
        (self.board.snapshot(), self.outcome)
    }

    /// Apply one directional move. After a move that changed the grid, a
    /// fresh tile spawns in a random empty cell unless the move won the
    /// game or left the board full; the outcome is then re-evaluated. A
    /// move that changes nothing spawns nothing, and once the game is won
    /// or lost every further call is a no-op.
    pub fn apply(&mut self, d: Direction) -> (r: (Board, Outcome))
        requires
            old(self).inv(),
        ensures
            final(self).inv(),
            final(self).target_spec() == old(self).target_spec(),
            final(self).grid().len() == old(self).grid().len(),
            r.0.wf(),
            r.0@ == final(self).grid(),
            r.1 == final(self).outcome_spec(),
            old(self).outcome_spec() != Outcome::InProgress ==> *final(self) == *old(self),
            old(self).outcome_spec() == Outcome::InProgress ==> {
                let moved = move_spec(old(self).grid(), d);
                let target = old(self).target_spec();
                &&& (moved == old(self).grid() ==> *final(self) == *old(self))
                &&& (moved != old(self).grid() && wins_spec(moved, target) ==> final(self).grid()
                    == moved && final(self).outcome_spec() == Outcome::Win)
                &&& (moved != old(self).grid() && !wins_spec(moved, target) && count_zeros_grid(
                    moved,
                ) > 0 ==> {
                    &&& exists|rr: int, cc: int|
                        0 <= rr < moved.len() && 0 <= cc < moved.len() && moved[rr][cc] == 0u32
                            && final(self).grid() == grid_set(moved, rr, cc, SPAWN_VALUE)
                    &&& count_occupied_grid(final(self).grid()) == count_occupied_grid(moved) + 1
                })
                &&& (moved != old(self).grid() && !wins_spec(moved, target) && count_zeros_grid(
                    moved,
                ) == 0 ==> final(self).grid() == moved)
            },
    {
        match self.outcome {
            Outcome::InProgress => {},
            _ => {
                return (self.board.snapshot(), self.outcome);
            },
        }
        proof {
            self.lemma_in_progress_fits();
        }
        let (moved, changed) = apply_move(&self.board, d);
        if !changed {
            return (self.board.snapshot(), self.outcome);
        }
        self.board = moved;
        if has_winning_tile(&self.board, self.target) {
            self.outcome = Outcome::Win;
        } else if self.board.count_empty() > 0 {
            spawn_tile(&mut self.board);
            self.outcome = evaluate(&self.board, self.target);
        } else {
            self.outcome = evaluate(&self.board, self.target);
        }
        (self.board.snapshot(), self.outcome)
    }
}

} // verus!
