//! The square board: an N x N table of cell values, `0` meaning empty.

use vstd::prelude::*;

verus! {

/// A square grid is well formed when it has at least two rows, every row is
/// as long as the grid is tall, and the total cell count fits in `usize`.
pub open spec fn grid_wf(g: Seq<Seq<u32>>) -> bool {
    &&& 2 <= g.len()
    &&& forall|i: int| 0 <= i < g.len() ==> (#[trigger] g[i]).len() == g.len()
    &&& g.len() * g.len() <= usize::MAX
}

/// The grid `g` with the single cell (`r`, `c`) replaced by `v`.
pub open spec fn grid_set(g: Seq<Seq<u32>>, r: int, c: int, v: u32) -> Seq<Seq<u32>> {
    g.update(r, g[r].update(c, v))
}

/// How many cells of one row are empty.
pub open spec fn count_zeros_row(s: Seq<u32>) -> nat
    decreases s.len(),
{
    if s.len() == 0 {
        0
    } else {
        count_zeros_row(s.drop_last()) + if s.last() == 0u32 { 1nat } else { 0nat }
    }
}

/// How many cells of one row hold a tile.
pub open spec fn count_occupied_row(s: Seq<u32>) -> nat
    decreases s.len(),
{
    if s.len() == 0 {
        0
    } else {
        count_occupied_row(s.drop_last()) + if s.last() == 0u32 { 0nat } else { 1nat }
    }
}

/// How many cells of the whole grid are empty.
pub open spec fn count_zeros_grid(g: Seq<Seq<u32>>) -> nat
    decreases g.len(),
{
    if g.len() == 0 {
        0
    } else {
        count_zeros_grid(g.drop_last()) + count_zeros_row(g.last())
    }
}

/// How many cells of the whole grid hold a tile.
pub open spec fn count_occupied_grid(g: Seq<Seq<u32>>) -> nat
    decreases g.len(),
{
    if g.len() == 0 {
        0
    } else {
        count_occupied_grid(g.drop_last()) + count_occupied_row(g.last())
    }
}

/// The number of cells of the grid, summed row by row.
pub open spec fn total_cells(g: Seq<Seq<u32>>) -> nat
    decreases g.len(),
{
    if g.len() == 0 {
        0
    } else {
        total_cells(g.drop_last()) + g.last().len()
    }
}

/// In one row, every cell is either empty or occupied.
pub proof fn lemma_count_row_split(s: Seq<u32>)
    ensures
        count_zeros_row(s) + count_occupied_row(s) == s.len(),
    decreases s.len(),
{
    if s.len() > 0 {
        lemma_count_row_split(s.drop_last());
    }
}

proof fn lemma_count_grid_total(g: Seq<Seq<u32>>)
    ensures
        count_zeros_grid(g) + count_occupied_grid(g) == total_cells(g),
    decreases g.len(),
{
    if g.len() > 0 {
        lemma_count_grid_total(g.drop_last());
        lemma_count_row_split(g.last());
    }
}

proof fn lemma_total_cells_rect(g: Seq<Seq<u32>>, l: nat)
    requires
        forall|i: int| 0 <= i < g.len() ==> (#[trigger] g[i]).len() == l,
    ensures
        total_cells(g) == g.len() * l,
    decreases g.len(),
{
    if g.len() > 0 {
        lemma_total_cells_rect(g.drop_last(), l);
        assert((g.len() - 1) * l + l == g.len() * l) by (nonlinear_arith);
    }
}

/// Every cell is either empty or occupied: on a well-formed grid the two
/// counts always sum to the full cell count.
pub proof fn lemma_empty_occupied_split(g: Seq<Seq<u32>>)
    requires
        grid_wf(g),
    ensures
        count_zeros_grid(g) + count_occupied_grid(g) == g.len() * g.len(),
{
    lemma_count_grid_total(g);
    lemma_total_cells_rect(g, g.len() as nat);
}

/// A row with every cell empty.
fn zero_row(size: usize) -> (r: Vec<u32>)
    ensures
        r@.len() == size,
        forall|j: int| 0 <= j < size ==> r@[j] == 0u32,
{
    let mut row: Vec<u32> = Vec::new();
    let mut j: usize = 0;
    while j < size
        invariant
            j <= size,
            row@.len() == j,
            forall|k: int| 0 <= k < j ==> row@[k] == 0u32,
        decreases size - j,
    {
        row.push(0u32);
        j = j + 1;
    }
    row
}

/// An N x N table of cell values; `0` marks an empty cell.
pub struct Board {
    cells: Vec<Vec<u32>>,
}

impl View for Board {
    type V = Seq<Seq<u32>>;

    closed spec fn view(&self) -> Seq<Seq<u32>> {
        Seq::new(self.cells@.len(), |i: int| self.cells@[i]@)
    }
}

impl Board {
    /// The board is well formed when its grid of cells is.
    pub open spec fn wf(&self) -> bool {
        grid_wf(self@)
    }

    /// A fresh board with every cell empty.
    pub fn new(size: usize) -> (b: Board)
        requires
            2 <= size,
            size * size <= usize::MAX,
        ensures
            b.wf(),
            b@.len() == size,
            forall|i: int, j: int| 0 <= i < size && 0 <= j < size ==> b@[i][j] == 0u32,
    {
        let mut cells: Vec<Vec<u32>> = Vec::new();
        let mut i: usize = 0;
        while i < size
            invariant
                i <= size,
                cells@.len() == i,
                forall|r: int| 0 <= r < i ==> (#[trigger] cells@[r])@.len() == size,
                forall|r: int, c: int| 0 <= r < i && 0 <= c < size ==> cells@[r]@[c] == 0u32,
            decreases size - i,
        {
            let row: Vec<u32> = zero_row(size);
            cells.push(row);
            i = i + 1;
        }
        Board { cells }
    }

    /// The side length of the board.
    pub fn size(&self) -> (n: usize)
        ensures
            n == self@.len(),
    {
        self.cells.len()
    }

    /// The value of one cell.
    pub fn get(&self, r: usize, c: usize) -> (v: u32)
        requires
            self.wf(),
            r < self@.len(),
            c < self@.len(),
        ensures
            v == self@[r as int][c as int],
    {
        proof {
            assert(self@[r as int].len() == self@.len());
            assert(self@[r as int] == self.cells@[r as int]@);
        }
        self.cells[r][c]
    }

    /// Replace the value of one cell.
    pub fn set(&mut self, r: usize, c: usize, v: u32)
        requires
            old(self).wf(),
            r < old(self)@.len(),
            c < old(self)@.len(),
        ensures
            final(self).wf(),
            final(self)@ == grid_set(old(self)@, r as int, c as int, v),
            final(self)@.len() == old(self)@.len(),
    {
        proof {
            assert(old(self)@[r as int].len() == old(self)@.len());
            assert(old(self)@[r as int] == old(self).cells@[r as int]@);
        }
        self.cells[r][c] = v;
        proof {
            assert(self@ =~~= grid_set(old(self)@, r as int, c as int, v));
        }
    }

    /// How many cells are empty.
    pub fn count_empty(&self) -> (n: usize)
        requires
            self.wf(),
        ensures
            n == count_zeros_grid(self@),
    {
        let size = self.cells.len();
        let mut acc: usize = 0;
        let mut i: usize = 0;
        proof {
            assert(self@.take(0) =~~= Seq::<Seq<u32>>::empty());
        }
        while i < size
            invariant
                self.wf(),
                size == self@.len(),
                i <= size,
                acc == count_zeros_grid(self@.take(i as int)),
            decreases size - i,
        {
            proof {
                assert(self@[i as int] == self.cells@[i as int]@);
                lemma_count_grid_total(self@.take(i as int));
                lemma_total_cells_rect(self@.take(i as int), size as nat);
                lemma_count_row_split(self@[i as int]);
                vstd::arithmetic::mul::lemma_mul_inequality(i + 1, size as int, size as int);
                assert((i as int) * (size as int) + size as int == (i + 1) * (size as int))
                    by (nonlinear_arith);
            }
            let rc = count_zeros_in_row(&self.cells[i]);
            acc = acc + rc;
            proof {
                assert(self@.take(i + 1).drop_last() =~~= self@.take(i as int));
                assert(self@.take(i + 1).last() == self@[i as int]);
            }
            i = i + 1;
        }
        proof {
            assert(self@.take(size as int) =~~= self@);
        }
        acc
    }

    /// How many cells hold a tile.
    pub fn count_occupied(&self) -> (n: usize)
        requires
            self.wf(),
        ensures
            n == count_occupied_grid(self@),
    {
        let size = self.cells.len();
        let empty = self.count_empty();
        proof {
            lemma_empty_occupied_split(self@);
        }
        size * size - empty
    }

    /// Whether no cell is empty.
    pub fn is_board_full(&self) -> (r: bool)
        requires
            self.wf(),
        ensures
            r == (count_zeros_grid(self@) == 0),
    {
        self.count_empty() == 0
    }

    /// The coordinates of exactly the empty cells, each once, in
    /// row-major order.
    pub fn empty_cells(&self) -> (r: Vec<(usize, usize)>)
        requires
            self.wf(),
        ensures
            r@.len() == count_zeros_grid(self@),
            forall|k: int|
                0 <= k < r@.len()
                    ==> (#[trigger] r@[k]).0 < self@.len() && r@[k].1 < self@.len()
                    && self@[r@[k].0 as int][r@[k].1 as int] == 0u32,
            forall|a: int, b: int|
                0 <= a < self@.len() && 0 <= b < self@.len() && self@[a][b] == 0u32
                    ==> r@.contains((a as usize, b as usize)),
            forall|k1: int, k2: int|
                0 <= k1 < k2 < r@.len() ==> (#[trigger] r@[k1]).0 < (#[trigger] r@[k2]).0 || (
                r@[k1].0 == r@[k2].0 && r@[k1].1 < r@[k2].1),
    {
        let size = self.cells.len();
        let mut acc: Vec<(usize, usize)> = Vec::new();
        let mut i: usize = 0;
        proof {
            assert(self@.take(0) =~~= Seq::<Seq<u32>>::empty());
        }
        while i < size
            invariant
                self.wf(),
                size == self@.len(),
                i <= size,
                acc@.len() == count_zeros_grid(self@.take(i as int)),
                forall|k: int|
                    0 <= k < acc@.len()
                        ==> (#[trigger] acc@[k]).0 < size && acc@[k].1 < size
                        && self@[acc@[k].0 as int][acc@[k].1 as int] == 0u32,
                forall|a: int, b: int|
                    0 <= a < i && 0 <= b < size && self@[a][b] == 0u32 ==> acc@.contains(
                        (a as usize, b as usize),
                    ),
                forall|k: int| 0 <= k < acc@.len() ==> (#[trigger] acc@[k]).0 < i,
                forall|k1: int, k2: int|
                    0 <= k1 < k2 < acc@.len() ==> (#[trigger] acc@[k1]).0 < (
                    #[trigger] acc@[k2]).0 || (acc@[k1].0 == acc@[k2].0 && acc@[k1].1
                        < acc@[k2].1),
            decreases size - i,
        {
            let mut j: usize = 0;
            proof {
                assert(self@[i as int].take(0) =~~= Seq::<u32>::empty());
            }
            while j < size
                invariant
                    self.wf(),
                    size == self@.len(),
                    i < size,
                    j <= size,
                    acc@.len() == count_zeros_grid(self@.take(i as int)) + count_zeros_row(
                        self@[i as int].take(j as int),
                    ),
                    forall|k: int|
                        0 <= k < acc@.len()
                            ==> (#[trigger] acc@[k]).0 < size && acc@[k].1 < size
                            && self@[acc@[k].0 as int][acc@[k].1 as int] == 0u32,
                    forall|a: int, b: int|
                        0 <= a < i && 0 <= b < size && self@[a][b] == 0u32 ==> acc@.contains(
                            (a as usize, b as usize),
                        ),
                    forall|b: int|
                        0 <= b < j && self@[i as int][b] == 0u32 ==> acc@.contains(
                            (i as usize, b as usize),
                        ),
                    forall|k: int|
                        0 <= k < acc@.len() ==> (#[trigger] acc@[k]).0 < i || (acc@[k].0 == i
                            && acc@[k].1 < j),
                    forall|k1: int, k2: int|
                        0 <= k1 < k2 < acc@.len() ==> (#[trigger] acc@[k1]).0 < (
                        #[trigger] acc@[k2]).0 || (acc@[k1].0 == acc@[k2].0 && acc@[k1].1
                            < acc@[k2].1),
                decreases size - j,
            {
                proof {
                    assert(self@[i as int] == self.cells@[i as int]@);
                    assert(self@[i as int].take(j + 1).drop_last() =~~= self@[i as int].take(
                        j as int,
                    ));
                    assert(self@[i as int].take(j + 1).last() == self@[i as int][j as int]);
                }
                let ghost pre = acc@;
                if self.cells[i][j] == 0 {
                    acc.push((i, j));
                }
                proof {
                    assert forall|a: int, b: int|
                        0 <= a < i && 0 <= b < size && self@[a][b] == 0u32 implies acc@.contains(
                        (a as usize, b as usize),
                    ) by {
                        assert(pre.contains((a as usize, b as usize)));
                        let k = choose|k: int|
                            0 <= k < pre.len() && pre[k] == (a as usize, b as usize);
                        assert(acc@[k] == (a as usize, b as usize));
                    }
                    assert forall|b: int|
                        0 <= b < j + 1 && self@[i as int][b] == 0u32 implies acc@.contains(
                        (i as usize, b as usize),
                    ) by {
                        if b < j {
                            assert(pre.contains((i as usize, b as usize)));
                            let k = choose|k: int|
                                0 <= k < pre.len() && pre[k] == (i as usize, b as usize);
                            assert(acc@[k] == (i as usize, b as usize));
                        } else {
                            assert(acc@[acc@.len() - 1] == (i as usize, b as usize));
                        }
                    }
                }
                j = j + 1;
            }
            proof {
                assert(self@[i as int].take(size as int) =~~= self@[i as int]);
                assert(self@.take(i + 1).drop_last() =~~= self@.take(i as int));
                assert(self@.take(i + 1).last() == self@[i as int]);
            }
            i = i + 1;
        }
        proof {
            assert(self@.take(size as int) =~~= self@);
        }
        acc
    }

    /// Cell-wise comparison of two boards.
    pub fn equals(&self, other: &Board) -> (r: bool)
        requires
            self.wf(),
            other.wf(),
        ensures
            r == (self@ == other@),
    {
        let size = self.cells.len();
        if other.cells.len() != size {
            return false;
        }
        let mut i: usize = 0;
        while i < size
            invariant
                self.wf(),
                other.wf(),
                size == self@.len(),
                size == other@.len(),
                i <= size,
                forall|r: int, c: int|
                    0 <= r < i && 0 <= c < size ==> self@[r][c] == other@[r][c],
            decreases size - i,
        {
            let mut j: usize = 0;
            while j < size
                invariant
                    self.wf(),
                    other.wf(),
                    size == self@.len(),
                    size == other@.len(),
                    i < size,
                    j <= size,
                    forall|r: int, c: int|
                        0 <= r < i && 0 <= c < size ==> self@[r][c] == other@[r][c],
                    forall|c: int| 0 <= c < j ==> self@[i as int][c] == other@[i as int][c],
                decreases size - j,
            {
                proof {
                    assert(self@[i as int] == self.cells@[i as int]@);
                    assert(other@[i as int] == other.cells@[i as int]@);
                }
                if self.cells[i][j] != other.cells[i][j] {
                    return false;
                }
                j = j + 1;
            }
            i = i + 1;
        }
        proof {
            assert forall|r: int| 0 <= r < size implies self@[r] == other@[r] by {
                assert(self@[r] =~~= other@[r]);
            }
            assert(self@ =~~= other@);
        }
        true
    }

    /// A copy of the grid as plain rows of values.
    pub fn get_board(&self) -> (r: Vec<Vec<u32>>)
        requires
            self.wf(),
        ensures
            r@.len() == self@.len(),
            forall|i: int| 0 <= i < r@.len() ==> (#[trigger] r@[i])@ == self@[i],
    {
        let size = self.cells.len();
        let mut rows: Vec<Vec<u32>> = Vec::new();
        let mut i: usize = 0;
        while i < size
            invariant
                self.wf(),
                size == self@.len(),
                i <= size,
                rows@.len() == i,
                forall|r: int| 0 <= r < i ==> (#[trigger] rows@[r])@ == self@[r],
            decreases size - i,
        {
            proof {
                assert(self@[i as int] == self.cells@[i as int]@);
            }
            let row = copy_row(&self.cells[i]);
            rows.push(row);
            i = i + 1;
        }
        rows
    }

    /// A board with the same cell values.
    pub fn snapshot(&self) -> (b: Board)
        requires
            self.wf(),
        ensures
            b.wf(),
            b@ == self@,
    {
        let rows = self.get_board();
        let b = Board { cells: rows };
        proof {
            assert(b@ =~~= self@);
        }
        b
    }

    /// Build a board from plain rows of values; rejects a table that is not
    /// square, smaller than two rows, or too large for its cell count to be
    /// a `usize`.
    pub fn from_rows(rows: Vec<Vec<u32>>) -> (r: Option<Board>)
        ensures
            r is Some <==> (2 <= rows@.len() && rows@.len() * rows@.len() <= usize::MAX
                && forall|i: int|
                    0 <= i < rows@.len() ==> (#[trigger] rows@[i])@.len() == rows@.len()),
            r is Some ==> r->Some_0.wf() && r->Some_0@.len() == rows@.len() && forall|i: int|
                0 <= i < rows@.len() ==> r->Some_0@[i] == (#[trigger] rows@[i])@,
    {
        let size = rows.len();
        if size < 2 {
            return None;
        }
        if size.checked_mul(size).is_none() {
            return None;
        }
        let mut i: usize = 0;
        while i < size
            invariant
                size == rows@.len(),
                i <= size,
                forall|r: int| 0 <= r < i ==> (#[trigger] rows@[r])@.len() == size,
            decreases size - i,
        {
            if rows[i].len() != size {
                return None;
            }
            i = i + 1;
        }
        let b = Board { cells: rows };
        Some(b)
    }

    /// Build a board from rows already known to form a square table.
    pub(crate) fn from_rows_exact(rows: Vec<Vec<u32>>) -> (b: Board)
        requires
            2 <= rows@.len(),
            rows@.len() * rows@.len() <= usize::MAX,
            forall|i: int| 0 <= i < rows@.len() ==> (#[trigger] rows@[i])@.len() == rows@.len(),
        ensures
            b.wf(),
            b@.len() == rows@.len(),
            forall|i: int| 0 <= i < rows@.len() ==> b@[i] == (#[trigger] rows@[i])@,
    {
        Board { cells: rows }
    }
}

/// A copy of one row.
fn copy_row(row: &Vec<u32>) -> (r: Vec<u32>)
    ensures
        r@ == row@,
{
    let mut out: Vec<u32> = Vec::new();
    let mut j: usize = 0;
    while j < row.len()
        invariant
            j <= row@.len(),
            out@ == row@.take(j as int),
        decreases row@.len() - j,
    {
        out.push(row[j]);
        proof {
            assert(out@ =~~= row@.take(j + 1));
        }
        j = j + 1;
    }
    proof {
        assert(row@.take(row@.len() as int) =~~= row@);
    }
    out
}

/// How many cells of one row are empty.
fn count_zeros_in_row(row: &Vec<u32>) -> (n: usize)
    ensures
        n == count_zeros_row(row@),
{
    let mut acc: usize = 0;
    let mut j: usize = 0;
    proof {
        assert(row@.take(0) =~~= Seq::<u32>::empty());
    }
    while j < row.len()
        invariant
            j <= row@.len(),
            acc == count_zeros_row(row@.take(j as int)),
            acc <= j,
        decreases row@.len() - j,
    {
        if row[j] == 0 {
            acc = acc + 1;
        }
        proof {
            assert(row@.take(j + 1).drop_last() =~~= row@.take(j as int));
            assert(row@.take(j + 1).last() == row@[j as int]);
        }
        j = j + 1;
    }
    proof {
        assert(row@.take(row@.len() as int) =~~= row@);
    }
    acc
}

} // verus!
