//! The board: an n-by-n grid holding a permutation of `0 .. n*n - 1`,
//! where 0 marks the blank cell, together with move enumeration and move
//! application.

use vstd::prelude::*;
use vstd::arithmetic::div_mod::lemma_fundamental_div_mod_converse;
use crate::grid_ext::{grid_seq, grid_cols, grid_row_major, grid_swap, grid_eq, grid_clone, grid_get};

verus! {

/// Direction the blank travels in a move (not the tile).
#[derive(PartialEq, Eq, Clone, Copy, Debug)]
pub enum Directions {
    UP,
    DOWN,
    LEFT,
    RIGHT,
}

/// The lower-bound estimators a search can use.
#[derive(Clone, Copy)]
pub enum Heuristics {
    NONE,
    MANHATTAN,
    LINCONFLICT,
}

/// Mathematical model of a board: its cells in row-major reading order,
/// its side length, and the coordinates (row, column) of the blank.
#[verifier::ext_equal]
pub ghost struct BoardV {
    pub cells: Seq<usize>,
    pub n: nat,
    pub blank: (nat, nat),
}

impl BoardV {
    /// The row-major index of the blank.
    pub open spec fn blank_idx(self) -> int {
        self.blank.0 as int * self.n as int + self.blank.1 as int
    }

    /// Well-formed board: the side is positive, the cell count fits the
    /// machine, the cells are `n * n` pairwise distinct values below
    /// `n * n` (hence a permutation of `0 .. n*n - 1`), the blank
    /// coordinates are on the board, and the blank's cell holds 0.
    pub open spec fn wf(self) -> bool {
        &&& 1 <= self.n
        &&& self.n * self.n <= usize::MAX
        &&& self.cells.len() == self.n * self.n
        &&& forall|i: int| 0 <= i < self.cells.len() ==> (#[trigger] self.cells[i] as nat) < self.n * self.n
        &&& forall|i: int, j: int|
            0 <= i < j < self.cells.len() ==> #[trigger] self.cells[i] != #[trigger] self.cells[j]
        &&& self.blank.0 < self.n
        &&& self.blank.1 < self.n
        &&& self.cells[self.blank_idx()] == 0
    }
}

/// The cells of the solved board of side `n`: `1, 2, ..., n*n - 1, 0`.
pub open spec fn target_cells(n: nat) -> Seq<usize> {
    Seq::new(n * n, |i: int| if i == n * n - 1 { 0usize } else { (i + 1) as usize })
}

/// The solved board of side `n`: target cells, blank in the last cell.
pub open spec fn target_board_v(n: nat) -> BoardV {
    BoardV { cells: target_cells(n), n: n, blank: ((n - 1) as nat, (n - 1) as nat) }
}

/// A move is legal exactly when the blank has a neighbour in that direction.
pub open spec fn dir_legal(v: BoardV, d: Directions) -> bool {
    match d {
        Directions::UP => v.blank.0 > 0,
        Directions::DOWN => v.blank.0 + 1 < v.n,
        Directions::LEFT => v.blank.1 > 0,
        Directions::RIGHT => v.blank.1 + 1 < v.n,
    }
}

/// The cell the blank moves into.
pub open spec fn dir_dest(v: BoardV, d: Directions) -> (nat, nat)
    recommends
        dir_legal(v, d),
{
    match d {
        Directions::UP => ((v.blank.0 - 1) as nat, v.blank.1),
        Directions::DOWN => ((v.blank.0 + 1) as nat, v.blank.1),
        Directions::LEFT => (v.blank.0, (v.blank.1 - 1) as nat),
        Directions::RIGHT => (v.blank.0, (v.blank.1 + 1) as nat),
    }
}

/// The board after the blank swaps with its neighbour in direction `d`.
pub open spec fn apply_move(v: BoardV, d: Directions) -> BoardV
    recommends
        dir_legal(v, d),
{
    let dest = dir_dest(v, d);
    let i1 = v.blank_idx();
    let i2 = dest.0 as int * v.n as int + dest.1 as int;
    BoardV {
        cells: v.cells.update(i1, v.cells[i2]).update(i2, v.cells[i1]),
        n: v.n,
        blank: dest,
    }
}

/// The direction that undoes `d`.
pub open spec fn opposite(d: Directions) -> Directions {
    match d {
        Directions::UP => Directions::DOWN,
        Directions::DOWN => Directions::UP,
        Directions::LEFT => Directions::RIGHT,
        Directions::RIGHT => Directions::LEFT,
    }
}

/// The legal moves from `v`, in the fixed order UP, DOWN, LEFT, RIGHT.
pub open spec fn legal_dirs(v: BoardV) -> Seq<Directions> {
    (if v.blank.0 > 0 { seq![Directions::UP] } else { Seq::<Directions>::empty() })
        + (if v.blank.0 + 1 < v.n { seq![Directions::DOWN] } else { Seq::<Directions>::empty() })
        + (if v.blank.1 > 0 { seq![Directions::LEFT] } else { Seq::<Directions>::empty() })
        + (if v.blank.1 + 1 < v.n { seq![Directions::RIGHT] } else { Seq::<Directions>::empty() })
}

/// A row-major index formed from on-board coordinates is in range.
pub proof fn lemma_rc_index_bounds(n: nat, r: nat, c: nat)
    requires
        r < n,
        c < n,
    ensures
        r * n + c < n * n,
{
    assert(r * n + c < n * n) by (nonlinear_arith)
        requires
            r < n,
            c < n,
    ;
}

/// Row-major indexing is injective on on-board coordinates.
pub proof fn lemma_rc_index_injective(n: nat, r1: nat, c1: nat, r2: nat, c2: nat)
    requires
        r1 < n,
        c1 < n,
        r2 < n,
        c2 < n,
        r1 * n + c1 == r2 * n + c2,
    ensures
        r1 == r2,
        c1 == c2,
{
    let x = r1 * n + c1;
    lemma_fundamental_div_mod_converse(x as int, n as int, r1 as int, c1 as int);
    lemma_fundamental_div_mod_converse(x as int, n as int, r2 as int, c2 as int);
}

/// Distinct on-board coordinates give distinct row-major indices.
pub proof fn lemma_rc_index_distinct(n: nat, r1: nat, c1: nat, r2: nat, c2: nat)
    requires
        r1 < n,
        c1 < n,
        r2 < n,
        c2 < n,
        r1 != r2 || c1 != c2,
    ensures
        r1 * n + c1 != r2 * n + c2,
{
    if r1 * n + c1 == r2 * n + c2 {
        lemma_rc_index_injective(n, r1, c1, r2, c2);
    }
}

/// Applying a legal move to a well-formed board yields a well-formed board
/// of the same side.
pub proof fn lemma_apply_move_wf(v: BoardV, d: Directions)
    requires
        v.wf(),
        dir_legal(v, d),
    ensures
        apply_move(v, d).wf(),
        apply_move(v, d).n == v.n,
{
    let w = apply_move(v, d);
    let dest = dir_dest(v, d);
    let i1 = v.blank_idx();
    let i2 = dest.0 as int * v.n as int + dest.1 as int;
    lemma_rc_index_bounds(v.n, v.blank.0, v.blank.1);
    lemma_rc_index_bounds(v.n, dest.0, dest.1);
    lemma_rc_index_distinct(v.n, v.blank.0, v.blank.1, dest.0, dest.1);
    assert(i1 != i2);
    assert(w.cells[w.blank_idx()] == 0);
    assert forall|i: int, j: int| 0 <= i < j < w.cells.len() implies #[trigger] w.cells[i] != #[trigger] w.cells[j] by {
        assert(v.cells[i] != v.cells[j]);
    }
}

/// Every direction listed by `legal_dirs` is legal, and every legal
/// direction is listed.
pub proof fn lemma_legal_dirs_are_legal(v: BoardV)
    ensures
        forall|i: int| 0 <= i < legal_dirs(v).len() ==> dir_legal(v, #[trigger] legal_dirs(v)[i]),
        forall|d: Directions| dir_legal(v, d) ==> legal_dirs(v).contains(d),
{
    let s = legal_dirs(v);
    assert forall|d: Directions| dir_legal(v, d) implies legal_dirs(v).contains(d) by {
        let up = if v.blank.0 > 0 { seq![Directions::UP] } else { Seq::<Directions>::empty() };
        let down = if v.blank.0 + 1 < v.n { seq![Directions::DOWN] } else { Seq::<Directions>::empty() };
        let left = if v.blank.1 > 0 { seq![Directions::LEFT] } else { Seq::<Directions>::empty() };
        let right = if v.blank.1 + 1 < v.n { seq![Directions::RIGHT] } else { Seq::<Directions>::empty() };
        match d {
            Directions::UP => {
                assert(s[0] == Directions::UP);
            },
            Directions::DOWN => {
                assert(s[up.len() as int] == Directions::DOWN);
            },
            Directions::LEFT => {
                assert(s[up.len() as int + down.len() as int] == Directions::LEFT);
            },
            Directions::RIGHT => {
                assert(s[up.len() as int + down.len() as int + left.len() as int] == Directions::RIGHT);
            },
        }
    }
}

/// Applying a legal move and then its opposite returns to the same board.
pub proof fn lemma_apply_move_inverse(v: BoardV, d: Directions)
    requires
        v.wf(),
        dir_legal(v, d),
    ensures
        dir_legal(apply_move(v, d), opposite(d)),
        apply_move(apply_move(v, d), opposite(d)) == v,
{
    let w = apply_move(v, d);
    let dest = dir_dest(v, d);
    let i1 = v.blank_idx();
    let i2 = dest.0 as int * v.n as int + dest.1 as int;
    lemma_rc_index_bounds(v.n, v.blank.0, v.blank.1);
    lemma_rc_index_bounds(v.n, dest.0, dest.1);
    lemma_rc_index_distinct(v.n, v.blank.0, v.blank.1, dest.0, dest.1);
    lemma_apply_move_wf(v, d);
    assert(dir_dest(w, opposite(d)) == v.blank);
    let u = apply_move(w, opposite(d));
    assert(u.cells =~= v.cells);
    assert(u =~= v);
}

/// How many legal moves a board offers: 2 at a corner, 3 on a non-corner
/// edge cell, 4 in the interior.
pub proof fn lemma_legal_dirs_count(v: BoardV)
    requires
        v.wf(),
        2 <= v.n,
    ensures
        (v.blank.0 == 0 || v.blank.0 == v.n - 1) && (v.blank.1 == 0 || v.blank.1 == v.n - 1)
            ==> legal_dirs(v).len() == 2,
        ((v.blank.0 == 0 || v.blank.0 == v.n - 1) != (v.blank.1 == 0 || v.blank.1 == v.n - 1))
            ==> legal_dirs(v).len() == 3,
        0 < v.blank.0 < v.n - 1 && 0 < v.blank.1 < v.n - 1 ==> legal_dirs(v).len() == 4,
{
}

/// A sliding-tile board. The cells live in a `grid::Grid<usize>`; `n` is
/// the side length and `pos_0` the (row, column) of the blank.
pub struct Board {
    grid: grid::Grid<usize>,
    n: usize,
    pos_0: (usize, usize),
}

impl View for Board {
    type V = BoardV;

    closed spec fn view(&self) -> BoardV {
        BoardV {
            cells: grid_seq(self.grid),
            n: self.n as nat,
            blank: (self.pos_0.0 as nat, self.pos_0.1 as nat),
        }
    }
}

impl Clone for Board {
    /// Copies the board; the copy has the same model.
    fn clone(&self) -> (res: Board)
        ensures
            res@ == self@,
            self.inv() ==> res.inv(),
    {
        Board { grid: grid_clone(&self.grid), n: self.n, pos_0: self.pos_0 }
    }
}

impl Board {
    /// The board's representation invariant: the grid is one that
    /// `grid::Grid::from_vec` built, and its column count is the side.
    pub closed spec fn inv(&self) -> bool {
        &&& grid_row_major(self.grid)
        &&& grid_cols(self.grid) == self.n as nat
        &&& 1 <= self.n
    }

    /// The side length.
    pub fn get_n(&self) -> (r: usize)
        ensures
            r as nat == self@.n,
    {
        self.n
    }

    /// The underlying grid.
    pub fn get_grid(&self) -> (r: &grid::Grid<usize>)
        ensures
            grid_seq(*r) == self@.cells,
            self.inv() ==> grid_row_major(*r) && grid_cols(*r) == self@.n,
    {
        &self.grid
    }

    /// The (row, column) of the blank.
    pub fn get_pos_0(&self) -> (r: (usize, usize))
        ensures
            r.0 as nat == self@.blank.0,
            r.1 as nat == self@.blank.1,
    {
        self.pos_0
    }

    /// Wraps an already well-formed grid as a board.
    pub fn new(board: grid::Grid<usize>, n: usize, pos_0: (usize, usize)) -> (r: Board)
        requires
            grid_row_major(board),
            grid_cols(board) == n as nat,
            1 <= n,
            (BoardV {
                cells: grid_seq(board),
                n: n as nat,
                blank: (pos_0.0 as nat, pos_0.1 as nat),
            }).wf(),
        ensures
            r.inv(),
            r@ == (BoardV {
                cells: grid_seq(board),
                n: n as nat,
                blank: (pos_0.0 as nat, pos_0.1 as nat),
            }),
            r@.wf(),
    {
        Board { grid: board, n, pos_0 }
    }

    /// Structural equality over the grid: same dimensions, same cells.
    pub fn equals(&self, other: &Board) -> (r: bool)
        requires
            self.inv(),
            other.inv(),
        ensures
            r == (self@.cells == other@.cells && self@.n == other@.n),
    {
        grid_eq(&self.grid, &other.grid)
    }

    /// The legal moves from this board, in the order UP, DOWN, LEFT, RIGHT.
    pub fn next_directions(&self) -> (r: Vec<Directions>)
        requires
            self.inv(),
            self@.wf(),
        ensures
            r@ == legal_dirs(self@),
    {
        let mut next_pos: Vec<Directions> = Vec::new();
        if self.pos_0.0 > 0 {
            next_pos.push(Directions::UP);
        }
        if self.pos_0.0 + 1 < self.n {
            next_pos.push(Directions::DOWN);
        }
        if self.pos_0.1 > 0 {
            next_pos.push(Directions::LEFT);
        }
        if self.pos_0.1 + 1 < self.n {
            next_pos.push(Directions::RIGHT);
        }
        proof {
            assert(next_pos@ =~= legal_dirs(self@));
        }
        next_pos
    }

    /// Swaps the blank with its neighbour in direction `move_d`.
    pub fn make_move(&mut self, move_d: Directions)
        requires
            old(self).inv(),
            old(self)@.wf(),
            dir_legal(old(self)@, move_d),
        ensures
            final(self).inv(),
            final(self)@ == apply_move(old(self)@, move_d),
            final(self)@.wf(),
    {
        let x = self.pos_0.0;
        let y = self.pos_0.1;
        let (nx, ny): (usize, usize) = match move_d {
            Directions::UP => (x - 1, y),
            Directions::DOWN => (x + 1, y),
            Directions::LEFT => (x, y - 1),
            Directions::RIGHT => (x, y + 1),
        };
        proof {
            lemma_rc_index_bounds(self@.n, self@.blank.0, self@.blank.1);
            lemma_rc_index_bounds(self@.n, nx as nat, ny as nat);
        }
        grid_swap(&mut self.grid, (nx, ny), (x, y));
        self.pos_0 = (nx, ny);
        proof {
            let v = old(self)@;
            let w = apply_move(v, move_d);
            lemma_rc_index_distinct(v.n, v.blank.0, v.blank.1, nx as nat, ny as nat);
            assert(self@.cells =~= w.cells);
            assert(self@ =~= w);
            lemma_apply_move_wf(v, move_d);
        }
    }
}

} // verus!
// The heuristics live in their own `verus!` block to keep proof contexts
// small.
verus! {

/// Machine-size bound under which every heuristic sum fits in `usize`:
/// the Manhattan distance is at most `2 * n * n * n`, and each of the two
/// conflict sums is at most `2 * n * n * n` as well.
pub open spec fn size_ok(n: nat) -> bool {
    8 * n * n * n <= usize::MAX
}

/// The Manhattan distance of the tile in cell `k` to its goal cell
/// (0 for the blank).
pub open spec fn tile_dist(v: BoardV, k: int) -> nat
    recommends
        v.wf(),
        0 <= k < v.cells.len(),
{
    let val = v.cells[k] as int;
    if val == 0 {
        0
    } else {
        let n = v.n as int;
        let r = k / n;
        let c = k % n;
        let gr = (val - 1) / n;
        let gc = (val - 1) % n;
        (vstd::math::abs(r - gr) + vstd::math::abs(c - gc)) as nat
    }
}

/// Sum of `tile_dist` over the first `k` cells.
pub open spec fn manhattan_prefix(v: BoardV, k: int) -> nat
    decreases k,
{
    if k <= 0 {
        0
    } else {
        manhattan_prefix(v, k - 1) + tile_dist(v, k - 1)
    }
}

/// The Manhattan heuristic: sum over all cells of the tile's distance to
/// its goal cell.
pub open spec fn spec_manhattan(v: BoardV) -> nat {
    manhattan_prefix(v, v.cells.len() as int)
}

/// The cost two same-line tiles add when they sit in reversed relative
/// order compared to their goal order along that line. `a` and `b` are
/// (position in line, goal position in line).
pub open spec fn pair_conflict(a: (usize, usize), b: (usize, usize)) -> nat {
    if (a.0 < b.0 && a.1 > b.1) || (a.0 > b.0 && a.1 < b.1) {
        2
    } else {
        0
    }
}

/// Conflict cost of the pairs (i, j') with `i < j' < j`.
pub open spec fn cwl_prefix(tiles: Seq<(usize, usize)>, i: int, j: int) -> nat
    decreases j,
{
    if i < 0 || j <= i + 1 {
        0
    } else {
        cwl_prefix(tiles, i, j - 1) + pair_conflict(tiles[i], tiles[j - 1])
    }
}

/// Conflict cost of all pairs (i', j') with `i' < j' < tiles.len()` and
/// `i' < i`.
pub open spec fn line_conflicts_prefix(tiles: Seq<(usize, usize)>, i: int) -> nat
    decreases i,
{
    if i <= 0 {
        0
    } else {
        line_conflicts_prefix(tiles, i - 1) + cwl_prefix(tiles, i - 1, tiles.len() as int)
    }
}

/// Conflict cost of one line: 2 for every pair of listed tiles out of
/// relative goal order.
pub open spec fn line_conflicts(tiles: Seq<(usize, usize)>) -> nat {
    line_conflicts_prefix(tiles, tiles.len() as int)
}

/// The tiles among the first `col` cells of row `row` whose goal row is
/// `row`, as (column, goal column), in column order.
pub open spec fn row_tiles_prefix(v: BoardV, row: int, col: int) -> Seq<(usize, usize)>
    decreases col,
{
    if col <= 0 {
        Seq::<(usize, usize)>::empty()
    } else {
        let rest = row_tiles_prefix(v, row, col - 1);
        let n = v.n as int;
        let val = v.cells[row * n + (col - 1)] as int;
        if val != 0 && (val - 1) / n == row {
            rest.push(((col - 1) as usize, ((val - 1) % n) as usize))
        } else {
            rest
        }
    }
}

/// The tiles of row `row` that already sit in their goal row.
pub open spec fn row_tiles(v: BoardV, row: int) -> Seq<(usize, usize)> {
    row_tiles_prefix(v, row, v.n as int)
}

/// The tiles among the first `row` cells of column `col` whose goal column
/// is `col`, as (row, goal row), in row order.
pub open spec fn col_tiles_prefix(v: BoardV, col: int, row: int) -> Seq<(usize, usize)>
    decreases row,
{
    if row <= 0 {
        Seq::<(usize, usize)>::empty()
    } else {
        let rest = col_tiles_prefix(v, col, row - 1);
        let n = v.n as int;
        let val = v.cells[(row - 1) * n + col] as int;
        if val != 0 && (val - 1) % n == col {
            rest.push(((row - 1) as usize, ((val - 1) / n) as usize))
        } else {
            rest
        }
    }
}

/// The tiles of column `col` that already sit in their goal column.
pub open spec fn col_tiles(v: BoardV, col: int) -> Seq<(usize, usize)> {
    col_tiles_prefix(v, col, v.n as int)
}

/// Conflict cost summed over the first `row` rows.
pub open spec fn row_conflicts_prefix(v: BoardV, row: int) -> nat
    decreases row,
{
    if row <= 0 {
        0
    } else {
        row_conflicts_prefix(v, row - 1) + line_conflicts(row_tiles(v, row - 1))
    }
}

/// Conflict cost of all rows.
pub open spec fn spec_row_conflicts(v: BoardV) -> nat {
    row_conflicts_prefix(v, v.n as int)
}

/// Conflict cost summed over the first `col` columns.
pub open spec fn col_conflicts_prefix(v: BoardV, col: int) -> nat
    decreases col,
{
    if col <= 0 {
        0
    } else {
        col_conflicts_prefix(v, col - 1) + line_conflicts(col_tiles(v, col - 1))
    }
}

/// Conflict cost of all columns.
pub open spec fn spec_col_conflicts(v: BoardV) -> nat {
    col_conflicts_prefix(v, v.n as int)
}

/// The linear-conflict heuristic: Manhattan distance plus the row and
/// column conflict costs.
pub open spec fn spec_linear_conflict(v: BoardV) -> nat {
    spec_manhattan(v) + spec_row_conflicts(v) + spec_col_conflicts(v)
}

/// What each heuristic returns on a board.
pub open spec fn spec_heuristic(v: BoardV, h: Heuristics) -> nat {
    match h {
        Heuristics::NONE => 0,
        Heuristics::MANHATTAN => spec_manhattan(v),
        Heuristics::LINCONFLICT => spec_linear_conflict(v),
    }
}

/// The linear-conflict heuristic never falls below the Manhattan
/// heuristic: it is the Manhattan distance plus non-negative conflict
/// costs.
pub proof fn lemma_linear_conflict_dominates(v: BoardV)
    ensures
        spec_heuristic(v, Heuristics::LINCONFLICT) >= spec_heuristic(v, Heuristics::MANHATTAN),
{
}

/// A cell index below `n * n` has row and column below `n`.
pub proof fn lemma_rc_of_index(k: int, n: int)
    requires
        0 <= k,
        1 <= n,
        k < n * n,
    ensures
        0 <= k / n < n,
        0 <= k % n < n,
        k == n * (k / n) + (k % n),
{
    vstd::arithmetic::div_mod::lemma_fundamental_div_mod(k, n);
    vstd::arithmetic::div_mod::lemma_mod_bound(k, n);
    assert(k / n < n) by (nonlinear_arith)
        requires
            k == n * (k / n) + (k % n),
            0 <= k % n < n,
            k < n * n,
    ;
    assert(k / n >= 0) by (nonlinear_arith)
        requires
            k == n * (k / n) + (k % n),
            0 <= k % n < n,
            0 <= k,
            1 <= n,
    ;
}

/// Each tile's distance is at most `2 * n`.
pub proof fn lemma_tile_dist_bound(v: BoardV, k: int)
    requires
        v.wf(),
        0 <= k < v.cells.len(),
    ensures
        tile_dist(v, k) <= 2 * v.n,
{
    let n = v.n as int;
    let val = v.cells[k] as int;
    lemma_rc_of_index(k, n);
    if val != 0 {
        lemma_rc_of_index(val - 1, n);
    }
}

/// The Manhattan prefix sum is at most `2 * n * k`.
pub proof fn lemma_manhattan_prefix_bound(v: BoardV, k: int)
    requires
        v.wf(),
        0 <= k <= v.cells.len(),
    ensures
        manhattan_prefix(v, k) <= 2 * v.n * k,
    decreases k,
{
    if k > 0 {
        lemma_manhattan_prefix_bound(v, k - 1);
        lemma_tile_dist_bound(v, k - 1);
        assert(2 * v.n * (k - 1) + 2 * v.n == 2 * v.n * k) by (nonlinear_arith);
    }
}

/// The conflict cost of the pairs headed by one tile is at most
/// `2 * (j - i - 1)`.
pub proof fn lemma_cwl_prefix_bound(tiles: Seq<(usize, usize)>, i: int, j: int)
    ensures
        cwl_prefix(tiles, i, j) <= if j <= i + 1 { 0int } else { 2 * (j - i - 1) },
    decreases j,
{
    if !(i < 0 || j <= i + 1) {
        lemma_cwl_prefix_bound(tiles, i, j - 1);
    }
}

/// The conflict cost of one line is at most `2 * i * len`.
pub proof fn lemma_line_conflicts_prefix_bound(tiles: Seq<(usize, usize)>, i: int)
    requires
        0 <= i <= tiles.len(),
    ensures
        line_conflicts_prefix(tiles, i) <= 2 * i * tiles.len(),
    decreases i,
{
    if i > 0 {
        lemma_line_conflicts_prefix_bound(tiles, i - 1);
        lemma_cwl_prefix_bound(tiles, i - 1, tiles.len() as int);
        assert(2 * (i - 1) * tiles.len() + 2 * tiles.len() == 2 * i * tiles.len())
            by (nonlinear_arith);
    }
}

/// The conflict cost of one line is at most twice the square of its
/// tile count.
pub proof fn lemma_line_conflicts_bound(tiles: Seq<(usize, usize)>)
    ensures
        line_conflicts(tiles) <= 2 * tiles.len() * tiles.len(),
{
    lemma_line_conflicts_prefix_bound(tiles, tiles.len() as int);
}

/// A row lists at most `col` tiles.
pub proof fn lemma_row_tiles_len(v: BoardV, row: int, col: int)
    ensures
        row_tiles_prefix(v, row, col).len() <= if col <= 0 { 0int } else { col },
    decreases col,
{
    if col > 0 {
        lemma_row_tiles_len(v, row, col - 1);
    }
}

/// A column lists at most `row` tiles.
pub proof fn lemma_col_tiles_len(v: BoardV, col: int, row: int)
    ensures
        col_tiles_prefix(v, col, row).len() <= if row <= 0 { 0int } else { row },
    decreases row,
{
    if row > 0 {
        lemma_col_tiles_len(v, col, row - 1);
    }
}

/// The conflict cost of the first `row` rows is at most
/// `2 * row * n * n`.
pub proof fn lemma_row_conflicts_prefix_bound(v: BoardV, row: int)
    requires
        v.wf(),
        0 <= row,
    ensures
        row_conflicts_prefix(v, row) <= 2 * row * v.n * v.n,
    decreases row,
{
    let n = v.n as int;
    if row > 0 {
        lemma_row_conflicts_prefix_bound(v, row - 1);
        let tiles = row_tiles(v, row - 1);
        lemma_row_tiles_len(v, row - 1, n);
        lemma_line_conflicts_bound(tiles);
        assert(2 * tiles.len() * tiles.len() <= 2 * n * n) by (nonlinear_arith)
            requires
                0 <= tiles.len() <= n,
        ;
        assert(2 * (row - 1) * n * n + 2 * n * n == 2 * row * n * n) by (nonlinear_arith);
    }
}

/// The conflict cost of the first `col` columns is at most
/// `2 * col * n * n`.
pub proof fn lemma_col_conflicts_prefix_bound(v: BoardV, col: int)
    requires
        v.wf(),
        0 <= col,
    ensures
        col_conflicts_prefix(v, col) <= 2 * col * v.n * v.n,
    decreases col,
{
    let n = v.n as int;
    if col > 0 {
        lemma_col_conflicts_prefix_bound(v, col - 1);
        let tiles = col_tiles(v, col - 1);
        lemma_col_tiles_len(v, col - 1, n);
        lemma_line_conflicts_bound(tiles);
        assert(2 * tiles.len() * tiles.len() <= 2 * n * n) by (nonlinear_arith)
            requires
                0 <= tiles.len() <= n,
        ;
        assert(2 * (col - 1) * n * n + 2 * n * n == 2 * col * n * n) by (nonlinear_arith);
    }
}

} // verus!
// Executable heuristic evaluators.
verus! {

impl Board {
    /// Sum over every tile of its Manhattan distance to its goal cell.
    fn heuristic_manhattan(&self) -> (r: usize)
        requires
            self.inv(),
            self@.wf(),
            size_ok(self@.n),
        ensures
            r as nat == spec_manhattan(self@),
    {
        let ghost v = self@;
        let n = self.n;
        let mut manhattan: usize = 0;
        proof {
            assert(manhattan as nat == manhattan_prefix(v, 0int * n as int));
        }
        for j in 0..n
            invariant
                self.inv(),
                self@.wf(),
                size_ok(self@.n),
                v == self@,
                n == self.n,
                manhattan as nat == manhattan_prefix(v, j as int * n as int),
        {
            for i in 0..n
                invariant
                    self.inv(),
                    self@.wf(),
                    size_ok(self@.n),
                    v == self@,
                    n == self.n,
                    j < n,
                    manhattan as nat == manhattan_prefix(v, j as int * n as int + i as int),
            {
                proof {
                    lemma_rc_index_bounds(v.n, j as nat, i as nat);
                }
                let ghost k = j as int * n as int + i as int;
                let val = grid_get(&self.grid, j, i);
                if val != 0 {
                    let x = (val - 1) % n;
                    let y = (val - 1) / n;
                    let dx = if i >= x {
                        i - x
                    } else {
                        x - i
                    };
                    let dy = if j >= y {
                        j - y
                    } else {
                        y - j
                    };
                    proof {
                        lemma_fundamental_div_mod_converse(k, n as int, j as int, i as int);
                        lemma_rc_of_index(val as int - 1, n as int);
                        assert(tile_dist(v, k) == dx + dy);
                        lemma_manhattan_prefix_bound(v, k + 1);
                        assert(2 * v.n * (k + 1) <= 8 * v.n * v.n * v.n) by (nonlinear_arith)
                            requires
                                1 <= v.n,
                                0 <= k + 1 <= v.n * v.n,
                        ;
                    }
                    manhattan = manhattan + dx + dy;
                }
                proof {
                    assert(manhattan as nat == manhattan_prefix(v, k + 1));
                }
            }
            proof {
                assert((j + 1) as int * n as int == j as int * n as int + n as int)
                    by (nonlinear_arith);
            }
        }
        proof {
            assert(v.cells.len() as int == n as int * n as int);
        }
        manhattan
    }

    /// Conflict cost of one line: 2 for every listed pair out of relative
    /// goal order. Each entry is (position in line, goal position in line).
    fn count_conflicts_in_line(&self, tiles: &Vec<(usize, usize)>) -> (r: usize)
        requires
            4 * tiles@.len() * tiles@.len() <= usize::MAX,
        ensures
            r as nat == line_conflicts(tiles@),
    {
        let mut conflicts: usize = 0;
        let len = tiles.len();
        for i in 0..len
            invariant
                len == tiles@.len(),
                4 * tiles@.len() * tiles@.len() <= usize::MAX,
                conflicts as nat == line_conflicts_prefix(tiles@, i as int),
        {
            for j in (i + 1)..len
                invariant
                    len == tiles@.len(),
                    i < len,
                    4 * tiles@.len() * tiles@.len() <= usize::MAX,
                    conflicts as nat == line_conflicts_prefix(tiles@, i as int) + cwl_prefix(
                        tiles@,
                        i as int,
                        j as int,
                    ),
            {
                let (pos1, target1) = tiles[i];
                let (pos2, target2) = tiles[j];
                if (pos1 < pos2 && target1 > target2) || (pos1 > pos2 && target1 < target2) {
                    proof {
                        lemma_line_conflicts_prefix_bound(tiles@, i as int);
                        lemma_cwl_prefix_bound(tiles@, i as int, j as int);
                        assert(2 * i * len + 2 * (j - i - 1) + 2 <= 4 * len * len)
                            by (nonlinear_arith)
                            requires
                                0 <= i < len,
                                i < j < len,
                        ;
                    }
                    conflicts = conflicts + 2;
                }
                proof {
                    assert(cwl_prefix(tiles@, i as int, j as int + 1) == cwl_prefix(
                        tiles@,
                        i as int,
                        j as int,
                    ) + pair_conflict(tiles@[i as int], tiles@[j as int]));
                }
            }
        }
        conflicts
    }

    /// Conflict cost of the rows: tiles already in their goal row, counted
    /// per row.
    fn count_row_conflicts(&self) -> (r: usize)
        requires
            self.inv(),
            self@.wf(),
            size_ok(self@.n),
        ensures
            r as nat == spec_row_conflicts(self@),
    {
        let ghost v = self@;
        let n = self.n;
        let mut conflicts: usize = 0;
        for row in 0..n
            invariant
                self.inv(),
                self@.wf(),
                size_ok(self@.n),
                v == self@,
                n == self.n,
                conflicts as nat == row_conflicts_prefix(v, row as int),
        {
            let mut tiles: Vec<(usize, usize)> = Vec::new();
            for col in 0..n
                invariant
                    self.inv(),
                    self@.wf(),
                    size_ok(self@.n),
                    v == self@,
                    n == self.n,
                    row < n,
                    tiles@ == row_tiles_prefix(v, row as int, col as int),
            {
                proof {
                    lemma_rc_index_bounds(v.n, row as nat, col as nat);
                }
                let value = grid_get(&self.grid, row, col);
                if value != 0 {
                    let target_row = (value - 1) / n;
                    if target_row == row {
                        let target_col = (value - 1) % n;
                        tiles.push((col, target_col));
                    }
                }
            }
            proof {
                lemma_row_tiles_len(v, row as int, n as int);
                assert(4 * tiles@.len() * tiles@.len() <= 8 * v.n * v.n * v.n)
                    by (nonlinear_arith)
                    requires
                        0 <= tiles@.len() <= v.n,
                        1 <= v.n,
                ;
            }
            let c = self.count_conflicts_in_line(&tiles);
            proof {
                lemma_row_conflicts_prefix_bound(v, row as int + 1);
                assert(2 * (row as int + 1) * v.n * v.n <= 8 * v.n * v.n * v.n)
                    by (nonlinear_arith)
                    requires
                        0 <= row as int && (row as int) < v.n,
                        1 <= v.n,
                ;
            }
            conflicts = conflicts + c;
        }
        conflicts
    }

    /// Conflict cost of the columns: tiles already in their goal column,
    /// counted per column.
    fn count_col_conflicts(&self) -> (r: usize)
        requires
            self.inv(),
            self@.wf(),
            size_ok(self@.n),
        ensures
            r as nat == spec_col_conflicts(self@),
    {
        let ghost v = self@;
        let n = self.n;
        let mut conflicts: usize = 0;
        for col in 0..n
            invariant
                self.inv(),
                self@.wf(),
                size_ok(self@.n),
                v == self@,
                n == self.n,
                conflicts as nat == col_conflicts_prefix(v, col as int),
        {
            let mut tiles: Vec<(usize, usize)> = Vec::new();
            for row in 0..n
                invariant
                    self.inv(),
                    self@.wf(),
                    size_ok(self@.n),
                    v == self@,
                    n == self.n,
                    col < n,
                    tiles@ == col_tiles_prefix(v, col as int, row as int),
            {
                proof {
                    lemma_rc_index_bounds(v.n, row as nat, col as nat);
                }
                let value = grid_get(&self.grid, row, col);
                if value != 0 {
                    let target_col = (value - 1) % n;
                    if target_col == col {
                        let target_row = (value - 1) / n;
                        tiles.push((row, target_row));
                    }
                }
            }
            proof {
                lemma_col_tiles_len(v, col as int, n as int);
                assert(4 * tiles@.len() * tiles@.len() <= 8 * v.n * v.n * v.n)
                    by (nonlinear_arith)
                    requires
                        0 <= tiles@.len() <= v.n,
                        1 <= v.n,
                ;
            }
            let c = self.count_conflicts_in_line(&tiles);
            proof {
                lemma_col_conflicts_prefix_bound(v, col as int + 1);
                assert(2 * (col as int + 1) * v.n * v.n <= 8 * v.n * v.n * v.n)
                    by (nonlinear_arith)
                    requires
                        0 <= col as int && (col as int) < v.n,
                        1 <= v.n,
                ;
            }
            conflicts = conflicts + c;
        }
        conflicts
    }

    /// The linear-conflict heuristic: Manhattan distance plus row and
    /// column conflict costs.
    fn heuristic_linear_conflict(&self) -> (r: usize)
        requires
            self.inv(),
            self@.wf(),
            size_ok(self@.n),
        ensures
            r as nat == spec_linear_conflict(self@),
    {
        let ghost v = self@;
        let mut total = self.heuristic_manhattan();
        proof {
            lemma_manhattan_prefix_bound(v, v.cells.len() as int);
            lemma_row_conflicts_prefix_bound(v, v.n as int);
            lemma_col_conflicts_prefix_bound(v, v.n as int);
            assert(2 * v.n * (v.n * v.n) + 2 * v.n * v.n * v.n + 2 * v.n * v.n * v.n <= 8 * v.n
                * v.n * v.n) by (nonlinear_arith);
        }
        let rc = self.count_row_conflicts();
        total = total + rc;
        let cc = self.count_col_conflicts();
        total = total + cc;
        total
    }

    /// Dispatches to the chosen heuristic. Every heuristic is a lower
    /// bound on the number of moves left; NONE is the constant 0.
    pub fn heuristic(&self, heuristic_type: Heuristics) -> (r: usize)
        requires
            self.inv(),
            self@.wf(),
            size_ok(self@.n),
        ensures
            r as nat == spec_heuristic(self@, heuristic_type),
    {
        match heuristic_type {
            Heuristics::NONE => 0,
            Heuristics::MANHATTAN => self.heuristic_manhattan(),
            Heuristics::LINCONFLICT => self.heuristic_linear_conflict(),
        }
    }
}

} // verus!
// Facts about the solved board.
verus! {

/// The solved board of side `n` is well formed.
pub proof fn lemma_target_wf(n: nat)
    requires
        1 <= n,
        n * n <= usize::MAX,
    ensures
        target_board_v(n).wf(),
{
    let v = target_board_v(n);
    assert(1 * 1 <= n * n) by (nonlinear_arith)
        requires
            1 <= n,
    ;
    assert((n - 1) * n + (n - 1) == n * n - 1) by (nonlinear_arith);
    assert(v.cells[v.blank_idx()] == 0);
}

/// The Manhattan prefix sum is zero exactly when every covered tile sits
/// on its goal cell.
proof fn lemma_manhattan_prefix_zero(v: BoardV, k: int)
    requires
        0 <= k,
    ensures
        manhattan_prefix(v, k) == 0 <==> forall|i: int| 0 <= i < k ==> tile_dist(v, i) == 0,
    decreases k,
{
    if k > 0 {
        lemma_manhattan_prefix_zero(v, k - 1);
    }
}

/// On a well-formed board, a non-blank tile with zero distance sits on the
/// cell its value names.
proof fn lemma_tile_dist_zero(v: BoardV, k: int)
    requires
        v.wf(),
        0 <= k < v.cells.len(),
        v.cells[k] != 0,
        tile_dist(v, k) == 0,
    ensures
        v.cells[k] == k + 1,
{
    let n = v.n as int;
    let val = v.cells[k] as int;
    lemma_rc_of_index(k, n);
    lemma_rc_of_index(val - 1, n);
}

/// The Manhattan heuristic is zero exactly on the solved board: every
/// tile on its goal cell forces the cells into the target arrangement,
/// and conversely.
pub proof fn lemma_manhattan_zero_iff_target(v: BoardV)
    requires
        v.wf(),
    ensures
        spec_manhattan(v) == 0 <==> v.cells == target_cells(v.n),
{
    let n = v.n as int;
    let len = v.cells.len() as int;
    lemma_manhattan_prefix_zero(v, len);
    lemma_rc_index_bounds(v.n, v.blank.0, v.blank.1);
    let bi = v.blank_idx();
    if spec_manhattan(v) == 0 {
        // The blank must sit in the last cell.
        if bi != len - 1 {
            assert(v.cells[len - 1] != 0);
            lemma_tile_dist_zero(v, len - 1);
            assert((v.cells[len - 1] as nat) < v.n * v.n);
            assert(false);
        }
        assert forall|k: int| 0 <= k < len implies v.cells[k] == target_cells(v.n)[k] by {
            if k != bi {
                assert(v.cells[k] != 0);
                lemma_tile_dist_zero(v, k);
            }
        }
        assert(v.cells =~= target_cells(v.n));
    }
    if v.cells == target_cells(v.n) {
        assert forall|k: int| 0 <= k < len implies tile_dist(v, k) == 0 by {
            let val = v.cells[k] as int;
            if val != 0 {
                assert(val == k + 1);
                lemma_rc_of_index(k, n);
            }
        }
    }
}

/// A line of tiles that already sit on their goal positions has no
/// conflict cost: pairs headed by one tile.
proof fn lemma_cwl_prefix_aligned_zero(tiles: Seq<(usize, usize)>, i: int, j: int)
    requires
        forall|k: int| 0 <= k < tiles.len() ==> (#[trigger] tiles[k]).0 == tiles[k].1,
        j <= tiles.len(),
    ensures
        cwl_prefix(tiles, i, j) == 0,
    decreases j,
{
    if !(i < 0 || j <= i + 1) {
        lemma_cwl_prefix_aligned_zero(tiles, i, j - 1);
    }
}

/// A line of tiles that already sit on their goal positions has no
/// conflict cost.
proof fn lemma_line_conflicts_aligned_zero(tiles: Seq<(usize, usize)>, i: int)
    requires
        forall|k: int| 0 <= k < tiles.len() ==> (#[trigger] tiles[k]).0 == tiles[k].1,
        0 <= i <= tiles.len(),
    ensures
        line_conflicts_prefix(tiles, i) == 0,
    decreases i,
{
    if i > 0 {
        lemma_line_conflicts_aligned_zero(tiles, i - 1);
        lemma_cwl_prefix_aligned_zero(tiles, i - 1, tiles.len() as int);
    }
}

/// On the solved board every tile listed for a row sits on its goal
/// column.
proof fn lemma_target_row_tiles_aligned(v: BoardV, row: int, col: int)
    requires
        v.wf(),
        v.cells == target_cells(v.n),
        0 <= row < v.n,
        0 <= col <= v.n,
    ensures
        forall|k: int|
            0 <= k < row_tiles_prefix(v, row, col).len() ==> (#[trigger] row_tiles_prefix(
                v,
                row,
                col,
            )[k]).0 == row_tiles_prefix(v, row, col)[k].1,
    decreases col,
{
    let n = v.n as int;
    if col > 0 {
        lemma_target_row_tiles_aligned(v, row, col - 1);
        lemma_rc_index_bounds(v.n, row as nat, (col - 1) as nat);
        let idx = row * n + (col - 1);
        let val = v.cells[idx] as int;
        let rest = row_tiles_prefix(v, row, col - 1);
        let cur = row_tiles_prefix(v, row, col);
        if val != 0 && (val - 1) / n == row {
            assert(val == idx + 1);
            lemma_fundamental_div_mod_converse(idx, n, row, col - 1);
            assert(cur == rest.push((((col - 1) as usize), (((val - 1) % n) as usize))));
        }
        assert forall|k: int| 0 <= k < cur.len() implies (#[trigger] cur[k]).0 == cur[k].1 by {
            if k < rest.len() {
                assert(rest[k].0 == rest[k].1);
            }
        }
    }
}

/// On the solved board every tile listed for a column sits on its goal
/// row.
proof fn lemma_target_col_tiles_aligned(v: BoardV, col: int, row: int)
    requires
        v.wf(),
        v.cells == target_cells(v.n),
        0 <= col < v.n,
        0 <= row <= v.n,
    ensures
        forall|k: int|
            0 <= k < col_tiles_prefix(v, col, row).len() ==> (#[trigger] col_tiles_prefix(
                v,
                col,
                row,
            )[k]).0 == col_tiles_prefix(v, col, row)[k].1,
    decreases row,
{
    let n = v.n as int;
    if row > 0 {
        lemma_target_col_tiles_aligned(v, col, row - 1);
        lemma_rc_index_bounds(v.n, (row - 1) as nat, col as nat);
        let idx = (row - 1) * n + col;
        let val = v.cells[idx] as int;
        let rest = col_tiles_prefix(v, col, row - 1);
        let cur = col_tiles_prefix(v, col, row);
        if val != 0 && (val - 1) % n == col {
            assert(val == idx + 1);
            lemma_fundamental_div_mod_converse(idx, n, row - 1, col);
            assert(cur == rest.push((((row - 1) as usize), (((val - 1) / n) as usize))));
        }
        assert forall|k: int| 0 <= k < cur.len() implies (#[trigger] cur[k]).0 == cur[k].1 by {
            if k < rest.len() {
                assert(rest[k].0 == rest[k].1);
            }
        }
    }
}

/// The solved board has no row conflicts among its first `row` rows.
proof fn lemma_target_row_conflicts_zero(v: BoardV, row: int)
    requires
        v.wf(),
        v.cells == target_cells(v.n),
        0 <= row <= v.n,
    ensures
        row_conflicts_prefix(v, row) == 0,
    decreases row,
{
    if row > 0 {
        lemma_target_row_conflicts_zero(v, row - 1);
        lemma_target_row_tiles_aligned(v, row - 1, v.n as int);
        let tiles = row_tiles(v, row - 1);
        lemma_line_conflicts_aligned_zero(tiles, tiles.len() as int);
    }
}

/// The solved board has no column conflicts among its first `col` columns.
proof fn lemma_target_col_conflicts_zero(v: BoardV, col: int)
    requires
        v.wf(),
        v.cells == target_cells(v.n),
        0 <= col <= v.n,
    ensures
        col_conflicts_prefix(v, col) == 0,
    decreases col,
{
    if col > 0 {
        lemma_target_col_conflicts_zero(v, col - 1);
        lemma_target_col_tiles_aligned(v, col - 1, v.n as int);
        let tiles = col_tiles(v, col - 1);
        lemma_line_conflicts_aligned_zero(tiles, tiles.len() as int);
    }
}

/// Every heuristic evaluates to zero on the solved board.
pub proof fn lemma_heuristic_zero_at_target(v: BoardV, h: Heuristics)
    requires
        v.wf(),
        v.cells == target_cells(v.n),
    ensures
        spec_heuristic(v, h) == 0,
{
    lemma_manhattan_zero_iff_target(v);
    lemma_target_row_conflicts_zero(v, v.n as int);
    lemma_target_col_conflicts_zero(v, v.n as int);
}

} // verus!
// Loading a board from text.
verus! {

use crate::parse::{ParseError, parse_ok, parse_outcome, board_tokens, num_val, parse_board_text};
use crate::grid_ext::grid_from_vec;
use vstd::string::StrSliceExecFns;
use vstd::arithmetic::div_mod::lemma_mod_multiples_basic;

impl Board {
    /// Parses an `n`-by-`n` board from text: `n` newline-separated rows of
    /// `n` space-separated numbers forming a permutation of
    /// `0 .. n*n - 1`, with the blank position taken from the cell holding
    /// 0. Rejects the text with the first failed check in the fixed order
    /// given by `parse_outcome`.
    pub fn load_from_str(n: usize, puzzle_str: &str) -> (r: Result<Board, ParseError>)
        requires
            1 <= n,
            n * n <= usize::MAX,
        ensures
            match r {
                Ok(b) => {
                    &&& parse_ok(n as nat, puzzle_str@)
                    &&& b.inv()
                    &&& b@.wf()
                    &&& b@.n == n as nat
                    &&& b@.cells.len() == n * n
                    &&& forall|k: int|
                        0 <= k < b@.cells.len() ==> (#[trigger] b@.cells[k]) as nat == num_val(
                            board_tokens(n as nat, puzzle_str@)[k],
                        )
                },
                Err(e) => parse_outcome(n as nat, puzzle_str@) == Some(e),
            },
            (r is Ok) <==> parse_ok(n as nat, puzzle_str@),
    {
        let len = puzzle_str.unicode_len();
        let mut chars: Vec<char> = Vec::new();
        proof {
            assert(chars@ =~= puzzle_str@.take(0));
        }
        for k in 0..len
            invariant
                len == puzzle_str@.len(),
                chars@ == puzzle_str@.take(k as int),
        {
            let c = puzzle_str.get_char(k);
            chars.push(c);
            proof {
                assert(chars@ =~= puzzle_str@.take(k as int + 1));
            }
        }
        proof {
            assert(chars@ =~= puzzle_str@);
        }
        match parse_board_text(n, &chars) {
            Err(e) => Err(e),
            Ok((vals, zi)) => {
                let ghost vcells = vals@;
                let ghost nn = n as nat;
                proof {
                    lemma_mod_multiples_basic(n as int, n as int);
                    assert(1 * 1 <= n * n) by (nonlinear_arith)
                        requires
                            1 <= n,
                    ;
                }
                let row = zi / n;
                let col = zi % n;
                let g = grid_from_vec(vals, n);
                proof {
                    lemma_rc_of_index(zi as int, n as int);
                    assert(row as int * n as int == n as int * (zi as int / n as int))
                        by (nonlinear_arith)
                        requires
                            row as int == zi as int / n as int,
                    ;
                    let bv = BoardV { cells: vcells, n: nn, blank: (row as nat, col as nat) };
                    assert(bv.blank_idx() == zi as int);
                    let lvv = crate::parse::board_lines(chars@);
                    assert forall|l: int| 0 <= l < n as int implies crate::parse::tokens(
                        #[trigger] lvv[l],
                    ).len() == nn by {}
                    crate::parse::lemma_flat_len(lvv, n as int, n as int);
                    assert(board_tokens(nn, chars@).len() == nn * nn);
                    assert forall|k: int| 0 <= k < vcells.len() implies (
                    #[trigger] vcells[k] as nat) < nn * nn by {
                        assert(num_val(board_tokens(nn, chars@)[k]) < nn * nn);
                    }
                    assert forall|i: int, j: int| 0 <= i < j < vcells.len() implies #[trigger] vcells[i]
                        != #[trigger] vcells[j] by {
                        assert(num_val(board_tokens(nn, chars@)[i]) != num_val(
                            board_tokens(nn, chars@)[j],
                        ));
                    }
                    assert(bv.wf());
                }
                Ok(Board { grid: g, n, pos_0: (row, col) })
            },
        }
    }
}

} // verus!
// A move changes the Manhattan distance by at most one.
verus! {

/// Two well-formed boards of one side with the same cells are the same
/// board: the blank is the unique cell holding 0.
pub proof fn lemma_same_cells_same_board(u: BoardV, v: BoardV)
    requires
        u.wf(),
        v.wf(),
        u.cells == v.cells,
        u.n == v.n,
    ensures
        u == v,
{
    lemma_rc_index_bounds(u.n, u.blank.0, u.blank.1);
    lemma_rc_index_bounds(v.n, v.blank.0, v.blank.1);
    if u.blank_idx() != v.blank_idx() {
        assert(u.cells[u.blank_idx()] != u.cells[v.blank_idx()]);
        assert(false);
    }
    lemma_rc_index_injective(u.n, u.blank.0, u.blank.1, v.blank.0, v.blank.1);
    assert(u =~= v);
}

/// Summing tile distances over boards that differ at two cells only.
proof fn lemma_manhattan_prefix_two_point(v: BoardV, w: BoardV, a: int, b: int, k: int)
    requires
        a != b,
        forall|i: int| 0 <= i < k && i != a && i != b ==> tile_dist(v, i) == tile_dist(w, i),
    ensures
        manhattan_prefix(v, k) + (if 0 <= a < k { tile_dist(w, a) } else { 0 }) + (if 0 <= b < k {
            tile_dist(w, b)
        } else {
            0
        }) == manhattan_prefix(w, k) + (if 0 <= a < k { tile_dist(v, a) } else { 0 }) + (if 0 <= b
            < k {
            tile_dist(v, b)
        } else {
            0
        }),
    decreases k,
{
    if k > 0 {
        lemma_manhattan_prefix_two_point(v, w, a, b, k - 1);
    }
}

/// One legal move lowers the Manhattan distance by at most one.
pub proof fn lemma_manhattan_move_bound(v: BoardV, d: Directions)
    requires
        v.wf(),
        dir_legal(v, d),
    ensures
        spec_manhattan(v) <= spec_manhattan(apply_move(v, d)) + 1,
{
    let w = apply_move(v, d);
    let n = v.n as int;
    let dest = dir_dest(v, d);
    let i1 = v.blank_idx();
    let i2 = dest.0 as int * n + dest.1 as int;
    lemma_rc_index_bounds(v.n, v.blank.0, v.blank.1);
    lemma_rc_index_bounds(v.n, dest.0, dest.1);
    lemma_rc_index_distinct(v.n, v.blank.0, v.blank.1, dest.0, dest.1);
    let len = v.cells.len() as int;
    assert(w.cells.len() == len);
    assert(forall|i: int| 0 <= i < len && i != i1 && i != i2 ==> v.cells[i] == w.cells[i]);
    assert forall|i: int| 0 <= i < len && i != i1 && i != i2 implies tile_dist(v, i) == tile_dist(
        w,
        i,
    ) by {}
    lemma_manhattan_prefix_two_point(v, w, i1, i2, len);
    // The blank carries no distance on either side of the swap.
    assert(tile_dist(v, i1) == 0);
    assert(tile_dist(w, i2) == 0);
    // The moved tile's distance changes by at most one: its goal is fixed
    // and its cell moves to an adjacent cell.
    let val = v.cells[i2] as int;
    assert(v.cells[i2] != 0);
    assert(w.cells[i1] == v.cells[i2]);
    lemma_fundamental_div_mod_converse(i1, n, v.blank.0 as int, v.blank.1 as int);
    lemma_fundamental_div_mod_converse(i2, n, dest.0 as int, dest.1 as int);
    lemma_rc_of_index(val - 1, n);
    assert(tile_dist(v, i2) <= tile_dist(w, i1) + 1);
}

impl Board {
    /// Wraps a ready list of cells as a board: `cells` holds the values
    /// row-major as a permutation of `0 .. n*n - 1`, and the blank is
    /// found where the 0 sits.
    pub fn from_cells(cells: Vec<usize>, n: usize) -> (r: Board)
        requires
            1 <= n,
            n * n <= usize::MAX,
            cells@.len() == n * n,
            forall|i: int| 0 <= i < cells@.len() ==> (#[trigger] cells@[i] as nat) < n * n,
            forall|i: int, j: int|
                0 <= i < j < cells@.len() ==> #[trigger] cells@[i] != #[trigger] cells@[j],
            exists|i: int| 0 <= i < cells@.len() && #[trigger] cells@[i] == 0,
        ensures
            r.inv(),
            r@.wf(),
            r@.cells == cells@,
            r@.n == n as nat,
    {
        let ghost vcells = cells@;
        let total = cells.len();
        let mut zi: usize = 0;
        let mut found = false;
        for k in 0..total
            invariant
                total == vcells.len(),
                vcells == cells@,
                found ==> zi < total && vcells[zi as int] == 0,
                !found ==> forall|i: int| 0 <= i < k ==> #[trigger] vcells[i] != 0,
        {
            if !found && cells[k] == 0 {
                found = true;
                zi = k;
            }
        }
        proof {
            if !found {
                let i0 = choose|i: int| 0 <= i < cells@.len() && #[trigger] cells@[i] == 0;
                assert(vcells[i0] != 0);
            }
            assert(found);
        }
        proof {
            vstd::arithmetic::div_mod::lemma_mod_multiples_basic(n as int, n as int);
            assert(1 * 1 <= n * n) by (nonlinear_arith)
                requires
                    1 <= n,
            ;
        }
        let row = zi / n;
        let col = zi % n;
        let g = grid_from_vec(cells, n);
        proof {
            lemma_rc_of_index(zi as int, n as int);
            assert(row as int * n as int == n as int * (zi as int / n as int))
                by (nonlinear_arith)
                requires
                    row as int == zi as int / n as int,
            ;
            let bv = BoardV { cells: vcells, n: n as nat, blank: (row as nat, col as nat) };
            assert(bv.blank_idx() == zi as int);
            assert(bv.wf());
        }
        Board { grid: g, n, pos_0: (row, col) }
    }
}

} // verus!
