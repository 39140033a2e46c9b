//! The game's rules as mathematical objects: board geometry, rays, legality,
//! and the position that a move produces.
use vstd::prelude::*;

verus! {

/// Encoding of an empty cell.
pub const EMPTY: i8 = 0;

/// Encoding of a black stone.
pub const BLACK: i8 = 1;

/// Encoding of a white stone.
pub const WHITE: i8 = -1;

/// The abstract state of a board: 64 cells in row-major order, and whose turn it is.
pub struct BoardModel {
    pub cells: Seq<i8>,
    pub black_to_move: bool,
}

/// The stone of the given side.
pub open spec fn stone_of(black: bool) -> i8 {
    if black {
        BLACK
    } else {
        WHITE
    }
}

pub open spec fn is_cell_value(v: i8) -> bool {
    v == EMPTY || v == BLACK || v == WHITE
}

/// Exactly 64 cells, each empty, black or white.
pub open spec fn cells_wf(cells: Seq<i8>) -> bool {
    &&& cells.len() == 64
    &&& forall|i: int| 0 <= i < 64 ==> is_cell_value(#[trigger] cells[i])
}

/// The four central stones of the starting position.
pub open spec fn start_cells() -> Seq<i8> {
    Seq::new(
        64,
        |i: int|
            if i == 27 || i == 36 {
                WHITE
            } else if i == 28 || i == 35 {
                BLACK
            } else {
                EMPTY
            },
    )
}

/// The starting position, black to move.
pub open spec fn initial_model() -> BoardModel {
    BoardModel { cells: start_cells(), black_to_move: true }
}

pub open spec fn on_board(r: int, c: int) -> bool {
    0 <= r < 8 && 0 <= c < 8
}

pub open spec fn row_of(i: int) -> int {
    i / 8
}

pub open spec fn col_of(i: int) -> int {
    i % 8
}

/// Row step of direction `d` (0..8): the eight king moves.
pub open spec fn dir_dr(d: int) -> int {
    if d <= 2 {
        -1
    } else if d <= 4 {
        0
    } else {
        1
    }
}

/// Column step of direction `d` (0..8).
pub open spec fn dir_dc(d: int) -> int {
    if d == 0 || d == 3 || d == 5 {
        -1
    } else if d == 1 || d == 6 {
        0
    } else {
        1
    }
}

/// `x` moved `k` times by a unit step of sign `delta`.
pub open spec fn shift(x: int, delta: int, k: int) -> int {
    if delta > 0 {
        x + k
    } else if delta < 0 {
        x - k
    } else {
        x
    }
}

/// Row of the cell `k` steps from `idx` in direction `d`.
pub open spec fn ray_row(idx: int, d: int, k: int) -> int {
    shift(row_of(idx), dir_dr(d), k)
}

/// Column of the cell `k` steps from `idx` in direction `d`.
pub open spec fn ray_col(idx: int, d: int, k: int) -> int {
    shift(col_of(idx), dir_dc(d), k)
}

/// The cell `k` steps from `idx` in direction `d` lies on the board: a ray ends
/// at the board's edge and never wraps into another row or column.
pub open spec fn ray_on_board(idx: int, d: int, k: int) -> bool {
    on_board(ray_row(idx, d, k), ray_col(idx, d, k))
}

/// Index of the cell `k` steps from `idx` in direction `d`.
pub open spec fn ray_index(idx: int, d: int, k: int) -> int {
    ray_row(idx, d, k) * 8 + ray_col(idx, d, k)
}

/// Number of consecutive stones of the opponent of `side` on the ray from
/// `idx` in direction `d`, from step `k` on.
pub open spec fn opp_run(cells: Seq<i8>, idx: int, d: int, side: i8, k: int) -> nat
    decreases 9 - k,
{
    if 1 <= k <= 8 && ray_on_board(idx, d, k) && cells[ray_index(idx, d, k)] == -side {
        1 + opp_run(cells, idx, d, side, k + 1)
    } else {
        0
    }
}

/// Length of the run of opponent stones next to `idx` in direction `d`.
pub open spec fn run_len(cells: Seq<i8>, idx: int, d: int, side: i8) -> nat {
    opp_run(cells, idx, d, side, 1)
}

/// A non-empty run of opponent stones next to `idx` in direction `d` is closed
/// by a stone of `side`.
pub open spec fn flanks(cells: Seq<i8>, idx: int, d: int, side: i8) -> bool {
    let n = run_len(cells, idx, d, side) as int;
    &&& n >= 1
    &&& ray_on_board(idx, d, n + 1)
    &&& cells[ray_index(idx, d, n + 1)] == side
}

/// Number of stones that a move of `side` at `idx` turns over in direction `d`.
pub open spec fn captured_in_dir(cells: Seq<i8>, idx: int, d: int, side: i8) -> nat {
    if flanks(cells, idx, d, side) {
        run_len(cells, idx, d, side)
    } else {
        0
    }
}

/// `idx` is empty and a move there by `side` flanks a run in some direction.
pub open spec fn legal_for(cells: Seq<i8>, idx: int, side: i8) -> bool {
    &&& 0 <= idx < 64
    &&& cells[idx] == EMPTY
    &&& exists|d: int| 0 <= d < 8 && #[trigger] flanks(cells, idx, d, side)
}

/// Cell `i` lies in a run that a move of `side` at `idx` turns over, in one of
/// the directions below `nd`.
pub open spec fn captured_below(cells: Seq<i8>, idx: int, side: i8, nd: int, i: int) -> bool {
    exists|d: int, k: int|
        0 <= d < nd && 1 <= k <= captured_in_dir(cells, idx, d, side) && #[trigger] ray_index(
            idx,
            d,
            k,
        ) == i
}

/// Cell `i` is turned over by a move of `side` at `idx`.
pub open spec fn captured(cells: Seq<i8>, idx: int, side: i8, i: int) -> bool {
    captured_below(cells, idx, side, 8, i)
}

/// Total number of stones turned over by the directions below `nd`.
pub open spec fn captured_count_below(cells: Seq<i8>, idx: int, side: i8, nd: int) -> nat
    decreases nd,
{
    if nd <= 0 {
        0
    } else {
        captured_count_below(cells, idx, side, nd - 1) + captured_in_dir(cells, idx, nd - 1, side)
    }
}

/// Total number of stones that a move of `side` at `idx` turns over.
pub open spec fn captured_count(cells: Seq<i8>, idx: int, side: i8) -> nat {
    captured_count_below(cells, idx, side, 8)
}

/// The cells after `side` places a stone at `idx` and turns over what it flanks.
pub open spec fn cells_after(cells: Seq<i8>, idx: int, side: i8) -> Seq<i8> {
    Seq::new(
        64,
        |i: int|
            if i == idx || captured(cells, idx, side, i) {
                side
            } else {
                cells[i]
            },
    )
}

impl BoardModel {
    pub open spec fn wf(self) -> bool {
        cells_wf(self.cells)
    }

    pub open spec fn side(self) -> i8 {
        stone_of(self.black_to_move)
    }

    pub open spec fn is_legal(self, idx: int) -> bool {
        legal_for(self.cells, idx, self.side())
    }

    /// The position after a legal move at `idx`: the stones are placed and
    /// turned over, and the turn passes.
    pub open spec fn play(self, idx: int) -> BoardModel {
        BoardModel {
            cells: cells_after(self.cells, idx, self.side()),
            black_to_move: !self.black_to_move,
        }
    }

    pub open spec fn flips(self, idx: int) -> nat {
        captured_count(self.cells, idx, self.side())
    }

    /// The legal moves below `n`, in ascending order.
    pub open spec fn legal_moves_below(self, n: int) -> Seq<usize> {
        Seq::new(n as nat, |i: int| i as usize).filter(|i: usize| self.is_legal(i as int))
    }

    /// The legal moves, in ascending order.
    pub open spec fn legal_moves(self) -> Seq<usize> {
        self.legal_moves_below(64)
    }
}

/// Every cell of the opponent's run next to `idx` lies on the board and holds
/// an opponent stone.
pub proof fn lemma_in_run(cells: Seq<i8>, idx: int, d: int, side: i8, j: int, k: int)
    requires
        1 <= j <= k < j + opp_run(cells, idx, d, side, j),
    ensures
        ray_on_board(idx, d, k),
        cells[ray_index(idx, d, k)] == -side,
    decreases k - j,
{
    if k > j {
        lemma_in_run(cells, idx, d, side, j + 1, k);
    }
}

/// Number of cells below `n` that hold `v`.
pub open spec fn count_below(cells: Seq<i8>, v: i8, n: int) -> nat
    decreases n,
{
    if n <= 0 {
        0
    } else {
        count_below(cells, v, n - 1) + if cells[n - 1] == v {
            1nat
        } else {
            0nat
        }
    }
}

/// Number of cells that hold `v`.
pub open spec fn count_of(cells: Seq<i8>, v: i8) -> nat {
    count_below(cells, v, 64)
}

} // verus!
