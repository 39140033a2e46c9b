//! The executable board: construction, legality, moves and inspection.
use vstd::prelude::*;
use crate::rules::{
    captured_below, captured_count_below, captured_in_dir, cells_after, col_of, count_below,
    count_of, dir_dc, dir_dr, flanks, initial_model, lemma_in_run, opp_run, ray_col, ray_index,
    ray_on_board, ray_row, row_of, run_len, start_cells, BoardModel, BLACK, EMPTY, WHITE,
};

verus! {

/// The only way a move can fail.
#[derive(Debug, Clone, Copy, PartialEq, Eq)]
pub enum BoardError {
    /// The index is occupied, or a stone there flanks no run of the opponent.
    IllegalMove,
}

/// An 8x8 Othello board and the side to move.
#[derive(Clone, Copy)]
pub struct Board {
    cells: [i8; 64],
    black_to_move: bool,
}

impl View for Board {
    type V = BoardModel;

    closed spec fn view(&self) -> BoardModel {
        BoardModel { cells: self.cells@, black_to_move: self.black_to_move }
    }
}

/// Row and column steps of direction `d`.
fn dir_delta(d: usize) -> (r: (i32, i32))
    requires
        d < 8,
    ensures
        r.0 == dir_dr(d as int),
        r.1 == dir_dc(d as int),
{
    match d {
        0 => (-1, -1),
        1 => (-1, 0),
        2 => (-1, 1),
        3 => (0, -1),
        4 => (0, 1),
        5 => (1, -1),
        6 => (1, 0),
        _ => (1, 1),
    }
}

impl Board {
    /// Exactly 64 cells, each empty, black or white.
    pub open spec fn wf(&self) -> bool {
        self@.wf()
    }

    /// The starting position: white on 27 and 36, black on 28 and 35, black to move.
    pub fn new() -> (b: Board)
        ensures
            b.wf(),
            b@ == initial_model(),
    {
        let mut cells = [0i8; 64];
        cells[27] = WHITE;
        cells[28] = BLACK;
        cells[35] = BLACK;
        cells[36] = WHITE;
        let b = Board { cells, black_to_move: true };
        assert(b.cells@ =~= start_cells());
        b
    }

    /// True when black is to move.
    pub fn get_black_to_move(&self) -> (r: bool)
        ensures
            r == self@.black_to_move,
    {
        self.black_to_move
    }

    /// Puts the board back in the starting position.
    pub fn reset(&mut self)
        ensures
            final(self).wf(),
            final(self)@ == initial_model(),
    {
        *self = Board::new();
    }

    /// Number of stones turned over in direction `d` by a move of `side` at `idx`.
    fn captured_in(&self, idx: usize, d: usize, side: i8) -> (n: usize)
        requires
            self.wf(),
            idx < 64,
            d < 8,
            side == BLACK || side == WHITE,
        ensures
            n == captured_in_dir(self@.cells, idx as int, d as int, side),
            n <= 6,
    {
        let (dr, dc) = dir_delta(d);
        let r0: i32 = (idx / 8) as i32;
        let c0: i32 = (idx % 8) as i32;
        let mut r: i32 = r0 + dr;
        let mut c: i32 = c0 + dc;
        let mut k: usize = 1;
        while 0 <= r && r < 8 && 0 <= c && c < 8 && self.cells[(r * 8 + c) as usize] == -side
            invariant
                self.wf(),
                idx < 64,
                d < 8,
                side == BLACK || side == WHITE,
                1 <= k <= 8,
                r0 == row_of(idx as int),
                c0 == col_of(idx as int),
                dr == dir_dr(d as int),
                dc == dir_dc(d as int),
                r == ray_row(idx as int, d as int, k as int),
                c == ray_col(idx as int, d as int, k as int),
                run_len(self@.cells, idx as int, d as int, side) == (k - 1) + opp_run(
                    self@.cells,
                    idx as int,
                    d as int,
                    side,
                    k as int,
                ),
            decreases 8 - k,
        {
            r = r + dr;
            c = c + dc;
            k = k + 1;
        }
        let n = k - 1;
        if n >= 1 && 0 <= r && r < 8 && 0 <= c && c < 8 && self.cells[(r * 8 + c) as usize] == side {
            n
        } else {
            0
        }
    }

    /// True when `idx` (below 64) is empty and a stone of the side to move
    /// there flanks a run of the opponent's stones in some direction.
    pub fn is_legal(&self, idx: usize) -> (r: bool)
        requires
            self.wf(),
            idx < 64,
        ensures
            r == self@.is_legal(idx as int),
    {
        if self.cells[idx] != EMPTY {
            return false;
        }
        let side: i8 = if self.black_to_move { BLACK } else { WHITE };
        let mut d: usize = 0;
        while d < 8
            invariant
                self.wf(),
                idx < 64,
                d <= 8,
                self@.cells[idx as int] == EMPTY,
                side == self@.side(),
                forall|e: int| 0 <= e < d ==> !#[trigger] flanks(self@.cells, idx as int, e, side),
            decreases 8 - d,
        {
            if self.captured_in(idx, d, side) > 0 {
                assert(flanks(self@.cells, idx as int, d as int, side));
                return true;
            }
            d = d + 1;
        }
        false
    }

    /// Plays `idx` (below 64) for the side to move: places the stone, turns over every
    /// flanked run, passes the turn, and returns the number of stones turned over.
    /// An illegal move changes nothing.
    pub fn play(&mut self, idx: usize) -> (r: Result<usize, BoardError>)
        requires
            old(self).wf(),
            idx < 64,
        ensures
            final(self).wf(),
            old(self)@.is_legal(idx as int) ==> r == Ok::<usize, BoardError>(
                old(self)@.flips(idx as int) as usize,
            ) && final(self)@ == old(self)@.play(idx as int),
            !old(self)@.is_legal(idx as int) ==> r == Err::<usize, BoardError>(
                BoardError::IllegalMove,
            ) && final(self)@ == old(self)@,
    {
        if !self.is_legal(idx) {
            return Err(BoardError::IllegalMove);
        }
        let side: i8 = if self.black_to_move { BLACK } else { WHITE };
        let before: Board = *self;
        let ghost orig = before.cells@;
        let r0: i32 = (idx / 8) as i32;
        let c0: i32 = (idx % 8) as i32;
        let mut flipped: usize = 0;
        self.cells[idx] = side;
        let mut d: usize = 0;
        while d < 8
            invariant
                before.wf(),
                before@ == old(self)@,
                orig == before@.cells,
                idx < 64,
                d <= 8,
                side == old(self)@.side(),
                self.black_to_move == old(self).black_to_move,
                r0 == row_of(idx as int),
                c0 == col_of(idx as int),
                flipped == captured_count_below(orig, idx as int, side, d as int),
                flipped <= 6 * d,
                forall|i: int|
                    0 <= i < 64 ==> #[trigger] self.cells@[i] == if i == idx as int
                        || captured_below(orig, idx as int, side, d as int, i) {
                        side
                    } else {
                        orig[i]
                    },
            decreases 8 - d,
        {
            let n = before.captured_in(idx, d, side);
            let (dr, dc) = dir_delta(d);
            let mut r: i32 = r0 + dr;
            let mut c: i32 = c0 + dc;
            let mut k: usize = 1;
            while k <= n
                invariant
                    before.wf(),
                    orig == before@.cells,
                    idx < 64,
                    d < 8,
                    side == BLACK || side == WHITE,
                    n == captured_in_dir(orig, idx as int, d as int, side),
                    n <= 6,
                    self.black_to_move == old(self).black_to_move,
                    1 <= k <= n + 1,
                    r0 == row_of(idx as int),
                    c0 == col_of(idx as int),
                    dr == dir_dr(d as int),
                    dc == dir_dc(d as int),
                    r == ray_row(idx as int, d as int, k as int),
                    c == ray_col(idx as int, d as int, k as int),
                    forall|i: int|
                        0 <= i < 64 ==> #[trigger] self.cells@[i] == if i == idx as int
                            || captured_below(orig, idx as int, side, d as int, i) || exists|
                            j: int,
                        |
                            1 <= j < k && #[trigger] ray_index(idx as int, d as int, j) == i {
                            side
                        } else {
                            orig[i]
                        },
                decreases n + 1 - k,
            {
                proof {
                    lemma_in_run(orig, idx as int, d as int, side, 1, k as int);
                }
                self.cells[(r * 8 + c) as usize] = side;
                proof {
                    assert forall|i: int| 0 <= i < 64 implies #[trigger] self.cells@[i] == if i
                        == idx as int || captured_below(orig, idx as int, side, d as int, i)
                        || exists|j: int|
                        1 <= j < k + 1 && #[trigger] ray_index(idx as int, d as int, j) == i {
                        side
                    } else {
                        orig[i]
                    } by {
                        if i == ray_index(idx as int, d as int, k as int) {
                        } else {
                            if exists|j: int|
                                1 <= j < k + 1 && #[trigger] ray_index(idx as int, d as int, j)
                                    == i {
                                let j = choose|j: int|
                                    1 <= j < k + 1 && #[trigger] ray_index(idx as int, d as int, j)
                                        == i;
                                assert(j != k);
                            }
                        }
                    }
                }
                r = r + dr;
                c = c + dc;
                k = k + 1;
            }
            proof {
                assert forall|i: int| 0 <= i < 64 implies #[trigger] self.cells@[i] == if i
                    == idx as int || captured_below(orig, idx as int, side, d as int + 1, i) {
                    side
                } else {
                    orig[i]
                } by {
                    if captured_below(orig, idx as int, side, d as int + 1, i) {
                        let (e, j) = choose|e: int, j: int|
                            0 <= e < d as int + 1 && 1 <= j <= captured_in_dir(
                                orig,
                                idx as int,
                                e,
                                side,
                            ) && #[trigger] ray_index(idx as int, e, j) == i;
                        if e < (d as int) {
                            assert(captured_below(orig, idx as int, side, d as int, i));
                        } else {
                            assert(1 <= j < k && ray_index(idx as int, d as int, j) == i);
                        }
                    }
                    if captured_below(orig, idx as int, side, d as int, i) {
                        let (e, j) = choose|e: int, j: int|
                            0 <= e < d as int && 1 <= j <= captured_in_dir(
                                orig,
                                idx as int,
                                e,
                                side,
                            ) && #[trigger] ray_index(idx as int, e, j) == i;
                        assert(0 <= e < d as int + 1 && 1 <= j <= captured_in_dir(
                            orig,
                            idx as int,
                            e,
                            side,
                        ) && ray_index(idx as int, e, j) == i);
                    }
                    if exists|j: int| 1 <= j < k && #[trigger] ray_index(idx as int, d as int, j) == i {
                        let j = choose|j: int|
                            1 <= j < k && #[trigger] ray_index(idx as int, d as int, j) == i;
                        assert(0 <= (d as int) && (d as int) < (d as int) + 1 && 1 <= j
                            <= captured_in_dir(orig, idx as int, d as int, side) && ray_index(
                            idx as int,
                            d as int,
                            j,
                        ) == i);
                    }
                }
            }
            flipped = flipped + n;
            d = d + 1;
        }
        self.black_to_move = !self.black_to_move;
        proof {
            assert(self.cells@ =~= cells_after(orig, idx as int, side));
        }
        Ok(flipped)
    }

    /// The legal moves for the side to move, in ascending order.
    pub fn legal_moves(&self) -> (r: Vec<usize>)
        requires
            self.wf(),
        ensures
            r@ == self@.legal_moves(),
    {
        let mut r: Vec<usize> = Vec::new();
        let mut i: usize = 0;
        while i < 64
            invariant
                self.wf(),
                i <= 64,
                r@ == self@.legal_moves_below(i as int),
            decreases 64 - i,
        {
            proof {
                reveal(Seq::filter);
                assert(Seq::new((i + 1) as nat, |j: int| j as usize).drop_last() =~= Seq::new(
                    i as nat,
                    |j: int| j as usize,
                ));
            }
            if self.is_legal(i) {
                r.push(i);
            }
            i = i + 1;
        }
        r
    }

    /// Numbers of black and of white stones on the board.
    pub fn counts(&self) -> (r: (u8, u8))
        requires
            self.wf(),
        ensures
            r.0 == count_of(self@.cells, BLACK),
            r.1 == count_of(self@.cells, WHITE),
    {
        let mut b: u8 = 0;
        let mut w: u8 = 0;
        let mut i: usize = 0;
        while i < 64
            invariant
                self.wf(),
                i <= 64,
                b == count_below(self@.cells, BLACK, i as int),
                w == count_below(self@.cells, WHITE, i as int),
                b <= i,
                w <= i,
            decreases 64 - i,
        {
            let v = self.cells[i];
            if v == BLACK {
                b = b + 1;
            } else if v == WHITE {
                w = w + 1;
            }
            i = i + 1;
        }
        (b, w)
    }

    /// A copy of the 64 cells: 0 empty, 1 black, -1 white.
    pub fn as_list(&self) -> (r: Vec<i8>)
        requires
            self.wf(),
        ensures
            r@ == self@.cells,
    {
        let mut r: Vec<i8> = Vec::new();
        let mut i: usize = 0;
        while i < 64
            invariant
                self.wf(),
                i <= 64,
                r@ == self@.cells.take(i as int),
            decreases 64 - i,
        {
            r.push(self.cells[i]);
            proof {
                assert(self@.cells.take(i + 1) =~= self@.cells.take(i as int).push(self@.cells[i as int]));
            }
            i = i + 1;
        }
        proof {
            assert(self@.cells.take(64) =~= self@.cells);
        }
        r
    }
}

} // verus!
