//! Properties of the rules that hold over every position and every sequence of moves.
use vstd::prelude::*;
use crate::rules::{
    captured, captured_below, captured_in_dir, cells_after, cells_wf, col_of, count_below,
    count_of, captured_count_below, dir_dc, run_len, dir_dr, initial_model, lemma_in_run, legal_for, ray_col, ray_index,
    ray_on_board, ray_row, row_of, start_cells, stone_of, BoardModel, BLACK, EMPTY, WHITE,
};

verus! {

/// Every move of `moves` is legal in the position that the moves before it lead to.
pub open spec fn plays_legal(m: BoardModel, moves: Seq<int>) -> bool
    decreases moves.len(),
{
    if moves.len() == 0 {
        true
    } else {
        m.is_legal(moves[0]) && plays_legal(m.play(moves[0]), moves.drop_first())
    }
}

/// The position that playing `moves` in order leads to.
pub open spec fn replay(m: BoardModel, moves: Seq<int>) -> BoardModel
    decreases moves.len(),
{
    if moves.len() == 0 {
        m
    } else {
        replay(m.play(moves[0]), moves.drop_first())
    }
}

/// The starting position is well formed, holds two stones of each colour, and
/// black moves first.
pub proof fn lemma_initial_position()
    ensures
        initial_model().wf(),
        initial_model().black_to_move,
        count_of(start_cells(), BLACK) == 2,
        count_of(start_cells(), WHITE) == 2,
{
    reveal_with_fuel(count_below, 65);
}

/// An occupied cell is never a legal move.
pub proof fn lemma_occupied_illegal(m: BoardModel, idx: int)
    requires
        0 <= idx < 64,
        m.cells[idx] != EMPTY,
    ensures
        !m.is_legal(idx),
{
}

/// Each legal move passes the turn once: after a run of legal moves the side
/// to move is the one that started exactly when the run has even length.
pub proof fn lemma_turn_parity(m: BoardModel, moves: Seq<int>)
    requires
        plays_legal(m, moves),
    ensures
        replay(m, moves).black_to_move == (m.black_to_move == (moves.len() % 2 == 0)),
    decreases moves.len(),
{
    if moves.len() > 0 {
        lemma_turn_parity(m.play(moves[0]), moves.drop_first());
    }
}

/// From the starting position, black is to move after an even number of legal
/// moves and white after an odd number.
pub proof fn lemma_turn_parity_from_start(moves: Seq<int>)
    requires
        plays_legal(initial_model(), moves),
    ensures
        replay(initial_model(), moves).black_to_move == (moves.len() % 2 == 0),
{
    lemma_turn_parity(initial_model(), moves);
}

/// A stone that a legal move turns over belonged to the opponent.
proof fn lemma_captured_is_opponent(cells: Seq<i8>, idx: int, side: i8, i: int)
    requires
        captured(cells, idx, side, i),
    ensures
        cells[i] == -side,
{
    let (d, k) = choose|d: int, k: int|
        0 <= d < 8 && 1 <= k <= captured_in_dir(cells, idx, d, side) && #[trigger] ray_index(
            idx,
            d,
            k,
        ) == i;
    lemma_in_run(cells, idx, d, side, 1, k);
}

spec fn stones_below(cells: Seq<i8>, n: int) -> nat {
    count_below(cells, BLACK, n) + count_below(cells, WHITE, n)
}

proof fn lemma_stones_below(old_cells: Seq<i8>, new_cells: Seq<i8>, idx: int, n: int)
    requires
        cells_wf(old_cells),
        cells_wf(new_cells),
        0 <= idx < 64,
        0 <= n <= 64,
        old_cells[idx] == EMPTY,
        new_cells[idx] != EMPTY,
        forall|i: int|
            0 <= i < 64 && i != idx ==> (#[trigger] old_cells[i] == EMPTY) == (new_cells[i]
                == EMPTY),
    ensures
        stones_below(new_cells, n) == stones_below(old_cells, n) + if idx < n {
            1nat
        } else {
            0nat
        },
    decreases n,
{
    if n > 0 {
        lemma_stones_below(old_cells, new_cells, idx, n - 1);
        assert(old_cells[n - 1] == old_cells[n - 1]);
    }
}

/// A legal move adds exactly one stone to the board, and no occupied cell
/// becomes empty.
pub proof fn lemma_play_conserves(m: BoardModel, idx: int)
    requires
        m.wf(),
        m.is_legal(idx),
    ensures
        m.play(idx).wf(),
        count_of(m.play(idx).cells, BLACK) + count_of(m.play(idx).cells, WHITE) == count_of(
            m.cells,
            BLACK,
        ) + count_of(m.cells, WHITE) + 1,
        forall|i: int| 0 <= i < 64 && m.cells[i] != EMPTY ==> #[trigger] m.play(idx).cells[i] != EMPTY,
{
    let side = m.side();
    let after = m.play(idx).cells;
    assert forall|i: int| 0 <= i < 64 && i != idx implies (#[trigger] m.cells[i] == EMPTY) == (
    after[i] == EMPTY) by {
        if captured(m.cells, idx, side, i) {
            lemma_captured_is_opponent(m.cells, idx, side, i);
        }
    }
    lemma_stones_below(m.cells, after, idx, 64);
}

/// Rays never wrap: the cell `k` steps from `idx` in direction `d` has the row
/// and column that `k` unit steps give, so a scan stops at the board's edge.
pub proof fn lemma_ray_stays_in_line(idx: int, d: int, k: int)
    requires
        0 <= idx < 64,
        0 <= d < 8,
        ray_on_board(idx, d, k),
    ensures
        0 <= ray_index(idx, d, k) < 64,
        row_of(ray_index(idx, d, k)) == ray_row(idx, d, k),
        col_of(ray_index(idx, d, k)) == ray_col(idx, d, k),
{
}

/// From a cell of the leftmost column, no ray with a leftward step reaches any
/// cell (in particular not the end of the row above), so nothing is turned over
/// in those directions; likewise to the right from the rightmost column.
pub proof fn lemma_edge_no_wrap(cells: Seq<i8>, idx: int, side: i8, d: int)
    requires
        0 <= idx < 64,
        0 <= d < 8,
        (col_of(idx) == 0 && dir_dc(d) < 0) || (col_of(idx) == 7 && dir_dc(d) > 0),
    ensures
        forall|k: int| k >= 1 ==> !#[trigger] ray_on_board(idx, d, k),
        captured_in_dir(cells, idx, d, side) == 0,
{
}

proof fn lemma_legal_moves_below(m: BoardModel, n: int)
    requires
        0 <= n <= 64,
    ensures
        forall|a: int, b: int|
            0 <= a < b < m.legal_moves_below(n).len() ==> #[trigger] m.legal_moves_below(n)[a]
                < #[trigger] m.legal_moves_below(n)[b],
        forall|a: int|
            0 <= a < m.legal_moves_below(n).len() ==> #[trigger] m.legal_moves_below(n)[a] < n
                && m.is_legal(m.legal_moves_below(n)[a] as int),
        forall|i: int|
            0 <= i < n && m.is_legal(i) ==> #[trigger] m.legal_moves_below(n).contains(
                i as usize,
            ),
    decreases n,
{
    reveal(Seq::filter);
    if n > 0 {
        lemma_legal_moves_below(m, n - 1);
        assert(Seq::new(n as nat, |j: int| j as usize).drop_last() =~= Seq::new(
            (n - 1) as nat,
            |j: int| j as usize,
        ));
        let prev = m.legal_moves_below(n - 1);
        let cur = m.legal_moves_below(n);
        assert(cur == if m.is_legal(n - 1) {
            prev.push((n - 1) as usize)
        } else {
            prev
        });
        assert forall|i: int| 0 <= i < n && m.is_legal(i) implies #[trigger] cur.contains(
            i as usize,
        ) by {
            if i < n - 1 {
                assert(prev.contains(i as usize));
                let j = choose|j: int| 0 <= j < prev.len() && prev[j] == i as usize;
                assert(cur[j] == i as usize);
            } else {
                assert(cur[cur.len() - 1] == i as usize);
            }
        }
    }
}

/// The legal-move list is fixed by the position: it is in strictly ascending
/// order and holds exactly the legal moves.
pub proof fn lemma_legal_moves_ordered(m: BoardModel)
    ensures
        forall|a: int, b: int|
            0 <= a < b < m.legal_moves().len() ==> #[trigger] m.legal_moves()[a]
                < #[trigger] m.legal_moves()[b],
        forall|a: int|
            0 <= a < m.legal_moves().len() ==> #[trigger] m.legal_moves()[a] < 64 && m.is_legal(
                m.legal_moves()[a] as int,
            ),
        forall|i: int| 0 <= i < 64 && m.is_legal(i) ==> #[trigger] m.legal_moves().contains(i as usize),
{
    lemma_legal_moves_below(m, 64);
}

/// Number of indices below `n` that satisfy `p`.
pub open spec fn count_where(p: spec_fn(int) -> bool, n: int) -> nat
    decreases n,
{
    if n <= 0 {
        0
    } else {
        count_where(p, n - 1) + if p(n - 1) {
            1nat
        } else {
            0nat
        }
    }
}

proof fn lemma_count_union(p: spec_fn(int) -> bool, r: spec_fn(int) -> bool, q: spec_fn(int) -> bool, n: int)
    requires
        forall|i: int| 0 <= i < n ==> (#[trigger] q(i) == (p(i) || r(i))) && !(p(i) && r(i)),
    ensures
        count_where(q, n) == count_where(p, n) + count_where(r, n),
    decreases n,
{
    if n > 0 {
        lemma_count_union(p, r, q, n - 1);
        assert(q(n - 1) == (p(n - 1) || r(n - 1)));
    }
}

proof fn lemma_count_none(p: spec_fn(int) -> bool, n: int)
    requires
        forall|i: int| 0 <= i < n ==> !#[trigger] p(i),
    ensures
        count_where(p, n) == 0,
    decreases n,
{
    if n > 0 {
        lemma_count_none(p, n - 1);
    }
}

proof fn lemma_count_one(p: spec_fn(int) -> bool, x: int, n: int)
    requires
        0 <= x < n,
        forall|i: int| 0 <= i < n ==> (#[trigger] p(i) <==> i == x),
    ensures
        count_where(p, n) == 1,
    decreases n,
{
    if n - 1 == x {
        lemma_count_none(p, n - 1);
    } else {
        lemma_count_one(p, x, n - 1);
    }
}

proof fn lemma_count_cells(cells: Seq<i8>, v: i8, n: int)
    ensures
        count_below(cells, v, n) == count_where(|i: int| cells[i] == v, n),
    decreases n,
{
    if n > 0 {
        lemma_count_cells(cells, v, n - 1);
    }
}

/// Two cells on rays from one origin coincide only on the same ray at the same step.
proof fn lemma_rays_disjoint(idx: int, d1: int, k1: int, d2: int, k2: int)
    requires
        0 <= idx < 64,
        0 <= d1 < 8,
        0 <= d2 < 8,
        k1 >= 1,
        k2 >= 1,
        ray_on_board(idx, d1, k1),
        ray_on_board(idx, d2, k2),
        ray_index(idx, d1, k1) == ray_index(idx, d2, k2),
    ensures
        d1 == d2,
        k1 == k2,
{
    lemma_ray_stays_in_line(idx, d1, k1);
    lemma_ray_stays_in_line(idx, d2, k2);
}

/// The cells of the first `j` steps of the ray from `idx` in direction `d`.
spec fn ray_prefix(idx: int, d: int, j: int) -> spec_fn(int) -> bool {
    |i: int| exists|k: int| 1 <= k <= j && #[trigger] ray_index(idx, d, k) == i
}

proof fn lemma_ray_prefix_count(cells: Seq<i8>, idx: int, d: int, side: i8, j: int)
    requires
        0 <= idx < 64,
        0 <= d < 8,
        0 <= j <= run_len(cells, idx, d, side),
    ensures
        count_where(ray_prefix(idx, d, j), 64) == j,
    decreases j,
{
    if j == 0 {
        lemma_count_none(ray_prefix(idx, d, 0), 64);
    } else {
        lemma_ray_prefix_count(cells, idx, d, side, j - 1);
        lemma_in_run(cells, idx, d, side, 1, j);
        lemma_ray_stays_in_line(idx, d, j);
        let x = ray_index(idx, d, j);
        let single = |i: int| i == x;
        lemma_count_one(single, x, 64);
        assert forall|i: int| 0 <= i < 64 implies (#[trigger] ray_prefix(idx, d, j)(i) == (
        ray_prefix(idx, d, j - 1)(i) || single(i))) && !(ray_prefix(idx, d, j - 1)(i) && single(
            i,
        )) by {
            if ray_prefix(idx, d, j)(i) {
                let k = choose|k: int| 1 <= k <= j && #[trigger] ray_index(idx, d, k) == i;
                if k < j {
                    assert(ray_prefix(idx, d, j - 1)(i));
                }
            }
            if ray_prefix(idx, d, j - 1)(i) {
                let k = choose|k: int| 1 <= k <= j - 1 && #[trigger] ray_index(idx, d, k) == i;
                assert(ray_prefix(idx, d, j)(i));
                if i == x {
                    lemma_in_run(cells, idx, d, side, 1, k);
                    lemma_rays_disjoint(idx, d, k, d, j);
                }
            }
            if single(i) {
                assert(ray_prefix(idx, d, j)(i));
            }
        }
        lemma_count_union(ray_prefix(idx, d, j - 1), single, ray_prefix(idx, d, j), 64);
    }
}

proof fn lemma_captured_below_count(cells: Seq<i8>, idx: int, side: i8, nd: int)
    requires
        0 <= idx < 64,
        0 <= nd <= 8,
    ensures
        count_where(|i: int| captured_below(cells, idx, side, nd, i), 64)
            == captured_count_below(cells, idx, side, nd),
    decreases nd,
{
    let cur = |i: int| captured_below(cells, idx, side, nd, i);
    if nd == 0 {
        lemma_count_none(cur, 64);
    } else {
        let d = nd - 1;
        let prev = |i: int| captured_below(cells, idx, side, d, i);
        let n = captured_in_dir(cells, idx, d, side) as int;
        let ray = ray_prefix(idx, d, n);
        lemma_captured_below_count(cells, idx, side, d);
        lemma_ray_prefix_count(cells, idx, d, side, n);
        assert forall|i: int| 0 <= i < 64 implies (#[trigger] cur(i) == (prev(i) || ray(i)))
            && !(prev(i) && ray(i)) by {
            if cur(i) {
                let (e, k) = choose|e: int, k: int|
                    0 <= e < nd && 1 <= k <= captured_in_dir(cells, idx, e, side) && #[trigger] ray_index(
                        idx,
                        e,
                        k,
                    ) == i;
                if e < d {
                    assert(prev(i));
                } else {
                    assert(ray(i));
                }
            }
            if prev(i) {
                let (e, k) = choose|e: int, k: int|
                    0 <= e < d && 1 <= k <= captured_in_dir(cells, idx, e, side) && #[trigger] ray_index(
                        idx,
                        e,
                        k,
                    ) == i;
                assert(0 <= e < nd && 1 <= k <= captured_in_dir(cells, idx, e, side) && ray_index(idx, e, k) == i);
                assert(cur(i));
                if ray(i) {
                    let k2 = choose|k2: int| 1 <= k2 <= n && #[trigger] ray_index(idx, d, k2) == i;
                    lemma_in_run(cells, idx, e, side, 1, k);
                    lemma_in_run(cells, idx, d, side, 1, k2);
                    lemma_rays_disjoint(idx, e, k, d, k2);
                }
            }
            if ray(i) {
                let k2 = choose|k2: int| 1 <= k2 <= n && #[trigger] ray_index(idx, d, k2) == i;
                assert(0 <= d < nd && 1 <= k2 <= captured_in_dir(cells, idx, d, side) && ray_index(idx, d, k2) == i);
                assert(cur(i));
            }
        }
        lemma_count_union(prev, ray, cur, 64);
    }
}

/// A move never turns over its own cell.
proof fn lemma_origin_not_captured(cells: Seq<i8>, idx: int, side: i8)
    requires
        0 <= idx < 64,
    ensures
        !captured(cells, idx, side, idx),
{
    if captured(cells, idx, side, idx) {
        let (d, k) = choose|d: int, k: int|
            0 <= d < 8 && 1 <= k <= captured_in_dir(cells, idx, d, side) && #[trigger] ray_index(
                idx,
                d,
                k,
            ) == idx;
        lemma_in_run(cells, idx, d, side, 1, k);
        lemma_ray_stays_in_line(idx, d, k);
    }
}

/// The returned flip count is exact: after a legal move the mover has one
/// stone more than before plus the stones turned over, and the opponent has
/// exactly those stones fewer.
pub proof fn lemma_play_counts(m: BoardModel, idx: int)
    requires
        m.wf(),
        m.is_legal(idx),
    ensures
        count_of(m.play(idx).cells, m.side()) == count_of(m.cells, m.side()) + 1 + m.flips(idx),
        count_of(m.play(idx).cells, stone_of(!m.black_to_move)) + m.flips(idx) == count_of(
            m.cells,
            stone_of(!m.black_to_move),
        ),
{
    let side = m.side();
    let other = stone_of(!m.black_to_move);
    let cells = m.cells;
    let after = m.play(idx).cells;
    let cap = |i: int| captured(cells, idx, side, i);
    let origin = |i: int| i == idx;
    let placed = |i: int| i == idx || captured(cells, idx, side, i);
    let mine_before = |i: int| cells[i] == side;
    let mine_after = |i: int| after[i] == side;
    let theirs_before = |i: int| cells[i] == other;
    let theirs_after = |i: int| after[i] == other;
    assert(count_where(cap, 64) == m.flips(idx)) by {
        let below = |i: int| captured_below(cells, idx, side, 8, i);
        let nothing = |i: int| false;
        lemma_captured_below_count(cells, idx, side, 8);
        lemma_count_none(nothing, 64);
        lemma_count_union(below, nothing, cap, 64);
    }
    assert(count_where(placed, 64) == count_where(cap, 64) + 1) by {
        lemma_origin_not_captured(cells, idx, side);
        lemma_count_one(origin, idx, 64);
        assert forall|i: int| 0 <= i < 64 implies (#[trigger] placed(i) == (origin(i) || cap(i)))
            && !(origin(i) && cap(i)) by {}
        lemma_count_union(origin, cap, placed, 64);
    }
    assert(count_where(mine_after, 64) == count_where(mine_before, 64) + count_where(placed, 64))
        by {
        assert forall|i: int| 0 <= i < 64 implies (#[trigger] mine_after(i) == (mine_before(i)
            || placed(i))) && !(mine_before(i) && placed(i)) by {
            assert(after[i] == if placed(i) {
                side
            } else {
                cells[i]
            });
            if cap(i) {
                lemma_captured_is_opponent(cells, idx, side, i);
            }
            if i == idx {
                assert(cells[idx] == EMPTY);
            }
        }
        lemma_count_union(mine_before, placed, mine_after, 64);
    }
    assert(count_where(theirs_before, 64) == count_where(theirs_after, 64) + count_where(cap, 64))
        by {
        assert forall|i: int| 0 <= i < 64 implies (#[trigger] theirs_before(i) == (theirs_after(i)
            || cap(i))) && !(theirs_after(i) && cap(i)) by {
            assert(after[i] == if placed(i) {
                side
            } else {
                cells[i]
            });
            if cap(i) {
                lemma_captured_is_opponent(cells, idx, side, i);
            }
        }
        lemma_count_union(theirs_after, cap, theirs_before, 64);
    }
    lemma_count_cells(cells, side, 64);
    lemma_count_cells(after, side, 64);
    lemma_count_cells(cells, other, 64);
    lemma_count_cells(after, other, 64);
}

} // verus!
