use reversi_rl::{Board, BoardError};

const DIRS: [(i32, i32); 8] = [(-1, -1), (-1, 0), (-1, 1), (0, -1), (0, 1), (1, -1), (1, 0), (1, 1)];

/// Independent row/column computation of a move's result, used to cross-check `play`.
fn expected_after(cells: &[i8], idx: usize, side: i8) -> (Vec<i8>, usize) {
    let mut out = cells.to_vec();
    out[idx] = side;
    let mut flipped = 0;
    let (r0, c0) = ((idx / 8) as i32, (idx % 8) as i32);
    for (dr, dc) in DIRS {
        let mut run = Vec::new();
        let (mut r, mut c) = (r0 + dr, c0 + dc);
        while (0..8).contains(&r) && (0..8).contains(&c) && cells[(r * 8 + c) as usize] == -side {
            run.push((r * 8 + c) as usize);
            r += dr;
            c += dc;
        }
        if !run.is_empty() && (0..8).contains(&r) && (0..8).contains(&c) && cells[(r * 8 + c) as usize] == side {
            for i in &run {
                out[*i] = side;
            }
            flipped += run.len();
        }
    }
    (out, flipped)
}

#[test]
fn initial_legal_moves() {
    let b = Board::new();
    let ls = b.legal_moves();
    assert_eq!(ls.len(), 4);
    for &mv in &[19usize, 26, 37, 44] {
        assert!(ls.contains(&mv));
    }
}

#[test]
fn play_and_flip() {
    let mut b = Board::new();
    let flipped = b.play(19).unwrap();
    assert_eq!(flipped, 1);
    let (black, white) = b.counts();
    assert_eq!((black, white), (4, 1));
}

#[test]
fn initial_position() {
    let b = Board::new();
    assert_eq!(b.counts(), (2, 2));
    assert!(b.get_black_to_move());
    let cells = b.as_list();
    assert_eq!(cells.len(), 64);
    for (i, &v) in cells.iter().enumerate() {
        let want = match i {
            27 | 36 => -1,
            28 | 35 => 1,
            _ => 0,
        };
        assert_eq!(v, want, "cell {}", i);
    }
}

#[test]
fn reset_restores_start() {
    let mut b = Board::new();
    b.play(19).unwrap();
    b.play(18).unwrap();
    b.reset();
    assert_eq!(b.counts(), (2, 2));
    assert!(b.get_black_to_move());
    assert_eq!(b.as_list(), Board::new().as_list());
    assert_eq!(b.legal_moves(), vec![19, 26, 37, 44]);
}

#[test]
fn legal_moves_exact_and_ordered() {
    let b = Board::new();
    assert_eq!(b.legal_moves(), vec![19, 26, 37, 44]);
    assert!(b.is_legal(19));
    assert!(!b.is_legal(20));
    assert!(!b.is_legal(27));
}

#[test]
fn play_19_cells() {
    let mut b = Board::new();
    assert_eq!(b.play(19), Ok(1));
    let cells = b.as_list();
    assert_eq!(cells[19], 1);
    assert_eq!(cells[27], 1);
    assert_eq!(cells[28], 1);
    assert_eq!(cells[35], 1);
    assert_eq!(cells[36], -1);
    assert!(!b.get_black_to_move());
    assert_eq!(b.legal_moves(), vec![18, 20, 34]);
}

#[test]
fn illegal_occupied_rejected() {
    let mut b = Board::new();
    let before = b.as_list();
    assert_eq!(b.play(27), Err(BoardError::IllegalMove));
    assert_eq!(b.play(28), Err(BoardError::IllegalMove));
    assert_eq!(b.as_list(), before);
    assert_eq!(b.counts(), (2, 2));
    assert!(b.get_black_to_move());
}

#[test]
fn illegal_unflanked_rejected() {
    let mut b = Board::new();
    let before = b.as_list();
    for idx in [0usize, 7, 20, 63] {
        assert_eq!(b.play(idx), Err(BoardError::IllegalMove));
    }
    assert_eq!(b.as_list(), before);
    assert_eq!(b.counts(), (2, 2));
    assert!(b.get_black_to_move());
}

#[test]
fn turn_alternates_and_stones_conserved() {
    let mut b = Board::new();
    let mut n = 0;
    loop {
        let moves = b.legal_moves();
        if moves.is_empty() {
            break;
        }
        let (bl, wh) = b.counts();
        let before = b.as_list();
        b.play(moves[n % moves.len()]).unwrap();
        n += 1;
        let (bl2, wh2) = b.counts();
        assert_eq!(bl2 as u32 + wh2 as u32, bl as u32 + wh as u32 + 1);
        let after = b.as_list();
        for i in 0..64 {
            if before[i] != 0 {
                assert_ne!(after[i], 0);
            }
        }
        assert_eq!(b.get_black_to_move(), n % 2 == 0);
    }
    assert!(n > 0);
}

#[test]
fn flips_match_row_column_scan() {
    // Plays whole games and checks every move against a scan by row and column,
    // which cannot wrap from one edge of the board to the other.
    for seed in 0..8usize {
        let mut b = Board::new();
        let mut n = 0usize;
        loop {
            let moves = b.legal_moves();
            if moves.is_empty() {
                break;
            }
            let idx = moves[(n * 7 + seed) % moves.len()];
            let side: i8 = if b.get_black_to_move() { 1 } else { -1 };
            let (want_cells, want_flips) = expected_after(&b.as_list(), idx, side);
            assert_eq!(b.play(idx), Ok(want_flips));
            assert_eq!(b.as_list(), want_cells);
            n += 1;
        }
    }
}

#[test]
fn legal_moves_stable() {
    let mut b = Board::new();
    b.play(19).unwrap();
    let a = b.legal_moves();
    let c = b.legal_moves();
    assert_eq!(a, c);
    for w in a.windows(2) {
        assert!(w[0] < w[1]);
    }
    for i in 0..64usize {
        assert_eq!(b.is_legal(i), a.contains(&i));
    }
}

#[test]
fn counts_track_flips_exactly() {
    let mut b = Board::new();
    let mut n = 0usize;
    loop {
        let moves = b.legal_moves();
        if moves.is_empty() {
            break;
        }
        let black = b.get_black_to_move();
        let (bl, wh) = b.counts();
        let flips = b.play(moves[(n * 3) % moves.len()]).unwrap();
        let (bl2, wh2) = b.counts();
        let (mine, mine2, theirs, theirs2) = if black { (bl, bl2, wh, wh2) } else { (wh, wh2, bl, bl2) };
        assert_eq!(mine2 as usize, mine as usize + 1 + flips);
        assert_eq!(theirs2 as usize + flips, theirs as usize);
        n += 1;
    }
}
