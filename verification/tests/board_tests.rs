use tetris::board::{Board, BOARD_HEIGHT, BOARD_WIDTH};
use tetris::piece::PieceType;

fn filled_row(t: PieceType) -> [Option<PieceType>; BOARD_WIDTH] {
    [Some(t); BOARD_WIDTH]
}

fn occupied(board: &Board) -> usize {
    board.grid.iter().map(|r| r.iter().filter(|c| c.is_some()).count()).sum()
}

#[test]
fn coordinates_of_each_kind() {
    assert_eq!(PieceType::I.coordinates(0), [(0, 1), (1, 1), (2, 1), (3, 1)]);
    assert_eq!(PieceType::I.coordinates(1), [(2, 0), (2, 1), (2, 2), (2, 3)]);
    assert_eq!(PieceType::I.coordinates(3), [(2, 0), (2, 1), (2, 2), (2, 3)]);
    assert_eq!(PieceType::O.coordinates(2), [(1, 1), (2, 1), (1, 2), (2, 2)]);
    assert_eq!(PieceType::T.coordinates(2), [(1, 1), (0, 1), (2, 1), (1, 0)]);
    assert_eq!(PieceType::S.coordinates(1), [(1, 1), (1, 2), (2, 2), (2, 3)]);
    assert_eq!(PieceType::Z.coordinates(0), [(0, 1), (1, 1), (1, 2), (2, 2)]);
    assert_eq!(PieceType::J.coordinates(3), [(1, 0), (2, 0), (1, 1), (1, 2)]);
    assert_eq!(PieceType::L.coordinates(1), [(0, 0), (1, 0), (1, 1), (1, 2)]);
}

#[test]
fn four_turns_give_the_same_cells() {
    for t in PieceType::all() {
        for r in 0u8..=251 {
            assert_eq!(t.coordinates(r), t.coordinates(r + 4));
        }
    }
}

#[test]
fn cells_stay_in_the_box_and_are_distinct() {
    for t in PieceType::all() {
        for r in 0u8..4 {
            let c = t.coordinates(r);
            for i in 0..4 {
                assert!((0..=3).contains(&c[i].0) && (0..=3).contains(&c[i].1));
                for k in 0..4 {
                    if i != k {
                        assert_ne!(c[i], c[k]);
                    }
                }
            }
        }
    }
}

#[test]
fn default_board_is_empty() {
    let b = Board::default();
    assert_eq!(occupied(&b), 0);
    assert_eq!(b.grid.len(), BOARD_HEIGHT);
}

#[test]
fn collision_with_walls_floor_and_blocks() {
    let mut b = Board::default();
    assert!(!b.is_colliding(PieceType::O, 3, 16, 0));
    // O covers columns x+1, x+2: x = -1 is still inside, x = -2 is not.
    assert!(!b.is_colliding(PieceType::O, -1, 5, 0));
    assert!(b.is_colliding(PieceType::O, -2, 5, 0));
    assert!(!b.is_colliding(PieceType::O, 7, 5, 0));
    assert!(b.is_colliding(PieceType::O, 8, 5, 0));
    // Rows below 0 block, rows above the top do not.
    assert!(!b.is_colliding(PieceType::O, 3, -1, 0));
    assert!(b.is_colliding(PieceType::O, 3, -2, 0));
    assert!(!b.is_colliding(PieceType::O, 3, 100, 0));
    b.grid[5][4] = Some(PieceType::T);
    assert!(b.is_colliding(PieceType::O, 3, 4, 0));
    assert!(!b.is_colliding(PieceType::O, 3, 6, 0));
    // Extreme positions do not overflow.
    assert!(b.is_colliding(PieceType::I, i32::MAX, i32::MAX, 0));
    assert!(b.is_colliding(PieceType::I, i32::MIN, 0, 0));
}

#[test]
fn lock_piece_writes_cells_inside_the_field() {
    let mut b = Board::default();
    b.lock_piece(PieceType::O, 3, 16, 0);
    assert_eq!(b.grid[17][4], Some(PieceType::O));
    assert_eq!(b.grid[17][5], Some(PieceType::O));
    assert_eq!(b.grid[18][4], Some(PieceType::O));
    assert_eq!(b.grid[18][5], Some(PieceType::O));
    assert_eq!(occupied(&b), 4);
    // Cells above the top are dropped.
    let mut c = Board::default();
    c.lock_piece(PieceType::I, 0, 18, 1);
    assert_eq!(occupied(&c), 2);
    assert_eq!(c.grid[18][2], Some(PieceType::I));
    assert_eq!(c.grid[19][2], Some(PieceType::I));
}

#[test]
fn clear_one_line_drops_rows_above() {
    let mut b = Board::default();
    b.grid[0] = filled_row(PieceType::I);
    b.grid[1][3] = Some(PieceType::T);
    b.grid[2][7] = Some(PieceType::S);
    let n = b.clear_lines();
    assert_eq!(n, 1);
    assert_eq!(b.grid[0][3], Some(PieceType::T));
    assert_eq!(b.grid[1][7], Some(PieceType::S));
    assert_eq!(occupied(&b), 2);
}

#[test]
fn clear_four_lines_and_again_nothing() {
    let mut b = Board::default();
    for y in [0usize, 1, 3, 19] {
        b.grid[y] = filled_row(PieceType::L);
    }
    b.grid[2][0] = Some(PieceType::J);
    b.grid[4][9] = Some(PieceType::Z);
    assert_eq!(b.clear_lines(), 4);
    assert_eq!(b.grid[0][0], Some(PieceType::J));
    assert_eq!(b.grid[1][9], Some(PieceType::Z));
    assert_eq!(occupied(&b), 2);
    let before = b.grid;
    assert_eq!(b.clear_lines(), 0);
    assert_eq!(b.grid, before);
}

#[test]
fn clear_full_board() {
    let mut b = Board::default();
    for y in 0..BOARD_HEIGHT {
        b.grid[y] = filled_row(PieceType::O);
    }
    assert_eq!(b.clear_lines(), BOARD_HEIGHT as u32);
    assert_eq!(occupied(&b), 0);
}

fn turned(c: (i32, i32), k: u8) -> (i32, i32) {
    let (mut x, mut y) = c;
    for _ in 0..k {
        let t = x;
        x = -y;
        y = t;
    }
    (x, y)
}

fn same_set(a: &[(i32, i32)], b: &[(i32, i32)]) -> bool {
    a.iter().all(|c| b.contains(c)) && b.iter().all(|c| a.contains(c))
}

fn is_rotation_of(a: &[(i32, i32); 4], b: &[(i32, i32); 4]) -> bool {
    for k in 0..4u8 {
        for tx in -8..=8 {
            for ty in -8..=8 {
                let m: Vec<(i32, i32)> = a.iter().map(|c| {
                    let t = turned(*c, k);
                    (t.0 + tx, t.1 + ty)
                }).collect();
                if same_set(&m, b) {
                    return true;
                }
            }
        }
    }
    false
}

#[test]
fn every_state_is_a_turn_of_state_zero() {
    for t in PieceType::all() {
        for r in 0u8..4 {
            assert!(is_rotation_of(&t.coordinates(0), &t.coordinates(r)));
        }
    }
}

#[test]
fn kinds_are_distinct_tetrominoes() {
    for p in PieceType::all() {
        for q in PieceType::all() {
            if p != q {
                assert!(!is_rotation_of(&p.coordinates(0), &q.coordinates(0)));
            }
        }
    }
}

#[test]
fn locking_a_free_piece_adds_its_inside_cells() {
    let mut b = Board::default();
    b.grid[0] = [Some(PieceType::S); BOARD_WIDTH];
    b.grid[0][4] = None;
    let before = occupied(&b);
    assert!(!b.is_colliding(PieceType::I, 2, 17, 1));
    b.lock_piece(PieceType::I, 2, 17, 1);
    assert_eq!(occupied(&b), before + 3);
    assert!(b.is_colliding(PieceType::I, 2, 17, 1));
}
