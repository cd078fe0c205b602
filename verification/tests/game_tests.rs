use tetris::board::{Board, BOARD_HEIGHT, BOARD_WIDTH};
use tetris::game::{apply_action, handle_actions, CurrentPiece, GameAction};
use tetris::piece::PieceType;

fn piece(t: PieceType, x: i32, y: i32, rotation: u8) -> CurrentPiece {
    CurrentPiece { piece_type: t, x, y, rotation }
}

#[test]
fn side_moves_stop_at_walls() {
    let mut b = Board::default();
    let mut p = piece(PieceType::O, -1, 5, 0);
    assert!(!apply_action(&mut b, &mut p, GameAction::MoveLeft));
    assert_eq!(p.x, -1);
    assert!(!apply_action(&mut b, &mut p, GameAction::MoveRight));
    assert_eq!(p.x, 0);
    let mut q = piece(PieceType::O, 7, 5, 0);
    apply_action(&mut b, &mut q, GameAction::MoveRight);
    assert_eq!(q.x, 7);
}

#[test]
fn left_then_right_returns() {
    let mut b = Board::default();
    let mut p = piece(PieceType::T, 4, 10, 1);
    apply_action(&mut b, &mut p, GameAction::MoveLeft);
    apply_action(&mut b, &mut p, GameAction::MoveRight);
    assert_eq!(p, piece(PieceType::T, 4, 10, 1));
}

#[test]
fn hard_drop_lands_on_floor_and_settles() {
    let mut b = Board::default();
    let mut p = piece(PieceType::I, 3, 16, 0);
    assert!(apply_action(&mut b, &mut p, GameAction::MoveDown));
    assert_eq!(p.y, -1);
    for x in 3..7 {
        assert_eq!(b.grid[0][x], Some(PieceType::I));
    }
    assert_eq!(b.grid[0][2], None);
}

#[test]
fn hard_drop_completing_a_line_clears_it() {
    let mut b = Board::default();
    for x in 0..BOARD_WIDTH {
        if !(3..7).contains(&x) {
            b.grid[0][x] = Some(PieceType::Z);
        }
    }
    b.grid[1][0] = Some(PieceType::S);
    let mut p = piece(PieceType::I, 3, 16, 0);
    assert!(apply_action(&mut b, &mut p, GameAction::MoveDown));
    assert_eq!(b.grid[0][0], Some(PieceType::S));
    assert_eq!(b.grid[0][1], None);
}

#[test]
fn gravity_steps_then_settles() {
    let mut b = Board::default();
    let mut p = piece(PieceType::O, 3, 0, 0);
    assert!(!apply_action(&mut b, &mut p, GameAction::GravityStep));
    assert_eq!(p.y, -1);
    assert!(apply_action(&mut b, &mut p, GameAction::GravityStep));
    assert_eq!(p.y, -1);
    assert_eq!(b.grid[0][4], Some(PieceType::O));
    assert_eq!(b.grid[1][5], Some(PieceType::O));
}

#[test]
fn rotate_when_free_and_not_when_blocked() {
    let mut b = Board::default();
    let mut p = piece(PieceType::T, 4, 10, 3);
    assert!(!apply_action(&mut b, &mut p, GameAction::Rotate));
    assert_eq!(p.rotation, 0);
    // A vertical I against the right wall cannot turn flat.
    let mut q = piece(PieceType::I, 7, 10, 1);
    apply_action(&mut b, &mut q, GameAction::Rotate);
    assert_eq!(q.rotation, 1);
    // Rotation 255 wraps to 0 without overflow.
    let mut r = piece(PieceType::O, 4, 10, 255);
    apply_action(&mut b, &mut r, GameAction::Rotate);
    assert_eq!(r.rotation, 0);
}

#[test]
fn other_actions_change_nothing() {
    let mut b = Board::default();
    let mut p = piece(PieceType::S, 4, 10, 0);
    for a in [GameAction::Pause, GameAction::Resume, GameAction::StartGame, GameAction::ReturnToMenu,
              GameAction::SubmitName, GameAction::Backspace, GameAction::KeyPressed('a')] {
        assert!(!apply_action(&mut b, &mut p, a));
    }
    assert_eq!(p, piece(PieceType::S, 4, 10, 0));
}

#[test]
fn handle_actions_stops_at_settling_action() {
    let mut b = Board::default();
    let mut p = piece(PieceType::O, 3, 16, 0);
    let actions = vec![GameAction::MoveLeft, GameAction::MoveDown, GameAction::MoveRight];
    assert_eq!(handle_actions(&mut b, &mut p, &actions), Some(1));
    assert_eq!(p.x, 2);
    assert_eq!(b.grid[0][3], Some(PieceType::O));

    let mut b2 = Board::default();
    let mut p2 = piece(PieceType::O, 3, 16, 0);
    let moves = vec![GameAction::MoveRight, GameAction::GravityStep, GameAction::Rotate];
    assert_eq!(handle_actions(&mut b2, &mut p2, &moves), None);
    assert_eq!(p2, piece(PieceType::O, 4, 15, 1));
}

#[test]
fn hard_drop_matches_gravity_steps() {
    let mut start = Board::default();
    start.grid[2][5] = Some(PieceType::J);
    let mut dropped = Board { grid: start.grid };
    let mut p = piece(PieceType::T, 4, 16, 0);
    assert!(apply_action(&mut dropped, &mut p, GameAction::MoveDown));
    let mut stepped = Board { grid: start.grid };
    let mut q = piece(PieceType::T, 4, 16, 0);
    let n = (16 - p.y + 1) as usize;
    let steps = vec![GameAction::GravityStep; n];
    assert_eq!(handle_actions(&mut stepped, &mut q, &steps), Some(n - 1));
    assert_eq!(stepped.grid, dropped.grid);
    assert_eq!(q, p);
    assert_eq!(p.y, 2);
}

#[test]
fn a_settled_piece_clears_at_most_four_rows() {
    let mut b = Board::default();
    for y in 0..4 {
        for x in 0..BOARD_WIDTH {
            if x != 9 {
                b.grid[y][x] = Some(PieceType::O);
            }
        }
    }
    let mut p = piece(PieceType::I, 7, 10, 1);
    assert!(apply_action(&mut b, &mut p, GameAction::MoveDown));
    for y in 0..BOARD_HEIGHT {
        assert!(b.grid[y].iter().all(|c| c.is_none()));
    }
}
