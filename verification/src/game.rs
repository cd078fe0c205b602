use vstd::prelude::*;

use crate::board::{
    BOARD_HEIGHT, cleared, collides, full_row_count, lemma_cleared_shape, lemma_free_position, lemma_lock_completes_at_most_four,
    lemma_locked_shape, locked, row_full, well_shaped, Board,
};
use crate::piece::PieceType;

verus! {

/// The falling piece: its kind, the position of its origin (column `x`,
/// row `y`, row 0 at the bottom) and its rotation state.
#[derive(Debug, Clone, Copy, PartialEq, Eq, Structural)]
pub struct CurrentPiece {
    pub piece_type: PieceType,
    pub x: i32,
    pub y: i32,
    pub rotation: u8,
}

/// The requests that drive the game.
#[derive(Debug, Clone, Copy, PartialEq, Eq, Structural)]
pub enum GameAction {
    MoveLeft,
    MoveRight,
    MoveDown,
    Rotate,
    GravityStep,
    Pause,
    Resume,
    StartGame,
    ReturnToMenu,
    SubmitName,
    Backspace,
    KeyPressed(char),
}

/// The row at which a piece dropped straight down from row `y` comes to
/// rest: it keeps falling while the row below is free.
pub open spec fn landing_y(g: Seq<Seq<Option<PieceType>>>, p: PieceType, x: int, y: int, r: int) -> int
    decreases (if y > -4 { y + 4 } else { 0 }),
{
    if y <= -4 || collides(g, p, x, y - 1, r) {
        y
    } else {
        landing_y(g, p, x, y - 1, r)
    }
}

/// The piece `p` moved to `(x, y)` in rotation `r`, kind unchanged.
pub open spec fn placed(p: CurrentPiece, x: int, y: int, r: int) -> CurrentPiece {
    CurrentPiece { piece_type: p.piece_type, x: x as i32, y: y as i32, rotation: r as u8 }
}

/// The field and piece after one action, and whether the piece settled.
/// A move or turn happens only where the piece would be free. A hard drop
/// lowers the piece to where it lands, then settles it; a gravity step
/// lowers it one row, or settles it where it is when the row below is
/// blocked. Settling writes the piece into the field and clears full rows.
/// The other actions leave field and piece as they are.
pub open spec fn step(g: Seq<Seq<Option<PieceType>>>, p: CurrentPiece, a: GameAction) -> (Seq<Seq<Option<PieceType>>>, CurrentPiece, bool) {
    let (t, x, y, r) = (p.piece_type, p.x as int, p.y as int, p.rotation as int);
    match a {
        GameAction::MoveLeft => if collides(g, t, x - 1, y, r) { (g, p, false) } else { (g, placed(p, x - 1, y, r), false) },
        GameAction::MoveRight => if collides(g, t, x + 1, y, r) { (g, p, false) } else { (g, placed(p, x + 1, y, r), false) },
        GameAction::MoveDown => {
            let ly = landing_y(g, t, x, y, r);
            (cleared(locked(g, t, x, ly, r)), placed(p, x, ly, r), true)
        },
        GameAction::GravityStep => if collides(g, t, x, y - 1, r) {
            (cleared(locked(g, t, x, y, r)), p, true)
        } else {
            (g, placed(p, x, y - 1, r), false)
        },
        GameAction::Rotate => {
            let nr = (r + 1) % 4;
            if collides(g, t, x, y, nr) { (g, p, false) } else { (g, placed(p, x, y, nr), false) }
        },
        _ => (g, p, false),
    }
}

/// The field and piece after the actions from index `i` on, applied in
/// order until one settles the piece, and the index of that action.
pub open spec fn run_from(g: Seq<Seq<Option<PieceType>>>, p: CurrentPiece, actions: Seq<GameAction>, i: int) -> (Seq<Seq<Option<PieceType>>>, CurrentPiece, Option<int>)
    decreases actions.len() - i,
{
    if i < 0 || i >= actions.len() {
        (g, p, None)
    } else {
        let (g1, p1, settled) = step(g, p, actions[i]);
        if settled {
            (g1, p1, Some(i))
        } else {
            run_from(g1, p1, actions, i + 1)
        }
    }
}


/// A piece in a free position.
pub open spec fn free(g: Seq<Seq<Option<PieceType>>>, p: CurrentPiece) -> bool {
    !collides(g, p.piece_type, p.x as int, p.y as int, p.rotation as int)
}

/// A hard drop from row `y` stops at the first row whose next row down is
/// blocked: the piece is free in every row from the landing row up to (not
/// including) `y`, and blocked one row below the landing row.
pub proof fn lemma_landing(g: Seq<Seq<Option<PieceType>>>, t: PieceType, x: int, y: int, r: int)
    ensures
        landing_y(g, t, x, y, r) <= y,
        collides(g, t, x, landing_y(g, t, x, y, r) - 1, r),
        forall|z: int| landing_y(g, t, x, y, r) <= z < y ==> !collides(g, t, x, z, r),
    decreases (if y > -4 { y + 4 } else { 0 }),
{
    if y <= -4 {
        if !collides(g, t, x, y - 1, r) {
            lemma_free_position(g, t, x, y - 1, r);
        }
    } else if !collides(g, t, x, y - 1, r) {
        lemma_landing(g, t, x, y - 1, r);
    }
}

/// An action that does not settle the piece leaves the field as it is and
/// keeps a free piece free, of the same kind, in a rotation state below 4
/// when it was in one.
pub proof fn lemma_step_keeps_piece_free(g: Seq<Seq<Option<PieceType>>>, p: CurrentPiece, a: GameAction)
    requires
        free(g, p),
    ensures
        !step(g, p, a).2 ==> step(g, p, a).0 == g,
        !step(g, p, a).2 ==> free(step(g, p, a).0, step(g, p, a).1),
        !step(g, p, a).2 ==> step(g, p, a).1.piece_type == p.piece_type,
        !step(g, p, a).2 && p.rotation < 4 ==> step(g, p, a).1.rotation < 4,
{
    let (t, x, y, r) = (p.piece_type, p.x as int, p.y as int, p.rotation as int);
    match a {
        GameAction::MoveLeft => if !collides(g, t, x - 1, y, r) { lemma_free_position(g, t, x - 1, y, r); },
        GameAction::MoveRight => if !collides(g, t, x + 1, y, r) { lemma_free_position(g, t, x + 1, y, r); },
        GameAction::GravityStep => if !collides(g, t, x, y - 1, r) { lemma_free_position(g, t, x, y - 1, r); },
        _ => {},
    }
}

/// Every action keeps the size of the field. After an action that settles
/// the piece the field has no full row, and, when it had none before, at
/// most four rows were cleared.
pub proof fn lemma_step_field(g: Seq<Seq<Option<PieceType>>>, p: CurrentPiece, a: GameAction)
    requires
        well_shaped(g),
    ensures
        well_shaped(step(g, p, a).0),
        step(g, p, a).2 ==> forall|row: int| 0 <= row < BOARD_HEIGHT ==> !row_full(#[trigger] step(g, p, a).0[row]),
        step(g, p, a).2 && (forall|row: int| 0 <= row < BOARD_HEIGHT ==> !row_full(#[trigger] g[row])) ==> {
            let (t, x, r) = (p.piece_type, p.x as int, p.rotation as int);
            let y = if a == GameAction::MoveDown { landing_y(g, t, x, p.y as int, r) } else { p.y as int };
            full_row_count(locked(g, t, x, y, r)) <= 4
        },
{
    let (t, x, y, r) = (p.piece_type, p.x as int, p.y as int, p.rotation as int);
    let ly = if a == GameAction::MoveDown { landing_y(g, t, x, y, r) } else { y };
    lemma_locked_shape(g, t, x, ly, r);
    lemma_cleared_shape(locked(g, t, x, ly, r));
    if forall|row: int| 0 <= row < BOARD_HEIGHT ==> !row_full(#[trigger] g[row]) {
        lemma_lock_completes_at_most_four(g, t, x, ly, r);
    }
}

/// Whatever actions arrive, a free piece stays free as long as it is in
/// play: after the actions from index `i` on, the piece is free unless one
/// of them settled it.
pub proof fn lemma_run_keeps_piece_free(g: Seq<Seq<Option<PieceType>>>, p: CurrentPiece, actions: Seq<GameAction>, i: int)
    requires
        free(g, p),
    ensures
        run_from(g, p, actions, i).2 is None ==> free(run_from(g, p, actions, i).0, run_from(g, p, actions, i).1),
    decreases actions.len() - i,
{
    if 0 <= i < actions.len() {
        lemma_step_keeps_piece_free(g, p, actions[i]);
        let (g1, p1, settled) = step(g, p, actions[i]);
        if !settled {
            lemma_run_keeps_piece_free(g1, p1, actions, i + 1);
        }
    }
}


/// A move to the side that happens is undone by a move back: from a free
/// position, moving left and then right (or right and then left) returns
/// the piece to where it was, with the field unchanged.
pub proof fn lemma_side_moves_undo(g: Seq<Seq<Option<PieceType>>>, p: CurrentPiece)
    requires
        free(g, p),
    ensures
        !collides(g, p.piece_type, p.x - 1, p.y as int, p.rotation as int) ==> {
            let (g1, p1, s1) = step(g, p, GameAction::MoveLeft);
            step(g1, p1, GameAction::MoveRight) == (g, p, false)
        },
        !collides(g, p.piece_type, p.x + 1, p.y as int, p.rotation as int) ==> {
            let (g1, p1, s1) = step(g, p, GameAction::MoveRight);
            step(g1, p1, GameAction::MoveLeft) == (g, p, false)
        },
{
    let (t, x, y, r) = (p.piece_type, p.x as int, p.y as int, p.rotation as int);
    if !collides(g, t, x - 1, y, r) {
        lemma_free_position(g, t, x - 1, y, r);
    }
    if !collides(g, t, x + 1, y, r) {
        lemma_free_position(g, t, x + 1, y, r);
    }
}


/// `n` gravity steps.
pub open spec fn gravity_steps(n: nat) -> Seq<GameAction> {
    Seq::new(n, |i: int| GameAction::GravityStep)
}

proof fn lemma_gravity_run(g: Seq<Seq<Option<PieceType>>>, p: CurrentPiece, actions: Seq<GameAction>, i: int)
    requires
        0 <= i,
        forall|j: int| 0 <= j < actions.len() ==> actions[j] == GameAction::GravityStep,
        actions.len() - i == p.y - landing_y(g, p.piece_type, p.x as int, p.y as int, p.rotation as int) + 1,
    ensures
        ({
            let (t, x, y, r) = (p.piece_type, p.x as int, p.y as int, p.rotation as int);
            let ly = landing_y(g, t, x, y, r);
            run_from(g, p, actions, i) == (cleared(locked(g, t, x, ly, r)), placed(p, x, ly, r), Some(actions.len() - 1))
        }),
    decreases actions.len() - i,
{
    let (t, x, y, r) = (p.piece_type, p.x as int, p.y as int, p.rotation as int);
    lemma_landing(g, t, x, y, r);
    if collides(g, t, x, y - 1, r) {
        assert(landing_y(g, t, x, y, r) == y);
    } else {
        lemma_free_position(g, t, x, y - 1, r);
        let p1 = placed(p, x, y - 1, r);
        assert(landing_y(g, t, x, y, r) == landing_y(g, t, x, y - 1, r));
        lemma_gravity_run(g, p1, actions, i + 1);
    }
}

/// A hard drop does what gravity steps do until the piece settles: from
/// row `y`, with landing row `ly`, `y - ly + 1` gravity steps leave the
/// same field and piece as one hard drop, and the last of them settles the
/// piece.
pub proof fn lemma_hard_drop_is_gravity(g: Seq<Seq<Option<PieceType>>>, p: CurrentPiece)
    ensures
        ({
            let n = p.y - landing_y(g, p.piece_type, p.x as int, p.y as int, p.rotation as int) + 1;
            let drop = step(g, p, GameAction::MoveDown);
            run_from(g, p, gravity_steps(n as nat), 0) == (drop.0, drop.1, Some(n - 1))
        }),
{
    let (t, x, y, r) = (p.piece_type, p.x as int, p.y as int, p.rotation as int);
    lemma_landing(g, t, x, y, r);
    let n = y - landing_y(g, t, x, y, r) + 1;
    lemma_gravity_run(g, p, gravity_steps(n as nat), 0);
}


/// What each action does to a piece `p`, stated action by action.
/// A turn moves to the next of four rotation states, `(rotation + 1) % 4`,
/// when the piece has room there, and otherwise changes nothing. A move to
/// the side shifts the column by one when there is room. A hard drop always
/// settles the piece; a gravity step settles it exactly when the row below
/// is blocked. Only these two ever settle the piece, and the actions that
/// are not moves (pause, menu and name actions) change nothing at all.
pub proof fn lemma_action_effects(g: Seq<Seq<Option<PieceType>>>, p: CurrentPiece, a: GameAction)
    ensures
        !collides(g, p.piece_type, p.x as int, p.y as int, (p.rotation + 1) % 4) ==> step(g, p, GameAction::Rotate) == (
            g,
            CurrentPiece { piece_type: p.piece_type, x: p.x, y: p.y, rotation: ((p.rotation + 1) % 4) as u8 },
            false,
        ),
        collides(g, p.piece_type, p.x as int, p.y as int, (p.rotation + 1) % 4) ==> step(g, p, GameAction::Rotate) == (g, p, false),
        !collides(g, p.piece_type, p.x - 1, p.y as int, p.rotation as int) ==> step(g, p, GameAction::MoveLeft) == (
            g,
            CurrentPiece { piece_type: p.piece_type, x: (p.x - 1) as i32, y: p.y, rotation: p.rotation },
            false,
        ),
        collides(g, p.piece_type, p.x - 1, p.y as int, p.rotation as int) ==> step(g, p, GameAction::MoveLeft) == (g, p, false),
        !collides(g, p.piece_type, p.x + 1, p.y as int, p.rotation as int) ==> step(g, p, GameAction::MoveRight) == (
            g,
            CurrentPiece { piece_type: p.piece_type, x: (p.x + 1) as i32, y: p.y, rotation: p.rotation },
            false,
        ),
        collides(g, p.piece_type, p.x + 1, p.y as int, p.rotation as int) ==> step(g, p, GameAction::MoveRight) == (g, p, false),
        step(g, p, GameAction::MoveDown).2,
        step(g, p, GameAction::GravityStep).2 == collides(g, p.piece_type, p.x as int, p.y - 1, p.rotation as int),
        step(g, p, a).2 ==> a == GameAction::MoveDown || a == GameAction::GravityStep,
        !(a == GameAction::MoveLeft || a == GameAction::MoveRight || a == GameAction::MoveDown || a == GameAction::Rotate
            || a == GameAction::GravityStep) ==> step(g, p, a) == (g, p, false),
{
}

/// Four unblocked turns in a row pass through four different rotation
/// states, one quarter turn apart, and bring the piece back to where it
/// started.
pub proof fn lemma_four_rotations(g: Seq<Seq<Option<PieceType>>>, p: CurrentPiece)
    requires
        p.rotation < 4,
        forall|k: int| 0 <= k < 4 ==> !#[trigger] collides(g, p.piece_type, p.x as int, p.y as int, k),
    ensures
        ({
            let p1 = step(g, p, GameAction::Rotate).1;
            let p2 = step(g, p1, GameAction::Rotate).1;
            let p3 = step(g, p2, GameAction::Rotate).1;
            let p4 = step(g, p3, GameAction::Rotate).1;
            &&& p1.rotation == (p.rotation + 1) % 4
            &&& p2.rotation == (p.rotation + 2) % 4
            &&& p3.rotation == (p.rotation + 3) % 4
            &&& p4 == p
            &&& p.rotation != p1.rotation && p.rotation != p2.rotation && p.rotation != p3.rotation
            &&& p1.rotation != p2.rotation && p1.rotation != p3.rotation && p2.rotation != p3.rotation
        }),
{
    let p1 = step(g, p, GameAction::Rotate).1;
    let p2 = step(g, p1, GameAction::Rotate).1;
    let p3 = step(g, p2, GameAction::Rotate).1;
    assert(!collides(g, p.piece_type, p.x as int, p.y as int, (p.rotation + 1) % 4));
    lemma_action_effects(g, p, GameAction::Rotate);
    assert(!collides(g, p.piece_type, p.x as int, p.y as int, (p1.rotation + 1) % 4));
    lemma_action_effects(g, p1, GameAction::Rotate);
    assert(!collides(g, p.piece_type, p.x as int, p.y as int, (p2.rotation + 1) % 4));
    lemma_action_effects(g, p2, GameAction::Rotate);
    assert(!collides(g, p.piece_type, p.x as int, p.y as int, (p3.rotation + 1) % 4));
    lemma_action_effects(g, p3, GameAction::Rotate);
}

/// A run of actions ends early only on an action that settles the piece:
/// when it reports index `j`, action `j` is a hard drop or a gravity step,
/// and a run without either never reports one.
pub proof fn lemma_run_ends_only_on_settle(g: Seq<Seq<Option<PieceType>>>, p: CurrentPiece, actions: Seq<GameAction>, i: int)
    requires
        0 <= i,
    ensures
        run_from(g, p, actions, i).2 matches Some(j) ==> i <= j < actions.len()
            && (actions[j] == GameAction::MoveDown || actions[j] == GameAction::GravityStep),
        (forall|k: int| i <= k < actions.len() ==> #[trigger] actions[k] != GameAction::MoveDown && actions[k] != GameAction::GravityStep)
            ==> run_from(g, p, actions, i).2 is None,
    decreases actions.len() - i,
{
    if i < actions.len() {
        lemma_action_effects(g, p, actions[i]);
        let (g1, p1, settled) = step(g, p, actions[i]);
        if !settled {
            lemma_run_ends_only_on_settle(g1, p1, actions, i + 1);
        }
    }
}

/// Applies one action to the field and the falling piece. Returns whether
/// the piece settled; a settled piece is no longer in play.
pub fn apply_action(board: &mut Board, piece: &mut CurrentPiece, action: GameAction) -> (settled: bool)
    ensures
        (final(board)@, *final(piece), settled) == step(old(board)@, *old(piece), action),
{
    let t = piece.piece_type;
    let r = piece.rotation;
    match action {
        GameAction::MoveLeft => {
            if !board.collides_wide(t, piece.x as i64 - 1, piece.y as i64, r) {
                proof { lemma_free_position(board@, t, piece.x - 1, piece.y as int, r as int); }
                piece.x = piece.x - 1;
            }
            false
        },
        GameAction::MoveRight => {
            if !board.collides_wide(t, piece.x as i64 + 1, piece.y as i64, r) {
                proof { lemma_free_position(board@, t, piece.x + 1, piece.y as int, r as int); }
                piece.x = piece.x + 1;
            }
            false
        },
        GameAction::MoveDown => {
            let ghost g = board@;
            let ghost y0 = piece.y as int;
            while !board.collides_wide(t, piece.x as i64, piece.y as i64 - 1, r)
                invariant
                    board@ == g,
                    piece.piece_type == t,
                    piece.rotation == r,
                    piece.x == old(piece).x,
                    landing_y(g, t, piece.x as int, piece.y as int, r as int) == landing_y(g, t, piece.x as int, y0, r as int),
                decreases piece.y as int + 4,
            {
                proof { lemma_free_position(g, t, piece.x as int, piece.y - 1, r as int); }
                piece.y = piece.y - 1;
            }
            board.lock_piece(t, piece.x, piece.y, r);
            board.clear_lines();
            true
        },
        GameAction::GravityStep => {
            if !board.collides_wide(t, piece.x as i64, piece.y as i64 - 1, r) {
                proof { lemma_free_position(board@, t, piece.x as int, piece.y - 1, r as int); }
                piece.y = piece.y - 1;
                false
            } else {
                board.lock_piece(t, piece.x, piece.y, r);
                board.clear_lines();
                true
            }
        },
        GameAction::Rotate => {
            let next_rotation: u8 = ((r as u16 + 1) % 4) as u8;
            if !board.collides_wide(t, piece.x as i64, piece.y as i64, next_rotation) {
                piece.rotation = next_rotation;
            }
            false
        },
        _ => false,
    }
}

/// Applies `actions` in order until one of them settles the piece. Returns
/// the index of that action, or `None` when the piece is still in play
/// after all of them; the actions after a settling one are not applied.
pub fn handle_actions(board: &mut Board, piece: &mut CurrentPiece, actions: &Vec<GameAction>) -> (settled_at: Option<usize>)
    ensures
        final(board)@ == run_from(old(board)@, *old(piece), actions@, 0).0,
        *final(piece) == run_from(old(board)@, *old(piece), actions@, 0).1,
        settled_at is None <==> run_from(old(board)@, *old(piece), actions@, 0).2 is None,
        settled_at matches Some(i) ==> run_from(old(board)@, *old(piece), actions@, 0).2 == Some(i as int),
{
    let ghost total = run_from(board@, *piece, actions@, 0);
    let mut i: usize = 0;
    while i < actions.len()
        invariant
            i <= actions.len(),
            run_from(board@, *piece, actions@, i as int) == total,
            total == run_from(old(board)@, *old(piece), actions@, 0),
        decreases actions.len() - i,
    {
        let ghost before_board = board@;
        let ghost before_piece = *piece;
        let settled = apply_action(board, piece, actions[i]);
        if settled {
            assert(run_from(before_board, before_piece, actions@, i as int) == (board@, *piece, Some(i as int)));
            return Some(i);
        }
        i = i + 1;
    }
    None
}

} // verus!
