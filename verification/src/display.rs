use vstd::prelude::*;

use crate::board::{cells_inside, BOARD_HEIGHT, BOARD_WIDTH};
use crate::game::CurrentPiece;
use crate::input::AppMode;
use crate::piece::shape;

verus! {

/// Whether the field and the next-piece box are shown on screen `mode`:
/// while playing and while paused.
pub fn board_visible(mode: AppMode) -> (shown: bool)
    ensures
        shown == (mode == AppMode::Playing || mode == AppMode::Paused),
{
    mode == AppMode::Playing || mode == AppMode::Paused
}

/// Whether column `x`, row `y` lies inside the field.
pub open spec fn in_field(x: int, y: int) -> bool {
    0 <= x < BOARD_WIDTH && 0 <= y < BOARD_HEIGHT
}

/// The cells of the falling piece that lie inside the field, in the order
/// of the piece's shape, as `(column, row)`.
pub open spec fn shown_cells(p: CurrentPiece, n: int) -> Seq<(int, int)>
    decreases n,
{
    if n <= 0 {
        seq![]
    } else {
        let earlier = shown_cells(p, n - 1);
        let c = shape(p.piece_type, p.rotation as int)[n - 1];
        let (cx, cy) = (p.x + c.0, p.y + c.1);
        if in_field(cx, cy) { earlier.push((cx, cy)) } else { earlier }
    }
}


/// The drawn cells are exactly the piece's cells `(x + dx, y + dy)` with a
/// column in `0..BOARD_WIDTH` and a row in `0..BOARD_HEIGHT`, the bottom row
/// included: among the first `n` cells of the shape, a cell is drawn if and
/// only if it lies there, and there are as many drawn cells as such cells.
pub proof fn lemma_shown_cells_exact(p: CurrentPiece, n: int)
    requires
        0 <= n <= 4,
    ensures
        forall|cx: int, cy: int| #[trigger] shown_cells(p, n).contains((cx, cy)) <==> {
            &&& 0 <= cx < BOARD_WIDTH
            &&& 0 <= cy < BOARD_HEIGHT
            &&& exists|i: int| 0 <= i < n && cx == p.x + (#[trigger] shape(p.piece_type, p.rotation as int)[i]).0
                && cy == p.y + shape(p.piece_type, p.rotation as int)[i].1
        },
        shown_cells(p, n).len() == cells_inside(shape(p.piece_type, p.rotation as int).take(n), p.x as int, p.y as int),
    decreases n,
{
    let s = shape(p.piece_type, p.rotation as int);
    crate::piece::lemma_shape_in_box(p.piece_type, p.rotation as int);
    if n == 0 {
        assert(s.take(0).len() == 0);
    } else {
        lemma_shown_cells_exact(p, n - 1);
        assert(s.take(n).drop_last() =~= s.take(n - 1));
        assert(s.take(n).last() == s[n - 1]);
        let prev = shown_cells(p, n - 1);
        let c = s[n - 1];
        assert forall|cx: int, cy: int| #[trigger] shown_cells(p, n).contains((cx, cy)) <==> {
            &&& 0 <= cx < BOARD_WIDTH
            &&& 0 <= cy < BOARD_HEIGHT
            &&& exists|i: int| 0 <= i < n && cx == p.x + (#[trigger] s[i]).0 && cy == p.y + s[i].1
        } by {
            if in_field(p.x + c.0, p.y + c.1) {
                assert(shown_cells(p, n) == prev.push((p.x + c.0, p.y + c.1)));
                if prev.contains((cx, cy)) {
                    let k = choose|k: int| 0 <= k < prev.len() && prev[k] == (cx, cy);
                    assert(shown_cells(p, n)[k] == (cx, cy));
                }
                if shown_cells(p, n).contains((cx, cy)) {
                    let k = choose|k: int| 0 <= k < shown_cells(p, n).len() && shown_cells(p, n)[k] == (cx, cy);
                    if k < prev.len() {
                        assert(prev[k] == (cx, cy));
                    }
                }
                if (exists|i: int| 0 <= i < n && cx == p.x + (#[trigger] s[i]).0 && cy == p.y + s[i].1) && 0 <= cx < BOARD_WIDTH && 0 <= cy < BOARD_HEIGHT {
                    let i = choose|i: int| 0 <= i < n && cx == p.x + (#[trigger] s[i]).0 && cy == p.y + s[i].1;
                    if i == n - 1 {
                        assert(shown_cells(p, n)[prev.len() as int] == (cx, cy));
                    }
                }
            } else {
                if (exists|i: int| 0 <= i < n && cx == p.x + (#[trigger] s[i]).0 && cy == p.y + s[i].1) && 0 <= cx < BOARD_WIDTH && 0 <= cy < BOARD_HEIGHT {
                    let i = choose|i: int| 0 <= i < n && cx == p.x + (#[trigger] s[i]).0 && cy == p.y + s[i].1;
                    assert(i != n - 1);
                }
            }
        }
    }
}


/// A piece wholly inside the field is drawn cell by cell in the order of
/// its shape: the drawn cells are `(x + dx, y + dy)` for each cell of the
/// shape in turn.
pub proof fn lemma_shown_cells_in_order(p: CurrentPiece, n: int)
    requires
        0 <= n <= 4,
        forall|i: int| 0 <= i < 4 ==> {
            let c = #[trigger] shape(p.piece_type, p.rotation as int)[i];
            &&& 0 <= p.x + c.0 < BOARD_WIDTH
            &&& 0 <= p.y + c.1 < BOARD_HEIGHT
        },
    ensures
        shown_cells(p, n) == Seq::new(n as nat, |i: int| (
            p.x + shape(p.piece_type, p.rotation as int)[i].0,
            p.y + shape(p.piece_type, p.rotation as int)[i].1,
        )),
    decreases n,
{
    if n > 0 {
        lemma_shown_cells_in_order(p, n - 1);
        let c = shape(p.piece_type, p.rotation as int)[n - 1];
        assert(0 <= p.x + c.0 < BOARD_WIDTH && 0 <= p.y + c.1 < BOARD_HEIGHT);
    }
    assert(shown_cells(p, n) =~= Seq::new(n as nat, |i: int| (
        p.x + shape(p.piece_type, p.rotation as int)[i].0,
        p.y + shape(p.piece_type, p.rotation as int)[i].1,
    )));
}

/// The cells of the falling piece that are drawn: those inside the field,
/// in the order of the piece's shape.
pub fn visible_cells(piece: &CurrentPiece) -> (cells: Vec<(i32, i32)>)
    ensures
        cells@.len() == shown_cells(*piece, 4).len(),
        forall|i: int| 0 <= i < cells@.len() ==> (#[trigger] cells@[i]).0 as int == shown_cells(*piece, 4)[i].0
            && cells@[i].1 as int == shown_cells(*piece, 4)[i].1,
{
    let offsets = piece.piece_type.coordinates(piece.rotation);
    let mut cells: Vec<(i32, i32)> = Vec::new();
    let mut i: usize = 0;
    while i < 4
        invariant
            i <= 4,
            offsets@ == shape(piece.piece_type, piece.rotation as int),
            cells@.len() == shown_cells(*piece, i as int).len(),
            forall|k: int| 0 <= k < cells@.len() ==> (#[trigger] cells@[k]).0 as int == shown_cells(*piece, i as int)[k].0
                && cells@[k].1 as int == shown_cells(*piece, i as int)[k].1,
        decreases 4 - i,
    {
        let (dx, dy) = offsets[i];
        let nx: i64 = piece.x as i64 + dx as i64;
        let ny: i64 = piece.y as i64 + dy as i64;
        if nx >= 0 && nx < BOARD_WIDTH as i64 && ny >= 0 && ny < BOARD_HEIGHT as i64 {
            cells.push((nx as i32, ny as i32));
        }
        i = i + 1;
    }
    cells
}

} // verus!
