use vstd::prelude::*;

use crate::piece::{lemma_shape_in_box, shape, PieceType};

verus! {

/// Number of columns of the playing field.
pub const BOARD_WIDTH: usize = 10;

/// Number of rows of the playing field.
pub const BOARD_HEIGHT: usize = 20;

/// The settled blocks of the playing field. `grid[y][x]` is the cell in
/// column `x` of row `y`; row 0 is the bottom row.
pub struct Board {
    pub grid: [[Option<PieceType>; BOARD_WIDTH]; BOARD_HEIGHT],
}

impl View for Board {
    type V = Seq<Seq<Option<PieceType>>>;

    /// The rows of the field, bottom first, each a sequence of cells.
    open spec fn view(&self) -> Seq<Seq<Option<PieceType>>> {
        self.grid@.map_values(|row: [Option<PieceType>; BOARD_WIDTH]| row@)
    }
}

/// A field of `BOARD_HEIGHT` rows of `BOARD_WIDTH` cells each.
pub open spec fn well_shaped(g: Seq<Seq<Option<PieceType>>>) -> bool {
    &&& g.len() == BOARD_HEIGHT
    &&& forall|y: int| 0 <= y < g.len() ==> #[trigger] g[y].len() == BOARD_WIDTH
}

/// Whether the cell at column `x`, row `y` stops a piece: it lies left of,
/// right of or below the field, or inside the field and taken. Cells above
/// the top row are free.
pub open spec fn cell_blocked(g: Seq<Seq<Option<PieceType>>>, x: int, y: int) -> bool {
    ||| x < 0
    ||| x >= BOARD_WIDTH
    ||| y < 0
    ||| (y < BOARD_HEIGHT && g[y][x] is Some)
}

/// Whether a piece of kind `p` with origin `(x, y)` in rotation `r` meets a
/// wall, the floor or a settled block.
pub open spec fn collides(g: Seq<Seq<Option<PieceType>>>, p: PieceType, x: int, y: int, r: int) -> bool {
    exists|i: int| 0 <= i < 4 && #[trigger] cell_blocked(g, x + shape(p, r)[i].0, y + shape(p, r)[i].1)
}

/// Whether one of `cells`, placed with origin `(x, y)`, lands on `(cx, cy)`.
pub open spec fn covers(cells: Seq<(i32, i32)>, x: int, y: int, cx: int, cy: int) -> bool {
    exists|i: int| 0 <= i < cells.len() && x + (#[trigger] cells[i]).0 == cx && y + cells[i].1 == cy
}

/// The field `g` with every cell of `cells` (origin `(x, y)`) that lies
/// inside the field set to `Some(p)`.
pub open spec fn stamp(g: Seq<Seq<Option<PieceType>>>, p: PieceType, cells: Seq<(i32, i32)>, x: int, y: int) -> Seq<Seq<Option<PieceType>>> {
    Seq::new(g.len(), |cy: int| Seq::new(g[cy].len(), |cx: int|
        if covers(cells, x, y, cx, cy) { Some(p) } else { g[cy][cx] }))
}

/// The field after a piece of kind `p` at `(x, y)` in rotation `r` settles.
pub open spec fn locked(g: Seq<Seq<Option<PieceType>>>, p: PieceType, x: int, y: int, r: int) -> Seq<Seq<Option<PieceType>>> {
    stamp(g, p, shape(p, r), x, y)
}

/// A row with no empty cell.
pub open spec fn row_full(row: Seq<Option<PieceType>>) -> bool {
    forall|i: int| 0 <= i < row.len() ==> (#[trigger] row[i]) is Some
}

/// A row of `BOARD_WIDTH` empty cells.
pub open spec fn empty_row() -> Seq<Option<PieceType>> {
    Seq::new(BOARD_WIDTH as nat, |i: int| None)
}

/// The rows of `g` that are not full, in their order.
pub open spec fn kept_rows(g: Seq<Seq<Option<PieceType>>>) -> Seq<Seq<Option<PieceType>>> {
    g.filter(|row: Seq<Option<PieceType>>| !row_full(row))
}

/// The number of full rows of `g`.
pub open spec fn full_row_count(g: Seq<Seq<Option<PieceType>>>) -> nat {
    g.filter(|row: Seq<Option<PieceType>>| row_full(row)).len()
}

/// `n` empty rows.
pub open spec fn empty_rows(n: nat) -> Seq<Seq<Option<PieceType>>> {
    Seq::new(n, |i: int| empty_row())
}

/// The field after its full rows are removed: the other rows drop down in
/// their order and empty rows fill the top.
pub open spec fn cleared(g: Seq<Seq<Option<PieceType>>>) -> Seq<Seq<Option<PieceType>>> {
    kept_rows(g) + empty_rows(full_row_count(g))
}

/// Taking one more row into account adds it to the kept rows or to the
/// count of full rows.
pub proof fn lemma_rows_take_succ(g: Seq<Seq<Option<PieceType>>>, j: int)
    requires
        0 <= j < g.len(),
    ensures
        kept_rows(g.take(j + 1)) == (if row_full(g[j]) { kept_rows(g.take(j)) } else { kept_rows(g.take(j)).push(g[j]) }),
        full_row_count(g.take(j + 1)) as int == (if row_full(g[j]) { full_row_count(g.take(j)) + 1 } else { full_row_count(g.take(j)) }),
{
    reveal(Seq::filter);
    assert(g.take(j + 1).drop_last() =~= g.take(j));
    assert(g.take(j + 1).last() == g[j]);
}

/// Every row is either kept or counted as full.
pub proof fn lemma_rows_partition(g: Seq<Seq<Option<PieceType>>>)
    ensures
        kept_rows(g).len() + full_row_count(g) == g.len(),
    decreases g.len(),
{
    reveal(Seq::filter);
    if g.len() > 0 {
        lemma_rows_partition(g.drop_last());
    }
}


/// A piece in a free position lies within the side walls and above the
/// floor: its origin is in column -3..=9 and row -3 or higher.
pub proof fn lemma_free_position(g: Seq<Seq<Option<PieceType>>>, p: PieceType, x: int, y: int, r: int)
    requires
        !collides(g, p, x, y, r),
    ensures
        -3 <= x <= 9,
        -3 <= y,
{
    lemma_shape_in_box(p, r);
    assert(!cell_blocked(g, x + shape(p, r)[0].0, y + shape(p, r)[0].1));
}


/// The kept rows are rows that are not full, each as wide as the rows of
/// the field.
pub proof fn lemma_kept_rows_not_full(g: Seq<Seq<Option<PieceType>>>)
    requires
        forall|y: int| 0 <= y < g.len() ==> #[trigger] g[y].len() == BOARD_WIDTH,
    ensures
        forall|i: int| 0 <= i < kept_rows(g).len() ==> !row_full(#[trigger] kept_rows(g)[i]) && kept_rows(g)[i].len() == BOARD_WIDTH,
    decreases g.len(),
{
    reveal(Seq::filter);
    if g.len() > 0 {
        lemma_kept_rows_not_full(g.drop_last());
        let k0 = kept_rows(g.drop_last());
        assert(kept_rows(g) == (if row_full(g.last()) { k0 } else { k0.push(g.last()) }));
        assert forall|i: int| 0 <= i < kept_rows(g).len() implies !row_full(#[trigger] kept_rows(g)[i]) && kept_rows(g)[i].len() == BOARD_WIDTH by {
            if i < k0.len() {
                assert(kept_rows(g)[i] == k0[i]);
            }
        }
    }
}

/// A field without full rows keeps all its rows.
pub proof fn lemma_kept_rows_all(g: Seq<Seq<Option<PieceType>>>)
    requires
        forall|y: int| 0 <= y < g.len() ==> !row_full(#[trigger] g[y]),
    ensures
        kept_rows(g) == g,
        full_row_count(g) == 0,
    decreases g.len(),
{
    reveal(Seq::filter);
    if g.len() > 0 {
        lemma_kept_rows_all(g.drop_last());
        assert(g.drop_last().push(g.last()) =~= g);
    }
}

/// An empty row is not full.
pub proof fn lemma_empty_row_not_full()
    ensures
        !row_full(empty_row()),
{
    assert(empty_row()[0] is None);
}

/// Clearing keeps the size of the field, and leaves no full row.
pub proof fn lemma_cleared_shape(g: Seq<Seq<Option<PieceType>>>)
    requires
        well_shaped(g),
    ensures
        well_shaped(cleared(g)),
        forall|y: int| 0 <= y < cleared(g).len() ==> !row_full(#[trigger] cleared(g)[y]),
{
    lemma_rows_partition(g);
    lemma_kept_rows_not_full(g);
    lemma_empty_row_not_full();
    let c = cleared(g);
    let k = kept_rows(g);
    assert forall|y: int| 0 <= y < c.len() implies #[trigger] c[y].len() == BOARD_WIDTH && !row_full(c[y]) by {
        if y < k.len() {
            assert(c[y] == k[y]);
        } else {
            assert(c[y] == empty_row());
        }
    }
}

/// Clearing a cleared field changes nothing and removes no row.
pub proof fn lemma_clear_idempotent(g: Seq<Seq<Option<PieceType>>>)
    requires
        well_shaped(g),
    ensures
        cleared(cleared(g)) == cleared(g),
        full_row_count(cleared(g)) == 0,
{
    lemma_cleared_shape(g);
    lemma_kept_rows_all(cleared(g));
    assert(cleared(cleared(g)) =~= cleared(g));
}

/// Settling a piece keeps the size of the field.
pub proof fn lemma_locked_shape(g: Seq<Seq<Option<PieceType>>>, p: PieceType, x: int, y: int, r: int)
    requires
        well_shaped(g),
    ensures
        well_shaped(locked(g, p, x, y, r)),
{
}


/// How many of `ys` lie in `lo..hi`.
spec fn count_in(ys: Seq<int>, lo: int, hi: int) -> nat
    decreases ys.len(),
{
    if ys.len() == 0 {
        0
    } else {
        count_in(ys.drop_last(), lo, hi) + if lo <= ys.last() < hi { 1nat } else { 0nat }
    }
}

proof fn lemma_count_in_split(ys: Seq<int>, n: int)
    requires
        n >= 0,
    ensures
        count_in(ys, 0, n + 1) == count_in(ys, 0, n) + count_in(ys, n, n + 1),
        count_in(ys, 0, n) <= ys.len(),
    decreases ys.len(),
{
    if ys.len() > 0 {
        lemma_count_in_split(ys.drop_last(), n);
    }
}

proof fn lemma_count_in_hit(ys: Seq<int>, i: int)
    requires
        0 <= i < ys.len(),
    ensures
        count_in(ys, ys[i], ys[i] + 1) >= 1,
    decreases ys.len(),
{
    if i < ys.len() - 1 {
        lemma_count_in_hit(ys.drop_last(), i);
    }
}

/// The rows that a piece of kind `p` at `(x, y)` in rotation `r` reaches.
spec fn piece_rows(p: PieceType, y: int, r: int) -> Seq<int> {
    Seq::new(4, |i: int| y + shape(p, r)[i].1)
}

/// Among the first `n` rows of the settled field, the full ones are no
/// more than the rows the piece reaches there.
proof fn lemma_full_rows_reached(g: Seq<Seq<Option<PieceType>>>, p: PieceType, x: int, y: int, r: int, n: int)
    requires
        well_shaped(g),
        forall|row: int| 0 <= row < g.len() ==> !row_full(#[trigger] g[row]),
        0 <= n <= BOARD_HEIGHT,
    ensures
        full_row_count(locked(g, p, x, y, r).take(n)) <= count_in(piece_rows(p, y, r), 0, n),
    decreases n,
{
    let l = locked(g, p, x, y, r);
    let ys = piece_rows(p, y, r);
    lemma_shape_in_box(p, r);
    if n == 0 {
        assert(l.take(0) =~= Seq::<Seq<Option<PieceType>>>::empty());
        reveal(Seq::filter);
    } else {
        let m = n - 1;
        lemma_full_rows_reached(g, p, x, y, r, m);
        lemma_rows_take_succ(l, m);
        lemma_count_in_split(ys, m);
        if row_full(l[m]) {
            if !(exists|i: int| 0 <= i < 4 && ys[i] == m) {
                assert forall|cx: int| 0 <= cx < BOARD_WIDTH implies l[m][cx] == g[m][cx] by {
                    if covers(shape(p, r), x, y, cx, m) {
                        let i = choose|i: int| 0 <= i < shape(p, r).len() && x + (#[trigger] shape(p, r)[i]).0 == cx && y + shape(p, r)[i].1 == m;
                        assert(ys[i] == m);
                    }
                }
                assert(l[m] =~= g[m]);
                assert(false);
            }
            let i = choose|i: int| 0 <= i < 4 && ys[i] == m;
            lemma_count_in_hit(ys, i);
        }
    }
}

/// On a field without full rows, settling one piece completes at most
/// four rows: only rows that the piece reaches can become full.
pub proof fn lemma_lock_completes_at_most_four(g: Seq<Seq<Option<PieceType>>>, p: PieceType, x: int, y: int, r: int)
    requires
        well_shaped(g),
        forall|row: int| 0 <= row < g.len() ==> !row_full(#[trigger] g[row]),
    ensures
        full_row_count(locked(g, p, x, y, r)) <= 4,
{
    let l = locked(g, p, x, y, r);
    lemma_full_rows_reached(g, p, x, y, r, BOARD_HEIGHT as int);
    assert(l.take(BOARD_HEIGHT as int) =~= l);
    lemma_count_in_split(piece_rows(p, y, r), BOARD_HEIGHT as int);
}


/// The number of taken cells of a row.
pub open spec fn row_taken(row: Seq<Option<PieceType>>) -> nat
    decreases row.len(),
{
    if row.len() == 0 {
        0
    } else {
        row_taken(row.drop_last()) + if row.last() is Some { 1nat } else { 0nat }
    }
}

/// The number of taken cells of the field.
pub open spec fn taken_count(g: Seq<Seq<Option<PieceType>>>) -> nat
    decreases g.len(),
{
    if g.len() == 0 {
        0
    } else {
        taken_count(g.drop_last()) + row_taken(g.last())
    }
}

/// Whether column `x`, row `y` lies inside the field.
pub open spec fn inside(x: int, y: int) -> bool {
    0 <= x < BOARD_WIDTH && 0 <= y < BOARD_HEIGHT
}

/// How many of `cells`, placed with origin `(x, y)`, lie inside the field.
pub open spec fn cells_inside(cells: Seq<(i32, i32)>, x: int, y: int) -> nat
    decreases cells.len(),
{
    if cells.len() == 0 {
        0
    } else {
        cells_inside(cells.drop_last(), x, y) + if inside(x + cells.last().0, y + cells.last().1) { 1nat } else { 0nat }
    }
}

proof fn lemma_row_taken_set(row: Seq<Option<PieceType>>, i: int, v: PieceType)
    requires
        0 <= i < row.len(),
        row[i] is None,
    ensures
        row_taken(row.update(i, Some(v))) == row_taken(row) + 1,
    decreases row.len(),
{
    let u = row.update(i, Some(v));
    if i == row.len() - 1 {
        assert(u.drop_last() =~= row.drop_last());
    } else {
        assert(u.drop_last() =~= row.drop_last().update(i, Some(v)));
        lemma_row_taken_set(row.drop_last(), i, v);
    }
}

proof fn lemma_taken_count_set_row(g: Seq<Seq<Option<PieceType>>>, y: int, row: Seq<Option<PieceType>>)
    requires
        0 <= y < g.len(),
    ensures
        taken_count(g.update(y, row)) + row_taken(g[y]) == taken_count(g) + row_taken(row),
    decreases g.len(),
{
    let u = g.update(y, row);
    if y == g.len() - 1 {
        assert(u.drop_last() =~= g.drop_last());
    } else {
        assert(u.drop_last() =~= g.drop_last().update(y, row));
        lemma_taken_count_set_row(g.drop_last(), y, row);
    }
}

proof fn lemma_cells_inside_witness(cells: Seq<(i32, i32)>, x: int, y: int)
    requires
        cells_inside(cells, x, y) > 0,
    ensures
        exists|i: int| 0 <= i < cells.len() && inside(x + (#[trigger] cells[i]).0, y + cells[i].1),
    decreases cells.len(),
{
    let l = (cells.len() - 1) as int;
    if !inside(x + cells[l].0, y + cells[l].1) {
        lemma_cells_inside_witness(cells.drop_last(), x, y);
        let i = choose|i: int| 0 <= i < cells.drop_last().len() && inside(x + (#[trigger] cells.drop_last()[i]).0, y + cells.drop_last()[i].1);
        assert(cells[i] == cells.drop_last()[i]);
    }
}

/// Settling the first `i` cells of a free piece takes exactly those of them
/// that lie inside the field, each of which was empty.
proof fn lemma_stamp_count(g: Seq<Seq<Option<PieceType>>>, p: PieceType, x: int, y: int, r: int, i: int)
    requires
        well_shaped(g),
        !collides(g, p, x, y, r),
        0 <= i <= 4,
    ensures
        taken_count(stamp(g, p, shape(p, r).take(i), x, y)) == taken_count(g) + cells_inside(shape(p, r).take(i), x, y),
    decreases i,
{
    let cells = shape(p, r);
    lemma_shape_in_box(p, r);
    crate::piece::lemma_shape_distinct(p, r);
    if i == 0 {
        let s0 = stamp(g, p, cells.take(0), x, y);
        assert forall|cy: int| 0 <= cy < g.len() implies #[trigger] s0[cy] =~= g[cy] by {}
        assert(s0 =~= g);
    } else {
        let k = i - 1;
        lemma_stamp_count(g, p, x, y, r, k);
        let t0 = cells.take(k);
        let t1 = cells.take(i);
        assert(t1.drop_last() =~= t0);
        assert(t1.last() == cells[k]);
        let s0 = stamp(g, p, t0, x, y);
        let s1 = stamp(g, p, t1, x, y);
        let (cx, cy) = (x + cells[k].0, y + cells[k].1);
        assert forall|ay: int, ax: int| covers(t1, x, y, ax, ay) == (covers(t0, x, y, ax, ay) || (ax == cx && ay == cy)) by {
            if covers(t1, x, y, ax, ay) {
                let j = choose|j: int| 0 <= j < t1.len() && x + (#[trigger] t1[j]).0 == ax && y + t1[j].1 == ay;
                if j < k {
                    assert(t0[j] == t1[j]);
                }
            }
            if covers(t0, x, y, ax, ay) {
                let j = choose|j: int| 0 <= j < t0.len() && x + (#[trigger] t0[j]).0 == ax && y + t0[j].1 == ay;
                assert(t1[j] == t0[j]);
            }
        }
        if inside(cx, cy) {
            assert(!cell_blocked(g, x + shape(p, r)[k].0, y + shape(p, r)[k].1));
            assert(!covers(t0, x, y, cx, cy)) by {
                if covers(t0, x, y, cx, cy) {
                    let j = choose|j: int| 0 <= j < t0.len() && x + (#[trigger] t0[j]).0 == cx && y + t0[j].1 == cy;
                    assert(cells[j] == t0[j]);
                    assert(cells[j] == cells[k]);
                }
            }
            assert(s0[cy][cx] is None);
            let target = s0.update(cy, s0[cy].update(cx, Some(p)));
            assert forall|ay: int| 0 <= ay < g.len() implies #[trigger] s1[ay] =~= target[ay] by {}
            assert(s1 =~= target);
            lemma_row_taken_set(s0[cy], cx, p);
            lemma_taken_count_set_row(s0, cy, s0[cy].update(cx, Some(p)));
        } else {
            assert forall|ay: int| 0 <= ay < g.len() implies #[trigger] s1[ay] =~= s0[ay] by {}
            assert(s1 =~= s0);
        }
    }
}

/// Settling a free piece takes exactly its cells inside the field, none of
/// which was taken before: the number of taken cells grows by the number of
/// those cells. When at least one lies inside the field, the piece's own
/// position is blocked afterwards.
pub proof fn lemma_lock_free_piece(g: Seq<Seq<Option<PieceType>>>, p: PieceType, x: int, y: int, r: int)
    requires
        well_shaped(g),
        !collides(g, p, x, y, r),
    ensures
        taken_count(locked(g, p, x, y, r)) == taken_count(g) + cells_inside(shape(p, r), x, y),
        cells_inside(shape(p, r), x, y) > 0 ==> collides(locked(g, p, x, y, r), p, x, y, r),
{
    lemma_shape_in_box(p, r);
    lemma_stamp_count(g, p, x, y, r, 4);
    assert(shape(p, r).take(4) =~= shape(p, r));
    if cells_inside(shape(p, r), x, y) > 0 {
        lemma_cells_inside_witness(shape(p, r), x, y);
        let i = choose|i: int| 0 <= i < shape(p, r).len() && inside(x + (#[trigger] shape(p, r)[i]).0, y + shape(p, r)[i].1);
        let l = locked(g, p, x, y, r);
        assert(covers(shape(p, r), x, y, x + shape(p, r)[i].0, y + shape(p, r)[i].1));
        assert(cell_blocked(l, x + shape(p, r)[i].0, y + shape(p, r)[i].1));
    }
}


/// On an empty field a piece is blocked only by the walls and the floor:
/// it collides exactly when one of its cells lies left of column 0, right
/// of the last column or below row 0; cells above the top never block.
pub proof fn lemma_empty_field_collision(p: PieceType, x: int, y: int, r: int)
    ensures
        collides(empty_rows(BOARD_HEIGHT as nat), p, x, y, r) <==> exists|i: int| 0 <= i < 4 && {
            let (cx, cy) = (x + (#[trigger] shape(p, r)[i]).0, y + shape(p, r)[i].1);
            cx < 0 || cx >= 10 || cy < 0
        },
{
    let e = empty_rows(BOARD_HEIGHT as nat);
    if collides(e, p, x, y, r) {
        let i = choose|i: int| 0 <= i < 4 && #[trigger] cell_blocked(e, x + shape(p, r)[i].0, y + shape(p, r)[i].1);
        let (cx, cy) = (x + shape(p, r)[i].0, y + shape(p, r)[i].1);
        if 0 <= cx < 10 && 0 <= cy < 20 {
            assert(e[cy][cx] is None);
        }
    }
    if exists|i: int| 0 <= i < 4 && {
        let (cx, cy) = (x + (#[trigger] shape(p, r)[i]).0, y + shape(p, r)[i].1);
        cx < 0 || cx >= 10 || cy < 0
    } {
        let i = choose|i: int| 0 <= i < 4 && {
            let (cx, cy) = (x + (#[trigger] shape(p, r)[i]).0, y + shape(p, r)[i].1);
            cx < 0 || cx >= 10 || cy < 0
        };
        assert(cell_blocked(e, x + shape(p, r)[i].0, y + shape(p, r)[i].1));
    }
}


proof fn lemma_row_taken_full(row: Seq<Option<PieceType>>)
    requires
        row_full(row),
    ensures
        row_taken(row) == row.len(),
    decreases row.len(),
{
    if row.len() > 0 {
        assert(row.last() == row[row.len() - 1]);
        assert forall|i: int| 0 <= i < row.drop_last().len() implies (#[trigger] row.drop_last()[i]) is Some by {
            assert(row.drop_last()[i] == row[i]);
        }
        lemma_row_taken_full(row.drop_last());
    }
}

proof fn lemma_taken_count_append(a: Seq<Seq<Option<PieceType>>>, b: Seq<Seq<Option<PieceType>>>)
    ensures
        taken_count(a + b) == taken_count(a) + taken_count(b),
    decreases b.len(),
{
    if b.len() == 0 {
        assert(a + b =~= a);
    } else {
        lemma_taken_count_append(a, b.drop_last());
        assert((a + b).drop_last() =~= a + b.drop_last());
        assert((a + b).last() == b.last());
    }
}

proof fn lemma_taken_count_empty_rows(n: nat)
    ensures
        taken_count(empty_rows(n)) == 0,
    decreases n,
{
    if n > 0 {
        lemma_taken_count_empty_rows((n - 1) as nat);
        assert(empty_rows(n).drop_last() =~= empty_rows((n - 1) as nat));
        let row = empty_row();
        assert(row_taken(row) == 0) by {
            lemma_row_taken_empty(BOARD_WIDTH as nat);
        }
    }
}

proof fn lemma_row_taken_empty(n: nat)
    ensures
        row_taken(Seq::new(n, |i: int| None::<PieceType>)) == 0,
    decreases n,
{
    if n > 0 {
        lemma_row_taken_empty((n - 1) as nat);
        assert(Seq::new(n, |i: int| None::<PieceType>).drop_last() =~= Seq::new((n - 1) as nat, |i: int| None::<PieceType>));
    }
}

proof fn lemma_taken_count_kept(g: Seq<Seq<Option<PieceType>>>)
    requires
        forall|y: int| 0 <= y < g.len() ==> #[trigger] g[y].len() == BOARD_WIDTH,
    ensures
        taken_count(g) == taken_count(kept_rows(g)) + BOARD_WIDTH * full_row_count(g),
    decreases g.len(),
{
    if g.len() > 0 {
        let d = g.drop_last();
        lemma_taken_count_kept(d);
        lemma_rows_take_succ(g, g.len() - 1);
        assert(g.take(g.len() - 1) =~= d);
        assert(g.take(g.len() as int) =~= g);
        assert(g.last() == g[g.len() - 1]);
        if row_full(g.last()) {
            lemma_row_taken_full(g.last());
        } else {
            assert(kept_rows(d).push(g.last()).drop_last() =~= kept_rows(d));
        }
    }
}

/// Clearing removes exactly the taken cells of the full rows and moves the
/// rest: the cleared field has `BOARD_WIDTH` taken cells fewer for each
/// full row. The rows that stay keep their order at the bottom, and the
/// empty rows are on top.
pub proof fn lemma_clear_moves_blocks(g: Seq<Seq<Option<PieceType>>>)
    requires
        well_shaped(g),
    ensures
        taken_count(cleared(g)) + BOARD_WIDTH * full_row_count(g) == taken_count(g),
        forall|y: int| 0 <= y < kept_rows(g).len() ==> #[trigger] cleared(g)[y] == kept_rows(g)[y],
        forall|y: int| kept_rows(g).len() <= y < BOARD_HEIGHT ==> #[trigger] cleared(g)[y] == empty_row(),
{
    lemma_rows_partition(g);
    lemma_taken_count_kept(g);
    lemma_taken_count_append(kept_rows(g), empty_rows(full_row_count(g)));
    lemma_taken_count_empty_rows(full_row_count(g));
}

impl Board {
    /// Whether every cell of `p` at `(x, y)` in rotation `rotation` that the
    /// computation reaches is free; computed on wide integers so that no
    /// position overflows.
    pub(crate) fn collides_wide(&self, p: PieceType, x: i64, y: i64, rotation: u8) -> (r: bool)
        requires
            -0x1_0000_0000 <= x <= 0x1_0000_0000,
            -0x1_0000_0000 <= y <= 0x1_0000_0000,
        ensures
            r == collides(self@, p, x as int, y as int, rotation as int),
    {
        let cells = p.coordinates(rotation);
        let mut i: usize = 0;
        while i < 4
            invariant
                i <= 4,
                cells@ == shape(p, rotation as int),
                -0x1_0000_0000 <= x <= 0x1_0000_0000,
                -0x1_0000_0000 <= y <= 0x1_0000_0000,
                forall|k: int| 0 <= k < i ==> !cell_blocked(self@, x + shape(p, rotation as int)[k].0, y + shape(p, rotation as int)[k].1),
            decreases 4 - i,
        {
            let (dx, dy) = cells[i];
            let nx: i64 = x + dx as i64;
            let ny: i64 = y + dy as i64;
            if nx < 0 || nx >= BOARD_WIDTH as i64 || ny < 0 {
                assert(cell_blocked(self@, x + shape(p, rotation as int)[i as int].0, y + shape(p, rotation as int)[i as int].1));
                return true;
            }
            if ny < BOARD_HEIGHT as i64 {
                if self.grid[ny as usize][nx as usize].is_some() {
                    assert(cell_blocked(self@, x + shape(p, rotation as int)[i as int].0, y + shape(p, rotation as int)[i as int].1));
                    return true;
                }
            }
            i = i + 1;
        }
        false
    }

    /// Whether a piece of kind `piece_type` with origin `(x, y)` in rotation
    /// `rotation` would overlap a wall, the floor or a settled block.
    pub fn is_colliding(&self, piece_type: PieceType, x: i32, y: i32, rotation: u8) -> (r: bool)
        ensures
            r == collides(self@, piece_type, x as int, y as int, rotation as int),
    {
        self.collides_wide(piece_type, x as i64, y as i64, rotation)
    }

    /// Settles a piece of kind `piece_type` with origin `(x, y)` in rotation
    /// `rotation`: each of its cells that lies inside the field becomes
    /// taken by `piece_type`; the other cells are unchanged.
    pub fn lock_piece(&mut self, piece_type: PieceType, x: i32, y: i32, rotation: u8)
        ensures
            final(self)@ == locked(old(self)@, piece_type, x as int, y as int, rotation as int),
    {
        let ghost g0 = self@;
        let ghost cells_spec = shape(piece_type, rotation as int);
        let cells = piece_type.coordinates(rotation);
        proof {
            let t = stamp(g0, piece_type, cells_spec.take(0), x as int, y as int);
            assert forall|cy: int| 0 <= cy < BOARD_HEIGHT implies #[trigger] self@[cy] =~= t[cy] by {}
            assert(self@ =~= t);
        }
        let mut i: usize = 0;
        while i < 4
            invariant
                i <= 4,
                cells@ == cells_spec,
                cells_spec == shape(piece_type, rotation as int),
                g0.len() == BOARD_HEIGHT,
                forall|r: int| 0 <= r < BOARD_HEIGHT ==> #[trigger] g0[r].len() == BOARD_WIDTH,
                self@ =~= stamp(g0, piece_type, cells_spec.take(i as int), x as int, y as int),
            decreases 4 - i,
        {
            let (dx, dy) = cells[i];
            let nx: i64 = x as i64 + dx as i64;
            let ny: i64 = y as i64 + dy as i64;
            let ghost before = self@;
            if nx >= 0 && nx < BOARD_WIDTH as i64 && ny >= 0 && ny < BOARD_HEIGHT as i64 {
                let mut row = self.grid[ny as usize];
                row[nx as usize] = Some(piece_type);
                self.grid[ny as usize] = row;
            }
            proof {
                let t1 = cells_spec.take(i as int + 1);
                let t0 = cells_spec.take(i as int);
                assert forall|cy: int, cx: int| 0 <= cy < BOARD_HEIGHT && 0 <= cx < BOARD_WIDTH implies
                    covers(t1, x as int, y as int, cx, cy) == (covers(t0, x as int, y as int, cx, cy) || (cx == nx && cy == ny)) by {
                    if covers(t1, x as int, y as int, cx, cy) {
                        let k = choose|k: int| 0 <= k < t1.len() && x + (#[trigger] t1[k]).0 == cx && y + t1[k].1 == cy;
                        if k < i {
                            assert(t0[k] == t1[k]);
                        }
                    }
                    if covers(t0, x as int, y as int, cx, cy) {
                        let k = choose|k: int| 0 <= k < t0.len() && x + (#[trigger] t0[k]).0 == cx && y + t0[k].1 == cy;
                        assert(t1[k] == t0[k]);
                    }
                    if cx == nx && cy == ny {
                        assert(t1[i as int] == cells_spec[i as int]);
                    }
                }
                let target = stamp(g0, piece_type, t1, x as int, y as int);
                assert forall|cy: int| 0 <= cy < BOARD_HEIGHT implies #[trigger] self@[cy] =~= target[cy] by {
                    assert forall|cx: int| 0 <= cx < BOARD_WIDTH implies self@[cy][cx] == target[cy][cx] by {
                        assert(before[cy][cx] == stamp(g0, piece_type, t0, x as int, y as int)[cy][cx]);
                    }
                }
                assert(self@ =~= target);
            }
            i = i + 1;
        }
        assert(cells_spec.take(4) =~= cells_spec);
    }

    /// Removes every full row. The rows above a removed row drop down by one
    /// row each, in their order, and empty rows fill the top. Returns the
    /// number of rows removed.
    pub fn clear_lines(&mut self) -> (lines: u32)
        ensures
            final(self)@ == cleared(old(self)@),
            lines == full_row_count(old(self)@),
    {
        let ghost g0 = self@;
        let mut lines_cleared: u32 = 0;
        let mut y: usize = 0;
        let ghost mut j: int = 0;
        proof {
            assert(g0.take(0) =~= Seq::<Seq<Option<PieceType>>>::empty());
            reveal(Seq::filter);
            assert(kept_rows(g0.take(0)) =~= Seq::<Seq<Option<PieceType>>>::empty());
            assert(g0.skip(0) =~= g0);
            assert(self@ =~= kept_rows(g0.take(0)) + g0.skip(0) + empty_rows(0));
        }
        while y < BOARD_HEIGHT
            invariant
                0 <= j <= BOARD_HEIGHT,
                y <= BOARD_HEIGHT,
                g0.len() == BOARD_HEIGHT,
                forall|r: int| 0 <= r < BOARD_HEIGHT ==> #[trigger] g0[r].len() == BOARD_WIDTH,
                lines_cleared == full_row_count(g0.take(j)),
                kept_rows(g0.take(j)).len() + lines_cleared == j,
                self@ == kept_rows(g0.take(j)) + g0.skip(j) + empty_rows(lines_cleared as nat),
                j < BOARD_HEIGHT ==> y == kept_rows(g0.take(j)).len(),
                j == BOARD_HEIGHT ==> kept_rows(g0.take(j)).len() <= y,
            decreases 2 * BOARD_HEIGHT - y - lines_cleared,
        {
            let ghost before = self@;
            let mut full = true;
            let mut x: usize = 0;
            while full && x < BOARD_WIDTH
                invariant
                    x <= BOARD_WIDTH,
                    y < BOARD_HEIGHT,
                    self@ == before,
                    forall|k: int| 0 <= k < x ==> (#[trigger] before[y as int][k]) is Some,
                    !full ==> x < BOARD_WIDTH && before[y as int][x as int] is None,
                decreases BOARD_WIDTH - x + (if full { 1int } else { 0int }),
            {
                if self.grid[y][x].is_none() {
                    full = false;
                } else {
                    x = x + 1;
                }
            }
            proof {
                assert(before[y as int].len() == BOARD_WIDTH);
                if !full {
                    assert(!row_full(before[y as int]));
                }
                if j < BOARD_HEIGHT {
                    assert(before[y as int] == g0[j]);
                    lemma_rows_take_succ(g0, j);
                } else {
                    assert(before[y as int] == empty_row());
                    assert(!row_full(empty_row())) by {
                        assert(empty_row()[0] is None);
                    }
                }
            }
            if full {
                lines_cleared = lines_cleared + 1;
                let mut move_y: usize = y;
                while move_y < BOARD_HEIGHT - 1
                    invariant
                        y <= move_y <= BOARD_HEIGHT - 1,
                        before.len() == BOARD_HEIGHT,
                        forall|r: int| 0 <= r < y ==> #[trigger] self@[r] == before[r],
                        forall|r: int| y <= r < move_y ==> #[trigger] self@[r] == before[r + 1],
                        forall|r: int| move_y <= r < BOARD_HEIGHT ==> #[trigger] self@[r] == before[r],
                        self@.len() == BOARD_HEIGHT,
                    decreases BOARD_HEIGHT - move_y,
                {
                    let ghost prev = self@;
                    let next_row = self.grid[move_y + 1];
                    self.grid[move_y] = next_row;
                    proof {
                        assert forall|r: int| 0 <= r < BOARD_HEIGHT implies #[trigger] self@[r] == (if r == move_y { prev[move_y + 1] } else { prev[r] }) by {
                            assert(self@[r] == self.grid@[r]@);
                        }
                    }
                    move_y = move_y + 1;
                }
                let ghost shifted = self@;
                self.grid[BOARD_HEIGHT - 1] = [None; BOARD_WIDTH];
                proof {
                    assert forall|r: int| 0 <= r < BOARD_HEIGHT - 1 implies #[trigger] self@[r] == shifted[r] by {
                        assert(self@[r] == self.grid@[r]@);
                    }
                    assert forall|r: int| 0 <= r < BOARD_HEIGHT - 1 implies #[trigger] self@[r] == before.remove(y as int)[r] by {
                        if r >= y {
                            assert(shifted[r] == before[r + 1]);
                        }
                    }
                    let k0 = kept_rows(g0.take(j));
                    assert(self@[BOARD_HEIGHT - 1] =~= empty_row());
                    assert(self@ =~= before.remove(y as int).push(empty_row()));
                    assert(g0.skip(j) =~= seq![g0[j]] + g0.skip(j + 1));
                    assert(self@ =~= k0 + g0.skip(j + 1) + empty_rows(lines_cleared as nat));
                    j = j + 1;
                }
            } else {
                proof {
                    if j < BOARD_HEIGHT {
                        let k0 = kept_rows(g0.take(j));
                        assert(g0.skip(j) =~= seq![g0[j]] + g0.skip(j + 1));
                        assert(self@ =~= k0.push(g0[j]) + g0.skip(j + 1) + empty_rows(lines_cleared as nat));
                        j = j + 1;
                    }
                }
                y = y + 1;
            }
        }
        proof {
            assert(g0.take(BOARD_HEIGHT as int) =~= g0);
            assert(g0.skip(BOARD_HEIGHT as int) =~= Seq::<Seq<Option<PieceType>>>::empty());
            assert(self@ =~= cleared(g0));
        }
        lines_cleared
    }
}


impl Default for Board {
    /// An empty field.
    fn default() -> (b: Board)
        ensures
            b@ == empty_rows(BOARD_HEIGHT as nat),
    {
        let b = Board { grid: [[None; BOARD_WIDTH]; BOARD_HEIGHT] };
        assert forall|r: int| 0 <= r < BOARD_HEIGHT implies #[trigger] b@[r] =~= empty_rows(BOARD_HEIGHT as nat)[r] by {}
        assert(b@ =~= empty_rows(BOARD_HEIGHT as nat));
        b
    }
}

} // verus!
