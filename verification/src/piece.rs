use vstd::prelude::*;

verus! {

/// The seven tetromino kinds.
#[derive(Debug, Clone, Copy, PartialEq, Eq, Structural, Hash)]
pub enum PieceType {
    I,
    O,
    T,
    S,
    Z,
    J,
    L,
}

/// The four cells `(dx, dy)` that a piece of kind `p` covers in rotation
/// state `r`, relative to the piece's origin. `I`, `S` and `Z` have two
/// rotation states, `O` one, and `T`, `J`, `L` four.
pub open spec fn shape(p: PieceType, r: int) -> Seq<(i32, i32)> {
    match p {
        PieceType::I => if r % 2 == 0 {
            seq![(0i32, 1i32), (1, 1), (2, 1), (3, 1)]
        } else {
            seq![(2i32, 0i32), (2, 1), (2, 2), (2, 3)]
        },
        PieceType::O => seq![(1i32, 1i32), (2, 1), (1, 2), (2, 2)],
        PieceType::T => if r % 4 == 0 {
            seq![(1i32, 1i32), (0, 1), (2, 1), (1, 2)]
        } else if r % 4 == 1 {
            seq![(1i32, 1i32), (1, 0), (1, 2), (2, 1)]
        } else if r % 4 == 2 {
            seq![(1i32, 1i32), (0, 1), (2, 1), (1, 0)]
        } else {
            seq![(1i32, 1i32), (1, 0), (1, 2), (0, 1)]
        },
        PieceType::S => if r % 2 == 0 {
            seq![(1i32, 1i32), (2, 1), (0, 2), (1, 2)]
        } else {
            seq![(1i32, 1i32), (1, 2), (2, 2), (2, 3)]
        },
        PieceType::Z => if r % 2 == 0 {
            seq![(0i32, 1i32), (1, 1), (1, 2), (2, 2)]
        } else {
            seq![(2i32, 1i32), (2, 2), (1, 2), (1, 3)]
        },
        PieceType::J => if r % 4 == 0 {
            seq![(0i32, 1i32), (1, 1), (2, 1), (2, 2)]
        } else if r % 4 == 1 {
            seq![(1i32, 0i32), (1, 1), (1, 2), (0, 2)]
        } else if r % 4 == 2 {
            seq![(0i32, 0i32), (0, 1), (1, 1), (2, 1)]
        } else {
            seq![(1i32, 0i32), (2, 0), (1, 1), (1, 2)]
        },
        PieceType::L => if r % 4 == 0 {
            seq![(0i32, 1i32), (1, 1), (2, 1), (0, 2)]
        } else if r % 4 == 1 {
            seq![(0i32, 0i32), (1, 0), (1, 1), (1, 2)]
        } else if r % 4 == 2 {
            seq![(2i32, 0i32), (0, 1), (1, 1), (2, 1)]
        } else {
            seq![(1i32, 0i32), (1, 1), (1, 2), (2, 2)]
        },
    }
}

/// The seven kinds in their declaration order.
pub open spec fn all_kinds() -> Seq<PieceType> {
    seq![PieceType::I, PieceType::O, PieceType::T, PieceType::S, PieceType::Z, PieceType::J, PieceType::L]
}

impl PieceType {
    /// The cells this piece covers in the given rotation state.
    pub fn coordinates(&self, rotation: u8) -> (cells: [(i32, i32); 4])
        ensures
            cells@ == shape(*self, rotation as int),
    {
        match self {
            PieceType::I => match rotation % 2 {
                0 => [(0, 1), (1, 1), (2, 1), (3, 1)],
                _ => [(2, 0), (2, 1), (2, 2), (2, 3)],
            },
            PieceType::O => [(1, 1), (2, 1), (1, 2), (2, 2)],
            PieceType::T => match rotation % 4 {
                0 => [(1, 1), (0, 1), (2, 1), (1, 2)],
                1 => [(1, 1), (1, 0), (1, 2), (2, 1)],
                2 => [(1, 1), (0, 1), (2, 1), (1, 0)],
                _ => [(1, 1), (1, 0), (1, 2), (0, 1)],
            },
            PieceType::S => match rotation % 2 {
                0 => [(1, 1), (2, 1), (0, 2), (1, 2)],
                _ => [(1, 1), (1, 2), (2, 2), (2, 3)],
            },
            PieceType::Z => match rotation % 2 {
                0 => [(0, 1), (1, 1), (1, 2), (2, 2)],
                _ => [(2, 1), (2, 2), (1, 2), (1, 3)],
            },
            PieceType::J => match rotation % 4 {
                0 => [(0, 1), (1, 1), (2, 1), (2, 2)],
                1 => [(1, 0), (1, 1), (1, 2), (0, 2)],
                2 => [(0, 0), (0, 1), (1, 1), (2, 1)],
                _ => [(1, 0), (2, 0), (1, 1), (1, 2)],
            },
            PieceType::L => match rotation % 4 {
                0 => [(0, 1), (1, 1), (2, 1), (0, 2)],
                1 => [(0, 0), (1, 0), (1, 1), (1, 2)],
                2 => [(2, 0), (0, 1), (1, 1), (2, 1)],
                _ => [(1, 0), (1, 1), (1, 2), (2, 2)],
            },
        }
    }
}


impl PieceType {
    /// The seven kinds in their declaration order.
    pub fn all() -> (kinds: Vec<PieceType>)
        ensures
            kinds@ == all_kinds(),
    {
        let kinds = vec![PieceType::I, PieceType::O, PieceType::T, PieceType::S, PieceType::Z, PieceType::J, PieceType::L];
        assert(kinds@ =~= all_kinds());
        kinds
    }
}

/// Every piece covers exactly four cells, each inside the 4x4 box
/// `0..=3` by `0..=3` around its origin.
pub proof fn lemma_shape_in_box(p: PieceType, r: int)
    ensures
        shape(p, r).len() == 4,
        forall|i: int| 0 <= i < 4 ==> 0 <= (#[trigger] shape(p, r)[i]).0 <= 3 && 0 <= shape(p, r)[i].1 <= 3,
{
}

/// The four cells of a piece are pairwise distinct.
pub proof fn lemma_shape_distinct(p: PieceType, r: int)
    ensures
        forall|i: int, k: int| 0 <= i < 4 && 0 <= k < 4 && i != k ==> #[trigger] shape(p, r)[i] != #[trigger] shape(p, r)[k],
{
}

/// Four quarter turns bring every piece back to the cells it started with.
pub proof fn lemma_four_turns(p: PieceType, r: int)
    ensures
        shape(p, r + 4) == shape(p, r),
{
    assert((r + 4) % 4 == r % 4);
    assert((r + 4) % 2 == r % 2);
}

/// Each kind occurs exactly once among the seven kinds.
pub proof fn lemma_all_kinds_once(t: PieceType)
    ensures
        all_kinds().to_multiset().count(t) == 1,
{
    broadcast use vstd::seq_lib::group_to_multiset_ensures;
    let e = Seq::<PieceType>::empty();
    assert(all_kinds() =~= e.push(PieceType::I).push(PieceType::O).push(PieceType::T).push(PieceType::S).push(PieceType::Z).push(PieceType::J).push(PieceType::L));
    assert(e.to_multiset() =~= vstd::multiset::Multiset::empty()) by {
        e.to_multiset_ensures();
    }
}


/// The cell `c` turned `k` quarter turns counterclockwise about the origin.
pub open spec fn turn(c: (int, int), k: int) -> (int, int) {
    if k % 4 == 0 {
        c
    } else if k % 4 == 1 {
        (-c.1, c.0)
    } else if k % 4 == 2 {
        (-c.0, -c.1)
    } else {
        (c.1, -c.0)
    }
}

/// The cells `s` turned `k` quarter turns and then shifted by `(tx, ty)`.
pub open spec fn moved(s: Seq<(i32, i32)>, k: int, tx: int, ty: int) -> Seq<(int, int)> {
    Seq::new(s.len(), |i: int| {
        let c = turn((s[i].0 as int, s[i].1 as int), k);
        (c.0 + tx, c.1 + ty)
    })
}

/// The cells `s` as pairs of integers.
pub open spec fn int_cells(s: Seq<(i32, i32)>) -> Seq<(int, int)> {
    Seq::new(s.len(), |i: int| (s[i].0 as int, s[i].1 as int))
}

/// Two lists of cells cover the same set of cells.
pub open spec fn same_cells(a: Seq<(int, int)>, b: Seq<(int, int)>) -> bool {
    a.to_set() == b.to_set()
}

/// Whether `c` is one of the first four cells of `s`.
spec fn among4(s: Seq<(int, int)>, c: (int, int)) -> bool {
    c == s[0] || c == s[1] || c == s[2] || c == s[3]
}

proof fn lemma_same_cells_witness(a: Seq<(i32, i32)>, b: Seq<(i32, i32)>, k: int, tx: int, ty: int, fwd: Seq<int>, back: Seq<int>)
    requires
        0 <= k < 4,
        a.len() == 4,
        b.len() == 4,
        fwd.len() == 4,
        back.len() == 4,
        forall|i: int| 0 <= i < 4 ==> 0 <= #[trigger] fwd[i] < 4 && moved(a, k, tx, ty)[i] == int_cells(b)[fwd[i]],
        forall|j: int| 0 <= j < 4 ==> 0 <= #[trigger] back[j] < 4 && int_cells(b)[j] == moved(a, k, tx, ty)[back[j]],
    ensures
        exists|k: int, tx: int, ty: int| 0 <= k < 4 && #[trigger] same_cells(moved(a, k, tx, ty), int_cells(b)),
{
    let m = moved(a, k, tx, ty);
    let n = int_cells(b);
    assert forall|c: (int, int)| m.contains(c) <==> n.contains(c) by {
        if m.contains(c) {
            let i = choose|i: int| 0 <= i < m.len() && m[i] == c;
            assert(n[fwd[i]] == c);
        }
        if n.contains(c) {
            let j = choose|j: int| 0 <= j < n.len() && n[j] == c;
            assert(m[back[j]] == c);
        }
    }
    assert(m.to_set() =~= n.to_set());
    assert(same_cells(moved(a, k, tx, ty), int_cells(b)));
}

proof fn lemma_same_cells_among(a: Seq<(int, int)>, b: Seq<(int, int)>)
    requires
        a.len() == 4,
        b.len() == 4,
        same_cells(a, b),
    ensures
        among4(b, a[0]) && among4(b, a[1]) && among4(b, a[2]) && among4(b, a[3]),
        among4(a, b[0]) && among4(a, b[1]) && among4(a, b[2]) && among4(a, b[3]),
{
    assert forall|i: int| 0 <= i < 4 implies among4(b, #[trigger] a[i]) && among4(a, b[i]) by {
        assert(a.to_set().contains(a[i]));
        assert(b.to_set().contains(b[i]));
    }
}

/// Turning never mirrors or deforms a piece: the cells of every rotation
/// state are the cells of state 0 turned a number of quarter turns and
/// shifted.
pub proof fn lemma_turns_are_rotations(p: PieceType, r: int)
    ensures
        exists|k: int, tx: int, ty: int| 0 <= k < 4 && #[trigger] same_cells(moved(shape(p, 0), k, tx, ty), int_cells(shape(p, r))),
{
    match p {
        PieceType::I => {
            if r % 2 == 0 {
                lemma_same_cells_witness(shape(p, 0), shape(p, r), 0, 0, 0, seq![0, 1, 2, 3], seq![0, 1, 2, 3]);
            } else {
                lemma_same_cells_witness(shape(p, 0), shape(p, r), 1, 3, 0, seq![0, 1, 2, 3], seq![0, 1, 2, 3]);
            }
        },
        PieceType::O => {
            lemma_same_cells_witness(shape(p, 0), shape(p, r), 0, 0, 0, seq![0, 1, 2, 3], seq![0, 1, 2, 3]);
        },
        PieceType::T => {
            if r % 4 == 0 {
                lemma_same_cells_witness(shape(p, 0), shape(p, r), 0, 0, 0, seq![0, 1, 2, 3], seq![0, 1, 2, 3]);
            } else if r % 4 == 1 {
                lemma_same_cells_witness(shape(p, 0), shape(p, r), 3, 0, 2, seq![0, 2, 1, 3], seq![0, 2, 1, 3]);
            } else if r % 4 == 2 {
                lemma_same_cells_witness(shape(p, 0), shape(p, r), 2, 2, 2, seq![0, 2, 1, 3], seq![0, 2, 1, 3]);
            } else {
                lemma_same_cells_witness(shape(p, 0), shape(p, r), 1, 2, 0, seq![0, 1, 2, 3], seq![0, 1, 2, 3]);
            }
        },
        PieceType::S => {
            if r % 2 == 0 {
                lemma_same_cells_witness(shape(p, 0), shape(p, r), 0, 0, 0, seq![0, 1, 2, 3], seq![0, 1, 2, 3]);
            } else {
                lemma_same_cells_witness(shape(p, 0), shape(p, r), 1, 3, 1, seq![2, 3, 0, 1], seq![2, 3, 0, 1]);
            }
        },
        PieceType::Z => {
            if r % 2 == 0 {
                lemma_same_cells_witness(shape(p, 0), shape(p, r), 0, 0, 0, seq![0, 1, 2, 3], seq![0, 1, 2, 3]);
            } else {
                lemma_same_cells_witness(shape(p, 0), shape(p, r), 1, 3, 1, seq![0, 1, 2, 3], seq![0, 1, 2, 3]);
            }
        },
        PieceType::J => {
            if r % 4 == 0 {
                lemma_same_cells_witness(shape(p, 0), shape(p, r), 0, 0, 0, seq![0, 1, 2, 3], seq![0, 1, 2, 3]);
            } else if r % 4 == 1 {
                lemma_same_cells_witness(shape(p, 0), shape(p, r), 1, 2, 0, seq![0, 1, 2, 3], seq![0, 1, 2, 3]);
            } else if r % 4 == 2 {
                lemma_same_cells_witness(shape(p, 0), shape(p, r), 2, 2, 2, seq![3, 2, 1, 0], seq![3, 2, 1, 0]);
            } else {
                lemma_same_cells_witness(shape(p, 0), shape(p, r), 3, 0, 2, seq![3, 2, 0, 1], seq![2, 3, 1, 0]);
            }
        },
        PieceType::L => {
            if r % 4 == 0 {
                lemma_same_cells_witness(shape(p, 0), shape(p, r), 0, 0, 0, seq![0, 1, 2, 3], seq![0, 1, 2, 3]);
            } else if r % 4 == 1 {
                lemma_same_cells_witness(shape(p, 0), shape(p, r), 1, 2, 0, seq![1, 2, 3, 0], seq![3, 0, 1, 2]);
            } else if r % 4 == 2 {
                lemma_same_cells_witness(shape(p, 0), shape(p, r), 2, 2, 2, seq![3, 2, 1, 0], seq![3, 2, 1, 0]);
            } else {
                lemma_same_cells_witness(shape(p, 0), shape(p, r), 3, 0, 2, seq![2, 1, 0, 3], seq![2, 1, 0, 3]);
            }
        },
    }
}

proof fn lemma_distinct_from_i(q: PieceType, k: int, tx: int, ty: int)
    requires
        q != PieceType::I,
    ensures
        !same_cells(moved(shape(PieceType::I, 0), k, tx, ty), int_cells(shape(q, 0))),
{
    if same_cells(moved(shape(PieceType::I, 0), k, tx, ty), int_cells(shape(q, 0))) {
        lemma_same_cells_among(moved(shape(PieceType::I, 0), k, tx, ty), int_cells(shape(q, 0)));
    }
}

proof fn lemma_distinct_from_o(q: PieceType, k: int, tx: int, ty: int)
    requires
        q != PieceType::O,
    ensures
        !same_cells(moved(shape(PieceType::O, 0), k, tx, ty), int_cells(shape(q, 0))),
{
    if same_cells(moved(shape(PieceType::O, 0), k, tx, ty), int_cells(shape(q, 0))) {
        lemma_same_cells_among(moved(shape(PieceType::O, 0), k, tx, ty), int_cells(shape(q, 0)));
    }
}

proof fn lemma_distinct_from_t(q: PieceType, k: int, tx: int, ty: int)
    requires
        q != PieceType::T,
    ensures
        !same_cells(moved(shape(PieceType::T, 0), k, tx, ty), int_cells(shape(q, 0))),
{
    if same_cells(moved(shape(PieceType::T, 0), k, tx, ty), int_cells(shape(q, 0))) {
        lemma_same_cells_among(moved(shape(PieceType::T, 0), k, tx, ty), int_cells(shape(q, 0)));
    }
}

proof fn lemma_distinct_from_s(q: PieceType, k: int, tx: int, ty: int)
    requires
        q != PieceType::S,
    ensures
        !same_cells(moved(shape(PieceType::S, 0), k, tx, ty), int_cells(shape(q, 0))),
{
    if same_cells(moved(shape(PieceType::S, 0), k, tx, ty), int_cells(shape(q, 0))) {
        lemma_same_cells_among(moved(shape(PieceType::S, 0), k, tx, ty), int_cells(shape(q, 0)));
    }
}

proof fn lemma_distinct_from_z(q: PieceType, k: int, tx: int, ty: int)
    requires
        q != PieceType::Z,
    ensures
        !same_cells(moved(shape(PieceType::Z, 0), k, tx, ty), int_cells(shape(q, 0))),
{
    if same_cells(moved(shape(PieceType::Z, 0), k, tx, ty), int_cells(shape(q, 0))) {
        lemma_same_cells_among(moved(shape(PieceType::Z, 0), k, tx, ty), int_cells(shape(q, 0)));
    }
}

proof fn lemma_distinct_from_j(q: PieceType, k: int, tx: int, ty: int)
    requires
        q != PieceType::J,
    ensures
        !same_cells(moved(shape(PieceType::J, 0), k, tx, ty), int_cells(shape(q, 0))),
{
    if same_cells(moved(shape(PieceType::J, 0), k, tx, ty), int_cells(shape(q, 0))) {
        lemma_same_cells_among(moved(shape(PieceType::J, 0), k, tx, ty), int_cells(shape(q, 0)));
    }
}

proof fn lemma_distinct_from_l(q: PieceType, k: int, tx: int, ty: int)
    requires
        q != PieceType::L,
    ensures
        !same_cells(moved(shape(PieceType::L, 0), k, tx, ty), int_cells(shape(q, 0))),
{
    if same_cells(moved(shape(PieceType::L, 0), k, tx, ty), int_cells(shape(q, 0))) {
        lemma_same_cells_among(moved(shape(PieceType::L, 0), k, tx, ty), int_cells(shape(q, 0)));
    }
}

/// The seven kinds are the seven distinct one-sided tetrominoes: no kind's
/// cells in state 0, turned and shifted, are the cells of another kind.
pub proof fn lemma_kinds_distinct(p: PieceType, q: PieceType)
    requires
        p != q,
    ensures
        forall|k: int, tx: int, ty: int| !#[trigger] same_cells(moved(shape(p, 0), k, tx, ty), int_cells(shape(q, 0))),
{
    assert forall|k: int, tx: int, ty: int| !#[trigger] same_cells(moved(shape(p, 0), k, tx, ty), int_cells(shape(q, 0))) by {
        match p {
            PieceType::I => lemma_distinct_from_i(q, k, tx, ty),
            PieceType::O => lemma_distinct_from_o(q, k, tx, ty),
            PieceType::T => lemma_distinct_from_t(q, k, tx, ty),
            PieceType::S => lemma_distinct_from_s(q, k, tx, ty),
            PieceType::Z => lemma_distinct_from_z(q, k, tx, ty),
            PieceType::J => lemma_distinct_from_j(q, k, tx, ty),
            PieceType::L => lemma_distinct_from_l(q, k, tx, ty),
        }
    }
}


/// A T, J or L piece has four different shapes: no two of its four
/// rotation states cover the same set of cells.
pub proof fn lemma_turn_shapes_distinct(p: PieceType)
    requires
        p == PieceType::T || p == PieceType::J || p == PieceType::L,
    ensures
        forall|a: int, b: int| 0 <= a < 4 && 0 <= b < 4 && a != b ==> !#[trigger] same_cells(int_cells(shape(p, a)), int_cells(shape(p, b))),
{
    assert forall|a: int, b: int| 0 <= a < 4 && 0 <= b < 4 && a != b implies !#[trigger] same_cells(int_cells(shape(p, a)), int_cells(shape(p, b))) by {
        if same_cells(int_cells(shape(p, a)), int_cells(shape(p, b))) {
            lemma_same_cells_among(int_cells(shape(p, a)), int_cells(shape(p, b)));
        }
    }
}

} // verus!
