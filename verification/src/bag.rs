use vstd::prelude::*;

use rand::seq::SliceRandom;

use crate::board::{collides, Board, BOARD_HEIGHT, BOARD_WIDTH};
use crate::game::{free, CurrentPiece};
use crate::piece::{all_kinds, lemma_all_kinds_once, PieceType};

verus! {

/// `rand::rngs::ThreadRng`, carried through unopened.
#[verifier::external_type_specification]
#[verifier::external_body]
pub struct ExThreadRng(rand::rngs::ThreadRng);

/// `rand::thread_rng`: a handle to the thread's random number generator.
/// Nothing is promised of the handle.
#[verifier::external_body]
fn thread_rng() -> (rng: rand::rngs::ThreadRng) {
    rand::thread_rng()
}

/// `SliceRandom::shuffle` on the pieces: it only swaps elements, so the
/// pieces come out in some order as the same multiset. Which order is left
/// to chance.
#[verifier::external_body]
fn shuffle_pieces(pieces: &mut Vec<PieceType>, rng: &mut rand::rngs::ThreadRng)
    ensures
        final(pieces)@.len() == old(pieces)@.len(),
        final(pieces)@.to_multiset() == old(pieces)@.to_multiset(),
{
    pieces.shuffle(rng);
}

/// The pieces still to be dealt; the next piece is the last one.
pub struct PieceBag {
    pub pieces: Vec<PieceType>,
}

impl Default for PieceBag {
    /// An empty bag.
    fn default() -> (bag: PieceBag)
        ensures
            bag.pieces@ == Seq::<PieceType>::empty(),
    {
        PieceBag { pieces: Vec::new() }
    }
}

/// Column of the origin of a newly dealt piece.
pub open spec fn spawn_x() -> int {
    BOARD_WIDTH as int / 2 - 2
}

/// Row of the origin of a newly dealt piece.
pub open spec fn spawn_y() -> int {
    BOARD_HEIGHT as int - 4
}

/// What dealing a piece gives.
#[derive(Debug, Clone, Copy, PartialEq, Eq, Structural)]
pub enum SpawnOutcome {
    /// No piece was dealt.
    NoSpawn,
    /// A new falling piece.
    Spawned(CurrentPiece),
    /// The new piece has no room: the game is over.
    GameOver,
}

/// The outcome of dealing a piece of kind `t` onto field `g`: it appears
/// at the spawn position in rotation 0, unless it collides there.
pub open spec fn spawn_outcome(g: Seq<Seq<Option<PieceType>>>, t: PieceType) -> SpawnOutcome {
    if collides(g, t, spawn_x(), spawn_y(), 0) {
        SpawnOutcome::GameOver
    } else {
        SpawnOutcome::Spawned(CurrentPiece { piece_type: t, x: spawn_x() as i32, y: spawn_y() as i32, rotation: 0 })
    }
}


/// A newly dealt piece starts in a free position, in rotation 0.
pub proof fn lemma_spawned_piece_free(g: Seq<Seq<Option<PieceType>>>, t: PieceType)
    ensures
        spawn_outcome(g, t) matches SpawnOutcome::Spawned(p) ==> free(g, p) && p.rotation == 0 && p.piece_type == t,
{
}


/// Dealing ends the game exactly when the piece has no room at the spawn
/// position, column 3 and row 16 in rotation 0; otherwise the piece appears
/// there.
pub proof fn lemma_spawn_game_over(g: Seq<Seq<Option<PieceType>>>, t: PieceType)
    ensures
        (spawn_outcome(g, t) == SpawnOutcome::GameOver) == collides(g, t, 3, 16, 0),
        !collides(g, t, 3, 16, 0) ==> spawn_outcome(g, t) == SpawnOutcome::Spawned(CurrentPiece { piece_type: t, x: 3, y: 16, rotation: 0 }),
{
}

/// Refills an empty bag with one piece of each kind, in random order. A
/// bag that still holds pieces is left as it is.
pub fn refill_bag(bag: &mut PieceBag)
    ensures
        old(bag).pieces@.len() > 0 ==> final(bag).pieces@ == old(bag).pieces@,
        old(bag).pieces@.len() == 0 ==> final(bag).pieces@.len() == 7,
        old(bag).pieces@.len() == 0 ==> final(bag).pieces@.to_multiset() == all_kinds().to_multiset(),
        old(bag).pieces@.len() == 0 ==> forall|t: PieceType| #[trigger] final(bag).pieces@.to_multiset().count(t) == 1,
{
    if bag.pieces.len() == 0 {
        let mut new_bag = PieceType::all();
        let mut rng = thread_rng();
        shuffle_pieces(&mut new_bag, &mut rng);
        bag.pieces = new_bag;
        proof {
            assert forall|t: PieceType| #[trigger] bag.pieces@.to_multiset().count(t) == 1 by {
                lemma_all_kinds_once(t);
            }
        }
    }
}

/// Deals the last piece of the bag: it is taken out of the bag and placed
/// at the spawn position, or the game is over when it has no room there.
/// An empty bag deals nothing.
pub fn spawn_from_bag(bag: &mut PieceBag, board: &Board) -> (outcome: SpawnOutcome)
    ensures
        old(bag).pieces@.len() == 0 ==> outcome == SpawnOutcome::NoSpawn && final(bag).pieces@ == old(bag).pieces@,
        old(bag).pieces@.len() > 0 ==> outcome == spawn_outcome(board@, old(bag).pieces@.last())
            && final(bag).pieces@ == old(bag).pieces@.drop_last(),
{
    match bag.pieces.pop() {
        Some(piece_type) => {
            let x: i32 = BOARD_WIDTH as i32 / 2 - 2;
            let y: i32 = BOARD_HEIGHT as i32 - 4;
            let rotation: u8 = 0;
            if board.is_colliding(piece_type, x, y, rotation) {
                SpawnOutcome::GameOver
            } else {
                SpawnOutcome::Spawned(CurrentPiece { piece_type, x, y, rotation })
            }
        },
        None => SpawnOutcome::NoSpawn,
    }
}


/// A refill the bag may receive: one piece of each kind, in any order.
pub open spec fn valid_refill(refill: Seq<PieceType>) -> bool {
    refill.len() == 7 && refill.to_multiset() == all_kinds().to_multiset()
}

/// Dealing one piece from `bag`: an empty bag is first replaced by
/// `refill`; then its last piece is taken. Gives the bag left and the piece.
pub open spec fn deal_step(bag: Seq<PieceType>, refill: Seq<PieceType>) -> (Seq<PieceType>, PieceType) {
    let filled = if bag.len() == 0 { refill } else { bag };
    (filled.drop_last(), filled.last())
}

/// The bag and the pieces dealt, in order, after the first `n` deals from
/// an empty bag, where deal `i` refills an empty bag with `refills[i]`.
pub open spec fn deal_run(refills: Seq<Seq<PieceType>>, n: nat) -> (Seq<PieceType>, Seq<PieceType>)
    decreases n,
{
    if n == 0 {
        (Seq::empty(), Seq::empty())
    } else {
        let (b, d) = deal_run(refills, (n - 1) as nat);
        let (b2, t) = deal_step(b, refills[n - 1]);
        (b2, d.push(t))
    }
}

proof fn lemma_deal_run_inv(refills: Seq<Seq<PieceType>>, n: nat)
    requires
        n <= refills.len(),
        forall|j: int| 0 <= j < refills.len() ==> valid_refill(#[trigger] refills[j]),
    ensures
        deal_run(refills, n).1.len() == n,
        n % 7 == 0 ==> deal_run(refills, n).0.len() == 0,
        n % 7 != 0 ==> deal_run(refills, n).0 + deal_run(refills, n).1.subrange(n - n % 7, n as int).reverse()
            == refills[n - n % 7],
        forall|g: int| 0 <= g && 7 * g + 7 <= n ==> #[trigger] deal_run(refills, n).1.subrange(7 * g, 7 * g + 7).reverse()
            == refills[7 * g],
    decreases n,
{
    if n > 0 {
        let i = (n - 1) as nat;
        lemma_deal_run_inv(refills, i);
        let (b, d) = deal_run(refills, i);
        let (b2, d2) = deal_run(refills, n);
        let r = i % 7;
        let m = i - r;
        let filled = if b.len() == 0 { refills[i as int] } else { b };
        let t = filled.last();
        assert(d2 == d.push(t));
        assert(b2 == filled.drop_last());
        if r == 0 {
            assert(n % 7 == 1);
            assert(filled == refills[i as int]);
            assert(d2.subrange(i as int, n as int).reverse() =~= seq![t]);
            assert(b2 + d2.subrange(i as int, n as int).reverse() =~= refills[i as int]);
        } else {
            let old_rev = d.subrange(m, i as int).reverse();
            assert(b + old_rev == refills[m]);
            assert(b.len() + r == 7);
            assert(filled == b);
            assert(d2.subrange(m, n as int).reverse() =~= seq![t] + old_rev);
            assert(b2 + d2.subrange(m, n as int).reverse() =~= b + old_rev);
            if r == 6 {
                assert(n % 7 == 0);
                assert(b2.len() == 0);
                assert(d2.subrange(m, m + 7).reverse() == refills[m]);
            } else {
                assert(n % 7 == r + 1);
            }
        }
        assert forall|g: int| 0 <= g && 7 * g + 7 <= n implies #[trigger] d2.subrange(7 * g, 7 * g + 7).reverse() == refills[7 * g] by {
            if 7 * g + 7 <= i {
                assert(d2.subrange(7 * g, 7 * g + 7) =~= d.subrange(7 * g, 7 * g + 7));
            } else {
                assert(7 * g == m);
            }
        }
    }
}

/// The bag deals in rounds: starting from an empty bag that is refilled
/// with one piece of each kind whenever it runs empty, each consecutive
/// group of seven dealt pieces, counted from the first, holds each kind
/// exactly once.
pub proof fn lemma_deal_rounds(refills: Seq<Seq<PieceType>>, n: nat, g: int)
    requires
        n <= refills.len(),
        forall|j: int| 0 <= j < refills.len() ==> valid_refill(#[trigger] refills[j]),
        0 <= g,
        7 * g + 7 <= n,
    ensures
        deal_run(refills, n).1.subrange(7 * g, 7 * g + 7).to_multiset() == all_kinds().to_multiset(),
{
    lemma_deal_run_inv(refills, n);
    let group = deal_run(refills, n).1.subrange(7 * g, 7 * g + 7);
    group.lemma_reverse_to_multiset();
    assert(group.reverse() == refills[7 * g]);
}


/// The kind of the piece a spawn dealt (meaningful for `Spawned`).
pub open spec fn spawned_kind(o: SpawnOutcome) -> PieceType {
    match o {
        SpawnOutcome::Spawned(piece) => piece.piece_type,
        _ => PieceType::I,
    }
}

/// Call `i` of a run of `spawn_piece` calls did what the contract of
/// `spawn_piece` says of a call with no falling piece: for some refill of
/// one piece of each kind, it took the bag from `bags[i]` to `bags[i + 1]`
/// and gave `outcomes[i]` on field `boards[i]`.
pub open spec fn spawn_call(
    bags: Seq<Seq<PieceType>>,
    boards: Seq<Seq<Seq<Option<PieceType>>>>,
    outcomes: Seq<SpawnOutcome>,
    i: int,
) -> bool {
    exists|refill: Seq<PieceType>| {
        &&& valid_refill(refill)
        &&& bags[i + 1] == deal_step(bags[i], refill).0
        &&& outcomes[i] == spawn_outcome(boards[i], #[trigger] deal_step(bags[i], refill).1)
    }
}

proof fn lemma_spawn_calls_follow_run(
    bags: Seq<Seq<PieceType>>,
    boards: Seq<Seq<Seq<Option<PieceType>>>>,
    outcomes: Seq<SpawnOutcome>,
    refills: Seq<Seq<PieceType>>,
    n: nat,
)
    requires
        n <= outcomes.len(),
        bags.len() == outcomes.len() + 1,
        refills.len() == outcomes.len(),
        bags[0].len() == 0,
        forall|i: int| 0 <= i < outcomes.len() ==> (#[trigger] outcomes[i]) is Spawned,
        forall|i: int| 0 <= i < outcomes.len() ==> {
            &&& valid_refill(#[trigger] refills[i])
            &&& bags[i + 1] == deal_step(bags[i], refills[i]).0
            &&& outcomes[i] == spawn_outcome(boards[i], deal_step(bags[i], refills[i]).1)
        },
    ensures
        deal_run(refills, n).0 == bags[n as int],
        deal_run(refills, n).1 == outcomes.take(n as int).map_values(|o: SpawnOutcome| spawned_kind(o)),
    decreases n,
{
    if n == 0 {
        assert(outcomes.take(0).map_values(|o: SpawnOutcome| spawned_kind(o)) =~= Seq::<PieceType>::empty());
    } else {
        let i = (n - 1) as nat;
        lemma_spawn_calls_follow_run(bags, boards, outcomes, refills, i);
        let t = deal_step(bags[i as int], refills[i as int]).1;
        assert(spawned_kind(outcomes[i as int]) == t);
        assert(outcomes.take(n as int).map_values(|o: SpawnOutcome| spawned_kind(o))
            =~= outcomes.take(i as int).map_values(|o: SpawnOutcome| spawned_kind(o)).push(t));
    }
}

/// The rounds of seven over actual calls: for successive `spawn_piece`
/// calls made with no falling piece, starting from an empty bag and none
/// ending the game, each call related to the next as `spawn_piece`'s
/// contract states, each consecutive group of seven dealt kinds, counted
/// from the first call, holds each kind exactly once.
pub proof fn lemma_spawn_rounds(
    bags: Seq<Seq<PieceType>>,
    boards: Seq<Seq<Seq<Option<PieceType>>>>,
    outcomes: Seq<SpawnOutcome>,
    g: int,
)
    requires
        bags.len() == outcomes.len() + 1,
        bags[0].len() == 0,
        forall|i: int| 0 <= i < outcomes.len() ==> (#[trigger] outcomes[i]) is Spawned,
        forall|i: int| 0 <= i < outcomes.len() ==> #[trigger] spawn_call(bags, boards, outcomes, i),
        0 <= g,
        7 * g + 7 <= outcomes.len(),
    ensures
        outcomes.subrange(7 * g, 7 * g + 7).map_values(|o: SpawnOutcome| spawned_kind(o)).to_multiset()
            == all_kinds().to_multiset(),
{
    let n = outcomes.len();
    let refills = Seq::new(n, |i: int| choose|refill: Seq<PieceType>| {
        &&& valid_refill(refill)
        &&& bags[i + 1] == deal_step(bags[i], refill).0
        &&& outcomes[i] == spawn_outcome(boards[i], #[trigger] deal_step(bags[i], refill).1)
    });
    assert forall|i: int| 0 <= i < outcomes.len() implies {
        &&& valid_refill(#[trigger] refills[i])
        &&& bags[i + 1] == deal_step(bags[i], refills[i]).0
        &&& outcomes[i] == spawn_outcome(boards[i], deal_step(bags[i], refills[i]).1)
    } by {
        assert(spawn_call(bags, boards, outcomes, i));
    }
    lemma_spawn_calls_follow_run(bags, boards, outcomes, refills, n);
    lemma_deal_rounds(refills, n, g);
    let kinds = outcomes.take(n as int).map_values(|o: SpawnOutcome| spawned_kind(o));
    assert(kinds.subrange(7 * g, 7 * g + 7) =~= outcomes.subrange(7 * g, 7 * g + 7).map_values(|o: SpawnOutcome| spawned_kind(o)));
}

/// Deals a new piece when none is falling: an empty bag is first refilled
/// with one piece of each kind in random order, then its last piece is
/// dealt. While a piece is falling nothing happens.
pub fn spawn_piece(bag: &mut PieceBag, board: &Board, has_current: bool) -> (outcome: SpawnOutcome)
    ensures
        has_current ==> outcome == SpawnOutcome::NoSpawn && final(bag).pieces@ == old(bag).pieces@,
        !has_current && old(bag).pieces@.len() > 0 ==> outcome == spawn_outcome(board@, old(bag).pieces@.last())
            && final(bag).pieces@ == old(bag).pieces@.drop_last(),
        !has_current && old(bag).pieces@.len() == 0 ==> exists|t: PieceType| {
            &&& outcome == spawn_outcome(board@, t)
            &&& final(bag).pieces@.len() == 6
            &&& #[trigger] final(bag).pieces@.push(t).to_multiset() == all_kinds().to_multiset()
        },
        !has_current ==> exists|refill: Seq<PieceType>| {
            &&& valid_refill(refill)
            &&& final(bag).pieces@ == deal_step(old(bag).pieces@, refill).0
            &&& outcome == spawn_outcome(board@, #[trigger] deal_step(old(bag).pieces@, refill).1)
        },
{
    if has_current {
        return SpawnOutcome::NoSpawn;
    }
    refill_bag(bag);
    let ghost filled = bag.pieces@;
    let outcome = spawn_from_bag(bag, board);
    proof {
        if old(bag).pieces@.len() == 0 {
            assert(filled.drop_last().push(filled.last()) =~= filled);
            assert(valid_refill(filled));
            assert(outcome == spawn_outcome(board@, deal_step(old(bag).pieces@, filled).1));
        } else {
            assert(valid_refill(all_kinds()));
            assert(outcome == spawn_outcome(board@, deal_step(old(bag).pieces@, all_kinds()).1));
        }
    }
    outcome
}

} // verus!
