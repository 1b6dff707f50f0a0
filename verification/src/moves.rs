//! The legal moves of a position, and the order in which the search sees them.
//!
//! The moves of a position have a natural order, that of the cells they mark.
//! The search is handed them in another order, so that among equally good
//! moves it does not always settle on the lowest cell: each move is thrown
//! into one of two buckets, and the first bucket is emitted before the
//! second. Moves of one bucket keep their natural order, so this is no
//! uniform shuffle. Which bucket a move lands in is a sequence of picks, drawn
//! at random by [`get_next_moves`] and supplied by the caller of
//! [`arrange_next_moves`].

use crate::board::{
    check_winner, free_cells, lemma_marks_after_placing, marks, marks_upto, mover, outcome,
    whos_turn, GameState, EMPTY, O, X,
};
use rand::rngs::ThreadRng;
use rand::Rng;
use vstd::prelude::*;

verus! {

/// The generator type of `rand`, carried through as an opaque value.
#[verifier::external_type_specification]
#[verifier::external_body]
pub struct ExThreadRng(ThreadRng);

/// `rand::thread_rng`: the calling thread's generator. Nothing is claimed of it.
#[verifier::external_body]
fn thread_generator() -> ThreadRng {
    rand::thread_rng()
}

/// `Rng::gen_range` over `0..=1`: the result is 0 or 1, and which of the two
/// is left to chance.
#[verifier::external_body]
fn random_pick(rng: &mut ThreadRng) -> (pick: u8)
    ensures
        pick <= 1,
{
    rng.gen_range(0..=1)
}

/// The boards that arise when `player` marks one free cell among the first
/// `n`, in the order of the cells.
pub open spec fn placements_upto(cells: Seq<i8>, player: i8, n: nat) -> Seq<Seq<i8>>
    decreases n,
{
    if n == 0 {
        Seq::empty()
    } else {
        let before = placements_upto(cells, player, (n - 1) as nat);
        if cells[n - 1] == EMPTY {
            before.push(cells.update(n - 1, player))
        } else {
            before
        }
    }
}

/// The positions one move away, in the order of the cells marked: none once
/// the game is decided or drawn, otherwise one for each free cell, with the
/// mover's mark on it.
pub open spec fn successors(cells: Seq<i8>) -> Seq<Seq<i8>> {
    if outcome(cells) is Some {
        Seq::empty()
    } else {
        placements_upto(cells, mover(cells), 9)
    }
}

/// Whether pick number `k` sends its move to the first bucket: a pick of 0
/// does, and so does a pick that was not supplied.
pub open spec fn goes_first(picks: Seq<u8>, k: int) -> bool {
    k >= picks.len() || picks[k] == 0
}

/// The moves whose pick sends them to the first bucket (`first`) or to the
/// second (`!first`), in their natural order. Move number `k` goes by pick
/// number `k`.
pub open spec fn bucket(moves: Seq<Seq<i8>>, picks: Seq<u8>, first: bool) -> Seq<Seq<i8>>
    decreases moves.len(),
{
    if moves.len() == 0 {
        Seq::empty()
    } else {
        let before = bucket(moves.drop_last(), picks, first);
        if goes_first(picks, moves.len() - 1) == first {
            before.push(moves.last())
        } else {
            before
        }
    }
}

/// The moves as the picks arrange them: the first bucket, then the second.
pub open spec fn arranged(moves: Seq<Seq<i8>>, picks: Seq<u8>) -> Seq<Seq<i8>> {
    bucket(moves, picks, true) + bucket(moves, picks, false)
}

/// The cells of each board of a list.
pub open spec fn boards(states: Seq<GameState>) -> Seq<Seq<i8>> {
    states.map_values(|state: GameState| state@)
}

/// The moves of a position in the order that `picks` gives them. Free cell
/// number `k`, counted from the top left, is marked by the move that pick
/// number `k` places: in the first bucket for a pick of 0 or a missing pick,
/// in the second for any other. A decided or drawn position has no moves.
pub fn arrange_next_moves(game_state: GameState, picks: &Vec<u8>) -> (moves: Vec<GameState>)
    ensures
        boards(moves@) == arranged(successors(game_state@), picks@),
{
    let mut a: Vec<GameState> = Vec::new();
    let mut b: Vec<GameState> = Vec::new();
    if check_winner(game_state).is_some() {
        assert(boards(a@) =~= arranged(successors(game_state@), picks@));
        return a;
    }
    let player = whos_turn(game_state);
    let mut k: usize = 0;
    let mut i: usize = 0;
    while i < 9
        invariant
            i <= 9,
            k <= i,
            k == placements_upto(game_state@, player, i as nat).len(),
            boards(a@) == bucket(placements_upto(game_state@, player, i as nat), picks@, true),
            boards(b@) == bucket(placements_upto(game_state@, player, i as nat), picks@, false),
        decreases 9 - i,
    {
        if game_state[i] == EMPTY {
            let mut next = game_state;
            next[i] = player;
            let ghost before = placements_upto(game_state@, player, i as nat);
            let ghost after = placements_upto(game_state@, player, (i + 1) as nat);
            assert(after == before.push(next@));
            assert(after.drop_last() =~= before);
            if k >= picks.len() || picks[k] == 0 {
                a.push(next);
                assert(boards(a@) =~= bucket(before, picks@, true).push(next@));
            } else {
                b.push(next);
                assert(boards(b@) =~= bucket(before, picks@, false).push(next@));
            }
            k += 1;
        }
        i += 1;
    }
    let ghost first = a@;
    let ghost second = b@;
    a.append(&mut b);
    assert(boards(a@) =~= boards(first) + boards(second));
    a
}

/// The moves of a position in an order left to chance. One pick is drawn for
/// each free cell of an open position, and the picks arrange the moves as in
/// [`arrange_next_moves`]. Whatever was drawn, the result holds every successor
/// position once, and nothing else; it is empty exactly when the game is
/// decided or drawn.
pub fn get_next_moves(game_state: GameState) -> (moves: Vec<GameState>)
    ensures
        exists|picks: Seq<u8>| boards(moves@) == #[trigger] arranged(successors(game_state@), picks),
        moves@.len() == successors(game_state@).len(),
        forall|j: int| 0 <= j < moves@.len() ==> successors(game_state@).contains(#[trigger] moves@[j]@),
        forall|k: int|
            0 <= k < successors(game_state@).len() ==> boards(moves@).contains(
                #[trigger] successors(game_state@)[k],
            ),
        moves@.len() == 0 <==> outcome(game_state@) is Some,
{
    let mut picks: Vec<u8> = Vec::new();
    if check_winner(game_state).is_none() {
        let mut rng = thread_generator();
        let mut i: usize = 0;
        while i < 9
            invariant
                i <= 9,
            decreases 9 - i,
        {
            if game_state[i] == EMPTY {
                let pick = random_pick(&mut rng);
                picks.push(pick);
            }
            i += 1;
        }
    }
    let moves = arrange_next_moves(game_state, &picks);
    proof {
        let all = successors(game_state@);
        lemma_arranged_rearranges(all, picks@);
        lemma_open_position_has_successor(game_state@);
        assert forall|j: int| 0 <= j < moves@.len() implies all.contains(#[trigger] moves@[j]@) by {
            assert(boards(moves@)[j] == moves@[j]@);
            assert(arranged(all, picks@).contains(boards(moves@)[j]));
        }
    }
    moves
}

/// Arranging moves by picks loses none, adds none and repeats none: the
/// arrangement is as long as the list, and holds exactly its members.
pub proof fn lemma_arranged_rearranges(moves: Seq<Seq<i8>>, picks: Seq<u8>)
    ensures
        arranged(moves, picks).len() == moves.len(),
        forall|k: int| 0 <= k < moves.len() ==> arranged(moves, picks).contains(#[trigger] moves[k]),
        forall|m: Seq<i8>| #[trigger] arranged(moves, picks).contains(m) ==> moves.contains(m),
{
    lemma_bucket_members(moves, picks, true);
    lemma_bucket_members(moves, picks, false);
    let first = bucket(moves, picks, true);
    let second = bucket(moves, picks, false);
    assert forall|k: int| 0 <= k < moves.len() implies arranged(moves, picks).contains(
        #[trigger] moves[k],
    ) by {
        if goes_first(picks, k) {
            let j = choose|j: int| 0 <= j < first.len() && first[j] == moves[k];
            assert(arranged(moves, picks)[j] == moves[k]);
        } else {
            let j = choose|j: int| 0 <= j < second.len() && second[j] == moves[k];
            assert(arranged(moves, picks)[first.len() + j] == moves[k]);
        }
    }
    assert forall|m: Seq<i8>| arranged(moves, picks).contains(m) implies moves.contains(m) by {
        let j = choose|j: int| 0 <= j < arranged(moves, picks).len() && arranged(moves, picks)[j] == m;
        if j < first.len() {
            assert(first.contains(first[j]));
        } else {
            assert(second.contains(second[j - first.len()]));
        }
    }
}

/// What a bucket holds: the two buckets share out the moves, each move is in
/// the bucket its pick names, and a bucket holds moves of the list only.
pub proof fn lemma_bucket_members(moves: Seq<Seq<i8>>, picks: Seq<u8>, first: bool)
    ensures
        bucket(moves, picks, first).len() + bucket(moves, picks, !first).len() == moves.len(),
        forall|k: int|
            0 <= k < moves.len() && goes_first(picks, k) == first ==> exists|j: int|
                0 <= j < bucket(moves, picks, first).len() && bucket(moves, picks, first)[j]
                    == #[trigger] moves[k],
        forall|m: Seq<i8>| #[trigger] bucket(moves, picks, first).contains(m) ==> moves.contains(m),
    decreases moves.len(),
{
    if moves.len() > 0 {
        let shorter = moves.drop_last();
        let last = moves.len() - 1;
        lemma_bucket_members(shorter, picks, first);
        let before = bucket(shorter, picks, first);
        let here = bucket(moves, picks, first);
        assert forall|k: int| 0 <= k < moves.len() && goes_first(picks, k) == first implies exists|
            j: int,
        |
            0 <= j < here.len() && here[j] == #[trigger] moves[k] by {
            if k < last {
                assert(shorter[k] == moves[k]);
                let j = choose|j: int| 0 <= j < before.len() && before[j] == shorter[k];
                assert(here[j] == moves[k]);
            } else {
                assert(here[here.len() - 1] == moves[k]);
            }
        }
        assert forall|m: Seq<i8>| here.contains(m) implies moves.contains(m) by {
            let j = choose|j: int| 0 <= j < here.len() && here[j] == m;
            if j < before.len() {
                assert(before[j] == m);
                assert(before.contains(m));
                assert(shorter.contains(m));
                let k = choose|k: int| 0 <= k < shorter.len() && shorter[k] == m;
                assert(moves[k] == m);
            } else {
                assert(moves[last] == m);
            }
        }
    }
}

/// `next` is `cells` with the mark of `player` on one cell below `n` that was free.
pub open spec fn places_mark(cells: Seq<i8>, player: i8, n: nat, next: Seq<i8>) -> bool {
    exists|i: int| 0 <= i < n && cells[i] == EMPTY && next == #[trigger] cells.update(i, player)
}

/// The placements among the first `n` cells are as many as those cells that
/// are free, each marks one of them, and each free cell is marked by one.
pub proof fn lemma_placements(cells: Seq<i8>, player: i8, n: nat)
    requires
        n <= cells.len(),
    ensures
        placements_upto(cells, player, n).len() == n - marks_upto(cells, n),
        forall|j: int|
            0 <= j < placements_upto(cells, player, n).len() ==> places_mark(
                cells,
                player,
                n,
                #[trigger] placements_upto(cells, player, n)[j],
            ),
        forall|i: int|
            0 <= i < n && cells[i] == EMPTY ==> placements_upto(cells, player, n).contains(
                #[trigger] cells.update(i, player),
            ),
    decreases n,
{
    if n > 0 {
        let shorter = placements_upto(cells, player, (n - 1) as nat);
        let here = placements_upto(cells, player, n);
        lemma_placements(cells, player, (n - 1) as nat);
        assert forall|j: int| 0 <= j < here.len() implies places_mark(
            cells,
            player,
            n,
            #[trigger] here[j],
        ) by {
            if j < shorter.len() {
                assert(places_mark(cells, player, (n - 1) as nat, shorter[j]));
                let i = choose|i: int|
                    0 <= i < n - 1 && cells[i] == EMPTY && shorter[j] == #[trigger] cells.update(
                        i,
                        player,
                    );
                assert(here[j] == cells.update(i, player));
            } else {
                assert(here[j] == cells.update(n - 1, player));
            }
        }
        assert forall|i: int| 0 <= i < n && cells[i] == EMPTY implies here.contains(
            #[trigger] cells.update(i, player),
        ) by {
            if i < n - 1 {
                assert(shorter.contains(cells.update(i, player)));
                let j = choose|j: int| 0 <= j < shorter.len() && shorter[j] == cells.update(i, player);
                assert(here[j] == cells.update(i, player));
            } else {
                assert(here[here.len() - 1] == cells.update(i, player));
            }
        }
    }
}

/// A position has no successor exactly when the game is decided or drawn:
/// an open position has a free cell, and so a move.
pub proof fn lemma_open_position_has_successor(cells: Seq<i8>)
    requires
        cells.len() == 9,
    ensures
        successors(cells).len() == 0 <==> outcome(cells) is Some,
{
    lemma_placements(cells, mover(cells), 9);
}

/// Every successor of a position is that position with the mover's mark on
/// one cell that was free: a board of nine cells with one mark more.
pub proof fn lemma_successor(cells: Seq<i8>, k: int)
    requires
        cells.len() == 9,
        0 <= k < successors(cells).len(),
    ensures
        outcome(cells) is None,
        mover(cells) == X || mover(cells) == O,
        places_mark(cells, mover(cells), 9, successors(cells)[k]),
        successors(cells)[k].len() == 9,
        marks(successors(cells)[k]) == marks(cells) + 1,
        free_cells(successors(cells)[k]) + 1 == free_cells(cells),
{
    lemma_placements(cells, mover(cells), 9);
    let next = successors(cells)[k];
    assert(places_mark(cells, mover(cells), 9, next));
    let i = choose|i: int|
        0 <= i < 9 && cells[i] == EMPTY && next == #[trigger] cells.update(i, mover(cells));
    crate::board::lemma_turns_alternate(cells, i);
    lemma_marks_after_placing(cells, i, mover(cells));
}

} // verus!
