//! The search: minimax over the whole game tree, with alpha-beta pruning.
//!
//! The value of a position is what the player who asked can secure from it
//! when both sides play as well as can be: a finished game counts one over
//! its length for a win, minus that for a loss, nothing for a draw, and an
//! open position counts as its best successor does for the side to move. The
//! search computes that value without visiting every position, and picks a
//! move that attains it.

use crate::board::{
    check_winner, free_cells, marks, mover, outcome, whos_turn, GameState, EMPTY, X,
};
use crate::moves::{arranged, boards, get_next_moves, lemma_successor, successors};
use crate::score::{
    highest, lemma_order_total, lemma_order_transitive, lowest, Rational, Score,
};
use vstd::prelude::*;

verus! {

/// What a finished game is worth to `player` when it ended after `level`
/// moves of the search: a win counts more the sooner it comes, a loss less
/// the later, a draw nothing.
pub open spec fn leaf_value(winner: i8, player: i8, level: int) -> Rational {
    if winner == player {
        Rational { num: 1, den: level }
    } else if winner == EMPTY {
        Rational { num: 0, den: 1 }
    } else {
        Rational { num: -1, den: level }
    }
}

/// `x` is strictly better than `y` for the side to move: greater where that
/// side maximises, smaller where it minimises.
pub open spec fn beats(is_max: bool, x: Rational, y: Rational) -> bool {
    if is_max {
        y.lt(x)
    } else {
        x.lt(y)
    }
}

/// `x` is at least as good as `y` for the side to move.
pub open spec fn no_worse(is_max: bool, x: Rational, y: Rational) -> bool {
    if is_max {
        y.le(x)
    } else {
        x.le(y)
    }
}

/// The score that every other beats for the side to move: the sentinel a
/// running best starts from.
pub open spec fn worst(is_max: bool) -> Rational {
    if is_max {
        lowest()
    } else {
        highest()
    }
}

/// The better of a running best and a new score; the running best stays on
/// a tie.
pub open spec fn better_of(is_max: bool, best: Rational, new: Rational) -> Rational {
    if beats(is_max, new, best) {
        new
    } else {
        best
    }
}

/// The value of a position `level` moves into the search, to `player`, with
/// at most `plies` moves left to play: that of the game if it is over,
/// otherwise the best among the successors for the side to move, which is
/// `player` when `is_max` holds and the opponent when not.
pub open spec fn value_within(
    cells: Seq<i8>,
    player: i8,
    is_max: bool,
    level: int,
    plies: nat,
) -> Rational
    decreases plies, 1nat, 0nat,
{
    match outcome(cells) {
        Some(winner) => leaf_value(winner, player, level),
        None => best_upto(cells, player, is_max, level, plies, successors(cells).len()),
    }
}

/// The best value among the first `n` successors of an open position, for
/// the side to move.
pub open spec fn best_upto(
    cells: Seq<i8>,
    player: i8,
    is_max: bool,
    level: int,
    plies: nat,
    n: nat,
) -> Rational
    decreases plies, 0nat, n,
{
    if n == 0 || plies == 0 {
        worst(is_max)
    } else {
        better_of(
            is_max,
            best_upto(cells, player, is_max, level, plies, (n - 1) as nat),
            value_within(successors(cells)[n - 1], player, !is_max, level + 1, (plies - 1) as nat),
        )
    }
}

/// The value of a position `level` moves into the search, to `player`.
pub open spec fn value(cells: Seq<i8>, player: i8, is_max: bool, level: int) -> Rational {
    value_within(cells, player, is_max, level, free_cells(cells))
}

/// A score that a game can have from `level` on: zero, or plus or minus one
/// over a length of at least `level`.
pub open spec fn is_game_score(v: Rational, level: int) -> bool {
    &&& v.den >= 1
    &&& -1 <= v.num <= 1
    &&& v.num != 0 ==> v.den >= level
}

/// Every score that a game can have lies strictly between the sentinels.
pub proof fn lemma_game_score_in_range(v: Rational, level: int)
    requires
        is_game_score(v, level),
    ensures
        v.wf(),
        lowest().lt(v),
        v.lt(highest()),
        beats(true, v, worst(true)),
        beats(false, v, worst(false)),
{
    let (n, d) = (v.num, v.den);
    assert((-1000) * d < n * 1 && n * 1 < 1000 * d) by (nonlinear_arith)
        requires
            d >= 1,
            -1 <= n <= 1,
    ;
}

/// The value of a position is the score of some way the game can end: of
/// this position, if the game is over, and of a later one if not.
pub proof fn lemma_value_is_game_score(cells: Seq<i8>, player: i8, is_max: bool, level: int)
    requires
        cells.len() == 9,
        level >= 0,
        level >= 1 || outcome(cells) is None,
    ensures
        is_game_score(value(cells, player, is_max, level), level),
        outcome(cells) is None ==> is_game_score(value(cells, player, is_max, level), level + 1),
    decreases free_cells(cells), 1nat, 0nat,
{
    if outcome(cells) is None {
        crate::moves::lemma_open_position_has_successor(cells);
        lemma_best_is_game_score(cells, player, is_max, level, successors(cells).len());
    }
}

/// The best value among the first `n` successors is the score of some way
/// the game can end after one more move, or the starting sentinel if `n` is 0.
pub proof fn lemma_best_is_game_score(cells: Seq<i8>, player: i8, is_max: bool, level: int, n: nat)
    requires
        cells.len() == 9,
        level >= 0,
        outcome(cells) is None,
        n <= successors(cells).len(),
    ensures
        n == 0 ==> best_upto(cells, player, is_max, level, free_cells(cells), n) == worst(is_max),
        n > 0 ==> is_game_score(
            best_upto(cells, player, is_max, level, free_cells(cells), n),
            level + 1,
        ),
    decreases free_cells(cells), 0nat, n,
{
    if n > 0 {
        lemma_successor(cells, n - 1);
        lemma_best_is_game_score(cells, player, is_max, level, (n - 1) as nat);
        lemma_value_is_game_score(successors(cells)[n - 1], player, !is_max, level + 1);
        lemma_game_score_in_range(
            value(successors(cells)[n - 1], player, !is_max, level + 1),
            level + 1,
        );
    }
}

/// The value of successor `k` of an open position, one level further down.
pub open spec fn successor_value(cells: Seq<i8>, player: i8, is_max: bool, level: int, k: int) -> Rational {
    value(successors(cells)[k], player, !is_max, level + 1)
}

/// The best value among the first `n` successors is no worse than any of
/// them, and is the value of one of them.
pub proof fn lemma_best_bounds(cells: Seq<i8>, player: i8, is_max: bool, level: int, n: nat)
    requires
        cells.len() == 9,
        level >= 0,
        outcome(cells) is None,
        n <= successors(cells).len(),
    ensures
        forall|k: int|
            0 <= k < n ==> no_worse(
                is_max,
                best_upto(cells, player, is_max, level, free_cells(cells), n),
                #[trigger] successor_value(cells, player, is_max, level, k),
            ),
        n > 0 ==> exists|k: int|
            0 <= k < n && best_upto(cells, player, is_max, level, free_cells(cells), n)
                == #[trigger] successor_value(cells, player, is_max, level, k),
    decreases n,
{
    if n > 0 {
        let plies = free_cells(cells);
        let before = best_upto(cells, player, is_max, level, plies, (n - 1) as nat);
        let last = successor_value(cells, player, is_max, level, n - 1);
        let here = best_upto(cells, player, is_max, level, plies, n);
        lemma_successor(cells, n - 1);
        assert(here == better_of(is_max, before, last));
        lemma_best_bounds(cells, player, is_max, level, (n - 1) as nat);
        lemma_best_is_game_score(cells, player, is_max, level, (n - 1) as nat);
        lemma_value_is_game_score(successors(cells)[n - 1], player, !is_max, level + 1);
        lemma_game_score_in_range(last, level + 1);
        lemma_order_total(before, last);
        assert forall|k: int| 0 <= k < n implies no_worse(
            is_max,
            here,
            #[trigger] successor_value(cells, player, is_max, level, k),
        ) by {
            let v = successor_value(cells, player, is_max, level, k);
            lemma_successor(cells, k);
            lemma_value_is_game_score(successors(cells)[k], player, !is_max, level + 1);
            lemma_order_total(here, v);
            if k < n - 1 {
                lemma_order_transitive(v, before, here);
                lemma_order_transitive(here, before, v);
            }
        }
        if n > 1 && here == before {
            let k = choose|k: int|
                0 <= k < n - 1 && before == #[trigger] successor_value(cells, player, is_max, level, k);
            assert(here == successor_value(cells, player, is_max, level, k));
        } else {
            assert(here == successor_value(cells, player, is_max, level, n - 1));
        }
    }
}

/// A node of the search tree: a position, the score that the search gave it,
/// and the successors that the search went into, in the order of its visits.
pub struct Node {
    pub game_state: GameState,
    pub value: Score,
    pub children: Vec<Node>,
}

/// The positions of a list of nodes.
pub open spec fn positions(nodes: Seq<Node>) -> Seq<Seq<i8>> {
    nodes.map_values(|node: Node| node.game_state@)
}

/// The best of the scores on the first `n` nodes, for the side to move.
pub open spec fn recorded_best(nodes: Seq<Node>, is_max: bool, n: nat) -> Rational
    decreases n,
{
    if n == 0 {
        worst(is_max)
    } else {
        better_of(is_max, recorded_best(nodes, is_max, (n - 1) as nat), nodes[n - 1].value@)
    }
}

/// A window that a search can work with: the bounds are fractions within the
/// sentinels, the lower below the upper.
pub open spec fn window(a: Rational, b: Rational) -> bool {
    &&& a.wf()
    &&& b.wf()
    &&& lowest().le(a)
    &&& a.lt(b)
    &&& b.le(highest())
}

/// What a pruned search tells of the value `t` by returning `v` in the window
/// from `a` to `b`: strictly inside the window `v` is the value; at or below
/// `a` it is an upper bound of the value, at or above `b` a lower bound.
pub open spec fn consistent(v: Rational, t: Rational, a: Rational, b: Rational) -> bool {
    &&& v.le(a) ==> t.le(v)
    &&& b.le(v) ==> v.le(t)
    &&& a.lt(v) && v.lt(b) ==> v.eqv(t)
}

/// The bound of the window that the side to move raises towards its own
/// advantage: alpha where it maximises, beta where it minimises.
pub open spec fn own_bound(is_max: bool, a: Rational, b: Rational) -> Rational {
    if is_max {
        a
    } else {
        b
    }
}

/// The bound of the window at which the side to move stops looking: beta
/// where it maximises, alpha where it minimises.
pub open spec fn cut_bound(is_max: bool, a: Rational, b: Rational) -> Rational {
    if is_max {
        b
    } else {
        a
    }
}

/// The score on node `j` is strictly inside the window and beats every score
/// recorded before it.
pub open spec fn leads(nodes: Seq<Node>, is_max: bool, a: Rational, b: Rational, j: int) -> bool {
    &&& a.lt(nodes[j].value@)
    &&& nodes[j].value@.lt(b)
    &&& forall|i: int| 0 <= i < j ==> beats(is_max, nodes[j].value@, #[trigger] nodes[i].value@)
}

/// The value of the position on node `j`, one level below its parent, with
/// the other side to move.
pub open spec fn node_value(nodes: Seq<Node>, player: i8, is_max: bool, level: int, j: int) -> Rational {
    value(nodes[j].game_state@, player, !is_max, level + 1)
}

/// What holds once the search of a position has returned `v` after visiting
/// `visited`, in the window from `a` to `b`.
///
/// A finished game has its own score and nothing is visited. Of an open
/// position at least one successor is visited, each visited node carries a
/// score that a game can have, `v` is the best of them for the side to move,
/// and successors are left out only when `v` has reached the bound at which
/// that side stops. In a proper window, `v` is consistent with the value of
/// the position, and a node whose score is strictly inside the window and
/// beats all the scores before it carries the value of its position.
pub open spec fn searched(
    cells: Seq<i8>,
    player: i8,
    is_max: bool,
    level: int,
    a: Rational,
    b: Rational,
    visited: Seq<Node>,
    v: Rational,
) -> bool {
    &&& is_game_score(v, level)
    &&& match outcome(cells) {
        Some(winner) => visited.len() == 0 && v == leaf_value(winner, player, level),
        None => {
            &&& 1 <= visited.len() <= successors(cells).len()
            &&& v == recorded_best(visited, is_max, visited.len())
            &&& visited.len() < successors(cells).len() ==> !beats(is_max, cut_bound(is_max, a, b), v)
        },
    }
    &&& forall|j: int|
        0 <= j < visited.len() ==> is_game_score((#[trigger] visited[j]).value@, level + 1)
    &&& forall|j: int|
        0 <= j < visited.len() ==> successors(cells).contains((#[trigger] visited[j]).game_state@)
    &&& window(a, b) ==> {
        &&& consistent(v, value(cells, player, is_max, level), a, b)
        &&& forall|j: int|
            0 <= j < visited.len() && #[trigger] leads(visited, is_max, a, b, j)
                ==> visited[j].value@.eqv(node_value(visited, player, is_max, level, j))
    }
}

/// What holds while the successors of an open position are searched: `v` is
/// the best score so far and `own` the bound that the side to move has
/// raised. In a proper window, `v` has not reached the bound at which the
/// search stops, it is no worse than the value of any position visited, and
/// once it beats the bound that the search started with it is the value of
/// one of them.
pub open spec fn in_progress(
    cells: Seq<i8>,
    player: i8,
    is_max: bool,
    level: int,
    a: Rational,
    b: Rational,
    visited: Seq<Node>,
    v: Rational,
    own: Rational,
) -> bool {
    &&& v == recorded_best(visited, is_max, visited.len())
    &&& forall|j: int|
        0 <= j < visited.len() ==> is_game_score((#[trigger] visited[j]).value@, level + 1)
    &&& forall|j: int|
        0 <= j < visited.len() ==> successors(cells).contains((#[trigger] visited[j]).game_state@)
    &&& window(a, b) ==> {
        &&& own == own_bound(is_max, a, b) || own == v
        &&& no_worse(is_max, own, own_bound(is_max, a, b))
        &&& no_worse(is_max, own, v)
        &&& beats(is_max, cut_bound(is_max, a, b), v)
        &&& forall|j: int|
            0 <= j < visited.len() ==> no_worse(
                is_max,
                v,
                #[trigger] node_value(visited, player, is_max, level, j),
            )
        &&& beats(is_max, v, own_bound(is_max, a, b)) ==> exists|j: int|
            0 <= j < visited.len() && v.eqv(#[trigger] node_value(visited, player, is_max, level, j))
        &&& forall|j: int|
            0 <= j < visited.len() && #[trigger] leads(visited, is_max, a, b, j)
                ==> visited[j].value@.eqv(node_value(visited, player, is_max, level, j))
    }
}

/// The order of fractions as the side to move sees it: total, and transitive
/// in each mix of "beats" and "no worse".
pub proof fn lemma_sides(is_max: bool, x: Rational, y: Rational, z: Rational)
    requires
        x.wf(),
        y.wf(),
        z.wf(),
    ensures
        beats(is_max, x, y) <==> !no_worse(is_max, y, x),
        no_worse(is_max, x, y) && no_worse(is_max, y, x) <==> x.eqv(y),
        no_worse(is_max, x, y) && no_worse(is_max, y, z) ==> no_worse(is_max, x, z),
        beats(is_max, x, y) && no_worse(is_max, y, z) ==> beats(is_max, x, z),
        no_worse(is_max, x, y) && beats(is_max, y, z) ==> beats(is_max, x, z),
{
    lemma_order_total(x, y);
    lemma_order_total(y, x);
    lemma_order_transitive(x, y, z);
    lemma_order_transitive(z, y, x);
}

/// The best of the recorded scores depends on the first `n` nodes only.
pub proof fn lemma_recorded_best_prefix(one: Seq<Node>, other: Seq<Node>, is_max: bool, n: nat)
    requires
        n <= one.len(),
        n <= other.len(),
        forall|j: int| 0 <= j < n ==> one[j].value == other[j].value,
    ensures
        recorded_best(one, is_max, n) == recorded_best(other, is_max, n),
    decreases n,
{
    if n > 0 {
        lemma_recorded_best_prefix(one, other, is_max, (n - 1) as nat);
    }
}

/// The best of the recorded scores is one of them, no worse than any of
/// them, and beats none that came before the first node that carries it.
pub proof fn lemma_recorded_best(nodes: Seq<Node>, is_max: bool, level: int, n: nat)
    requires
        n <= nodes.len(),
        forall|j: int| 0 <= j < n ==> is_game_score((#[trigger] nodes[j]).value@, level),
    ensures
        n == 0 ==> recorded_best(nodes, is_max, n) == worst(is_max),
        n > 0 ==> is_game_score(recorded_best(nodes, is_max, n), level),
        n > 0 ==> exists|j: int|
            0 <= j < n && recorded_best(nodes, is_max, n) == (#[trigger] nodes[j]).value@,
        forall|j: int|
            0 <= j < n ==> no_worse(
                is_max,
                recorded_best(nodes, is_max, n),
                (#[trigger] nodes[j]).value@,
            ),
    decreases n,
{
    if n > 0 {
        let before = recorded_best(nodes, is_max, (n - 1) as nat);
        let last = nodes[n - 1].value@;
        let here = recorded_best(nodes, is_max, n);
        lemma_recorded_best(nodes, is_max, level, (n - 1) as nat);
        lemma_game_score_in_range(last, level);
        lemma_order_total(before, last);
        if n > 1 {
            lemma_game_score_in_range(before, level);
        }
        assert forall|j: int| 0 <= j < n implies no_worse(
            is_max,
            here,
            (#[trigger] nodes[j]).value@,
        ) by {
            let v = nodes[j].value@;
            lemma_game_score_in_range(v, level);
            lemma_order_total(here, v);
            if j < n - 1 {
                lemma_sides(is_max, here, before, v);
            }
        }
        if here == last {
            assert(here == nodes[n - 1].value@);
        } else {
            let j = choose|j: int| 0 <= j < n - 1 && before == (#[trigger] nodes[j]).value@;
            assert(here == nodes[j].value@);
        }
    }
}

/// The window in which a successor is searched: the bound that the side to
/// move has raised so far on its own side, the other bound as it was given.
pub open spec fn child_window(is_max: bool, a: Rational, b: Rational, own: Rational) -> (
    Rational,
    Rational,
) {
    if is_max {
        (own, b)
    } else {
        (a, own)
    }
}

/// The bound on its own side that the side to move has reached after the
/// first `n` nodes were searched: it is raised to the best score whenever
/// that score beats it.
pub open spec fn raised(nodes: Seq<Node>, is_max: bool, own: Rational, n: nat) -> Rational
    decreases n,
{
    if n == 0 {
        own
    } else {
        better_of(
            is_max,
            raised(nodes, is_max, own, (n - 1) as nat),
            recorded_best(nodes, is_max, n),
        )
    }
}

/// The window in which node `j` was searched.
pub open spec fn window_at(nodes: Seq<Node>, is_max: bool, a: Rational, b: Rational, j: int) -> (
    Rational,
    Rational,
) {
    child_window(is_max, a, b, raised(nodes, is_max, own_bound(is_max, a, b), j as nat))
}

/// What holds of the whole tree once the search of a position has returned:
/// of the position itself what [`searched`] says, and of the nodes visited
/// what [`searched_below`] says. `plies` bounds the depth of the tree.
pub open spec fn searched_within(
    cells: Seq<i8>,
    player: i8,
    is_max: bool,
    level: int,
    a: Rational,
    b: Rational,
    visited: Seq<Node>,
    v: Rational,
    plies: nat,
) -> bool
    decreases plies, 0nat,
{
    &&& searched(cells, player, is_max, level, a, b, visited, v)
    &&& plies > 0 ==> searched_below(player, is_max, level, a, b, visited, (plies - 1) as nat)
}

/// What holds of the trees below the nodes that a search has visited: each
/// is the tree of a search of the node's position, with the other side to
/// move, one level further down, in the window as it stood when the node was
/// searched, for the nodes recorded on it and the score it carries.
pub open spec fn searched_below(
    player: i8,
    is_max: bool,
    level: int,
    a: Rational,
    b: Rational,
    visited: Seq<Node>,
    plies: nat,
) -> bool
    decreases plies, 1nat,
{
    forall|j: int|
        0 <= j < visited.len() ==> searched_within(
            (#[trigger] visited[j]).game_state@,
            player,
            !is_max,
            level + 1,
            window_at(visited, is_max, a, b, j).0,
            window_at(visited, is_max, a, b, j).1,
            visited[j].children@,
            visited[j].value@,
            plies,
        )
}

/// What holds of the whole tree once the search of a position has returned.
/// The tree is no deeper than the position has free cells.
#[verifier::opaque]
pub open spec fn searched_tree(
    cells: Seq<i8>,
    player: i8,
    is_max: bool,
    level: int,
    a: Rational,
    b: Rational,
    visited: Seq<Node>,
    v: Rational,
) -> bool {
    searched_within(cells, player, is_max, level, a, b, visited, v, free_cells(cells))
}

/// What holds of the trees below the nodes that a search has visited, none
/// of them deeper than `plies`.
#[verifier::opaque]
pub open spec fn searched_subtrees(
    player: i8,
    is_max: bool,
    level: int,
    a: Rational,
    b: Rational,
    visited: Seq<Node>,
    plies: nat,
) -> bool {
    searched_below(player, is_max, level, a, b, visited, plies)
}

/// A searched tree is searched at its root.
pub proof fn lemma_searched_at_the_root(
    cells: Seq<i8>,
    player: i8,
    is_max: bool,
    level: int,
    a: Rational,
    b: Rational,
    visited: Seq<Node>,
    v: Rational,
)
    requires
        searched_tree(cells, player, is_max, level, a, b, visited, v),
    ensures
        searched(cells, player, is_max, level, a, b, visited, v),
{
    reveal(searched_tree);
}

/// A tree is searched if it is searched at its root and the trees below its
/// root are searched.
pub proof fn lemma_searched_from_below(
    cells: Seq<i8>,
    player: i8,
    is_max: bool,
    level: int,
    a: Rational,
    b: Rational,
    visited: Seq<Node>,
    v: Rational,
)
    requires
        searched(cells, player, is_max, level, a, b, visited, v),
        searched_subtrees(player, is_max, level, a, b, visited, (free_cells(cells) - 1) as nat),
    ensures
        searched_tree(cells, player, is_max, level, a, b, visited, v),
{
    reveal(searched_tree);
    reveal(searched_subtrees);
}

/// Where no node was visited, nothing is left to say of the trees below.
pub proof fn lemma_searched_below_none(
    player: i8,
    is_max: bool,
    level: int,
    a: Rational,
    b: Rational,
    plies: nat,
)
    ensures
        searched_subtrees(player, is_max, level, a, b, Seq::empty(), plies),
{
    reveal(searched_subtrees);
}

/// The trees below the nodes visited stay searched when one more node is
/// visited whose own tree is searched in the window that the search had
/// reached; and the bound is then raised to the new best score if that
/// beats it.
pub proof fn lemma_searched_one_more(
    player: i8,
    is_max: bool,
    level: int,
    a: Rational,
    b: Rational,
    visited: Seq<Node>,
    child: Node,
    plies: nat,
)
    requires
        searched_subtrees(player, is_max, level, a, b, visited, plies),
        free_cells(child.game_state@) == plies,
        searched_tree(
            child.game_state@,
            player,
            !is_max,
            level + 1,
            window_at(visited, is_max, a, b, visited.len() as int).0,
            window_at(visited, is_max, a, b, visited.len() as int).1,
            child.children@,
            child.value@,
        ),
    ensures
        searched_subtrees(player, is_max, level, a, b, visited.push(child), plies),
        raised(visited.push(child), is_max, own_bound(is_max, a, b), visited.len() + 1)
            == better_of(
            is_max,
            raised(visited, is_max, own_bound(is_max, a, b), visited.len()),
            better_of(is_max, recorded_best(visited, is_max, visited.len()), child.value@),
        ),
{
    reveal(searched_tree);
    reveal(searched_subtrees);
    let visited2 = visited.push(child);
    let own0 = own_bound(is_max, a, b);
    lemma_recorded_best_prefix(visited, visited2, is_max, visited.len());
    lemma_raised_prefix(visited, visited2, is_max, own0, visited.len());
    assert forall|j: int| 0 <= j < visited2.len() implies searched_within(
        (#[trigger] visited2[j]).game_state@,
        player,
        !is_max,
        level + 1,
        window_at(visited2, is_max, a, b, j).0,
        window_at(visited2, is_max, a, b, j).1,
        visited2[j].children@,
        visited2[j].value@,
        plies,
    ) by {
        lemma_raised_prefix(visited, visited2, is_max, own0, j as nat);
        if j < visited.len() {
            assert(visited2[j] == visited[j]);
        }
    }
}

/// The bound raised after the first `n` nodes depends on those nodes only.
pub proof fn lemma_raised_prefix(one: Seq<Node>, other: Seq<Node>, is_max: bool, own: Rational, n: nat)
    requires
        n <= one.len(),
        n <= other.len(),
        forall|j: int| 0 <= j < n ==> one[j].value == other[j].value,
    ensures
        raised(one, is_max, own, n) == raised(other, is_max, own, n),
    decreases n,
{
    if n > 0 {
        lemma_raised_prefix(one, other, is_max, own, (n - 1) as nat);
        lemma_recorded_best_prefix(one, other, is_max, n);
    }
}

/// A returned score that is consistent with a value, read from the side to move:
/// short of both bounds it is the value; no better than the side's own bound
/// it is no worse than the value; at the bound where the search stops, or
/// beyond, the value is no worse than it.
pub proof fn lemma_consistent_for_side(is_max: bool, v: Rational, t: Rational, a: Rational, b: Rational)
    requires
        consistent(v, t, a, b),
    ensures
        beats(is_max, v, own_bound(is_max, a, b)) && beats(is_max, cut_bound(is_max, a, b), v)
            ==> v.eqv(t),
        no_worse(is_max, own_bound(is_max, a, b), v) ==> no_worse(is_max, v, t),
        no_worse(is_max, v, cut_bound(is_max, a, b)) ==> no_worse(is_max, t, v),
{
}

/// One more successor searched: the search is then either still in
/// progress, with the new best score and the new bound, or it stops here
/// because the best score has reached the bound at which the side to move
/// stops, and is done.
pub proof fn lemma_search_step(
    cells: Seq<i8>,
    player: i8,
    is_max: bool,
    level: int,
    a: Rational,
    b: Rational,
    visited: Seq<Node>,
    v: Rational,
    own: Rational,
    child: Node,
    k: int,
)
    requires
        cells.len() == 9,
        level >= 0,
        outcome(cells) is None,
        in_progress(cells, player, is_max, level, a, b, visited, v, own),
        visited.len() < successors(cells).len(),
        0 <= k < successors(cells).len(),
        child.game_state@ == successors(cells)[k],
        is_game_score(child.value@, level + 1),
        window(child_window(is_max, a, b, own).0, child_window(is_max, a, b, own).1) ==> consistent(
            child.value@,
            value(child.game_state@, player, !is_max, level + 1),
            child_window(is_max, a, b, own).0,
            child_window(is_max, a, b, own).1,
        ),
    ensures
        beats(is_max, cut_bound(is_max, a, b), better_of(is_max, v, child.value@)) ==> in_progress(
            cells,
            player,
            is_max,
            level,
            a,
            b,
            visited.push(child),
            better_of(is_max, v, child.value@),
            better_of(is_max, own, better_of(is_max, v, child.value@)),
        ),
        !beats(is_max, cut_bound(is_max, a, b), better_of(is_max, v, child.value@)) ==> searched(
            cells,
            player,
            is_max,
            level,
            a,
            b,
            visited.push(child),
            better_of(is_max, v, child.value@),
        ),
{
    let own0 = own_bound(is_max, a, b);
    let cut0 = cut_bound(is_max, a, b);
    let e = child.value@;
    let n = visited.len();
    let v2 = better_of(is_max, v, e);
    let own2 = better_of(is_max, own, v2);
    let visited2 = visited.push(child);
    let t = value(cells, player, is_max, level);
    let te = value(child.game_state@, player, !is_max, level + 1);
    let (lo, hi) = child_window(is_max, a, b, own);

    lemma_recorded_best_prefix(visited, visited2, is_max, n);
    assert(v2 == recorded_best(visited2, is_max, n + 1));
    assert forall|j: int| 0 <= j < visited2.len() implies is_game_score(
        (#[trigger] visited2[j]).value@,
        level + 1,
    ) && successors(cells).contains(visited2[j].game_state@) by {
        if j < n {
            assert(visited2[j] == visited[j]);
        }
    }
    lemma_recorded_best(visited, is_max, level + 1, n);
    lemma_recorded_best(visited2, is_max, level + 1, n + 1);
    lemma_game_score_in_range(e, level + 1);
    lemma_game_score_in_range(v2, level + 1);
    if n > 0 {
        lemma_game_score_in_range(v, level + 1);
    }
    lemma_successor(cells, k);
    lemma_value_is_game_score(child.game_state@, player, !is_max, level + 1);
    lemma_game_score_in_range(te, level + 1);
    lemma_value_is_game_score(cells, player, is_max, level);
    lemma_game_score_in_range(t, level);
    lemma_best_bounds(cells, player, is_max, level, successors(cells).len());
    assert(te == successor_value(cells, player, is_max, level, k));
    assert(no_worse(is_max, t, te));

    if window(a, b) {
        lemma_order_total(lowest(), v);
        lemma_order_total(v, highest());
        lemma_sides(is_max, cut0, own0, v);
        lemma_sides(is_max, own, own0, v);
        lemma_order_transitive(lowest(), a, own);
        lemma_order_transitive(own, b, highest());
        assert(window(lo, hi));
        lemma_consistent_for_side(is_max, e, te, lo, hi);
        assert(own_bound(is_max, lo, hi) == own);
        assert(cut_bound(is_max, lo, hi) == cut0);
        lemma_sides(is_max, v2, v, e);
        lemma_sides(is_max, e, v, own);
        lemma_sides(is_max, e, own, v);
        lemma_sides(is_max, e, own0, v);
        lemma_sides(is_max, own2, own, own0);
        lemma_sides(is_max, own2, v2, own);
        lemma_sides(is_max, cut0, v2, e);
        lemma_sides(is_max, cut0, v2, v);
        lemma_sides(is_max, v2, e, te);
        lemma_sides(is_max, e, te, e);
        lemma_sides(is_max, own, e, own);

        // The new node carries the value of its position once its score leads.
        assert forall|j: int| 0 <= j < visited2.len() && #[trigger] leads(visited2, is_max, a, b, j)
            implies visited2[j].value@.eqv(node_value(visited2, player, is_max, level, j)) by {
            if j < n {
                assert(visited2[j] == visited[j]);
                assert forall|i: int| 0 <= i < j implies beats(
                    is_max,
                    visited[j].value@,
                    #[trigger] visited[i].value@,
                ) by {
                    assert(visited2[i] == visited[i]);
                    assert(beats(is_max, visited2[j].value@, visited2[i].value@));
                }
                assert(leads(visited, is_max, a, b, j));
                assert(node_value(visited2, player, is_max, level, j) == node_value(
                    visited,
                    player,
                    is_max,
                    level,
                    j,
                ));
            } else {
                assert(visited2[j] == child);
                lemma_order_total(a, e);
                lemma_order_total(e, b);
                assert(beats(is_max, e, own0));
                assert(beats(is_max, cut0, e));
                if own != own0 {
                    if n > 0 {
                        let i = choose|i: int| 0 <= i < n && v == (#[trigger] visited[i]).value@;
                        assert(visited2[i] == visited[i]);
                        assert(beats(is_max, visited2[j].value@, visited2[i].value@));
                    }
                }
                assert(beats(is_max, e, own));
                assert(e.eqv(te));
            }
        }

        if beats(is_max, cut0, v2) {
            assert(beats(is_max, cut0, e));
            assert(no_worse(is_max, e, te));
            assert forall|j: int| 0 <= j < visited2.len() implies no_worse(
                is_max,
                v2,
                #[trigger] node_value(visited2, player, is_max, level, j),
            ) by {
                if j < n {
                    assert(visited2[j] == visited[j]);
                    let tj = node_value(visited, player, is_max, level, j);
                    assert(node_value(visited2, player, is_max, level, j) == tj);
                    let kj = choose|kj: int|
                        0 <= kj < successors(cells).len() && successors(cells)[kj]
                            == visited[j].game_state@;
                    lemma_successor(cells, kj);
                    lemma_value_is_game_score(visited[j].game_state@, player, !is_max, level + 1);
                    lemma_game_score_in_range(tj, level + 1);
                    lemma_sides(is_max, v2, v, tj);
                } else {
                    assert(visited2[j] == child);
                }
            }
            if beats(is_max, v2, own0) {
                if v2 == v {
                    let j = choose|j: int|
                        0 <= j < n && v.eqv(#[trigger] node_value(visited, player, is_max, level, j));
                    assert(visited2[j] == visited[j]);
                    assert(v2.eqv(node_value(visited2, player, is_max, level, j)));
                } else {
                    assert(visited2[n as int] == child);
                    assert(beats(is_max, e, own));
                    assert(v2.eqv(node_value(visited2, player, is_max, level, n as int)));
                }
            }
            assert(own2 == own0 || own2 == v2);
        } else {
            assert(v2 == e);
            assert(no_worse(is_max, e, cut0));
            assert(no_worse(is_max, te, e));
            lemma_sides(is_max, t, te, e);
            lemma_sides(is_max, e, cut0, own0);
            lemma_order_total(e, a);
            lemma_order_total(e, b);
            lemma_order_total(e, t);
            assert(consistent(v2, t, a, b));
        }
    }
}

/// Every successor searched and the bound never reached: the search is done,
/// and the best score is consistent with the value of the position.
pub proof fn lemma_search_complete(
    cells: Seq<i8>,
    player: i8,
    is_max: bool,
    level: int,
    a: Rational,
    b: Rational,
    visited: Seq<Node>,
    v: Rational,
    own: Rational,
)
    requires
        cells.len() == 9,
        level >= 0,
        outcome(cells) is None,
        in_progress(cells, player, is_max, level, a, b, visited, v, own),
        visited.len() == successors(cells).len(),
        forall|k: int|
            0 <= k < successors(cells).len() ==> positions(visited).contains(
                #[trigger] successors(cells)[k],
            ),
    ensures
        searched(cells, player, is_max, level, a, b, visited, v),
{
    let own0 = own_bound(is_max, a, b);
    let cut0 = cut_bound(is_max, a, b);
    let n = successors(cells).len();
    let t = value(cells, player, is_max, level);
    crate::moves::lemma_open_position_has_successor(cells);
    lemma_recorded_best(visited, is_max, level + 1, n);
    lemma_game_score_in_range(v, level + 1);
    lemma_value_is_game_score(cells, player, is_max, level);
    lemma_game_score_in_range(t, level);
    lemma_best_bounds(cells, player, is_max, level, n);
    if window(a, b) {
        let top = choose|k: int|
            0 <= k < n && t == #[trigger] successor_value(cells, player, is_max, level, k);
        assert(positions(visited).contains(successors(cells)[top]));
        let j = choose|j: int| 0 <= j < n && positions(visited)[j] == successors(cells)[top];
        assert(node_value(visited, player, is_max, level, j) == t);
        assert(no_worse(is_max, v, t));
        if beats(is_max, v, own0) {
            let i = choose|i: int|
                0 <= i < n && v.eqv(#[trigger] node_value(visited, player, is_max, level, i));
            let ti = node_value(visited, player, is_max, level, i);
            assert(successors(cells).contains(visited[i].game_state@));
            let k = choose|k: int| 0 <= k < n && successors(cells)[k] == visited[i].game_state@;
            assert(ti == successor_value(cells, player, is_max, level, k));
            lemma_successor(cells, k);
            lemma_value_is_game_score(visited[i].game_state@, player, !is_max, level + 1);
            lemma_game_score_in_range(ti, level + 1);
            lemma_sides(is_max, t, ti, v);
            lemma_sides(is_max, v, ti, v);
            lemma_sides(is_max, v, t, v);
        }
        lemma_sides(is_max, v, own0, cut0);
        lemma_sides(is_max, cut0, v, own0);
        lemma_order_total(v, a);
        lemma_order_total(v, b);
        lemma_order_total(v, t);
        assert(consistent(v, t, a, b));
    }
}

/// Scores a position by searching the game tree below it.
///
/// `player` is the side that asked, `is_max` tells whether that side is to
/// move in this position, `level` counts the moves made since the search
/// began, and `a` and `b` are the bounds of the window, alpha and beta. A
/// finished game has its own score and the node stays as it was. The
/// successors of an open position come in an order left to chance; each is
/// searched with the window as it stands, then recorded on the node with its
/// score, and the search stops as soon as the best score reaches the bound of
/// the other side.
///
/// A finished game cannot be scored at level 0, where a win would count one
/// over nothing, and the levels below this one must fit the counter. What
/// holds of the result and of the tree that the search leaves on the node is
/// said by [`searched_tree`].
pub fn minimax_rec(
    node: &mut Node,
    player: i8,
    is_max: bool,
    level: u8,
    a: Score,
    b: Score,
) -> (value: Score)
    requires
        level + free_cells(old(node).game_state@) <= u8::MAX,
        level >= 1 || outcome(old(node).game_state@) is None,
    ensures
        final(node).game_state == old(node).game_state,
        final(node).value == old(node).value,
        old(node).children@.is_prefix_of(final(node).children@),
        searched_tree(
            old(node).game_state@,
            player,
            is_max,
            level as int,
            a@,
            b@,
            final(node).children@.skip(old(node).children@.len() as int),
            value@,
        ),
        exists|picks: Seq<u8>|
            positions(final(node).children@.skip(old(node).children@.len() as int))
                == (#[trigger] arranged(successors(old(node).game_state@), picks)).take(
                final(node).children@.len() - old(node).children@.len(),
            ),
    decreases free_cells(old(node).game_state@),
{
    let ghost a0 = a@;
    let ghost b0 = b@;
    let ghost cells = node.game_state@;
    let ghost before = node.children@;
    let mut a = a;
    let mut b = b;
    let children = get_next_moves(node.game_state);
    let ghost picks = choose|picks: Seq<u8>|
        boards(children@) == #[trigger] arranged(successors(cells), picks);

    if children.len() == 0 {
        let winner = check_winner(node.game_state).unwrap();
        let mut val = Score { num: -1, den: level as i32 };
        if winner == player {
            val = Score { num: 1, den: level as i32 };
        } else if winner == EMPTY {
            val = Score::zero();
        }
        proof {
            assert(node.children@.skip(before.len() as int) =~= Seq::empty());
            assert(positions(Seq::<Node>::empty()) =~= arranged(successors(cells), picks).take(0));
            lemma_value_is_game_score(cells, player, is_max, level as int);
            lemma_order_total(val@, a0);
            lemma_order_total(val@, b0);
            lemma_order_total(val@, val@);
            lemma_searched_below_none(
                player,
                is_max,
                level as int,
                a0,
                b0,
                (free_cells(cells) - 1) as nat,
            );
            lemma_searched_from_below(
                cells,
                player,
                is_max,
                level as int,
                a0,
                b0,
                Seq::empty(),
                val@,
            );
        }
        return val;
    }
    let mut value = Score::highest();
    if is_max {
        value = Score::lowest();
    }
    let mut i: usize = 0;
    let ghost mut cut = false;
    proof {
        assert(node.children@.skip(before.len() as int) =~= Seq::empty());
        lemma_searched_below_none(
            player,
            is_max,
            level as int,
            a0,
            b0,
            (free_cells(cells) - 1) as nat,
        );
        lemma_order_total(lowest(), b0);
        lemma_order_total(a0, highest());
        lemma_order_total(a0, a0);
        lemma_order_total(b0, b0);
        if window(a0, b0) {
            lemma_order_transitive(lowest(), a0, b0);
            lemma_order_transitive(a0, b0, highest());
        }
    }
    while i < children.len()
        invariant_except_break
            !cut,
        invariant
            i <= children.len(),
            cells.len() == 9,
            outcome(cells) is None,
            level + free_cells(cells) <= u8::MAX,
            node.game_state == old(node).game_state,
            cells == node.game_state@,
            node.value == old(node).value,
            before == old(node).children@,
            node.children@.len() == before.len() + i,
            before.is_prefix_of(node.children@),
            children@.len() == successors(cells).len(),
            boards(children@) == arranged(successors(cells), picks),
            forall|j: int| 0 <= j < children@.len() ==> successors(cells).contains(#[trigger] children@[j]@),
            forall|k: int|
                0 <= k < successors(cells).len() ==> boards(children@).contains(
                    #[trigger] successors(cells)[k],
                ),
            forall|j: int|
                0 <= j < i ==> (#[trigger] node.children@[before.len() + j]).game_state == children@[j],
            is_max ==> b@ == b0,
            !is_max ==> a@ == a0,
            own_bound(is_max, a@, b@) == raised(
                node.children@.skip(before.len() as int),
                is_max,
                own_bound(is_max, a0, b0),
                i as nat,
            ),
            searched_subtrees(
                player,
                is_max,
                level as int,
                a0,
                b0,
                node.children@.skip(before.len() as int),
                (free_cells(cells) - 1) as nat,
            ),
            !cut ==> in_progress(
                cells,
                player,
                is_max,
                level as int,
                a0,
                b0,
                node.children@.skip(before.len() as int),
                value@,
                own_bound(is_max, a@, b@),
            ),
            cut ==> searched(
                cells,
                player,
                is_max,
                level as int,
                a0,
                b0,
                node.children@.skip(before.len() as int),
                value@,
            ),
        ensures
            cut || i == children.len(),
        decreases children.len() - i,
    {
        let ghost visited = node.children@.skip(before.len() as int);
        let ghost k = choose|k: int|
            0 <= k < successors(cells).len() && successors(cells)[k] == children@[i as int]@;
        proof {
            assert(successors(cells).contains(children@[i as int]@));
            lemma_successor(cells, k);
        }
        let mut child = Node { game_state: children[i], value: Score::zero(), children: Vec::new() };
        let eval = minimax_rec(&mut child, player, !is_max, level + 1, a, b);
        if is_max && value.less(&eval) {
            value = eval;
        } else if !is_max && eval.less(&value) {
            value = eval;
        }
        child.value = eval;
        proof {
            assert(child.children@.skip(0) =~= child.children@);
            lemma_searched_at_the_root(
                child.game_state@,
                player,
                !is_max,
                level + 1,
                a@,
                b@,
                child.children@,
                eval@,
            );
            lemma_search_step(
                cells,
                player,
                is_max,
                level as int,
                a0,
                b0,
                visited,
                recorded_best(visited, is_max, visited.len()),
                own_bound(is_max, a@, b@),
                child,
                k,
            );
            assert(node.children@.push(child).skip(before.len() as int) =~= visited.push(child));
            lemma_searched_one_more(
                player,
                is_max,
                level as int,
                a0,
                b0,
                visited,
                child,
                (free_cells(cells) - 1) as nat,
            );
        }
        node.children.push(child);
        i += 1;
        if is_max {
            if a.less(&value) {
                a = value;
            }
            if !value.less(&b) {
                proof {
                    cut = true;
                }
                break ;
            }
        } else {
            if value.less(&b) {
                b = value;
            }
            if !a.less(&value) {
                proof {
                    cut = true;
                }
                break ;
            }
        }
    }
    proof {
        let visited = node.children@.skip(before.len() as int);
        if !cut {
            assert forall|k: int| 0 <= k < successors(cells).len() implies positions(
                visited,
            ).contains(#[trigger] successors(cells)[k]) by {
                assert(boards(children@).contains(successors(cells)[k]));
                let j = choose|j: int|
                    0 <= j < children@.len() && boards(children@)[j] == successors(cells)[k];
                assert(visited[j] == node.children@[before.len() + j]);
                assert(positions(visited)[j] == successors(cells)[k]);
            }
            lemma_search_complete(
                cells,
                player,
                is_max,
                level as int,
                a0,
                b0,
                visited,
                value@,
                own_bound(is_max, a@, b@),
            );
        }
        assert(positions(visited) =~= arranged(successors(cells), picks).take(visited.len() as int))
            by {
            assert forall|j: int| 0 <= j < visited.len() implies positions(visited)[j] == arranged(
                successors(cells),
                picks,
            )[j] by {
                assert(visited[j] == node.children@[before.len() + j]);
                assert(boards(children@)[j] == children@[j]@);
            }
        }
        lemma_searched_from_below(cells, player, is_max, level as int, a0, b0, visited, value@);
    }
    value
}

/// Picks the best move for the player whose turn it is.
///
/// There is none when the game is decided or drawn. Otherwise the move is to
/// a successor position whose value, to the mover, is that of the position
/// itself: no other move secures more against the best replies. Among
/// several such moves the first in the order of the search is taken, and
/// that order is left to chance.
#[verifier::loop_isolation(false)]
pub fn minimax(game_state: GameState) -> (best_move: Option<GameState>)
    ensures
        outcome(game_state@) is Some ==> best_move is None,
        outcome(game_state@) is None ==> best_move is Some && is_best_move(
            game_state@,
            best_move->0@,
        ),
{
    if check_winner(game_state).is_some() {
        return None;
    }
    let player = whos_turn(game_state);
    let mut node = Node { game_state, value: Score::zero(), children: Vec::new() };
    let best = minimax_rec(&mut node, player, true, 0, Score::lowest(), Score::highest());
    let ghost cells = game_state@;
    let ghost visited = node.children@;
    let ghost t = value(cells, player, true, 0);
    proof {
        assert(node.children@.skip(0) =~= visited);
        lemma_searched_at_the_root(cells, player, true, 0, lowest(), highest(), visited, best@);
        lemma_value_is_game_score(cells, player, true, 0);
        lemma_game_score_in_range(t, 0);
        lemma_game_score_in_range(best@, 0);
        lemma_order_total(lowest(), highest());
        lemma_order_total(lowest(), lowest());
        lemma_order_total(highest(), highest());
        assert(window(lowest(), highest()));
        assert(best@.eqv(t));
        lemma_recorded_best(visited, true, 1, visited.len());
    }
    let mut i: usize = 0;
    while i < node.children.len()
        invariant
            i <= node.children.len(),
            visited == node.children@,
            forall|j: int| 0 <= j < i ==> !(#[trigger] visited[j]).value@.eqv(best@),
        decreases node.children.len() - i,
    {
        if node.children[i].value.same(&best) {
            let next = node.children[i].game_state;
            proof {
                let v = visited[i as int].value@;
                let tv = node_value(visited, player, true, 0, i as int);
                lemma_game_score_in_range(v, 1);
                assert(successors(cells).contains(visited[i as int].game_state@));
                let k = choose|k: int|
                    0 <= k < successors(cells).len() && successors(cells)[k] == next@;
                lemma_successor(cells, k);
                lemma_value_is_game_score(next@, player, false, 1);
                lemma_game_score_in_range(tv, 1);
                assert forall|j: int| 0 <= j < i implies beats(
                    true,
                    v,
                    #[trigger] visited[j].value@,
                ) by {
                    let w = visited[j].value@;
                    lemma_game_score_in_range(w, 1);
                    lemma_sides(true, best@, w, best@);
                    lemma_sides(true, v, best@, w);
                    lemma_sides(true, best@, v, best@);
                }
                assert(leads(visited, true, lowest(), highest(), i as int));
                lemma_order_transitive(tv, v, best@);
                lemma_order_transitive(tv, best@, t);
                lemma_order_total(tv, v);
                assert(tv.eqv(t));
            }
            return Some(next);
        }
        i += 1;
    }
    proof {
        // The best score is on one of the nodes, so the loop has found it.
        let j = choose|j: int| 0 <= j < visited.len() && best@ == (#[trigger] visited[j]).value@;
        assert(visited[j].value@.eqv(best@));
        assert(false);
    }
    None
}

/// `next` is a best move from `cells`: a successor position whose value to
/// the mover, with the opponent to reply, is the value of `cells` itself.
pub open spec fn is_best_move(cells: Seq<i8>, next: Seq<i8>) -> bool {
    &&& successors(cells).contains(next)
    &&& value(next, mover(cells), false, 1).eqv(value(cells, mover(cells), true, 0))
}

/// No move secures more than a best move: to the mover, the value of any
/// successor position is at most that of the position a best move leads to.
pub proof fn lemma_best_move_is_optimal(cells: Seq<i8>, next: Seq<i8>, k: int)
    requires
        cells.len() == 9,
        is_best_move(cells, next),
        0 <= k < successors(cells).len(),
    ensures
        value(successors(cells)[k], mover(cells), false, 1).le(value(next, mover(cells), false, 1)),
{
    let player = mover(cells);
    let top = value(cells, player, true, 0);
    let j = choose|j: int| 0 <= j < successors(cells).len() && successors(cells)[j] == next;
    lemma_successor(cells, k);
    lemma_successor(cells, j);
    lemma_best_bounds(cells, player, true, 0, successors(cells).len());
    assert(no_worse(true, top, successor_value(cells, player, true, 0, k)));
    lemma_value_is_game_score(cells, player, true, 0);
    lemma_value_is_game_score(successors(cells)[k], player, false, 1);
    lemma_value_is_game_score(next, player, false, 1);
    lemma_game_score_in_range(top, 0);
    lemma_game_score_in_range(value(successors(cells)[k], player, false, 1), 1);
    lemma_game_score_in_range(value(next, player, false, 1), 1);
    lemma_order_total(value(next, player, false, 1), top);
    lemma_order_transitive(
        value(successors(cells)[k], player, false, 1),
        top,
        value(next, player, false, 1),
    );
}

/// A move that wins at once is preferred to every other: where some move
/// completes a line for the mover, every best move does.
pub proof fn lemma_immediate_win_is_taken(cells: Seq<i8>, next: Seq<i8>, k: int)
    requires
        cells.len() == 9,
        is_best_move(cells, next),
        0 <= k < successors(cells).len(),
        outcome(successors(cells)[k]) == Some(mover(cells)),
    ensures
        outcome(next) == Some(mover(cells)),
{
    let player = mover(cells);
    let win = value(successors(cells)[k], player, false, 1);
    let got = value(next, player, false, 1);
    let j = choose|j: int| 0 <= j < successors(cells).len() && successors(cells)[j] == next;
    lemma_successor(cells, j);
    lemma_best_move_is_optimal(cells, next, k);
    lemma_value_is_game_score(next, player, false, 1);
    assert(win == Rational { num: 1, den: 1 });
    assert(1 * got.den <= got.num * 1);
}

/// With a single cell left free in an open game, the best move is the mark
/// on that cell, whether it completes a line or not.
pub proof fn lemma_last_cell_is_the_best_move(cells: Seq<i8>, next: Seq<i8>, index: int)
    requires
        cells.len() == 9,
        0 <= index < 9,
        cells[index] == EMPTY,
        marks(cells) == 8,
        is_best_move(cells, next),
    ensures
        next == cells.update(index, mover(cells)),
{
    let j = choose|j: int| 0 <= j < successors(cells).len() && successors(cells)[j] == next;
    lemma_successor(cells, j);
    let i = choose|i: int|
        0 <= i < 9 && cells[i] == EMPTY && next == #[trigger] cells.update(i, mover(cells));
    if i != index {
        crate::board::lemma_marks_after_placing(cells, i, X);
        crate::board::lemma_marks_after_placing(cells.update(i, X), index, X);
    }
}

} // verus!
