//! The ways of choosing a move (typed in, uniformly random, minimax with a
//! random choice among the best moves) and one turn of play.

use vstd::prelude::*;
use itertools::Itertools;
use rand::Rng;
use rayon::iter::{IntoParallelRefIterator, ParallelIterator};
use crate::board::Move;
use crate::search::{value, min_value, DEPTH_LIMIT};
use crate::state::{Position, State, Strategy, lemma_open_moves};

verus! {

/// The scores of a list of `i32` values as integers.
pub open spec fn as_ints(v: Seq<i32>) -> Seq<int> {
    v.map_values(|x: i32| x as int)
}

/// The score of each legal move of `p`, searched with horizon `level`:
/// the successor is scored with the opponent to move.
pub open spec fn root_values(p: Position, level: int) -> Seq<int> {
    p.actions().map_values(|m: u8| value(p.successor(m), 0, level, false))
}

/// The largest element of a non-empty sequence.
pub open spec fn seq_max(v: Seq<int>) -> int
    decreases v.len(),
{
    if v.len() <= 1 {
        v[0]
    } else {
        let rest = seq_max(v.drop_last());
        if v.last() > rest {
            v.last()
        } else {
            rest
        }
    }
}

/// The moves among the first `n` of `moves` whose score is `best`, in order.
pub open spec fn top_moves(moves: Seq<u8>, scores: Seq<int>, best: int, n: int) -> Seq<u8>
    decreases n,
{
    if n <= 0 {
        Seq::empty()
    } else {
        let prev = top_moves(moves, scores, best, n - 1);
        if scores[n - 1] == best {
            prev.push(moves[n - 1])
        } else {
            prev
        }
    }
}

/// `m` is one of the first `n` of `moves` with the score `best`.
pub open spec fn scored(moves: Seq<u8>, scores: Seq<int>, best: int, n: int, m: u8) -> bool {
    exists|k: int| 0 <= k < n && moves[k] == m && scores[k] == best
}

/// The moves of `moves` that reach the highest of `scores`, in order.
pub open spec fn best_of(moves: Seq<u8>, scores: Seq<int>) -> Seq<u8> {
    top_moves(moves, scores, seq_max(scores), moves.len() as int)
}

/// The legal moves of `p` with the highest minimax score at horizon `level`.
pub open spec fn best_moves(p: Position, level: int) -> Seq<u8> {
    best_of(p.actions(), root_values(p, level))
}

/// The best move that the draw `draw` selects.
pub open spec fn minimax_pick(p: Position, level: int, draw: int) -> u8 {
    best_moves(p, level)[draw % (best_moves(p, level).len() as int)]
}

/// The maximum bounds every element and is one of them.
pub proof fn lemma_seq_max(v: Seq<int>)
    requires
        v.len() > 0,
    ensures
        forall|k: int| 0 <= k < v.len() ==> #[trigger] v[k] <= seq_max(v),
        exists|k: int| 0 <= k < v.len() && v[k] == seq_max(v),
    decreases v.len(),
{
    if v.len() > 1 {
        lemma_seq_max(v.drop_last());
        let k = choose|k: int| 0 <= k < v.drop_last().len() && v.drop_last()[k] == seq_max(v.drop_last());
        assert(v[k] == v.drop_last()[k]);
        assert forall|j: int| 0 <= j < v.len() implies #[trigger] v[j] <= seq_max(v) by {
            if j < v.len() - 1 {
                assert(v[j] == v.drop_last()[j]);
            }
        }
        if v.last() > seq_max(v.drop_last()) {
            assert(v[v.len() - 1] == seq_max(v));
        } else {
            assert(v[k] == seq_max(v));
        }
    } else {
        assert(v[0] == seq_max(v));
    }
}

/// `top_moves` keeps exactly the moves whose score is `best`.
pub proof fn lemma_top_moves(moves: Seq<u8>, scores: Seq<int>, best: int, n: int)
    requires
        0 <= n <= moves.len(),
        n <= scores.len(),
    ensures
        forall|x: int|
            0 <= x < top_moves(moves, scores, best, n).len() ==> scored(
                moves,
                scores,
                best,
                n,
                #[trigger] top_moves(moves, scores, best, n)[x],
            ),
        forall|k: int|
            0 <= k < n && #[trigger] scores[k] == best ==> top_moves(moves, scores, best, n).contains(
                moves[k],
            ),
    decreases n,
{
    if n > 0 {
        lemma_top_moves(moves, scores, best, n - 1);
        let prev = top_moves(moves, scores, best, n - 1);
        let cur = top_moves(moves, scores, best, n);
        assert forall|x: int| 0 <= x < cur.len() implies scored(moves, scores, best, n, #[trigger] cur[x]) by {
            if x < prev.len() {
                assert(cur[x] == prev[x]);
                assert(scored(moves, scores, best, n - 1, prev[x]));
                let k = choose|k: int|
                    0 <= k < n - 1 && moves[k] == prev[x] && scores[k] == best;
                assert(0 <= k < n && moves[k] == cur[x] && scores[k] == best);
            } else {
                assert(cur[x] == moves[n - 1]);
                assert(0 <= n - 1 < n && moves[n - 1] == cur[x] && scores[n - 1] == best);
            }
        }
        assert forall|k: int| 0 <= k < n && #[trigger] scores[k] == best implies cur.contains(
            moves[k],
        ) by {
            if k < n - 1 {
                let x = choose|x: int| 0 <= x < prev.len() && prev[x] == moves[k];
                assert(cur[x] == prev[x]);
            } else {
                assert(cur[prev.len() as int] == moves[k]);
            }
        }
    }
}

/// Score of playing `m` in `state`: the successor searched with the
/// opponent to move.
pub fn root_value(state: &State, m: Move, level: usize) -> (r: i32)
    requires
        state@.wf(),
        state@.actions().contains(m),
        level <= DEPTH_LIMIT,
    ensures
        r == value(state@.successor(m), 0, level as int, false),
{
    let next = state.result(m);
    min_value(&next, 0, level)
}

/// Relies on rayon's `par_iter().map(..).collect()` into a `Vec`: one result
/// per element, in the order of the elements, each `root_value` of it.
#[verifier::external_body]
fn evaluate_in_parallel(state: &State, moves: &Vec<Move>, level: usize) -> (r: Vec<i32>)
    requires
        state@.wf(),
        forall|k: int| 0 <= k < moves@.len() ==> state@.actions().contains(#[trigger] moves@[k]),
        level <= DEPTH_LIMIT,
    ensures
        r@.len() == moves@.len(),
        forall|k: int|
            0 <= k < moves@.len() ==> #[trigger] r@[k] == value(
                state@.successor(moves@[k]),
                0,
                level as int,
                false,
            ),
{
    moves.par_iter().map(|m| root_value(state, *m, level)).collect()
}

/// Relies on itertools' `position_max`: the position of the largest
/// element, the last one among equals, and `None` when there is no element.
#[verifier::external_body]
fn last_position_of_max(v: &Vec<i32>) -> (r: Option<usize>)
    ensures
        r is None <==> v@.len() == 0,
        r matches Some(k) ==> ({
            &&& k < v@.len()
            &&& forall|j: int| 0 <= j < v@.len() ==> #[trigger] v@[j] <= v@[k as int]
            &&& forall|j: int| k < j < v@.len() ==> #[trigger] v@[j] < v@[k as int]
        }),
{
    v.iter().position_max()
}

/// Relies on rand's `thread_rng().gen_range(0..n)`: a number below `n`.
#[verifier::external_body]
fn random_below(n: usize) -> (r: usize)
    requires
        n > 0,
    ensures
        r < n,
{
    rand::thread_rng().gen_range(0..n)
}

/// The score of each legal move, in the order of `State::actions`.
pub fn evaluate_actions(state: &State, level: usize) -> (r: Vec<i32>)
    requires
        state@.wf(),
        level <= DEPTH_LIMIT,
    ensures
        as_ints(r@) == root_values(state@, level as int),
        r@.len() == state@.actions().len(),
{
    let moves = state.actions();
    let values = evaluate_in_parallel(state, &moves, level);
    assert(as_ints(values@) =~= root_values(state@, level as int));
    values
}

/// The moves whose score is the highest, in their order; `scores[k]` is
/// the score of `moves[k]`.
pub fn best_among(moves: &Vec<Move>, scores: &Vec<i32>) -> (r: Vec<Move>)
    requires
        moves@.len() == scores@.len(),
        moves@.len() > 0,
    ensures
        r@ == best_of(moves@, as_ints(scores@)),
        r@.len() > 0,
{
    let ghost ints = as_ints(scores@);
    let mut best: i32 = scores[0];
    let mut i: usize = 1;
    assert(ints.take(1).len() == 1);
    while i < scores.len()
        invariant
            1 <= i <= scores@.len(),
            ints == as_ints(scores@),
            best == seq_max(ints.take(i as int)),
        decreases scores@.len() - i,
    {
        assert(ints.take(i + 1).drop_last() =~= ints.take(i as int));
        if scores[i] > best {
            best = scores[i];
        }
        i = i + 1;
    }
    assert(ints.take(scores@.len() as int) =~= ints);
    let mut r: Vec<Move> = Vec::new();
    let mut j: usize = 0;
    while j < moves.len()
        invariant
            j <= moves@.len(),
            moves@.len() == scores@.len(),
            ints == as_ints(scores@),
            best == seq_max(ints),
            r@ == top_moves(moves@, ints, best as int, j as int),
        decreases moves@.len() - j,
    {
        if scores[j] == best {
            r.push(moves[j]);
        }
        j = j + 1;
    }
    proof {
        lemma_seq_max(ints);
        lemma_top_moves(moves@, ints, best as int, moves@.len() as int);
        let k = choose|k: int| 0 <= k < ints.len() && ints[k] == seq_max(ints);
        assert(r@.contains(moves@[k]));
    }
    r
}

/// The legal moves with the highest minimax score at horizon `level`.
pub fn minimax_candidates(state: &State, level: usize) -> (r: Vec<Move>)
    requires
        state@.wf(),
        state@.actions().len() > 0,
        level <= DEPTH_LIMIT,
    ensures
        r@ == best_moves(state@, level as int),
        r@.len() > 0,
{
    let moves = state.actions();
    let values = evaluate_actions(state, level);
    best_among(&moves, &values)
}

/// The minimax move that the draw `draw` selects among the best ones.
pub fn minimax_move_with(state: &State, level: usize, draw: usize) -> (r: Move)
    requires
        state@.wf(),
        state@.actions().len() > 0,
        level <= DEPTH_LIMIT,
    ensures
        r == minimax_pick(state@, level as int, draw as int),
{
    let best = minimax_candidates(state, level);
    best[draw % best.len()]
}

/// A best minimax move at horizon `level`, chosen at random among the
/// moves that share the highest score.
pub fn minimax_strategy(state: &State, level: usize) -> (r: Move)
    requires
        state@.wf(),
        state@.actions().len() > 0,
        level <= DEPTH_LIMIT,
    ensures
        best_moves(state@, level as int).contains(r),
        state@.actions().contains(r),
{
    let best = minimax_candidates(state, level);
    let i = random_below(best.len());
    proof {
        lemma_best_moves_legal(state@, level as int);
        assert(best@.contains(best@[i as int]));
    }
    best[i]
}

/// Horizon of the search of `minimax_strategy1`.
pub const SHORT_HORIZON: usize = 2;

/// The minimax move at horizon two, without a random choice: the last of
/// the legal moves that share the highest score.
pub fn minimax_strategy1(state: &State) -> (r: Move)
    requires
        state@.wf(),
        state@.actions().len() > 0,
    ensures
        r == best_moves(state@, SHORT_HORIZON as int).last(),
        best_moves(state@, SHORT_HORIZON as int).contains(r),
{
    let moves = state.actions();
    let values = evaluate_actions(state, SHORT_HORIZON);
    let k = last_position_of_max(&values).unwrap();
    proof {
        let ints = as_ints(values@);
        lemma_seq_max(ints);
        let k0 = choose|j: int| 0 <= j < ints.len() && ints[j] == seq_max(ints);
        assert(ints[k as int] >= ints[k0]);
        assert(values@[k as int] <= values@[k0]);
        assert forall|j: int| k < j < moves@.len() implies #[trigger] ints[j] != seq_max(ints) by {
            assert(values@[j] < values@[k as int]);
        }
        lemma_last_top(moves@, ints, seq_max(ints), k as int, moves@.len() as int);
        let b = best_moves(state@, SHORT_HORIZON as int);
        assert(b[b.len() - 1] == moves@[k as int]);
    }
    moves[k]
}

/// The last move kept by `top_moves` is the one at the last position with
/// the score `best`.
proof fn lemma_last_top(moves: Seq<u8>, scores: Seq<int>, best: int, k: int, n: int)
    requires
        0 <= k < n <= moves.len(),
        n <= scores.len(),
        scores[k] == best,
        forall|j: int| k < j < n ==> #[trigger] scores[j] != best,
    ensures
        top_moves(moves, scores, best, n).len() > 0,
        top_moves(moves, scores, best, n).last() == moves[k],
    decreases n,
{
    if n > k + 1 {
        assert(scores[n - 1] != best);
        lemma_last_top(moves, scores, best, k, n - 1);
    }
}

/// A legal move drawn uniformly at random.
pub fn random_strategy(state: &State) -> (r: Move)
    requires
        state@.wf(),
        state@.actions().len() > 0,
    ensures
        state@.actions().contains(r),
{
    let moves = state.actions();
    let i = random_below(moves.len());
    assert(moves@.contains(moves@[i as int]));
    moves[i]
}

/// The move that lands in the typed-in column `column` (counted from 1),
/// if that column exists and has room and the game goes on.
pub open spec fn manual_choice(p: Position, column: usize) -> Option<u8> {
    if p.live && 1 <= column <= 7 && p.heights[column - 1] < 6 {
        Some(((column - 1) * 6 + p.heights[column - 1]) as u8)
    } else {
        None
    }
}

/// The move that lands in the typed-in column `column` (counted from 1),
/// if that column exists and has room and the game goes on.
pub fn manual_move(state: &State, column: usize) -> (r: Option<Move>)
    requires
        state@.wf(),
    ensures
        r == manual_choice(state@, column),
        r matches Some(m) ==> state@.actions().contains(m),
{
    proof {
        lemma_open_moves(state.height@, 7);
    }
    if !state.is_live() || column < 1 || column > 7 {
        return None;
    }
    let h = state.height[column - 1];
    if h >= 6 {
        return None;
    }
    Some((column as u8 - 1) * 6 + h)
}

/// Each best move is legal.
pub proof fn lemma_best_moves_legal(p: Position, level: int)
    requires
        p.wf(),
    ensures
        forall|x: int|
            0 <= x < best_moves(p, level).len() ==> p.actions().contains(
                #[trigger] best_moves(p, level)[x],
            ),
{
    let vals = root_values(p, level);
    lemma_top_moves(p.actions(), vals, seq_max(vals), p.actions().len() as int);
    assert forall|x: int| 0 <= x < best_moves(p, level).len() implies p.actions().contains(
        #[trigger] best_moves(p, level)[x],
    ) by {
        assert(scored(p.actions(), vals, seq_max(vals), p.actions().len() as int, best_moves(p, level)[x]));
        let k = choose|k: int|
            0 <= k < p.actions().len() && p.actions()[k] == best_moves(p, level)[x] && vals[k]
                == seq_max(vals);
        assert(p.actions()[k] == best_moves(p, level)[x]);
    }
}

/// One turn: the player to move chooses by its strategy and the state
/// after that move is returned. A player who types in moves needs a
/// `column`; where there is none, or it names no legal move, nothing is
/// played and the caller asks again.
pub fn play(current: &State, column: Option<usize>) -> (r: Option<State>)
    requires
        current@.wf(),
        current@.actions().len() > 0,
        current.mover_strategy() matches Strategy::Minimax(level) ==> level <= DEPTH_LIMIT,
    ensures
        r matches Some(next) ==> {
            &&& next@.wf()
            &&& next.player1 == current.player1
            &&& next.player2 == current.player2
        },
        current.mover_strategy() == Strategy::Manual ==> match column {
            Some(c) => match manual_choice(current@, c) {
                Some(m) => (r matches Some(next) && next@ == current@.successor(m)),
                None => r is None,
            },
            None => r is None,
        },
        current.mover_strategy() == Strategy::UniformRandom ==> (r matches Some(next) && exists|
            m: u8,
        |
            current@.actions().contains(m) && next@ == #[trigger] current@.successor(m)),
        current.mover_strategy() matches Strategy::Minimax(level) ==> (r matches Some(next)
            && exists|m: u8|
            best_moves(current@, level as int).contains(m) && next@ == #[trigger] current@.successor(
                m,
            )),
{
    let strategy = if current.moves_player1.len() == current.moves_player2.len() {
        current.player1.strategy
    } else {
        current.player2.strategy
    };
    let m = match strategy {
        Strategy::Manual => {
            match column {
                Some(c) => match manual_move(current, c) {
                    Some(m) => m,
                    None => {
                        return None;
                    },
                },
                None => {
                    return None;
                },
            }
        },
        Strategy::UniformRandom => random_strategy(current),
        Strategy::Minimax(level) => minimax_strategy(current, level),
    };
    Some(current.result(m))
}

/// At horizon zero no move is searched beyond the reply: a move that wins
/// at once scores 1000, and every other move the placeholder 999.
pub proof fn lemma_level_zero(p: Position, m: u8)
    requires
        p.wf(),
        p.actions().contains(m),
    ensures
        value(p.successor(m), 0, 0, false) == if p.successor(m).live {
            999int
        } else {
            1000int
        },
{
}

/// The minimax choice depends on the position and the draw alone, and
/// whatever the draw, it is a legal move whose score is the highest: no
/// other legal move scores more.
pub proof fn lemma_minimax_pick(p: Position, q: Position, level: int, draw: int, other: int)
    requires
        p.wf(),
        p.actions().len() > 0,
        p == q,
        draw >= 0,
        other >= 0,
    ensures
        minimax_pick(p, level, draw) == minimax_pick(q, level, draw),
        best_moves(p, level).contains(minimax_pick(p, level, other)),
        exists|k: int|
            0 <= k < p.actions().len() && p.actions()[k] == minimax_pick(p, level, other) && forall|
                j: int,
            |
                0 <= j < p.actions().len() ==> #[trigger] root_values(p, level)[j] <= root_values(
                    p,
                    level,
                )[k],
{
    let vals = root_values(p, level);
    let moves = p.actions();
    lemma_seq_max(vals);
    lemma_top_moves(moves, vals, seq_max(vals), moves.len() as int);
    let k0 = choose|k: int| 0 <= k < vals.len() && vals[k] == seq_max(vals);
    assert(best_moves(p, level).contains(moves[k0]));
    let best = best_moves(p, level);
    let x = other % (best.len() as int);
    assert(0 <= x < best.len());
    assert(best[x] == minimax_pick(p, level, other));
    assert(scored(moves, vals, seq_max(vals), moves.len() as int, best[x]));
    let k = choose|k: int| 0 <= k < moves.len() && moves[k] == best[x] && vals[k] == seq_max(vals);
    assert(moves[k] == minimax_pick(p, level, other));
}

} // verus!
