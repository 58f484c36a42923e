//! The depth-limited minimax evaluation.

use vstd::prelude::*;
use crate::state::{Position, State, lemma_open_moves};

verus! {

/// Score of a finished game, seen from the side to move, which has lost.
pub open spec fn terminal_score(depth: int, maximizing: bool) -> int {
    if maximizing {
        -1001 + depth
    } else {
        1001 - depth
    }
}

/// The pessimistic placeholder for a position beyond the horizon, which
/// is also the starting point of the aggregation over the moves.
pub open spec fn horizon_score(maximizing: bool) -> int {
    if maximizing {
        -999
    } else {
        999
    }
}

/// The minimax score of `p` searched at `depth` out of `max_depth`; the
/// side to move maximizes when `maximizing` holds, and minimizes otherwise.
pub open spec fn value(p: Position, depth: int, max_depth: int, maximizing: bool) -> int
    decreases max_depth - depth, 1int, 0int,
{
    let d = depth + 1;
    if !p.live {
        terminal_score(d, maximizing)
    } else if d > max_depth {
        horizon_score(maximizing)
    } else {
        aggregate(p, p.actions(), d, max_depth, maximizing)
    }
}

/// The placeholder combined, by maximum or by minimum, with the scores of
/// the successors of `p` under each of `moves`.
pub open spec fn aggregate(
    p: Position,
    moves: Seq<u8>,
    d: int,
    max_depth: int,
    maximizing: bool,
) -> int
    decreases max_depth - d + 1, 0int, moves.len(),
{
    if moves.len() == 0 || d > max_depth {
        horizon_score(maximizing)
    } else {
        let rest = aggregate(p, moves.drop_last(), d, max_depth, maximizing);
        let v = value(p.successor(moves.last()), d, max_depth, !maximizing);
        if maximizing {
            if v > rest {
                v
            } else {
                rest
            }
        } else {
            if v < rest {
                v
            } else {
                rest
            }
        }
    }
}

/// Largest search depth whose scores fit in an `i32`.
pub const DEPTH_LIMIT: usize = 2147483646;

/// Score of `state` for the side that maximizes, which is to move.
pub fn max_value(state: &State, depth: usize, max_depth: usize) -> (r: i32)
    requires
        state@.wf(),
        depth <= DEPTH_LIMIT,
        max_depth <= DEPTH_LIMIT,
    ensures
        r == value(state@, depth as int, max_depth as int, true),
    decreases max_depth - depth,
{
    search(state, depth, max_depth, true)
}

/// Score of `state` for the side that minimizes, which is to move.
pub fn min_value(state: &State, depth: usize, max_depth: usize) -> (r: i32)
    requires
        state@.wf(),
        depth <= DEPTH_LIMIT,
        max_depth <= DEPTH_LIMIT,
    ensures
        r == value(state@, depth as int, max_depth as int, false),
    decreases max_depth - depth,
{
    search(state, depth, max_depth, false)
}

fn search(state: &State, depth: usize, max_depth: usize, maximizing: bool) -> (r: i32)
    requires
        state@.wf(),
        depth <= DEPTH_LIMIT,
        max_depth <= DEPTH_LIMIT,
    ensures
        r == value(state@, depth as int, max_depth as int, maximizing),
    decreases max_depth - depth,
{
    let d = depth + 1;
    if !state.is_live() {
        return if maximizing {
            -1001 + d as i32
        } else {
            1001 - d as i32
        };
    }
    let mut best: i32 = if maximizing {
        -999
    } else {
        999
    };
    if d > max_depth {
        return best;
    }
    let moves = state.actions();
    proof {
        lemma_open_moves(state.height@, 7);
    }
    let mut i: usize = 0;
    while i < moves.len()
        invariant
            i <= moves@.len(),
            moves@ == state@.actions(),
            state@.wf(),
            d == depth + 1,
            d <= max_depth <= DEPTH_LIMIT,
            best == aggregate(state@, moves@.take(i as int), d as int, max_depth as int, maximizing),
        decreases moves@.len() - i,
    {
        let m = moves[i];
        assert(moves@.contains(m)) by {
            assert(moves@[i as int] == m);
        }
        let next = state.result(m);
        let v = search(&next, d, max_depth, !maximizing);
        assert(moves@.take(i + 1).drop_last() =~= moves@.take(i as int));
        if maximizing {
            if v > best {
                best = v;
            }
        } else {
            if v < best {
                best = v;
            }
        }
        i = i + 1;
    }
    assert(moves@.take(moves@.len() as int) =~= moves@);
    best
}

} // verus!
