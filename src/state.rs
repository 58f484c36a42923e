//! The game state: both players, their move histories, the column heights,
//! legal-move generation, win detection and the transition on one move.

use vstd::prelude::*;
use vstd::relations::{sorted_by, total_ordering};
use itertools::Itertools;
use crate::board::{Move, column_of, row_of, winning_quad, is_winning_position};

verus! {

/// Whether the game goes on or has been won.
#[derive(PartialEq, Eq, Structural, Clone, Copy, Debug)]
pub enum StateKind {
    Final,
    Live,
}

/// How a player chooses its moves.
#[derive(PartialEq, Eq, Structural, Clone, Copy, Debug)]
pub enum Strategy {
    /// A column typed in by a person.
    Manual,
    /// A legal move drawn uniformly at random.
    UniformRandom,
    /// The minimax search with the given horizon.
    Minimax(usize),
}

/// A named participant and the way it picks moves.
#[derive(Debug)]
pub struct Player {
    pub name: String,
    pub strategy: Strategy,
}

impl Clone for Player {
    fn clone(&self) -> (r: Self)
        ensures
            r == *self,
    {
        Player { name: self.name.clone(), strategy: self.strategy }
    }
}

/// One snapshot of a game.
#[derive(Debug)]
pub struct State {
    pub kind: StateKind,
    pub player1: Player,
    pub player2: Player,
    pub moves_player1: Vec<Move>,
    pub moves_player2: Vec<Move>,
    pub height: [u8; 7],
}

/// The mathematical content of a state: whether it is live, both move
/// histories in the order played, and the seven column heights.
pub struct Position {
    pub live: bool,
    pub moves1: Seq<u8>,
    pub moves2: Seq<u8>,
    pub heights: Seq<u8>,
}

/// Number of moves of `s` that fall in column `c`.
pub open spec fn column_count(s: Seq<u8>, c: int) -> nat
    decreases s.len(),
{
    if s.len() == 0 {
        0
    } else {
        column_count(s.drop_last(), c) + if column_of(s.last() as int) == c {
            1nat
        } else {
            0nat
        }
    }
}

/// Moves of the columns `0..n` that still have room, in column order.
pub open spec fn open_moves(heights: Seq<u8>, n: int) -> Seq<u8>
    decreases n,
{
    if n <= 0 {
        Seq::empty()
    } else {
        let prev = open_moves(heights, n - 1);
        if heights[n - 1] < 6 {
            prev.push(((n - 1) * 6 + heights[n - 1]) as u8)
        } else {
            prev
        }
    }
}

/// The elements at positions `i`, `j` and `k`.
pub open spec fn triple_at(s: Seq<u8>, i: int, j: int, k: int) -> Seq<u8> {
    seq![s[i], s[j], s[k]]
}

/// `t` is the triple of elements of `v` at some increasing positions.
pub open spec fn is_triple_of(t: Seq<u8>, v: Seq<u8>) -> bool {
    exists|i: int, j: int, k: int| 0 <= i < j < k < v.len() && t == triple_at(v, i, j, k)
}

/// `t` is one of the sequences held in `r`.
pub open spec fn listed(r: Seq<Vec<u8>>, t: Seq<u8>) -> bool {
    exists|x: int| 0 <= x < r.len() && r[x]@ == t
}

/// Ascending order on moves.
pub open spec fn move_leq() -> spec_fn(u8, u8) -> bool {
    |a: u8, b: u8| a <= b
}

/// A sequence of moves in ascending order.
pub open spec fn ascending(s: Seq<u8>) -> bool {
    sorted_by(s, move_leq())
}

/// Four positions, once sorted ascending, make four in a row.
pub open spec fn quad_wins(q: Seq<u8>) -> bool {
    exists|s: Seq<u8>|
        #![trigger s.to_multiset()]
        s.len() == 4 && ascending(s) && s.to_multiset() == q.to_multiset() && winning_quad(
            s[0] as int,
            s[1] as int,
            s[2] as int,
            s[3] as int,
        )
}

/// Three earlier moves of a player, taken at increasing positions of its
/// history, complete four in a row together with `m`.
pub open spec fn completes_line(prior: Seq<u8>, m: u8) -> bool {
    exists|i: int, j: int, k: int|
        0 <= i < j < k < prior.len() && quad_wins(#[trigger] triple_at(prior, i, j, k).push(m))
}

impl Position {
    /// Player one moves when both histories have the same length.
    pub open spec fn first_to_move(self) -> bool {
        self.moves1.len() == self.moves2.len()
    }

    /// The history of the player about to move.
    pub open spec fn mover_moves(self) -> Seq<u8> {
        if self.first_to_move() {
            self.moves1
        } else {
            self.moves2
        }
    }

    /// Seven columns of at most six discs, each as high as the number of
    /// recorded moves into it, and player one never behind nor more than
    /// one move ahead.
    pub open spec fn wf(self) -> bool {
        &&& self.heights.len() == 7
        &&& forall|c: int| 0 <= c < 7 ==> #[trigger] self.heights[c] <= 6
        &&& forall|c: int|
            0 <= c < 7 ==> #[trigger] self.heights[c] == column_count(self.moves1, c)
                + column_count(self.moves2, c)
        &&& (self.moves1.len() == self.moves2.len() || self.moves1.len() == self.moves2.len() + 1)
    }

    /// The legal moves: none once the game is won, else one per column with
    /// room, in column order.
    pub open spec fn actions(self) -> Seq<u8> {
        if self.live {
            open_moves(self.heights, 7)
        } else {
            Seq::empty()
        }
    }

    /// Every column is full.
    pub open spec fn full(self) -> bool {
        forall|c: int| 0 <= c < 7 ==> #[trigger] self.heights[c] == 6
    }

    /// The position after the player to move plays `m`.
    pub open spec fn successor(self, m: u8) -> Position {
        let c = column_of(m as int);
        Position {
            live: !completes_line(self.mover_moves(), m),
            moves1: if self.first_to_move() {
                self.moves1.push(m)
            } else {
                self.moves1
            },
            moves2: if self.first_to_move() {
                self.moves2
            } else {
                self.moves2.push(m)
            },
            heights: self.heights.update(c, (self.heights[c] + 1) as u8),
        }
    }
}

impl State {
    /// The strategy of the player about to move.
    pub open spec fn mover_strategy(&self) -> Strategy {
        if self@.first_to_move() {
            self.player1.strategy
        } else {
            self.player2.strategy
        }
    }
}

impl View for State {
    type V = Position;

    open spec fn view(&self) -> Position {
        Position {
            live: self.kind == StateKind::Live,
            moves1: self.moves_player1@,
            moves2: self.moves_player2@,
            heights: self.height@,
        }
    }
}

/// Each move of `open_moves(heights, n)` is the landing slot of a column
/// below `n` with room; the columns ascend; every such column has its move.
pub proof fn lemma_open_moves(heights: Seq<u8>, n: int)
    requires
        0 <= n <= 7,
        heights.len() == 7,
        forall|c: int| 0 <= c < 7 ==> #[trigger] heights[c] <= 6,
    ensures
        open_moves(heights, n).len() <= n,
        forall|k: int|
            #![trigger open_moves(heights, n)[k]]
            0 <= k < open_moves(heights, n).len() ==> {
                let m = open_moves(heights, n)[k] as int;
                let c = column_of(m);
                &&& 0 <= c < n
                &&& heights[c] < 6
                &&& row_of(m) == heights[c]
                &&& m == c * 6 + heights[c]
            },
        forall|k1: int, k2: int|
            #![trigger open_moves(heights, n)[k1], open_moves(heights, n)[k2]]
            0 <= k1 < k2 < open_moves(heights, n).len() ==> open_moves(heights, n)[k1]
                < open_moves(heights, n)[k2],
        forall|c: int|
            0 <= c < n && #[trigger] heights[c] < 6 ==> open_moves(heights, n).contains(
                (c * 6 + heights[c]) as u8,
            ),
    decreases n,
{
    if n > 0 {
        lemma_open_moves(heights, n - 1);
        let prev = open_moves(heights, n - 1);
        if heights[n - 1] < 6 {
            let m = (n - 1) * 6 + heights[n - 1];
            assert(column_of(m) == n - 1);
            assert(row_of(m) == heights[n - 1]);
            assert forall|c: int| 0 <= c < n && #[trigger] heights[c] < 6 implies open_moves(
                heights,
                n,
            ).contains((c * 6 + heights[c]) as u8) by {
                if c < n - 1 {
                    let k = choose|k: int| 0 <= k < prev.len() && prev[k] == (c * 6 + heights[c]) as u8;
                    assert(open_moves(heights, n)[k] == prev[k]);
                } else {
                    assert(open_moves(heights, n)[prev.len() as int] == m as u8);
                }
            }
        } else {
            assert forall|c: int| 0 <= c < n && #[trigger] heights[c] < 6 implies open_moves(
                heights,
                n,
            ).contains((c * 6 + heights[c]) as u8) by {
                assert(c < n - 1);
            }
        }
    }
}

/// Relies on itertools' `combinations(3)`: it yields the elements found at
/// each triple of increasing positions `i < j < k`, once each, and nothing else.
#[verifier::external_body]
fn triples(v: &Vec<Move>) -> (r: Vec<Vec<Move>>)
    ensures
        forall|x: int| 0 <= x < r@.len() ==> is_triple_of(#[trigger] r@[x]@, v@),
        forall|i: int, j: int, k: int|
            0 <= i < j < k < v@.len() ==> listed(r@, #[trigger] triple_at(v@, i, j, k)),
{
    v.iter().copied().combinations(3).collect()
}

/// Relies on std's `slice::sort`: the same elements, in ascending order.
#[verifier::external_body]
fn sort_moves(v: &mut Vec<Move>)
    ensures
        final(v)@.len() == old(v)@.len(),
        ascending(final(v)@),
        final(v)@.to_multiset() == old(v)@.to_multiset(),
{
    v.sort();
}

/// The order on moves is total.
proof fn lemma_move_leq_total()
    ensures
        total_ordering(move_leq()),
{
}

impl State {
    /// The legal moves, in column order.
    pub fn actions(&self) -> (r: Vec<Move>)
        requires
            self@.wf(),
        ensures
            r@ == self@.actions(),
            r@.len() <= 7,
            forall|k: int|
                #![trigger r@[k]]
                0 <= k < r@.len() ==> {
                    let c = column_of(r@[k] as int);
                    &&& 0 <= c < 7
                    &&& self.height@[c] < 6
                    &&& row_of(r@[k] as int) == self.height@[c]
                },
            forall|k1: int, k2: int|
                #![trigger r@[k1], r@[k2]]
                0 <= k1 < k2 < r@.len() ==> r@[k1] < r@[k2],
            self.kind == StateKind::Live ==> forall|c: int|
                0 <= c < 7 && #[trigger] self.height@[c] < 6 ==> r@.contains(
                    (c * 6 + self.height@[c]) as u8,
                ),
    {
        proof {
            lemma_open_moves(self.height@, 7);
        }
        match self.kind {
            StateKind::Live => {
                let mut hs: Vec<Move> = Vec::new();
                let mut i: u8 = 0;
                while i < 7
                    invariant
                        0 <= i <= 7,
                        self@.wf(),
                        hs@ == open_moves(self.height@, i as int),
                    decreases 7 - i,
                {
                    if self.height[i as usize] < 6 {
                        hs.push(i * 6 + self.height[i as usize]);
                    }
                    i = i + 1;
                }
                hs
            },
            StateKind::Final => Vec::new(),
        }
    }

    /// Whether `m`, played by the player to move, completes four in a row
    /// with three of that player's earlier moves.
    pub fn is_winning_move(&self, m: Move) -> (r: bool)
        ensures
            r == completes_line(self@.mover_moves(), m),
    {
        let moves = if self.moves_player1.len() == self.moves_player2.len() {
            &self.moves_player1
        } else {
            &self.moves_player2
        };
        let ghost prior = moves@;
        if moves.len() < 3 {
            return false;
        }
        let combinations = triples(moves);
        proof {
            lemma_move_leq_total();
        }
        let mut p: usize = 0;
        while p < combinations.len()
            invariant
                p <= combinations@.len(),
                prior == self@.mover_moves(),
                forall|x: int|
                    0 <= x < combinations@.len() ==> is_triple_of(#[trigger] combinations@[x]@, prior),
                forall|i: int, j: int, k: int|
                    0 <= i < j < k < prior.len() ==> listed(combinations@, #[trigger] triple_at(prior, i, j, k)),
                forall|q: int|
                    0 <= q < p ==> !quad_wins(#[trigger] combinations@[q]@.push(m)),
                total_ordering(move_leq()),
            decreases combinations@.len() - p,
        {
            let t = &combinations[p];
            assert(t@.len() == 3);
            let mut ms: Vec<Move> = vec![t[0], t[1], t[2], m];
            assert(ms@ =~= t@.push(m));
            let ghost before = ms@;
            sort_moves(&mut ms);
            assert(move_leq()(ms@[0], ms@[1]));
            assert(move_leq()(ms@[1], ms@[2]));
            assert(move_leq()(ms@[2], ms@[3]));
            if is_winning_position(ms[0], ms[1], ms[2], ms[3]) {
                proof {
                    assert(quad_wins(before));
                    assert(is_triple_of(combinations@[p as int]@, prior));
                    let (i, j, k) = choose|i: int, j: int, k: int|
                        0 <= i < j < k < prior.len() && combinations@[p as int]@ == triple_at(prior, i, j, k);
                    assert(quad_wins(triple_at(prior, i, j, k).push(m)));
                }
                return true;
            }
            proof {
                assert forall|s: Seq<u8>|
                    s.len() == 4 && ascending(s) && s.to_multiset()
                        == before.to_multiset() implies !winning_quad(
                    s[0] as int,
                    s[1] as int,
                    s[2] as int,
                    s[3] as int,
                ) by {
                    vstd::seq_lib::lemma_sorted_unique(s, ms@, move_leq());
                }
            }
            p = p + 1;
        }
        proof {
            assert forall|i: int, j: int, k: int|
                0 <= i < j < k < prior.len() implies !quad_wins(
                #[trigger] triple_at(prior, i, j, k).push(m),
            ) by {
                assert(listed(combinations@, triple_at(prior, i, j, k)));
                let q = choose|q: int|
                    0 <= q < combinations@.len() && combinations@[q]@ == triple_at(prior, i, j, k);
                assert(!quad_wins(combinations@[q]@.push(m)));
            }
        }
        false
    }

    /// The game goes on.
    pub fn is_live(&self) -> (r: bool)
        ensures
            r == self@.live,
    {
        self.kind == StateKind::Live
    }

    /// A fresh game: no moves, empty columns, live.
    pub fn new(player1: Player, player2: Player) -> (r: State)
        ensures
            r@.live,
            r@.moves1.len() == 0,
            r@.moves2.len() == 0,
            r@.heights == seq![0u8, 0u8, 0u8, 0u8, 0u8, 0u8, 0u8],
            r@.wf(),
            r.player1 == player1,
            r.player2 == player2,
    {
        let r = State {
            kind: StateKind::Live,
            player1,
            player2,
            moves_player1: Vec::new(),
            moves_player2: Vec::new(),
            height: [0u8; 7],
        };
        assert(r.height@ =~= seq![0u8, 0u8, 0u8, 0u8, 0u8, 0u8, 0u8]);
        assert(forall|c: int| 0 <= c < 7 ==> #[trigger] r@.heights[c] == column_count(r@.moves1, c)
            + column_count(r@.moves2, c));
        r
    }

    /// The state after the player to move plays the legal move `m`.
    pub fn result(&self, m: Move) -> (r: State)
        requires
            self@.wf(),
            self@.actions().contains(m),
        ensures
            r@ == self@.successor(m),
            r@.wf(),
            r.player1 == self.player1,
            r.player2 == self.player2,
    {
        proof {
            lemma_open_moves(self.height@, 7);
        }
        let first = self.moves_player1.len() == self.moves_player2.len();
        let winning = self.is_winning_move(m);
        let mut moves1 = self.moves_player1.clone();
        let mut moves2 = self.moves_player2.clone();
        assert(moves1@ =~= self.moves_player1@);
        assert(moves2@ =~= self.moves_player2@);
        if first {
            moves1.push(m);
        } else {
            moves2.push(m);
        }
        let mut height = self.height;
        let c = (m / 6) as usize;
        height[c] = height[c] + 1;
        let r = State {
            kind: if winning {
                StateKind::Final
            } else {
                StateKind::Live
            },
            player1: self.player1.clone(),
            player2: self.player2.clone(),
            moves_player1: moves1,
            moves_player2: moves2,
            height,
        };
        assert(r@.heights =~= self@.successor(m).heights);
        proof {
            lemma_successor_counts(self@, m);
        }
        r
    }

    /// The winner once the game is won: the player who made the last move,
    /// player two when both histories have the same length, else player one.
    pub fn winner(&self) -> (r: Option<u8>)
        ensures
            r == if self@.live {
                None::<u8>
            } else if self@.first_to_move() {
                Some(2u8)
            } else {
                Some(1u8)
            },
    {
        match self.kind {
            StateKind::Live => None,
            StateKind::Final => if self.moves_player1.len() == self.moves_player2.len() {
                Some(2)
            } else {
                Some(1)
            },
        }
    }

    /// The game is drawn: nobody has won and every column is full.
    pub fn is_draw(&self) -> (r: bool)
        requires
            self@.wf(),
        ensures
            r == (self@.live && self@.full()),
    {
        if self.kind == StateKind::Final {
            return false;
        }
        let mut c: usize = 0;
        while c < 7
            invariant
                c <= 7,
                self@.wf(),
                forall|k: int| 0 <= k < c ==> #[trigger] self.height@[k] == 6,
            decreases 7 - c,
        {
            if self.height[c] != 6 {
                return false;
            }
            c = c + 1;
        }
        true
    }
}

impl Default for State {
    /// A fresh game of a person, Adrian, against the minimax player Bottie
    /// searching six moves deep.
    fn default() -> (r: State)
        ensures
            r@.live,
            r@.moves1.len() == 0,
            r@.moves2.len() == 0,
            r@.heights == seq![0u8, 0u8, 0u8, 0u8, 0u8, 0u8, 0u8],
            r@.wf(),
            r.player1.name@ == "Adrian"@,
            r.player1.strategy == Strategy::Manual,
            r.player2.name@ == "Bottie"@,
            r.player2.strategy == Strategy::Minimax(6),
    {
        State::new(
            Player { name: "Adrian".to_owned(), strategy: Strategy::Manual },
            Player { name: "Bottie".to_owned(), strategy: Strategy::Minimax(6) },
        )
    }
}

/// Recording `m` adds one disc to its column and none to the others.
proof fn lemma_successor_counts(p: Position, m: u8)
    requires
        p.wf(),
        p.actions().contains(m),
    ensures
        p.successor(m).wf(),
{
    lemma_open_moves(p.heights, 7);
    let n = p.successor(m);
    assert(p.moves1.push(m).drop_last() =~= p.moves1);
    assert(p.moves2.push(m).drop_last() =~= p.moves2);
    assert forall|c: int| 0 <= c < 7 implies #[trigger] n.heights[c] == column_count(n.moves1, c)
        + column_count(n.moves2, c) by {
        assert(p.heights[c] == column_count(p.moves1, c) + column_count(p.moves2, c));
    }
}

/// On a full board no move is legal, whether or not anybody has won.
pub proof fn lemma_full_board_no_actions(p: Position)
    requires
        p.wf(),
        p.full(),
    ensures
        p.actions().len() == 0,
{
    lemma_open_moves(p.heights, 7);
    if p.live && open_moves(p.heights, 7).len() > 0 {
        let m = open_moves(p.heights, 7)[0] as int;
        assert(p.heights[column_of(m)] == 6);
    }
}

/// One move: its column grows by one disc, the other columns stay, and the
/// history of the player to move, and only that one, grows by that move.
pub proof fn lemma_successor_one_move(p: Position, m: u8)
    requires
        p.wf(),
        p.actions().contains(m),
    ensures
        ({
            let n = p.successor(m);
            let c = column_of(m as int);
            &&& n.wf()
            &&& 0 <= c < 7
            &&& p.heights[c] < 6
            &&& n.heights[c] == p.heights[c] + 1
            &&& forall|d: int| 0 <= d < 7 && d != c ==> #[trigger] n.heights[d] == p.heights[d]
            &&& n.moves1.len() + n.moves2.len() == p.moves1.len() + p.moves2.len() + 1
            &&& if p.first_to_move() {
                n.moves1 == p.moves1.push(m) && n.moves2 == p.moves2
            } else {
                n.moves2 == p.moves2.push(m) && n.moves1 == p.moves1
            }
        }),
{
    lemma_open_moves(p.heights, 7);
    lemma_successor_counts(p, m);
}

} // verus!
