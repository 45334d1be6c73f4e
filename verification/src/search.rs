//! The search: minimax with alpha-beta bounds, a transposition table, move
//! ordering and pruning of mirrored moves.

use vstd::prelude::*;
use crate::bindings::{
    elapsed_millis, index_of_max, index_of_min, is_first_max, is_first_min, process_time_now,
    random_index,
};
use crate::board::{get_legal, lemma_legal_moves, GameState, Move, Position, MAX_CELLS};
use crate::geometry::GameGlobals;
use crate::incremental::lemma_fast_matches_full;
use crate::ordering::{ints, lemma_ranking, places, rank, ranking};
use crate::padded::{Padded, PaddedGameState};
use crate::player::Player;
use crate::score::Score;
use crate::soundness::{exhaustive, lemma_search_is_exhaustive, quiet};
use crate::table::TranspositionTable;

verus! {

/// The moves that the search follows from a state: the legal moves, or, where
/// the running count of asymmetry is zero, the first half of them, rounded up.
pub open spec fn candidates(s: Padded) -> Seq<Move> {
    let moves = s.pos.legal_moves();
    if s.asymmetry == 0 {
        moves.take((moves.len() + 1) as int / 2)
    } else {
        moves
    }
}

/// The evaluations of the states that the candidates lead to, as keys.
pub open spec fn kid_keys(s: Padded) -> Seq<int> {
    Seq::new(candidates(s).len(), |i: int| s.next(candidates(s)[i]).eval.key())
}

/// The order in which the search follows the candidates: by the evaluation of
/// the state that each leads to, best for the player to move first.
pub open spec fn kid_order(s: Padded) -> Seq<int> {
    ranking(kid_keys(s), candidates(s).len() as int, s.pos.turn == Player::P1)
}

/// The candidates in the order in which the search follows them.
#[verifier::opaque]
pub open spec fn ordered_moves(s: Padded) -> Seq<Move> {
    Seq::new(candidates(s).len(), |j: int| candidates(s)[kid_order(s)[j]])
}

/// The states that the candidates lead to, in the order in which the search
/// follows them.
#[verifier::opaque]
pub open spec fn ordered_kids(s: Padded) -> Seq<Padded> {
    Seq::new(candidates(s).len(), |j: int| s.next(ordered_moves(s)[j]))
}

/// The value from which the player to move starts to improve.
pub open spec fn base_value(maximizing: bool) -> Score {
    if maximizing {
        Score::NegInf
    } else {
        Score::PosInf
    }
}

/// How the walk over the successors of a state ended.
pub struct Scan {
    /// Whether the walk stopped early because the bounds crossed.
    pub cut: bool,
    /// The bound that crossed after a cut, else the best value found.
    pub value: Score,
    /// The table after the walk.
    pub memo: Map<Position, Score>,
}

/// The value that the search gives a state, and the table that it leaves.
///
/// A state that the table knows has the value kept there, whatever the depth
/// at which it was found. A decided state, and any state at depth zero, has
/// its evaluation. Any other state has the best of its successors' values for
/// the player to move, unless the bounds cross on the way; only a value found
/// without a cut goes into the table.
#[verifier::opaque]
pub open spec fn search(
    s: Padded,
    depth: nat,
    alpha: Score,
    beta: Score,
    memo: Map<Position, Score>,
) -> (Score, Map<Position, Score>)
    decreases depth, 0nat,
{
    if memo.contains_key(s.pos) {
        (memo[s.pos], memo)
    } else if s.eval.decided() || depth == 0 {
        (s.eval, memo)
    } else {
        let maximizing = s.pos.turn == Player::P1;
        let out = scan(
            ordered_kids(s),
            0,
            (depth - 1) as nat,
            alpha,
            beta,
            memo,
            maximizing,
            base_value(maximizing),
        );
        if out.cut {
            (out.value, out.memo)
        } else {
            (out.value, out.memo.insert(s.pos, out.value))
        }
    }
}

/// The walk over the successors from the `i`-th on, each searched to `depth`
/// with the bounds and the table that the ones before it left.
///
/// The maximizing player raises `alpha` and the minimizing player lowers
/// `beta`; the walk is cut as soon as `alpha` exceeds `beta`.
#[verifier::opaque]
pub open spec fn scan(
    kids: Seq<Padded>,
    i: int,
    depth: nat,
    alpha: Score,
    beta: Score,
    memo: Map<Position, Score>,
    maximizing: bool,
    best: Score,
) -> Scan
    decreases depth, 1 + kids.len() - i,
{
    if i < 0 || i >= kids.len() {
        Scan { cut: false, value: best, memo }
    } else {
        let found = search(kids[i], depth, alpha, beta, memo);
        if maximizing {
            let raised = alpha.max(found.0);
            if beta.lt(raised) {
                Scan { cut: true, value: raised, memo: found.1 }
            } else {
                scan(kids, i + 1, depth, raised, beta, found.1, maximizing, best.max(found.0))
            }
        } else {
            let lowered = beta.min(found.0);
            if lowered.lt(alpha) {
                Scan { cut: true, value: lowered, memo: found.1 }
            } else {
                scan(kids, i + 1, depth, alpha, lowered, found.1, maximizing, best.min(found.0))
            }
        }
    }
}

/// The padded state that belongs to a position, each kept value computed from
/// the board.
pub open spec fn padded_of(p: Position) -> Padded {
    Padded { pos: p, eval: p.eval(), placed: p.discs(), asymmetry: p.mismatched().len() as int }
}

/// Where the top of the search stands after some of the successors.
pub struct Root {
    /// The values of the successors searched so far.
    pub values: Seq<Score>,
    pub alpha: Score,
    pub beta: Score,
    /// The table after the successors searched so far.
    pub memo: Map<Position, Score>,
}

/// The top of the search after the first `n` successors, each searched to
/// `depth` with the bounds and the table that the ones before it left. The
/// table starts empty.
#[verifier::opaque]
pub open spec fn root(kids: Seq<Padded>, n: int, depth: nat) -> Root
    decreases n,
{
    if n <= 0 {
        Root {
            values: Seq::empty(),
            alpha: Score::NegInf,
            beta: Score::PosInf,
            memo: Map::empty(),
        }
    } else {
        let before = root(kids, n - 1, depth);
        let found = search(kids[n - 1], depth, before.alpha, before.beta, before.memo);
        Root {
            values: before.values.push(found.0),
            alpha: before.alpha.min(found.0),
            beta: before.beta.max(found.0),
            memo: found.1,
        }
    }
}

/// The values as keys.
pub open spec fn value_keys(values: Seq<Score>) -> Seq<i64> {
    Seq::new(values.len(), |i: int| values[i].key() as i64)
}

/// The place of the value that the player to move picks: the first largest for
/// the maximizing player, the first smallest for the minimizing player.
pub open spec fn best_index(values: Seq<Score>, maximizing: bool) -> int {
    choose|i: int|
        if maximizing {
            is_first_max(value_keys(values), i)
        } else {
            is_first_min(value_keys(values), i)
        }
}

/// The move that a search to `depth` below the successors picks in a
/// position.
pub open spec fn best_move(p: Position, depth: nat) -> Move {
    let s = padded_of(p);
    let kids = ordered_kids(s);
    ordered_moves(s)[best_index(root(kids, kids.len() as int, depth).values, p.turn == Player::P1)]
}

/// A state whose game has no result yet, and whose kept values are right, is
/// not decided; a state with right values that is not decided and has a legal
/// move has no result yet.
pub proof fn lemma_in_progress(s: Padded)
    requires
        s.wf(),
    ensures
        s.pos.result() is None ==> !s.eval.decided() && s.pos.legal_moves().len() > 0,
        !s.eval.decided() && s.pos.legal_moves().len() > 0 ==> s.pos.result() is None,
{
    lemma_legal_moves(s.pos);
}

/// The candidates are legal moves, and the states that they lead to have
/// their kept values right.
pub proof fn lemma_candidates(s: Padded)
    requires
        s.wf(),
        !s.eval.decided(),
    ensures
        candidates(s).len() <= s.pos.legal_moves().len() <= s.pos.cols,
        s.pos.legal_moves().len() > 0 ==> candidates(s).len() > 0,
        forall|i: int|
            0 <= i < candidates(s).len() ==> (#[trigger] candidates(s)[i])
                == s.pos.legal_moves()[i] && s.pos.accepts(candidates(s)[i]) && s.next(
                candidates(s)[i],
            ).wf(),
{
    lemma_legal_moves(s.pos);
    lemma_in_progress(s);
    assert forall|i: int| 0 <= i < candidates(s).len() implies (#[trigger] candidates(s)[i])
        == s.pos.legal_moves()[i] && s.pos.accepts(candidates(s)[i]) && s.next(
        candidates(s)[i],
    ).wf() by {
        let m = s.pos.legal_moves()[i];
        assert(s.pos.accepts(m));
        lemma_fast_matches_full(s, m);
    }
}

/// The successors in search order are states with their kept values right,
/// each reached by a legal move.
pub proof fn lemma_ordered(s: Padded)
    requires
        s.wf(),
        !s.eval.decided(),
    ensures
        ordered_kids(s).len() == candidates(s).len(),
        ordered_moves(s).len() == candidates(s).len(),
        kid_order(s).len() == candidates(s).len(),
        forall|j: int|
            0 <= j < candidates(s).len() ==> 0 <= #[trigger] kid_order(s)[j] < candidates(s).len(),
        forall|j: int|
            0 <= j < candidates(s).len() ==> s.pos.accepts(#[trigger] ordered_moves(s)[j]),
        forall|j: int| 0 <= j < candidates(s).len() ==> (#[trigger] ordered_kids(s)[j]).wf(),
{
    reveal(ordered_moves);
    reveal(ordered_kids);
    lemma_candidates(s);
    lemma_ranking(kid_keys(s), candidates(s).len() as int, s.pos.turn == Player::P1);
    assert forall|j: int| 0 <= j < candidates(s).len() implies s.pos.accepts(
        #[trigger] ordered_moves(s)[j],
    ) by {
        let i = kid_order(s)[j];
        assert(0 <= i < candidates(s).len());
        assert(ordered_moves(s)[j] == candidates(s)[i]);
    }
    assert forall|j: int| 0 <= j < candidates(s).len() implies (#[trigger] ordered_kids(s)[j]).wf() by {
        let i = kid_order(s)[j];
        assert(0 <= i < candidates(s).len());
        assert(ordered_moves(s)[j] == candidates(s)[i]);
    }
}

/// There is one first largest key, and one first smallest.
pub proof fn lemma_first_is_unique(keys: Seq<i64>, a: int, b: int)
    ensures
        is_first_max(keys, a) && is_first_max(keys, b) ==> a == b,
        is_first_min(keys, a) && is_first_min(keys, b) ==> a == b,
{
    if is_first_max(keys, a) && is_first_max(keys, b) {
        assert(keys[a] <= keys[b] && keys[b] <= keys[a]);
    }
    if is_first_min(keys, a) && is_first_min(keys, b) {
        assert(keys[a] >= keys[b] && keys[b] >= keys[a]);
    }
}

/// The successors are states of the same board size.
pub proof fn lemma_after_dims(s: Padded)
    requires
        s.wf(),
        !s.eval.decided(),
    ensures
        forall|j: int|
            0 <= j < ordered_kids(s).len() ==> (#[trigger] ordered_kids(s)[j]).pos.rows
                == s.pos.rows && ordered_kids(s)[j].pos.cols == s.pos.cols,
{
    reveal(ordered_kids);
}

/// What `search` says of one state, one level at a time.
pub proof fn lemma_search(
    s: Padded,
    depth: nat,
    alpha: Score,
    beta: Score,
    memo: Map<Position, Score>,
)
    ensures
        search(s, depth, alpha, beta, memo) == if memo.contains_key(s.pos) {
            (memo[s.pos], memo)
        } else if s.eval.decided() || depth == 0 {
            (s.eval, memo)
        } else {
            let maximizing = s.pos.turn == Player::P1;
            let out = scan(
                ordered_kids(s),
                0,
                (depth - 1) as nat,
                alpha,
                beta,
                memo,
                maximizing,
                base_value(maximizing),
            );
            if out.cut {
                (out.value, out.memo)
            } else {
                (out.value, out.memo.insert(s.pos, out.value))
            }
        },
{
    reveal_with_fuel(search, 2);
    reveal_with_fuel(scan, 2);
}

/// What `scan` says of one successor.
pub proof fn lemma_scan(
    kids: Seq<Padded>,
    i: int,
    depth: nat,
    alpha: Score,
    beta: Score,
    memo: Map<Position, Score>,
    maximizing: bool,
    best: Score,
)
    ensures
        scan(kids, i, depth, alpha, beta, memo, maximizing, best) == if i < 0 || i >= kids.len() {
            Scan { cut: false, value: best, memo }
        } else {
            let found = search(kids[i], depth, alpha, beta, memo);
            if maximizing {
                let raised = alpha.max(found.0);
                if beta.lt(raised) {
                    Scan { cut: true, value: raised, memo: found.1 }
                } else {
                    scan(kids, i + 1, depth, raised, beta, found.1, maximizing, best.max(found.0))
                }
            } else {
                let lowered = beta.min(found.0);
                if lowered.lt(alpha) {
                    Scan { cut: true, value: lowered, memo: found.1 }
                } else {
                    scan(kids, i + 1, depth, alpha, lowered, found.1, maximizing, best.min(found.0))
                }
            }
        },
{
    reveal_with_fuel(search, 2);
    reveal_with_fuel(scan, 2);
}

/// What `root` says of one successor.
pub proof fn lemma_root(kids: Seq<Padded>, n: int, depth: nat)
    ensures
        root(kids, n, depth) == if n <= 0 {
            Root {
                values: Seq::empty(),
                alpha: Score::NegInf,
                beta: Score::PosInf,
                memo: Map::empty(),
            }
        } else {
            let before = root(kids, n - 1, depth);
            let found = search(kids[n - 1], depth, before.alpha, before.beta, before.memo);
            Root {
                values: before.values.push(found.0),
                alpha: before.alpha.min(found.0),
                beta: before.beta.max(found.0),
                memo: found.1,
            }
        },
        n >= 0 ==> root(kids, n, depth).values.len() == n,
    decreases n,
{
    reveal_with_fuel(root, 1);
    if n > 0 {
        lemma_root(kids, n - 1, depth);
    }
}

/// The successors of a state, as the search follows them.
struct Successors {
    moves: Vec<Move>,
    states: Vec<PaddedGameState>,
    order: Vec<usize>,
}

impl Successors {
    /// The places are in range.
    closed spec fn wf(&self) -> bool {
        &&& self.moves@.len() == self.states@.len()
        &&& self.order@.len() == self.states@.len()
        &&& forall|j: int|
            0 <= j < self.order@.len() ==> (#[trigger] self.order@[j]) < self.states@.len()
    }

    /// The states in search order.
    closed spec fn kids(&self) -> Seq<Padded> {
        Seq::new(self.order@.len(), |j: int| self.states@[self.order@[j] as int]@)
    }

    /// The moves in search order.
    closed spec fn steps(&self) -> Seq<Move> {
        Seq::new(self.order@.len(), |j: int| self.moves@[self.order@[j] as int])
    }

    /// How many successors there are.
    fn len(&self) -> (n: usize)
        requires
            self.wf(),
        ensures
            n == self.kids().len(),
            n == self.steps().len(),
    {
        self.order.len()
    }

    /// The `j`-th state in search order.
    fn state(&self, j: usize) -> (state: &PaddedGameState)
        requires
            self.wf(),
            j < self.kids().len(),
        ensures
            state@ == self.kids()[j as int],
    {
        &self.states[self.order[j]]
    }

    /// The `j`-th move in search order.
    fn step(&self, j: usize) -> (mov: Move)
        requires
            self.wf(),
            j < self.steps().len(),
        ensures
            mov == self.steps()[j as int],
    {
        self.moves[self.order[j]]
    }
}

/// States and moves that are picked by a ranking of their evaluations are the
/// successors in search order.
proof fn lemma_picked(
    s: Padded,
    moves: Seq<Move>,
    states: Seq<Padded>,
    keys: Seq<i64>,
    order: Seq<usize>,
)
    requires
        s.wf(),
        !s.eval.decided(),
        moves == candidates(s),
        states.len() == moves.len(),
        keys.len() == moves.len(),
        forall|i: int| 0 <= i < moves.len() ==> #[trigger] states[i] == s.next(moves[i]),
        forall|i: int| 0 <= i < moves.len() ==> #[trigger] keys[i] == states[i].eval.key(),
        places(order) == ranking(ints(keys), keys.len() as int, s.pos.turn == Player::P1),
    ensures
        order.len() == moves.len(),
        ordered_kids(s).len() == moves.len(),
        ordered_moves(s).len() == moves.len(),
        forall|j: int|
            0 <= j < moves.len() ==> 0 <= (#[trigger] order[j]) < moves.len() && ordered_kids(s)[j]
                == states[order[j] as int] && ordered_moves(s)[j] == moves[order[j] as int],
{
    reveal(ordered_moves);
    reveal(ordered_kids);
    lemma_ordered(s);
    assert(ints(keys) =~= kid_keys(s));
    assert(places(order).len() == order.len());
    assert forall|j: int| 0 <= j < moves.len() implies 0 <= (#[trigger] order[j]) < moves.len()
        && ordered_kids(s)[j] == states[order[j] as int] && ordered_moves(s)[j]
        == moves[order[j] as int] by {
        assert(places(order)[j] == order[j]);
        assert(kid_order(s)[j] == order[j]);
    }
}

/// What can go wrong when an agent is set up.
#[derive(Copy, Clone, Debug, PartialEq, Eq, Structural)]
pub enum ConfigError {
    /// The fixed depth is not one of 1 to 10.
    DepthOutOfRange,
    /// The time for a move is not one of 1 to 600 seconds.
    TimeOutOfRange,
}

/// What can go wrong when an agent looks for a move.
#[derive(Copy, Clone, Debug, PartialEq, Eq, Structural)]
pub enum AgentError {
    /// The processor time of the process cannot be read.
    Clock,
}

/// What a timed search does after a look at the clock.
#[derive(Copy, Clone, Debug, PartialEq, Eq, Structural)]
pub enum Step {
    /// The time is used up: the move of the last search stands.
    Stop(Move),
    /// There was time: the next depth was searched in full, and this is its
    /// move.
    Deeper(Move),
}

/// What a reading of the clock is to the agent: the reading itself, or the
/// agent's error where the clock could not be read.
pub fn from_clock<T>(reading: Result<T, std::io::Error>) -> (out: Result<T, AgentError>)
    ensures
        out == match reading {
            Ok(t) => Ok::<T, AgentError>(t),
            Err(_) => Err::<T, AgentError>(AgentError::Clock),
        },
{
    match reading {
        Ok(t) => Ok(t),
        Err(_) => Err(AgentError::Clock),
    }
}

/// The least and the greatest fixed depth.
pub const MIN_DEPTH: i32 = 1;

pub const MAX_DEPTH: i32 = 10;

/// The least and the greatest number of seconds for a move.
pub const MIN_TIME: i32 = 1;

pub const MAX_TIME: i32 = 600;

/// The milliseconds of processor time after which a timed agent starts no
/// deeper search: a seventh of the seconds for a move.
pub open spec fn budget_millis(seconds: int) -> int {
    seconds * 1000 / 7
}

/// A player that, given a state, names its next move.
pub trait Agent {
    /// What the agent asks of a position, beyond that the game is on: nothing,
    /// unless the agent says otherwise.
    open spec fn serves(&self, p: Position) -> bool {
        true
    }

    /// The next move in `gs`: a cell that `play` accepts. The state is left as
    /// it is.
    fn next_move(&self, gs: &GameState) -> (mov: Result<Move, AgentError>)
        requires
            gs@.wf(),
            gs@.result() is None,
            self.serves(gs@),
        ensures
            mov matches Ok(m) ==> gs@.accepts(m),
    ;
}

/// The agent that picks a legal move at random.
pub struct RandomMover {}

impl RandomMover {
    /// A random mover. It keeps nothing between moves.
    pub fn new() -> (agent: RandomMover) {
        RandomMover {  }
    }
}

impl Agent for RandomMover {
    /// One of the legal moves, whichever the generator draws.
    fn next_move(&self, gs: &GameState) -> (mov: Result<Move, AgentError>)
        ensures
            mov matches Ok(m) && gs@.legal_moves().contains(m),
    {
        let moves = get_legal(gs);
        proof {
            lemma_legal_moves(gs@);
        }
        let i = random_index(moves.len());
        Ok(moves[i])
    }
}

/// The agent that searches the game tree: to a fixed depth, or deeper and
/// deeper until the time for a move is used up.
pub struct MinMaxAgent {
    timed: bool,
    time: i32,
    depth: i32,
    game_globals: GameGlobals,
}

/// The sort keys of the evaluations of the states.
fn eval_keys(states: &Vec<PaddedGameState>) -> (keys: Vec<i64>)
    ensures
        keys@.len() == states@.len(),
        forall|i: int| 0 <= i < keys@.len() ==> #[trigger] keys@[i] == states@[i]@.eval.key(),
{
    let mut keys: Vec<i64> = Vec::new();
    let mut i: usize = 0;
    while i < states.len()
        invariant
            i <= states@.len(),
            keys@.len() == i,
            forall|j: int| 0 <= j < i ==> #[trigger] keys@[j] == states@[j]@.eval.key(),
        decreases states@.len() - i,
    {
        keys.push(states[i].eval.sort_key());
        i = i + 1;
    }
    keys
}

impl MinMaxAgent {
    /// The size of the board that the agent plays on.
    pub closed spec fn dims(&self) -> (nat, nat) {
        self.game_globals.dims()
    }

    /// Whether the agent polls the clock, the seconds for a move and the fixed
    /// depth.
    pub closed spec fn settings(&self) -> (bool, int, int) {
        (self.timed, self.time as int, self.depth as int)
    }

    /// The geometry is in place, and the setting that the mode uses is in its
    /// range.
    pub closed spec fn wf(&self) -> bool {
        &&& self.game_globals.wf()
        &&& self.timed ==> MIN_TIME <= self.time <= MAX_TIME
        &&& !self.timed ==> MIN_DEPTH <= self.depth <= MAX_DEPTH
    }

    /// An agent for a `rows` x `cols` board.
    ///
    /// With `timed` the agent searches deeper and deeper for `time` seconds,
    /// which must be one of 1 to 600; `depth` is not looked at. Without it the
    /// agent searches to `depth`, which must be one of 1 to 10; `time` is not
    /// looked at.
    pub fn new_with_args(timed: bool, time: i32, depth: i32, rows: usize, cols: usize) -> (agent:
        Result<MinMaxAgent, ConfigError>)
        requires
            rows * cols <= MAX_CELLS,
        ensures
            agent is Err <==> (if timed {
                !(MIN_TIME <= time <= MAX_TIME)
            } else {
                !(MIN_DEPTH <= depth <= MAX_DEPTH)
            }),
            agent matches Err(e) ==> e == if timed {
                ConfigError::TimeOutOfRange
            } else {
                ConfigError::DepthOutOfRange
            },
            agent matches Ok(a) ==> a.wf() && a.dims() == (rows as nat, cols as nat)
                && a.settings() == (timed, time as int, depth as int),
    {
        if timed {
            if time < MIN_TIME || time > MAX_TIME {
                return Err(ConfigError::TimeOutOfRange);
            }
        } else {
            if depth < MIN_DEPTH || depth > MAX_DEPTH {
                return Err(ConfigError::DepthOutOfRange);
            }
        }
        Ok(MinMaxAgent { timed, time, depth, game_globals: GameGlobals::new(rows, cols) })
    }

    /// Whether a timed agent that has used `elapsed` milliseconds since the
    /// clock was started is to stop: it stops once the time used exceeds the
    /// budget.
    pub fn time_is_up(&self, elapsed: u128) -> (up: bool)
        requires
            self.wf(),
            self.settings().0,
        ensures
            up == (elapsed > budget_millis(self.settings().1)),
    {
        let budget: u128 = ((self.time * 1000) / 7) as u128;
        elapsed > budget
    }

    /// The candidates of a state and the states that they lead to.
    fn expand(&self, padded_gs: &PaddedGameState) -> (out: (Vec<Move>, Vec<PaddedGameState>))
        requires
            self.wf(),
            padded_gs@.wf(),
            self.dims() == (padded_gs@.pos.rows, padded_gs@.pos.cols),
            !padded_gs@.eval.decided(),
        ensures
            out.0@ == candidates(padded_gs@),
            out.1@.len() == out.0@.len(),
            forall|i: int|
                0 <= i < out.1@.len() ==> (#[trigger] out.1@[i])@ == padded_gs@.next(out.0@[i]),
    {
        let mut moves = get_legal(&padded_gs.gs);
        let cols = padded_gs.gs.cols();
        proof {
            lemma_candidates(padded_gs@);
        }
        let num_moves = moves.len();
        if padded_gs.is_symmetrical() {
            moves.truncate(num_moves - num_moves / 2);
        }
        assert(moves@ =~= candidates(padded_gs@));
        let mut states: Vec<PaddedGameState> = Vec::new();
        let mut i: usize = 0;
        while i < moves.len()
            invariant
                self.wf(),
                padded_gs@.wf(),
                self.dims() == (padded_gs@.pos.rows, padded_gs@.pos.cols),
                moves@ == candidates(padded_gs@),
                forall|k: int|
                    0 <= k < moves@.len() ==> padded_gs@.pos.accepts(#[trigger] moves@[k]),
                i <= moves@.len(),
                states@.len() == i,
                forall|k: int|
                    0 <= k < i ==> (#[trigger] states@[k])@ == padded_gs@.next(moves@[k]),
            decreases moves@.len() - i,
        {
            let mov = moves[i];
            let state = PaddedGameState::next(padded_gs, mov, &self.game_globals);
            states.push(state);
            i = i + 1;
        }
        (moves, states)
    }

    /// The successors of a state in the order in which the search follows
    /// them: by their evaluations, best for the player to move first, and as
    /// the moves came where evaluations are equal.
    fn successors(&self, padded_gs: &PaddedGameState) -> (next: Successors)
        requires
            self.wf(),
            padded_gs@.wf(),
            self.dims() == (padded_gs@.pos.rows, padded_gs@.pos.cols),
            !padded_gs@.eval.decided(),
        ensures
            next.wf(),
            next.kids() == ordered_kids(padded_gs@),
            next.steps() == ordered_moves(padded_gs@),
    {
        let is_max = match padded_gs.gs.turn() {
            Player::P1 => true,
            Player::P2 => false,
        };
        let (moves, states) = self.expand(padded_gs);
        let keys = eval_keys(&states);
        let order = rank(&keys, is_max);
        let next = Successors { moves, states, order };
        proof {
            let padded = Seq::new(next.states@.len(), |i: int| next.states@[i]@);
            lemma_picked(padded_gs@, next.moves@, padded, keys@, next.order@);
            assert(next.kids() =~= ordered_kids(padded_gs@));
            assert(next.steps() =~= ordered_moves(padded_gs@));
        }
        next
    }

    /// The value of a state by a search to `depth` within the bounds `alpha`
    /// and `beta`.
    ///
    /// A state that `visited` knows has the value kept there. A decided
    /// state, and any state at depth zero, has its evaluation. Otherwise the
    /// successors are followed, best evaluation for the player to move first,
    /// each one level less deep; the first player raises `alpha` and the second
    /// lowers `beta`, and the walk is cut, and the crossing bound returned, as
    /// soon as `alpha` exceeds `beta`. A value found without a cut is kept in
    /// `visited`.
    ///
    /// With the widest bounds the value is that of the exhaustive walk over
    /// every legal move to the same depth, as long as `visited` answers for no
    /// state on the way; it answers for none when the search starts with the
    /// empty table and goes no deeper than two.
    #[verifier::loop_isolation(false)]
    pub fn min_max(
        &self,
        padded_gs: &PaddedGameState,
        depth: i32,
        alpha: Score,
        beta: Score,
        visited: &mut TranspositionTable,
    ) -> (value: Score)
        requires
            self.wf(),
            padded_gs@.wf(),
            self.dims() == (padded_gs@.pos.rows, padded_gs@.pos.cols),
            depth >= 0,
            old(visited).wf(),
        ensures
            final(visited).wf(),
            (value, final(visited)@) == search(padded_gs@, depth as nat, alpha, beta, old(visited)@),
            alpha == Score::NegInf && beta == Score::PosInf && (quiet(
                padded_gs@,
                depth as nat,
                alpha,
                beta,
                old(visited)@,
            ) || (depth <= 2 && old(visited)@ == Map::<Position, Score>::empty())) ==> value
                == exhaustive(padded_gs@.pos, depth as nat),
        decreases depth,
    {
        let ghost s = padded_gs@;
        let ghost memo = visited@;
        proof {
            lemma_search(s, depth as nat, alpha, beta, memo);
            if alpha == Score::NegInf && beta == Score::PosInf && (quiet(
                s,
                depth as nat,
                alpha,
                beta,
                memo,
            ) || (depth <= 2 && memo == Map::<Position, Score>::empty())) {
                lemma_search_is_exhaustive(s, depth as nat, memo);
            }
        }
        match visited.get(&padded_gs.gs) {
            Some(known) => {
                return known;
            },
            None => {},
        }
        if padded_gs.eval.is_decided() || depth == 0 {
            return padded_gs.eval;
        }
        let is_max = match padded_gs.gs.turn() {
            Player::P1 => true,
            Player::P2 => false,
        };
        let next = self.successors(padded_gs);
        let ghost kids = ordered_kids(s);
        proof {
            lemma_ordered(s);
            lemma_after_dims(s);
        }
        let ghost alpha0 = alpha;
        let ghost beta0 = beta;
        let mut alpha = alpha;
        let mut beta = beta;
        let mut best = if is_max {
            Score::NegInf
        } else {
            Score::PosInf
        };
        let ghost lower = (depth - 1) as nat;
        let count = next.len();
        let mut j: usize = 0;
        while j < count
            invariant
                self.wf(),
                depth > 0,
                lower == depth - 1,
                next.wf(),
                next.kids() == kids,
                count == kids.len(),
                forall|k: int|
                    0 <= k < kids.len() ==> (#[trigger] kids[k]).wf() && self.dims() == (
                        kids[k].pos.rows,
                        kids[k].pos.cols,
                    ),
                j <= count,
                visited.wf(),
                scan(kids, 0, lower, alpha0, beta0, memo, is_max, base_value(is_max)) == scan(
                    kids,
                    j as int,
                    lower,
                    alpha,
                    beta,
                    visited@,
                    is_max,
                    best,
                ),
            decreases count - j,
        {
            proof {
                lemma_scan(kids, j as int, lower, alpha, beta, visited@, is_max, best);
            }
            let state = next.state(j);
            let value = self.min_max(state, depth - 1, alpha, beta, visited);
            if is_max {
                best = best.larger(value);
                alpha = alpha.larger(value);
                if beta.less_than(&alpha) {
                    return alpha;
                }
            } else {
                best = best.smaller(value);
                beta = beta.smaller(value);
                if beta.less_than(&alpha) {
                    return beta;
                }
            }
            j = j + 1;
        }
        proof {
            lemma_scan(kids, j as int, lower, alpha, beta, visited@, is_max, best);
        }
        visited.insert(padded_gs.gs.copy(), best);
        best
    }

    /// The move that a search to `depth` below the successors picks: the
    /// successors are searched in the order of their evaluations, with one
    /// table for all of them, and the first best value for the player to move
    /// names the move.
    #[verifier::loop_isolation(false)]
    fn next_move_internal(&self, gs: &GameState, depth: i32) -> (mov: Move)
        requires
            self.wf(),
            gs@.wf(),
            gs@.result() is None,
            self.dims() == (gs@.rows, gs@.cols),
            depth >= 0,
        ensures
            mov == best_move(gs@, depth as nat),
            gs@.accepts(mov),
    {
        let padded_gs = PaddedGameState::new_from_game_state(gs);
        let ghost s = padded_gs@;
        assert(s == padded_of(gs@));
        proof {
            lemma_in_progress(s);
            lemma_candidates(s);
            lemma_ordered(s);
            lemma_after_dims(s);
        }
        let is_max = match gs.turn() {
            Player::P1 => true,
            Player::P2 => false,
        };
        let mut visited = TranspositionTable::new();
        let next = self.successors(&padded_gs);
        let ghost kids = ordered_kids(s);
        let mut alpha = Score::NegInf;
        let mut beta = Score::PosInf;
        let mut utilities: Vec<i64> = Vec::new();
        let ghost d = depth as nat;
        let count = next.len();
        let mut j: usize = 0;
        proof {
            lemma_root(kids, 0, d);
            assert(utilities@ =~= value_keys(root(kids, 0, d).values));
        }
        while j < count
            invariant
                self.wf(),
                depth >= 0,
                d == depth,
                next.wf(),
                next.kids() == kids,
                count == kids.len(),
                forall|k: int|
                    0 <= k < kids.len() ==> (#[trigger] kids[k]).wf() && self.dims() == (
                        kids[k].pos.rows,
                        kids[k].pos.cols,
                    ),
                j <= count,
                visited.wf(),
                utilities@ == value_keys(root(kids, j as int, d).values),
                alpha == root(kids, j as int, d).alpha,
                beta == root(kids, j as int, d).beta,
                visited@ == root(kids, j as int, d).memo,
                root(kids, j as int, d).values.len() == j,
            decreases count - j,
        {
            let state = next.state(j);
            let value = self.min_max(state, depth, alpha, beta, &mut visited);
            utilities.push(value.sort_key());
            alpha = alpha.smaller(value);
            beta = beta.larger(value);
            j = j + 1;
            proof {
                lemma_root(kids, j as int, d);
                assert(utilities@ =~= value_keys(root(kids, j as int, d).values));
            }
        }
        let ghost values = root(kids, kids.len() as int, d).values;
        let pick = if is_max {
            index_of_max(&utilities)
        } else {
            index_of_min(&utilities)
        };
        proof {
            let chosen = best_index(values, is_max);
            if is_max {
                assert(is_first_max(value_keys(values), pick as int));
                assert(is_first_max(value_keys(values), chosen));
            } else {
                assert(is_first_min(value_keys(values), pick as int));
                assert(is_first_min(value_keys(values), chosen));
            }
            lemma_first_is_unique(value_keys(values), chosen, pick as int);
        }
        next.step(pick)
    }

    /// One round of a timed search: what follows from a reading of the
    /// clock, taken after the search to `depth - 1` gave `mov`.
    ///
    /// A clock that cannot be read ends the search with an error. A reading
    /// beyond the budget ends it with `mov`. Any other reading has the search
    /// to `depth` made in full, whose move then stands.
    pub fn after_reading(
        &self,
        gs: &GameState,
        mov: Move,
        depth: i32,
        reading: Result<u128, std::io::Error>,
    ) -> (step: Result<Step, AgentError>)
        requires
            self.wf(),
            self.settings().0,
            gs@.wf(),
            gs@.result() is None,
            self.dims() == (gs@.rows, gs@.cols),
            depth >= 0,
        ensures
            step == match reading {
                Err(_) => Err::<Step, AgentError>(AgentError::Clock),
                Ok(elapsed) => if elapsed > budget_millis(self.settings().1) {
                    Ok::<Step, AgentError>(Step::Stop(mov))
                } else {
                    Ok::<Step, AgentError>(Step::Deeper(best_move(gs@, depth as nat)))
                },
            },
            step matches Ok(Step::Deeper(m)) ==> gs@.accepts(m),
    {
        match from_clock(reading) {
            Err(error) => Err(error),
            Ok(elapsed) => {
                if self.time_is_up(elapsed) {
                    Ok(Step::Stop(mov))
                } else {
                    Ok(Step::Deeper(self.next_move_internal(gs, depth)))
                }
            },
        }
    }

    /// The move of the deepest search that is done before the time for a
    /// move is used up.
    ///
    /// The search to depth zero is always made. The clock starts after it; as
    /// long as no more than a seventh of the time for a move has gone by, the
    /// next depth is searched in full, and the move of the last search stands.
    fn timed_move(&self, gs: &GameState) -> (mov: Result<Move, AgentError>)
        requires
            self.wf(),
            self.settings().0,
            gs@.wf(),
            gs@.result() is None,
            self.dims() == (gs@.rows, gs@.cols),
        ensures
            mov matches Ok(m) ==> gs@.accepts(m) && exists|d: nat| m == best_move(gs@, d),
    {
        let mut mov = self.next_move_internal(gs, 0);
        let start = match from_clock(process_time_now()) {
            Ok(start) => start,
            Err(error) => {
                return Err(error);
            },
        };
        let mut depth: i32 = 1;
        assert(mov == best_move(gs@, 0nat));
        while depth < i32::MAX
            invariant
                self.wf(),
                self.settings().0,
                gs@.wf(),
                gs@.result() is None,
                self.dims() == (gs@.rows, gs@.cols),
                1 <= depth,
                gs@.accepts(mov),
                exists|d: nat| mov == best_move(gs@, d),
            decreases i32::MAX - depth,
        {
            match self.after_reading(gs, mov, depth, elapsed_millis(&start)) {
                Err(error) => {
                    return Err(error);
                },
                Ok(Step::Stop(last)) => {
                    return Ok(last);
                },
                Ok(Step::Deeper(next)) => {
                    assert(next == best_move(gs@, depth as nat));
                    mov = next;
                },
            }
            depth = depth + 1;
        }
        Ok(mov)
    }
}

impl Agent for MinMaxAgent {
    open spec fn serves(&self, p: Position) -> bool {
        self.wf() && self.dims() == (p.rows, p.cols)
    }

    /// The move that the search picks.
    ///
    /// An agent with a fixed depth gives the move of the search to that depth.
    /// A timed agent gives the move of the deepest search that was done in
    /// time, or an error if the clock cannot be read.
    fn next_move(&self, gs: &GameState) -> (mov: Result<Move, AgentError>)
        ensures
            !self.settings().0 ==> mov == Ok::<Move, AgentError>(
                best_move(gs@, self.settings().2 as nat),
            ),
            self.settings().0 ==> (mov matches Ok(m) ==> exists|d: nat| m == best_move(gs@, d)),
    {
        if !self.timed {
            return Ok(self.next_move_internal(gs, self.depth));
        }
        self.timed_move(gs)
    }
}

} // verus!
