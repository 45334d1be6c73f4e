//! What the search is worth: as long as the transposition table answers for
//! no state on the way, the bounds never change the value of the top state,
//! which is the plain minimax value.

use vstd::prelude::*;
use crate::board::{lemma_after, lemma_landing, lemma_legal_moves, lemma_legal_place, Position};
use crate::ordering::{has_place, lemma_ranking_covers, lemma_ranking_is_stable};
use crate::player::Player;
use crate::score::Score;
use crate::bindings::{is_first_max, is_first_min};
use crate::padded::{lemma_mismatched_bound, lemma_symmetry_counter, Padded};
use crate::search::{
    base_value, best_index, best_move, candidates, kid_keys, kid_order, lemma_candidates,
    lemma_in_progress, lemma_ordered, lemma_root, lemma_scan, lemma_search, ordered_kids,
    ordered_moves, padded_of, root, scan, search, value_keys,
};
use crate::symmetry::{
    lemma_mirrored, lemma_mirrored_eval, lemma_mirrored_landing, lemma_mirrored_move,
};

verus! {

/// The value of a state by a walk over its successors to `depth`, with no
/// bounds and no table: a decided state, and any state at depth zero, has its
/// evaluation; any other state has the best of its successors' values for the
/// player to move. The successors are those that the search follows.
#[verifier::opaque]
pub open spec fn minimax(s: Padded, depth: nat) -> Score
    decreases depth, 0nat,
{
    if s.eval.decided() || depth == 0 {
        s.eval
    } else {
        best_of(ordered_kids(s), 0, (depth - 1) as nat, s.pos.turn == Player::P1)
    }
}

/// The best of two values for the player to move.
pub open spec fn better(a: Score, b: Score, maximizing: bool) -> Score {
    if maximizing {
        a.max(b)
    } else {
        a.min(b)
    }
}

/// The best minimax value, for the player to move, among the successors from
/// the `i`-th on.
#[verifier::opaque]
pub open spec fn best_of(kids: Seq<Padded>, i: int, depth: nat, maximizing: bool) -> Score
    decreases depth, 1 + kids.len() - i,
{
    if i < 0 || i >= kids.len() {
        base_value(maximizing)
    } else {
        better(minimax(kids[i], depth), best_of(kids, i + 1, depth, maximizing), maximizing)
    }
}

/// Whether the search of a state finds neither the state nor any state below
/// it in the table.
#[verifier::opaque]
pub open spec fn quiet(
    s: Padded,
    depth: nat,
    alpha: Score,
    beta: Score,
    memo: Map<Position, Score>,
) -> bool
    decreases depth, 0nat,
{
    !memo.contains_key(s.pos) && (s.eval.decided() || depth == 0 || quiet_scan(
        ordered_kids(s),
        0,
        (depth - 1) as nat,
        alpha,
        beta,
        memo,
        s.pos.turn == Player::P1,
    ))
}

/// Whether the walk over the successors from the `i`-th on finds none of the
/// states that it visits in the table.
#[verifier::opaque]
pub open spec fn quiet_scan(
    kids: Seq<Padded>,
    i: int,
    depth: nat,
    alpha: Score,
    beta: Score,
    memo: Map<Position, Score>,
    maximizing: bool,
) -> bool
    decreases depth, 1 + kids.len() - i,
{
    if i < 0 || i >= kids.len() {
        true
    } else {
        let found = search(kids[i], depth, alpha, beta, memo);
        quiet(kids[i], depth, alpha, beta, memo) && if maximizing {
            let raised = alpha.max(found.0);
            beta.lt(raised) || quiet_scan(kids, i + 1, depth, raised, beta, found.1, maximizing)
        } else {
            let lowered = beta.min(found.0);
            lowered.lt(alpha) || quiet_scan(kids, i + 1, depth, alpha, lowered, found.1, maximizing)
        }
    }
}

/// How a value `r` found within the bounds relates to the true value `v`:
/// equal to it where the true value lies strictly between the bounds, and
/// otherwise on the same side of the bounds, no further out than the true
/// value.
pub open spec fn bracket(r: Score, v: Score, alpha: Score, beta: Score) -> bool {
    &&& v.key() <= alpha.key() ==> v.key() <= r.key() <= alpha.key()
    &&& alpha.key() < v.key() < beta.key() ==> r.key() == v.key()
    &&& beta.key() <= v.key() ==> beta.key() <= r.key() <= v.key()
}

/// Scores with the same key are the same.
pub proof fn lemma_key_is_one_to_one(a: Score, b: Score)
    ensures
        a.key() == b.key() ==> a == b,
{
}

/// What `minimax` says of one state.
pub proof fn lemma_minimax(s: Padded, depth: nat)
    ensures
        minimax(s, depth) == if s.eval.decided() || depth == 0 {
            s.eval
        } else {
            best_of(ordered_kids(s), 0, (depth - 1) as nat, s.pos.turn == Player::P1)
        },
{
    reveal_with_fuel(minimax, 2);
    reveal_with_fuel(best_of, 2);
}

/// What `best_of` says of one successor.
pub proof fn lemma_best_of(kids: Seq<Padded>, i: int, depth: nat, maximizing: bool)
    ensures
        best_of(kids, i, depth, maximizing) == if i < 0 || i >= kids.len() {
            base_value(maximizing)
        } else {
            better(minimax(kids[i], depth), best_of(kids, i + 1, depth, maximizing), maximizing)
        },
{
    reveal_with_fuel(minimax, 2);
    reveal_with_fuel(best_of, 2);
}

/// What `quiet` says of one state.
pub proof fn lemma_quiet(
    s: Padded,
    depth: nat,
    alpha: Score,
    beta: Score,
    memo: Map<Position, Score>,
)
    ensures
        quiet(s, depth, alpha, beta, memo) == (!memo.contains_key(s.pos) && (s.eval.decided()
            || depth == 0 || quiet_scan(
            ordered_kids(s),
            0,
            (depth - 1) as nat,
            alpha,
            beta,
            memo,
            s.pos.turn == Player::P1,
        ))),
{
    reveal_with_fuel(quiet, 2);
    reveal_with_fuel(quiet_scan, 2);
}

/// What `quiet_scan` says of one successor.
pub proof fn lemma_quiet_scan(
    kids: Seq<Padded>,
    i: int,
    depth: nat,
    alpha: Score,
    beta: Score,
    memo: Map<Position, Score>,
    maximizing: bool,
)
    ensures
        quiet_scan(kids, i, depth, alpha, beta, memo, maximizing) == if i < 0 || i >= kids.len() {
            true
        } else {
            let found = search(kids[i], depth, alpha, beta, memo);
            quiet(kids[i], depth, alpha, beta, memo) && if maximizing {
                let raised = alpha.max(found.0);
                beta.lt(raised) || quiet_scan(kids, i + 1, depth, raised, beta, found.1, maximizing)
            } else {
                let lowered = beta.min(found.0);
                lowered.lt(alpha) || quiet_scan(
                    kids,
                    i + 1,
                    depth,
                    alpha,
                    lowered,
                    found.1,
                    maximizing,
                )
            }
        },
{
    reveal_with_fuel(quiet, 2);
    reveal_with_fuel(quiet_scan, 2);
}

/// The value that the search finds within bounds brackets the minimax value,
/// as long as the table answers for no state on the way.
pub proof fn lemma_search_brackets(
    s: Padded,
    depth: nat,
    alpha: Score,
    beta: Score,
    memo: Map<Position, Score>,
)
    requires
        s.wf(),
        alpha.le(beta),
        quiet(s, depth, alpha, beta, memo),
    ensures
        bracket(search(s, depth, alpha, beta, memo).0, minimax(s, depth), alpha, beta),
    decreases depth, 0nat,
{
    lemma_search(s, depth, alpha, beta, memo);
    lemma_minimax(s, depth);
    lemma_quiet(s, depth, alpha, beta, memo);
    if !(s.eval.decided() || depth == 0) {
        let maximizing = s.pos.turn == Player::P1;
        let kids = ordered_kids(s);
        let base = base_value(maximizing);
        lemma_ordered(s);
        lemma_scan_brackets(
            kids,
            0,
            (depth - 1) as nat,
            alpha,
            beta,
            memo,
            maximizing,
            base,
            alpha,
            beta,
            base,
        );
        let rest = best_of(kids, 0, (depth - 1) as nat, maximizing);
        lemma_key_is_one_to_one(better(base, rest, maximizing), rest);
    }
}

/// The walk over the successors keeps the bracket: `seen` is the best minimax
/// value of the successors walked so far, `best` the best value found for
/// them, and the bound of the player to move has followed `best`.
pub proof fn lemma_scan_brackets(
    kids: Seq<Padded>,
    i: int,
    depth: nat,
    alpha: Score,
    beta: Score,
    memo: Map<Position, Score>,
    maximizing: bool,
    best: Score,
    alpha0: Score,
    beta0: Score,
    seen: Score,
)
    requires
        0 <= i <= kids.len(),
        forall|k: int| 0 <= k < kids.len() ==> (#[trigger] kids[k]).wf(),
        alpha0.le(beta0),
        quiet_scan(kids, i, depth, alpha, beta, memo, maximizing),
        bracket(best, seen, alpha0, beta0),
        maximizing ==> beta == beta0 && alpha == alpha0.max(best) && best.le(beta0),
        !maximizing ==> alpha == alpha0 && beta == beta0.min(best) && alpha0.le(best),
    ensures
        bracket(
            scan(kids, i, depth, alpha, beta, memo, maximizing, best).value,
            better(seen, best_of(kids, i, depth, maximizing), maximizing),
            alpha0,
            beta0,
        ),
    decreases depth, 1 + kids.len() - i,
{
    lemma_scan(kids, i, depth, alpha, beta, memo, maximizing, best);
    lemma_best_of(kids, i, depth, maximizing);
    lemma_quiet_scan(kids, i, depth, alpha, beta, memo, maximizing);
    if i < kids.len() {
        let found = search(kids[i], depth, alpha, beta, memo);
        let v = minimax(kids[i], depth);
        let rest = best_of(kids, i + 1, depth, maximizing);
        assert(kids[i].wf());
        lemma_search_brackets(kids[i], depth, alpha, beta, memo);
        assert(bracket(found.0, v, alpha, beta));
        if maximizing {
            let raised = alpha.max(found.0);
            if !beta.lt(raised) {
                let seen2 = seen.max(v);
                let best2 = best.max(found.0);
                lemma_key_is_one_to_one(raised, alpha0.max(best2));
                lemma_scan_brackets(
                    kids,
                    i + 1,
                    depth,
                    raised,
                    beta,
                    found.1,
                    maximizing,
                    best2,
                    alpha0,
                    beta0,
                    seen2,
                );
                assert(better(seen2, rest, maximizing).key() == better(
                    seen,
                    better(v, rest, maximizing),
                    maximizing,
                ).key());
            }
        } else {
            let lowered = beta.min(found.0);
            if !lowered.lt(alpha) {
                let seen2 = seen.min(v);
                let best2 = best.min(found.0);
                lemma_key_is_one_to_one(lowered, beta0.min(best2));
                lemma_scan_brackets(
                    kids,
                    i + 1,
                    depth,
                    alpha,
                    lowered,
                    found.1,
                    maximizing,
                    best2,
                    alpha0,
                    beta0,
                    seen2,
                );
                assert(better(seen2, rest, maximizing).key() == better(
                    seen,
                    better(v, rest, maximizing),
                    maximizing,
                ).key());
            }
        }
    }
}

/// The search is sound where the table is silent.
///
/// With the widest bounds, and as long as the table answers for no state on
/// the way, the search gives a state its minimax value: the bounds cut
/// nothing that matters.
pub proof fn lemma_search_is_minimax(s: Padded, depth: nat, memo: Map<Position, Score>)
    requires
        s.wf(),
        quiet(s, depth, Score::NegInf, Score::PosInf, memo),
    ensures
        search(s, depth, Score::NegInf, Score::PosInf, memo).0 == minimax(s, depth),
{
    lemma_search_brackets(s, depth, Score::NegInf, Score::PosInf, memo);
    lemma_key_is_one_to_one(
        search(s, depth, Score::NegInf, Score::PosInf, memo).0,
        minimax(s, depth),
    );
}

/// A search to depth zero leaves the table as it is, and is quiet exactly
/// when the table does not hold the state.
pub proof fn lemma_leaf(s: Padded, alpha: Score, beta: Score, memo: Map<Position, Score>)
    ensures
        search(s, 0, alpha, beta, memo).1 == memo,
        quiet(s, 0, alpha, beta, memo) == !memo.contains_key(s.pos),
{
    lemma_search(s, 0, alpha, beta, memo);
    lemma_quiet(s, 0, alpha, beta, memo);
}

/// A walk over leaves leaves the table as it is.
pub proof fn lemma_leaves_keep_table(
    kids: Seq<Padded>,
    i: int,
    alpha: Score,
    beta: Score,
    memo: Map<Position, Score>,
    maximizing: bool,
    best: Score,
)
    requires
        0 <= i <= kids.len(),
    ensures
        scan(kids, i, 0, alpha, beta, memo, maximizing, best).memo == memo,
    decreases kids.len() - i,
{
    lemma_scan(kids, i, 0, alpha, beta, memo, maximizing, best);
    if i < kids.len() {
        lemma_leaf(kids[i], alpha, beta, memo);
        let found = search(kids[i], 0, alpha, beta, memo);
        if maximizing {
            lemma_leaves_keep_table(
                kids,
                i + 1,
                alpha.max(found.0),
                beta,
                memo,
                maximizing,
                best.max(found.0),
            );
        } else {
            lemma_leaves_keep_table(
                kids,
                i + 1,
                alpha,
                beta.min(found.0),
                memo,
                maximizing,
                best.min(found.0),
            );
        }
    }
}

/// A walk over leaves that the table does not hold is quiet.
pub proof fn lemma_leaves_are_quiet(
    kids: Seq<Padded>,
    i: int,
    alpha: Score,
    beta: Score,
    memo: Map<Position, Score>,
    maximizing: bool,
)
    requires
        0 <= i <= kids.len(),
        forall|k: int| i <= k < kids.len() ==> !memo.contains_key((#[trigger] kids[k]).pos),
    ensures
        quiet_scan(kids, i, 0, alpha, beta, memo, maximizing),
    decreases kids.len() - i,
{
    lemma_quiet_scan(kids, i, 0, alpha, beta, memo, maximizing);
    if i < kids.len() {
        assert(!memo.contains_key(kids[i].pos));
        lemma_leaf(kids[i], alpha, beta, memo);
        let found = search(kids[i], 0, alpha, beta, memo);
        if maximizing {
            lemma_leaves_are_quiet(kids, i + 1, alpha.max(found.0), beta, memo, maximizing);
        } else {
            lemma_leaves_are_quiet(kids, i + 1, alpha, beta.min(found.0), memo, maximizing);
        }
    }
}

/// The successors of a state hold one disc more than the state, and no two of
/// them are the same position.
pub proof fn lemma_kids_differ(s: Padded)
    requires
        s.wf(),
        !s.eval.decided(),
    ensures
        forall|j: int|
            0 <= j < ordered_kids(s).len() ==> (#[trigger] ordered_kids(s)[j]).wf()
                && ordered_kids(s)[j].pos.discs() == s.pos.discs() + 1,
        forall|i: int, j: int|
            0 <= i < j < ordered_kids(s).len() ==> (#[trigger] ordered_kids(s)[i]).pos != (
            #[trigger] ordered_kids(s)[j]).pos,
{
    reveal(ordered_kids);
    reveal(ordered_moves);
    lemma_ordered(s);
    lemma_candidates(s);
    lemma_legal_moves(s.pos);
    let n = candidates(s).len() as int;
    lemma_ranking_is_stable(kid_keys(s), n, s.pos.turn == Player::P1);
    assert forall|i: int, j: int| 0 <= i < j < ordered_kids(s).len() implies (
    #[trigger] ordered_kids(s)[i]).pos != (#[trigger] ordered_kids(s)[j]).pos by {
        let a = kid_order(s)[i];
        let b = kid_order(s)[j];
        assert(a != b);
        let ma = candidates(s)[a];
        let mb = candidates(s)[b];
        assert(ma == s.pos.legal_moves()[a] && mb == s.pos.legal_moves()[b]);
        assert(ma.col != mb.col) by {
            if a < b {
                assert(s.pos.legal_moves()[a].col < s.pos.legal_moves()[b].col);
            } else {
                assert(s.pos.legal_moves()[b].col < s.pos.legal_moves()[a].col);
            }
        }
        lemma_after(s.pos, ma);
        lemma_after(s.pos, mb);
        assert(s.pos.after(ma).at(ma.row as int, ma.col as int) is Some);
        assert(s.pos.after(mb).at(ma.row as int, ma.col as int) == s.pos.at(
            ma.row as int,
            ma.col as int,
        ));
    }
    assert forall|j: int| 0 <= j < ordered_kids(s).len() implies (#[trigger] ordered_kids(
        s,
    )[j]).wf() && ordered_kids(s)[j].pos.discs() == s.pos.discs() + 1 by {
        let m = ordered_moves(s)[j];
        assert(s.pos.accepts(m));
        lemma_after(s.pos, m);
    }
}

/// A search to depth one adds at most the state itself to the table.
pub proof fn lemma_depth_one_table(s: Padded, alpha: Score, beta: Score, memo: Map<Position, Score>)
    ensures
        forall|p: Position|
            #[trigger] search(s, 1, alpha, beta, memo).1.contains_key(p) ==> memo.contains_key(p)
                || p == s.pos,
{
    lemma_search(s, 1, alpha, beta, memo);
    let maximizing = s.pos.turn == Player::P1;
    lemma_leaves_keep_table(
        ordered_kids(s),
        0,
        alpha,
        beta,
        memo,
        maximizing,
        base_value(maximizing),
    );
}

/// Whether the table holds nothing but the first `n` successors of the state.
pub open spec fn only_kids_before(s: Padded, n: int, memo: Map<Position, Score>) -> bool {
    forall|p: Position|
        #[trigger] memo.contains_key(p) ==> exists|k: int|
            0 <= k < n && (#[trigger] ordered_kids(s)[k]).pos == p
}

/// A search to a depth of at most one of a successor is quiet if the table
/// holds nothing but successors that came before it, and it adds at most the
/// successor itself to the table.
pub proof fn lemma_kid_is_quiet(
    s: Padded,
    i: int,
    depth: nat,
    alpha: Score,
    beta: Score,
    memo: Map<Position, Score>,
)
    requires
        s.wf(),
        !s.eval.decided(),
        0 <= i < ordered_kids(s).len(),
        depth <= 1,
        only_kids_before(s, i, memo),
    ensures
        ordered_kids(s)[i].wf(),
        quiet(ordered_kids(s)[i], depth, alpha, beta, memo),
        only_kids_before(s, i + 1, search(ordered_kids(s)[i], depth, alpha, beta, memo).1),
{
    let kids = ordered_kids(s);
    let kid = kids[i];
    let found = search(kid, depth, alpha, beta, memo);
    lemma_kids_differ(s);
    assert(!memo.contains_key(kid.pos)) by {
        if memo.contains_key(kid.pos) {
            let k = choose|k: int| 0 <= k < i && (#[trigger] kids[k]).pos == kid.pos;
            assert(kids[k].pos != kids[i].pos);
        }
    }
    lemma_quiet(kid, depth, alpha, beta, memo);
    if depth == 0 {
        lemma_leaf(kid, alpha, beta, memo);
    } else {
        if !kid.eval.decided() {
            let below = ordered_kids(kid);
            lemma_kids_differ(kid);
            assert forall|j: int| 0 <= j < below.len() implies !memo.contains_key(
                (#[trigger] below[j]).pos,
            ) by {
                if memo.contains_key(below[j].pos) {
                    let k = choose|k: int| 0 <= k < i && (#[trigger] kids[k]).pos == below[j].pos;
                    assert(kids[k].pos.discs() == s.pos.discs() + 1);
                    assert(below[j].pos.discs() == kid.pos.discs() + 1);
                }
            }
            lemma_leaves_are_quiet(below, 0, alpha, beta, memo, kid.pos.turn == Player::P1);
        }
        lemma_depth_one_table(kid, alpha, beta, memo);
    }
    assert forall|p: Position| #[trigger] found.1.contains_key(p) implies exists|k: int|
        0 <= k < i + 1 && (#[trigger] kids[k]).pos == p by {
        if memo.contains_key(p) {
            let k = choose|k: int| 0 <= k < i && (#[trigger] kids[k]).pos == p;
            assert(0 <= k < i + 1 && kids[k].pos == p);
        } else {
            assert(kids[i].pos == p);
        }
    }
}

/// A walk to depth one over the successors of a state is quiet if the table
/// holds nothing but successors that the walk has left behind.
pub proof fn lemma_kids_are_quiet(
    s: Padded,
    i: int,
    alpha: Score,
    beta: Score,
    memo: Map<Position, Score>,
)
    requires
        s.wf(),
        !s.eval.decided(),
        0 <= i <= ordered_kids(s).len(),
        only_kids_before(s, i, memo),
    ensures
        quiet_scan(ordered_kids(s), i, 1, alpha, beta, memo, s.pos.turn == Player::P1),
    decreases ordered_kids(s).len() - i,
{
    let kids = ordered_kids(s);
    let maximizing = s.pos.turn == Player::P1;
    lemma_quiet_scan(kids, i, 1, alpha, beta, memo, maximizing);
    if i < kids.len() {
        let found = search(kids[i], 1, alpha, beta, memo);
        lemma_kid_is_quiet(s, i, 1, alpha, beta, memo);
        if maximizing {
            lemma_kids_are_quiet(s, i + 1, alpha.max(found.0), beta, found.1);
        } else {
            lemma_kids_are_quiet(s, i + 1, alpha, beta.min(found.0), found.1);
        }
    }
}

/// The search is sound to depth two.
///
/// Started with the empty table and the widest bounds, a search to a depth of
/// at most two gives a state its minimax value: no position comes up twice
/// within two moves, so the table answers for none.
pub proof fn lemma_shallow_search_is_minimax(s: Padded, depth: nat)
    requires
        s.wf(),
        depth <= 2,
    ensures
        search(s, depth, Score::NegInf, Score::PosInf, Map::empty()).0 == minimax(s, depth),
{
    let memo = Map::<Position, Score>::empty();
    let maximizing = s.pos.turn == Player::P1;
    lemma_quiet(s, depth, Score::NegInf, Score::PosInf, memo);
    if !s.eval.decided() {
        if depth == 1 {
            lemma_leaves_are_quiet(
                ordered_kids(s),
                0,
                Score::NegInf,
                Score::PosInf,
                memo,
                maximizing,
            );
        } else if depth == 2 {
            lemma_kids_are_quiet(s, 0, Score::NegInf, Score::PosInf, memo);
        }
    }
    lemma_search_is_minimax(s, depth, memo);
}

/// The value of a position by a walk over every legal move to `depth`, with
/// no bounds, no table and no pruning: a decided position, and any position at
/// depth zero, has its evaluation; any other position has the best, for the
/// player to move, of the values of the positions after its legal moves.
#[verifier::opaque]
pub open spec fn exhaustive(p: Position, depth: nat) -> Score
    decreases depth, 0nat,
{
    if p.eval().decided() || depth == 0 {
        p.eval()
    } else {
        best_from(p, 0, (depth - 1) as nat)
    }
}

/// The best value, for the player to move, of the positions after the legal
/// moves from the `i`-th on.
#[verifier::opaque]
pub open spec fn best_from(p: Position, i: int, depth: nat) -> Score
    decreases depth, 1 + p.legal_moves().len() - i,
{
    if i < 0 || i >= p.legal_moves().len() {
        base_value(p.turn == Player::P1)
    } else {
        better(
            exhaustive(p.after(p.legal_moves()[i]), depth),
            best_from(p, i + 1, depth),
            p.turn == Player::P1,
        )
    }
}

/// Whether `a` is at least as good as `b` for the player to move.
pub open spec fn at_least(a: Score, b: Score, maximizing: bool) -> bool {
    if maximizing {
        a.key() >= b.key()
    } else {
        a.key() <= b.key()
    }
}

/// What `exhaustive` says of one position.
pub proof fn lemma_exhaustive(p: Position, depth: nat)
    ensures
        exhaustive(p, depth) == if p.eval().decided() || depth == 0 {
            p.eval()
        } else {
            best_from(p, 0, (depth - 1) as nat)
        },
{
    reveal_with_fuel(exhaustive, 2);
    reveal_with_fuel(best_from, 2);
}

/// The best value from a move on is at least as good as the value of every
/// move from there on, and it is the value of one of them unless it is the
/// value from which the player starts.
pub proof fn lemma_best_from(p: Position, i: int, depth: nat)
    requires
        0 <= i <= p.legal_moves().len(),
    ensures
        forall|k: int|
            i <= k < p.legal_moves().len() ==> at_least(
                best_from(p, i, depth),
                exhaustive(p.after(#[trigger] p.legal_moves()[k]), depth),
                p.turn == Player::P1,
            ),
        best_from(p, i, depth) == base_value(p.turn == Player::P1) || exists|k: int|
            i <= k < p.legal_moves().len() && best_from(p, i, depth) == exhaustive(
                p.after(#[trigger] p.legal_moves()[k]),
                depth,
            ),
    decreases p.legal_moves().len() - i,
{
    reveal_with_fuel(exhaustive, 2);
    reveal_with_fuel(best_from, 2);
    if i < p.legal_moves().len() {
        lemma_best_from(p, i + 1, depth);
        let here = exhaustive(p.after(p.legal_moves()[i]), depth);
        let rest = best_from(p, i + 1, depth);
        let best = best_from(p, i, depth);
        assert(best == better(here, rest, p.turn == Player::P1));
        if best == here {
            assert(best == exhaustive(p.after(p.legal_moves()[i]), depth));
        } else if rest != base_value(p.turn == Player::P1) {
            let k = choose|k: int|
                i + 1 <= k < p.legal_moves().len() && rest == exhaustive(
                    p.after(#[trigger] p.legal_moves()[k]),
                    depth,
                );
            assert(i <= k < p.legal_moves().len() && best == exhaustive(
                p.after(p.legal_moves()[k]),
                depth,
            ));
        }
    }
}

/// The best minimax value from a successor on is at least as good as the
/// value of every successor from there on, and it is the value of one of them
/// unless it is the value from which the player starts.
pub proof fn lemma_best_of_kids(kids: Seq<Padded>, i: int, depth: nat, maximizing: bool)
    requires
        0 <= i <= kids.len(),
    ensures
        forall|k: int|
            i <= k < kids.len() ==> at_least(
                best_of(kids, i, depth, maximizing),
                minimax(#[trigger] kids[k], depth),
                maximizing,
            ),
        best_of(kids, i, depth, maximizing) == base_value(maximizing) || exists|k: int|
            i <= k < kids.len() && best_of(kids, i, depth, maximizing) == minimax(
                #[trigger] kids[k],
                depth,
            ),
    decreases kids.len() - i,
{
    lemma_best_of(kids, i, depth, maximizing);
    if i < kids.len() {
        lemma_best_of_kids(kids, i + 1, depth, maximizing);
        let here = minimax(kids[i], depth);
        let rest = best_of(kids, i + 1, depth, maximizing);
        let best = best_of(kids, i, depth, maximizing);
        if best == here {
        } else if rest != base_value(maximizing) {
            let k = choose|k: int|
                i + 1 <= k < kids.len() && rest == minimax(#[trigger] kids[k], depth);
            assert(i <= k < kids.len() && best == minimax(kids[k], depth));
        }
    }
}

/// The legal moves of the mirror image are the mirror images of the legal
/// moves.
pub proof fn lemma_mirrored_legal(p: Position)
    requires
        p.wf(),
    ensures
        forall|i: int|
            0 <= i < p.mirrored().legal_moves().len() ==> p.offers(
                p.mirror_move(#[trigger] p.mirrored().legal_moves()[i]),
            ),
        forall|j: int|
            0 <= j < p.legal_moves().len() ==> p.mirrored().offers(
                p.mirror_move(#[trigger] p.legal_moves()[j]),
            ),
{
    let q = p.mirrored();
    lemma_mirrored(p);
    lemma_legal_moves(p);
    lemma_legal_moves(q);
    assert forall|i: int| 0 <= i < q.legal_moves().len() implies p.offers(
        p.mirror_move(#[trigger] q.legal_moves()[i]),
    ) by {
        let n = q.legal_moves()[i];
        let c = n.col as int;
        assert(q.accepts(n));
        lemma_mirrored_landing(p, c);
        let m = p.landing(p.mirror(c))->0;
        lemma_landing(p, p.mirror(c));
        lemma_mirrored_move(p, m);
        let j = choose|j: int|
            0 <= j < p.legal_moves().len() && #[trigger] p.legal_moves()[j] == p.landing(
                p.mirror(c),
            )->0;
        assert(p.legal_moves()[j] == p.mirror_move(n));
    }
    assert forall|j: int| 0 <= j < p.legal_moves().len() implies q.offers(
        p.mirror_move(#[trigger] p.legal_moves()[j]),
    ) by {
        let m = p.legal_moves()[j];
        assert(p.accepts(m));
        lemma_mirrored_move(p, m);
        let c = p.mirror(m.col as int);
        lemma_mirrored_landing(p, c);
        assert(p.mirror(c) == m.col);
        let i = choose|i: int|
            0 <= i < q.legal_moves().len() && #[trigger] q.legal_moves()[i] == q.landing(c)->0;
        assert(q.legal_moves()[i] == p.mirror_move(m));
    }
}

/// The mirror image of a position has the value of the position.
pub proof fn lemma_exhaustive_mirrored(p: Position, depth: nat)
    requires
        p.wf(),
    ensures
        exhaustive(p.mirrored(), depth) == exhaustive(p, depth),
    decreases depth,
{
    let q = p.mirrored();
    lemma_mirrored_eval(p);
    lemma_exhaustive(p, depth);
    lemma_exhaustive(q, depth);
    if !(p.eval().decided() || depth == 0) {
        let d = (depth - 1) as nat;
        let maximizing = p.turn == Player::P1;
        lemma_legal_moves(p);
        lemma_legal_moves(q);
        lemma_mirrored_legal(p);
        lemma_best_from(p, 0, d);
        lemma_best_from(q, 0, d);
        // A move and its mirror image lead to positions of the same value.
        assert forall|j: int| 0 <= j < p.legal_moves().len() implies exhaustive(
            q.after(p.mirror_move(#[trigger] p.legal_moves()[j])),
            d,
        ) == exhaustive(p.after(p.legal_moves()[j]), d) by {
            let m = p.legal_moves()[j];
            assert(p.accepts(m));
            lemma_mirrored_move(p, m);
            lemma_after(p, m);
            lemma_exhaustive_mirrored(p.after(m), d);
        }
        let bp = best_from(p, 0, d);
        let bq = best_from(q, 0, d);
        assert(at_least(bp, bq, maximizing)) by {
            if bq != base_value(maximizing) {
                let i = choose|i: int|
                    0 <= i < q.legal_moves().len() && bq == exhaustive(
                        q.after(#[trigger] q.legal_moves()[i]),
                        d,
                    );
                let n = q.legal_moves()[i];
                assert(q.accepts(n));
                assert(p.offers(p.mirror_move(n)));
                let j = choose|j: int|
                    0 <= j < p.legal_moves().len() && #[trigger] p.legal_moves()[j]
                        == p.mirror_move(n);
                lemma_mirrored(p);
                lemma_mirrored_move(q, n);
                assert(p.mirror_move(p.legal_moves()[j]) == n);
                assert(at_least(bp, exhaustive(p.after(p.legal_moves()[j]), d), maximizing));
            }
        }
        assert(at_least(bq, bp, maximizing)) by {
            if bp != base_value(maximizing) {
                let j = choose|j: int|
                    0 <= j < p.legal_moves().len() && bp == exhaustive(
                        p.after(#[trigger] p.legal_moves()[j]),
                        d,
                    );
                assert(q.offers(p.mirror_move(p.legal_moves()[j])));
                let i = choose|i: int|
                    0 <= i < q.legal_moves().len() && #[trigger] q.legal_moves()[i]
                        == p.mirror_move(p.legal_moves()[j]);
                assert(at_least(bq, exhaustive(q.after(q.legal_moves()[i]), d), maximizing));
            }
        }
        lemma_key_is_one_to_one(bp, bq);
    }
}

/// On a mirrored board the columns with room before a column and those
/// before its mirror image are all the columns with room but one side's.
proof fn lemma_mirrored_count(p: Position, k: int)
    requires
        p.wf(),
        p.mirror_symmetric(),
        0 <= k <= p.cols,
    ensures
        p.legal_upto(p.cols - k).len() + p.legal_upto(k).len() == p.legal_moves().len(),
    decreases k,
{
    if k > 0 {
        lemma_mirrored_count(p, k - 1);
        lemma_legal_place(p, k - 1);
        lemma_legal_place(p, p.cols - k);
        lemma_mirrored(p);
        lemma_mirrored_landing(p, k - 1);
        assert(p.mirror(k - 1) == p.cols - k);
    }
}

/// On a mirrored board the legal moves read from the back are the mirror
/// images of the legal moves read from the front.
pub proof fn lemma_mirrored_places(p: Position, j: int)
    requires
        p.wf(),
        p.mirror_symmetric(),
        0 <= j < p.legal_moves().len(),
    ensures
        p.legal_moves()[p.legal_moves().len() - 1 - j] == p.mirror_move(p.legal_moves()[j]),
{
    let moves = p.legal_moves();
    let n = moves.len() as int;
    let m = moves[j];
    let c = m.col as int;
    lemma_legal_moves(p);
    lemma_mirrored(p);
    assert(p.accepts(m));
    // The move stands where the count of the columns before it says.
    lemma_legal_place(p, c);
    let at = p.legal_upto(c).len() as int;
    assert(moves[at] == m);
    assert(at == j) by {
        if at < j {
            assert(moves[at].col < moves[j].col);
        } else if j < at {
            assert(moves[j].col < moves[at].col);
        }
    }
    // So does its mirror image.
    let c2 = p.mirror(c);
    lemma_mirrored_landing(p, c2);
    assert(p.mirror(c2) == c);
    assert(p.landing(c2) == Some(p.mirror_move(m)));
    lemma_legal_place(p, c2);
    lemma_mirrored_count(p, c + 1);
    assert(p.cols - (c + 1) == c2);
}

/// Each successor is the position after one of the moves that the search
/// follows.
proof fn lemma_kid_positions(s: Padded)
    requires
        s.wf(),
        !s.eval.decided(),
    ensures
        ordered_kids(s).len() == candidates(s).len(),
        kid_order(s).len() == candidates(s).len(),
        forall|k: int|
            0 <= k < candidates(s).len() ==> 0 <= #[trigger] kid_order(s)[k] < candidates(s).len()
                && ordered_kids(s)[k].pos == s.pos.after(s.pos.legal_moves()[kid_order(s)[k]]),
{
    reveal(ordered_kids);
    reveal(ordered_moves);
    lemma_ordered(s);
    lemma_candidates(s);
}

/// A legal move that the search does not follow has a mirror image that the
/// search follows, and the two lead to positions of the same value.
proof fn lemma_pruned_move(s: Padded, j: int, depth: nat)
    requires
        s.wf(),
        !s.eval.decided(),
        candidates(s).len() <= j < s.pos.legal_moves().len(),
    ensures
        0 <= s.pos.legal_moves().len() - 1 - j < candidates(s).len(),
        exhaustive(s.pos.after(s.pos.legal_moves()[s.pos.legal_moves().len() - 1 - j]), depth)
            == exhaustive(s.pos.after(s.pos.legal_moves()[j]), depth),
{
    let p = s.pos;
    let moves = p.legal_moves();
    let m = moves[j];
    lemma_legal_moves(p);
    lemma_symmetry_counter(s);
    lemma_mirrored(p);
    lemma_mirrored_places(p, j);
    assert(p.accepts(m));
    lemma_mirrored_move(p, m);
    lemma_after(p, m);
    lemma_exhaustive_mirrored(p.after(m), depth);
}

/// Pruning and ordering change nothing: the minimax value over the
/// successors that the search follows is the value of the walk over every
/// legal move.
///
/// On a board that is its own mirror image the search follows the first half
/// of the moves only; each move of the other half leads to the mirror image
/// of a position that a move of the first half leads to, which has the same
/// value.
pub proof fn lemma_minimax_is_exhaustive(s: Padded, depth: nat)
    requires
        s.wf(),
    ensures
        minimax(s, depth) == exhaustive(s.pos, depth),
    decreases depth,
{
    let p = s.pos;
    lemma_minimax(s, depth);
    lemma_exhaustive(p, depth);
    if !(s.eval.decided() || depth == 0) {
        let d = (depth - 1) as nat;
        let maximizing = p.turn == Player::P1;
        let kids = ordered_kids(s);
        let order = kid_order(s);
        let moves = p.legal_moves();
        let n = moves.len() as int;
        let picked = candidates(s).len() as int;
        lemma_kid_positions(s);
        lemma_ordered(s);
        lemma_ranking_covers(kid_keys(s), picked, maximizing);
        lemma_best_of_kids(kids, 0, d, maximizing);
        lemma_best_from(p, 0, d);
        assert(picked <= n) by {
            lemma_candidates(s);
        }
        let b1 = best_of(kids, 0, d, maximizing);
        let b2 = best_from(p, 0, d);
        assert(at_least(b2, b1, maximizing)) by {
            if b1 != base_value(maximizing) {
                let k = choose|k: int| 0 <= k < kids.len() && b1 == minimax(#[trigger] kids[k], d);
                let a = order[k];
                assert(kids[k].wf());
                lemma_minimax_is_exhaustive(kids[k], d);
                assert(b1 == exhaustive(p.after(moves[a]), d));
                assert(at_least(b2, exhaustive(p.after(moves[a]), d), maximizing));
            }
        }
        assert(at_least(b1, b2, maximizing)) by {
            if b2 != base_value(maximizing) {
                let j = choose|j: int|
                    0 <= j < n && b2 == exhaustive(p.after(#[trigger] moves[j]), d);
                // The move itself, or its mirror image, is among the first.
                let a = if j < picked {
                    j
                } else {
                    n - 1 - j
                };
                if j >= picked {
                    lemma_pruned_move(s, j, d);
                }
                assert(0 <= a < picked);
                assert(exhaustive(p.after(moves[a]), d) == b2);
                assert(has_place(order, a));
                let k = choose|k: int| 0 <= k < order.len() && #[trigger] order[k] == a;
                assert(kids[k].wf());
                lemma_minimax_is_exhaustive(kids[k], d);
                assert(minimax(kids[k], d) == b2);
                assert(at_least(b1, minimax(kids[k], d), maximizing));
            }
        }
        lemma_key_is_one_to_one(b1, b2);
    }
}

/// The search is sound.
///
/// With the widest bounds, and as long as the table answers for no state on
/// the way, the search gives a state the value of the exhaustive walk over
/// every legal move to the same depth. Started with the empty table, a search
/// to a depth of at most two is such a search.
pub proof fn lemma_search_is_exhaustive(s: Padded, depth: nat, memo: Map<Position, Score>)
    requires
        s.wf(),
        quiet(s, depth, Score::NegInf, Score::PosInf, memo) || (depth <= 2 && memo
            == Map::<Position, Score>::empty()),
    ensures
        search(s, depth, Score::NegInf, Score::PosInf, memo).0 == exhaustive(s.pos, depth),
{
    if quiet(s, depth, Score::NegInf, Score::PosInf, memo) {
        lemma_search_is_minimax(s, depth, memo);
    } else {
        lemma_shallow_search_is_minimax(s, depth);
    }
    lemma_minimax_is_exhaustive(s, depth);
}

/// At the top of a shallow search every successor gets its exact value.
///
/// The successors are searched to a depth of at most one with the widest
/// bounds, which the values found never narrow, and with a table that holds
/// nothing but successors searched before: each value is that of the
/// exhaustive walk from the successor.
pub proof fn lemma_root_is_exact(s: Padded, n: int, depth: nat)
    requires
        s.wf(),
        !s.eval.decided(),
        depth <= 1,
        0 <= n <= ordered_kids(s).len(),
    ensures
        root(ordered_kids(s), n, depth).alpha == Score::NegInf,
        root(ordered_kids(s), n, depth).beta == Score::PosInf,
        root(ordered_kids(s), n, depth).values.len() == n,
        only_kids_before(s, n, root(ordered_kids(s), n, depth).memo),
        forall|i: int|
            0 <= i < n ==> #[trigger] root(ordered_kids(s), n, depth).values[i] == exhaustive(
                ordered_kids(s)[i].pos,
                depth,
            ),
    decreases n,
{
    let kids = ordered_kids(s);
    lemma_root(kids, n, depth);
    if n > 0 {
        lemma_root_is_exact(s, n - 1, depth);
        let before = root(kids, n - 1, depth);
        lemma_kid_is_quiet(s, n - 1, depth, Score::NegInf, Score::PosInf, before.memo);
        lemma_search_is_exhaustive(kids[n - 1], depth, before.memo);
    }
}

/// A sequence of keys that is not empty has a first largest and a first
/// smallest key.
pub proof fn lemma_first_exists(keys: Seq<i64>, n: int)
    requires
        0 < n <= keys.len(),
    ensures
        exists|i: int| is_first_max(keys.take(n), i),
        exists|i: int| is_first_min(keys.take(n), i),
    decreases n,
{
    let head = keys.take(n);
    if n == 1 {
        assert(is_first_max(head, 0));
        assert(is_first_min(head, 0));
    } else {
        lemma_first_exists(keys, n - 1);
        let shorter = keys.take(n - 1);
        let a = choose|i: int| is_first_max(shorter, i);
        let b = choose|i: int| is_first_min(shorter, i);
        assert forall|j: int| 0 <= j < n - 1 implies head[j] == shorter[j] by {}
        let a2 = if head[n - 1] > head[a] {
            n - 1
        } else {
            a
        };
        let b2 = if head[n - 1] < head[b] {
            n - 1
        } else {
            b
        };
        assert(is_first_max(head, a2)) by {
            assert forall|j: int| 0 <= j < n implies head[j] <= head[a2] by {
                if j < n - 1 {
                    assert(shorter[j] <= shorter[a]);
                }
            }
            assert forall|j: int| 0 <= j < a2 implies head[j] < head[a2] by {
                if a2 == a {
                    assert(shorter[j] < shorter[a]);
                } else {
                    assert(shorter[j] <= shorter[a]);
                }
            }
        }
        assert(is_first_min(head, b2)) by {
            assert forall|j: int| 0 <= j < n implies head[j] >= head[b2] by {
                if j < n - 1 {
                    assert(shorter[j] >= shorter[b]);
                }
            }
            assert forall|j: int| 0 <= j < b2 implies head[j] > head[b2] by {
                if b2 == b {
                    assert(shorter[j] > shorter[b]);
                } else {
                    assert(shorter[j] >= shorter[b]);
                }
            }
        }
    }
}

/// A shallow search picks a best move.
///
/// In a game that has no result yet, the move that a search to a depth of at
/// most one below the successors picks is a legal move, and no legal move
/// leads to a position with a better value, for the player to move, by the
/// exhaustive walk to that depth.
pub proof fn lemma_best_move_is_best(p: Position, depth: nat, j: int)
    requires
        p.wf(),
        p.result() is None,
        depth <= 1,
        0 <= j < p.legal_moves().len(),
    ensures
        p.offers(best_move(p, depth)),
        at_least(
            exhaustive(p.after(best_move(p, depth)), depth),
            exhaustive(p.after(p.legal_moves()[j]), depth),
            p.turn == Player::P1,
        ),
{
    let s = padded_of(p);
    let maximizing = p.turn == Player::P1;
    let kids = ordered_kids(s);
    let order = kid_order(s);
    let moves = p.legal_moves();
    let n = moves.len() as int;
    let picked = candidates(s).len() as int;
    lemma_mismatched_bound(p);
    assert(s.wf());
    lemma_in_progress(s);
    lemma_candidates(s);
    lemma_kid_positions(s);
    lemma_ordered(s);
    lemma_ranking_covers(kid_keys(s), picked, maximizing);
    lemma_root_is_exact(s, picked, depth);
    let values = root(kids, picked, depth).values;
    let keys = value_keys(values);
    lemma_first_exists(keys, picked);
    assert(keys.take(picked) =~= keys);
    let best = best_index(values, maximizing);
    assert(if maximizing {
        is_first_max(keys, best)
    } else {
        is_first_min(keys, best)
    });
    // The move that is picked.
    let m = best_move(p, depth);
    assert(m == ordered_moves(s)[best]);
    assert(m == moves[order[best]]) by {
        reveal(ordered_moves);
    }
    assert(values[best] == exhaustive(p.after(m), depth));
    // The move that it is held against, or its mirror image.
    let a = if j < picked {
        j
    } else {
        n - 1 - j
    };
    if j >= picked {
        lemma_pruned_move(s, j, depth);
    }
    assert(has_place(order, a));
    let k = choose|k: int| 0 <= k < order.len() && #[trigger] order[k] == a;
    assert(values[k] == exhaustive(p.after(moves[a]), depth));
    assert(keys[k] == values[k].key() && keys[best] == values[best].key());
}

} // verus!
