//! The transposition table: what the search has already found out about
//! positions, looked up by the full state.

use std::collections::HashMap;
use vstd::prelude::*;
use crate::board::{GameState, Position};
use crate::player::{Disc, Player};
use crate::score::Score;

verus! {

/// The modulus of the hash, the prime 2^61 - 1.
const HASH_MODULUS: u64 = 0x1FFF_FFFF_FFFF_FFFF;

spec fn cell_code(d: Disc) -> int {
    match d {
        None => 0,
        Some(Player::P1) => 1,
        Some(Player::P2) => 2,
    }
}

/// The hash of the player to move and of the cells that come before
/// (`r`, `c`) in row-major order.
spec fn hash_cells(p: Position, r: int, c: int) -> int
    decreases r, c,
{
    if c > 0 {
        (hash_cells(p, r, c - 1) * 3 + cell_code(p.at(r, c - 1))) % (HASH_MODULUS as int)
    } else if r > 0 {
        hash_cells(p, r - 1, p.cols as int)
    } else if p.turn == Player::P1 {
        1
    } else {
        2
    }
}

/// The hash of a position.
spec fn hash_of(p: Position) -> int {
    hash_cells(p, p.rows as int, 0)
}

proof fn lemma_hash_range(p: Position, r: int, c: int)
    requires
        0 <= r,
        0 <= c,
    ensures
        0 <= hash_cells(p, r, c) < HASH_MODULUS,
    decreases r, c,
{
    if c > 0 {
        lemma_hash_range(p, r, c - 1);
    } else if r > 0 {
        lemma_hash_range(p, r - 1, p.cols as int);
    }
}

/// The hash of a state.
fn hash(gs: &GameState) -> (h: u64)
    requires
        gs@.wf(),
    ensures
        h == hash_of(gs@),
{
    let rows = gs.rows();
    let cols = gs.cols();
    let mut h: u64 = match gs.turn() {
        Player::P1 => 1,
        Player::P2 => 2,
    };
    let mut r: usize = 0;
    while r < rows
        invariant
            gs@.wf(),
            rows == gs@.rows,
            cols == gs@.cols,
            r <= rows,
            h == hash_cells(gs@, r as int, 0),
            h < HASH_MODULUS,
        decreases rows - r,
    {
        let mut c: usize = 0;
        while c < cols
            invariant
                gs@.wf(),
                rows == gs@.rows,
                cols == gs@.cols,
                r < rows,
                c <= cols,
                h == hash_cells(gs@, r as int, c as int),
                h < HASH_MODULUS,
            decreases cols - c,
        {
            let code: u64 = match gs.cell(r, c) {
                None => 0,
                Some(Player::P1) => 1,
                Some(Player::P2) => 2,
            };
            h = (h * 3 + code) % HASH_MODULUS;
            c = c + 1;
        }
        r = r + 1;
    }
    h
}

/// What the search has found: a map from positions to values.
///
/// States are kept in buckets under a hash of their board and told apart by
/// comparing them in full, so two different states never share a value.
pub struct TranspositionTable {
    buckets: HashMap<u64, Vec<(GameState, Score)>>,
    contents: Ghost<Map<Position, Score>>,
}

impl View for TranspositionTable {
    type V = Map<Position, Score>;

    closed spec fn view(&self) -> Map<Position, Score> {
        self.contents@
    }
}

/// Whether the states of a bucket belong under `key`, differ from each other
/// and hold the values that `contents` gives them.
spec fn bucket_ok(bucket: Seq<(GameState, Score)>, key: u64, contents: Map<Position, Score>) -> bool {
    &&& forall|i: int|
        0 <= i < bucket.len() ==> {
            &&& (#[trigger] bucket[i]).0@.wf()
            &&& hash_of(bucket[i].0@) == key
            &&& contents.contains_key(bucket[i].0@)
            &&& contents[bucket[i].0@] == bucket[i].1
        }
    &&& forall|i: int, j: int|
        0 <= i < j < bucket.len() ==> (#[trigger] bucket[i]).0@ != (#[trigger] bucket[j]).0@
}

/// Whether `p` is one of the states of the bucket.
spec fn in_bucket(bucket: Seq<(GameState, Score)>, p: Position) -> bool {
    exists|i: int| 0 <= i < bucket.len() && (#[trigger] bucket[i]).0@ == p
}

impl TranspositionTable {
    /// The buckets hold exactly what the view says.
    pub closed spec fn wf(&self) -> bool {
        &&& forall|k: u64| #[trigger]
            self.buckets@.contains_key(k) ==> bucket_ok(self.buckets@[k]@, k, self.contents@)
        &&& forall|p: Position| #[trigger]
            self.contents@.contains_key(p) ==> self.buckets@.contains_key(hash_of(p) as u64)
                && in_bucket(self.buckets@[hash_of(p) as u64]@, p)
    }

    /// The empty table.
    pub fn new() -> (table: TranspositionTable)
        ensures
            table.wf(),
            table@ == Map::<Position, Score>::empty(),
    {
        TranspositionTable { buckets: HashMap::new(), contents: Ghost(Map::empty()) }
    }

    /// The value kept for the state, if there is one.
    pub fn get(&self, gs: &GameState) -> (value: Option<Score>)
        requires
            self.wf(),
            gs@.wf(),
        ensures
            value == if self@.contains_key(gs@) {
                Some(self@[gs@])
            } else {
                None
            },
    {
        let key = hash(gs);
        match self.buckets.get(&key) {
            None => None,
            Some(bucket) => {
                assert(self.buckets@.contains_key(key));
                let mut i: usize = 0;
                while i < bucket.len()
                    invariant
                        self.wf(),
                        gs@.wf(),
                        key == hash_of(gs@),
                        self.buckets@.contains_key(key),
                        *bucket == self.buckets@[key],
                        i <= bucket@.len(),
                        forall|j: int| 0 <= j < i ==> (#[trigger] bucket@[j]).0@ != gs@,
                    decreases bucket@.len() - i,
                {
                    assert(bucket_ok(bucket@, key, self.contents@));
                    if bucket[i].0.same(gs) {
                        return Some(bucket[i].1);
                    }
                    i = i + 1;
                }
                None
            },
        }
    }

    /// Keeps `value` for the state, in place of what was kept for it before.
    pub fn insert(&mut self, gs: GameState, value: Score)
        requires
            old(self).wf(),
            gs@.wf(),
        ensures
            final(self).wf(),
            final(self)@ == old(self)@.insert(gs@, value),
    {
        let key = hash(&gs);
        let ghost before = self.buckets@;
        let ghost contents = self.contents@;
        let ghost target = gs@;
        let found = self.buckets.remove(&key);
        let mut bucket: Vec<(GameState, Score)> = match found {
            Some(b) => b,
            None => Vec::new(),
        };
        let ghost was = bucket@;
        assert(bucket_ok(was, key, contents)) by {
            if before.contains_key(key) {
                assert(was == before[key]@);
            }
        }
        let mut i: usize = 0;
        let mut found = false;
        while i < bucket.len() && !found
            invariant
                gs@.wf(),
                target == gs@,
                bucket@ == was,
                bucket_ok(was, key, contents),
                i <= bucket@.len(),
                forall|j: int| 0 <= j < i ==> (#[trigger] bucket@[j]).0@ != target,
                found ==> i < bucket@.len() && bucket@[i as int].0@ == target,
            decreases bucket@.len() - i + if found { 0int } else { 1 },
        {
            if bucket[i].0.same(&gs) {
                found = true;
            } else {
                i = i + 1;
            }
        }
        assert forall|a: int| 0 <= a < was.len() && a != i implies (#[trigger] was[a]).0@
            != target by {
            if a > i {
                assert(was[i as int].0@ != was[a].0@);
            }
        }
        if found {
            bucket.set(i, (gs, value));
        } else {
            bucket.push((gs, value));
        }
        let ghost now = bucket@;
        let ghost updated = contents.insert(target, value);
        assert(bucket_ok(now, key, updated)) by {
            assert forall|a: int| 0 <= a < now.len() implies {
                &&& (#[trigger] now[a]).0@.wf()
                &&& hash_of(now[a].0@) == key
                &&& updated.contains_key(now[a].0@)
                &&& updated[now[a].0@] == now[a].1
            } by {
                if a != i {
                    assert(now[a] == was[a]);
                    assert(was[a].0@ != target);
                }
            }
            assert forall|a: int, b: int| 0 <= a < b < now.len() implies (#[trigger] now[a]).0@ != (
            #[trigger] now[b]).0@ by {
                if a != i {
                    assert(now[a] == was[a]);
                }
                if b != i {
                    assert(now[b] == was[b]);
                }
            }
        }
        assert(in_bucket(now, target)) by {
            assert(now[i as int].0@ == target);
        }
        assert forall|p: Position| in_bucket(was, p) implies in_bucket(now, p) by {
            let j = choose|j: int| 0 <= j < was.len() && (#[trigger] was[j]).0@ == p;
            if j == i {
                assert(now[i as int].0@ == target);
            } else {
                assert(now[j] == was[j]);
            }
        }
        self.buckets.insert(key, bucket);
        self.contents = Ghost(updated);
        proof {
            let after = self.buckets@;
            assert forall|k: u64| #[trigger] after.contains_key(k) implies bucket_ok(
                after[k]@,
                k,
                updated,
            ) by {
                if k != key {
                    assert(before.contains_key(k));
                    let other = before[k]@;
                    assert(bucket_ok(other, k, contents));
                    assert forall|a: int| 0 <= a < other.len() implies (#[trigger] other[a]).0@
                        != target by {
                        assert(hash_of(other[a].0@) == k);
                    }
                }
            }
            assert forall|p: Position| #[trigger] updated.contains_key(p) implies after.contains_key(
                hash_of(p) as u64,
            ) && in_bucket(after[hash_of(p) as u64]@, p) by {
                lemma_hash_range(p, p.rows as int, 0);
                if p != target {
                    assert(contents.contains_key(p));
                    if hash_of(p) as u64 == key {
                        assert(before.contains_key(key));
                        assert(in_bucket(was, p));
                    }
                }
            }
        }
    }
}

} // verus!
