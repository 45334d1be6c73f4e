//! Evaluations: a whole number of lines, or a decided game.

use vstd::prelude::*;

verus! {

/// The value of a position, seen from the first player's side: larger is
/// better for the first player, smaller for the second.
///
/// `PosInf` stands for a game the first player has won and `NegInf` for one
/// the second player has won; a finite value counts lines.
#[derive(Copy, Clone, Debug, PartialEq, Eq, Hash, Structural)]
pub enum Score {
    NegInf,
    Finite(i32),
    PosInf,
}

impl Score {
    /// An integer that orders scores: `NegInf` below every finite score, and
    /// `PosInf` above.
    pub open spec fn key(self) -> int {
        match self {
            Score::NegInf => i64::MIN as int,
            Score::Finite(v) => v as int,
            Score::PosInf => i64::MAX as int,
        }
    }

    pub open spec fn lt(self, other: Score) -> bool {
        self.key() < other.key()
    }

    pub open spec fn le(self, other: Score) -> bool {
        self.key() <= other.key()
    }

    /// The larger of two scores.
    pub open spec fn max(self, other: Score) -> Score {
        if self.key() >= other.key() {
            self
        } else {
            other
        }
    }

    /// The smaller of two scores.
    pub open spec fn min(self, other: Score) -> Score {
        if self.key() <= other.key() {
            self
        } else {
            other
        }
    }

    /// The score moved by `delta` lines. A decided game stays decided.
    pub open spec fn plus(self, delta: int) -> Score {
        match self {
            Score::Finite(v) => Score::Finite((v + delta) as i32),
            decided => decided,
        }
    }

    /// The same score seen from the other player's side.
    pub open spec fn negated(self) -> Score {
        match self {
            Score::NegInf => Score::PosInf,
            Score::Finite(v) => Score::Finite((-v) as i32),
            Score::PosInf => Score::NegInf,
        }
    }

    /// Whether the score stands for a game that one player has won.
    pub open spec fn decided(self) -> bool {
        self is NegInf || self is PosInf
    }

    /// The integer by which scores are ordered.
    pub fn sort_key(&self) -> (k: i64)
        ensures
            k == self.key(),
    {
        match self {
            Score::NegInf => i64::MIN,
            Score::Finite(v) => *v as i64,
            Score::PosInf => i64::MAX,
        }
    }

    /// Whether this score is strictly below `other`.
    pub fn less_than(&self, other: &Score) -> (b: bool)
        ensures
            b == self.lt(*other),
    {
        self.sort_key() < other.sort_key()
    }

    /// The larger of the two scores; the first if they are equal.
    pub fn larger(self, other: Score) -> (m: Score)
        ensures
            m == self.max(other),
    {
        if self.sort_key() >= other.sort_key() {
            self
        } else {
            other
        }
    }

    /// The smaller of the two scores; the first if they are equal.
    pub fn smaller(self, other: Score) -> (m: Score)
        ensures
            m == self.min(other),
    {
        if self.sort_key() <= other.sort_key() {
            self
        } else {
            other
        }
    }

    /// The score moved by `delta` lines. A decided game stays decided.
    pub fn shifted(self, delta: i32) -> (s: Score)
        requires
            self matches Score::Finite(v) ==> i32::MIN <= v + delta <= i32::MAX,
        ensures
            s == self.plus(delta as int),
    {
        match self {
            Score::Finite(v) => Score::Finite(v + delta),
            decided => decided,
        }
    }

    /// Whether the score stands for a game that one player has won.
    pub fn is_decided(&self) -> (b: bool)
        ensures
            b == self.decided(),
    {
        match self {
            Score::Finite(_) => false,
            _ => true,
        }
    }
}

} // verus!
