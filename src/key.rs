//! The key by which best-first search ranks boards.
use vstd::prelude::*;
use std::cmp::Ordering;
use crate::board::{Board, BoardView};

verus! {

/// A board's rank: more queens first, then a higher secondary score.
#[derive(Debug, Clone, Copy, PartialEq, Eq, Structural)]
pub struct BoardEval {
    pub n_queens: usize,
    pub n_open: usize,
}

/// The secondary score of a board of size `n`. It does not depend on the
/// placed queens, so among boards of one size it never breaks a tie.
pub open spec fn open_score(n: nat) -> nat {
    if n >= 2 { n + 1 } else { 0 }
}

/// The key of a board value.
pub open spec fn board_key(b: BoardView) -> BoardEval {
    BoardEval { n_queens: b.depth() as usize, n_open: open_score(b.n) as usize }
}

/// `a` ranks no higher than `b` under the lexicographic order of the key.
pub open spec fn key_le(a: BoardEval, b: BoardEval) -> bool {
    a.n_queens < b.n_queens || (a.n_queens == b.n_queens && a.n_open <= b.n_open)
}

/// The lexicographic comparison of two keys.
pub open spec fn key_cmp(a: BoardEval, b: BoardEval) -> Ordering {
    if a.n_queens > b.n_queens {
        Ordering::Greater
    } else if a.n_queens < b.n_queens {
        Ordering::Less
    } else if a.n_open > b.n_open {
        Ordering::Greater
    } else if a.n_open < b.n_open {
        Ordering::Less
    } else {
        Ordering::Equal
    }
}

impl BoardEval {
    /// Compares two keys: first by queens placed, then by secondary score.
    pub fn compare(&self, other: &BoardEval) -> (r: Ordering)
        ensures
            r == key_cmp(*self, *other),
    {
        if self.n_queens > other.n_queens {
            Ordering::Greater
        } else if self.n_queens < other.n_queens {
            Ordering::Less
        } else if self.n_open > other.n_open {
            Ordering::Greater
        } else if self.n_open < other.n_open {
            Ordering::Less
        } else {
            Ordering::Equal
        }
    }
}

impl Board {
    /// The ranking key of this board.
    pub fn eval(&self) -> (r: BoardEval)
        requires
            self.wf(),
        ensures
            r == board_key(self@),
    {
        proof {
            self.lemma_valid();
        }
        let n = self.n();
        let n_open: usize = if n >= 2 { n + 1 } else { 0 };
        BoardEval { n_queens: self.queens(), n_open }
    }
}

} // verus!
