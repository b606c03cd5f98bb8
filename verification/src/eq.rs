use vstd::prelude::*;

use crate::board::{Board, BoardState, Move};
use crate::matrix::Matrix2D;

verus! {

impl PartialEq for Matrix2D<i8> {
    /// Structural equality: same dimensions and same cells.
    fn eq(&self, other: &Self) -> (r: bool) {
        if self.size.x != other.size.x || self.size.y != other.size.y {
            return false;
        }
        if self.store.len() != other.store.len() {
            return false;
        }
        let mut i: usize = 0;
        while i < self.store.len()
            invariant
                i <= self.store@.len(),
                self.store@.len() == other.store@.len(),
                self.size == other.size,
                forall|j: int| 0 <= j < i ==> self.store@[j] == other.store@[j],
            decreases self.store@.len() - i,
        {
            if self.store[i] != other.store[i] {
                return false;
            }
            i = i + 1;
        }
        proof {
            assert(self.store@ =~= other.store@);
            assert(self@ == other@);
        }
        true
    }
}

impl vstd::std_specs::cmp::PartialEqSpecImpl for Matrix2D<i8> {
    open spec fn obeys_eq_spec() -> bool {
        true
    }

    open spec fn eq_spec(&self, other: &Self) -> bool {
        self@ == other@
    }
}

impl PartialEq for BoardState {
    /// Structural equality of puzzle states: equal hole lists and
    /// equal block lists.
    fn eq(&self, other: &Self) -> (r: bool) {
        self.eq_state(other)
    }
}

impl vstd::std_specs::cmp::PartialEqSpecImpl for BoardState {
    open spec fn obeys_eq_spec() -> bool {
        true
    }

    open spec fn eq_spec(&self, other: &Self) -> bool {
        self@ == other@
    }
}

fn eq_moves(a: &Vec<Move>, b: &Vec<Move>) -> (r: bool)
    ensures
        r == (a@ == b@),
{
    if a.len() != b.len() {
        proof {
            assert(a@ != b@);
        }
        return false;
    }
    let mut i: usize = 0;
    while i < a.len()
        invariant
            i <= a@.len(),
            a@.len() == b@.len(),
            forall|j: int| 0 <= j < i ==> a@[j] == b@[j],
        decreases a@.len() - i,
    {
        if a[i].0 != b[i].0 || a[i].1 != b[i].1 {
            return false;
        }
        i = i + 1;
    }
    proof {
        assert(a@ =~= b@);
    }
    true
}

impl PartialEq for Board {
    /// Structural equality of boards: equal grids, states, goal states
    /// and move caches.
    fn eq(&self, other: &Self) -> (r: bool) {
        let r = self.grid == other.grid && self.state.eq_state(&other.state)
            && self.final_state.eq_state(&other.final_state) && eq_moves(
            &self._possible_moves,
            &other._possible_moves,
        );
        proof {
            if r {
                assert(self@ == other@);
            }
        }
        r
    }
}

impl vstd::std_specs::cmp::PartialEqSpecImpl for Board {
    open spec fn obeys_eq_spec() -> bool {
        true
    }

    open spec fn eq_spec(&self, other: &Self) -> bool {
        self@ == other@
    }
}

} // verus!
