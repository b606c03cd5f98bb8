use vstd::prelude::*;

use crate::board::{Block, Board, BoardView};

verus! {

/// Absolute value.
pub open spec fn abs1(a: int) -> int {
    if a < 0 {
        -a
    } else {
        a
    }
}

/// The L1 (Manhattan) distance between two blocks' anchors.
pub open spec fn l1(a: Block, b: Block) -> int {
    abs1(a.pos.x - b.pos.x) + abs1(a.pos.y - b.pos.y)
}

/// The sum of anchor distances over the first `n` blocks.
pub open spec fn h_sum(cur: Seq<Block>, goal: Seq<Block>, n: int) -> int
    decreases n,
{
    if n <= 0 {
        0
    } else {
        h_sum(cur, goal, n - 1) + l1(cur[n - 1], goal[n - 1])
    }
}

/// The heuristic of a board value: the total L1 distance between each
/// block's current anchor and its goal anchor.
pub open spec fn spec_heuristic(v: BoardView) -> int {
    h_sum(v.state.blocks, v.goal.blocks, v.state.blocks.len() as int)
}

/// Partial sums of anchor distances are non-negative and bounded by
/// `254` per block when every anchor lies in `[0, 127]`.
pub proof fn lemma_h_sum_bounds(cur: Seq<Block>, goal: Seq<Block>, n: int)
    requires
        0 <= n <= cur.len(),
        n <= goal.len(),
        forall|i: int|
            0 <= i < n ==> -127 <= (#[trigger] cur[i]).pos.x - goal[i].pos.x <= 127 && -127 <= cur[i].pos.y
                - goal[i].pos.y <= 127,
    ensures
        0 <= h_sum(cur, goal, n) <= 254 * n,
    decreases n,
{
    if n > 0 {
        lemma_h_sum_bounds(cur, goal, n - 1);
    }
}

/// Changing one block changes the sum only by that block's
/// contribution.
pub proof fn lemma_h_sum_update(cur: Seq<Block>, goal: Seq<Block>, n: int, j: int, nb: Block)
    requires
        0 <= j < n <= cur.len(),
    ensures
        h_sum(cur.update(j, nb), goal, n) == h_sum(cur, goal, n) - l1(cur[j], goal[j]) + l1(
            nb,
            goal[j],
        ),
    decreases n,
{
    if n > 0 {
        if j == n - 1 {
            assert(cur.update(j, nb)[n - 1] == nb);
            assert forall|i: int| 0 <= i < n - 1 implies cur.update(j, nb)[i] == cur[i] by {}
            lemma_h_sum_same(cur.update(j, nb), cur, goal, n - 1);
        } else {
            assert(cur.update(j, nb)[n - 1] == cur[n - 1]);
            lemma_h_sum_update(cur, goal, n - 1, j, nb);
        }
    }
}

/// Two block lists that agree on the first `n` entries have the same
/// partial sum.
pub proof fn lemma_h_sum_same(a: Seq<Block>, b: Seq<Block>, goal: Seq<Block>, n: int)
    requires
        0 <= n <= a.len(),
        n <= b.len(),
        forall|i: int| 0 <= i < n ==> a[i] == b[i],
    ensures
        h_sum(a, goal, n) == h_sum(b, goal, n),
    decreases n,
{
    if n > 0 {
        lemma_h_sum_same(a, b, goal, n - 1);
    }
}

/// Sums of anchor distances are non-negative.
pub proof fn lemma_h_sum_nonneg(cur: Seq<Block>, goal: Seq<Block>, n: int)
    ensures
        h_sum(cur, goal, n) >= 0,
    decreases n,
{
    if n > 0 {
        lemma_h_sum_nonneg(cur, goal, n - 1);
    }
}

/// A zero sum forces every block onto its goal anchor.
pub proof fn lemma_h_sum_zero_inv(cur: Seq<Block>, goal: Seq<Block>, n: int)
    requires
        0 <= n <= cur.len(),
        n <= goal.len(),
        h_sum(cur, goal, n) == 0,
    ensures
        forall|i: int| 0 <= i < n ==> (#[trigger] cur[i]).pos == goal[i].pos,
    decreases n,
{
    if n > 0 {
        lemma_h_sum_nonneg(cur, goal, n - 1);
        assert(l1(cur[n - 1], goal[n - 1]) >= 0);
        lemma_h_sum_zero_inv(cur, goal, n - 1);
        assert(l1(cur[n - 1], goal[n - 1]) == 0);
        assert(cur[n - 1].pos == goal[n - 1].pos);
    }
}

/// When every block sits on its goal anchor the sum is zero.
pub proof fn lemma_h_sum_zero(cur: Seq<Block>, goal: Seq<Block>, n: int)
    requires
        0 <= n <= cur.len(),
        n <= goal.len(),
        forall|i: int| 0 <= i < n ==> #[trigger] cur[i] == goal[i],
    ensures
        h_sum(cur, goal, n) == 0,
    decreases n,
{
    if n > 0 {
        lemma_h_sum_zero(cur, goal, n - 1);
    }
}

impl Board {
    /// The admissible heuristic: the sum over all blocks of the L1
    /// distance between the block's current anchor and its goal
    /// anchor.
    pub fn heuristic(&self) -> (h: i32)
        requires
            self.wf(),
        ensures
            h == spec_heuristic(self@),
            0 <= h <= 32258,
    {
        let ghost cur = self@.state.blocks;
        let ghost goal = self@.goal.blocks;
        let n = self.state.blocks.len();
        proof {
            assert forall|t: int|
                0 <= t < n implies -127 <= (#[trigger] cur[t]).pos.x - goal[t].pos.x <= 127 && -127
                    <= cur[t].pos.y - goal[t].pos.y <= 127 by {}
        }
        let mut sum: i32 = 0;
        let mut i: usize = 0;
        while i < n
            invariant
                n == cur.len(),
                n == self.state.blocks@.len(),
                cur == self@.state.blocks,
                goal == self@.goal.blocks,
                goal.len() == n,
                self.wf(),
                i <= n,
                n <= 127,
                sum == h_sum(cur, goal, i as int),
                0 <= sum <= 254 * i,
            decreases n - i,
        {
            let c = self.state.blocks[i];
            let g = self.final_state.blocks[i];
            proof {
                lemma_h_sum_bounds(cur, goal, i as int);
            }
            let dx: i32 = c.pos.x as i32 - g.pos.x as i32;
            let dy: i32 = c.pos.y as i32 - g.pos.y as i32;
            let adx: i32 = if dx < 0 {
                -dx
            } else {
                dx
            };
            let ady: i32 = if dy < 0 {
                -dy
            } else {
                dy
            };
            proof {
                assert(254 * i + 254 == 254 * (i + 1)) by (nonlinear_arith) {}
                assert(254 * (i + 1) <= 254 * 127) by (nonlinear_arith)
                    requires
                        i + 1 <= 127,
                {}
            }
            sum = sum + adx + ady;
            i = i + 1;
        }
        sum
    }
}

} // verus!
