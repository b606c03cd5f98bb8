use vstd::prelude::*;

use rand::seq::SliceRandom;

use crate::board::{board_wf, size_ok, Board, BoardError, BoardView, Move, StateView};
use crate::construct::spec_goal;
use crate::laws::lemma_undo_moved_view;
use crate::moves::{lemma_reaches_step, reaches};
use crate::matrix::Matrix2D;
use crate::vec2::Vec2;

verus! {

/// Relies on rand's `SliceRandom::shuffle` (a Fisher-Yates shuffle
/// driven by `thread_rng`): it only swaps elements of the slice in
/// place, so the result holds the same sizes, rearranged.
#[verifier::external_body]
fn shuffle_sizes(v: &mut Vec<Vec2>)
    ensures
        final(v)@.to_multiset() == old(v)@.to_multiset(),
{
    v.shuffle(&mut rand::thread_rng());
}

/// Relies on rand's `SliceRandom::choose` (driven by `thread_rng`): it
/// returns `None` exactly on an empty slice and otherwise one of the
/// slice's elements.
#[verifier::external_body]
fn choose_move(v: &Vec<Move>) -> (r: Option<Move>)
    ensures
        match r {
            Some(m) => v@.contains(m),
            None => v@.len() == 0,
        },
{
    v.choose(&mut rand::thread_rng()).copied()
}

impl Board {
    /// Randomly generate a valid board: fill the grid greedily with up
    /// to `block_count` blocks of randomly preferred shapes, then
    /// shuffle it by applying up to `shuffle_round` random legal
    /// moves.
    pub fn generate(size: Vec2, block_count: i8, shuffle_round: usize) -> (r: Result<
        Board,
        BoardError,
    >)
        requires
            0 < size.x,
            0 < size.y,
        ensures
            r matches Ok(b) ==> b.wf() && exists|ms: Seq<Move>, v1: BoardView|
                {
                    &&& ms.len() <= shuffle_round
                    &&& #[trigger] reaches(b@, ms, v1)
                    &&& board_wf(v1)
                    &&& v1.goal == b@.goal
                    &&& spec_goal(v1.state.blocks, v1.grid.w, v1.grid.h) == Ok::<
                        StateView,
                        BoardError,
                    >(v1.goal)
                },
    {
        let mut possible_block_sizes: Vec<Vec2> = Vec::new();
        possible_block_sizes.push(Vec2 { x: 2, y: 1 });
        possible_block_sizes.push(Vec2 { x: 1, y: 1 });
        possible_block_sizes.push(Vec2 { x: 1, y: 2 });
        possible_block_sizes.push(Vec2 { x: 2, y: 2 });
        proof {
            assert forall|k: int| 0 <= k < possible_block_sizes@.len() implies size_ok(
                #[trigger] possible_block_sizes@[k],
            ) by {}
        }
        let mut grid = Matrix2D::fill(size, 0i8);
        let mut next_id: i32 = 1;
        let mut done = false;

        let mut i: i8 = 0;
        while i < size.y
            invariant
                0 < size.x,
                0 < size.y,
                grid@.wf(),
                grid@.w == size.x as int,
                grid@.h == size.y as int,
                0 <= i <= size.y,
                1 <= next_id <= 128,
                forall|k: int|
                    0 <= k < possible_block_sizes@.len() ==> size_ok(
                        #[trigger] possible_block_sizes@[k],
                    ),
            decreases size.y - i,
        {
            let mut j: i8 = 0;
            while j < size.x
                invariant
                    0 < size.x,
                    0 < size.y,
                    grid@.wf(),
                    grid@.w == size.x as int,
                    grid@.h == size.y as int,
                    0 <= i < size.y,
                    0 <= j <= size.x,
                    1 <= next_id <= 128,
                    forall|k: int|
                        0 <= k < possible_block_sizes@.len() ==> size_ok(
                            #[trigger] possible_block_sizes@[k],
                        ),
                decreases size.x - j,
            {
                let pos = Vec2 { x: j, y: i };
                let cell_is_empty = match grid.get(pos) {
                    Some(v) => *v == 0,
                    None => false,
                };
                if cell_is_empty && !done && next_id <= 127 {
                    let ghost pre_sizes = possible_block_sizes@;
                    shuffle_sizes(&mut possible_block_sizes);
                    proof {
                        broadcast use vstd::seq_lib::group_to_multiset_ensures;

                        assert forall|k: int|
                            0 <= k < possible_block_sizes@.len() implies size_ok(
                            #[trigger] possible_block_sizes@[k],
                        ) by {
                            let sq = possible_block_sizes@;
                            assert(sq.contains(sq[k]));
                            assert(sq.to_multiset().count(sq[k]) > 0);
                            assert(pre_sizes.to_multiset().count(sq[k]) > 0);
                            assert(pre_sizes.contains(sq[k]));
                            let t = choose|t: int| 0 <= t < pre_sizes.len() && pre_sizes[t] == sq[k];
                        }
                    }
                    let id = next_id as i8;
                    next_id = next_id + 1;
                    let mut k: usize = 0;
                    while k < possible_block_sizes.len()
                        invariant
                            grid@.wf(),
                            grid@.w == size.x as int,
                            grid@.h == size.y as int,
                            0 <= i < size.y,
                            0 <= j < size.x,
                            pos.x == j && pos.y == i,
                            size.x <= 127 && size.y <= 127,
                            k <= possible_block_sizes@.len(),
                            forall|t: int|
                                0 <= t < possible_block_sizes@.len() ==> size_ok(
                                    #[trigger] possible_block_sizes@[t],
                                ),
                        ensures
                            grid@.wf(),
                            grid@.w == size.x as int,
                            grid@.h == size.y as int,
                        decreases possible_block_sizes@.len() - k,
                    {
                        let bsize = possible_block_sizes[k];
                        if grid.try_fill_without_cover(pos, bsize, id).is_ok() {
                            break ;
                        }
                        k = k + 1;
                    }
                    if next_id > block_count as i32 {
                        done = true;
                    }
                }
                j = j + 1;
            }
            i = i + 1;
        }

        let mut board = match Self::from_grid(grid) {
            Ok(b) => b,
            Err(e) => {
                return Err(e);
            },
        };

        // Randomly shuffle the board with legal moves; each applied
        // move has a legal inverse, so the result stays within
        // `shuffle_round` moves of the freshly built board.
        let ghost v1 = board@;
        proof {
            assert(reaches(board@, Seq::<Move>::empty(), v1));
        }
        let mut round: usize = 0;
        while round < shuffle_round
            invariant
                board.wf(),
                round <= shuffle_round,
                board_wf(v1),
                board@.goal == v1.goal,
                spec_goal(v1.state.blocks, v1.grid.w, v1.grid.h) == Ok::<StateView, BoardError>(
                    v1.goal,
                ),
                exists|ms: Seq<Move>| ms.len() <= round && #[trigger] reaches(board@, ms, v1),
            ensures
                board.wf(),
                board@.goal == v1.goal,
                board_wf(v1),
                spec_goal(v1.state.blocks, v1.grid.w, v1.grid.h) == Ok::<StateView, BoardError>(
                    v1.goal,
                ),
                exists|ms: Seq<Move>|
                    ms.len() <= shuffle_round && #[trigger] reaches(board@, ms, v1),
            decreases shuffle_round - round,
        {
            let pm = board.possible_moves();
            let ghost pre = board@;
            match choose_move(&pm) {
                Some((id, dir)) => {
                    let moved = board.move_block(id, dir);
                    proof {
                        if moved is Ok {
                            let ms = choose|ms: Seq<Move>|
                                ms.len() <= round && #[trigger] reaches(pre, ms, v1);
                            lemma_undo_moved_view(pre, board@, id, dir);
                            lemma_reaches_step(
                                board@,
                                pre,
                                (id, crate::board::dir_inverse(dir)),
                                ms,
                                v1,
                            );
                            assert(reaches(
                                board@,
                                seq![(id, crate::board::dir_inverse(dir))] + ms,
                                v1,
                            ));
                        }
                    }
                },
                None => {
                    break ;
                },
            }
            round = round + 1;
        }
        proof {
            let ms = choose|ms: Seq<Move>|
                ms.len() <= shuffle_round && #[trigger] reaches(board@, ms, v1);
            assert(reaches(board@, ms, v1) && board_wf(v1));
        }

        Ok(board)
    }
}

} // verus!
