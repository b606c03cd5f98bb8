use vstd::prelude::*;

use crate::board::{
    board_wf, covered_by, covers, dir_inverse, dir_vec, holes_sorted, is_candidate, move_lt,
    moves_sorted, size_ok, Block, BoardView, Dir, Move, MoveError,
};
use crate::construct::lemma_sorted_unique;
use crate::heuristic::{
    h_sum, l1, lemma_h_sum_same, lemma_h_sum_update, lemma_h_sum_zero, lemma_h_sum_zero_inv,
    spec_heuristic,
};
use crate::matrix::GridView;
use crate::moves::{
    block_can_move, check_cells, lemma_check_cells_ok, moved_block, moved_cell, moved_hole_set,
    moved_view, reaches, spec_can_move, spec_validate,
};
use crate::vec2::Vec2;

verus! {

/// Two sorted, duplicate-free move lists with the same members are the
/// same list.
pub proof fn lemma_moves_sorted_unique(s1: Seq<Move>, s2: Seq<Move>)
    requires
        moves_sorted(s1),
        moves_sorted(s2),
        forall|q: Move| s1.contains(q) <==> s2.contains(q),
    ensures
        s1 == s2,
    decreases s1.len(),
{
    if s1.len() == 0 {
        if s2.len() > 0 {
            assert(s2.contains(s2[0]));
            assert(s1.contains(s2[0]));
            assert(false);
        }
        assert(s1 =~= s2);
    } else {
        assert(s1.contains(s1[0]));
        assert(s2.contains(s1[0]));
        let k2 = choose|k: int| 0 <= k < s2.len() && s2[k] == s1[0];
        assert(s2.contains(s2[0]));
        assert(s1.contains(s2[0]));
        let k1 = choose|k: int| 0 <= k < s1.len() && s1[k] == s2[0];
        if k2 > 0 {
            assert(move_lt(s2[0], s2[k2]));
            if k1 > 0 {
                assert(move_lt(s1[0], s1[k1]));
                assert(false);
            }
            assert(false);
        }
        assert(s1[0] == s2[0]);
        let t1 = s1.drop_first();
        let t2 = s2.drop_first();
        assert forall|q: Move| t1.contains(q) implies t2.contains(q) by {
            let k = choose|k: int| 0 <= k < t1.len() && t1[k] == q;
            assert(s1[k + 1] == q);
            assert(s1.contains(q));
            assert(s2.contains(q));
            let m = choose|m: int| 0 <= m < s2.len() && s2[m] == q;
            assert(move_lt(s1[0], s1[k + 1]));
            if m == 0 {
                assert(false);
            }
            assert(t2[m - 1] == q);
        }
        assert forall|q: Move| t2.contains(q) implies t1.contains(q) by {
            let k = choose|k: int| 0 <= k < t2.len() && t2[k] == q;
            assert(s2[k + 1] == q);
            assert(s2.contains(q));
            assert(s1.contains(q));
            let m = choose|m: int| 0 <= m < s1.len() && s1[m] == q;
            assert(move_lt(s2[0], s2[k + 1]));
            if m == 0 {
                assert(false);
            }
            assert(t1[m - 1] == q);
        }
        assert(moves_sorted(t1)) by {
            assert forall|a: int, b: int| 0 <= a < b < t1.len() implies move_lt(
                #[trigger] t1[a],
                #[trigger] t1[b],
            ) by {
                assert(t1[a] == s1[a + 1] && t1[b] == s1[b + 1]);
            }
        }
        assert(moves_sorted(t2)) by {
            assert forall|a: int, b: int| 0 <= a < b < t2.len() implies move_lt(
                #[trigger] t2[a],
                #[trigger] t2[b],
            ) by {
                assert(t2[a] == s2[a + 1] && t2[b] == s2[b + 1]);
            }
        }
        lemma_moves_sorted_unique(t1, t2);
        assert(s1.len() == s2.len());
        assert forall|i: int| 0 <= i < s1.len() implies s1[i] == s2[i] by {
            if i > 0 {
                assert(s1[i] == t1[i - 1]);
                assert(s2[i] == t2[i - 1]);
            }
        }
        assert(s1 =~= s2);
    }
}

/// After any legal move, the inverse move is always legal: the undo in
/// the searches can never fail.
pub proof fn lemma_undo_enabled(v: BoardView, w: BoardView, id: i8, d: Dir)
    requires
        board_wf(v),
        moved_view(v, w, id, d),
    ensures
        spec_can_move(w, id, dir_inverse(d)),
        spec_validate(w, id, dir_inverse(d)) is Ok,
{
    let b = v.state.blocks[id - 1];
    let mb = moved_block(b, d);
    let iv = dir_inverse(d);
    assert(dir_vec(iv).x == -dir_vec(d).x && dir_vec(iv).y == -dir_vec(d).y);
    assert(w.state.blocks[id - 1] == mb);
    assert(covers(b, b.pos.x as int, b.pos.y as int));
    assert(v.grid.in_range(b.pos.x + dir_vec(d).x, b.pos.y + dir_vec(d).y));
    assert(mb.pos.x == b.pos.x + dir_vec(d).x && mb.pos.y == b.pos.y + dir_vec(d).y);
    assert forall|x: int, y: int| #[trigger] covers(mb, x, y) implies w.grid.in_range(
        x + dir_vec(iv).x,
        y + dir_vec(iv).y,
    ) && (w.grid.at(x + dir_vec(iv).x, y + dir_vec(iv).y) == 0 || w.grid.at(
        x + dir_vec(iv).x,
        y + dir_vec(iv).y,
    ) == mb.id) by {
        let tx = x + dir_vec(iv).x;
        let ty = y + dir_vec(iv).y;
        assert(covers(b, tx, ty));
        assert(v.grid.in_range(tx, ty));
        assert(w.grid.in_range(tx, ty));
        assert(w.grid.at(tx, ty) == moved_cell(v, id, d, tx, ty));
        if covers(mb, tx, ty) {
            assert(w.grid.at(tx, ty) == id);
        } else {
            assert(w.grid.at(tx, ty) == 0);
        }
    }
    assert(block_can_move(mb, w.grid, iv));
    assert(1 <= id <= w.state.blocks.len());
    lemma_check_cells_ok(mb, w.grid, iv);
}

/// Move/undo round trip: applying a legal move and then its inverse
/// restores the board to exactly the value it had before, holes, move
/// cache and all.
pub proof fn lemma_move_undo(v: BoardView, w: BoardView, x: BoardView, id: i8, d: Dir)
    requires
        board_wf(v),
        moved_view(v, w, id, d),
        moved_view(w, x, id, dir_inverse(d)),
    ensures
        x == v,
{
    let b = v.state.blocks[id - 1];
    let mb = moved_block(b, d);
    let iv = dir_inverse(d);
    assert(dir_vec(iv).x == -dir_vec(d).x && dir_vec(iv).y == -dir_vec(d).y);
    assert(w.state.blocks[id - 1] == mb);
    assert(covers(b, b.pos.x as int, b.pos.y as int));
    assert(v.grid.in_range(b.pos.x + dir_vec(d).x, b.pos.y + dir_vec(d).y));
    assert(mb.pos.x == b.pos.x + dir_vec(d).x && mb.pos.y == b.pos.y + dir_vec(d).y);
    assert(moved_block(mb, iv) == b);

    // blocks are restored
    assert(x.state.blocks =~= v.state.blocks) by {
        assert(x.state.blocks == w.state.blocks.update(id - 1, b));
        assert forall|i: int| 0 <= i < v.state.blocks.len() implies x.state.blocks[i]
            == v.state.blocks[i] by {}
    }

    // every cell of the grid is restored
    assert forall|cx: int, cy: int| v.grid.in_range(cx, cy) implies #[trigger] x.grid.at(cx, cy)
        == v.grid.at(cx, cy) by {
        assert(x.grid.at(cx, cy) == moved_cell(w, id, iv, cx, cy));
        assert(w.grid.at(cx, cy) == moved_cell(v, id, d, cx, cy));
        assert(w.state.blocks[id - 1] == mb);
        assert(moved_block(w.state.blocks[id - 1], iv) == b);
        if covers(b, cx, cy) {
            assert(x.grid.at(cx, cy) == id);
            assert(v.grid.at(cx, cy) == id);
        } else if covers(mb, cx, cy) {
            assert(x.grid.at(cx, cy) == 0);
            assert(v.grid.at(cx, cy) == 0 || v.grid.at(cx, cy) == id);
            if v.grid.at(cx, cy) == id {
                assert(covers(v.state.blocks[id - 1], cx, cy));
                assert(false);
            }
        } else {
            assert(x.grid.at(cx, cy) == w.grid.at(cx, cy));
            assert(w.grid.at(cx, cy) == v.grid.at(cx, cy));
        }
    }
    assert(x.grid =~~= v.grid) by {
        assert(x.grid.w == v.grid.w && x.grid.h == v.grid.h);
        assert(x.grid.cells.len() == v.grid.cells.len());
        assert forall|idx: int| 0 <= idx < v.grid.cells.len() implies x.grid.cells[idx]
            == v.grid.cells[idx] by {
            let wdt = v.grid.w;
            let cx = idx % wdt;
            let cy = idx / wdt;
            assert(idx < wdt * v.grid.h);
            crate::construct::lemma_divmod(idx, wdt, v.grid.h);
            assert(v.grid.in_range(cx, cy));
            assert(x.grid.at(cx, cy) == v.grid.at(cx, cy));
        }
        assert(x.grid.cells =~= v.grid.cells);
    }

    // the hole list is restored
    assert forall|q: Vec2| x.state.holes.contains(q) <==> v.state.holes.contains(q) by {
        assert(x.state.holes.contains(q) <==> moved_hole_set(w, id, iv, q));
        assert(w.state.holes.contains(q) <==> moved_hole_set(v, id, d, q));
        assert(w.state.blocks[id - 1] == mb);
        assert(moved_block(w.state.blocks[id - 1], iv) == b);
        let qx = q.x as int;
        let qy = q.y as int;
        if v.state.holes.contains(q) {
            let k = choose|k: int| 0 <= k < v.state.holes.len() && v.state.holes[k] == q;
            assert(v.grid.at(qx, qy) == 0);
            if covers(b, qx, qy) {
                assert(v.grid.at(qx, qy) == id);
                assert(false);
            }
        }
        if covers(mb, qx, qy) {
            assert(covers(b, qx - dir_vec(d).x, qy - dir_vec(d).y));
            assert(v.grid.at(qx, qy) == 0 || v.grid.at(qx, qy) == id);
        }
    }
    assert(holes_sorted(x.state.holes) && holes_sorted(v.state.holes));
    lemma_sorted_unique(x.state.holes, v.state.holes);

    // the move cache is restored
    assert forall|q: Move| x.pmoves.contains(q) <==> v.pmoves.contains(q) by {
        assert(x.pmoves.contains(q) <==> is_candidate(q, x.state.holes, x.grid));
        assert(v.pmoves.contains(q) <==> is_candidate(q, v.state.holes, v.grid));
        assert(x.state.holes == v.state.holes);
        assert(x.grid == v.grid);
    }
    lemma_moves_sorted_unique(x.pmoves, v.pmoves);

    assert(x.goal == v.goal);
    assert(x.state =~~= v.state);
}

/// Goal invariance: a board whose current state already is the
/// canonical packing of its own blocks is at its goal.
pub proof fn lemma_goal_invariance(v: BoardView)
    requires
        board_wf(v),
        crate::construct::spec_goal(v.state.blocks, v.grid.w, v.grid.h) == Ok::<
            crate::board::StateView,
            crate::board::BoardError,
        >(v.state),
        crate::construct::spec_goal(v.state.blocks, v.grid.w, v.grid.h) == Ok::<
            crate::board::StateView,
            crate::board::BoardError,
        >(v.goal),
    ensures
        crate::board::st_eq(v.state, v.goal),
{
}

/// Heuristic admissibility: the heuristic never exceeds the length of
/// any legal move sequence that reaches the goal, because one move
/// shifts one block by one cell and so lowers the sum by at most one.
pub proof fn lemma_heuristic_admissible(v: BoardView, ms: Seq<Move>, w: BoardView)
    requires
        board_wf(v),
        reaches(v, ms, w),
        crate::board::st_eq(w.state, w.goal),
    ensures
        spec_heuristic(v) <= ms.len(),
    decreases ms.len(),
{
    let n = v.state.blocks.len() as int;
    if ms.len() == 0 {
        assert(w == v);
        assert(v.state.blocks == v.goal.blocks);
        lemma_h_sum_zero(v.state.blocks, v.goal.blocks, n);
    } else {
        let id = ms[0].0;
        let d = ms[0].1;
        let u = choose|u: BoardView|
            #[trigger] moved_view(v, u, id, d) && reaches(u, ms.drop_first(), w);
        lemma_heuristic_admissible(u, ms.drop_first(), w);
        let b = v.state.blocks[id - 1];
        let mb = moved_block(b, d);
        assert(covers(b, b.pos.x as int, b.pos.y as int));
        assert(v.grid.in_range(b.pos.x + dir_vec(d).x, b.pos.y + dir_vec(d).y));
        assert(mb.pos.x == b.pos.x + dir_vec(d).x && mb.pos.y == b.pos.y + dir_vec(d).y);
        lemma_h_sum_update(v.state.blocks, v.goal.blocks, n, id - 1, mb);
        assert(u.state.blocks == v.state.blocks.update(id - 1, mb));
        assert(u.goal == v.goal);
        assert(spec_heuristic(u) == h_sum(v.state.blocks.update(id - 1, mb), v.goal.blocks, n)) by {
            lemma_h_sum_same(
                u.state.blocks,
                v.state.blocks.update(id - 1, mb),
                u.goal.blocks,
                n,
            );
        }
        assert(l1(mb, v.goal.blocks[id - 1]) >= l1(b, v.goal.blocks[id - 1]) - 1);
        assert(spec_heuristic(v) <= spec_heuristic(u) + 1);
    }
}

spec fn targets_in_range(b: Block, g: GridView<i8>, dir: Dir) -> bool {
    forall|x: int, y: int|
        #[trigger] covers(b, x, y) ==> g.in_range(x + dir_vec(dir).x, y + dir_vec(dir).y)
}

proof fn lemma_check_cells_no_unknown(b: Block, g: GridView<i8>, dir: Dir, k: int)
    requires
        0 <= k,
    ensures
        check_cells(b, g, dir, k) != Err::<(), MoveError>(MoveError::UnknownBlock),
    decreases b.size.x * b.size.y - k,
{
    if k < b.size.x * b.size.y {
        lemma_check_cells_no_unknown(b, g, dir, k + 1);
    }
}

proof fn lemma_check_cells_no_oor(b: Block, g: GridView<i8>, dir: Dir, k: int)
    requires
        size_ok(b.size),
        targets_in_range(b, g, dir),
        0 <= k <= b.size.x * b.size.y,
    ensures
        check_cells(b, g, dir, k) != Err::<(), MoveError>(MoveError::OutOfRange),
    decreases b.size.x * b.size.y - k,
{
    let area = b.size.x * b.size.y;
    if k < area {
        lemma_check_cells_no_oor(b, g, dir, k + 1);
        let sx = b.size.x as int;
        let sy = b.size.y as int;
        assert(0 <= k % sy < sy && 0 <= k / sy < sx) by (nonlinear_arith)
            requires
                1 <= sx,
                1 <= sy,
                0 <= k < sx * sy,
        {}
        assert(covers(b, b.pos.x + k / sy, b.pos.y + k % sy));
    }
}

/// Move legality: no move the candidate enumeration offers is ever
/// rejected as out of range, and every candidate names a real block.
pub proof fn lemma_candidates_never_out_of_range(v: BoardView, m: Move)
    requires
        board_wf(v),
        v.pmoves.contains(m),
    ensures
        spec_validate(v, m.0, m.1) != Err::<(), MoveError>(MoveError::OutOfRange),
        spec_validate(v, m.0, m.1) != Err::<(), MoveError>(MoveError::UnknownBlock),
{
    let hs = v.state.holes;
    let g = v.grid;
    let k = choose|k: int| 0 <= k < v.pmoves.len() && v.pmoves[k] == m;
    assert(is_candidate(v.pmoves[k], hs, g));
    let (j, dd) = choose|j: int, dd: Dir|
        0 <= j < hs.len() && #[trigger] crate::board::cand_at(hs, g, j, dd, m);
    let hq = hs[j];
    let nx = hq.x + dir_vec(dd).x;
    let ny = hq.y + dir_vec(dd).y;
    assert(g.in_range(nx, ny) && g.at(nx, ny) == m.0 && m.0 != 0 && m.1 == dir_inverse(dd));
    let id = m.0;
    assert(1 <= id <= v.state.blocks.len());
    let b = v.state.blocks[id - 1];
    assert(covers(b, nx, ny));
    assert(g.in_range(hq.x as int, hq.y as int) && g.at(hq.x as int, hq.y as int) == 0);
    let mvx = dir_vec(m.1).x as int;
    let mvy = dir_vec(m.1).y as int;
    assert(mvx == -dir_vec(dd).x && mvy == -dir_vec(dd).y);
    // the block hugs the hole on the side it is entered from, so the
    // whole footprint shifts into the grid
    assert forall|x: int, y: int| #[trigger] covers(b, x, y) implies g.in_range(
        x + mvx,
        y + mvy,
    ) by {
        match dd {
            Dir::Right => {
                // hole to the left of the block: the block's left edge
                // is the neighbour's column
                if b.pos.x < nx {
                    assert(covers(b, nx - 1, ny));
                    assert(g.at(nx - 1, ny) == id);
                    assert(false);
                }
                assert(b.pos.x == nx);
                assert(hq.x == b.pos.x - 1);
            },
            Dir::Left => {
                if b.pos.x + b.size.x - 1 > nx {
                    assert(covers(b, nx + 1, ny));
                    assert(g.at(nx + 1, ny) == id);
                    assert(false);
                }
                assert(b.pos.x + b.size.x - 1 == nx);
                assert(hq.x == nx + 1);
            },
            Dir::Down => {
                if b.pos.y < ny {
                    assert(covers(b, nx, ny - 1));
                    assert(g.at(nx, ny - 1) == id);
                    assert(false);
                }
                assert(b.pos.y == ny);
                assert(hq.y == b.pos.y - 1);
            },
            Dir::Up => {
                if b.pos.y + b.size.y - 1 < ny {
                    assert(false);
                } else if b.pos.y + b.size.y - 1 > ny {
                    assert(covers(b, nx, ny + 1));
                    assert(g.at(nx, ny + 1) == id);
                    assert(false);
                }
                assert(b.pos.y + b.size.y - 1 == ny);
                assert(hq.y == ny + 1);
            },
        }
    }
    assert(targets_in_range(b, g, m.1));
    lemma_check_cells_no_oor(b, g, m.1, 0);
    lemma_check_cells_no_unknown(b, g, m.1, 0);
}

/// Move legality, second half: an accepted move keeps the occupancy
/// invariant intact and conserves the number of holes.
pub proof fn lemma_move_keeps_invariant(v: BoardView, w: BoardView, id: i8, d: Dir)
    requires
        board_wf(v),
        moved_view(v, w, id, d),
    ensures
        board_wf(w),
        w.state.holes.len() == v.state.holes.len(),
{
}


/// The heuristic is zero exactly at the goal: zero total distance puts
/// every block on its goal anchor, and the holes, being the complement
/// of the blocks on both sides, then coincide as well.
pub proof fn lemma_heuristic_zero_iff_goal(v: BoardView)
    requires
        board_wf(v),
    ensures
        (spec_heuristic(v) == 0) <==> crate::board::st_eq(v.state, v.goal),
{
    let n = v.state.blocks.len() as int;
    if crate::board::st_eq(v.state, v.goal) {
        lemma_h_sum_zero(v.state.blocks, v.goal.blocks, n);
    }
    if spec_heuristic(v) == 0 {
        lemma_h_sum_zero_inv(v.state.blocks, v.goal.blocks, n);
        assert forall|i: int| 0 <= i < n implies v.state.blocks[i] == v.goal.blocks[i] by {
            assert(v.goal.blocks[i].id == v.state.blocks[i].id);
            assert(v.goal.blocks[i].size == v.state.blocks[i].size);
            assert(v.state.blocks[i].pos == v.goal.blocks[i].pos);
        }
        assert(v.state.blocks =~= v.goal.blocks);
        assert forall|q: Vec2| v.state.holes.contains(q) <==> v.goal.holes.contains(q) by {
            let qx = q.x as int;
            let qy = q.y as int;
            if v.state.holes.contains(q) {
                let k = choose|k: int| 0 <= k < v.state.holes.len() && v.state.holes[k] == q;
                assert(v.grid.in_range(qx, qy) && v.grid.at(qx, qy) == 0);
                if covered_by(v.state.blocks, qx, qy) {
                    let u = choose|u: int|
                        0 <= u < v.state.blocks.len() && covers(
                            #[trigger] v.state.blocks[u],
                            qx,
                            qy,
                        );
                    assert(v.grid.at(qx, qy) == u + 1);
                    assert(false);
                }
                assert(!covered_by(v.goal.blocks, qx, qy));
                assert(v.goal.holes.contains(q));
            }
            if v.goal.holes.contains(q) {
                assert(0 <= q.x < v.grid.w && 0 <= q.y < v.grid.h);
                assert(!covered_by(v.goal.blocks, qx, qy));
                assert(!covered_by(v.state.blocks, qx, qy));
                if v.grid.at(qx, qy) != 0 {
                    let c = v.grid.at(qx, qy);
                    assert(covers(v.state.blocks[c - 1], qx, qy));
                    assert(covered_by(v.state.blocks, qx, qy));
                    assert(false);
                }
                assert(crate::board::hole_at(v.state.holes, qx, qy));
                let k = choose|k: int|
                    0 <= k < v.state.holes.len() && (#[trigger] v.state.holes[k]).x == qx
                        && v.state.holes[k].y == qy;
                assert(v.state.holes[k] == q);
            }
        }
        lemma_sorted_unique(v.state.holes, v.goal.holes);
        assert(crate::board::st_eq(v.state, v.goal));
    }
}


/// The inverse move not only is legal after a move: applying it leads
/// back to exactly the board value before the move.
pub proof fn lemma_undo_moved_view(v: BoardView, w: BoardView, id: i8, d: Dir)
    requires
        board_wf(v),
        moved_view(v, w, id, d),
    ensures
        moved_view(w, v, id, dir_inverse(d)),
{
    let b = v.state.blocks[id - 1];
    let mb = moved_block(b, d);
    let iv = dir_inverse(d);
    lemma_undo_enabled(v, w, id, d);
    assert(dir_vec(iv).x == -dir_vec(d).x && dir_vec(iv).y == -dir_vec(d).y);
    assert(w.state.blocks[id - 1] == mb);
    assert(covers(b, b.pos.x as int, b.pos.y as int));
    assert(v.grid.in_range(b.pos.x + dir_vec(d).x, b.pos.y + dir_vec(d).y));
    assert(mb.pos.x == b.pos.x + dir_vec(d).x && mb.pos.y == b.pos.y + dir_vec(d).y);
    assert(moved_block(mb, iv) == b);

    // the blocks before the move are the undo's update
    assert(v.state.blocks =~= w.state.blocks.update(id - 1, moved_block(w.state.blocks[id - 1], iv)))
        by {
        assert forall|i: int|
            0 <= i < v.state.blocks.len() implies v.state.blocks[i] == w.state.blocks.update(
            id - 1,
            b,
        )[i] by {}
    }

    // every grid cell before the move matches the undo's effect
    assert forall|cx: int, cy: int| w.grid.in_range(cx, cy) implies #[trigger] v.grid.at(cx, cy)
        == moved_cell(w, id, iv, cx, cy) by {
        assert(w.grid.at(cx, cy) == moved_cell(v, id, d, cx, cy));
        assert(moved_block(w.state.blocks[id - 1], iv) == b);
        if covers(b, cx, cy) {
            assert(v.grid.at(cx, cy) == id);
            assert(moved_cell(w, id, iv, cx, cy) == id);
        } else if covers(mb, cx, cy) {
            assert(moved_cell(w, id, iv, cx, cy) == 0);
            assert(v.grid.at(cx, cy) == 0 || v.grid.at(cx, cy) == id);
            if v.grid.at(cx, cy) == id {
                assert(covers(v.state.blocks[id - 1], cx, cy));
                assert(false);
            }
        } else {
            assert(moved_cell(w, id, iv, cx, cy) == w.grid.at(cx, cy));
            assert(w.grid.at(cx, cy) == v.grid.at(cx, cy));
        }
    }

    // the holes before the move are the undo's hole set
    assert forall|q: Vec2| #[trigger] v.state.holes.contains(q) <==> moved_hole_set(
        w,
        id,
        iv,
        q,
    ) by {
        assert(w.state.holes.contains(q) <==> moved_hole_set(v, id, d, q));
        assert(moved_block(w.state.blocks[id - 1], iv) == b);
        let qx = q.x as int;
        let qy = q.y as int;
        if v.state.holes.contains(q) {
            let k = choose|k: int| 0 <= k < v.state.holes.len() && v.state.holes[k] == q;
            assert(v.grid.at(qx, qy) == 0);
            if covers(b, qx, qy) {
                assert(v.grid.at(qx, qy) == id);
                assert(false);
            }
        }
        if covers(mb, qx, qy) {
            assert(covers(b, qx - dir_vec(d).x, qy - dir_vec(d).y));
            assert(v.grid.at(qx, qy) == 0 || v.grid.at(qx, qy) == id);
        }
    }
}

} // verus!
