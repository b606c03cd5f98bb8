use vstd::prelude::*;

use crate::board::{
    board_wf, cand_at, covers, dir_rank, dir_vec, hole_at, holes_sorted, insert_hole, insert_move,
    is_candidate, moves_sorted, moves_wf, remove_hole, size_ok, Block, Board, BoardView, Dir, Move,
    MoveError,
};
use crate::matrix::{in_rect, GridView, Matrix2D};
use crate::vec2::Vec2;

verus! {

// ---------------------------------------------------------------------
// What it means for a move to be applicable.
// ---------------------------------------------------------------------

/// Every cell of the block can shift one step in `dir`: the target
/// cell is inside the grid and currently empty or covered by the block
/// itself.
pub open spec fn block_can_move(b: Block, g: GridView<i8>, dir: Dir) -> bool {
    forall|x: int, y: int|
        #[trigger] covers(b, x, y) ==> g.in_range(x + dir_vec(dir).x, y + dir_vec(dir).y) && (g.at(
            x + dir_vec(dir).x,
            y + dir_vec(dir).y,
        ) == 0 || g.at(x + dir_vec(dir).x, y + dir_vec(dir).y) == b.id)
}

/// The move `(id, dir)` is applicable on the board value `v`.
pub open spec fn spec_can_move(v: BoardView, id: i8, dir: Dir) -> bool {
    &&& 1 <= id <= v.state.blocks.len()
    &&& block_can_move(v.state.blocks[id - 1], v.grid, dir)
}

/// The block's cell with scan index `j` (column-major within the
/// block: `dx = j / size.y`, `dy = j % size.y`, matching the
/// validation scan order) can shift one step in `dir`.
pub open spec fn cell_target_ok(b: Block, g: GridView<i8>, dir: Dir, j: int) -> bool {
    let dx = j / (b.size.y as int);
    let dy = j % (b.size.y as int);
    let tx = b.pos.x + dx + dir_vec(dir).x;
    let ty = b.pos.y + dy + dir_vec(dir).y;
    g.in_range(tx, ty) && (g.at(tx, ty) == 0 || g.at(tx, ty) == b.id)
}

/// Validation of the block's cells from scan index `k` on, in scan
/// order; the first offending cell decides the error.
pub open spec fn check_cells(b: Block, g: GridView<i8>, dir: Dir, k: int) -> Result<
    (),
    MoveError,
> decreases b.size.x * b.size.y - k {
    if k < 0 || k >= b.size.x * b.size.y {
        Ok(())
    } else {
        let dx = k / (b.size.y as int);
        let dy = k % (b.size.y as int);
        let tx = b.pos.x + dx + dir_vec(dir).x;
        let ty = b.pos.y + dy + dir_vec(dir).y;
        if !g.in_range(tx, ty) {
            Err(MoveError::OutOfRange)
        } else if g.at(tx, ty) != 0 && g.at(tx, ty) != b.id {
            Err(MoveError::BlockedMove)
        } else {
            check_cells(b, g, dir, k + 1)
        }
    }
}

/// Full validation of the move `(id, dir)` on the board value `v`,
/// exactly as `move_block` performs it.
pub open spec fn spec_validate(v: BoardView, id: i8, dir: Dir) -> Result<(), MoveError> {
    if 1 <= id <= v.state.blocks.len() {
        check_cells(v.state.blocks[id - 1], v.grid, dir, 0)
    } else {
        Err(MoveError::UnknownBlock)
    }
}

/// The block translated one step in `dir`.
pub open spec fn moved_block(b: Block, dir: Dir) -> Block {
    Block {
        id: b.id,
        pos: Vec2 {
            x: (b.pos.x + dir_vec(dir).x) as i8,
            y: (b.pos.y + dir_vec(dir).y) as i8,
        },
        size: b.size,
    }
}

proof fn lemma_cell_index_bounds(b: Block, j: int)
    requires
        size_ok(b.size),
        0 <= j < b.size.x * b.size.y,
    ensures
        0 <= j / (b.size.y as int) < b.size.x,
        0 <= j % (b.size.y as int) < b.size.y,
{
    let sx = b.size.x as int;
    let sy = b.size.y as int;
    assert(0 <= j / sy < sx && 0 <= j % sy < sy) by (nonlinear_arith)
        requires
            1 <= sx,
            1 <= sy,
            0 <= j,
            j < sx * sy,
    {}
}

proof fn lemma_cell_index_of(b: Block, dx: int, dy: int)
    requires
        size_ok(b.size),
        0 <= dx < b.size.x,
        0 <= dy < b.size.y,
    ensures
        0 <= dx * b.size.y + dy < b.size.x * b.size.y,
        (dx * b.size.y + dy) / (b.size.y as int) == dx,
        (dx * b.size.y + dy) % (b.size.y as int) == dy,
{
    let sx = b.size.x as int;
    let sy = b.size.y as int;
    assert(0 <= dx * sy + dy < sx * sy && (dx * sy + dy) / sy == dx && (dx * sy + dy) % sy
        == dy) by (nonlinear_arith)
        requires
            1 <= sx,
            1 <= sy,
            0 <= dx < sx,
            0 <= dy < sy,
    {}
}

proof fn lemma_check_cells_from(b: Block, g: GridView<i8>, dir: Dir, k: int)
    requires
        size_ok(b.size),
        0 <= k <= b.size.x * b.size.y,
    ensures
        (check_cells(b, g, dir, k) is Ok) <==> (forall|j: int|
            k <= j < b.size.x * b.size.y ==> #[trigger] cell_target_ok(b, g, dir, j)),
    decreases b.size.x * b.size.y - k,
{
    let area = b.size.x * b.size.y;
    if k < area {
        lemma_check_cells_from(b, g, dir, k + 1);
        if cell_target_ok(b, g, dir, k) {
            assert(check_cells(b, g, dir, k) == check_cells(b, g, dir, k + 1));
            if check_cells(b, g, dir, k) is Ok {
                assert forall|j: int| k <= j < area implies #[trigger] cell_target_ok(
                    b,
                    g,
                    dir,
                    j,
                ) by {
                    if j > k {
                        assert(cell_target_ok(b, g, dir, j));
                    }
                }
            }
        } else {
            assert(!(check_cells(b, g, dir, k) is Ok));
        }
    }
}

/// Validation succeeds exactly when the whole destination footprint is
/// free: the scan-order check agrees with the cell-wise statement.
pub proof fn lemma_check_cells_ok(b: Block, g: GridView<i8>, dir: Dir)
    requires
        size_ok(b.size),
    ensures
        (check_cells(b, g, dir, 0) is Ok) <==> block_can_move(b, g, dir),
{
    lemma_check_cells_from(b, g, dir, 0);
    if check_cells(b, g, dir, 0) is Ok {
        assert forall|x: int, y: int| #[trigger] covers(b, x, y) implies g.in_range(
            x + dir_vec(dir).x,
            y + dir_vec(dir).y,
        ) && (g.at(x + dir_vec(dir).x, y + dir_vec(dir).y) == 0 || g.at(
            x + dir_vec(dir).x,
            y + dir_vec(dir).y,
        ) == b.id) by {
            let dx = x - b.pos.x;
            let dy = y - b.pos.y;
            lemma_cell_index_of(b, dx, dy);
            assert(cell_target_ok(b, g, dir, dx * b.size.y + dy));
        }
    }
    if block_can_move(b, g, dir) {
        assert forall|j: int| 0 <= j < b.size.x * b.size.y implies #[trigger] cell_target_ok(
            b,
            g,
            dir,
            j,
        ) by {
            lemma_cell_index_bounds(b, j);
            let dx = j / (b.size.y as int);
            let dy = j % (b.size.y as int);
            assert(covers(b, b.pos.x + dx, b.pos.y + dy));
        }
    }
}

// ---------------------------------------------------------------------
// Candidate-move generation.
// ---------------------------------------------------------------------

/// A candidate already produced after processing holes before `j`, and
/// for hole `j` the directions of rank below `r`.
pub open spec fn cand_upto(m: Move, hs: Seq<Vec2>, g: GridView<i8>, j: int, r: int) -> bool {
    exists|j2: int, d2: Dir|
        0 <= j2 && (j2 < j || (j2 == j && dir_rank(d2) < r)) && #[trigger] cand_at(hs, g, j2, d2, m)
}

impl Board {
    /// Pair each direction with its displacement vector.
    pub(crate) fn dir_and_vecs(dirs: &Vec<Dir>) -> (r: Vec<(Vec2, Dir)>)
        ensures
            r@.len() == dirs@.len(),
            forall|i: int| 0 <= i < dirs@.len() ==> r@[i] == (dir_vec(dirs@[i]), dirs@[i]),
    {
        let mut r: Vec<(Vec2, Dir)> = Vec::new();
        let mut i: usize = 0;
        while i < dirs.len()
            invariant
                i <= dirs@.len(),
                r@.len() == i,
                forall|k: int| 0 <= k < i ==> r@[k] == (dir_vec(dirs@[k]), dirs@[k]),
            decreases dirs@.len() - i,
        {
            let d = dirs[i];
            r.push((d.to_vec2(), d));
            i = i + 1;
        }
        r
    }

    /// Enumerate the move candidates: for every hole and every cardinal
    /// neighbour occupied by a block, the move that slides that block
    /// toward the hole.
    pub(crate) fn generate_possible_moves(holes: &Vec<Vec2>, id_grid: &Matrix2D<i8>) -> (pm: Vec<
        Move,
    >)
        requires
            id_grid@.wf(),
            forall|i: int|
                0 <= i < holes@.len() ==> id_grid@.in_range(
                    (#[trigger] holes@[i]).x as int,
                    holes@[i].y as int,
                ),
        ensures
            moves_wf(pm@, holes@, id_grid@),
    {
        let mut dirs: Vec<Dir> = Vec::new();
        dirs.push(Dir::Up);
        dirs.push(Dir::Down);
        dirs.push(Dir::Left);
        dirs.push(Dir::Right);
        proof {
            assert(dirs@ =~= seq![Dir::Up, Dir::Down, Dir::Left, Dir::Right]);
            assert(dir_rank(dirs@[0]) == 0);
            assert(dir_rank(dirs@[1]) == 1);
            assert(dir_rank(dirs@[2]) == 2);
            assert(dir_rank(dirs@[3]) == 3);
        }
        let moves = Self::dir_and_vecs(&dirs);
        let mut pm: Vec<Move> = Vec::new();
        let ghost g = id_grid@;
        let ghost hs = holes@;
        let mut j: usize = 0;
        while j < holes.len()
            invariant
                id_grid@ == g,
                holes@ == hs,
                g.wf(),
                forall|i: int|
                    0 <= i < hs.len() ==> g.in_range((#[trigger] hs[i]).x as int, hs[i].y as int),
                moves@.len() == 4,
                forall|k: int| 0 <= k < 4 ==> moves@[k] == (dir_vec(dirs@[k]), dirs@[k]),
                forall|kk: int| 0 <= kk < 4 ==> dir_rank(dirs@[kk]) == kk,
                j <= hs.len(),
                moves_sorted(pm@),
                forall|m: Move| pm@.contains(m) <==> cand_upto(m, hs, g, j as int, 0),
            decreases hs.len() - j,
        {
            let hole = holes[j];
            let mut k: usize = 0;
            while k < 4
                invariant
                    id_grid@ == g,
                    holes@ == hs,
                    g.wf(),
                    forall|i: int|
                        0 <= i < hs.len() ==> g.in_range(
                            (#[trigger] hs[i]).x as int,
                            hs[i].y as int,
                        ),
                    moves@.len() == 4,
                    forall|kk: int| 0 <= kk < 4 ==> moves@[kk] == (dir_vec(dirs@[kk]), dirs@[kk]),
                    forall|kk: int| 0 <= kk < 4 ==> dir_rank(dirs@[kk]) == kk,
                    j < hs.len(),
                    hole == hs[j as int],
                    k <= 4,
                    moves_sorted(pm@),
                    forall|m: Move| pm@.contains(m) <==> cand_upto(m, hs, g, j as int, k as int),
                decreases 4 - k,
            {
                let (v, d) = moves[k];
                proof {
                    assert(dir_rank(d) == k as int);
                    assert(g.in_range(hole.x as int, hole.y as int));
                }
                let target = hole.add(&v);
                let ghost pre = pm@;
                match id_grid.get(target) {
                    Some(idv) => {
                        if *idv != 0 {
                            let m = (*idv, d.inverse());
                            insert_move(&mut pm, m);
                            proof {
                                assert(cand_at(hs, g, j as int, d, m));
                                assert forall|q: Move| pm@.contains(q) <==> cand_upto(
                                    q,
                                    hs,
                                    g,
                                    j as int,
                                    k + 1 as int,
                                ) by {
                                    if pm@.contains(q) {
                                        if pre.contains(q) {
                                            let (j2, d2) = choose|j2: int, d2: Dir|
                                                0 <= j2 && (j2 < j as int || (j2 == j as int
                                                    && dir_rank(d2) < k as int)) && #[trigger] cand_at(
                                                    hs,
                                                    g,
                                                    j2,
                                                    d2,
                                                    q,
                                                );
                                            assert(cand_at(hs, g, j2, d2, q));
                                        } else {
                                            assert(q == m);
                                            assert(cand_at(hs, g, j as int, d, q));
                                        }
                                    }
                                    if cand_upto(q, hs, g, j as int, k + 1 as int) {
                                        let (j2, d2) = choose|j2: int, d2: Dir|
                                            0 <= j2 && (j2 < j as int || (j2 == j as int
                                                && dir_rank(d2) < k + 1 as int)) && #[trigger] cand_at(
                                                hs,
                                                g,
                                                j2,
                                                d2,
                                                q,
                                            );
                                        if j2 < j as int || dir_rank(d2) < k as int {
                                            assert(cand_upto(q, hs, g, j as int, k as int));
                                            assert(pre.contains(q));
                                        } else {
                                            assert(d2 == d);
                                            assert(q == m);
                                        }
                                    }
                                }
                            }
                        } else {
                            proof {
                                assert forall|q: Move| pm@.contains(q) <==> cand_upto(
                                    q,
                                    hs,
                                    g,
                                    j as int,
                                    k + 1 as int,
                                ) by {
                                    if cand_upto(q, hs, g, j as int, k + 1 as int) {
                                        let (j2, d2) = choose|j2: int, d2: Dir|
                                            0 <= j2 && (j2 < j as int || (j2 == j as int
                                                && dir_rank(d2) < k + 1 as int)) && #[trigger] cand_at(
                                                hs,
                                                g,
                                                j2,
                                                d2,
                                                q,
                                            );
                                        if !(j2 < j as int || dir_rank(d2) < k as int) {
                                            assert(d2 == d);
                                            assert(false);
                                        }
                                    }
                                }
                            }
                        }
                    },
                    None => {
                        proof {
                            assert forall|q: Move| pm@.contains(q) <==> cand_upto(
                                q,
                                hs,
                                g,
                                j as int,
                                k + 1 as int,
                            ) by {
                                if cand_upto(q, hs, g, j as int, k + 1 as int) {
                                    let (j2, d2) = choose|j2: int, d2: Dir|
                                        0 <= j2 && (j2 < j as int || (j2 == j as int && dir_rank(d2)
                                            < k + 1 as int)) && #[trigger] cand_at(hs, g, j2, d2, q);
                                    if !(j2 < j as int || dir_rank(d2) < k as int) {
                                        assert(d2 == d);
                                        assert(false);
                                    }
                                }
                            }
                        }
                    },
                }
                k = k + 1;
            }
            proof {
                assert forall|m: Move| pm@.contains(m) <==> cand_upto(
                    m,
                    hs,
                    g,
                    j + 1 as int,
                    0,
                ) by {
                    if pm@.contains(m) {
                        let (j2, d2) = choose|j2: int, d2: Dir|
                            0 <= j2 && (j2 < j as int || (j2 == j as int && dir_rank(d2) < 4))
                                && #[trigger] cand_at(hs, g, j2, d2, m);
                        assert(j2 < j + 1 as int);
                        assert(cand_at(hs, g, j2, d2, m));
                    }
                    if cand_upto(m, hs, g, j + 1 as int, 0) {
                        let (j2, d2) = choose|j2: int, d2: Dir|
                            0 <= j2 && (j2 < j + 1 as int || (j2 == j + 1 as int && dir_rank(d2)
                                < 0)) && #[trigger] cand_at(hs, g, j2, d2, m);
                        assert(dir_rank(d2) < 4);
                        assert(cand_upto(m, hs, g, j as int, 4));
                    }
                }
            }
            j = j + 1;
        }
        proof {
            assert forall|m: Move| #[trigger] is_candidate(m, hs, g) implies pm@.contains(m) by {
                let (j2, d2) = choose|j2: int, d2: Dir|
                    0 <= j2 < hs.len() && #[trigger] cand_at(hs, g, j2, d2, m);
                assert(dir_rank(d2) < 4 || true);
                assert(cand_upto(m, hs, g, hs.len() as int, 0));
            }
            assert forall|i: int| 0 <= i < pm@.len() implies is_candidate(
                #[trigger] pm@[i],
                hs,
                g,
            ) by {
                assert(pm@.contains(pm@[i]));
                let (j2, d2) = choose|j2: int, d2: Dir|
                    0 <= j2 && (j2 < hs.len() as int || (j2 == hs.len() as int && dir_rank(d2) < 0))
                        && #[trigger] cand_at(hs, g, j2, d2, pm@[i]);
                assert(0 <= j2 < hs.len() && cand_at(hs, g, j2, d2, pm@[i]));
            }
        }
        pm
    }
}


// ---------------------------------------------------------------------
// The functional effect of a move.
// ---------------------------------------------------------------------

/// The grid cell at `(x, y)` after sliding block `id` one step in
/// `dir`: the new footprint holds the id, the vacated part of the old
/// footprint is empty, and every other cell is unchanged.
pub open spec fn moved_cell(v: BoardView, id: i8, dir: Dir, x: int, y: int) -> i8 {
    if covers(moved_block(v.state.blocks[id - 1], dir), x, y) {
        id
    } else if covers(v.state.blocks[id - 1], x, y) {
        0i8
    } else {
        v.grid.at(x, y)
    }
}

/// Whether `q` is an empty cell after sliding block `id` one step in
/// `dir`: the old footprint joins the holes and the new footprint
/// leaves them.
pub open spec fn moved_hole_set(v: BoardView, id: i8, dir: Dir, q: Vec2) -> bool {
    (v.state.holes.contains(q) || covers(v.state.blocks[id - 1], q.x as int, q.y as int))
        && !covers(moved_block(v.state.blocks[id - 1], dir), q.x as int, q.y as int)
}

/// The complete relation between the board value before and after a
/// successful move of block `id` in direction `dir`.  Together with
/// the canonical (sorted) representation of holes and move cache, this
/// pins the resulting board value uniquely.
pub open spec fn moved_view(v: BoardView, w: BoardView, id: i8, dir: Dir) -> bool {
    &&& spec_can_move(v, id, dir)
    &&& w.goal == v.goal
    &&& w.grid.w == v.grid.w
    &&& w.grid.h == v.grid.h
    &&& w.state.blocks == v.state.blocks.update(
        id - 1,
        moved_block(v.state.blocks[id - 1], dir),
    )
    &&& forall|x: int, y: int|
        w.grid.in_range(x, y) ==> #[trigger] w.grid.at(x, y) == moved_cell(v, id, dir, x, y)
    &&& forall|q: Vec2| #[trigger] w.state.holes.contains(q) <==> moved_hole_set(v, id, dir, q)
    &&& w.state.holes.len() == v.state.holes.len()
    &&& board_wf(w)
}

/// The moves in `ms`, applied in order from `v`, are all legal and
/// end at `w`.
pub open spec fn reaches(v: BoardView, ms: Seq<Move>, w: BoardView) -> bool
    decreases ms.len(),
{
    if ms.len() == 0 {
        w == v
    } else {
        exists|u: BoardView|
            #[trigger] moved_view(v, u, ms[0].0, ms[0].1) && reaches(u, ms.drop_first(), w)
    }
}

/// Prefixing a legal chain with one more legal move keeps it a legal
/// chain.
pub proof fn lemma_reaches_step(v: BoardView, u: BoardView, m: Move, ms: Seq<Move>, w: BoardView)
    requires
        moved_view(v, u, m.0, m.1),
        reaches(u, ms, w),
    ensures
        reaches(v, seq![m] + ms, w),
{
    let full = seq![m] + ms;
    assert(full.len() == ms.len() + 1);
    assert(full[0] == m);
    assert(full.drop_first() =~= ms);
    assert(moved_view(v, u, full[0].0, full[0].1) && reaches(u, full.drop_first(), w));
}

/// A board value satisfying the pointwise description of a move's
/// effect is well formed again.
proof fn lemma_move_wf(v: BoardView, w: BoardView, id: i8, dir: Dir)
    requires
        board_wf(v),
        spec_can_move(v, id, dir),
        v.grid.w <= 127,
        v.grid.h <= 127,
        w.goal == v.goal,
        w.grid.wf(),
        w.grid.w == v.grid.w,
        w.grid.h == v.grid.h,
        w.state.blocks == v.state.blocks.update(
            id - 1,
            moved_block(v.state.blocks[id - 1], dir),
        ),
        forall|x: int, y: int|
            w.grid.in_range(x, y) ==> #[trigger] w.grid.at(x, y) == moved_cell(v, id, dir, x, y),
        holes_sorted(w.state.holes),
        forall|q: Vec2| #[trigger] w.state.holes.contains(q) <==> moved_hole_set(v, id, dir, q),
        moves_wf(w.pmoves, w.state.holes, w.grid),
    ensures
        board_wf(w),
{
    let b = v.state.blocks[id - 1];
    let mb = moved_block(b, dir);
    let vx = dir_vec(dir).x as int;
    let vy = dir_vec(dir).y as int;

    // The whole new footprint is inside the grid and was empty or the
    // block's own, so the translated anchor did not wrap.
    assert(covers(b, b.pos.x as int, b.pos.y as int));
    assert(v.grid.in_range(b.pos.x + vx, b.pos.y + vy));
    assert(mb.pos.x == b.pos.x + vx && mb.pos.y == b.pos.y + vy);
    assert(covers(b, b.pos.x + b.size.x - 1, b.pos.y + b.size.y - 1));
    assert(v.grid.in_range(b.pos.x + b.size.x - 1 + vx, b.pos.y + b.size.y - 1 + vy));

    assert forall|x: int, y: int| #[trigger] covers(mb, x, y) implies covers(b, x - vx, y - vy)
        && v.grid.in_range(x, y) && (v.grid.at(x, y) == 0 || v.grid.at(x, y) == id) by {
        assert(covers(b, x - vx, y - vy));
    }

    // blocks_wf
    assert forall|i: int| 0 <= i < w.state.blocks.len() implies (#[trigger] w.state.blocks[i]).id
        == i + 1 && size_ok(w.state.blocks[i].size) && crate::board::block_in_grid(
        w.state.blocks[i],
        w.grid,
    ) by {
        if i == id - 1 {
            assert(w.state.blocks[i] == mb);
        } else {
            assert(w.state.blocks[i] == v.state.blocks[i]);
        }
    }

    // grid_matches, first direction: every non-zero cell is covered by
    // the block it names.
    assert forall|x: int, y: int|
        w.grid.in_range(x, y) && #[trigger] w.grid.at(x, y) != 0 implies 1 <= w.grid.at(x, y)
        <= w.state.blocks.len() && covers(w.state.blocks[w.grid.at(x, y) - 1], x, y) by {
        assert(w.grid.at(x, y) == moved_cell(v, id, dir, x, y));
        if covers(mb, x, y) {
            assert(w.state.blocks[id - 1] == mb);
        } else if covers(b, x, y) {
            assert(false);
        } else {
            let k = v.grid.at(x, y);
            assert(k != 0);
            assert(covers(v.state.blocks[k - 1], x, y));
            if k == id {
                assert(covers(b, x, y));
                assert(false);
            }
            assert(w.state.blocks[k - 1] == v.state.blocks[k - 1]);
        }
    }

    // grid_matches, second direction: every covered cell names its
    // block.
    assert forall|i: int, x: int, y: int|
        0 <= i < w.state.blocks.len() && w.grid.in_range(x, y) && covers(
        #[trigger] w.state.blocks[i],
        x,
        y,
    ) implies #[trigger] w.grid.at(x, y) == i + 1 by {
        assert(w.grid.at(x, y) == moved_cell(v, id, dir, x, y));
        if i == id - 1 {
            assert(w.state.blocks[i] == mb);
        } else {
            assert(w.state.blocks[i] == v.state.blocks[i]);
            assert(v.grid.at(x, y) == i + 1);
            if covers(mb, x, y) {
                assert(v.grid.at(x, y) == 0 || v.grid.at(x, y) == id);
                assert(false);
            }
            if covers(b, x, y) {
                assert(v.grid.at(x, y) == id);
                assert(false);
            }
        }
    }

    // holes_wf
    assert forall|i: int| 0 <= i < w.state.holes.len() implies w.grid.in_range(
        (#[trigger] w.state.holes[i]).x as int,
        w.state.holes[i].y as int,
    ) && w.grid.at(w.state.holes[i].x as int, w.state.holes[i].y as int) == 0 by {
        let q = w.state.holes[i];
        assert(w.state.holes.contains(q));
        assert(moved_hole_set(v, id, dir, q));
        let qx = q.x as int;
        let qy = q.y as int;
        if v.state.holes.contains(q) {
            let k = choose|k: int| 0 <= k < v.state.holes.len() && v.state.holes[k] == q;
            assert(v.grid.in_range(qx, qy) && v.grid.at(qx, qy) == 0);
        } else {
            assert(covers(b, qx, qy));
            assert(v.grid.in_range(qx, qy));
        }
        assert(w.grid.at(qx, qy) == moved_cell(v, id, dir, qx, qy));
        if !v.state.holes.contains(q) {
            assert(covers(b, qx, qy));
        } else {
            if covers(b, qx, qy) {
                assert(v.grid.at(qx, qy) == id && id >= 1);
                assert(false);
            }
        }
    }
    assert forall|x: int, y: int|
        w.grid.in_range(x, y) && #[trigger] w.grid.at(x, y) == 0 implies hole_at(
        w.state.holes,
        x,
        y,
    ) by {
        assert(w.grid.at(x, y) == moved_cell(v, id, dir, x, y));
        assert(!covers(mb, x, y));
        assert(0 <= x < v.grid.w && 0 <= y < v.grid.h);
        let q = Vec2 { x: x as i8, y: y as i8 };
        assert(q.x as int == x && q.y as int == y);
        if covers(b, x, y) {
            assert(moved_hole_set(v, id, dir, q));
        } else {
            assert(v.grid.at(x, y) == 0);
            assert(hole_at(v.state.holes, x, y));
            let k = choose|k: int|
                0 <= k < v.state.holes.len() && (#[trigger] v.state.holes[k]).x == x
                    && v.state.holes[k].y == y;
            assert(v.state.holes[k] == q);
            assert(v.state.holes.contains(q));
            assert(moved_hole_set(v, id, dir, q));
        }
        assert(w.state.holes.contains(q));
        let k = choose|k: int| 0 <= k < w.state.holes.len() && w.state.holes[k] == q;
        assert((w.state.holes[k]).x == x && w.state.holes[k].y == y);
    }

    // goal_wf transfers: ids and sizes are preserved by the update and
    // the grid dimensions are unchanged.
    assert forall|i: int| 0 <= i < w.state.blocks.len() implies (#[trigger] v.goal.blocks[i]).id
        == w.state.blocks[i].id && v.goal.blocks[i].size == w.state.blocks[i].size
        && crate::board::block_in_grid(v.goal.blocks[i], w.grid) by {
        if i == id - 1 {
            assert(w.state.blocks[i] == mb);
            assert(v.state.blocks[i].id == mb.id && v.state.blocks[i].size == mb.size);
        } else {
            assert(w.state.blocks[i] == v.state.blocks[i]);
        }
    }
}

impl Board {
    /// Check whether a move is valid on the current board, in the scan
    /// order that decides which error is reported.
    fn is_valid_move(&self, id: i8, dir: Dir) -> (r: Result<(), MoveError>)
        requires
            self.wf(),
        ensures
            r == spec_validate(self@, id, dir),
    {
        if id < 1 || id as usize > self.state.blocks.len() {
            return Err(MoveError::UnknownBlock);
        }
        let idx: usize = (id - 1) as usize;
        let b = self.state.blocks[idx];
        let ghost g = self@.grid;
        proof {
            assert(b == self@.state.blocks[id - 1]);
            assert(b.id == id && size_ok(b.size) && crate::board::block_in_grid(b, g));
        }
        let move_vec = dir.to_vec2();
        let mut dx: i8 = 0;
        while dx < b.size.x
            invariant
                self@.grid == g,
                g.wf(),
                size_ok(b.size),
                crate::board::block_in_grid(b, g),
                b.id == id,
                1 <= id,
                id - 1 < self@.state.blocks.len(),
                b == self@.state.blocks[id - 1],
                move_vec == dir_vec(dir),
                0 <= dx <= b.size.x,
                check_cells(b, g, dir, 0) == check_cells(b, g, dir, dx * b.size.y),
            decreases b.size.x - dx,
        {
            let mut dy: i8 = 0;
            proof {
                assert(dx * b.size.y + 0 == dx * b.size.y);
            }
            while dy < b.size.y
                invariant
                    self@.grid == g,
                    g.wf(),
                    size_ok(b.size),
                    crate::board::block_in_grid(b, g),
                    b.id == id,
                    1 <= id,
                    id - 1 < self@.state.blocks.len(),
                    b == self@.state.blocks[id - 1],
                    0 <= dx < b.size.x,
                    0 <= dy <= b.size.y,
                    move_vec == dir_vec(dir),
                    check_cells(b, g, dir, 0) == check_cells(b, g, dir, dx * b.size.y + dy),
                decreases b.size.y - dy,
            {
                let before_move = Vec2 { x: b.pos.x + dx, y: b.pos.y + dy };
                let after_move = before_move.add(&move_vec);
                proof {
                    lemma_cell_index_of(b, dx as int, dy as int);
                }
                match self.grid.get(after_move) {
                    Some(next_id) => {
                        if *next_id != 0 && *next_id != id {
                            proof {
                                assert(check_cells(b, g, dir, dx * b.size.y + dy) == Err::<
                                    (),
                                    MoveError,
                                >(MoveError::BlockedMove));
                            }
                            return Err(MoveError::BlockedMove);
                        }
                    },
                    None => {
                        proof {
                            assert(check_cells(b, g, dir, dx * b.size.y + dy) == Err::<
                                (),
                                MoveError,
                            >(MoveError::OutOfRange));
                        }
                        return Err(MoveError::OutOfRange);
                    },
                }
                proof {
                    assert(check_cells(b, g, dir, dx * b.size.y + dy) == check_cells(
                        b,
                        g,
                        dir,
                        dx * b.size.y + dy + 1,
                    ));
                }
                dy = dy + 1;
            }
            proof {
                assert(dx * b.size.y + b.size.y == (dx + 1) * b.size.y) by (nonlinear_arith) {}
            }
            dx = dx + 1;
        }
        proof {
            assert(b.size.x * b.size.y <= b.size.x * b.size.y);
            assert(check_cells(b, g, dir, b.size.x * b.size.y) == Ok::<(), MoveError>(()));
        }
        Ok(())
    }

    /// Apply the move `(id, dir)`.  On success the board takes exactly
    /// the moved value; on failure it is unchanged and the error says
    /// why, as validation in scan order determines it.
    pub fn move_block(&mut self, id: i8, dir: Dir) -> (r: Result<(), MoveError>)
        requires
            old(self).wf(),
        ensures
            final(self).wf(),
            match r {
                Ok(()) => spec_validate(old(self)@, id, dir) is Ok && moved_view(
                    old(self)@,
                    final(self)@,
                    id,
                    dir,
                ),
                Err(e) => final(self)@ == old(self)@ && Err::<(), MoveError>(e)
                    == spec_validate(old(self)@, id, dir),
            },
    {
        match self.is_valid_move(id, dir) {
            Err(e) => {
                return Err(e);
            },
            Ok(()) => {},
        }
        let ghost v0 = self@;
        let idx: usize = (id - 1) as usize;
        let b = self.state.blocks[idx];
        let ghost mb = moved_block(b, dir);
        proof {
            assert(b == v0.state.blocks[id - 1]);
            lemma_check_cells_ok(b, v0.grid, dir);
            assert(block_can_move(b, v0.grid, dir));
            assert forall|x: int, y: int| in_rect(b.pos, b.size, x, y) implies covers(
                b,
                x,
                y,
            ) && v0.grid.in_range(x, y) by {}
        }
        let move_vec = dir.to_vec2();

        // Clear the old footprint in the grid.
        let res1 = self.grid.try_fill(b.pos, b.size, 0);
        proof {
            assert(res1 is Ok);
        }
        if res1.is_err() {
            return Err(MoveError::OutOfRange);
        }
        let ghost g1 = self@.grid;

        // The vacated cells become holes.
        let mut dx: i8 = 0;
        while dx < b.size.x
            invariant
                self@.grid == g1,
                self@.state.blocks == v0.state.blocks,
                self@.goal == v0.goal,
                board_wf(v0),
                spec_can_move(v0, id, dir),
                v0.grid.w <= 127,
                v0.grid.h <= 127,
                b == v0.state.blocks[id - 1],
                b.id == id,
                size_ok(b.size),
                crate::board::block_in_grid(b, v0.grid),
                0 <= dx <= b.size.x,
                holes_sorted(self@.state.holes),
                forall|q: Vec2|
                    #[trigger] self@.state.holes.contains(q) <==> (v0.state.holes.contains(q) || (
                    covers(b, q.x as int, q.y as int) && (q.x as int) < b.pos.x + dx)),
                self@.state.holes.len() == v0.state.holes.len() + dx * b.size.y,
            decreases b.size.x - dx,
        {
            let mut dy: i8 = 0;
            while dy < b.size.y
                invariant
                    self@.grid == g1,
                    self@.state.blocks == v0.state.blocks,
                    self@.goal == v0.goal,
                    board_wf(v0),
                    spec_can_move(v0, id, dir),
                    v0.grid.w <= 127,
                    v0.grid.h <= 127,
                    b == v0.state.blocks[id - 1],
                    b.id == id,
                    size_ok(b.size),
                    crate::board::block_in_grid(b, v0.grid),
                    0 <= dx < b.size.x,
                    0 <= dy <= b.size.y,
                    holes_sorted(self@.state.holes),
                    forall|q: Vec2|
                        #[trigger] self@.state.holes.contains(q) <==> (v0.state.holes.contains(q)
                            || (covers(b, q.x as int, q.y as int) && ((q.x as int) < b.pos.x + dx
                            || ((q.x as int) == b.pos.x + dx && (q.y as int) < b.pos.y + dy)))),
                    self@.state.holes.len() == v0.state.holes.len() + dx * b.size.y + dy,
                decreases b.size.y - dy,
            {
                let pos = Vec2 { x: b.pos.x + dx, y: b.pos.y + dy };
                proof {
                    assert(covers(b, pos.x as int, pos.y as int));
                    assert(v0.grid.at(pos.x as int, pos.y as int) == id);
                    if v0.state.holes.contains(pos) {
                        let k = choose|k: int|
                            0 <= k < v0.state.holes.len() && v0.state.holes[k] == pos;
                        assert(v0.grid.at(pos.x as int, pos.y as int) == 0);
                        assert(false);
                    }
                    assert(!self@.state.holes.contains(pos));
                }
                insert_hole(&mut self.state.holes, pos);
                proof {
                    assert forall|q: Vec2| #[trigger] self@.state.holes.contains(q) <==> (
                    v0.state.holes.contains(q) || (covers(b, q.x as int, q.y as int) && ((
                    q.x as int) < b.pos.x + dx || ((q.x as int) == b.pos.x + dx && (q.y as int)
                        < b.pos.y + dy + 1)))) by {}
                }
                dy = dy + 1;
            }
            proof {
                assert(v0.state.holes.len() + dx * b.size.y + b.size.y == v0.state.holes.len() + (
                dx + 1) * b.size.y) by (nonlinear_arith) {}
                assert forall|q: Vec2| #[trigger] self@.state.holes.contains(q) <==> (
                v0.state.holes.contains(q) || (covers(b, q.x as int, q.y as int) && (q.x as int)
                    < b.pos.x + (dx + 1))) by {}
            }
            dx = dx + 1;
        }
        proof {
            assert(self@.state.holes.len() == v0.state.holes.len() + b.size.x * b.size.y);
            assert forall|q: Vec2| #[trigger] self@.state.holes.contains(q) <==> (
            v0.state.holes.contains(q) || covers(b, q.x as int, q.y as int)) by {}
        }
        let ghost holes1 = self@.state.holes;

        // Translate the block's anchor.
        let nb = Block {
            id: b.id,
            pos: Vec2 { x: b.pos.x + move_vec.x, y: b.pos.y + move_vec.y },
            size: b.size,
        };
        proof {
            assert(covers(b, b.pos.x as int, b.pos.y as int));
            assert(v0.grid.in_range(b.pos.x + dir_vec(dir).x, b.pos.y + dir_vec(dir).y));
            assert(nb == mb);
        }
        self.state.blocks.set(idx, nb);

        // Write the new footprint into the grid.
        proof {
            assert forall|x: int, y: int| in_rect(mb.pos, mb.size, x, y) implies covers(
                mb,
                x,
                y,
            ) && g1.in_range(x, y) by {
                assert(covers(b, x - dir_vec(dir).x, y - dir_vec(dir).y));
                assert(v0.grid.in_range(x, y));
            }
            assert(covers(b, b.pos.x + b.size.x - 1, b.pos.y + b.size.y - 1));
            assert(v0.grid.in_range(
                b.pos.x + b.size.x - 1 + dir_vec(dir).x,
                b.pos.y + b.size.y - 1 + dir_vec(dir).y,
            ));
        }
        let res2 = self.grid.try_fill(nb.pos, nb.size, id);
        proof {
            assert(res2 is Ok);
        }
        if res2.is_err() {
            return Err(MoveError::OutOfRange);
        }
        let ghost g2 = self@.grid;
        proof {
            assert forall|x: int, y: int| g2.in_range(x, y) implies #[trigger] g2.at(x, y)
                == moved_cell(v0, id, dir, x, y) by {
                assert(g2.at(x, y) == (if in_rect(mb.pos, mb.size, x, y) {
                    id
                } else {
                    g1.at(x, y)
                }));
                assert(g1.at(x, y) == (if in_rect(b.pos, b.size, x, y) {
                    0i8
                } else {
                    v0.grid.at(x, y)
                }));
                assert(in_rect(mb.pos, mb.size, x, y) == covers(mb, x, y));
                assert(in_rect(b.pos, b.size, x, y) == covers(b, x, y));
            }
        }

        proof {
            assert(covers(mb, mb.pos.x as int, mb.pos.y as int));
            assert(covers(mb, mb.pos.x + mb.size.x - 1, mb.pos.y + mb.size.y - 1));
            assert(crate::board::block_in_grid(mb, v0.grid));
        }

        // The new footprint's cells leave the hole set.
        let mut dx: i8 = 0;
        while dx < b.size.x
            invariant
                self@.grid == g2,
                self@.state.blocks == v0.state.blocks.update(id - 1, mb),
                self@.goal == v0.goal,
                board_wf(v0),
                spec_can_move(v0, id, dir),
                v0.grid.w <= 127,
                v0.grid.h <= 127,
                b == v0.state.blocks[id - 1],
                b.id == id,
                mb == moved_block(b, dir),
                nb == mb,
                crate::board::block_in_grid(mb, v0.grid),
                size_ok(b.size),
                crate::board::block_in_grid(b, v0.grid),
                forall|x: int, y: int| #[trigger] covers(mb, x, y) ==> v0.grid.in_range(x, y),
                0 <= dx <= b.size.x,
                holes_sorted(self@.state.holes),
                forall|q: Vec2|
                    #[trigger] self@.state.holes.contains(q) <==> ((v0.state.holes.contains(q)
                        || covers(b, q.x as int, q.y as int)) && !(covers(mb, q.x as int, q.y as int)
                        && (q.x as int) < mb.pos.x + dx)),
                self@.state.holes.len() == v0.state.holes.len() + b.size.x * b.size.y - dx
                    * b.size.y,
            decreases b.size.x - dx,
        {
            let mut dy: i8 = 0;
            while dy < b.size.y
                invariant
                    self@.grid == g2,
                    self@.state.blocks == v0.state.blocks.update(id - 1, mb),
                    self@.goal == v0.goal,
                    board_wf(v0),
                    spec_can_move(v0, id, dir),
                    v0.grid.w <= 127,
                    v0.grid.h <= 127,
                    b == v0.state.blocks[id - 1],
                    b.id == id,
                    mb == moved_block(b, dir),
                    nb == mb,
                    crate::board::block_in_grid(mb, v0.grid),
                    size_ok(b.size),
                    crate::board::block_in_grid(b, v0.grid),
                    forall|x: int, y: int| #[trigger] covers(mb, x, y) ==> v0.grid.in_range(x, y),
                    0 <= dx < b.size.x,
                    0 <= dy <= b.size.y,
                    holes_sorted(self@.state.holes),
                    forall|q: Vec2|
                        #[trigger] self@.state.holes.contains(q) <==> ((v0.state.holes.contains(q)
                            || covers(b, q.x as int, q.y as int)) && !(covers(
                            mb,
                            q.x as int,
                            q.y as int,
                        ) && ((q.x as int) < mb.pos.x + dx || ((q.x as int) == mb.pos.x + dx && (
                        q.y as int) < mb.pos.y + dy)))),
                    self@.state.holes.len() == v0.state.holes.len() + b.size.x * b.size.y - dx
                        * b.size.y - dy,
                decreases b.size.y - dy,
            {
                let pos = Vec2 { x: nb.pos.x + dx, y: nb.pos.y + dy };
                proof {
                    assert(covers(mb, pos.x as int, pos.y as int));
                    assert(covers(b, pos.x as int - dir_vec(dir).x, pos.y as int - dir_vec(
                        dir,
                    ).y));
                    assert(v0.grid.at(pos.x as int, pos.y as int) == 0 || v0.grid.at(
                        pos.x as int,
                        pos.y as int,
                    ) == id);
                    if v0.grid.at(pos.x as int, pos.y as int) == 0 {
                        assert(hole_at(v0.state.holes, pos.x as int, pos.y as int));
                        let k = choose|k: int|
                            0 <= k < v0.state.holes.len() && (#[trigger] v0.state.holes[k]).x
                                == pos.x as int && v0.state.holes[k].y == pos.y as int;
                        assert(v0.state.holes[k] == pos);
                        assert(v0.state.holes.contains(pos));
                    } else {
                        assert(covers(v0.state.blocks[id - 1], pos.x as int, pos.y as int));
                    }
                    assert(self@.state.holes.contains(pos));
                }
                remove_hole(&mut self.state.holes, pos);
                proof {
                    assert forall|q: Vec2| #[trigger] self@.state.holes.contains(q) <==> ((
                    v0.state.holes.contains(q) || covers(b, q.x as int, q.y as int)) && !(covers(
                        mb,
                        q.x as int,
                        q.y as int,
                    ) && ((q.x as int) < mb.pos.x + dx || ((q.x as int) == mb.pos.x + dx && (
                    q.y as int) < mb.pos.y + dy + 1)))) by {}
                }
                dy = dy + 1;
            }
            proof {
                assert(v0.state.holes.len() + b.size.x * b.size.y - dx * b.size.y - b.size.y
                    == v0.state.holes.len() + b.size.x * b.size.y - (dx + 1)
                    * b.size.y) by (nonlinear_arith) {}
                assert forall|q: Vec2| #[trigger] self@.state.holes.contains(q) <==> ((
                v0.state.holes.contains(q) || covers(b, q.x as int, q.y as int)) && !(covers(
                    mb,
                    q.x as int,
                    q.y as int,
                ) && (q.x as int) < mb.pos.x + (dx + 1))) by {}
            }
            dx = dx + 1;
        }
        proof {
            assert(b.size.x * b.size.y - b.size.x * b.size.y == 0);
            assert(self@.state.holes.len() == v0.state.holes.len());
            assert forall|q: Vec2| #[trigger] self@.state.holes.contains(q)
                <==> moved_hole_set(v0, id, dir, q) by {}
        }

        // Refresh the move cache from the new holes and grid.
        proof {
            assert forall|i: int| 0 <= i < self@.state.holes.len() implies g2.in_range(
                (#[trigger] self@.state.holes[i]).x as int,
                self@.state.holes[i].y as int,
            ) by {
                let q = self@.state.holes[i];
                assert(self@.state.holes.contains(q));
                assert(moved_hole_set(v0, id, dir, q));
                if v0.state.holes.contains(q) {
                    let k = choose|k: int|
                        0 <= k < v0.state.holes.len() && v0.state.holes[k] == q;
                    assert(v0.grid.in_range(q.x as int, q.y as int));
                } else {
                    assert(covers(b, q.x as int, q.y as int));
                }
            }
        }
        let pm = Self::generate_possible_moves(&self.state.holes, &self.grid);
        self._possible_moves = pm;

        proof {
            assert(v0.grid.w <= 127 && v0.grid.h <= 127);
            lemma_move_wf(v0, self@, id, dir);
        }
        Ok(())
    }
}

} // verus!
