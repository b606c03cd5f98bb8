use vstd::prelude::*;

use crate::board::{
    blocks_wf, board_wf, covered_by, covers, grid_matches, hole_at, holes_sorted, holes_wf,
    pos_lt, size_ok, Block, Board, BoardError, BoardState, StateView,
};
use crate::matrix::{in_rect, GridView, Matrix2D};
use crate::vec2::Vec2;

verus! {

// ---------------------------------------------------------------------
// The canonical goal packing.
// ---------------------------------------------------------------------

/// The block `b` re-anchored at `(x, y)`.
pub open spec fn place_at(b: Block, x: int, y: int) -> Block {
    Block { id: b.id, pos: Vec2 { x: x as i8, y: y as i8 }, size: b.size }
}

/// The block fits at `(x, y)`: its rectangle stays inside the `w` x
/// `h` grid and does not overlap any earlier placement.
pub open spec fn fits(placed: Seq<Block>, b: Block, x: int, y: int, w: int, h: int) -> bool {
    &&& x + b.size.x <= w
    &&& y + b.size.y <= h
    &&& forall|cx: int, cy: int|
        #[trigger] covers(place_at(b, x, y), cx, cy) ==> !covered_by(placed, cx, cy)
}

/// One scan of the canonical goal packing, from flat cell index `k`
/// on: visit cells in row-major order; at each free cell, place the
/// next block by id if it fits without overlap, otherwise record a
/// goal hole there.
pub open spec fn pack_step(
    blocks: Seq<Block>,
    w: int,
    h: int,
    k: int,
    placed: Seq<Block>,
    holes: Seq<Vec2>,
) -> (Seq<Block>, Seq<Vec2>)
    decreases w * h - k,
{
    if k < 0 || w <= 0 || k >= w * h {
        (placed, holes)
    } else {
        let x = k % w;
        let y = k / w;
        if covered_by(placed, x, y) {
            pack_step(blocks, w, h, k + 1, placed, holes)
        } else if placed.len() < blocks.len() && fits(
            placed,
            blocks[placed.len() as int],
            x,
            y,
            w,
            h,
        ) {
            pack_step(
                blocks,
                w,
                h,
                k + 1,
                placed.push(place_at(blocks[placed.len() as int], x, y)),
                holes,
            )
        } else {
            pack_step(blocks, w, h, k + 1, placed, holes.push(Vec2 { x: x as i8, y: y as i8 }))
        }
    }
}

/// The canonical packed goal layout for the given blocks on a `w` x
/// `h` grid, or the packing failure.
pub open spec fn spec_goal(blocks: Seq<Block>, w: int, h: int) -> Result<StateView, BoardError> {
    let r = pack_step(blocks, w, h, 0, Seq::empty(), Seq::empty());
    if r.0.len() == blocks.len() {
        Ok(StateView { holes: r.1, blocks: r.0 })
    } else {
        Err(BoardError::UnfittableLayout)
    }
}

proof fn lemma_covered_push(placed: Seq<Block>, b: Block, x: int, y: int)
    requires
        covered_by(placed, x, y),
    ensures
        covered_by(placed.push(b), x, y),
{
    let u = choose|u: int| 0 <= u < placed.len() && covers(#[trigger] placed[u], x, y);
    assert(placed.push(b)[u] == placed[u]);
    assert(covers(placed.push(b)[u], x, y));
}

proof fn lemma_scan_index(w: int, i: int, j: int)
    requires
        0 <= j < w,
        0 <= i,
    ensures
        (i * w + j) % w == j,
        (i * w + j) / w == i,
        0 <= i * w + j,
        i * w + j < (i + 1) * w,
{
    assert((i * w + j) % w == j && (i * w + j) / w == i && 0 <= i * w + j && i * w + j < (i + 1)
        * w) by (nonlinear_arith)
        requires
            0 <= j < w,
            0 <= i,
    {}
}

proof fn lemma_rowmajor_lt(w: int, x1: int, y1: int, x2: int, y2: int)
    requires
        0 <= x1 < w,
        0 <= x2 < w,
        0 <= y1,
        0 <= y2,
        y1 * w + x1 < y2 * w + x2,
    ensures
        y1 < y2 || (y1 == y2 && x1 < x2),
{
    assert(y1 < y2 || (y1 == y2 && x1 < x2)) by (nonlinear_arith)
        requires
            0 <= x1 < w,
            0 <= x2 < w,
            0 <= y1,
            0 <= y2,
            y1 * w + x1 < y2 * w + x2,
    {}
}

impl Board {
    /// Compute the canonical goal state: repack the blocks, in id
    /// order, into the smallest top-left-justified layout.
    pub(crate) fn generate_final_state(size: Vec2, blocks: &Vec<Block>) -> (r: Result<
        BoardState,
        BoardError,
    >)
        requires
            0 < size.x,
            0 < size.y,
            blocks@.len() <= 127,
            forall|i: int|
                0 <= i < blocks@.len() ==> (#[trigger] blocks@[i]).id == i + 1 && size_ok(
                    blocks@[i].size,
                ),
        ensures
            match r {
                Ok(st) => {
                    &&& spec_goal(blocks@, size.x as int, size.y as int) == Ok::<StateView, BoardError>(st@)
                    &&& holes_sorted(st@.holes)
                    &&& forall|q: Vec2|
                        #[trigger] st@.holes.contains(q) <==> (0 <= q.x < size.x && 0 <= q.y
                            < size.y && !covered_by(st@.blocks, q.x as int, q.y as int))
                    &&& st@.blocks.len() == blocks@.len()
                    &&& forall|i: int|
                        0 <= i < blocks@.len() ==> (#[trigger] st@.blocks[i]).id == i + 1
                            && st@.blocks[i].size == blocks@[i].size && 0 <= st@.blocks[i].pos.x
                            && 0 <= st@.blocks[i].pos.y && st@.blocks[i].pos.x
                            + st@.blocks[i].size.x <= size.x && st@.blocks[i].pos.y
                            + st@.blocks[i].size.y <= size.y
                },
                Err(e) => {
                    &&& e == BoardError::UnfittableLayout
                    &&& spec_goal(blocks@, size.x as int, size.y as int) is Err
                },
            },
    {
        let ghost w = size.x as int;
        let ghost h = size.y as int;
        let ghost bs = blocks@;
        let mut grid = Matrix2D::fill(size, 0i8);
        let mut next_block_id: usize = 0;
        let mut result_blocks: Vec<Block> = Vec::new();
        let mut holes: Vec<Vec2> = Vec::new();

        let mut i: i8 = 0;
        while i < size.y
            invariant
                0 < size.x,
                0 < size.y,
                w == size.x as int,
                h == size.y as int,
                bs == blocks@,
                bs.len() <= 127,
                forall|t: int|
                    0 <= t < bs.len() ==> (#[trigger] bs[t]).id == t + 1 && size_ok(bs[t].size),
                0 <= i <= size.y,
                grid@.wf(),
                grid@.w == w,
                grid@.h == h,
                grid_matches(result_blocks@, grid@),
                result_blocks@.len() == next_block_id,
                next_block_id <= bs.len(),
                forall|t: int|
                    0 <= t < result_blocks@.len() ==> (#[trigger] result_blocks@[t]).id == t + 1
                        && result_blocks@[t].size == bs[t].size && 0 <= result_blocks@[t].pos.x
                        && 0 <= result_blocks@[t].pos.y && result_blocks@[t].pos.x
                        + result_blocks@[t].size.x <= w && result_blocks@[t].pos.y
                        + result_blocks@[t].size.y <= h,
                holes_sorted(holes@),
                forall|t: int|
                    0 <= t < holes@.len() ==> 0 <= (#[trigger] holes@[t]).x < w && 0
                        <= holes@[t].y && (holes@[t].y as int) * w + (holes@[t].x as int) < i * w,
                forall|t: int|
                    0 <= t < holes@.len() ==> !covered_by(
                        result_blocks@,
                        (#[trigger] holes@[t]).x as int,
                        holes@[t].y as int,
                    ),
                forall|x: int, y: int|
                    #![trigger covered_by(result_blocks@, x, y)]
                    #![trigger hole_at(holes@, x, y)]
                    0 <= x < w && 0 <= y < h && y * w + x < i * w ==> covered_by(
                        result_blocks@,
                        x,
                        y,
                    ) || hole_at(holes@, x, y),
                pack_step(bs, w, h, 0, Seq::empty(), Seq::empty()) == pack_step(
                    bs,
                    w,
                    h,
                    i * w,
                    result_blocks@,
                    holes@,
                ),
            decreases size.y - i,
        {
            let mut j: i8 = 0;
            while j < size.x
                invariant
                    0 < size.x,
                    0 < size.y,
                    w == size.x as int,
                    h == size.y as int,
                    bs == blocks@,
                    bs.len() <= 127,
                    forall|t: int|
                        0 <= t < bs.len() ==> (#[trigger] bs[t]).id == t + 1 && size_ok(bs[t].size),
                    0 <= i < size.y,
                    0 <= j <= size.x,
                    grid@.wf(),
                    grid@.w == w,
                    grid@.h == h,
                    grid_matches(result_blocks@, grid@),
                    result_blocks@.len() == next_block_id,
                    next_block_id <= bs.len(),
                    forall|t: int|
                        0 <= t < result_blocks@.len() ==> (#[trigger] result_blocks@[t]).id == t + 1
                            && result_blocks@[t].size == bs[t].size && 0 <= result_blocks@[t].pos.x
                            && 0 <= result_blocks@[t].pos.y && result_blocks@[t].pos.x
                            + result_blocks@[t].size.x <= w && result_blocks@[t].pos.y
                            + result_blocks@[t].size.y <= h,
                    holes_sorted(holes@),
                    forall|t: int|
                        0 <= t < holes@.len() ==> 0 <= (#[trigger] holes@[t]).x < w && 0
                            <= holes@[t].y && (holes@[t].y as int) * w + (holes@[t].x as int) < i
                            * w + j,
                    forall|t: int|
                        0 <= t < holes@.len() ==> !covered_by(
                            result_blocks@,
                            (#[trigger] holes@[t]).x as int,
                            holes@[t].y as int,
                        ),
                    forall|x: int, y: int|
                        #![trigger covered_by(result_blocks@, x, y)]
                        #![trigger hole_at(holes@, x, y)]
                        0 <= x < w && 0 <= y < h && y * w + x < i * w + j ==> covered_by(
                            result_blocks@,
                            x,
                            y,
                        ) || hole_at(holes@, x, y),
                    pack_step(bs, w, h, 0, Seq::empty(), Seq::empty()) == pack_step(
                        bs,
                        w,
                        h,
                        i * w + j,
                        result_blocks@,
                        holes@,
                    ),
                decreases size.x - j,
            {
                let pos = Vec2 { x: j, y: i };
                let ghost k = i as int * w + j as int;
                proof {
                    lemma_scan_index(w, i as int, j as int);
                    assert(k < h * w) by (nonlinear_arith)
                        requires
                            0 <= k < (i + 1) * w,
                            i + 1 <= h,
                            0 < w,
                    {}
                    assert(h * w == w * h) by (nonlinear_arith) {}
                }
                let cell_is_empty = match grid.get(pos) {
                    Some(v) => *v == 0,
                    None => false,
                };
                proof {
                    assert(grid@.in_range(j as int, i as int));
                    assert(cell_is_empty == (grid@.at(j as int, i as int) == 0));
                    if cell_is_empty {
                        assert forall|t: int|
                            0 <= t < result_blocks@.len() implies !covers(
                            #[trigger] result_blocks@[t],
                            j as int,
                            i as int,
                        ) by {
                            if covers(result_blocks@[t], j as int, i as int) {
                                assert(grid@.at(j as int, i as int) == t + 1);
                            }
                        }
                        assert(!covered_by(result_blocks@, j as int, i as int));
                    } else {
                        let c = grid@.at(j as int, i as int);
                        assert(1 <= c <= result_blocks@.len() && covers(
                            result_blocks@[c - 1],
                            j as int,
                            i as int,
                        ));
                        assert(covered_by(result_blocks@, j as int, i as int));
                    }
                }
                if cell_is_empty {
                    let mut placed = false;
                    if next_block_id < blocks.len() {
                        let block = blocks[next_block_id];
                        let ghost pre_grid = grid@;
                        let fill = grid.try_fill_without_cover(pos, block.size, block.id);
                        match fill {
                            Ok(()) => {
                                let nb = Block { id: block.id, pos, size: block.size };
                                proof {
                                    assert(nb == place_at(bs[next_block_id as int], j as int, i as int));
                                    // the fill succeeded, so the block fits here
                                    assert(in_rect(pos, block.size, j as int + block.size.x - 1, i as int));
                                    assert(in_rect(pos, block.size, j as int, i as int + block.size.y - 1));
                                    assert forall|cx: int, cy: int|
                                        #[trigger] covers(nb, cx, cy) implies !covered_by(
                                        result_blocks@,
                                        cx,
                                        cy,
                                    ) by {
                                        assert(in_rect(pos, block.size, cx, cy));
                                        assert(pre_grid.at(cx, cy) == 0);
                                        if covered_by(result_blocks@, cx, cy) {
                                            let t = choose|t: int|
                                                0 <= t < result_blocks@.len() && covers(
                                                    #[trigger] result_blocks@[t],
                                                    cx,
                                                    cy,
                                                );
                                            assert(pre_grid.at(cx, cy) == t + 1);
                                        }
                                    }
                                    assert(fits(result_blocks@, bs[next_block_id as int], j as int, i as int, w, h));
                                }
                                let ghost pre_rb = result_blocks@;
                                result_blocks.push(nb);
                                proof {
                                    // earlier holes lie strictly before this
                                    // anchor in the scan, so the new block
                                    // cannot cover them
                                    assert forall|t: int| 0 <= t < holes@.len() implies !covered_by(
                                        result_blocks@,
                                        (#[trigger] holes@[t]).x as int,
                                        holes@[t].y as int,
                                    ) by {
                                        let qx = holes@[t].x as int;
                                        let qy = holes@[t].y as int;
                                        if covered_by(result_blocks@, qx, qy) {
                                            let u = choose|u: int|
                                                0 <= u < result_blocks@.len() && covers(
                                                    #[trigger] result_blocks@[u],
                                                    qx,
                                                    qy,
                                                );
                                            if u < pre_rb.len() {
                                                assert(covered_by(pre_rb, qx, qy));
                                                assert(false);
                                            } else {
                                                assert(result_blocks@[u] == nb);
                                                assert(qy >= i as int);
                                                assert(qy * w + qx >= i as int * w
                                                    + j as int) by (nonlinear_arith)
                                                    requires
                                                        qy >= i as int,
                                                        qy == i as int ==> qx >= j as int,
                                                        0 <= qx,
                                                        0 <= j < w,
                                                {}
                                                assert(false);
                                            }
                                        }
                                    }
                                    // earlier cells keep their coverage
                                    assert forall|x: int, y: int|
                                        #![trigger covered_by(result_blocks@, x, y)]
                                        #![trigger hole_at(holes@, x, y)]
                                        0 <= x < w && 0 <= y < h && y * w + x < k
                                            + 1 implies covered_by(result_blocks@, x, y)
                                        || hole_at(holes@, x, y) by {
                                        if y * w + x < k {
                                            if covered_by(pre_rb, x, y) {
                                                lemma_covered_push(pre_rb, nb, x, y);
                                                assert(result_blocks@ == pre_rb.push(nb));
                                            }
                                        } else {
                                            assert(x == j as int && y == i as int) by {
                                                crate::matrix::GridView::<
                                                    i8,
                                                >::lemma_index_injective(
                                                    grid@,
                                                    x,
                                                    y,
                                                    j as int,
                                                    i as int,
                                                );
                                            }
                                            assert(covers(nb, x, y));
                                            assert(result_blocks@[result_blocks@.len() - 1]
                                                == nb);
                                            assert(covers(
                                                result_blocks@[result_blocks@.len() - 1],
                                                x,
                                                y,
                                            ));
                                            assert(covered_by(result_blocks@, x, y));
                                        }
                                    }
                                    // grid consistency with the new placement
                                    assert forall|x: int, y: int|
                                        grid@.in_range(x, y) && #[trigger] grid@.at(x, y)
                                            != 0 implies 1 <= grid@.at(x, y)
                                        <= result_blocks@.len() && covers(
                                        result_blocks@[grid@.at(x, y) - 1],
                                        x,
                                        y,
                                    ) by {
                                        if in_rect(pos, block.size, x, y) {
                                            assert(grid@.at(x, y) == block.id);
                                            assert(covers(nb, x, y));
                                            assert(result_blocks@[next_block_id as int] == nb);
                                        } else {
                                            assert(grid@.at(x, y) == pre_grid.at(x, y));
                                            assert(covers(
                                                result_blocks@[grid@.at(x, y) - 1],
                                                x,
                                                y,
                                            ));
                                        }
                                    }
                                    assert forall|t: int, x: int, y: int|
                                        0 <= t < result_blocks@.len() && grid@.in_range(x, y)
                                            && covers(
                                            #[trigger] result_blocks@[t],
                                            x,
                                            y,
                                        ) implies #[trigger] grid@.at(x, y) == t + 1 by {
                                        if t == next_block_id as int {
                                            assert(in_rect(pos, block.size, x, y));
                                            assert(grid@.at(x, y) == block.id);
                                        } else {
                                            assert(pre_grid.at(x, y) == t + 1);
                                            if in_rect(pos, block.size, x, y) {
                                                assert(pre_grid.at(x, y) == 0);
                                                assert(false);
                                            }
                                        }
                                    }
                                    // one unfold of the packing scan
                                    assert(result_blocks@ == pre_rb.push(nb));
                                    assert(pack_step(bs, w, h, k, pre_rb, holes@) == pack_step(
                                        bs,
                                        w,
                                        h,
                                        k + 1,
                                        pre_rb.push(nb),
                                        holes@,
                                    )) by {
                                        assert(!covered_by(pre_rb, j as int, i as int));
                                        assert(fits(pre_rb, bs[pre_rb.len() as int], j as int, i as int, w, h));
                                    }
                                }
                                next_block_id = next_block_id + 1;
                                placed = true;
                            },
                            Err(_) => {
                                proof {
                                    // the block does not fit here
                                    if fits(result_blocks@, bs[next_block_id as int], j as int, i as int, w, h) {
                                        assert forall|cx: int, cy: int|
                                            in_rect(pos, block.size, cx, cy) implies grid@.in_range(
                                            cx,
                                            cy,
                                        ) && grid@.at(cx, cy) == 0 by {
                                            assert(covers(place_at(bs[next_block_id as int], j as int, i as int), cx, cy));
                                            assert(!covered_by(result_blocks@, cx, cy));
                                            if grid@.at(cx, cy) != 0 {
                                                let c = grid@.at(cx, cy);
                                                assert(covers(result_blocks@[c - 1], cx, cy));
                                                assert(covered_by(result_blocks@, cx, cy));
                                                assert(false);
                                            }
                                        }
                                        assert(grid@.rect_in_range(pos, block.size));
                                        assert(false);
                                    }
                                }
                            },
                        }
                    }
                    if !placed {
                        proof {
                            if holes@.len() > 0 {
                                assert(pos_lt(holes@[holes@.len() - 1], pos)) by {
                                    lemma_rowmajor_lt(
                                        w,
                                        holes@[holes@.len() - 1].x as int,
                                        holes@[holes@.len() - 1].y as int,
                                        j as int,
                                        i as int,
                                    );
                                }
                            }
                            assert forall|a: int, b: int|
                                0 <= a < b < holes@.push(pos).len() implies pos_lt(
                                #[trigger] holes@.push(pos)[a],
                                #[trigger] holes@.push(pos)[b],
                            ) by {
                                if b < holes@.len() {
                                } else {
                                    if a < holes@.len() - 1 {
                                        assert(pos_lt(holes@[a], holes@[holes@.len() - 1]));
                                    }
                                }
                            }
                        }
                        let ghost pre_holes = holes@;
                        holes.push(pos);
                        proof {
                            assert forall|t: int| 0 <= t < holes@.len() implies !covered_by(
                                result_blocks@,
                                (#[trigger] holes@[t]).x as int,
                                holes@[t].y as int,
                            ) by {
                                if t < pre_holes.len() {
                                    assert(holes@[t] == pre_holes[t]);
                                } else {
                                    assert(holes@[t] == pos);
                                }
                            }
                            assert forall|x: int, y: int|
                                #![trigger covered_by(result_blocks@, x, y)]
                                #![trigger hole_at(holes@, x, y)]
                                0 <= x < w && 0 <= y < h && y * w + x < k + 1 implies covered_by(
                                result_blocks@,
                                x,
                                y,
                            ) || hole_at(holes@, x, y) by {
                                if y * w + x < k {
                                    if hole_at(pre_holes, x, y) {
                                        let t = choose|t: int|
                                            0 <= t < pre_holes.len() && (#[trigger] pre_holes[t]).x
                                                == x && pre_holes[t].y == y;
                                        assert(holes@[t] == pre_holes[t]);
                                        assert(hole_at(holes@, x, y));
                                    }
                                } else {
                                    assert(x == j as int && y == i as int) by {
                                        crate::matrix::GridView::<i8>::lemma_index_injective(
                                            grid@,
                                            x,
                                            y,
                                            j as int,
                                            i as int,
                                        );
                                    }
                                    assert(holes@[holes@.len() - 1] == pos);
                                    assert(hole_at(holes@, x, y));
                                }
                            }
                            // one unfold of the packing scan
                            assert(!covered_by(result_blocks@, j as int, i as int));
                            if result_blocks@.len() < bs.len() {
                                assert(!fits(result_blocks@, bs[result_blocks@.len() as int], j as int, i as int, w, h));
                            }
                            assert(holes@ == pre_holes.push(pos));
                            assert(pack_step(bs, w, h, k, result_blocks@, pre_holes) == pack_step(
                                bs,
                                w,
                                h,
                                k + 1,
                                result_blocks@,
                                pre_holes.push(pos),
                            ));
                        }
                    }
                } else {
                    proof {
                        assert(pack_step(bs, w, h, k, result_blocks@, holes@) == pack_step(
                            bs,
                            w,
                            h,
                            k + 1,
                            result_blocks@,
                            holes@,
                        ));
                        assert forall|x: int, y: int|
                            #![trigger covered_by(result_blocks@, x, y)]
                            #![trigger hole_at(holes@, x, y)]
                            0 <= x < w && 0 <= y < h && y * w + x < k + 1 implies covered_by(
                            result_blocks@,
                            x,
                            y,
                        ) || hole_at(holes@, x, y) by {
                            if y * w + x >= k {
                                crate::matrix::GridView::<i8>::lemma_index_injective(
                                    grid@,
                                    x,
                                    y,
                                    j as int,
                                    i as int,
                                );
                                assert(covered_by(result_blocks@, j as int, i as int));
                            }
                        }
                    }
                }
                j = j + 1;
            }
            proof {
                assert(i as int * w + w == (i as int + 1) * w) by (nonlinear_arith) {}
            }
            i = i + 1;
        }
        proof {
            assert(size.y as int * w == h * w);
            assert(h * w == w * h) by (nonlinear_arith) {}
            assert(pack_step(bs, w, h, w * h, result_blocks@, holes@) == (
                result_blocks@,
                holes@,
            ));
        }
        if next_block_id < blocks.len() {
            return Err(BoardError::UnfittableLayout);
        }
        proof {
            assert forall|q: Vec2| #[trigger] holes@.contains(q) implies (0 <= q.x < size.x && 0
                <= q.y < size.y && !covered_by(result_blocks@, q.x as int, q.y as int)) by {
                let t = choose|t: int| 0 <= t < holes@.len() && holes@[t] == q;
                assert((q.y as int) * w + (q.x as int) < h * w);
                assert((q.y as int) < h) by (nonlinear_arith)
                    requires
                        (q.y as int) * w + (q.x as int) < h * w,
                        0 <= (q.x as int) < w,
                        0 <= (q.y as int),
                {}
            }
            assert forall|q: Vec2|
                (0 <= q.x < size.x && 0 <= q.y < size.y && !covered_by(
                    result_blocks@,
                    q.x as int,
                    q.y as int,
                )) implies #[trigger] holes@.contains(q) by {
                assert((q.y as int) * w + (q.x as int) < h * w) by (nonlinear_arith)
                    requires
                        0 <= (q.x as int) < w,
                        0 <= (q.y as int) < h,
                {}
                assert(covered_by(result_blocks@, q.x as int, q.y as int) || hole_at(
                    holes@,
                    q.x as int,
                    q.y as int,
                ));
                let t = choose|t: int|
                    0 <= t < holes@.len() && (#[trigger] holes@[t]).x == q.x as int && holes@[t].y
                        == q.y as int;
                assert(holes@[t] == q);
            }
        }
        Ok(BoardState { holes, blocks: result_blocks })
    }
}


// ---------------------------------------------------------------------
// Reading blocks back out of an occupancy grid.
// ---------------------------------------------------------------------

/// The positions form one of the four legal rectangles, enumerated in
/// row-major order: a single cell, a horizontal or vertical pair, or a
/// 2 x 2 square.
pub open spec fn rect_positions(ps: Seq<Vec2>) -> bool {
    ||| ps.len() == 1
    ||| (ps.len() == 2 && ((ps[1].x == ps[0].x + 1 && ps[1].y == ps[0].y) || (ps[1].x == ps[0].x
        && ps[1].y == ps[0].y + 1)))
    ||| (ps.len() == 4 && ps[1].x == ps[0].x + 1 && ps[1].y == ps[0].y && ps[2].x == ps[0].x
        && ps[2].y == ps[0].y + 1 && ps[3].x == ps[0].x + 1 && ps[3].y == ps[0].y + 1)
}

/// The cells of a block, enumerated in row-major order.
pub open spec fn block_cells(b: Block) -> Seq<Vec2> {
    Seq::new(
        (b.size.x * b.size.y) as nat,
        |k: int|
            Vec2 {
                x: (b.pos.x + k % (b.size.x as int)) as i8,
                y: (b.pos.y + k / (b.size.x as int)) as i8,
            },
    )
}

impl Block {
    /// Build a block from the row-major list of its cells; the list
    /// must form one of the four legal rectangles.
    pub fn from_positions(id: i8, positions: &Vec<Vec2>) -> (r: Result<Block, BoardError>)
        requires
            forall|t: int|
                0 <= t < positions@.len() ==> (#[trigger] positions@[t]).x <= 126
                    && positions@[t].y <= 126,
        ensures
            r is Ok <==> rect_positions(positions@),
            match r {
                Ok(b) => {
                    &&& b.id == id
                    &&& size_ok(b.size)
                    &&& positions@.len() == b.size.x * b.size.y
                    &&& b.pos == positions@[0]
                    &&& forall|k: int|
                        0 <= k < positions@.len() ==> (#[trigger] positions@[k]).x == b.pos.x + k
                            % (b.size.x as int) && positions@[k].y == b.pos.y + k / (
                        b.size.x as int)
                },
                Err(e) => e == BoardError::MalformedBlock,
            },
    {
        if positions.len() == 1 {
            let b = Block { id, pos: positions[0], size: Vec2 { x: 1, y: 1 } };
            return Ok(b);
        }
        if positions.len() == 2 {
            let p0 = positions[0];
            let p1 = positions[1];
            if p1.x == p0.x + 1 && p1.y == p0.y {
                let b = Block { id, pos: p0, size: Vec2 { x: 2, y: 1 } };
                return Ok(b);
            }
            if p1.x == p0.x && p1.y == p0.y + 1 {
                let b = Block { id, pos: p0, size: Vec2 { x: 1, y: 2 } };
                return Ok(b);
            }
            return Err(BoardError::MalformedBlock);
        }
        if positions.len() == 4 {
            let p0 = positions[0];
            let p1 = positions[1];
            let p2 = positions[2];
            let p3 = positions[3];
            if p1.x == p0.x + 1 && p1.y == p0.y && p2.x == p0.x && p2.y == p0.y + 1 && p3.x == p0.x
                + 1 && p3.y == p0.y + 1 {
                let b = Block { id, pos: p0, size: Vec2 { x: 2, y: 2 } };
                return Ok(b);
            }
            return Err(BoardError::MalformedBlock);
        }
        Err(BoardError::MalformedBlock)
    }
}

/// Two sorted, duplicate-free position lists with the same members are
/// the same list.
pub proof fn lemma_sorted_unique(s1: Seq<Vec2>, s2: Seq<Vec2>)
    requires
        holes_sorted(s1),
        holes_sorted(s2),
        forall|q: Vec2| s1.contains(q) <==> s2.contains(q),
    ensures
        s1 == s2,
    decreases s1.len(),
{
    if s1.len() == 0 {
        if s2.len() > 0 {
            assert(s2.contains(s2[0]));
            assert(s1.contains(s2[0]));
            assert(false);
        }
        assert(s1 =~= s2);
    } else {
        assert(s1.contains(s1[0]));
        assert(s2.contains(s1[0]));
        let k2 = choose|k: int| 0 <= k < s2.len() && s2[k] == s1[0];
        assert(s2.contains(s2[0]));
        assert(s1.contains(s2[0]));
        let k1 = choose|k: int| 0 <= k < s1.len() && s1[k] == s2[0];
        if k2 > 0 {
            assert(pos_lt(s2[0], s2[k2]));
            if k1 > 0 {
                assert(pos_lt(s1[0], s1[k1]));
                assert(false);
            }
            assert(false);
        }
        assert(s1[0] == s2[0]);
        let t1 = s1.drop_first();
        let t2 = s2.drop_first();
        assert forall|q: Vec2| t1.contains(q) implies t2.contains(q) by {
            let k = choose|k: int| 0 <= k < t1.len() && t1[k] == q;
            assert(s1[k + 1] == q);
            assert(s1.contains(q));
            assert(s2.contains(q));
            let m = choose|m: int| 0 <= m < s2.len() && s2[m] == q;
            assert(pos_lt(s1[0], s1[k + 1]));
            if m == 0 {
                assert(false);
            }
            assert(t2[m - 1] == q);
        }
        assert forall|q: Vec2| t2.contains(q) implies t1.contains(q) by {
            let k = choose|k: int| 0 <= k < t2.len() && t2[k] == q;
            assert(s2[k + 1] == q);
            assert(s2.contains(q));
            assert(s1.contains(q));
            let m = choose|m: int| 0 <= m < s1.len() && s1[m] == q;
            assert(pos_lt(s2[0], s2[k + 1]));
            if m == 0 {
                assert(false);
            }
            assert(t1[m - 1] == q);
        }
        assert(holes_sorted(t1)) by {
            assert forall|a: int, b: int| 0 <= a < b < t1.len() implies pos_lt(
                #[trigger] t1[a],
                #[trigger] t1[b],
            ) by {
                assert(t1[a] == s1[a + 1] && t1[b] == s1[b + 1]);
            }
        }
        assert(holes_sorted(t2)) by {
            assert forall|a: int, b: int| 0 <= a < b < t2.len() implies pos_lt(
                #[trigger] t2[a],
                #[trigger] t2[b],
            ) by {
                assert(t2[a] == s2[a + 1] && t2[b] == s2[b + 1]);
            }
        }
        lemma_sorted_unique(t1, t2);
        assert(s1.len() == s2.len());
        assert forall|i: int| 0 <= i < s1.len() implies s1[i] == s2[i] by {
            if i > 0 {
                assert(s1[i] == t1[i - 1]);
                assert(s2[i] == t2[i - 1]);
            }
        }
        assert(s1 =~= s2);
    }
}

pub(crate) proof fn lemma_divmod(k: int, s: int, b: int)
    requires
        0 <= k < s * b,
        1 <= s,
        1 <= b,
    ensures
        0 <= k % s < s,
        0 <= k / s < b,
        k == (k / s) * s + (k % s),
{
    assert(0 <= k % s < s && 0 <= k / s < b && k == (k / s) * s + (k % s)) by (nonlinear_arith)
        requires
            0 <= k < s * b,
            1 <= s,
            1 <= b,
    {}
}

/// The canonical cell list of a block is sorted in row-major order and
/// lists exactly the cells the block covers.
proof fn lemma_block_cells(b: Block)
    requires
        size_ok(b.size),
        0 <= b.pos.x,
        0 <= b.pos.y,
        b.pos.x + b.size.x <= 127,
        b.pos.y + b.size.y <= 127,
    ensures
        holes_sorted(block_cells(b)),
        forall|q: Vec2|
            #[trigger] block_cells(b).contains(q) <==> covers(b, q.x as int, q.y as int),
{
    let sx = b.size.x as int;
    let sy = b.size.y as int;
    let cs = block_cells(b);
    assert forall|a: int, c: int| 0 <= a < c < cs.len() implies pos_lt(
        #[trigger] cs[a],
        #[trigger] cs[c],
    ) by {
        lemma_divmod(a, sx, sy);
        lemma_divmod(c, sx, sy);
        lemma_rowmajor_lt(sx, a % sx, a / sx, c % sx, c / sx);
    }
    assert forall|q: Vec2| #[trigger] cs.contains(q) implies covers(b, q.x as int, q.y as int) by {
        let k = choose|k: int| 0 <= k < cs.len() && cs[k] == q;
        lemma_divmod(k, sx, sy);
    }
    assert forall|q: Vec2| covers(b, q.x as int, q.y as int) implies #[trigger] cs.contains(q) by {
        let dx = q.x as int - b.pos.x;
        let dy = q.y as int - b.pos.y;
        lemma_scan_index(sx, dy, dx);
        assert(dy * sx + dx < sy * sx) by (nonlinear_arith)
            requires
                0 <= dx < sx,
                0 <= dy < sy,
        {}
        assert(sy * sx == sx * sy) by (nonlinear_arith) {}
        assert(cs[dy * sx + dx] == q);
    }
}

/// Blocks are determined by the grid: two block lists that are both
/// consistent with the same grid are equal.
pub proof fn lemma_blocks_unique(bs1: Seq<Block>, bs2: Seq<Block>, g: GridView<i8>)
    requires
        g.wf(),
        blocks_wf(bs1, g),
        grid_matches(bs1, g),
        blocks_wf(bs2, g),
        grid_matches(bs2, g),
    ensures
        bs1 == bs2,
{
    assert forall|bs_a: Seq<Block>, bs_b: Seq<Block>|
        (blocks_wf(bs_a, g) && grid_matches(bs_a, g) && blocks_wf(bs_b, g) && grid_matches(
            bs_b,
            g,
        )) implies bs_a.len() <= bs_b.len() by {
        if bs_a.len() > 0 {
            let i = bs_a.len() - 1;
            let a = bs_a[i];
            assert(covers(a, a.pos.x as int, a.pos.y as int));
            assert(g.in_range(a.pos.x as int, a.pos.y as int));
            assert(g.at(a.pos.x as int, a.pos.y as int) == i + 1);
            assert(1 <= g.at(a.pos.x as int, a.pos.y as int) <= bs_b.len());
        }
    }
    assert(bs1.len() == bs2.len());
    assert forall|i: int| 0 <= i < bs1.len() implies bs1[i] == bs2[i] by {
        let a = bs1[i];
        let c = bs2[i];
        assert forall|x: int, y: int| #[trigger] covers(a, x, y) implies covers(c, x, y) by {
            assert(g.in_range(x, y));
            assert(g.at(x, y) == i + 1);
            assert(covers(bs2[g.at(x, y) - 1], x, y));
        }
        assert forall|x: int, y: int| #[trigger] covers(c, x, y) implies covers(a, x, y) by {
            assert(g.in_range(x, y));
            assert(g.at(x, y) == i + 1);
            assert(covers(bs1[g.at(x, y) - 1], x, y));
        }
        assert(covers(a, a.pos.x as int, a.pos.y as int));
        assert(covers(c, c.pos.x as int, c.pos.y as int));
        assert(covers(c, a.pos.x as int, a.pos.y as int));
        assert(covers(a, c.pos.x as int, c.pos.y as int));
        assert(a.pos == c.pos);
        assert(covers(a, a.pos.x + a.size.x - 1, a.pos.y + a.size.y - 1));
        assert(covers(c, c.pos.x + c.size.x - 1, c.pos.y + c.size.y - 1));
        assert(covers(c, a.pos.x + a.size.x - 1, a.pos.y + a.size.y - 1));
        assert(covers(a, c.pos.x + c.size.x - 1, c.pos.y + c.size.y - 1));
        assert(a.size == c.size);
        assert(a.id == i + 1 && c.id == i + 1);
    }
    assert(bs1 =~= bs2);
}

/// A state that is consistent with the grid, whose goal packing
/// succeeds; exactly the grids on which board construction succeeds.
pub open spec fn state_matches(g: GridView<i8>, st: StateView) -> bool {
    &&& g.wf()
    &&& 0 < g.w
    &&& 0 < g.h
    &&& blocks_wf(st.blocks, g)
    &&& grid_matches(st.blocks, g)
    &&& holes_wf(st.holes, g)
}

/// Whether the grid decodes into blocks at all: some consistent state
/// exists.
pub open spec fn decodable(g: GridView<i8>) -> bool {
    exists|st: StateView| #[trigger] state_matches(g, st)
}

/// Whether a board can be built from the grid: some consistent state
/// exists and its canonical goal packing succeeds.
pub open spec fn buildable(g: GridView<i8>) -> bool {
    exists|st: StateView| #[trigger] state_matches(g, st) && spec_goal(st.blocks, g.w, g.h) is Ok
}

/// Collect, in row-major order, the positions of every cell holding
/// `id`.
fn collect_positions(grid: &Matrix2D<i8>, id: i8) -> (ps: Vec<Vec2>)
    requires
        grid@.wf(),
    ensures
        holes_sorted(ps@),
        forall|t: int|
            0 <= t < ps@.len() ==> grid@.in_range((#[trigger] ps@[t]).x as int, ps@[t].y as int)
                && grid@.at(ps@[t].x as int, ps@[t].y as int) == id,
        forall|x: int, y: int|
            grid@.in_range(x, y) && #[trigger] grid@.at(x, y) == id ==> hole_at(ps@, x, y),
{
    let size = grid.size();
    let ghost w = grid@.w;
    let mut ps: Vec<Vec2> = Vec::new();
    let mut i: i8 = 0;
    while i < size.y
        invariant
            grid@.wf(),
            size.x == grid@.w,
            size.y == grid@.h,
            w == grid@.w,
            0 <= i <= size.y,
            holes_sorted(ps@),
            forall|t: int|
                0 <= t < ps@.len() ==> grid@.in_range(
                    (#[trigger] ps@[t]).x as int,
                    ps@[t].y as int,
                ) && grid@.at(ps@[t].x as int, ps@[t].y as int) == id && (ps@[t].y as int) * w + (
                ps@[t].x as int) < i * w,
            forall|x: int, y: int|
                grid@.in_range(x, y) && y < i && #[trigger] grid@.at(x, y) == id ==> hole_at(
                    ps@,
                    x,
                    y,
                ),
        decreases size.y - i,
    {
        let mut j: i8 = 0;
        while j < size.x
            invariant
                grid@.wf(),
                size.x == grid@.w,
                size.y == grid@.h,
                w == grid@.w,
                0 <= i < size.y,
                0 <= j <= size.x,
                holes_sorted(ps@),
                forall|t: int|
                    0 <= t < ps@.len() ==> grid@.in_range(
                        (#[trigger] ps@[t]).x as int,
                        ps@[t].y as int,
                    ) && grid@.at(ps@[t].x as int, ps@[t].y as int) == id && (ps@[t].y as int) * w
                        + (ps@[t].x as int) < i * w + j,
                forall|x: int, y: int|
                    grid@.in_range(x, y) && (y < i || (y == i && x < j)) && #[trigger] grid@.at(
                        x,
                        y,
                    ) == id ==> hole_at(ps@, x, y),
            decreases size.x - j,
        {
            let pos = Vec2 { x: j, y: i };
            proof {
                lemma_scan_index(w, i as int, j as int);
            }
            let matches_id = match grid.get(pos) {
                Some(v) => *v == id,
                None => false,
            };
            if matches_id {
                proof {
                    if ps@.len() > 0 {
                        lemma_rowmajor_lt(
                            w,
                            ps@[ps@.len() - 1].x as int,
                            ps@[ps@.len() - 1].y as int,
                            j as int,
                            i as int,
                        );
                    }
                    assert forall|a: int, c: int| 0 <= a < c < ps@.push(pos).len() implies pos_lt(
                        #[trigger] ps@.push(pos)[a],
                        #[trigger] ps@.push(pos)[c],
                    ) by {
                        if c < ps@.len() {
                        } else {
                            if a < ps@.len() - 1 {
                                assert(pos_lt(ps@[a], ps@[ps@.len() - 1]));
                            }
                        }
                    }
                }
                let ghost pre = ps@;
                ps.push(pos);
                proof {
                    assert forall|x: int, y: int|
                        grid@.in_range(x, y) && (y < i || (y == i && x < j + 1))
                            && #[trigger] grid@.at(x, y) == id implies hole_at(ps@, x, y) by {
                        if y < i as int || (y == i as int && x < j as int) {
                            assert(hole_at(pre, x, y));
                            let t = choose|t: int|
                                0 <= t < pre.len() && (#[trigger] pre[t]).x == x && pre[t].y == y;
                            assert(ps@[t] == pre[t]);
                            assert(hole_at(ps@, x, y));
                        } else {
                            assert(ps@[ps@.len() - 1] == pos);
                            assert(hole_at(ps@, x, y));
                        }
                    }
                }
            } else {
                proof {
                    assert forall|x: int, y: int|
                        grid@.in_range(x, y) && (y < i || (y == i && x < j + 1))
                            && #[trigger] grid@.at(x, y) == id implies hole_at(ps@, x, y) by {}
                }
            }
            j = j + 1;
        }
        proof {
            assert(i as int * w + w == (i as int + 1) * w) by (nonlinear_arith) {}
        }
        i = i + 1;
    }
    proof {
        assert forall|x: int, y: int|
            grid@.in_range(x, y) && #[trigger] grid@.at(x, y) == id implies hole_at(ps@, x, y) by {}
    }
    ps
}

/// Whether `seen` already holds the value `v`.
fn seen_contains(seen: &Vec<i8>, v: i8) -> (r: bool)
    ensures
        r == seen@.contains(v),
{
    let mut t: usize = 0;
    while t < seen.len()
        invariant
            t <= seen@.len(),
            forall|u: int| 0 <= u < t ==> seen@[u] != v,
        decreases seen@.len() - t,
    {
        if seen[t] == v {
            return true;
        }
        t = t + 1;
    }
    false
}


/// The value `v` occurs somewhere in the grid.
spec fn occurs(g: GridView<i8>, v: i8) -> bool {
    exists|x: int, y: int| g.in_range(x, y) && #[trigger] g.at(x, y) == v
}

/// Every recorded value is a non-zero value that occurs in the grid.
spec fn seen_ok(seen: Seq<i8>, g: GridView<i8>) -> bool {
    forall|t: int| 0 <= t < seen.len() ==> (#[trigger] seen[t]) != 0 && occurs(g, seen[t])
}

proof fn lemma_seen_bound(seen: Seq<i8>, g: GridView<i8>, st: StateView)
    requires
        state_matches(g, st),
        seen.no_duplicates(),
        seen_ok(seen, g),
    ensures
        seen.len() <= st.blocks.len(),
{
    let n = st.blocks.len() as int;
    let t_int = Seq::new(seen.len(), |t: int| seen[t] as int);
    assert(t_int.no_duplicates()) by {
        assert forall|a: int, b: int|
            0 <= a < t_int.len() && 0 <= b < t_int.len() && a != b implies t_int[a]
            != t_int[b] by {
            assert(seen[a] != seen[b]);
        }
    }
    assert forall|t: int| 0 <= t < t_int.len() implies 1 <= #[trigger] t_int[t] < n + 1 by {
        assert(occurs(g, seen[t]));
        let (x, y) = choose|x: int, y: int| g.in_range(x, y) && #[trigger] g.at(x, y) == seen[t];
        assert(g.at(x, y) != 0);
        assert(1 <= g.at(x, y) <= st.blocks.len());
    }
    crate::count::lemma_nodup_bounded_len(t_int, 1, n + 1);
}

proof fn lemma_grid_block_rect(g: GridView<i8>, st: StateView, id: i8, ps: Seq<Vec2>)
    requires
        state_matches(g, st),
        g.w <= 127,
        g.h <= 127,
        1 <= id <= st.blocks.len(),
        holes_sorted(ps),
        forall|t: int|
            0 <= t < ps.len() ==> g.in_range((#[trigger] ps[t]).x as int, ps[t].y as int) && g.at(
                ps[t].x as int,
                ps[t].y as int,
            ) == id,
        forall|x: int, y: int|
            g.in_range(x, y) && #[trigger] g.at(x, y) == id ==> hole_at(ps, x, y),
    ensures
        ps == block_cells(st.blocks[id - 1]),
        rect_positions(ps),
{
    let b = st.blocks[id - 1];
    assert(b.id == id);
    assert(crate::board::block_in_grid(b, g));
    lemma_block_cells(b);
    // the listed cells are exactly the block's cells
    assert forall|q: Vec2| ps.contains(q) implies #[trigger] block_cells(b).contains(q) by {
        let t = choose|t: int| 0 <= t < ps.len() && ps[t] == q;
        assert(g.at(q.x as int, q.y as int) == id);
        assert(covers(st.blocks[g.at(q.x as int, q.y as int) - 1], q.x as int, q.y as int));
    }
    assert forall|q: Vec2| #[trigger] block_cells(b).contains(q) implies ps.contains(q) by {
        assert(covers(b, q.x as int, q.y as int));
        assert(g.in_range(q.x as int, q.y as int));
        assert(g.at(q.x as int, q.y as int) == id);
        assert(hole_at(ps, q.x as int, q.y as int));
        let t = choose|t: int|
            0 <= t < ps.len() && (#[trigger] ps[t]).x == q.x as int && ps[t].y == q.y as int;
        assert(ps[t] == q);
    }
    assert forall|q: Vec2| ps.contains(q) <==> block_cells(b).contains(q) by {}
    lemma_sorted_unique(ps, block_cells(b));
    // a canonical cell list always matches one of the four patterns
    let sx = b.size.x as int;
    let sy = b.size.y as int;
    let cs = block_cells(b);
    if sx == 1 && sy == 1 {
        assert(sx * sy == 1) by (nonlinear_arith)
            requires
                sx == 1,
                sy == 1,
        {}
        assert(cs.len() == 1);
    } else if sx == 2 && sy == 1 {
        assert(sx * sy == 2) by (nonlinear_arith)
            requires
                sx == 2,
                sy == 1,
        {}
        assert(cs.len() == 2);
        assert(cs[1].x == b.pos.x + 1 && cs[1].y == b.pos.y);
        assert(cs[0].x == b.pos.x && cs[0].y == b.pos.y);
    } else if sx == 1 && sy == 2 {
        assert(sx * sy == 2) by (nonlinear_arith)
            requires
                sx == 1,
                sy == 2,
        {}
        assert(cs.len() == 2);
        assert(cs[0].x == b.pos.x && cs[0].y == b.pos.y);
        assert(cs[1].x == b.pos.x && cs[1].y == b.pos.y + 1);
    } else {
        assert(sx == 2 && sy == 2);
        assert(sx * sy == 4) by (nonlinear_arith)
            requires
                sx == 2,
                sy == 2,
        {}
        assert(cs.len() == 4);
        assert(cs[0].x == b.pos.x && cs[0].y == b.pos.y);
        assert(cs[1].x == b.pos.x + 1 && cs[1].y == b.pos.y);
        assert(cs[2].x == b.pos.x && cs[2].y == b.pos.y + 1);
        assert(cs[3].x == b.pos.x + 1 && cs[3].y == b.pos.y + 1);
    }
    assert(rect_positions(cs));
}

impl Board {
    /// Build a board from a validated occupancy grid: partition the
    /// cells into holes and per-id blocks, check the block shapes and
    /// the dense id space, and compute the canonical goal state and
    /// the initial move candidates.
    pub fn from_grid(grid: Matrix2D<i8>) -> (r: Result<Board, BoardError>)
        requires
            grid@.wf(),
        ensures
            r is Ok <==> buildable(grid@),
            match r {
                Ok(b) => {
                    &&& b.wf()
                    &&& b@.grid == grid@
                    &&& spec_goal(b@.state.blocks, grid@.w, grid@.h) == Ok::<
                        StateView,
                        BoardError,
                    >(b@.goal)
                },
                Err(e) => {
                    &&& (e == BoardError::BadDimensions <==> !(0 < grid@.w && 0 < grid@.h))
                    &&& ((e == BoardError::MalformedBlock || e == BoardError::MissingBlock)
                        ==> !decodable(grid@))
                    &&& (e == BoardError::UnfittableLayout ==> decodable(grid@) && !buildable(
                        grid@,
                    ))
                    &&& (e == BoardError::BadDimensions || e == BoardError::MalformedBlock || e
                        == BoardError::MissingBlock || e == BoardError::UnfittableLayout)
                },
            },
    {
        let size = grid.size();
        let ghost g = grid@;
        if size.x <= 0 || size.y <= 0 {
            proof {
                if buildable(g) {
                    let st = choose|st: StateView|
                        #[trigger] state_matches(g, st) && spec_goal(st.blocks, g.w, g.h) is Ok;
                    assert(false);
                }
            }
            return Err(BoardError::BadDimensions);
        }

        // Collect the distinct non-empty cell values.
        let mut seen: Vec<i8> = Vec::new();
        let mut i: i8 = 0;
        while i < size.y
            invariant
                g == grid@,
                g.wf(),
                size.x == g.w,
                size.y == g.h,
                0 < g.w,
                0 < g.h,
                0 <= i <= size.y,
                seen@.no_duplicates(),
                seen_ok(seen@, g),
                forall|x: int, y: int|
                    g.in_range(x, y) && y < i && #[trigger] g.at(x, y) != 0 ==> seen@.contains(
                        g.at(x, y),
                    ),
            decreases size.y - i,
        {
            let mut j: i8 = 0;
            while j < size.x
                invariant
                    g == grid@,
                    g.wf(),
                    size.x == g.w,
                    size.y == g.h,
                    0 < g.w,
                    0 < g.h,
                    0 <= i < size.y,
                    0 <= j <= size.x,
                    seen@.no_duplicates(),
                    seen_ok(seen@, g),
                    forall|x: int, y: int|
                        g.in_range(x, y) && (y < i || (y == i && x < j)) && #[trigger] g.at(x, y)
                            != 0 ==> seen@.contains(g.at(x, y)),
                decreases size.x - j,
            {
                let pos = Vec2 { x: j, y: i };
                let v = match grid.get(pos) {
                    Some(c) => *c,
                    None => 0,
                };
                if v != 0 && !seen_contains(&seen, v) {
                    let ghost pre = seen@;
                    seen.push(v);
                    proof {
                        assert(seen@[seen@.len() - 1] == v);
                        assert(g.at(j as int, i as int) == v);
                        assert(occurs(g, v));
                        assert forall|t: int| 0 <= t < seen@.len() implies (#[trigger] seen@[t])
                            != 0 && occurs(g, seen@[t]) by {
                            if t < pre.len() {
                                assert(seen@[t] == pre[t]);
                            }
                        }
                        assert forall|x: int, y: int|
                            g.in_range(x, y) && (y < i || (y == i && x < j + 1)) && #[trigger] g.at(
                                x,
                                y,
                            ) != 0 implies seen@.contains(g.at(x, y)) by {
                            if y < i as int || (y == i as int && x < j as int) {
                                assert(pre.contains(g.at(x, y)));
                                let t = choose|t: int| 0 <= t < pre.len() && pre[t] == g.at(x, y);
                                assert(seen@[t] == g.at(x, y));
                            } else {
                                assert(seen@[seen@.len() - 1] == g.at(x, y));
                            }
                        }
                    }
                } else {
                    proof {
                        assert forall|x: int, y: int|
                            g.in_range(x, y) && (y < i || (y == i && x < j + 1)) && #[trigger] g.at(
                                x,
                                y,
                            ) != 0 implies seen@.contains(g.at(x, y)) by {}
                    }
                }
                j = j + 1;
            }
            i = i + 1;
        }

        if seen.len() > 127 {
            proof {
                if decodable(g) {
                    let st = choose|st: StateView| #[trigger] state_matches(g, st);
                    lemma_seen_bound(seen@, g, st);
                    assert(false);
                }
                assert(!buildable(g));
            }
            return Err(BoardError::MissingBlock);
        }
        let n: i8 = seen.len() as i8;

        // Gather each id's cells and turn them into blocks.
        let mut blocks: Vec<Block> = Vec::new();
        let mut id_u: usize = 1;
        while id_u <= n as usize
            invariant
                g == grid@,
                g.wf(),
                size.x == g.w,
                size.y == g.h,
                0 < g.w,
                0 < g.h,
                1 <= id_u,
                id_u <= n as int + 1,
                0 <= n,
                n == seen@.len(),
                n <= 127,
                seen@.no_duplicates(),
                seen_ok(seen@, g),
                forall|x: int, y: int|
                    g.in_range(x, y) && #[trigger] g.at(x, y) != 0 ==> seen@.contains(g.at(x, y)),
                blocks@.len() == id_u - 1,
                forall|t: int|
                    0 <= t < blocks@.len() ==> (#[trigger] blocks@[t]).id == t + 1 && size_ok(
                        blocks@[t].size,
                    ) && crate::board::block_in_grid(blocks@[t], g),
                forall|t: int, x: int, y: int|
                    0 <= t < blocks@.len() && g.in_range(x, y) ==> (#[trigger] g.at(x, y) == t + 1
                        <==> covers(#[trigger] blocks@[t], x, y)),
            decreases n as int + 1 - id_u,
        {
            let id: i8 = id_u as i8;
            let ps = collect_positions(&grid, id);
            if ps.len() == 0 {
                proof {
                    if decodable(g) {
                        let st = choose|st: StateView| #[trigger] state_matches(g, st);
                        lemma_seen_bound(seen@, g, st);
                        assert(id <= st.blocks.len());
                        let bid = st.blocks[id - 1];
                        assert(covers(bid, bid.pos.x as int, bid.pos.y as int));
                        assert(g.in_range(bid.pos.x as int, bid.pos.y as int));
                        assert(g.at(bid.pos.x as int, bid.pos.y as int) == id);
                        assert(hole_at(ps@, bid.pos.x as int, bid.pos.y as int));
                        assert(false);
                    }
                    assert(!buildable(g));
                }
                return Err(BoardError::MissingBlock);
            }
            match Block::from_positions(id, &ps) {
                Ok(b) => {
                    proof {
                        let sx = b.size.x as int;
                        let sy = b.size.y as int;
                        // the listed cells enumerate b's rectangle
                        assert forall|x: int, y: int|
                            g.in_range(x, y) implies (#[trigger] g.at(x, y) == id <==> covers(
                            b,
                            x,
                            y,
                        )) by {
                            if g.at(x, y) == id {
                                assert(hole_at(ps@, x, y));
                                let t = choose|t: int|
                                    0 <= t < ps@.len() && (#[trigger] ps@[t]).x == x && ps@[t].y
                                        == y;
                                lemma_divmod(t, sx, sy);
                                assert(covers(b, x, y));
                            }
                            if covers(b, x, y) {
                                let dx = x - b.pos.x;
                                let dy = y - b.pos.y;
                                lemma_scan_index(sx, dy, dx);
                                assert(dy * sx + dx < sy * sx) by (nonlinear_arith)
                                    requires
                                        0 <= dx < sx,
                                        0 <= dy < sy,
                                {}
                                assert(sy * sx == sx * sy) by (nonlinear_arith) {}
                                assert(ps@[dy * sx + dx].x == x && ps@[dy * sx + dx].y == y);
                                assert(g.at(x, y) == id);
                            }
                        }
                        // and stays inside the grid
                        assert(b.pos == ps@[0]);
                        assert(g.in_range(b.pos.x as int, b.pos.y as int));
                        lemma_scan_index(sx, sy - 1, sx - 1);
                        assert((sy - 1) * sx + (sx - 1) == sx * sy - 1) by (nonlinear_arith) {}
                        assert(ps@[sx * sy - 1].x == b.pos.x + sx - 1 && ps@[sx * sy - 1].y
                            == b.pos.y + sy - 1);
                        assert(g.in_range(b.pos.x + sx - 1, b.pos.y + sy - 1));
                        assert(crate::board::block_in_grid(b, g));
                    }
                    blocks.push(b);
                },
                Err(e) => {
                    proof {
                        if decodable(g) {
                            let st = choose|st: StateView| #[trigger] state_matches(g, st);
                            lemma_seen_bound(seen@, g, st);
                            assert(id <= st.blocks.len());
                            lemma_grid_block_rect(g, st, id, ps@);
                            assert(false);
                        }
                        assert(!buildable(g));
                    }
                    return Err(e);
                },
            }
            id_u = id_u + 1;
        }

        proof {
            // the ids are exactly `1..=n`, so the grid and the blocks
            // are consistent
            let seen_int = Seq::new(seen@.len(), |t: int| seen@[t] as int);
            assert(seen_int.no_duplicates()) by {
                assert forall|a: int, b: int|
                    0 <= a < seen_int.len() && 0 <= b < seen_int.len() && a
                        != b implies seen_int[a] != seen_int[b] by {
                    assert(seen@[a] != seen@[b]);
                }
            }
            assert forall|v: int| 1 <= v <= n implies seen_int.contains(v) by {
                let b = blocks@[v - 1];
                assert(covers(b, b.pos.x as int, b.pos.y as int));
                assert(g.at(b.pos.x as int, b.pos.y as int) == v);
                assert(seen@.contains(g.at(b.pos.x as int, b.pos.y as int)));
                let t = choose|t: int|
                    0 <= t < seen@.len() && seen@[t] == g.at(b.pos.x as int, b.pos.y as int);
                assert(seen_int[t] == v);
            }
            crate::count::lemma_nodup_range_complete(seen_int, n as int);
            assert forall|x: int, y: int|
                g.in_range(x, y) && #[trigger] g.at(x, y) != 0 implies 1 <= g.at(x, y) <= n
                && covers(blocks@[g.at(x, y) - 1], x, y) by {
                assert(seen@.contains(g.at(x, y)));
                let t = choose|t: int| 0 <= t < seen@.len() && seen@[t] == g.at(x, y);
                assert(seen_int[t] == g.at(x, y));
                assert(1 <= g.at(x, y) <= n);
            }
            assert(grid_matches(blocks@, g));
            assert(blocks_wf(blocks@, g));
        }

        let holes = collect_positions(&grid, 0);
        proof {
            assert(holes_wf(holes@, g)) by {
                assert forall|x: int, y: int|
                    g.in_range(x, y) && #[trigger] g.at(x, y) == 0 implies hole_at(
                    holes@,
                    x,
                    y,
                ) by {}
            }
        }

        let final_state = match Self::generate_final_state(size, &blocks) {
            Ok(fs) => fs,
            Err(e) => {
                proof {
                    if buildable(g) {
                        let st = choose|st: StateView|
                            #[trigger] state_matches(g, st) && spec_goal(st.blocks, g.w, g.h) is Ok;
                        lemma_blocks_unique(st.blocks, blocks@, g);
                        assert(false);
                    }
                    let witness = StateView { holes: holes@, blocks: blocks@ };
                    assert(state_matches(g, witness));
                    assert(decodable(g));
                }
                return Err(e);
            },
        };
        let pm = Self::generate_possible_moves(&holes, &grid);
        let board = Board {
            grid,
            state: BoardState { holes, blocks },
            final_state,
            _possible_moves: pm,
        };
        proof {
            assert(board_wf(board@)) by {
                assert(crate::board::goal_wf(board@.goal, board@.state.blocks, board@.grid));
            }
            assert(state_matches(g, board@.state));
            assert(buildable(g));
        }
        Ok(board)
    }
}

} // verus!
