use vstd::prelude::*;

use crate::board::{
    board_wf, covered_by, covers, holes_sorted, st_eq, Block, Board, BoardState, BoardView, Move,
    StateView,
};
use crate::construct::lemma_sorted_unique;
use crate::count::lemma_nodup_bounded_len;
use crate::laws::{lemma_moves_sorted_unique, lemma_move_undo, lemma_undo_enabled};
use crate::heuristic::spec_heuristic;
use crate::moves::{
    lemma_check_cells_ok, lemma_reaches_step, moved_view, reaches, spec_can_move, spec_validate,
};
use crate::vec2::Vec2;
use vstd::arithmetic::power::{lemma_pow_positive, pow};

verus! {

// ---------------------------------------------------------------------
// The finite state space, for termination of the cost-bounded search.
// ---------------------------------------------------------------------

/// A state the search can visit on boards of the family of `v`: dense
/// ids, the goal's block sizes, anchors inside the grid, and the
/// canonical hole list determined by the blocks.
pub open spec fn search_state(st: StateView, v: BoardView) -> bool {
    &&& st.blocks.len() == v.goal.blocks.len()
    &&& forall|i: int|
        0 <= i < st.blocks.len() ==> (#[trigger] st.blocks[i]).id == i + 1 && st.blocks[i].size
            == v.goal.blocks[i].size && 0 <= st.blocks[i].pos.x < v.grid.w && 0
            <= st.blocks[i].pos.y < v.grid.h
    &&& holes_sorted(st.holes)
    &&& forall|q: Vec2|
        #[trigger] st.holes.contains(q) <==> (0 <= q.x < v.grid.w && 0 <= q.y < v.grid.h
            && !covered_by(st.blocks, q.x as int, q.y as int))
}

/// The move list `ms` is a legal move sequence that leads the board
/// value `v` to a goal state.
pub open spec fn solves(v: BoardView, ms: Seq<Move>) -> bool {
    exists|wv: BoardView| reaches(v, ms, wv) && st_eq(wv.state, wv.goal)
}

/// No state of `banned` equals `st`.
pub open spec fn avoids(st: StateView, banned: Seq<StateView>) -> bool {
    forall|i: int| 0 <= i < banned.len() ==> !st_eq(st, #[trigger] banned[i])
}

/// The moves of `ms`, applied in order from `v`, are all legal, end at
/// `w`, and no state reached after a move is one of `banned`.
pub open spec fn clear_reaches(
    v: BoardView,
    ms: Seq<Move>,
    banned: Seq<StateView>,
    w: BoardView,
) -> bool
    decreases ms.len(),
{
    if ms.len() == 0 {
        w == v
    } else {
        exists|u: BoardView|
            #[trigger] moved_view(v, u, ms[0].0, ms[0].1) && avoids(u.state, banned)
                && clear_reaches(u, ms.drop_first(), banned, w)
    }
}

/// A legal move sequence from `v` to a goal state whose intermediate
/// states all avoid `banned`.
pub open spec fn clear_solves(v: BoardView, ms: Seq<Move>, banned: Seq<StateView>) -> bool {
    exists|w: BoardView| clear_reaches(v, ms, banned, w) && st_eq(w.state, w.goal)
}

/// Every board on a clear chain stays in the same family: well
/// formed, same goal, same dimensions.
proof fn lemma_chain_family(v: BoardView, ms: Seq<Move>, banned: Seq<StateView>, w: BoardView)
    requires
        board_wf(v),
        clear_reaches(v, ms, banned, w),
    ensures
        board_wf(w),
        w.goal == v.goal,
        w.grid.w == v.grid.w,
        w.grid.h == v.grid.h,
    decreases ms.len(),
{
    if ms.len() > 0 {
        let u = choose|u: BoardView|
            #[trigger] moved_view(v, u, ms[0].0, ms[0].1) && avoids(u.state, banned)
                && clear_reaches(u, ms.drop_first(), banned, w);
        lemma_chain_family(u, ms.drop_first(), banned, w);
    }
}

/// A plain move chain is a clear chain with nothing banned.
proof fn lemma_reaches_to_clear(v: BoardView, ms: Seq<Move>, w: BoardView)
    requires
        reaches(v, ms, w),
    ensures
        clear_reaches(v, ms, Seq::<StateView>::empty(), w),
    decreases ms.len(),
{
    if ms.len() > 0 {
        let u = choose|u: BoardView|
            #[trigger] moved_view(v, u, ms[0].0, ms[0].1) && reaches(u, ms.drop_first(), w);
        lemma_reaches_to_clear(u, ms.drop_first(), w);
        assert(avoids(u.state, Seq::<StateView>::empty()));
    }
}

/// A clear chain is in particular a plain move chain.
proof fn lemma_clear_to_reaches(v: BoardView, ms: Seq<Move>, banned: Seq<StateView>, w: BoardView)
    requires
        clear_reaches(v, ms, banned, w),
    ensures
        reaches(v, ms, w),
    decreases ms.len(),
{
    if ms.len() > 0 {
        let u = choose|u: BoardView|
            #[trigger] moved_view(v, u, ms[0].0, ms[0].1) && avoids(u.state, banned)
                && clear_reaches(u, ms.drop_first(), banned, w);
        lemma_clear_to_reaches(u, ms.drop_first(), banned, w);
    }
}

/// Within one family, the puzzle state determines the whole board
/// value: the grid is the blocks' coverage, and the move cache is
/// canonical.
proof fn lemma_state_determines_view(a: BoardView, b: BoardView)
    requires
        board_wf(a),
        board_wf(b),
        a.goal == b.goal,
        a.grid.w == b.grid.w,
        a.grid.h == b.grid.h,
        st_eq(a.state, b.state),
    ensures
        a == b,
{
    assert forall|x: int, y: int| a.grid.in_range(x, y) implies #[trigger] a.grid.at(x, y)
        == b.grid.at(x, y) by {
        if a.grid.at(x, y) != 0 {
            let k = a.grid.at(x, y);
            assert(covers(a.state.blocks[k - 1], x, y));
            assert(b.grid.at(x, y) == k);
        } else {
            if b.grid.at(x, y) != 0 {
                let k = b.grid.at(x, y);
                assert(covers(b.state.blocks[k - 1], x, y));
                assert(a.grid.at(x, y) == k);
                assert(false);
            }
        }
    }
    assert(a.grid =~~= b.grid) by {
        assert(a.grid.cells.len() == b.grid.cells.len());
        assert forall|idx: int| 0 <= idx < a.grid.cells.len() implies a.grid.cells[idx]
            == b.grid.cells[idx] by {
            let wdt = a.grid.w;
            let cx = idx % wdt;
            let cy = idx / wdt;
            assert(idx < wdt * a.grid.h);
            crate::construct::lemma_divmod(idx, wdt, a.grid.h);
            assert(a.grid.in_range(cx, cy));
            assert(a.grid.at(cx, cy) == b.grid.at(cx, cy));
        }
        assert(a.grid.cells =~= b.grid.cells);
    }
    assert forall|q: Move| a.pmoves.contains(q) <==> b.pmoves.contains(q) by {
        assert(a.pmoves.contains(q) <==> crate::board::is_candidate(q, a.state.holes, a.grid));
        assert(b.pmoves.contains(q) <==> crate::board::is_candidate(q, b.state.holes, b.grid));
        assert(a.state.holes == b.state.holes);
        assert(a.grid == b.grid);
    }
    lemma_moves_sorted_unique(a.pmoves, b.pmoves);
    assert(a.state =~~= b.state);
}

/// A move has exactly one result: the moved board value is unique.
proof fn lemma_moved_view_unique(v: BoardView, a: BoardView, b: BoardView, id: i8, d: crate::board::Dir)
    requires
        board_wf(v),
        moved_view(v, a, id, d),
        moved_view(v, b, id, d),
    ensures
        a == b,
{
    assert forall|q: Vec2| a.state.holes.contains(q) <==> b.state.holes.contains(q) by {}
    crate::construct::lemma_sorted_unique(a.state.holes, b.state.holes);
    assert(st_eq(a.state, b.state));
    lemma_state_determines_view(a, b);
}

/// Every legal move is offered by the candidate cache: the block hugs
/// a hole on the side it moves toward, and that hole names the move.
proof fn lemma_legal_is_candidate(v: BoardView, id: i8, d: crate::board::Dir)
    requires
        board_wf(v),
        spec_can_move(v, id, d),
    ensures
        v.pmoves.contains((id, d)),
{
    let b = v.state.blocks[id - 1];
    let g = v.grid;
    let hs = v.state.holes;
    let dd = crate::board::dir_inverse(d);
    assert(crate::board::dir_inverse(dd) == d);
    // a leading-edge cell of the block, whose target is outside the
    // block's own rectangle
    let cx: int = if d is Right {
        b.pos.x + b.size.x - 1
    } else if d is Left {
        b.pos.x as int
    } else {
        b.pos.x as int
    };
    let cy: int = if d is Down {
        b.pos.y + b.size.y - 1
    } else if d is Up {
        b.pos.y as int
    } else {
        b.pos.y as int
    };
    assert(covers(b, cx, cy));
    let tx = cx + crate::board::dir_vec(d).x;
    let ty = cy + crate::board::dir_vec(d).y;
    assert(g.in_range(tx, ty));
    assert(!covers(b, tx, ty));
    assert(g.at(tx, ty) == 0 || g.at(tx, ty) == id);
    if g.at(tx, ty) == id {
        assert(covers(v.state.blocks[id - 1], tx, ty));
        assert(false);
    }
    assert(crate::board::hole_at(hs, tx, ty));
    let j = choose|j: int|
        0 <= j < hs.len() && (#[trigger] hs[j]).x == tx && hs[j].y == ty;
    assert(crate::board::cand_at(hs, g, j, dd, (id, d))) by {
        assert(hs[j].x + crate::board::dir_vec(dd).x == cx);
        assert(hs[j].y + crate::board::dir_vec(dd).y == cy);
        assert(g.at(cx, cy) == id);
    }
    assert(crate::board::is_candidate((id, d), hs, g));
}

/// From a clear chain out of `v`, build one no longer that also
/// avoids `x`'s state, or else a strictly shorter clear chain that
/// starts at `x` itself.
proof fn lemma_ban(x: BoardView, v: BoardView, ms: Seq<Move>, banned: Seq<StateView>, w: BoardView)
    requires
        board_wf(x),
        board_wf(v),
        x.goal == v.goal,
        x.grid.w == v.grid.w,
        x.grid.h == v.grid.h,
        clear_reaches(v, ms, banned, w),
    ensures
        (exists|ms2: Seq<Move>|
            ms2.len() <= ms.len() && clear_reaches(v, ms2, banned.push(x.state), w)) || (
        exists|ms3: Seq<Move>| ms3.len() < ms.len() && clear_reaches(x, ms3, banned, w)),
    decreases ms.len(),
{
    if ms.len() == 0 {
        assert(clear_reaches(v, Seq::<Move>::empty(), banned.push(x.state), w));
    } else {
        let u = choose|u: BoardView|
            #[trigger] moved_view(v, u, ms[0].0, ms[0].1) && avoids(u.state, banned)
                && clear_reaches(u, ms.drop_first(), banned, w);
        if st_eq(u.state, x.state) {
            lemma_state_determines_view(u, x);
            assert(clear_reaches(x, ms.drop_first(), banned, w));
        } else {
            lemma_ban(x, u, ms.drop_first(), banned, w);
            if exists|ms2: Seq<Move>|
                ms2.len() <= ms.drop_first().len() && clear_reaches(
                    u,
                    ms2,
                    banned.push(x.state),
                    w,
                ) {
                let ms2 = choose|ms2: Seq<Move>|
                    ms2.len() <= ms.drop_first().len() && clear_reaches(
                        u,
                        ms2,
                        banned.push(x.state),
                        w,
                    );
                assert(avoids(u.state, banned.push(x.state))) by {
                    assert forall|t: int|
                        0 <= t < banned.push(x.state).len() implies !st_eq(
                        u.state,
                        #[trigger] banned.push(x.state)[t],
                    ) by {
                        if t < banned.len() {
                            assert(banned.push(x.state)[t] == banned[t]);
                        } else {
                            assert(banned.push(x.state)[t] == x.state);
                        }
                    }
                }
                let full = seq![ms[0]] + ms2;
                assert(full[0] == ms[0]);
                assert(full.drop_first() =~= ms2);
                assert(clear_reaches(v, full, banned.push(x.state), w));
                assert(full.len() <= ms.len());
            } else {
                let ms3 = choose|ms3: Seq<Move>|
                    ms3.len() < ms.drop_first().len() && clear_reaches(x, ms3, banned, w);
                assert(ms3.len() < ms.len());
            }
        }
    }
}

/// From a clear goal chain out of `x`, build one no longer whose
/// intermediate states also avoid `x`'s own state.
proof fn lemma_avoid_goal(x: BoardView, ms: Seq<Move>, banned: Seq<StateView>, w: BoardView)
    requires
        board_wf(x),
        clear_reaches(x, ms, banned, w),
        st_eq(w.state, w.goal),
    ensures
        exists|ms2: Seq<Move>|
            ms2.len() <= ms.len() && clear_solves(x, ms2, banned.push(x.state)),
    decreases ms.len(),
{
    lemma_ban(x, x, ms, banned, w);
    if exists|ms2: Seq<Move>|
        ms2.len() <= ms.len() && clear_reaches(x, ms2, banned.push(x.state), w) {
        let ms2 = choose|ms2: Seq<Move>|
            ms2.len() <= ms.len() && clear_reaches(x, ms2, banned.push(x.state), w);
        assert(clear_solves(x, ms2, banned.push(x.state)));
    } else {
        let ms3 = choose|ms3: Seq<Move>| ms3.len() < ms.len() && clear_reaches(x, ms3, banned, w);
        lemma_avoid_goal(x, ms3, banned, w);
        let ms2 = choose|ms2: Seq<Move>|
            ms2.len() <= ms3.len() && clear_solves(x, ms2, banned.push(x.state));
        assert(ms2.len() <= ms.len());
    }
}

/// If no goal chain of length at most `limit` stays clear of the
/// start state, then no solution of that length exists at all: any
/// that revisited the start could be shortened past the revisit.
proof fn lemma_no_clear_no_solution(v: BoardView, limit: int)
    requires
        board_wf(v),
        forall|ms: Seq<Move>|
            ms.len() <= limit ==> !clear_solves(v, ms, Seq::<StateView>::empty().push(v.state)),
    ensures
        forall|ms: Seq<Move>| ms.len() <= limit ==> !solves(v, ms),
{
    assert forall|ms: Seq<Move>| ms.len() <= limit implies !solves(v, ms) by {
        if solves(v, ms) {
            let w = choose|w: BoardView| reaches(v, ms, w) && st_eq(w.state, w.goal);
            lemma_reaches_to_clear(v, ms, w);
            lemma_avoid_goal(v, ms, Seq::<StateView>::empty(), w);
            let ms2 = choose|ms2: Seq<Move>|
                ms2.len() <= ms.len() && clear_solves(
                    v,
                    ms2,
                    Seq::<StateView>::empty().push(v.state),
                );
            assert(!clear_solves(v, ms2, Seq::<StateView>::empty().push(v.state)));
            assert(false);
        }
    }
}

/// An upper bound on the number of distinct search states: each block
/// anchor is one of the `w * h` cells.
pub open spec fn state_cap(v: BoardView) -> int {
    pow(v.grid.w * v.grid.h, v.goal.blocks.len())
}

/// The anchor positions of `bs` from index `i` on, packed base
/// `m = w * h`.
spec fn enc_blocks(bs: Seq<Block>, w: int, m: int, i: int) -> int
    decreases bs.len() - i,
{
    if i < 0 || i >= bs.len() {
        0
    } else {
        (bs[i].pos.y * w + bs[i].pos.x) + m * enc_blocks(bs, w, m, i + 1)
    }
}

proof fn lemma_enc_range(bs: Seq<Block>, w: int, h: int, i: int)
    requires
        0 < w,
        0 < h,
        0 <= i <= bs.len(),
        forall|j: int|
            0 <= j < bs.len() ==> 0 <= (#[trigger] bs[j]).pos.x < w && 0 <= bs[j].pos.y < h,
    ensures
        0 <= enc_blocks(bs, w, w * h, i) < pow(w * h, (bs.len() - i) as nat),
    decreases bs.len() - i,
{
    reveal(pow);
    let m = w * h;
    assert(0 < m) by (nonlinear_arith)
        requires
            m == w * h,
            0 < w,
            0 < h,
    {}
    if i == bs.len() {
        assert(pow(m, 0nat) == 1);
    } else {
        lemma_enc_range(bs, w, h, i + 1);
        let d = bs[i].pos.y * w + bs[i].pos.x;
        assert(0 <= d < m) by (nonlinear_arith)
            requires
                d == bs[i].pos.y * w + bs[i].pos.x,
                0 <= bs[i].pos.x < w,
                0 <= bs[i].pos.y < h,
                m == w * h,
        {}
        let rest = enc_blocks(bs, w, m, i + 1);
        let p = pow(m, (bs.len() - i - 1) as nat);
        assert(pow(m, (bs.len() - i) as nat) == m * p);
        assert(0 <= d + m * rest < m * p) by (nonlinear_arith)
            requires
                0 <= d < m,
                0 <= rest < p,
        {}
    }
}

proof fn lemma_enc_inj(a: Seq<Block>, b: Seq<Block>, w: int, h: int, i: int)
    requires
        0 < w,
        0 < h,
        a.len() == b.len(),
        0 <= i <= a.len(),
        forall|j: int|
            0 <= j < a.len() ==> 0 <= (#[trigger] a[j]).pos.x < w && 0 <= a[j].pos.y < h,
        forall|j: int|
            0 <= j < b.len() ==> 0 <= (#[trigger] b[j]).pos.x < w && 0 <= b[j].pos.y < h,
        enc_blocks(a, w, w * h, i) == enc_blocks(b, w, w * h, i),
    ensures
        forall|j: int| i <= j < a.len() ==> (#[trigger] a[j]).pos == b[j].pos,
    decreases a.len() - i,
{
    let m = w * h;
    if i < a.len() {
        let da = a[i].pos.y * w + a[i].pos.x;
        let db = b[i].pos.y * w + b[i].pos.x;
        let ra = enc_blocks(a, w, m, i + 1);
        let rb = enc_blocks(b, w, m, i + 1);
        lemma_enc_range(a, w, h, i + 1);
        lemma_enc_range(b, w, h, i + 1);
        assert(0 <= da < m && 0 <= db < m) by (nonlinear_arith)
            requires
                da == a[i].pos.y * w + a[i].pos.x,
                db == b[i].pos.y * w + b[i].pos.x,
                0 <= a[i].pos.x < w,
                0 <= a[i].pos.y < h,
                0 <= b[i].pos.x < w,
                0 <= b[i].pos.y < h,
                m == w * h,
        {}
        assert(da == db && ra == rb) by (nonlinear_arith)
            requires
                0 <= da < m,
                0 <= db < m,
                0 <= ra,
                0 <= rb,
                da + m * ra == db + m * rb,
        {}
        assert(a[i].pos.x == b[i].pos.x && a[i].pos.y == b[i].pos.y) by (nonlinear_arith)
            requires
                0 <= a[i].pos.x < w,
                0 <= b[i].pos.x < w,
                0 <= a[i].pos.y,
                0 <= b[i].pos.y,
                a[i].pos.y * w + a[i].pos.x == b[i].pos.y * w + b[i].pos.x,
        {}
        lemma_enc_inj(a, b, w, h, i + 1);
        assert forall|j: int| i <= j < a.len() implies (#[trigger] a[j]).pos == b[j].pos by {
            if j == i {
                assert(a[i].pos.x == b[i].pos.x && a[i].pos.y == b[i].pos.y);
            }
        }
    }
}

/// Two search states with equal encodings are equal.
proof fn lemma_search_state_inj(a: StateView, b: StateView, v: BoardView)
    requires
        0 < v.grid.w,
        0 < v.grid.h,
        search_state(a, v),
        search_state(b, v),
        enc_blocks(a.blocks, v.grid.w, v.grid.w * v.grid.h, 0) == enc_blocks(
            b.blocks,
            v.grid.w,
            v.grid.w * v.grid.h,
            0,
        ),
    ensures
        st_eq(a, b),
{
    lemma_enc_inj(a.blocks, b.blocks, v.grid.w, v.grid.h, 0);
    assert forall|j: int| 0 <= j < a.blocks.len() implies a.blocks[j] == b.blocks[j] by {
        assert(a.blocks[j].id == j + 1 && b.blocks[j].id == j + 1);
        assert(a.blocks[j].size == v.goal.blocks[j].size);
        assert(b.blocks[j].size == v.goal.blocks[j].size);
        assert(a.blocks[j].pos == b.blocks[j].pos);
    }
    assert(a.blocks =~= b.blocks);
    assert forall|q: Vec2| a.holes.contains(q) <==> b.holes.contains(q) by {}
    lemma_sorted_unique(a.holes, b.holes);
}

/// A duplicate-free collection of search states is no larger than the
/// state space.
proof fn lemma_visited_bound(vs: Seq<StateView>, v: BoardView)
    requires
        0 < v.grid.w,
        0 < v.grid.h,
        forall|i: int| 0 <= i < vs.len() ==> search_state(#[trigger] vs[i], v),
        forall|i: int, j: int| 0 <= i < j < vs.len() ==> !st_eq(vs[i], vs[j]),
    ensures
        vs.len() <= state_cap(v),
{
    let w = v.grid.w;
    let h = v.grid.h;
    let m = w * h;
    let n = v.goal.blocks.len();
    let keys = Seq::new(vs.len(), |i: int| enc_blocks(vs[i].blocks, w, m, 0));
    assert(keys.no_duplicates()) by {
        assert forall|i: int, j: int|
            0 <= i < keys.len() && 0 <= j < keys.len() && i != j implies keys[i] != keys[j] by {
            if keys[i] == keys[j] {
                lemma_search_state_inj(vs[i], vs[j], v);
                if i < j {
                    assert(!st_eq(vs[i], vs[j]));
                } else {
                    assert(!st_eq(vs[j], vs[i]));
                    assert(st_eq(vs[j], vs[i]));
                }
                assert(false);
            }
        }
    }
    assert forall|i: int| 0 <= i < keys.len() implies 0 <= #[trigger] keys[i] < pow(m, n) by {
        lemma_enc_range(vs[i].blocks, w, h, 0);
        assert(vs[i].blocks.len() == n);
    }
    assert(0 < m) by (nonlinear_arith)
        requires
            m == w * h,
            0 < w,
            0 < h,
    {}
    lemma_pow_positive(m, n);
    lemma_nodup_bounded_len(keys, 0, pow(m, n));
}

/// Well-formed boards of the same family as `v` have search states.
proof fn lemma_board_search_state(u: BoardView, v: BoardView)
    requires
        board_wf(u),
        u.goal == v.goal,
        u.grid.w == v.grid.w,
        u.grid.h == v.grid.h,
    ensures
        search_state(u.state, v),
{
    assert forall|q: Vec2| #[trigger] u.state.holes.contains(q) implies (0 <= q.x < v.grid.w && 0
        <= q.y < v.grid.h && !covered_by(u.state.blocks, q.x as int, q.y as int)) by {
        let k = choose|k: int| 0 <= k < u.state.holes.len() && u.state.holes[k] == q;
        assert(u.grid.at(q.x as int, q.y as int) == 0);
        if covered_by(u.state.blocks, q.x as int, q.y as int) {
            let i = choose|i: int|
                0 <= i < u.state.blocks.len() && covers(
                    #[trigger] u.state.blocks[i],
                    q.x as int,
                    q.y as int,
                );
            assert(u.grid.at(q.x as int, q.y as int) == i + 1);
            assert(false);
        }
    }
    assert forall|q: Vec2|
        (0 <= q.x < v.grid.w && 0 <= q.y < v.grid.h && !covered_by(
            u.state.blocks,
            q.x as int,
            q.y as int,
        )) implies #[trigger] u.state.holes.contains(q) by {
        if u.grid.at(q.x as int, q.y as int) != 0 {
            assert(covers(
                u.state.blocks[u.grid.at(q.x as int, q.y as int) - 1],
                q.x as int,
                q.y as int,
            ));
            assert(covered_by(u.state.blocks, q.x as int, q.y as int));
            assert(false);
        }
        assert(crate::board::hole_at(u.state.holes, q.x as int, q.y as int));
        let k = choose|k: int|
            0 <= k < u.state.holes.len() && (#[trigger] u.state.holes[k]).x == q.x as int
                && u.state.holes[k].y == q.y as int;
        assert(u.state.holes[k] == q);
    }
}

// ---------------------------------------------------------------------
// Shared exec pieces.
// ---------------------------------------------------------------------

/// The states of the visited stack, as mathematical values.
pub open spec fn views_of(vs: Seq<BoardState>) -> Seq<StateView> {
    Seq::new(vs.len(), |i: int| vs[i]@)
}

/// The entry board's state is not on the path-local visited stack.
pub open spec fn entry_unvisited(vs: Seq<BoardState>, v: BoardView) -> bool {
    forall|i: int| 0 <= i < vs.len() ==> !st_eq((#[trigger] vs[i])@, v.state)
}

/// The path-local visited stack is made of distinct search states of
/// the family of `v`.
pub open spec fn visited_ok(vs: Seq<BoardState>, v: BoardView) -> bool {
    &&& forall|i: int| 0 <= i < vs.len() ==> search_state((#[trigger] vs[i])@, v)
    &&& forall|i: int, j: int| 0 <= i < j < vs.len() ==> !st_eq(vs[i]@, vs[j]@)
}

fn contains_state(visited: &Vec<BoardState>, s: &BoardState) -> (r: bool)
    ensures
        r == exists|i: int| 0 <= i < visited@.len() && st_eq((#[trigger] visited@[i])@, s@),
{
    let mut i: usize = 0;
    while i < visited.len()
        invariant
            i <= visited@.len(),
            forall|j: int| 0 <= j < i ==> !st_eq((#[trigger] visited@[j])@, s@),
        decreases visited@.len() - i,
    {
        if visited[i].eq_state(s) {
            return true;
        }
        i = i + 1;
    }
    false
}

fn reverse_moves(v: &Vec<Move>) -> (r: Vec<Move>)
    ensures
        r@ == v@.reverse(),
{
    let mut r: Vec<Move> = Vec::new();
    let mut i: usize = v.len();
    while i > 0
        invariant
            i <= v@.len(),
            r@.len() == v@.len() - i,
            forall|t: int| 0 <= t < r@.len() ==> r@[t] == v@[v@.len() - 1 - t],
        decreases i,
    {
        i = i - 1;
        r.push(v[i]);
    }
    proof {
        assert(r@ =~= v@.reverse());
    }
    r
}

proof fn lemma_reverse_push(s: Seq<Move>, m: Move)
    ensures
        (s.push(m)).reverse() =~= seq![m] + s.reverse(),
{
    let lhs = (s.push(m)).reverse();
    let rhs = seq![m] + s.reverse();
    assert(lhs.len() == s.len() + 1 && rhs.len() == s.len() + 1);
    assert forall|i: int| 0 <= i < lhs.len() implies lhs[i] == rhs[i] by {
        assert(lhs[i] == s.push(m)[s.len() - i]);
        if i == 0 {
        } else {
            assert(rhs[i] == s.reverse()[i - 1]);
        }
    }
}

// ---------------------------------------------------------------------
// IDDFS
// ---------------------------------------------------------------------

/// Depth-bounded depth-first search with path-local cycle avoidance.
/// On success the returned list, reversed into chronological order, is
/// a legal move sequence from the entry board to a goal state; on
/// failure the board and the visited stack are exactly restored.
#[verifier::rlimit(50)]
fn dfs(board: &mut Board, limit: i32, visited: &mut Vec<BoardState>) -> (r: Option<Vec<Move>>)
    requires
        old(board).wf(),
        0 <= limit,
        visited_ok(old(visited)@, old(board)@),
    ensures
        final(board).wf(),
        final(board)@.goal == old(board)@.goal,
        final(board)@.grid.w == old(board)@.grid.w,
        final(board)@.grid.h == old(board)@.grid.h,
        match r {
            Some(ms) => {
                &&& solves(old(board)@, ms@.reverse())
                &&& ms@.len() <= limit
                &&& st_eq(final(board)@.state, final(board)@.goal)
                &&& (st_eq(old(board)@.state, old(board)@.goal) ==> ms@.len() == 0)
            },
            None => {
                &&& final(board)@ == old(board)@
                &&& final(visited)@ == old(visited)@
                &&& !st_eq(old(board)@.state, old(board)@.goal)
                &&& (entry_unvisited(old(visited)@, old(board)@) ==> forall|ms: Seq<Move>|
                    ms.len() <= limit ==> !clear_solves(
                        old(board)@,
                        ms,
                        views_of(old(visited)@).push(old(board)@.state),
                    ))
            },
        },
    decreases limit,
{
    let ghost v0 = board@;
    if board.is_goal() {
        let ms: Vec<Move> = Vec::new();
        proof {
            assert(ms@.reverse() =~= Seq::<Move>::empty());
            assert(reaches(v0, ms@.reverse(), v0));
            assert(solves(v0, ms@.reverse()));
        }
        return Some(ms);
    }
    if limit <= 0 {
        proof {
            assert forall|ms: Seq<Move>| ms.len() <= limit implies !clear_solves(
                v0,
                ms,
                views_of(old(visited)@).push(v0.state),
            ) by {
                if clear_solves(v0, ms, views_of(old(visited)@).push(v0.state)) {
                    let w = choose|w: BoardView|
                        clear_reaches(v0, ms, views_of(old(visited)@).push(v0.state), w)
                            && st_eq(w.state, w.goal);
                    assert(ms.len() == 0);
                    assert(w == v0);
                    assert(false);
                }
            }
        }
        return None;
    }
    if contains_state(visited, &board.state) {
        proof {
            assert(!entry_unvisited(old(visited)@, v0));
        }
        return None;
    }
    visited.push(board.state.clone());
    let ghost vis1 = visited@;
    let ghost b1 = views_of(old(visited)@).push(v0.state);
    proof {
        lemma_board_search_state(v0, v0);
        assert forall|i: int| 0 <= i < vis1.len() implies search_state(
            (#[trigger] vis1[i])@,
            v0,
        ) by {}
        assert forall|i: int, j: int| 0 <= i < j < vis1.len() implies !st_eq(
            vis1[i]@,
            vis1[j]@,
        ) by {}
        assert(views_of(vis1) =~= b1);
    }
    let moves = board.possible_moves();
    proof {
        assert forall|ms: Seq<Move>|
            ms.len() <= limit && #[trigger] clear_solves(v0, ms, b1) implies exists|k: int|
            0 <= k < moves@.len() && moves@[k] == ms[0] by {
            let w = choose|w: BoardView|
                clear_reaches(v0, ms, b1, w) && st_eq(w.state, w.goal);
            if ms.len() == 0 {
                assert(w == v0);
                assert(false);
            }
            let u1 = choose|u1: BoardView|
                #[trigger] moved_view(v0, u1, ms[0].0, ms[0].1) && avoids(u1.state, b1)
                    && clear_reaches(u1, ms.drop_first(), b1, w);
            lemma_legal_is_candidate(v0, ms[0].0, ms[0].1);
            let k = choose|k: int| 0 <= k < v0.pmoves.len() && v0.pmoves[k] == ms[0];
            assert(moves@[k] == ms[0]);
        }
    }
    let mut i: usize = 0;
    while i < moves.len()
        invariant
            v0 == old(board)@,
            board@ == v0,
            board_wf(v0),
            !st_eq(v0.state, v0.goal),
            visited@ == vis1,
            visited_ok(vis1, v0),
            vis1.len() > 0,
            b1 == views_of(old(visited)@).push(v0.state),
            views_of(vis1) == b1,
            i <= moves@.len(),
            limit >= 1,
            moves@ == v0.pmoves,
            forall|ms: Seq<Move>|
                ms.len() <= limit && #[trigger] clear_solves(v0, ms, b1) ==> exists|k: int|
                    i <= k < moves@.len() && moves@[k] == ms[0],
        decreases moves@.len() - i,
    {
        let (id, dir) = moves[i];
        let moved = board.move_block(id, dir);
        if moved.is_ok() {
            let ghost u = board@;
            proof {
                assert(moved_view(v0, u, id, dir));
                assert forall|k: int| 0 <= k < visited@.len() implies search_state(
                    (#[trigger] visited@[k])@,
                    u,
                ) by {
                    assert(search_state(visited@[k]@, v0));
                }
            }
            match dfs(board, limit - 1, visited) {
                Some(mut ms) => {
                    let ghost pre = ms@;
                    ms.push((id, dir));
                    proof {
                        assert(solves(u, pre.reverse()));
                        let wv = choose|wv: BoardView|
                            reaches(u, pre.reverse(), wv) && st_eq(wv.state, wv.goal);
                        lemma_reaches_step(v0, u, (id, dir), pre.reverse(), wv);
                        lemma_reverse_push(pre, (id, dir));
                        assert(ms@.reverse() =~= seq![(id, dir)] + pre.reverse());
                        assert(reaches(v0, ms@.reverse(), wv));
                        assert(solves(v0, ms@.reverse()));
                        assert(ms@.len() <= limit);
                        assert(!st_eq(old(board)@.state, old(board)@.goal));
                    }
                    return Some(ms);
                },
                None => {
                    proof {
                        // no clear solution starts with this candidate
                        assert forall|ms: Seq<Move>|
                            ms.len() <= limit && #[trigger] clear_solves(v0, ms, b1)
                                implies exists|k: int|
                            i + 1 <= k < moves@.len() && moves@[k] == ms[0] by {
                            let k = choose|k: int|
                                i <= k < moves@.len() && moves@[k] == ms[0];
                            if k == i {
                                let w = choose|w: BoardView|
                                    clear_reaches(v0, ms, b1, w) && st_eq(w.state, w.goal);
                                let u1 = choose|u1: BoardView|
                                    #[trigger] moved_view(v0, u1, ms[0].0, ms[0].1) && avoids(
                                        u1.state,
                                        b1,
                                    ) && clear_reaches(u1, ms.drop_first(), b1, w);
                                lemma_moved_view_unique(v0, u1, u, id, dir);
                                assert(entry_unvisited(vis1, u)) by {
                                    assert forall|t: int| 0 <= t < vis1.len() implies !st_eq(
                                        (#[trigger] vis1[t])@,
                                        u.state,
                                    ) by {
                                        assert(views_of(vis1)[t] == vis1[t]@);
                                        assert(!st_eq(u.state, b1[t]));
                                    }
                                }
                                lemma_avoid_goal(u, ms.drop_first(), b1, w);
                                let ms2 = choose|ms2: Seq<Move>|
                                    ms2.len() <= ms.drop_first().len() && clear_solves(
                                        u,
                                        ms2,
                                        b1.push(u.state),
                                    );
                                assert(views_of(vis1).push(u.state) =~= b1.push(u.state));
                                assert(!clear_solves(u, ms2, views_of(vis1).push(u.state)));
                                assert(false);
                            }
                        }
                        lemma_undo_enabled(v0, u, id, dir);
                    }
                    match board.move_block(id, dir.inverse()) {
                        Ok(()) => {
                            proof {
                                lemma_move_undo(v0, u, board@, id, dir);
                            }
                        },
                        Err(_) => {
                            proof {
                                assert(false);
                            }
                        },
                    }
                },
            }
        } else {
            proof {
                // an illegal candidate starts no clear solution
                assert forall|ms: Seq<Move>|
                    ms.len() <= limit && #[trigger] clear_solves(v0, ms, b1) implies exists|k: int|
                    i + 1 <= k < moves@.len() && moves@[k] == ms[0] by {
                    let k = choose|k: int| i <= k < moves@.len() && moves@[k] == ms[0];
                    if k == i {
                        let w = choose|w: BoardView|
                            clear_reaches(v0, ms, b1, w) && st_eq(w.state, w.goal);
                        let u1 = choose|u1: BoardView|
                            #[trigger] moved_view(v0, u1, ms[0].0, ms[0].1) && avoids(u1.state, b1)
                                && clear_reaches(u1, ms.drop_first(), b1, w);
                        assert(spec_can_move(v0, id, dir));
                        lemma_check_cells_ok(v0.state.blocks[id - 1], v0.grid, dir);
                        assert(spec_validate(v0, id, dir) is Ok);
                        assert(false);
                    }
                }
            }
        }
        i = i + 1;
    }
    let _ = visited.pop();
    proof {
        assert(visited@ =~= vis1.subrange(0, vis1.len() - 1));
        assert(visited@ =~= old(visited)@);
        assert forall|ms: Seq<Move>| ms.len() <= limit implies !clear_solves(v0, ms, b1) by {
            if clear_solves(v0, ms, b1) {
                let k = choose|k: int|
                    moves@.len() <= k < moves@.len() && moves@[k] == ms[0];
                assert(false);
            }
        }
    }
    None
}

/// Iterative-deepening depth-first search: find a minimum-length move
/// sequence by running a depth-bounded search with limits 1, 2, 3, ...
/// on fresh copies of the board.  Any returned sequence is a legal
/// move sequence from the given board to a goal state; on an
/// unsolvable board the loop runs until the depth limit space is
/// exhausted.
#[verifier::rlimit(50)]
pub fn iddfs(board: Board) -> (r: Option<Vec<Move>>)
    requires
        board.wf(),
    ensures
        match r {
            Some(ms) => {
                &&& solves(board@, ms@)
                &&& (st_eq(board@.state, board@.goal) ==> ms@.len() == 0)
                &&& forall|ms2: Seq<Move>|
                    #[trigger] solves(board@, ms2) ==> ms@.len() <= ms2.len()
            },
            None => {
                &&& !st_eq(board@.state, board@.goal)
                &&& forall|ms: Seq<Move>| ms.len() <= i32::MAX ==> !solves(board@, ms)
            },
        },
{
    let mut limit: i32 = 1;
    proof {
        if !st_eq(board@.state, board@.goal) {
            assert forall|ms2: Seq<Move>|
                #[trigger] solves(board@, ms2) implies ms2.len() >= 1 by {
                if ms2.len() == 0 {
                    let wv = choose|wv: BoardView|
                        reaches(board@, ms2, wv) && st_eq(wv.state, wv.goal);
                    assert(wv == board@);
                }
            }
        }
    }
    loop
        invariant
            board.wf(),
            1 <= limit,
            st_eq(board@.state, board@.goal) || (forall|ms2: Seq<Move>|
                #[trigger] solves(board@, ms2) ==> ms2.len() >= limit),
        decreases i32::MAX - limit,
    {
        let mut b = board.clone();
        let mut visited: Vec<BoardState> = Vec::new();
        let ghost vis0 = visited@;
        match dfs(&mut b, limit, &mut visited) {
            Some(ms) => {
                let out = reverse_moves(&ms);
                proof {
                    assert(solves(board@, ms@.reverse()));
                    let wv = choose|wv: BoardView|
                        reaches(board@, ms@.reverse(), wv) && st_eq(wv.state, wv.goal);
                    assert(reaches(board@, out@, wv));
                    assert(solves(board@, out@));
                    assert(out@.len() == ms@.len());
                    assert forall|ms2: Seq<Move>|
                        #[trigger] solves(board@, ms2) implies out@.len() <= ms2.len() by {
                        if st_eq(board@.state, board@.goal) {
                            assert(ms@.len() == 0);
                        } else {
                            assert(ms2.len() >= limit);
                            assert(out@.len() <= limit);
                        }
                    }
                }
                return Some(out);
            },
            None => {
                proof {
                    assert(views_of(vis0) =~= Seq::<StateView>::empty());
                    assert forall|ms: Seq<Move>| ms.len() <= limit implies !clear_solves(
                        board@,
                        ms,
                        Seq::<StateView>::empty().push(board@.state),
                    ) by {
                        assert(views_of(vis0).push(board@.state) =~= Seq::<
                            StateView,
                        >::empty().push(board@.state));
                    }
                    lemma_no_clear_no_solution(board@, limit as int);
                }
            },
        }
        if limit == i32::MAX {
            return None;
        }
        proof {
            assert forall|ms2: Seq<Move>|
                #[trigger] solves(board@, ms2) implies ms2.len() >= limit + 1 by {
                assert(ms2.len() > limit);
            }
        }
        limit = limit + 1;
    }
}


// ---------------------------------------------------------------------
// IDA*
// ---------------------------------------------------------------------

/// Cost-bounded depth-first search: explore while `g + h` stays below
/// the bound, track the smallest cost that strictly exceeded it, and
/// restore the board and the visited stack exactly on failure.
/// Terminates because the path-local visited stack can never outgrow
/// the finite state space.
#[verifier::rlimit(50)]
fn idastar_search(
    board: &mut Board,
    g_value: i32,
    f_limit: i32,
    visited: &mut Vec<BoardState>,
) -> (r: Result<Vec<Move>, i32>)
    requires
        old(board).wf(),
        0 <= g_value <= f_limit,
        visited_ok(old(visited)@, old(board)@),
    ensures
        final(board).wf(),
        final(board)@.goal == old(board)@.goal,
        final(board)@.grid.w == old(board)@.grid.w,
        final(board)@.grid.h == old(board)@.grid.h,
        match r {
            Ok(ms) => {
                &&& solves(old(board)@, ms@.reverse())
                &&& g_value + ms@.len() <= f_limit
                &&& st_eq(final(board)@.state, final(board)@.goal)
                &&& (st_eq(old(board)@.state, old(board)@.goal) ==> ms@.len() == 0)
            },
            Err(nl) => {
                &&& final(board)@ == old(board)@
                &&& final(visited)@ == old(visited)@
                &&& f_limit <= nl
                &&& !st_eq(old(board)@.state, old(board)@.goal)
                &&& (entry_unvisited(old(visited)@, old(board)@) ==> forall|ms: Seq<Move>|
                    g_value + ms.len() <= f_limit ==> !clear_solves(
                        old(board)@,
                        ms,
                        views_of(old(visited)@).push(old(board)@.state),
                    ))
            },
        },
    decreases state_cap(old(board)@) - old(visited)@.len(),
{
    let ghost v0 = board@;
    if board.is_goal() {
        let ms: Vec<Move> = Vec::new();
        proof {
            assert(ms@.reverse() =~= Seq::<Move>::empty());
            assert(reaches(v0, ms@.reverse(), v0));
            assert(solves(v0, ms@.reverse()));
        }
        return Ok(ms);
    }
    if contains_state(visited, &board.state) {
        proof {
            assert(!entry_unvisited(old(visited)@, v0));
        }
        return Err(f_limit);
    }
    visited.push(board.state.clone());
    let ghost vis1 = visited@;
    let ghost b1 = views_of(old(visited)@).push(v0.state);
    proof {
        lemma_board_search_state(v0, v0);
        assert forall|k: int| 0 <= k < vis1.len() implies search_state(
            (#[trigger] vis1[k])@,
            v0,
        ) by {}
        assert forall|k: int, l: int| 0 <= k < l < vis1.len() implies !st_eq(
            vis1[k]@,
            vis1[l]@,
        ) by {}
        assert(views_of(vis1) =~= b1);
    }
    let moves = board.possible_moves();
    proof {
        assert forall|ms: Seq<Move>|
            g_value + ms.len() <= f_limit && #[trigger] clear_solves(v0, ms, b1)
                implies exists|k: int| 0 <= k < moves@.len() && moves@[k] == ms[0] by {
            let w = choose|w: BoardView|
                clear_reaches(v0, ms, b1, w) && st_eq(w.state, w.goal);
            if ms.len() == 0 {
                assert(w == v0);
                assert(false);
            }
            let u1 = choose|u1: BoardView|
                #[trigger] moved_view(v0, u1, ms[0].0, ms[0].1) && avoids(u1.state, b1)
                    && clear_reaches(u1, ms.drop_first(), b1, w);
            lemma_legal_is_candidate(v0, ms[0].0, ms[0].1);
            let k = choose|k: int| 0 <= k < v0.pmoves.len() && v0.pmoves[k] == ms[0];
            assert(moves@[k] == ms[0]);
        }
    }
    let mut min_exceeding: i32 = f_limit;
    let mut i: usize = 0;
    while i < moves.len()
        invariant
            v0 == old(board)@,
            board@ == v0,
            board_wf(v0),
            !st_eq(v0.state, v0.goal),
            visited@ == vis1,
            visited_ok(vis1, v0),
            vis1.len() > 0,
            vis1.len() == old(visited)@.len() + 1,
            b1 == views_of(old(visited)@).push(v0.state),
            views_of(vis1) == b1,
            i <= moves@.len(),
            0 <= g_value <= f_limit,
            f_limit <= min_exceeding,
            moves@ == v0.pmoves,
            forall|ms: Seq<Move>|
                g_value + ms.len() <= f_limit && #[trigger] clear_solves(v0, ms, b1)
                    ==> exists|k: int| i <= k < moves@.len() && moves@[k] == ms[0],
        decreases moves@.len() - i,
    {
        let (id, dir) = moves[i];
        let moved = board.move_block(id, dir);
        if moved.is_ok() {
            let ghost u = board@;
            proof {
                assert(moved_view(v0, u, id, dir));
                assert forall|k: int| 0 <= k < visited@.len() implies search_state(
                    (#[trigger] visited@[k])@,
                    u,
                ) by {
                    assert(search_state(visited@[k]@, v0));
                }
            }
            let h = board.heuristic();
            let f_value: i32 = if g_value <= i32::MAX - h {
                g_value + h
            } else {
                i32::MAX
            };
            if f_value < f_limit {
                proof {
                    assert(state_cap(u) == state_cap(v0));
                    let vvs = Seq::new(visited@.len(), |k: int| (visited@[k])@);
                    assert forall|k: int| 0 <= k < vvs.len() implies search_state(
                        #[trigger] vvs[k],
                        u,
                    ) by {
                        assert(search_state(visited@[k]@, u));
                    }
                    assert forall|k: int, l: int| 0 <= k < l < vvs.len() implies !st_eq(
                        vvs[k],
                        vvs[l],
                    ) by {
                        assert(!st_eq(visited@[k]@, visited@[l]@));
                    }
                    lemma_visited_bound(vvs, u);
                    assert(visited@.len() <= state_cap(u));
                }
                match idastar_search(board, g_value + 1, f_limit, visited) {
                    Ok(mut ms) => {
                        let ghost pre = ms@;
                        ms.push((id, dir));
                        proof {
                            assert(solves(u, pre.reverse()));
                            let wv = choose|wv: BoardView|
                                reaches(u, pre.reverse(), wv) && st_eq(wv.state, wv.goal);
                            lemma_reaches_step(v0, u, (id, dir), pre.reverse(), wv);
                            lemma_reverse_push(pre, (id, dir));
                            assert(ms@.reverse() =~= seq![(id, dir)] + pre.reverse());
                            assert(reaches(v0, ms@.reverse(), wv));
                            assert(solves(v0, ms@.reverse()));
                            assert(g_value + ms@.len() <= f_limit);
                            assert(!st_eq(old(board)@.state, old(board)@.goal));
                        }
                        return Ok(ms);
                    },
                    Err(_nl) => {
                        proof {
                            // no clear solution within the bound starts
                            // with this candidate
                            assert forall|ms: Seq<Move>|
                                g_value + ms.len() <= f_limit && #[trigger] clear_solves(
                                    v0,
                                    ms,
                                    b1,
                                ) implies exists|k: int|
                                i + 1 <= k < moves@.len() && moves@[k] == ms[0] by {
                                let k = choose|k: int|
                                    i <= k < moves@.len() && moves@[k] == ms[0];
                                if k == i {
                                    let w = choose|w: BoardView|
                                        clear_reaches(v0, ms, b1, w) && st_eq(w.state, w.goal);
                                    let u1 = choose|u1: BoardView|
                                        #[trigger] moved_view(v0, u1, ms[0].0, ms[0].1) && avoids(
                                            u1.state,
                                            b1,
                                        ) && clear_reaches(u1, ms.drop_first(), b1, w);
                                    lemma_moved_view_unique(v0, u1, u, id, dir);
                                    assert(entry_unvisited(vis1, u)) by {
                                        assert forall|t: int| 0 <= t < vis1.len() implies !st_eq(
                                            (#[trigger] vis1[t])@,
                                            u.state,
                                        ) by {
                                            assert(views_of(vis1)[t] == vis1[t]@);
                                            assert(!st_eq(u.state, b1[t]));
                                        }
                                    }
                                    lemma_avoid_goal(u, ms.drop_first(), b1, w);
                                    let ms2 = choose|ms2: Seq<Move>|
                                        ms2.len() <= ms.drop_first().len() && clear_solves(
                                            u,
                                            ms2,
                                            b1.push(u.state),
                                        );
                                    assert((g_value + 1) + ms2.len() <= f_limit);
                                    assert(views_of(vis1).push(u.state) =~= b1.push(u.state));
                                    assert(!clear_solves(u, ms2, views_of(vis1).push(u.state)));
                                    assert(false);
                                }
                            }
                        }
                    },
                }
            } else {
                proof {
                    // a candidate pruned by the cost bound starts no
                    // clear solution within the bound: the heuristic is
                    // admissible
                    assert forall|ms: Seq<Move>|
                        g_value + ms.len() <= f_limit && #[trigger] clear_solves(v0, ms, b1)
                            implies exists|k: int|
                        i + 1 <= k < moves@.len() && moves@[k] == ms[0] by {
                        let k = choose|k: int| i <= k < moves@.len() && moves@[k] == ms[0];
                        if k == i {
                            let w = choose|w: BoardView|
                                clear_reaches(v0, ms, b1, w) && st_eq(w.state, w.goal);
                            let u1 = choose|u1: BoardView|
                                #[trigger] moved_view(v0, u1, ms[0].0, ms[0].1) && avoids(
                                    u1.state,
                                    b1,
                                ) && clear_reaches(u1, ms.drop_first(), b1, w);
                            lemma_moved_view_unique(v0, u1, u, id, dir);
                            lemma_clear_to_reaches(u, ms.drop_first(), b1, w);
                            crate::laws::lemma_heuristic_admissible(u, ms.drop_first(), w);
                            assert(spec_heuristic(u) <= ms.len() - 1);
                            assert(g_value + h < f_limit);
                            assert(f_value == g_value + h);
                            assert(false);
                        }
                    }
                }
            }
            if f_value > f_limit && (min_exceeding == f_limit || f_value < min_exceeding) {
                min_exceeding = f_value;
            }
            proof {
                lemma_undo_enabled(v0, u, id, dir);
            }
            match board.move_block(id, dir.inverse()) {
                Ok(()) => {
                    proof {
                        lemma_move_undo(v0, u, board@, id, dir);
                    }
                },
                Err(_) => {
                    proof {
                        assert(false);
                    }
                },
            }
        } else {
            proof {
                // an illegal candidate starts no clear solution
                assert forall|ms: Seq<Move>|
                    g_value + ms.len() <= f_limit && #[trigger] clear_solves(v0, ms, b1)
                        implies exists|k: int|
                    i + 1 <= k < moves@.len() && moves@[k] == ms[0] by {
                    let k = choose|k: int| i <= k < moves@.len() && moves@[k] == ms[0];
                    if k == i {
                        let w = choose|w: BoardView|
                            clear_reaches(v0, ms, b1, w) && st_eq(w.state, w.goal);
                        let u1 = choose|u1: BoardView|
                            #[trigger] moved_view(v0, u1, ms[0].0, ms[0].1) && avoids(u1.state, b1)
                                && clear_reaches(u1, ms.drop_first(), b1, w);
                        assert(spec_can_move(v0, id, dir));
                        lemma_check_cells_ok(v0.state.blocks[id - 1], v0.grid, dir);
                        assert(spec_validate(v0, id, dir) is Ok);
                        assert(false);
                    }
                }
            }
        }
        i = i + 1;
    }
    let _ = visited.pop();
    proof {
        assert(visited@ =~= old(visited)@);
        assert forall|ms: Seq<Move>| g_value + ms.len() <= f_limit implies !clear_solves(
            v0,
            ms,
            b1,
        ) by {
            if clear_solves(v0, ms, b1) {
                let k = choose|k: int|
                    moves@.len() <= k < moves@.len() && moves@[k] == ms[0];
                assert(false);
            }
        }
    }
    Err(min_exceeding)
}

/// Iterative-deepening A*: like IDDFS, but bound each round by the
/// path cost `g + h` and raise the bound to the smallest cost that
/// strictly exceeded it in the failed round.  Any returned sequence is
/// a legal move sequence from the given board to a goal state; a
/// report of no solution means no round could raise its cost bound any
/// further.
pub fn idastar(board: Board) -> (r: Option<Vec<Move>>)
    requires
        board.wf(),
    ensures
        match r {
            Some(ms) => solves(board@, ms@) && (st_eq(board@.state, board@.goal) ==> ms@.len()
                == 0),
            None => {
                &&& !st_eq(board@.state, board@.goal)
                &&& forall|ms: Seq<Move>|
                    ms.len() <= spec_heuristic(board@) ==> !solves(board@, ms)
            },
        },
{
    let mut f_limit = board.heuristic();
    loop
        invariant
            board.wf(),
            0 <= f_limit,
            spec_heuristic(board@) <= f_limit,
        decreases i32::MAX - f_limit,
    {
        let mut b = board.clone();
        let mut visited: Vec<BoardState> = Vec::new();
        let ghost vis0 = visited@;
        match idastar_search(&mut b, 0, f_limit, &mut visited) {
            Ok(ms) => {
                let out = reverse_moves(&ms);
                proof {
                    assert(solves(board@, ms@.reverse()));
                    let wv = choose|wv: BoardView|
                        reaches(board@, ms@.reverse(), wv) && st_eq(wv.state, wv.goal);
                    assert(reaches(board@, out@, wv));
                    assert(solves(board@, out@));
                    assert(out@.len() == ms@.len());
                }
                return Some(out);
            },
            Err(nl) => {
                if nl <= f_limit {
                    proof {
                        assert(views_of(vis0) =~= Seq::<StateView>::empty());
                        assert forall|ms: Seq<Move>| ms.len() <= f_limit implies !clear_solves(
                            board@,
                            ms,
                            Seq::<StateView>::empty().push(board@.state),
                        ) by {
                            assert(views_of(vis0).push(board@.state) =~= Seq::<
                                StateView,
                            >::empty().push(board@.state));
                        }
                        lemma_no_clear_no_solution(board@, f_limit as int);
                    }
                    return None;
                }
                f_limit = nl;
            },
        }
    }
}

/// Which search engine to run.
#[derive(Debug, Clone, Copy, PartialEq, Eq, PartialOrd, Ord, Hash, Structural)]
pub enum Algorithm {
    IDDFS,
    IDAStar,
    Manual,
}

/// Run the chosen search on the board.  Interactive manual play needs
/// an operator at a terminal, so it lives outside this library; the
/// caller handles that mode before calling here.
pub fn execute(algorithm: Algorithm, board: Board) -> (r: Option<Vec<Move>>)
    requires
        board.wf(),
        !(algorithm is Manual),
    ensures
        match r {
            Some(ms) => solves(board@, ms@) && (algorithm is IDDFS ==> forall|ms2: Seq<Move>|
                #[trigger] solves(board@, ms2) ==> ms@.len() <= ms2.len()),
            None => {
                &&& !st_eq(board@.state, board@.goal)
                &&& (algorithm is IDDFS ==> forall|ms: Seq<Move>|
                    ms.len() <= i32::MAX ==> !solves(board@, ms))
                &&& (algorithm is IDAStar ==> forall|ms: Seq<Move>|
                    ms.len() <= spec_heuristic(board@) ==> !solves(board@, ms))
            },
        },
{
    match algorithm {
        Algorithm::IDDFS => iddfs(board),
        Algorithm::IDAStar => idastar(board),
        Algorithm::Manual => None,
    }
}

} // verus!
