use vstd::prelude::*;

use crate::matrix::GridView;
use crate::matrix::Matrix2D;
use crate::vec2::Vec2;

verus! {

/// A cardinal direction on the board.
#[derive(Debug, Clone, Copy, PartialEq, Eq, Hash, PartialOrd, Ord, Structural)]
pub enum Dir {
    Up,
    Down,
    Left,
    Right,
}

/// The unit displacement vector of a direction.
pub open spec fn dir_vec(d: Dir) -> Vec2 {
    match d {
        Dir::Up => Vec2 { x: 0i8, y: -1i8 },
        Dir::Down => Vec2 { x: 0i8, y: 1i8 },
        Dir::Left => Vec2 { x: -1i8, y: 0i8 },
        Dir::Right => Vec2 { x: 1i8, y: 0i8 },
    }
}

/// The opposite direction.
pub open spec fn dir_inverse(d: Dir) -> Dir {
    match d {
        Dir::Up => Dir::Down,
        Dir::Down => Dir::Up,
        Dir::Left => Dir::Right,
        Dir::Right => Dir::Left,
    }
}

/// A fixed rank used to keep move lists canonically ordered.
pub open spec fn dir_rank(d: Dir) -> int {
    match d {
        Dir::Up => 0,
        Dir::Down => 1,
        Dir::Left => 2,
        Dir::Right => 3,
    }
}

impl Dir {
    /// Convert direction to corresponding vector.
    pub fn to_vec2(self) -> (v: Vec2)
        ensures
            v == dir_vec(self),
    {
        match self {
            Dir::Up => Vec2 { x: 0, y: -1 },
            Dir::Down => Vec2 { x: 0, y: 1 },
            Dir::Left => Vec2 { x: -1, y: 0 },
            Dir::Right => Vec2 { x: 1, y: 0 },
        }
    }

    /// Get inverse direction.
    pub fn inverse(&self) -> (d: Dir)
        ensures
            d == dir_inverse(*self),
    {
        match self {
            Dir::Up => Dir::Down,
            Dir::Down => Dir::Up,
            Dir::Left => Dir::Right,
            Dir::Right => Dir::Left,
        }
    }

    fn rank(&self) -> (r: u8)
        ensures
            r == dir_rank(*self),
    {
        match self {
            Dir::Up => 0,
            Dir::Down => 1,
            Dir::Left => 2,
            Dir::Right => 3,
        }
    }
}

/// A move: slide the block with the given id one cell in the given
/// direction.
pub type Move = (i8, Dir);

/// A rigid rectangular block on the board.
#[derive(Debug, Default, Clone, Copy, PartialEq, Eq, Hash, Structural)]
pub struct Block {
    /// Block's id; ids are dense `1..=N` on a well-formed board.
    pub id: i8,
    /// Position of the block's top-left cell.
    pub pos: Vec2,
    /// Width and height of this block.
    pub size: Vec2,
}

/// Errors detected while building a board from its grid or text form.
#[derive(Debug, Clone, Copy, PartialEq, Eq, Structural)]
pub enum BoardError {
    /// The first line is missing or is not two integers.
    BadHeader,
    /// A dimension is zero or negative.
    BadDimensions,
    /// A cell token is not an integer that fits the id range.
    BadToken,
    /// A row holds the wrong number of cells.
    WrongRowLength,
    /// A block id's cells do not form one of the four legal rectangles.
    MalformedBlock,
    /// The id space `1..=N` has a gap.
    MissingBlock,
    /// The canonical goal packing cannot fit every block.
    UnfittableLayout,
}

/// Errors returned by move application.
#[derive(Debug, Clone, Copy, PartialEq, Eq, Structural)]
pub enum MoveError {
    /// No block with the given id exists.
    UnknownBlock,
    /// Part of the destination footprint lies outside the grid.
    OutOfRange,
    /// Part of the destination footprint is occupied by another block.
    BlockedMove,
}

/// The minimal data that determines goal-reachability: the empty cells
/// (kept sorted in row-major order) and the block placements (ordered
/// by id).  Two states are equal exactly when both parts match.
#[derive(Debug)]
pub struct BoardState {
    /// Positions of empty cells, strictly ascending in row-major order.
    pub holes: Vec<Vec2>,
    /// Blocks of this board, ordered by id, with no gaps in the ids.
    pub blocks: Vec<Block>,
}

/// Board of a sliding puzzle: the occupancy grid, the live state, the
/// memoized goal state, and the memoized legal-move candidates.
#[derive(Debug)]
pub struct Board {
    /// Grid storing which block id occupies each cell (0 = empty).
    pub grid: Matrix2D<i8>,
    /// Current state of the board.
    pub state: BoardState,
    /// The goal state this board wants to reach.
    pub final_state: BoardState,
    /// Cache of current move candidates, strictly ascending.
    pub _possible_moves: Vec<Move>,
}

// ---------------------------------------------------------------------
// Orderings used for the canonical representations.
// ---------------------------------------------------------------------

/// Strict row-major order on positions.
pub open spec fn pos_lt(a: Vec2, b: Vec2) -> bool {
    a.y < b.y || (a.y == b.y && a.x < b.x)
}

/// Strict order on moves: by block id, then by direction rank.
pub open spec fn move_lt(a: Move, b: Move) -> bool {
    a.0 < b.0 || (a.0 == b.0 && dir_rank(a.1) < dir_rank(b.1))
}

/// A strictly ascending (hence duplicate-free) sequence of positions.
pub open spec fn holes_sorted(s: Seq<Vec2>) -> bool {
    forall|i: int, j: int| 0 <= i < j < s.len() ==> pos_lt(#[trigger] s[i], #[trigger] s[j])
}

/// A strictly ascending (hence duplicate-free) sequence of moves.
pub open spec fn moves_sorted(s: Seq<Move>) -> bool {
    forall|i: int, j: int| 0 <= i < j < s.len() ==> move_lt(#[trigger] s[i], #[trigger] s[j])
}

// ---------------------------------------------------------------------
// The board model: what it means for a `Board` to be well formed.
// ---------------------------------------------------------------------

/// Whether the block's rectangle covers the cell `(x, y)`.
pub open spec fn covers(b: Block, x: int, y: int) -> bool {
    b.pos.x <= x < b.pos.x + b.size.x && b.pos.y <= y < b.pos.y + b.size.y
}

/// Whether some block of the list covers `(x, y)`.
pub open spec fn covered_by(placed: Seq<Block>, x: int, y: int) -> bool {
    exists|i: int| 0 <= i < placed.len() && covers(#[trigger] placed[i], x, y)
}

/// The four legal block shapes: 1x1, 2x1, 1x2 and 2x2.
pub open spec fn size_ok(s: Vec2) -> bool {
    (s.x == 1 || s.x == 2) && (s.y == 1 || s.y == 2)
}

/// The block's rectangle lies inside the grid.
pub open spec fn block_in_grid(b: Block, g: GridView<i8>) -> bool {
    0 <= b.pos.x && 0 <= b.pos.y && b.pos.x + b.size.x <= g.w && b.pos.y + b.size.y <= g.h
}

/// Blocks have dense ids `1..=N`, legal shapes, and stay inside the
/// grid.
pub open spec fn blocks_wf(bs: Seq<Block>, g: GridView<i8>) -> bool {
    &&& bs.len() <= 127
    &&& forall|i: int|
        0 <= i < bs.len() ==> (#[trigger] bs[i]).id == i + 1 && size_ok(bs[i].size)
            && block_in_grid(bs[i], g)
}

/// Every non-empty grid cell names the block that covers it, and every
/// block's rectangle is written in the grid; hence no two blocks
/// overlap.
pub open spec fn grid_matches(bs: Seq<Block>, g: GridView<i8>) -> bool {
    &&& forall|x: int, y: int|
        g.in_range(x, y) && #[trigger] g.at(x, y) != 0 ==> 1 <= g.at(x, y)
            <= bs.len() && covers(bs[g.at(x, y) - 1], x, y)
    &&& forall|i: int, x: int, y: int|
        0 <= i < bs.len() && g.in_range(x, y) && covers(#[trigger] bs[i], x, y) ==> #[trigger] g.at(
            x,
            y,
        ) == i + 1
}

/// Whether some listed hole sits at `(x, y)`.
pub open spec fn hole_at(hs: Seq<Vec2>, x: int, y: int) -> bool {
    exists|i: int| 0 <= i < hs.len() && (#[trigger] hs[i]).x == x && hs[i].y == y
}

/// The hole list is the strictly ascending row-major enumeration of
/// exactly the empty grid cells.
pub open spec fn holes_wf(hs: Seq<Vec2>, g: GridView<i8>) -> bool {
    &&& holes_sorted(hs)
    &&& forall|i: int|
        0 <= i < hs.len() ==> g.in_range((#[trigger] hs[i]).x as int, hs[i].y as int)
            && g.at(hs[i].x as int, hs[i].y as int) == 0
    &&& forall|x: int, y: int|
        g.in_range(x, y) && #[trigger] g.at(x, y) == 0 ==> hole_at(hs, x, y)
}

/// Whether looking from hole `hs[j]` in direction `d` yields exactly
/// the candidate move `m`: the neighbour cell in that direction is
/// occupied by block `m.0`, and `m.1` points from the neighbour toward
/// the hole.
pub open spec fn cand_at(hs: Seq<Vec2>, g: GridView<i8>, j: int, d: Dir, m: Move) -> bool {
    let nx = hs[j].x + dir_vec(d).x;
    let ny = hs[j].y + dir_vec(d).y;
    &&& g.in_range(nx, ny)
    &&& g.at(nx, ny) == m.0
    &&& m.0 != 0
    &&& m.1 == dir_inverse(d)
}

/// A move candidate: some hole has an occupied cardinal neighbour
/// holding block `m.0`, and `m.1` points from that neighbour toward the
/// hole.
pub open spec fn is_candidate(m: Move, hs: Seq<Vec2>, g: GridView<i8>) -> bool {
    exists|j: int, d: Dir| 0 <= j < hs.len() && #[trigger] cand_at(hs, g, j, d, m)
}

/// The move cache is the strictly ascending list of exactly the
/// current candidates.
pub open spec fn moves_wf(pm: Seq<Move>, hs: Seq<Vec2>, g: GridView<i8>) -> bool {
    &&& moves_sorted(pm)
    &&& forall|i: int| 0 <= i < pm.len() ==> is_candidate(#[trigger] pm[i], hs, g)
    &&& forall|m: Move| #[trigger] is_candidate(m, hs, g) ==> pm.contains(m)
}

/// The mathematical value of a puzzle state.
pub struct StateView {
    pub holes: Seq<Vec2>,
    pub blocks: Seq<Block>,
}

impl View for BoardState {
    type V = StateView;

    open spec fn view(&self) -> StateView {
        StateView { holes: self.holes@, blocks: self.blocks@ }
    }
}

/// The mathematical value of a whole board.
pub struct BoardView {
    pub grid: GridView<i8>,
    pub state: StateView,
    pub goal: StateView,
    pub pmoves: Seq<Move>,
}

impl View for Board {
    type V = BoardView;

    open spec fn view(&self) -> BoardView {
        BoardView {
            grid: self.grid@,
            state: self.state@,
            goal: self.final_state@,
            pmoves: self._possible_moves@,
        }
    }
}

/// The memoized goal state pairs each block with a placement of the
/// same id and size inside the grid.
pub open spec fn goal_wf(goal: StateView, bs: Seq<Block>, g: GridView<i8>) -> bool {
    &&& goal.blocks.len() == bs.len()
    &&& forall|i: int|
        0 <= i < bs.len() ==> (#[trigger] goal.blocks[i]).id == bs[i].id && goal.blocks[i].size
            == bs[i].size && block_in_grid(goal.blocks[i], g)
    &&& holes_sorted(goal.holes)
    &&& forall|q: Vec2|
        #[trigger] goal.holes.contains(q) <==> (0 <= q.x < g.w && 0 <= q.y < g.h && !covered_by(
            goal.blocks,
            q.x as int,
            q.y as int,
        ))
}

/// Equality of puzzle states: equal hole lists and equal block lists.
pub open spec fn st_eq(a: StateView, b: StateView) -> bool {
    a.holes == b.holes && a.blocks == b.blocks
}

/// The board invariant: a positive-size grid, consistent blocks, holes
/// and move cache, and a compatible goal state.
pub open spec fn board_wf(v: BoardView) -> bool {
    &&& v.grid.wf()
    &&& 0 < v.grid.w
    &&& 0 < v.grid.h
    &&& blocks_wf(v.state.blocks, v.grid)
    &&& grid_matches(v.state.blocks, v.grid)
    &&& holes_wf(v.state.holes, v.grid)
    &&& moves_wf(v.pmoves, v.state.holes, v.grid)
    &&& goal_wf(v.goal, v.state.blocks, v.grid)
}

impl Board {
    /// The board invariant, on the board's mathematical value.
    pub open spec fn wf(&self) -> bool {
        board_wf(self@)
    }

    /// Whether the current state is the goal state.
    pub open spec fn spec_is_goal(&self) -> bool {
        st_eq(self@.state, self@.goal)
    }
}

// ---------------------------------------------------------------------
// Exec comparison and canonical insertion helpers.
// ---------------------------------------------------------------------

fn pos_less(a: &Vec2, b: &Vec2) -> (r: bool)
    ensures
        r == pos_lt(*a, *b),
{
    a.y < b.y || (a.y == b.y && a.x < b.x)
}

fn move_less(a: &Move, b: &Move) -> (r: bool)
    ensures
        r == move_lt(*a, *b),
{
    a.0 < b.0 || (a.0 == b.0 && a.1.rank() < b.1.rank())
}

/// Insert `p` into the strictly ascending hole list, keeping it
/// ascending; inserting an already-present position changes nothing.
pub(crate) fn insert_hole(holes: &mut Vec<Vec2>, p: Vec2)
    requires
        holes_sorted(old(holes)@),
    ensures
        holes_sorted(final(holes)@),
        forall|q: Vec2| final(holes)@.contains(q) <==> (old(holes)@.contains(q) || q == p),
        final(holes)@.len() == old(holes)@.len() + (if old(holes)@.contains(p) {
            0int
        } else {
            1int
        }),
{
    let mut i: usize = 0;
    while i < holes.len() && pos_less(&holes[i], &p)
        invariant
            holes@ == old(holes)@,
            holes_sorted(holes@),
            i <= holes@.len(),
            forall|j: int| 0 <= j < i ==> pos_lt(#[trigger] holes@[j], p),
        decreases holes@.len() - i,
    {
        i = i + 1;
    }
    if i < holes.len() && holes[i] == p {
        proof {
            assert(old(holes)@.contains(p));
            assert forall|q: Vec2| holes@.contains(q) <==> (old(holes)@.contains(q) || q == p) by {}
        }
        return ;
    }
    proof {
        if old(holes)@.contains(p) {
            let k = choose|k: int| 0 <= k < old(holes)@.len() && old(holes)@[k] == p;
            if k < i {
                assert(pos_lt(old(holes)@[k], p));
                assert(false);
            } else if k == i {
                assert(false);
            } else {
                assert(pos_lt(old(holes)@[i as int], old(holes)@[k]));
                assert(!pos_lt(old(holes)@[i as int], p));
                assert(false);
            }
        }
    }
    holes.insert(i, p);
    proof {
        let s = holes@;
        let os = old(holes)@;
        assert forall|a: int, b: int| 0 <= a < b < s.len() implies pos_lt(s[a], s[b]) by {
            if a < i && b == i {
            } else if a == i && b > i {
                assert(s[b] == os[b - 1]);
                assert(!pos_lt(os[i as int], p));
                assert(os[i as int] != p);
            } else if a < i && b > i {
                assert(s[a] == os[a] && s[b] == os[b - 1]);
            }
        }
        assert forall|q: Vec2| s.contains(q) <==> (os.contains(q) || q == p) by {
            if s.contains(q) {
                let k = choose|k: int| 0 <= k < s.len() && s[k] == q;
                if k < i {
                    assert(os[k] == q);
                    assert(os.contains(q));
                } else if k == i {
                } else {
                    assert(os[k - 1] == q);
                    assert(os.contains(q));
                }
            }
            if os.contains(q) {
                let k = choose|k: int| 0 <= k < os.len() && os[k] == q;
                if k < i {
                    assert(s[k] == q);
                } else {
                    assert(s[k + 1] == q);
                }
                assert(s.contains(q));
            }
            if q == p {
                assert(s[i as int] == q);
                assert(s.contains(q));
            }
        }
    }
}

/// Remove `p` from the strictly ascending hole list, if present.
pub(crate) fn remove_hole(holes: &mut Vec<Vec2>, p: Vec2)
    requires
        holes_sorted(old(holes)@),
    ensures
        holes_sorted(final(holes)@),
        forall|q: Vec2| final(holes)@.contains(q) <==> (old(holes)@.contains(q) && q != p),
        final(holes)@.len() == old(holes)@.len() - (if old(holes)@.contains(p) {
            1int
        } else {
            0int
        }),
{
    let mut i: usize = 0;
    while i < holes.len()
        invariant
            holes@ == old(holes)@,
            holes_sorted(holes@),
            i <= holes@.len(),
            forall|j: int| 0 <= j < i ==> #[trigger] holes@[j] != p,
        decreases holes@.len() - i,
    {
        if holes[i] == p {
            holes.remove(i);
            proof {
                let s = holes@;
                let os = old(holes)@;
                assert forall|q: Vec2| s.contains(q) <==> (os.contains(q) && q != p) by {
                    if s.contains(q) {
                        let k = choose|k: int| 0 <= k < s.len() && s[k] == q;
                        if k < i {
                            assert(os[k] == q);
                        } else {
                            assert(os[k + 1] == q);
                        }
                        assert(os.contains(q));
                        if q == p {
                            if k < i {
                            } else {
                                assert(pos_lt(os[i as int], os[k + 1]));
                            }
                            assert(false);
                        }
                    }
                    if os.contains(q) && q != p {
                        let k = choose|k: int| 0 <= k < os.len() && os[k] == q;
                        if k < i {
                            assert(s[k] == q);
                        } else if k == i {
                            assert(false);
                        } else {
                            assert(s[k - 1] == q);
                        }
                        assert(s.contains(q));
                    }
                }
            }
            return ;
        }
        i = i + 1;
    }
    proof {
        assert(!old(holes)@.contains(p));
        assert forall|q: Vec2| holes@.contains(q) <==> (old(holes)@.contains(q) && q != p) by {
            if holes@.contains(q) && q == p {
                assert(old(holes)@.contains(p));
            }
        }
    }
}

/// Insert `m` into the strictly ascending move list, keeping it
/// ascending and duplicate-free.
pub(crate) fn insert_move(moves: &mut Vec<Move>, m: Move)
    requires
        moves_sorted(old(moves)@),
    ensures
        moves_sorted(final(moves)@),
        forall|q: Move| final(moves)@.contains(q) <==> (old(moves)@.contains(q) || q == m),
{
    let mut i: usize = 0;
    while i < moves.len() && move_less(&moves[i], &m)
        invariant
            moves@ == old(moves)@,
            moves_sorted(moves@),
            i <= moves@.len(),
            forall|j: int| 0 <= j < i ==> move_lt(#[trigger] moves@[j], m),
        decreases moves@.len() - i,
    {
        i = i + 1;
    }
    if i < moves.len() && moves[i].0 == m.0 && moves[i].1 == m.1 {
        proof {
            assert(moves@[i as int] == m);
            assert(old(moves)@.contains(m));
        }
        return ;
    }
    proof {
        if i < moves@.len() {
            assert(moves@[i as int] != m);
        }
    }
    moves.insert(i, m);
    proof {
        let s = moves@;
        let os = old(moves)@;
        assert forall|a: int, b: int| 0 <= a < b < s.len() implies move_lt(s[a], s[b]) by {
            if a < i && b == i {
            } else if a == i && b > i {
                assert(s[b] == os[b - 1]);
                assert(!move_lt(os[i as int], m));
                assert(os[i as int] != m);
            } else if a < i && b > i {
                assert(s[a] == os[a] && s[b] == os[b - 1]);
            }
        }
        assert forall|q: Move| s.contains(q) <==> (os.contains(q) || q == m) by {
            if s.contains(q) {
                let k = choose|k: int| 0 <= k < s.len() && s[k] == q;
                if k < i {
                    assert(os[k] == q);
                    assert(os.contains(q));
                } else if k == i {
                } else {
                    assert(os[k - 1] == q);
                    assert(os.contains(q));
                }
            }
            if os.contains(q) {
                let k = choose|k: int| 0 <= k < os.len() && os[k] == q;
                if k < i {
                    assert(s[k] == q);
                } else {
                    assert(s[k + 1] == q);
                }
                assert(s.contains(q));
            }
            if q == m {
                assert(s[i as int] == q);
                assert(s.contains(q));
            }
        }
    }
}

/// Copy a vector of plain values element by element.
pub(crate) fn clone_vec<T: Copy>(v: &Vec<T>) -> (r: Vec<T>)
    ensures
        r@ == v@,
{
    let mut r: Vec<T> = Vec::new();
    let mut i: usize = 0;
    while i < v.len()
        invariant
            i <= v@.len(),
            r@ == v@.subrange(0, i as int),
        decreases v@.len() - i,
    {
        r.push(v[i]);
        proof {
            assert(r@ =~= v@.subrange(0, i + 1 as int));
        }
        i = i + 1;
    }
    proof {
        assert(r@ =~= v@);
    }
    r
}

impl BoardState {
    /// Build a state from arbitrary hole and block lists; the holes
    /// are put in canonical (sorted, duplicate-free) form.
    pub fn new(holes: Vec<Vec2>, blocks: Vec<Block>) -> (s: BoardState)
        ensures
            holes_sorted(s.holes@),
            forall|q: Vec2| s.holes@.contains(q) <==> holes@.contains(q),
            s.blocks@ == blocks@,
    {
        let mut hs: Vec<Vec2> = Vec::new();
        let mut i: usize = 0;
        while i < holes.len()
            invariant
                i <= holes@.len(),
                holes_sorted(hs@),
                forall|q: Vec2| hs@.contains(q) <==> holes@.subrange(0, i as int).contains(q),
            decreases holes@.len() - i,
        {
            let ghost pre = hs@;
            insert_hole(&mut hs, holes[i]);
            proof {
                assert forall|q: Vec2| hs@.contains(q) <==> holes@.subrange(
                    0,
                    i + 1 as int,
                ).contains(q) by {
                    let s1 = holes@.subrange(0, i as int);
                    let s2 = holes@.subrange(0, i + 1 as int);
                    assert(s2 == s1.push(holes@[i as int]));
                    if hs@.contains(q) {
                        if pre.contains(q) {
                            let k = choose|k: int| 0 <= k < s1.len() && s1[k] == q;
                            assert(s2[k] == q);
                        } else {
                            assert(s2[s2.len() - 1] == q);
                        }
                    }
                    if s2.contains(q) {
                        let k = choose|k: int| 0 <= k < s2.len() && s2[k] == q;
                        if k < s1.len() {
                            assert(s1[k] == q);
                        }
                    }
                }
            }
            i = i + 1;
        }
        proof {
            assert(holes@.subrange(0, holes@.len() as int) =~= holes@);
        }
        BoardState { holes: hs, blocks }
    }

    /// Structural equality of two states.
    pub fn eq_state(&self, other: &BoardState) -> (r: bool)
        ensures
            r == st_eq(self@, other@),
    {
        if self.holes.len() != other.holes.len() || self.blocks.len() != other.blocks.len() {
            proof {
                assert(!st_eq(self@, other@));
            }
            return false;
        }
        let mut i: usize = 0;
        while i < self.holes.len()
            invariant
                i <= self.holes@.len(),
                self.holes@.len() == other.holes@.len(),
                self.blocks@.len() == other.blocks@.len(),
                forall|j: int| 0 <= j < i ==> self.holes@[j] == other.holes@[j],
            decreases self.holes@.len() - i,
        {
            if self.holes[i] != other.holes[i] {
                return false;
            }
            i = i + 1;
        }
        let mut i: usize = 0;
        while i < self.blocks.len()
            invariant
                i <= self.blocks@.len(),
                self.holes@.len() == other.holes@.len(),
                self.blocks@.len() == other.blocks@.len(),
                forall|j: int| 0 <= j < self.holes@.len() ==> self.holes@[j] == other.holes@[j],
                forall|j: int| 0 <= j < i ==> self.blocks@[j] == other.blocks@[j],
            decreases self.blocks@.len() - i,
        {
            if self.blocks[i] != other.blocks[i] {
                return false;
            }
            i = i + 1;
        }
        proof {
            assert(self.holes@ =~= other.holes@);
            assert(self.blocks@ =~= other.blocks@);
        }
        true
    }
}

impl Clone for BoardState {
    /// An exact copy: the clone's state equals the original's.
    fn clone(&self) -> (r: Self)
        ensures
            r@ == self@,
    {
        BoardState { holes: clone_vec(&self.holes), blocks: clone_vec(&self.blocks) }
    }
}

impl Board {
    /// Whether the current state is the goal state.
    pub fn is_goal(&self) -> (r: bool)
        ensures
            r == self.spec_is_goal(),
    {
        self.state.eq_state(&self.final_state)
    }

    /// The current move candidates, as a list without duplicates.
    pub fn possible_moves(&self) -> (pm: Vec<Move>)
        ensures
            pm@ == self@.pmoves,
    {
        clone_vec(&self._possible_moves)
    }

    /// Get a reference to the board's id grid.
    pub fn grid(&self) -> (g: &Matrix2D<i8>)
        ensures
            g@ == self@.grid,
    {
        &self.grid
    }

    /// Get a reference to the board's state.
    pub fn state(&self) -> (s: &BoardState)
        ensures
            s@ == self@.state,
    {
        &self.state
    }
}

impl Clone for Board {
    /// An exact copy: the clone's mathematical value equals the
    /// original's, so well-formedness carries over.
    fn clone(&self) -> (r: Self)
        ensures
            r@ == self@,
    {
        let r = Board {
            grid: Matrix2D { store: clone_vec(&self.grid.store), size: self.grid.size },
            state: self.state.clone(),
            final_state: self.final_state.clone(),
            _possible_moves: clone_vec(&self._possible_moves),
        };
        r
    }
}

} // verus!
