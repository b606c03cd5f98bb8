use vstd::prelude::*;

use crate::vec2::Vec2;

verus! {

/// Error raised by the region-fill primitives.
#[derive(Debug, Clone, Copy, PartialEq, Eq, Structural)]
pub enum GridError {
    /// Part of the requested region lies outside the grid.
    OutOfBounds,
    /// Part of the requested region is already occupied.
    RegionOccupied,
}

/// A fixed-size 2D array addressed by [`Vec2`] coordinates, with
/// bounds-checked access.  `size.x` is the width (number of columns),
/// `size.y` the height (number of rows); cells are stored row by row.
#[derive(Debug)]
pub struct Matrix2D<T> {
    pub store: Vec<T>,
    pub size: Vec2,
}

/// The mathematical value of a grid: its width, height, and cells in
/// row-major order.
pub struct GridView<T> {
    pub w: int,
    pub h: int,
    pub cells: Seq<T>,
}

impl<T> GridView<T> {
    /// Non-negative dimensions and exactly `w * h` cells.
    pub open spec fn wf(self) -> bool {
        0 <= self.w && 0 <= self.h && self.cells.len() == self.w * self.h
    }

    /// Whether `(x, y)` lies inside the grid.
    pub open spec fn in_range(self, x: int, y: int) -> bool {
        0 <= x < self.w && 0 <= y < self.h
    }

    /// The cell value at `(x, y)`.
    pub open spec fn at(self, x: int, y: int) -> T {
        self.cells[y * self.w + x]
    }

    /// Whether the whole rectangle of `size` cells anchored at
    /// `anchor` lies inside the grid.
    pub open spec fn rect_in_range(self, anchor: Vec2, size: Vec2) -> bool {
        forall|x: int, y: int| in_rect(anchor, size, x, y) ==> self.in_range(x, y)
    }

    pub proof fn lemma_index_in_cells(self, x: int, y: int)
        requires
            self.wf(),
            self.in_range(x, y),
        ensures
            0 <= y * self.w + x < self.cells.len(),
    {
        assert(0 <= y * self.w + x < self.h * self.w) by (nonlinear_arith)
            requires
                0 <= x < self.w,
                0 <= y < self.h,
        {}
        assert(self.h * self.w == self.w * self.h) by (nonlinear_arith) {}
    }

    pub proof fn lemma_index_injective(self, x1: int, y1: int, x2: int, y2: int)
        requires
            self.wf(),
            self.in_range(x1, y1),
            self.in_range(x2, y2),
            y1 * self.w + x1 == y2 * self.w + x2,
        ensures
            x1 == x2 && y1 == y2,
    {
        assert(x1 == x2 && y1 == y2) by (nonlinear_arith)
            requires
                0 <= x1 < self.w,
                0 <= x2 < self.w,
                0 <= y1,
                0 <= y2,
                y1 * self.w + x1 == y2 * self.w + x2,
        {}
    }
}

/// Whether `(x, y)` lies in the rectangle of `size` cells anchored at
/// `anchor`.
pub open spec fn in_rect(anchor: Vec2, size: Vec2, x: int, y: int) -> bool {
    anchor.x <= x < anchor.x + size.x && anchor.y <= y < anchor.y + size.y
}

impl<T> View for Matrix2D<T> {
    type V = GridView<T>;

    open spec fn view(&self) -> GridView<T> {
        GridView { w: self.size.x as int, h: self.size.y as int, cells: self.store@ }
    }
}

impl<T> Matrix2D<T> {
    /// Get a reference to the cell at `pos`, or `None` if `pos` is
    /// outside the grid.  Never panics.
    pub fn get(&self, pos: Vec2) -> (r: Option<&T>)
        requires
            self@.wf(),
        ensures
            match r {
                Some(v) => self@.in_range(pos.x as int, pos.y as int) && *v == self@.at(
                    pos.x as int,
                    pos.y as int,
                ),
                None => !self@.in_range(pos.x as int, pos.y as int),
            },
    {
        if !self.is_inside(&pos) {
            return None;
        }
        proof {
            self@.lemma_index_in_cells(pos.x as int, pos.y as int);
            assert(pos.y as int * self.size.x as int + pos.x as int <= 16384) by (nonlinear_arith)
                requires
                    0 <= pos.x as int,
                    (pos.x as int) < (self.size.x as int),
                    (self.size.x as int) <= 127,
                    0 <= pos.y as int,
                    (pos.y as int) <= 127,
            {}
        }
        let idx: usize = pos.y as usize * self.size.x as usize + pos.x as usize;
        Some(&self.store[idx])
    }

    fn is_inside(&self, pos: &Vec2) -> (r: bool)
        ensures
            r == self@.in_range(pos.x as int, pos.y as int),
    {
        pos.x >= 0 && pos.x < self.size.x && pos.y >= 0 && pos.y < self.size.y
    }

    /// Overwrite the cell at `pos`, which must be inside the grid.
    fn set_cell(&mut self, pos: Vec2, value: T)
        requires
            old(self)@.wf(),
            old(self)@.in_range(pos.x as int, pos.y as int),
        ensures
            final(self)@.wf(),
            final(self)@.w == old(self)@.w,
            final(self)@.h == old(self)@.h,
            final(self).size == old(self).size,
            final(self)@.at(pos.x as int, pos.y as int) == value,
            forall|x: int, y: int|
                final(self)@.in_range(x, y) && !(x == pos.x as int && y == pos.y as int)
                    ==> final(self)@.at(x, y) == old(self)@.at(x, y),
    {
        proof {
            self@.lemma_index_in_cells(pos.x as int, pos.y as int);
            assert(pos.y as int * self.size.x as int + pos.x as int <= 16384) by (nonlinear_arith)
                requires
                    0 <= pos.x as int,
                    (pos.x as int) < (self.size.x as int),
                    (self.size.x as int) <= 127,
                    0 <= pos.y as int,
                    (pos.y as int) <= 127,
            {}
        }
        let idx: usize = pos.y as usize * self.size.x as usize + pos.x as usize;
        self.store.set(idx, value);
        proof {
            assert forall|x: int, y: int|
                self@.in_range(x, y) && !(x == pos.x as int && y == pos.y as int) implies self@.at(
                x,
                y,
            ) == old(self)@.at(x, y) by {
                self@.lemma_index_in_cells(x, y);
                if y * self@.w + x == pos.y as int * self@.w + pos.x as int {
                    self@.lemma_index_injective(x, y, pos.x as int, pos.y as int);
                }
            }
        }
    }

    /// Get a mutable reference to the cell at `pos`, or `None` if
    /// `pos` is outside the grid.  Never panics.
    pub fn get_mut(&mut self, pos: Vec2) -> (r: Option<&mut T>)
        requires
            old(self)@.wf(),
        ensures
            final(self)@.wf(),
            final(self)@.w == old(self)@.w,
            final(self)@.h == old(self)@.h,
            r is Some <==> old(self)@.in_range(pos.x as int, pos.y as int),
            r is None ==> final(self)@ == old(self)@,
    {
        if !self.is_inside(&pos) {
            return None;
        }
        proof {
            self@.lemma_index_in_cells(pos.x as int, pos.y as int);
            assert(pos.y as int * self.size.x as int + pos.x as int <= 16384) by (nonlinear_arith)
                requires
                    0 <= pos.x as int,
                    (pos.x as int) < (self.size.x as int),
                    (self.size.x as int) <= 127,
                    0 <= pos.y as int,
                    (pos.y as int) <= 127,
            {}
        }
        let idx: usize = pos.y as usize * self.size.x as usize + pos.x as usize;
        Some(&mut self.store[idx])
    }

    /// Dimensions of the grid.
    pub fn size(&self) -> (s: Vec2)
        ensures
            s == self.size,
            s.x == self@.w,
            s.y == self@.h,
    {
        self.size
    }

    /// Build a grid from a flat row-major vector, failing if the vector
    /// length does not match the requested dimensions.
    pub fn from_vec(size: Vec2, vec: Vec<T>) -> (r: Result<Self, GridError>)
        requires
            0 <= size.x,
            0 <= size.y,
        ensures
            match r {
                Ok(m) => m@.wf() && m.size == size && m@.w == size.x && m@.h == size.y && m@.cells
                    == vec@ && vec@.len() == size.x * size.y,
                Err(e) => e == GridError::OutOfBounds && vec@.len() != size.x * size.y,
            },
    {
        proof {
            assert(size.x as int * size.y as int <= 16129) by (nonlinear_arith)
                requires
                    0 <= size.x as int,
                    (size.x as int) <= 127,
                    0 <= size.y as int,
                    (size.y as int) <= 127,
            {}
        }
        let expect: usize = size.x as usize * size.y as usize;
        if expect != vec.len() {
            return Err(GridError::OutOfBounds);
        }
        Ok(Matrix2D { size, store: vec })
    }
}

impl<T: Copy> Matrix2D<T> {
    /// A grid of the given dimensions with every cell set to
    /// `fillin_value`.
    pub fn fill(size: Vec2, fillin_value: T) -> (m: Matrix2D<T>)
        requires
            0 <= size.x,
            0 <= size.y,
        ensures
            m@.wf(),
            m.size == size,
            m@.w == size.x,
            m@.h == size.y,
            forall|x: int, y: int| m@.in_range(x, y) ==> m@.at(x, y) == fillin_value,
    {
        proof {
            assert(size.x as int * size.y as int <= 16129) by (nonlinear_arith)
                requires
                    0 <= size.x as int,
                    (size.x as int) <= 127,
                    0 <= size.y as int,
                    (size.y as int) <= 127,
            {}
        }
        let total: usize = size.x as usize * size.y as usize;
        let mut store: Vec<T> = Vec::new();
        let mut i: usize = 0;
        while i < total
            invariant
                i <= total,
                store@.len() == i,
                forall|k: int| 0 <= k < i ==> store@[k] == fillin_value,
            decreases total - i,
        {
            store.push(fillin_value);
            i = i + 1;
        }
        let m = Matrix2D { size, store };
        proof {
            assert forall|x: int, y: int| m@.in_range(x, y) implies m@.at(x, y)
                == fillin_value by {
                m@.lemma_index_in_cells(x, y);
            }
        }
        m
    }

    /// Overwrite every cell of the rectangle of `size` cells anchored
    /// at `anchor` with `value`; fail without modifying anything if any
    /// target cell lies outside the grid.
    pub fn try_fill(&mut self, anchor: Vec2, size: Vec2, value: T) -> (r: Result<(), GridError>)
        requires
            old(self)@.wf(),
            0 <= size.x,
            0 <= size.y,
            anchor.x + size.x <= 128,
            anchor.y + size.y <= 128,
        ensures
            final(self)@.wf(),
            final(self)@.w == old(self)@.w,
            final(self)@.h == old(self)@.h,
            final(self).size == old(self).size,
            match r {
                Ok(()) => {
                    &&& old(self)@.rect_in_range(anchor, size)
                    &&& forall|x: int, y: int|
                        final(self)@.in_range(x, y) ==> final(self)@.at(x, y) == (if in_rect(
                            anchor,
                            size,
                            x,
                            y,
                        ) {
                            value
                        } else {
                            old(self)@.at(x, y)
                        })
                },
                Err(e) => {
                    &&& e == GridError::OutOfBounds
                    &&& !old(self)@.rect_in_range(anchor, size)
                    &&& final(self)@.cells == old(self)@.cells
                },
            },
    {
        let mut dy: i8 = 0;
        while dy < size.y
            invariant
                self@.wf(),
                self.size == old(self).size,
                self@.cells == old(self)@.cells,
                0 <= dy <= size.y,
                0 <= size.x,
                anchor.x + size.x <= 128,
                anchor.y + size.y <= 128,
                forall|x: int, y: int|
                    in_rect(anchor, size, x, y) && y < anchor.y + dy ==> self@.in_range(x, y),
            decreases size.y - dy,
        {
            let mut dx: i8 = 0;
            while dx < size.x
                invariant
                    self@.wf(),
                    self.size == old(self).size,
                    self@.cells == old(self)@.cells,
                    0 <= dy < size.y,
                    0 <= dx <= size.x,
                    anchor.x + size.x <= 128,
                    anchor.y + size.y <= 128,
                    forall|x: int, y: int|
                        in_rect(anchor, size, x, y) && y < anchor.y + dy ==> self@.in_range(x, y),
                    forall|x: int, y: int|
                        anchor.x <= x < anchor.x + dx && y == anchor.y + dy ==> self@.in_range(
                            x,
                            y,
                        ),
                decreases size.x - dx,
            {
                let pos = Vec2 { x: anchor.x + dx, y: anchor.y + dy };
                if self.get(pos).is_none() {
                    return Err(GridError::OutOfBounds);
                }
                dx = dx + 1;
            }
            dy = dy + 1;
        }
        let ghost pre = self@;
        let mut dy: i8 = 0;
        while dy < size.y
            invariant
                self@.wf(),
                self@.w == pre.w,
                self@.h == pre.h,
                self.size == old(self).size,
                pre.wf(),
                pre == old(self)@,
                0 <= dy <= size.y,
                0 <= size.x,
                anchor.x + size.x <= 128,
                anchor.y + size.y <= 128,
                pre.rect_in_range(anchor, size),
                forall|x: int, y: int|
                    self@.in_range(x, y) ==> self@.at(x, y) == (if in_rect(anchor, size, x, y) && y
                        < anchor.y + dy {
                        value
                    } else {
                        pre.at(x, y)
                    }),
            decreases size.y - dy,
        {
            let mut dx: i8 = 0;
            while dx < size.x
                invariant
                    self@.wf(),
                    self@.w == pre.w,
                    self@.h == pre.h,
                    self.size == old(self).size,
                    pre.wf(),
                    0 <= dy < size.y,
                    0 <= dx <= size.x,
                    anchor.x + size.x <= 128,
                    anchor.y + size.y <= 128,
                    pre.rect_in_range(anchor, size),
                    forall|x: int, y: int|
                        self@.in_range(x, y) ==> self@.at(x, y) == (if in_rect(anchor, size, x, y)
                            && (y < anchor.y + dy || (y == anchor.y + dy && x < anchor.x + dx)) {
                            value
                        } else {
                            pre.at(x, y)
                        }),
                decreases size.x - dx,
            {
                let pos = Vec2 { x: anchor.x + dx, y: anchor.y + dy };
                proof {
                    assert(in_rect(anchor, size, pos.x as int, pos.y as int));
                    assert(pre.in_range(pos.x as int, pos.y as int));
                }
                self.set_cell(pos, value);
                dx = dx + 1;
            }
            dy = dy + 1;
        }
        Ok(())
    }
}

impl Matrix2D<i8> {
    /// As [`Matrix2D::try_fill`], but additionally fail (without
    /// modifying anything) if any target cell is not currently the
    /// empty sentinel `0`; used by board generation.
    pub fn try_fill_without_cover(&mut self, anchor: Vec2, size: Vec2, value: i8) -> (r: Result<
        (),
        GridError,
    >)
        requires
            old(self)@.wf(),
            0 <= size.x,
            0 <= size.y,
            anchor.x + size.x <= 128,
            anchor.y + size.y <= 128,
        ensures
            final(self)@.wf(),
            final(self)@.w == old(self)@.w,
            final(self)@.h == old(self)@.h,
            final(self).size == old(self).size,
            match r {
                Ok(()) => {
                    &&& old(self)@.rect_in_range(anchor, size)
                    &&& forall|x: int, y: int|
                        in_rect(anchor, size, x, y) ==> old(self)@.at(x, y) == 0
                    &&& forall|x: int, y: int|
                        final(self)@.in_range(x, y) ==> final(self)@.at(x, y) == (if in_rect(
                            anchor,
                            size,
                            x,
                            y,
                        ) {
                            value
                        } else {
                            old(self)@.at(x, y)
                        })
                },
                Err(e) => {
                    &&& final(self)@.cells == old(self)@.cells
                    &&& !(old(self)@.rect_in_range(anchor, size) && forall|x: int, y: int|
                        in_rect(anchor, size, x, y) ==> old(self)@.at(x, y) == 0)
                    &&& (e == GridError::OutOfBounds ==> !old(self)@.rect_in_range(anchor, size))
                    &&& (e == GridError::RegionOccupied ==> exists|x: int, y: int|
                        in_rect(anchor, size, x, y) && old(self)@.in_range(x, y) && old(
                            self,
                        )@.at(x, y) != 0)
                },
            },
    {
        let mut dy: i8 = 0;
        while dy < size.y
            invariant
                self@.wf(),
                self.size == old(self).size,
                self@.cells == old(self)@.cells,
                0 <= dy <= size.y,
                0 <= size.x,
                anchor.x + size.x <= 128,
                anchor.y + size.y <= 128,
                forall|x: int, y: int|
                    in_rect(anchor, size, x, y) && y < anchor.y + dy ==> self@.in_range(x, y)
                        && self@.at(x, y) == 0,
            decreases size.y - dy,
        {
            let mut dx: i8 = 0;
            while dx < size.x
                invariant
                    self@.wf(),
                    self.size == old(self).size,
                    self@.cells == old(self)@.cells,
                    0 <= dy < size.y,
                    0 <= dx <= size.x,
                    anchor.x + size.x <= 128,
                    anchor.y + size.y <= 128,
                    forall|x: int, y: int|
                        in_rect(anchor, size, x, y) && y < anchor.y + dy ==> self@.in_range(x, y)
                            && self@.at(x, y) == 0,
                    forall|x: int, y: int|
                        anchor.x <= x < anchor.x + dx && y == anchor.y + dy ==> self@.in_range(x, y)
                            && self@.at(x, y) == 0,
                decreases size.x - dx,
            {
                let pos = Vec2 { x: anchor.x + dx, y: anchor.y + dy };
                match self.get(pos) {
                    Some(v) => {
                        if *v != 0 {
                            proof {
                                let gx = pos.x as int;
                                let gy = pos.y as int;
                                assert(in_rect(anchor, size, gx, gy));
                                assert(self@.in_range(gx, gy) && self@.at(gx, gy) != 0);
                                assert(exists|x: int, y: int|
                                    in_rect(anchor, size, x, y) && old(self)@.in_range(x, y)
                                        && old(self)@.at(x, y) != 0);
                            }
                            return Err(GridError::RegionOccupied);
                        }
                    },
                    None => {
                        return Err(GridError::OutOfBounds);
                    },
                }
                dx = dx + 1;
            }
            dy = dy + 1;
        }
        self.try_fill(anchor, size, value)
    }
}

} // verus!
