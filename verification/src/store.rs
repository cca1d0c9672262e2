//! Dense, coordinate-keyed voxel storage.
//!
//! A `VoxelStore` maps each in-grid coordinate `(x, y, z)` to at most one
//! tile. Cells live in one flat vector indexed by `(z * h + y) * w + x`, so a
//! coordinate can never hold two tiles at once. The store also owns the
//! grid's `current_sealevel`.

use vstd::prelude::*;

verus! {

/// The kind of voxel occupying a coordinate.
#[derive(Clone, Copy, Debug, PartialEq, Eq, Structural)]
pub enum Tile {
    Terrain,
    Water,
    Trees,
}

/// Grid configurations the core rejects before any generation runs.
#[derive(Clone, Copy, Debug, PartialEq, Eq, Structural)]
pub enum ConfigError {
    /// A dimension is zero, or the depth cannot hold the baseline ocean.
    BadDimensions,
    /// The cell count `w * h * d` does not fit in `usize`.
    TooLarge,
}

/// A bounded voxel grid: dimensions, the waterline, and one optional tile
/// per coordinate.
pub struct VoxelStore {
    w: usize,
    h: usize,
    d: usize,
    current_sealevel: usize,
    cells: Vec<Option<Tile>>,
}

/// Flat index of `(x, y, z)` in a `w` by `h` by `d` grid.
pub open spec fn flat_index(w: int, h: int, x: int, y: int, z: int) -> int {
    (z * h + y) * w + x
}

/// Index of the column `(x, y)` in a `w`-wide grid.
pub open spec fn col_index(w: int, x: int, y: int) -> int {
    y * w + x
}

/// A column index is in range and its arithmetic cannot overflow.
pub proof fn lemma_col_index_bounds(w: int, h: int, x: int, y: int)
    by (nonlinear_arith)
    requires
        0 <= x < w,
        0 <= y < h,
    ensures
        0 <= y * w,
        y * w <= y * w + x < w * h,
{
}

/// Distinct in-grid columns have distinct column indices.
pub proof fn lemma_col_index_injective(w: int, h: int, x1: int, y1: int, x2: int, y2: int)
    by (nonlinear_arith)
    requires
        0 <= x1 < w,
        0 <= y1 < h,
        0 <= x2 < w,
        0 <= y2 < h,
        y1 * w + x1 == y2 * w + x2,
    ensures
        x1 == x2,
        y1 == y2,
{
}

/// For positive factors, a product of two is no larger than the product of
/// three.
pub proof fn lemma_mul_over(w: int, h: int, d: int)
    by (nonlinear_arith)
    requires
        w >= 1,
        h >= 1,
        d >= 1,
    ensures
        w * h <= w * h * d,
{
}

proof fn lemma_flat_index_bounds(w: int, h: int, d: int, x: int, y: int, z: int)
    by (nonlinear_arith)
    requires
        0 <= x < w,
        0 <= y < h,
        0 <= z < d,
    ensures
        0 <= z * h,
        z * h + y <= (z * h + y) * w + x,
        0 <= (z * h + y) * w + x < w * h * d,
{
}

proof fn lemma_flat_index_injective(
    w: int,
    h: int,
    d: int,
    x1: int,
    y1: int,
    z1: int,
    x2: int,
    y2: int,
    z2: int,
)
    by (nonlinear_arith)
    requires
        0 <= x1 < w,
        0 <= y1 < h,
        0 <= z1 < d,
        0 <= x2 < w,
        0 <= y2 < h,
        0 <= z2 < d,
        (z1 * h + y1) * w + x1 == (z2 * h + y2) * w + x2,
    ensures
        x1 == x2,
        y1 == y2,
        z1 == z2,
{
}

impl VoxelStore {
    /// The plane of the current waterline; set to 3 by generation and
    /// raised by 1 on every flood tick.
    pub closed spec fn sealevel(self) -> int {
        self.current_sealevel as int
    }

    /// Grid extent along x.
    pub closed spec fn grid_w(self) -> int {
        self.w as int
    }

    /// Grid extent along y.
    pub closed spec fn grid_h(self) -> int {
        self.h as int
    }

    /// Grid extent along z (depth).
    pub closed spec fn grid_d(self) -> int {
        self.d as int
    }

    /// A coordinate lies inside the grid.
    pub open spec fn in_grid(self, x: int, y: int, z: int) -> bool {
        0 <= x < self.grid_w() && 0 <= y < self.grid_h() && 0 <= z < self.grid_d()
    }

    /// The backing vector holds exactly one cell per coordinate.
    pub closed spec fn storage_ok(self) -> bool {
        self.cells@.len() == self.grid_w() * self.grid_h() * self.grid_d()
    }

    /// Well-formedness: valid dimensions and one cell per coordinate.
    pub open spec fn wf(self) -> bool {
        &&& self.grid_w() >= 1
        &&& self.grid_h() >= 1
        &&& self.grid_d() >= 4
        &&& self.grid_w() * self.grid_h() * self.grid_d() <= usize::MAX
        &&& self.storage_ok()
    }

    /// The grid extents each fit in `usize`.
    pub proof fn lemma_dims_fit(self)
        ensures
            0 <= self.grid_w() <= usize::MAX,
            0 <= self.grid_h() <= usize::MAX,
            0 <= self.grid_d() <= usize::MAX,
    {
    }

    /// The tile occupying a coordinate; `None` for empty or out-of-grid.
    pub closed spec fn tile_at(self, x: int, y: int, z: int) -> Option<Tile> {
        if self.in_grid(x, y, z) {
            self.cells@[flat_index(self.grid_w(), self.grid_h(), x, y, z)]
        } else {
            None
        }
    }

    /// Builds an empty store, rejecting dimensions the algorithms cannot
    /// use: every dimension must be positive, the depth must hold the
    /// baseline ocean (at least 4), and the cell count must be addressable.
    pub fn new(w: usize, h: usize, d: usize) -> (r: Result<VoxelStore, ConfigError>)
        ensures
            match r {
                Ok(s) => {
                    &&& s.wf()
                    &&& s.grid_w() == w
                    &&& s.grid_h() == h
                    &&& s.grid_d() == d
                    &&& s.sealevel() == 0
                    &&& forall|x: int, y: int, z: int| s.tile_at(x, y, z) is None
                    &&& w >= 1 && h >= 1 && d >= 4 && w * h * d <= usize::MAX
                },
                Err(e) => {
                    &&& (e == ConfigError::BadDimensions <==> (w < 1 || h < 1 || d < 4))
                    &&& (e == ConfigError::TooLarge <==> (w >= 1 && h >= 1 && d >= 4
                        && w * h * d > usize::MAX))
                },
            },
            r is Ok <==> (w >= 1 && h >= 1 && d >= 4 && w * h * d <= usize::MAX),
    {
        if w < 1 || h < 1 || d < 4 {
            return Err(ConfigError::BadDimensions);
        }
        let wh = match w.checked_mul(h) {
            Some(v) => v,
            None => {
                proof {
                    lemma_mul_over(w as int, h as int, d as int);
                }
                return Err(ConfigError::TooLarge);
            },
        };
        let whd = match wh.checked_mul(d) {
            Some(v) => v,
            None => {
                return Err(ConfigError::TooLarge);
            },
        };
        let mut cells: Vec<Option<Tile>> = Vec::new();
        let mut i: usize = 0;
        while i < whd
            invariant
                i <= whd,
                cells@.len() == i,
                forall|j: int| 0 <= j < i ==> cells@[j] is None,
            decreases whd - i,
        {
            cells.push(None);
            i += 1;
        }
        let s = VoxelStore { w, h, d, current_sealevel: 0, cells };
        proof {
            assert forall|x: int, y: int, z: int| s.tile_at(x, y, z) is None by {
                if s.in_grid(x, y, z) {
                    lemma_flat_index_bounds(w as int, h as int, d as int, x, y, z);
                }
            }
        }
        Ok(s)
    }

    /// Reads the current waterline plane.
    pub fn current_sealevel(&self) -> (r: usize)
        ensures
            r == self.sealevel(),
    {
        self.current_sealevel
    }

    /// Sets the waterline plane, leaving every voxel in place.
    pub fn set_sealevel(&mut self, s: usize)
        ensures
            final(self).wf() == old(self).wf(),
            final(self).grid_w() == old(self).grid_w(),
            final(self).grid_h() == old(self).grid_h(),
            final(self).grid_d() == old(self).grid_d(),
            final(self).sealevel() == s,
            forall|i: int, j: int, k: int|
                #![trigger final(self).tile_at(i, j, k)]
                final(self).tile_at(i, j, k) == old(self).tile_at(i, j, k),
    {
        self.current_sealevel = s;
    }

    /// The grid dimensions `(w, h, d)`.
    pub fn dimensions(&self) -> (r: (usize, usize, usize))
        ensures
            r.0 == self.grid_w(),
            r.1 == self.grid_h(),
            r.2 == self.grid_d(),
    {
        (self.w, self.h, self.d)
    }

    /// Flat index of an in-grid coordinate.
    fn cell_index(&self, x: usize, y: usize, z: usize) -> (r: usize)
        requires
            self.wf(),
            self.in_grid(x as int, y as int, z as int),
        ensures
            r == flat_index(self.grid_w(), self.grid_h(), x as int, y as int, z as int),
            r < self.cells@.len(),
    {
        proof {
            lemma_flat_index_bounds(
                self.grid_w(),
                self.grid_h(),
                self.grid_d(),
                x as int,
                y as int,
                z as int,
            );
        }
        (z * self.h + y) * self.w + x
    }

    /// Occupancy check by coordinate: the tile there, if any.
    pub fn lookup(&self, x: usize, y: usize, z: usize) -> (r: Option<Tile>)
        requires
            self.wf(),
            self.in_grid(x as int, y as int, z as int),
        ensures
            r == self.tile_at(x as int, y as int, z as int),
    {
        let i = self.cell_index(x, y, z);
        self.cells[i]
    }

    /// Creates a voxel at a free coordinate.
    pub fn create_voxel(&mut self, x: usize, y: usize, z: usize, t: Tile)
        requires
            old(self).wf(),
            old(self).in_grid(x as int, y as int, z as int),
            old(self).tile_at(x as int, y as int, z as int) is None,
        ensures
            final(self).wf(),
            final(self).grid_w() == old(self).grid_w(),
            final(self).grid_h() == old(self).grid_h(),
            final(self).grid_d() == old(self).grid_d(),
            final(self).sealevel() == old(self).sealevel(),
            final(self).tile_at(x as int, y as int, z as int) == Some(t),
            forall|i: int, j: int, k: int|
                #![trigger final(self).tile_at(i, j, k)]
                (i, j, k) != (x as int, y as int, z as int) ==> final(self).tile_at(i, j, k)
                    == old(self).tile_at(i, j, k),
    {
        self.write_cell(x, y, z, t);
    }

    /// Overwrites the kind of an existing voxel in place.
    pub fn set_tile(&mut self, x: usize, y: usize, z: usize, t: Tile)
        requires
            old(self).wf(),
            old(self).in_grid(x as int, y as int, z as int),
            old(self).tile_at(x as int, y as int, z as int) is Some,
        ensures
            final(self).wf(),
            final(self).grid_w() == old(self).grid_w(),
            final(self).grid_h() == old(self).grid_h(),
            final(self).grid_d() == old(self).grid_d(),
            final(self).sealevel() == old(self).sealevel(),
            final(self).tile_at(x as int, y as int, z as int) == Some(t),
            forall|i: int, j: int, k: int|
                #![trigger final(self).tile_at(i, j, k)]
                (i, j, k) != (x as int, y as int, z as int) ==> final(self).tile_at(i, j, k)
                    == old(self).tile_at(i, j, k),
    {
        self.write_cell(x, y, z, t);
    }

    /// Shared write path for creation and overwrite.
    fn write_cell(&mut self, x: usize, y: usize, z: usize, t: Tile)
        requires
            old(self).wf(),
            old(self).in_grid(x as int, y as int, z as int),
        ensures
            final(self).wf(),
            final(self).grid_w() == old(self).grid_w(),
            final(self).grid_h() == old(self).grid_h(),
            final(self).grid_d() == old(self).grid_d(),
            final(self).sealevel() == old(self).sealevel(),
            final(self).tile_at(x as int, y as int, z as int) == Some(t),
            forall|i: int, j: int, k: int|
                #![trigger final(self).tile_at(i, j, k)]
                (i, j, k) != (x as int, y as int, z as int) ==> final(self).tile_at(i, j, k)
                    == old(self).tile_at(i, j, k),
    {
        let i = self.cell_index(x, y, z);
        self.cells[i] = Some(t);
        proof {
            let w = self.grid_w();
            let h = self.grid_h();
            let d = self.grid_d();
            assert forall|i2: int, j2: int, k2: int|
                #![trigger self.tile_at(i2, j2, k2)]
                (i2, j2, k2) != (x as int, y as int, z as int) implies self.tile_at(i2, j2, k2)
                    == old(self).tile_at(i2, j2, k2) by {
                if self.in_grid(i2, j2, k2) {
                    lemma_flat_index_bounds(w, h, d, i2, j2, k2);
                    if flat_index(w, h, i2, j2, k2) == flat_index(w, h, x as int, y as int, z as int) {
                        lemma_flat_index_injective(
                            w,
                            h,
                            d,
                            i2,
                            j2,
                            k2,
                            x as int,
                            y as int,
                            z as int,
                        );
                    }
                }
            }
        }
    }
}

} // verus!
