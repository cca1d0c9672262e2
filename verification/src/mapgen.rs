//! The two algorithms of the core.
//!
//! `GenerateMap` populates an empty grid from a per-column height field and
//! per-column vegetation flags; `Flood` raises the waterline by one plane,
//! flooding exactly the columns reachable from the `y = 0` edge.

use vstd::prelude::*;
use crate::reach::{adjacent, col_open, lemma_edge_reachable, lemma_reachable_marked,
    lemma_reachable_open, lemma_step_reachable, neighbors_marked, reachable};
use crate::store::{col_index, lemma_col_index_bounds, lemma_col_index_injective, lemma_mul_over,
    Tile, VoxelStore};

verus! {

/// The tile generation leaves at `(x, y, z)` in a `w`-wide grid, given the
/// height field `heights` and the vegetation flags `veg`: terrain below the
/// column's height bound, baseline water elsewhere below depth 4, and a
/// single tree at the bound where it reaches past the baseline and the
/// column's vegetation flag is set.
pub open spec fn generated_tile(
    heights: Seq<usize>,
    veg: Seq<bool>,
    w: int,
    x: int,
    y: int,
    z: int,
) -> Option<Tile> {
    let hb = heights[col_index(w, x, y)] as int;
    if z < hb {
        Some(Tile::Terrain)
    } else if z < 4 {
        Some(Tile::Water)
    } else if z == hb && veg[col_index(w, x, y)] {
        Some(Tile::Trees)
    } else {
        None
    }
}

/// A height field valid for a `w` by `h` by `d` grid: one bound per column,
/// each clamped to `[1, d - 1]`.
pub open spec fn valid_height_field(heights: Seq<usize>, w: int, h: int, d: int) -> bool {
    &&& heights.len() == w * h
    &&& forall|c: int| 0 <= c < heights.len() ==> 1 <= #[trigger] heights[c] && heights[c] < d
}

/// The store holds exactly the layout generation produces from `heights`
/// and `veg`, with the waterline at its initial plane.
pub open spec fn generated(s: VoxelStore, heights: Seq<usize>, veg: Seq<bool>) -> bool {
    &&& s.wf()
    &&& valid_height_field(heights, s.grid_w(), s.grid_h(), s.grid_d())
    &&& veg.len() == s.grid_w() * s.grid_h()
    &&& s.sealevel() == 3
    &&& forall|x: int, y: int, z: int| #![trigger s.tile_at(x, y, z)]
        s.in_grid(x, y, z) ==> s.tile_at(x, y, z) == generated_tile(
            heights,
            veg,
            s.grid_w(),
            x,
            y,
            z,
        )
}

/// Flat slot of the column `(x, y)` in a `w` by `h` column table.
fn column_slot(w: usize, h: usize, x: usize, y: usize) -> (r: usize)
    requires
        x < w,
        y < h,
        w * h <= usize::MAX,
    ensures
        r == col_index(w as int, x as int, y as int),
        r < w * h,
{
    proof {
        lemma_col_index_bounds(w as int, h as int, x as int, y as int);
    }
    y * w + x
}

/// Terrain generation: builds the initial voxel layout of an empty grid.
pub struct GenerateMap;

impl GenerateMap {
    /// Populates an empty grid. Per column `(x, y)` with height bound
    /// `hb = heights[y * w + x]`: terrain voxels fill `z` in `[0, hb)`,
    /// baseline water fills what is left of `z` in `[0, 4)`, and a single
    /// tree goes directly above the terrain at `z = hb` when `hb >= 4` and
    /// the column's vegetation flag is set. Finally the waterline is put at
    /// plane 3.
    #[verifier::loop_isolation(false)]
    pub fn run(store: &mut VoxelStore, heights: &Vec<usize>, veg: &Vec<bool>)
        requires
            old(store).wf(),
            forall|x: int, y: int, z: int| #![trigger old(store).tile_at(x, y, z)]
                old(store).tile_at(x, y, z) is None,
            valid_height_field(
                heights@,
                old(store).grid_w(),
                old(store).grid_h(),
                old(store).grid_d(),
            ),
            veg@.len() == old(store).grid_w() * old(store).grid_h(),
        ensures
            final(store).grid_w() == old(store).grid_w(),
            final(store).grid_h() == old(store).grid_h(),
            final(store).grid_d() == old(store).grid_d(),
            generated(*final(store), heights@, veg@),
    {
        let (w, h, d) = store.dimensions();
        proof {
            lemma_mul_over(w as int, h as int, d as int);
        }
        let mut x: usize = 0;
        while x < w
            invariant
                x <= w,
                store.wf(),
                store.grid_w() == w,
                store.grid_h() == h,
                store.grid_d() == d,
                store.sealevel() == old(store).sealevel(),
                forall|i: int, j: int, k: int| #![trigger store.tile_at(i, j, k)]
                    store.in_grid(i, j, k) ==> store.tile_at(i, j, k) == (if i < x {
                        generated_tile(heights@, veg@, w as int, i, j, k)
                    } else {
                        None
                    }),
            decreases w - x,
        {
            let mut y: usize = 0;
            while y < h
                invariant
                    y <= h,
                    store.wf(),
                    store.grid_w() == w,
                    store.grid_h() == h,
                    store.grid_d() == d,
                    store.sealevel() == old(store).sealevel(),
                    forall|i: int, j: int, k: int| #![trigger store.tile_at(i, j, k)]
                        store.in_grid(i, j, k) ==> store.tile_at(i, j, k) == (if i < x || (i == x
                            && j < y) {
                            generated_tile(heights@, veg@, w as int, i, j, k)
                        } else {
                            None
                        }),
                decreases h - y,
            {
                let c = column_slot(w, h, x, y);
                let hb = heights[c];
                let vg = veg[c];
                let ghost done = |i: int, j: int| i < x || (i == x && j < y);
                let mut z: usize = 0;
                while z < hb
                    invariant
                        z <= hb,
                        store.wf(),
                        store.grid_w() == w,
                        store.grid_h() == h,
                        store.grid_d() == d,
                        store.sealevel() == old(store).sealevel(),
                        forall|i: int, j: int, k: int| #![trigger store.tile_at(i, j, k)]
                            store.in_grid(i, j, k) && !(i == x && j == y) ==> store.tile_at(
                                i,
                                j,
                                k,
                            ) == (if done(i, j) {
                                generated_tile(heights@, veg@, w as int, i, j, k)
                            } else {
                                None
                            }),
                        forall|k: int| #![trigger store.tile_at(x as int, y as int, k)]
                            0 <= k < z ==> store.tile_at(x as int, y as int, k) == Some(
                                Tile::Terrain,
                            ),
                        forall|k: int| #![trigger store.tile_at(x as int, y as int, k)]
                            z <= k < d ==> store.tile_at(x as int, y as int, k) is None,
                    decreases hb - z,
                {
                    store.create_voxel(x, y, z, Tile::Terrain);
                    z += 1;
                }
                while z < 4
                    invariant
                        hb <= z,
                        z <= 4 || z == hb,
                        store.wf(),
                        store.grid_w() == w,
                        store.grid_h() == h,
                        store.grid_d() == d,
                        store.sealevel() == old(store).sealevel(),
                        forall|i: int, j: int, k: int| #![trigger store.tile_at(i, j, k)]
                            store.in_grid(i, j, k) && !(i == x && j == y) ==> store.tile_at(
                                i,
                                j,
                                k,
                            ) == (if done(i, j) {
                                generated_tile(heights@, veg@, w as int, i, j, k)
                            } else {
                                None
                            }),
                        forall|k: int| #![trigger store.tile_at(x as int, y as int, k)]
                            0 <= k < hb ==> store.tile_at(x as int, y as int, k) == Some(
                                Tile::Terrain,
                            ),
                        forall|k: int| #![trigger store.tile_at(x as int, y as int, k)]
                            hb <= k < z ==> store.tile_at(x as int, y as int, k) == Some(
                                Tile::Water,
                            ),
                        forall|k: int| #![trigger store.tile_at(x as int, y as int, k)]
                            z <= k < d ==> store.tile_at(x as int, y as int, k) is None,
                    decreases 4 - z,
                {
                    store.create_voxel(x, y, z, Tile::Water);
                    z += 1;
                }
                if hb >= 4 && vg {
                    store.create_voxel(x, y, hb, Tile::Trees);
                }
                proof {
                    assert(heights@[c as int] == hb);
                    assert(veg@[c as int] == vg);
                    assert forall|k: int| 0 <= k < d implies store.tile_at(x as int, y as int, k)
                        == generated_tile(heights@, veg@, w as int, x as int, y as int, k) by {
                        assert(col_index(w as int, x as int, y as int) == c as int);
                    };
                }
                y += 1;
            }
            x += 1;
        }
        store.set_sealevel(3);
    }
}

/// The tile one flood tick leaves at `(x, y, z)`, given the state `pre` the
/// tick started from, with `p = pre.sealevel() + 1` the flood plane. An
/// unreachable column keeps its tiles. A reachable column whose flood-plane
/// coordinate is vacant (away from the seed edge) has its whole sub-column
/// below `p + 1` turned to water, sparing terrain; any other reachable
/// column turns its flood-plane coordinate alone into water.
pub open spec fn flood_new_tile(pre: VoxelStore, x: int, y: int, z: int) -> Option<Tile> {
    let s = pre.sealevel();
    let p = s + 1;
    if !reachable(pre, p, x, y) {
        pre.tile_at(x, y, z)
    } else if y >= 1 && pre.tile_at(x, y, p) is None {
        if z < s + 2 {
            if pre.tile_at(x, y, z) == Some(Tile::Terrain) {
                Some(Tile::Terrain)
            } else {
                Some(Tile::Water)
            }
        } else {
            pre.tile_at(x, y, z)
        }
    } else {
        if z == p {
            Some(Tile::Water)
        } else {
            pre.tile_at(x, y, z)
        }
    }
}

/// How one flood tick relates the store before (`pre`) to the store after
/// (`post`): same grid, the waterline one plane higher, and every
/// coordinate carrying `flood_new_tile`.
pub open spec fn flood_rel(pre: VoxelStore, post: VoxelStore) -> bool {
    &&& post.wf()
    &&& post.grid_w() == pre.grid_w()
    &&& post.grid_h() == pre.grid_h()
    &&& post.grid_d() == pre.grid_d()
    &&& post.sealevel() == pre.sealevel() + 1
    &&& forall|x: int, y: int, z: int| #![trigger post.tile_at(x, y, z)]
        pre.in_grid(x, y, z) ==> post.tile_at(x, y, z) == flood_new_tile(pre, x, y, z)
}

/// The column `(x, y)` occurs in the worklist.
spec fn in_queue(q: Seq<(usize, usize)>, x: int, y: int) -> bool {
    exists|qi: int| #![trigger q[qi]]
        0 <= qi < q.len() && q[qi].0 as int == x && q[qi].1 as int == y
}

/// Every mark is sound: set only on open, reachable columns.
spec fn marks_sound(s: VoxelStore, p: int, m: Seq<bool>) -> bool {
    forall|i: int, j: int| #![trigger m[col_index(s.grid_w(), i, j)]]
        0 <= i < s.grid_w() && 0 <= j < s.grid_h() && m[col_index(s.grid_w(), i, j)] ==> col_open(
            s,
            p,
            i,
            j,
        ) && reachable(s, p, i, j)
}

/// Every worklist entry is an in-grid, marked column.
spec fn queue_ok(s: VoxelStore, m: Seq<bool>, q: Seq<(usize, usize)>) -> bool {
    forall|qi: int| #![trigger q[qi]]
        0 <= qi < q.len() ==> (q[qi].0 as int) < s.grid_w() && (q[qi].1 as int) < s.grid_h()
            && m[col_index(s.grid_w(), q[qi].0 as int, q[qi].1 as int)]
}

/// A marked column either still waits in the worklist or already has all
/// its open neighbors marked.
spec fn frontier_ok(s: VoxelStore, p: int, m: Seq<bool>, q: Seq<(usize, usize)>) -> bool {
    forall|i: int, j: int| #![trigger m[col_index(s.grid_w(), i, j)]]
        0 <= i < s.grid_w() && 0 <= j < s.grid_h() && m[col_index(s.grid_w(), i, j)] && !in_queue(
            q,
            i,
            j,
        ) ==> neighbors_marked(s, p, m, i, j)
}

/// Every open column on the seed edge is marked.
spec fn seeds_marked(s: VoxelStore, p: int, m: Seq<bool>) -> bool {
    forall|x: int| #![trigger col_open(s, p, x, 0)]
        0 <= x < s.grid_w() && col_open(s, p, x, 0) ==> m[col_index(s.grid_w(), x, 0)]
}

/// Number of unmarked slots in a mark table.
spec fn count_unmarked(m: Seq<bool>) -> nat
    decreases m.len(),
{
    if m.len() == 0 {
        0
    } else {
        count_unmarked(m.drop_last()) + (if m.last() {
            0nat
        } else {
            1nat
        })
    }
}

proof fn lemma_count_unmarked_update(m: Seq<bool>, i: int)
    requires
        0 <= i < m.len(),
        !m[i],
    ensures
        count_unmarked(m.update(i, true)) + 1 == count_unmarked(m),
    decreases m.len(),
{
    let m2 = m.update(i, true);
    if i == m.len() - 1 {
        assert(m2.drop_last() =~= m.drop_last());
        assert(m2.last());
        assert(!m.last());
    } else {
        assert(m2.drop_last() =~= m.drop_last().update(i, true));
        assert(m2.last() == m.last());
        lemma_count_unmarked_update(m.drop_last(), i);
    }
}

/// Marking one column leaves every other column's mark alone.
proof fn lemma_mark_update(w: int, h: int, m: Seq<bool>, x: int, y: int)
    requires
        m.len() == w * h,
        0 <= x < w,
        0 <= y < h,
    ensures
        forall|i: int, j: int| #![trigger m.update(col_index(w, x, y), true)[col_index(w, i, j)]]
            0 <= i < w && 0 <= j < h && (i, j) != (x, y) ==> m.update(col_index(w, x, y), true)[
                col_index(w, i, j)] == m[col_index(w, i, j)],
        m.update(col_index(w, x, y), true)[col_index(w, x, y)],
{
    lemma_col_index_bounds(w, h, x, y);
    assert forall|i: int, j: int| #![trigger m.update(col_index(w, x, y), true)[col_index(w, i, j)]]
        0 <= i < w && 0 <= j < h && (i, j) != (x, y) implies m.update(col_index(w, x, y), true)[
        col_index(w, i, j)] == m[col_index(w, i, j)] by {
        lemma_col_index_bounds(w, h, i, j);
        if col_index(w, i, j) == col_index(w, x, y) {
            lemma_col_index_injective(w, h, i, j, x, y);
        }
    }
}

/// Growing the marks preserves `neighbors_marked`.
proof fn lemma_neighbors_marked_mono(
    s: VoxelStore,
    p: int,
    m1: Seq<bool>,
    m2: Seq<bool>,
    i: int,
    j: int,
)
    requires
        m1.len() == s.grid_w() * s.grid_h(),
        m2.len() == m1.len(),
        forall|t: int| 0 <= t < m1.len() && m1[t] ==> #[trigger] m2[t],
        neighbors_marked(s, p, m1, i, j),
    ensures
        neighbors_marked(s, p, m2, i, j),
{
    let w = s.grid_w();
    let h = s.grid_h();
    if col_open(s, p, i - 1, j) {
        lemma_col_index_bounds(w, h, i - 1, j);
    }
    if col_open(s, p, i + 1, j) {
        lemma_col_index_bounds(w, h, i + 1, j);
    }
    if col_open(s, p, i, j - 1) {
        lemma_col_index_bounds(w, h, i, j - 1);
    }
    if col_open(s, p, i, j + 1) {
        lemma_col_index_bounds(w, h, i, j + 1);
    }
}

/// One propagation step of the flood: looks at the column `(x, y)` at the
/// flood plane `p` and, when it is still unmarked and not capped by
/// terrain there, marks it and queues it so that its own neighbors get
/// checked in turn.
pub fn flood_check_part(
    store: &VoxelStore,
    p: usize,
    x: usize,
    y: usize,
    marked: &mut Vec<bool>,
    queue: &mut Vec<(usize, usize)>,
)
    requires
        store.wf(),
        p < store.grid_d(),
        x < store.grid_w(),
        y < store.grid_h(),
        old(marked)@.len() == store.grid_w() * store.grid_h(),
    ensures
        ({
            let c = col_index(store.grid_w(), x as int, y as int);
            if old(marked)@[c] || !col_open(*store, p as int, x as int, y as int) {
                final(marked)@ == old(marked)@ && final(queue)@ == old(queue)@
            } else {
                final(marked)@ == old(marked)@.update(c, true) && final(queue)@ == old(
                    queue,
                )@.push((x, y))
            }
        }),
{
    let (w, h, d) = store.dimensions();
    proof {
        lemma_mul_over(w as int, h as int, d as int);
    }
    let c = column_slot(w, h, x, y);
    if !marked[c] {
        let t = store.lookup(x, y, p);
        let opn = match t {
            Some(Tile::Terrain) => false,
            _ => true,
        };
        if opn {
            marked[c] = true;
            queue.push((x, y));
        }
    }
}

/// Marking an open, reachable column keeps the marks sound.
proof fn lemma_marks_sound_update(s: VoxelStore, p: int, m0: Seq<bool>, nx: int, ny: int)
    requires
        m0.len() == s.grid_w() * s.grid_h(),
        0 <= nx < s.grid_w(),
        0 <= ny < s.grid_h(),
        marks_sound(s, p, m0),
        col_open(s, p, nx, ny),
        reachable(s, p, nx, ny),
    ensures
        marks_sound(s, p, m0.update(col_index(s.grid_w(), nx, ny), true)),
{
    let w = s.grid_w();
    let h = s.grid_h();
    let m1 = m0.update(col_index(w, nx, ny), true);
    lemma_mark_update(w, h, m0, nx, ny);
    assert forall|i2: int, j2: int| #![trigger m1[col_index(w, i2, j2)]]
        0 <= i2 < w && 0 <= j2 < h && m1[col_index(w, i2, j2)] implies col_open(s, p, i2, j2)
        && reachable(s, p, i2, j2) by {
        if (i2, j2) != (nx, ny) {
            assert(m0[col_index(w, i2, j2)]);
        }
    }
}

/// Marking the pushed column keeps the worklist entries in-grid and marked.
proof fn lemma_queue_ok_update(
    s: VoxelStore,
    m0: Seq<bool>,
    q0: Seq<(usize, usize)>,
    nx: int,
    ny: int,
)
    requires
        m0.len() == s.grid_w() * s.grid_h(),
        0 <= nx < s.grid_w(),
        0 <= ny < s.grid_h(),
        queue_ok(s, m0, q0),
    ensures
        queue_ok(
            s,
            m0.update(col_index(s.grid_w(), nx, ny), true),
            q0.push((nx as usize, ny as usize)),
        ),
{
    let w = s.grid_w();
    let h = s.grid_h();
    let m1 = m0.update(col_index(w, nx, ny), true);
    let q1 = q0.push((nx as usize, ny as usize));
    s.lemma_dims_fit();
    lemma_mark_update(w, h, m0, nx, ny);
    assert forall|qi: int| #![trigger q1[qi]] 0 <= qi < q1.len() implies (q1[qi].0 as int) < w && (
    q1[qi].1 as int) < h && m1[col_index(w, q1[qi].0 as int, q1[qi].1 as int)] by {
        if qi < q0.len() {
            assert(q1[qi] == q0[qi]);
            if (q0[qi].0 as int, q0[qi].1 as int) != (nx, ny) {
                assert(m1[col_index(w, q0[qi].0 as int, q0[qi].1 as int)] == m0[col_index(
                    w,
                    q0[qi].0 as int,
                    q0[qi].1 as int,
                )]);
            }
        } else {
            assert(q1[qi] == (nx as usize, ny as usize));
        }
    }
}

/// A freshly marked column is the checked neighbor, and it sits in the
/// worklist.
proof fn lemma_new_mark_queued(s: VoxelStore, m0: Seq<bool>, q0: Seq<(usize, usize)>, nx: int, ny: int)
    requires
        m0.len() == s.grid_w() * s.grid_h(),
        0 <= nx < s.grid_w(),
        0 <= ny < s.grid_h(),
    ensures
        forall|i2: int, j2: int|
            #![trigger m0.update(col_index(s.grid_w(), nx, ny), true)[col_index(s.grid_w(), i2, j2)]]
            0 <= i2 < s.grid_w() && 0 <= j2 < s.grid_h() && m0.update(
                col_index(s.grid_w(), nx, ny),
                true,
            )[col_index(s.grid_w(), i2, j2)] && !m0[col_index(s.grid_w(), i2, j2)] ==> (i2, j2)
                == (nx, ny) && in_queue(q0.push((nx as usize, ny as usize)), i2, j2),
{
    let w = s.grid_w();
    let h = s.grid_h();
    let m1 = m0.update(col_index(w, nx, ny), true);
    let q1 = q0.push((nx as usize, ny as usize));
    s.lemma_dims_fit();
    lemma_mark_update(w, h, m0, nx, ny);
    let wi = q0.len() as int;
    assert(q1[wi] == (nx as usize, ny as usize));
    assert(q1[wi].0 as int == nx);
    assert(q1[wi].1 as int == ny);
    assert(in_queue(q1, nx, ny));
    assert forall|i2: int, j2: int| #![trigger m1[col_index(w, i2, j2)]]
        0 <= i2 < w && 0 <= j2 < h && m1[col_index(w, i2, j2)] && !m0[col_index(w, i2, j2)]
        implies (i2, j2) == (nx, ny) && in_queue(q1, i2, j2) by {
        if (i2, j2) != (nx, ny) {
            assert(m1[col_index(w, i2, j2)] == m0[col_index(w, i2, j2)]);
        }
    }
}

/// Glue for one neighbor check during propagation: restores the worklist
/// invariants after `flood_check_part` ran on the neighbor `(nx, ny)` of
/// the reachable column `(cx, cy)`.
proof fn flood_step_glue(
    s: VoxelStore,
    p: int,
    m0: Seq<bool>,
    q0: Seq<(usize, usize)>,
    m1: Seq<bool>,
    q1: Seq<(usize, usize)>,
    cx: int,
    cy: int,
    nx: int,
    ny: int,
)
    requires
        s.wf(),
        m0.len() == s.grid_w() * s.grid_h(),
        0 <= nx < s.grid_w(),
        0 <= ny < s.grid_h(),
        adjacent((cx, cy), (nx, ny)),
        reachable(s, p, cx, cy),
        marks_sound(s, p, m0),
        queue_ok(s, m0, q0),
        ({
            let c = col_index(s.grid_w(), nx, ny);
            if m0[c] || !col_open(s, p, nx, ny) {
                m1 == m0 && q1 == q0
            } else {
                m1 == m0.update(c, true) && q1 == q0.push((nx as usize, ny as usize))
            }
        }),
    ensures
        m1.len() == m0.len(),
        marks_sound(s, p, m1),
        queue_ok(s, m1, q1),
        forall|t: int| 0 <= t < m0.len() && m0[t] ==> #[trigger] m1[t],
        col_open(s, p, nx, ny) ==> m1[col_index(s.grid_w(), nx, ny)],
        q0.len() <= q1.len(),
        forall|qi: int| 0 <= qi < q0.len() ==> #[trigger] q1[qi] == q0[qi],
        forall|i2: int, j2: int| #![trigger m1[col_index(s.grid_w(), i2, j2)]]
            0 <= i2 < s.grid_w() && 0 <= j2 < s.grid_h() && m1[col_index(s.grid_w(), i2, j2)]
                && !m0[col_index(s.grid_w(), i2, j2)] ==> (i2, j2) == (nx, ny) && in_queue(
                q1,
                i2,
                j2,
            ),
        count_unmarked(m1) * 2 + q1.len() <= count_unmarked(m0) * 2 + q0.len(),
{
    let w = s.grid_w();
    let h = s.grid_h();
    let c = col_index(w, nx, ny);
    lemma_col_index_bounds(w, h, nx, ny);
    if m0[c] || !col_open(s, p, nx, ny) {
        assert(marks_sound(s, p, m1));
    } else {
        lemma_step_reachable(s, p, cx, cy, nx, ny);
        lemma_marks_sound_update(s, p, m0, nx, ny);
        lemma_queue_ok_update(s, m0, q0, nx, ny);
        lemma_new_mark_queued(s, m0, q0, nx, ny);
        lemma_mark_update(w, h, m0, nx, ny);
        lemma_count_unmarked_update(m0, c);
    }
}

/// A worklist entry survives appending more entries.
proof fn lemma_in_queue_extend(q1: Seq<(usize, usize)>, q2: Seq<(usize, usize)>, x: int, y: int)
    requires
        q1.len() <= q2.len(),
        forall|qi: int| 0 <= qi < q1.len() ==> #[trigger] q2[qi] == q1[qi],
        in_queue(q1, x, y),
    ensures
        in_queue(q2, x, y),
{
    let qi = choose|qi: int| #![trigger q1[qi]]
        0 <= qi < q1.len() && q1[qi].0 as int == x && q1[qi].1 as int == y;
    assert(q2[qi] == q1[qi]);
    assert(in_queue(q2, x, y));
}

/// Checks all four neighbors of the reachable column `(cx, cy)`,
/// marking and queueing those that are open and still unmarked.
#[verifier::loop_isolation(false)]
#[verifier::rlimit(100)]
fn flood_expand(
    store: &VoxelStore,
    p: usize,
    cx: usize,
    cy: usize,
    marked: &mut Vec<bool>,
    queue: &mut Vec<(usize, usize)>,
)
    requires
        store.wf(),
        p < store.grid_d(),
        cx < store.grid_w(),
        cy < store.grid_h(),
        old(marked)@.len() == store.grid_w() * store.grid_h(),
        marks_sound(*store, p as int, old(marked)@),
        queue_ok(*store, old(marked)@, old(queue)@),
        reachable(*store, p as int, cx as int, cy as int),
    ensures
        final(marked)@.len() == old(marked)@.len(),
        marks_sound(*store, p as int, final(marked)@),
        queue_ok(*store, final(marked)@, final(queue)@),
        forall|t: int| 0 <= t < old(marked)@.len() && old(marked)@[t]
            ==> #[trigger] final(marked)@[t],
        old(queue)@.len() <= final(queue)@.len(),
        forall|qi: int| 0 <= qi < old(queue)@.len()
            ==> #[trigger] final(queue)@[qi] == old(queue)@[qi],
        forall|i2: int, j2: int| #![trigger final(marked)@[col_index(store.grid_w(), i2, j2)]]
            0 <= i2 < store.grid_w() && 0 <= j2 < store.grid_h()
                && final(marked)@[col_index(store.grid_w(), i2, j2)]
                && !old(marked)@[col_index(store.grid_w(), i2, j2)]
                ==> in_queue(final(queue)@, i2, j2),
        neighbors_marked(*store, p as int, final(marked)@, cx as int, cy as int),
        count_unmarked(final(marked)@) * 2 + final(queue)@.len() <= count_unmarked(old(marked)@)
            * 2 + old(queue)@.len(),
{
    let (w, h, d) = store.dimensions();
    let ghost wI = w as int;
    let ghost hI = h as int;
    let ghost pI = p as int;
    let ghost m0 = marked@;
    let ghost q0 = queue@;
    if cx >= 1 {
        flood_check_part(store, p, cx - 1, cy, marked, queue);
        proof {
            flood_step_glue(*store, pI, m0, q0, marked@, queue@, cx as int, cy as int,
                cx as int - 1, cy as int);
        }
    }
    let ghost m1 = marked@;
    let ghost q1 = queue@;
    if cx + 1 < w {
        flood_check_part(store, p, cx + 1, cy, marked, queue);
        proof {
            flood_step_glue(*store, pI, m1, q1, marked@, queue@, cx as int, cy as int,
                cx as int + 1, cy as int);
        }
    }
    let ghost m2 = marked@;
    let ghost q2 = queue@;
    if cy >= 1 {
        flood_check_part(store, p, cx, cy - 1, marked, queue);
        proof {
            flood_step_glue(*store, pI, m2, q2, marked@, queue@, cx as int, cy as int, cx as int,
                cy as int - 1);
        }
    }
    let ghost m3 = marked@;
    let ghost q3 = queue@;
    if cy + 1 < h {
        flood_check_part(store, p, cx, cy + 1, marked, queue);
        proof {
            flood_step_glue(*store, pI, m3, q3, marked@, queue@, cx as int, cy as int, cx as int,
                cy as int + 1);
        }
    }
    proof {
        let mf = marked@;
        let qf = queue@;
        assert forall|t: int| 0 <= t < m0.len() && m0[t] implies #[trigger] mf[t] by {
            assert(m1[t]);
            assert(m2[t]);
            assert(m3[t]);
        }
        assert forall|qi: int| 0 <= qi < q0.len() implies #[trigger] qf[qi] == q0[qi] by {
            assert(q1[qi] == q0[qi]);
            assert(q2[qi] == q1[qi]);
            assert(q3[qi] == q2[qi]);
        }
        assert(neighbors_marked(*store, pI, mf, cx as int, cy as int)) by {
            if col_open(*store, pI, cx as int - 1, cy as int) {
                lemma_col_index_bounds(wI, hI, cx as int - 1, cy as int);
                assert(m1[col_index(wI, cx as int - 1, cy as int)]);
                assert(m2[col_index(wI, cx as int - 1, cy as int)]);
                assert(m3[col_index(wI, cx as int - 1, cy as int)]);
                assert(mf[col_index(wI, cx as int - 1, cy as int)]);
            }
            if col_open(*store, pI, cx as int + 1, cy as int) {
                lemma_col_index_bounds(wI, hI, cx as int + 1, cy as int);
                assert(m2[col_index(wI, cx as int + 1, cy as int)]);
                assert(m3[col_index(wI, cx as int + 1, cy as int)]);
                assert(mf[col_index(wI, cx as int + 1, cy as int)]);
            }
            if col_open(*store, pI, cx as int, cy as int - 1) {
                lemma_col_index_bounds(wI, hI, cx as int, cy as int - 1);
                assert(m3[col_index(wI, cx as int, cy as int - 1)]);
                assert(mf[col_index(wI, cx as int, cy as int - 1)]);
            }
            if col_open(*store, pI, cx as int, cy as int + 1) {
                lemma_col_index_bounds(wI, hI, cx as int, cy as int + 1);
                assert(mf[col_index(wI, cx as int, cy as int + 1)]);
            }
        }
        assert forall|i2: int, j2: int| #![trigger mf[col_index(wI, i2, j2)]]
            0 <= i2 < wI && 0 <= j2 < hI && mf[col_index(wI, i2, j2)] && !m0[col_index(
            wI,
            i2,
            j2,
        )] implies in_queue(qf, i2, j2) by {
            lemma_col_index_bounds(wI, hI, i2, j2);
            if m1[col_index(wI, i2, j2)] && !m0[col_index(wI, i2, j2)] {
                assert(in_queue(q1, i2, j2));
                lemma_in_queue_extend(q1, q2, i2, j2);
                lemma_in_queue_extend(q2, q3, i2, j2);
                lemma_in_queue_extend(q3, qf, i2, j2);
            } else if m2[col_index(wI, i2, j2)] && !m1[col_index(wI, i2, j2)] {
                assert(in_queue(q2, i2, j2));
                lemma_in_queue_extend(q2, q3, i2, j2);
                lemma_in_queue_extend(q3, qf, i2, j2);
            } else if m3[col_index(wI, i2, j2)] && !m2[col_index(wI, i2, j2)] {
                assert(in_queue(q3, i2, j2));
                lemma_in_queue_extend(q3, qf, i2, j2);
            } else {
                assert(mf[col_index(wI, i2, j2)] && !m3[col_index(wI, i2, j2)]);
                assert(in_queue(qf, i2, j2));
            }
        }
    }
}

/// Computes the flood marks for plane `p`: exactly the columns reachable
/// from the `y = 0` edge through non-terrain space at that plane. Seeds
/// the edge row, then propagates through a worklist until no frontier is
/// left.
#[verifier::loop_isolation(false)]
#[verifier::rlimit(100)]
fn compute_flood_marks(store: &VoxelStore, p: usize) -> (m: Vec<bool>)
    requires
        store.wf(),
        p < store.grid_d(),
    ensures
        m@.len() == store.grid_w() * store.grid_h(),
        forall|i: int, j: int| #![trigger m@[col_index(store.grid_w(), i, j)]]
            0 <= i < store.grid_w() && 0 <= j < store.grid_h() ==> (m@[col_index(
                store.grid_w(),
                i,
                j,
            )] <==> reachable(*store, p as int, i, j)),
{
    let (w, h, d) = store.dimensions();
    proof {
        lemma_mul_over(w as int, h as int, d as int);
    }
    let ghost wI = w as int;
    let ghost hI = h as int;
    let ghost pI = p as int;
    let wh = w * h;
    let mut marked: Vec<bool> = Vec::new();
    let mut n: usize = 0;
    while n < wh
        invariant
            n <= wh,
            marked@.len() == n,
            forall|t: int| 0 <= t < n ==> !(#[trigger] marked@[t]),
        decreases wh - n,
    {
        marked.push(false);
        n += 1;
    }
    let mut queue: Vec<(usize, usize)> = Vec::new();
    proof {
        assert forall|i: int, j: int| #![trigger marked@[col_index(wI, i, j)]]
            0 <= i < wI && 0 <= j < hI implies !marked@[col_index(wI, i, j)] by {
            lemma_col_index_bounds(wI, hI, i, j);
        }
    }
    let mut x: usize = 0;
    while x < w
        invariant
            x <= w,
            marked@.len() == wh,
            marks_sound(*store, pI, marked@),
            queue_ok(*store, marked@, queue@),
            forall|i: int, j: int| #![trigger marked@[col_index(wI, i, j)]]
                0 <= i < wI && 0 <= j < hI && marked@[col_index(wI, i, j)] ==> in_queue(
                    queue@,
                    i,
                    j,
                ),
            forall|x2: int| #![trigger col_open(*store, pI, x2, 0)]
                0 <= x2 < x && col_open(*store, pI, x2, 0) ==> marked@[col_index(wI, x2, 0)],
        decreases w - x,
    {
        let ghost m0 = marked@;
        let ghost q0 = queue@;
        flood_check_part(store, p, x, 0, &mut marked, &mut queue);
        proof {
            let c = col_index(wI, x as int, 0);
            lemma_col_index_bounds(wI, hI, x as int, 0);
            if m0[c] || !col_open(*store, pI, x as int, 0) {
                assert(marked@ == m0 && queue@ == q0);
            } else {
                lemma_edge_reachable(*store, pI, x as int);
                lemma_marks_sound_update(*store, pI, m0, x as int, 0);
                lemma_queue_ok_update(*store, m0, q0, x as int, 0);
                lemma_new_mark_queued(*store, m0, q0, x as int, 0);
                lemma_mark_update(wI, hI, m0, x as int, 0);
                assert forall|i: int, j: int| #![trigger marked@[col_index(wI, i, j)]]
                    0 <= i < wI && 0 <= j < hI && marked@[col_index(wI, i, j)] implies in_queue(
                    queue@,
                    i,
                    j,
                ) by {
                    lemma_col_index_bounds(wI, hI, i, j);
                    if m0[col_index(wI, i, j)] {
                        lemma_in_queue_extend(q0, queue@, i, j);
                    }
                }
            }
        }
        x += 1;
    }
    proof {
        assert(frontier_ok(*store, pI, marked@, queue@));
        assert(seeds_marked(*store, pI, marked@));
    }
    while queue.len() > 0
        invariant
            marked@.len() == wh,
            marks_sound(*store, pI, marked@),
            queue_ok(*store, marked@, queue@),
            frontier_ok(*store, pI, marked@, queue@),
            seeds_marked(*store, pI, marked@),
        decreases count_unmarked(marked@) * 2 + queue@.len(),
    {
        let ghost m_head = marked@;
        let ghost q_head = queue@;
        let popped = queue.pop();
        let (cx, cy) = popped.unwrap();
        proof {
            assert(q_head[q_head.len() - 1] == (cx, cy));
            assert((cx as int) < wI && (cy as int) < hI);
            lemma_col_index_bounds(wI, hI, cx as int, cy as int);
            assert(m_head[col_index(wI, cx as int, cy as int)]);
            assert(reachable(*store, pI, cx as int, cy as int));
            assert forall|qi: int| #![trigger queue@[qi]] 0 <= qi < queue@.len() implies queue@[qi]
                == q_head[qi] by {}
            assert(queue_ok(*store, marked@, queue@));
        }
        let ghost q0 = queue@;
        flood_expand(store, p, cx, cy, &mut marked, &mut queue);
        proof {
            let mf = marked@;
            let qf = queue@;
            // the frontier condition holds again for every marked column
            assert forall|i: int, j: int| #![trigger mf[col_index(wI, i, j)]]
                0 <= i < wI && 0 <= j < hI && mf[col_index(wI, i, j)] && !in_queue(qf, i, j)
                implies neighbors_marked(*store, pI, mf, i, j) by {
                lemma_col_index_bounds(wI, hI, i, j);
                if i == cx as int && j == cy as int {
                    assert(neighbors_marked(*store, pI, mf, i, j));
                } else if m_head[col_index(wI, i, j)] {
                    if in_queue(q_head, i, j) {
                        let qi = choose|qi: int| #![trigger q_head[qi]]
                            0 <= qi < q_head.len() && q_head[qi].0 as int == i && q_head[qi].1
                                as int == j;
                        if qi < q_head.len() - 1 {
                            assert(q0[qi] == q_head[qi]);
                            assert(qf[qi] == q0[qi]);
                            assert(in_queue(qf, i, j));
                        } else {
                            assert(q_head[qi] == (cx, cy));
                        }
                    } else {
                        assert(neighbors_marked(*store, pI, m_head, i, j));
                        lemma_neighbors_marked_mono(*store, pI, m_head, mf, i, j);
                    }
                } else {
                    assert(in_queue(qf, i, j));
                }
            }
            // the seed row stays covered: the marks only grew
            assert forall|x2: int| #![trigger col_open(*store, pI, x2, 0)]
                0 <= x2 < wI && col_open(*store, pI, x2, 0) implies marked@[col_index(
                wI,
                x2,
                0,
            )] by {
                lemma_col_index_bounds(wI, hI, x2, 0);
                assert(m_head[col_index(wI, x2, 0)]);
            }
            // the measure shrank: the pop paid for the body
            assert(count_unmarked(mf) * 2 + qf.len() <= count_unmarked(m_head) * 2 + q_head.len()
                - 1);
        }
    }
    proof {
        assert forall|i: int, j: int| #![trigger marked@[col_index(wI, i, j)]]
            0 <= i < wI && 0 <= j < hI implies (marked@[col_index(wI, i, j)] <==> reachable(
            *store,
            pI,
            i,
            j,
        )) by {
            lemma_col_index_bounds(wI, hI, i, j);
            if reachable(*store, pI, i, j) {
                assert forall|i2: int, j2: int| #![trigger marked@[col_index(wI, i2, j2)]]
                    0 <= i2 < wI && 0 <= j2 < hI && marked@[col_index(wI, i2, j2)] implies
                    neighbors_marked(*store, pI, marked@, i2, j2) by {
                    assert(!in_queue(queue@, i2, j2));
                }
                lemma_reachable_marked(*store, pI, marked@, i, j);
            }
        }
    }
    marked
}

/// The flood tick: raises the sea by one plane.
pub struct Flood;

impl Flood {
    /// One flood tick. With `s = current_sealevel`: finds the columns at
    /// plane `s + 1` reachable from the `y = 0` edge through non-terrain
    /// space, commits water there — filling the whole sub-column below
    /// `s + 2` where the plane coordinate was vacant away from the seed
    /// edge, creating voxels where none existed and overwriting
    /// non-terrain kinds in place — and advances the waterline to `s + 1`.
    /// The tick asks that the plane above the waterline still lies inside
    /// the grid: the sea cannot rise past the world's depth.
    #[verifier::loop_isolation(false)]
    #[verifier::rlimit(100)]
    pub fn run(store: &mut VoxelStore)
        requires
            old(store).wf(),
            old(store).sealevel() + 2 <= old(store).grid_d(),
        ensures
            flood_rel(*old(store), *final(store)),
    {
        let (w, h, d) = store.dimensions();
        let s = store.current_sealevel();
        let p = s + 1;
        let ghost pre = *store;
        let ghost wI = w as int;
        let ghost hI = h as int;
        let ghost pI = p as int;
        proof {
            lemma_mul_over(wI, hI, d as int);
        }
        let marks = compute_flood_marks(store, p);
        proof {
            assert forall|i: int, j: int| #![trigger marks@[col_index(wI, i, j)]]
                0 <= i < wI && 0 <= j < hI implies (marks@[col_index(wI, i, j)] <==> reachable(
                pre,
                pI,
                i,
                j,
            )) by {}
        }
        let mut x: usize = 0;
        while x < w
            invariant
                x <= w,
                store.wf(),
                store.grid_w() == w,
                store.grid_h() == h,
                store.grid_d() == d,
                store.sealevel() == s,
                forall|i: int, j: int, k: int| #![trigger store.tile_at(i, j, k)]
                    pre.in_grid(i, j, k) ==> store.tile_at(i, j, k) == (if i < x {
                        flood_new_tile(pre, i, j, k)
                    } else {
                        pre.tile_at(i, j, k)
                    }),
            decreases w - x,
        {
            let mut y: usize = 0;
            while y < h
                invariant
                    y <= h,
                    x < w,
                    store.wf(),
                    store.grid_w() == w,
                    store.grid_h() == h,
                    store.grid_d() == d,
                    store.sealevel() == s,
                    forall|i: int, j: int, k: int| #![trigger store.tile_at(i, j, k)]
                        pre.in_grid(i, j, k) ==> store.tile_at(i, j, k) == (if i < x || (i == x
                            && j < y) {
                            flood_new_tile(pre, i, j, k)
                        } else {
                            pre.tile_at(i, j, k)
                        }),
                decreases h - y,
            {
                let c = column_slot(w, h, x, y);
                let ghost xi = x as int;
                let ghost yi = y as int;
                if marks[c] {
                    proof {
                        assert(marks@[col_index(wI, xi, yi)]);
                        assert(reachable(pre, pI, xi, yi));
                        lemma_reachable_open(pre, pI, xi, yi);
                    }
                    let t = store.lookup(x, y, p);
                    proof {
                        assert(t == pre.tile_at(xi, yi, pI));
                    }
                    if y >= 1 && t.is_none() {
                        let mut z: usize = 0;
                        while z < s + 2
                            invariant
                                z <= s + 2,
                                store.wf(),
                                store.grid_w() == w,
                                store.grid_h() == h,
                                store.grid_d() == d,
                                store.sealevel() == s,
                                forall|i: int, j: int, k: int| #![trigger store.tile_at(i, j, k)]
                                    pre.in_grid(i, j, k) && !(i == xi && j == yi)
                                        ==> store.tile_at(i, j, k) == (if i < x || (i == x && j
                                        < y) {
                                        flood_new_tile(pre, i, j, k)
                                    } else {
                                        pre.tile_at(i, j, k)
                                    }),
                                forall|k: int| #![trigger store.tile_at(xi, yi, k)]
                                    0 <= k < z ==> store.tile_at(xi, yi, k) == flood_new_tile(
                                        pre,
                                        xi,
                                        yi,
                                        k,
                                    ),
                                forall|k: int| #![trigger store.tile_at(xi, yi, k)]
                                    z <= k < d ==> store.tile_at(xi, yi, k) == pre.tile_at(
                                        xi,
                                        yi,
                                        k,
                                    ),
                            decreases s + 2 - z,
                        {
                            let tz = store.lookup(x, y, z);
                            match tz {
                                Some(Tile::Terrain) => {},
                                Some(_) => store.set_tile(x, y, z, Tile::Water),
                                None => store.create_voxel(x, y, z, Tile::Water),
                            }
                            z += 1;
                        }
                    } else {
                        match t {
                            Some(_) => store.set_tile(x, y, p, Tile::Water),
                            None => store.create_voxel(x, y, p, Tile::Water),
                        }
                    }
                } else {
                    proof {
                        assert(!reachable(pre, pI, xi, yi));
                    }
                }
                proof {
                    assert forall|k: int| 0 <= k < d implies store.tile_at(xi, yi, k)
                        == flood_new_tile(pre, xi, yi, k) by {}
                }
                y += 1;
            }
            x += 1;
        }
        store.set_sealevel(p);
    }
}

} // verus!
