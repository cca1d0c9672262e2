//! Library-wide guarantees, proved once and for all.
//!
//! These proof functions state what holds of every generated grid and of
//! every flood tick: baseline occupancy, permanence of terrain, the
//! one-tree-per-column rule, and the connectivity contract of the flood.

use vstd::prelude::*;
use crate::mapgen::{flood_new_tile, flood_rel, generated, generated_tile};
use crate::reach::{lemma_reachable_open, reachable};
use crate::store::{col_index, lemma_col_index_bounds, Tile, VoxelStore};

verus! {

/// Every tree voxel sits directly above a terrain voxel and is the only
/// tree of its column.
pub open spec fn trees_ok(s: VoxelStore) -> bool {
    forall|x: int, y: int, z: int| #![trigger s.tile_at(x, y, z)]
        s.in_grid(x, y, z) && s.tile_at(x, y, z) == Some(Tile::Trees) ==> z >= 1 && s.tile_at(
            x,
            y,
            z - 1,
        ) == Some(Tile::Terrain) && (forall|z2: int| #![trigger s.tile_at(x, y, z2)]
            0 <= z2 < s.grid_d() && z2 != z ==> s.tile_at(x, y, z2) != Some(Tile::Trees))
}

/// After generation, every coordinate of the baseline ocean depth — `z` in
/// `[0, 4)` — is occupied.
pub proof fn lemma_baseline_occupied(
    s: VoxelStore,
    heights: Seq<usize>,
    veg: Seq<bool>,
    x: int,
    y: int,
    z: int,
)
    requires
        generated(s, heights, veg),
        s.in_grid(x, y, z),
        z < 4,
    ensures
        s.tile_at(x, y, z) is Some,
{
    lemma_col_index_bounds(s.grid_w(), s.grid_h(), x, y);
    assert(heights[col_index(s.grid_w(), x, y)] >= 1);
}

/// After generation, trees are single per column and sit directly above
/// terrain.
pub proof fn lemma_generated_trees_ok(s: VoxelStore, heights: Seq<usize>, veg: Seq<bool>)
    requires
        generated(s, heights, veg),
    ensures
        trees_ok(s),
{
    let w = s.grid_w();
    assert forall|x: int, y: int, z: int| #![trigger s.tile_at(x, y, z)]
        s.in_grid(x, y, z) && s.tile_at(x, y, z) == Some(Tile::Trees) implies z >= 1 && s.tile_at(
        x,
        y,
        z - 1,
    ) == Some(Tile::Terrain) && (forall|z2: int| #![trigger s.tile_at(x, y, z2)]
        0 <= z2 < s.grid_d() && z2 != z ==> s.tile_at(x, y, z2) != Some(Tile::Trees)) by {
        lemma_col_index_bounds(w, s.grid_h(), x, y);
        let hb = heights[col_index(w, x, y)] as int;
        assert(generated_tile(heights, veg, w, x, y, z) == Some(Tile::Trees));
        assert(z == hb && z >= 4);
        assert(s.tile_at(x, y, z - 1) == generated_tile(heights, veg, w, x, y, z - 1));
        assert forall|z2: int| #![trigger s.tile_at(x, y, z2)]
            0 <= z2 < s.grid_d() && z2 != z implies s.tile_at(x, y, z2) != Some(Tile::Trees) by {
            assert(s.tile_at(x, y, z2) == generated_tile(heights, veg, w, x, y, z2));
        }
    }
}

/// A flood tick never touches terrain: a terrain voxel stays terrain.
pub proof fn lemma_flood_preserves_terrain(pre: VoxelStore, post: VoxelStore, x: int, y: int, z: int)
    requires
        flood_rel(pre, post),
        pre.in_grid(x, y, z),
        pre.tile_at(x, y, z) == Some(Tile::Terrain),
    ensures
        post.tile_at(x, y, z) == Some(Tile::Terrain),
{
    let p = pre.sealevel() + 1;
    if reachable(pre, p, x, y) {
        lemma_reachable_open(pre, p, x, y);
    }
}

/// A flood tick cannot plant or move trees: the one-tree-per-column rule
/// survives it.
pub proof fn lemma_flood_preserves_trees_ok(pre: VoxelStore, post: VoxelStore)
    requires
        flood_rel(pre, post),
        trees_ok(pre),
    ensures
        trees_ok(post),
{
    let p = pre.sealevel() + 1;
    assert forall|x: int, y: int, z: int| #![trigger post.tile_at(x, y, z)]
        post.in_grid(x, y, z) && post.tile_at(x, y, z) == Some(Tile::Trees) implies z >= 1
        && post.tile_at(x, y, z - 1) == Some(Tile::Terrain) && (forall|z2: int|
        #![trigger post.tile_at(x, y, z2)]
        0 <= z2 < post.grid_d() && z2 != z ==> post.tile_at(x, y, z2) != Some(Tile::Trees)) by {
        assert(pre.in_grid(x, y, z));
        assert(post.tile_at(x, y, z) == flood_new_tile(pre, x, y, z));
        if reachable(pre, p, x, y) {
            lemma_reachable_open(pre, p, x, y);
        }
        assert(pre.tile_at(x, y, z) == Some(Tile::Trees));
        assert(pre.tile_at(x, y, z - 1) == Some(Tile::Terrain));
        lemma_flood_preserves_terrain(pre, post, x, y, z - 1);
        assert forall|z2: int| #![trigger post.tile_at(x, y, z2)]
            0 <= z2 < post.grid_d() && z2 != z implies post.tile_at(x, y, z2) != Some(
            Tile::Trees,
        ) by {
            assert(post.tile_at(x, y, z2) == flood_new_tile(pre, x, y, z2));
        }
    }
}

/// The connectivity contract of a flood tick at its plane `p = s + 1`: a
/// reachable column carries water there afterwards, and an unreachable
/// column's plane coordinate is untouched.
pub proof fn lemma_flood_connectivity(pre: VoxelStore, post: VoxelStore, x: int, y: int)
    requires
        flood_rel(pre, post),
        0 <= x < pre.grid_w(),
        0 <= y < pre.grid_h(),
        0 <= pre.sealevel() + 1 < pre.grid_d(),
    ensures
        reachable(pre, pre.sealevel() + 1, x, y) ==> post.tile_at(x, y, pre.sealevel() + 1)
            == Some(Tile::Water),
        !reachable(pre, pre.sealevel() + 1, x, y) ==> post.tile_at(x, y, pre.sealevel() + 1)
            == pre.tile_at(x, y, pre.sealevel() + 1),
{
    let p = pre.sealevel() + 1;
    assert(pre.in_grid(x, y, p));
    assert(post.tile_at(x, y, p) == flood_new_tile(pre, x, y, p));
    if reachable(pre, p, x, y) {
        lemma_reachable_open(pre, p, x, y);
    }
}

/// A reachable column whose flood-plane coordinate was vacant, away from
/// the seed edge, has its whole sub-column below `s + 2` turned to water,
/// terrain excepted.
pub proof fn lemma_flood_fills_subcolumn(pre: VoxelStore, post: VoxelStore, x: int, y: int, z: int)
    requires
        flood_rel(pre, post),
        pre.in_grid(x, y, z),
        1 <= y,
        reachable(pre, pre.sealevel() + 1, x, y),
        pre.tile_at(x, y, pre.sealevel() + 1) is None,
        z < pre.sealevel() + 2,
        pre.tile_at(x, y, z) != Some(Tile::Terrain),
    ensures
        post.tile_at(x, y, z) == Some(Tile::Water),
{
}

} // verus!
