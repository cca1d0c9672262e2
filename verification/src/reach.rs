//! Connectivity of columns at the flood plane.
//!
//! A flood tick converts exactly the columns that are reachable from the
//! grid's `y = 0` edge through columns not capped by terrain at the target
//! plane. Reachability is phrased over chains of open, 4-adjacent columns.

use vstd::prelude::*;
use crate::store::{col_index, Tile, VoxelStore};

verus! {

/// A column is open at plane `p`: inside the grid and not capped by a
/// terrain voxel there.
pub open spec fn col_open(s: VoxelStore, p: int, x: int, y: int) -> bool {
    &&& 0 <= x < s.grid_w()
    &&& 0 <= y < s.grid_h()
    &&& s.tile_at(x, y, p) != Some(Tile::Terrain)
}

/// Two columns share an edge of the 2-D column grid.
pub open spec fn adjacent(a: (int, int), b: (int, int)) -> bool {
    ||| a.0 == b.0 && (a.1 == b.1 + 1 || a.1 + 1 == b.1)
    ||| a.1 == b.1 && (a.0 == b.0 + 1 || a.0 + 1 == b.0)
}

/// A chain of open columns at plane `p`: it starts on the `y = 0` edge and
/// every step moves to a 4-neighbor.
pub open spec fn is_flood_path(s: VoxelStore, p: int, path: Seq<(int, int)>) -> bool {
    &&& path.len() > 0
    &&& path[0].1 == 0
    &&& forall|i: int| #![trigger path[i]]
        0 <= i < path.len() ==> col_open(s, p, path[i].0, path[i].1)
    &&& forall|i: int| #![trigger path[i]]
        1 <= i < path.len() ==> adjacent(path[i - 1], path[i])
}

/// The column `(x, y)` is reachable from the `y = 0` edge through open
/// columns at plane `p`.
pub open spec fn reachable(s: VoxelStore, p: int, x: int, y: int) -> bool {
    exists|path: Seq<(int, int)>| is_flood_path(s, p, path) && path.last() == (x, y)
}

/// An open column on the seed edge is reachable by itself.
pub proof fn lemma_edge_reachable(s: VoxelStore, p: int, x: int)
    requires
        col_open(s, p, x, 0),
    ensures
        reachable(s, p, x, 0),
{
    let path: Seq<(int, int)> = seq![(x, 0int)];
    assert(path[0] == (x, 0int));
    assert(is_flood_path(s, p, path));
    assert(path.last() == (x, 0int));
}

/// Reachability spreads to any open 4-neighbor.
pub proof fn lemma_step_reachable(s: VoxelStore, p: int, ax: int, ay: int, bx: int, by: int)
    requires
        reachable(s, p, ax, ay),
        adjacent((ax, ay), (bx, by)),
        col_open(s, p, bx, by),
    ensures
        reachable(s, p, bx, by),
{
    let path = choose|path: Seq<(int, int)>|
        is_flood_path(s, p, path) && path.last() == (ax, ay);
    let ext = path.push((bx, by));
    assert(ext[0] == path[0]);
    assert forall|i: int| #![trigger ext[i]]
        0 <= i < ext.len() implies col_open(s, p, ext[i].0, ext[i].1) by {
        if i < path.len() {
            assert(ext[i] == path[i]);
        } else {
            assert(ext[i] == (bx, by));
        }
    }
    assert forall|i: int| #![trigger ext[i]]
        1 <= i < ext.len() implies adjacent(ext[i - 1], ext[i]) by {
        if i < path.len() {
            assert(ext[i] == path[i]);
            assert(ext[i - 1] == path[i - 1]);
        } else {
            assert(ext[i - 1] == path[path.len() - 1]);
            assert(ext[i] == (bx, by));
        }
    }
    assert(is_flood_path(s, p, ext));
    assert(ext.last() == (bx, by));
}

/// A reachable column is itself open.
pub proof fn lemma_reachable_open(s: VoxelStore, p: int, x: int, y: int)
    requires
        reachable(s, p, x, y),
    ensures
        col_open(s, p, x, y),
{
    let path = choose|path: Seq<(int, int)>|
        is_flood_path(s, p, path) && path.last() == (x, y);
    assert(col_open(s, p, path[path.len() - 1].0, path[path.len() - 1].1));
}

/// Every open neighbor of the column `(i, j)` is marked in `m` (columns are
/// keyed by `col_index`).
pub open spec fn neighbors_marked(s: VoxelStore, p: int, m: Seq<bool>, i: int, j: int) -> bool {
    let w = s.grid_w();
    &&& (col_open(s, p, i - 1, j) ==> m[col_index(w, i - 1, j)])
    &&& (col_open(s, p, i + 1, j) ==> m[col_index(w, i + 1, j)])
    &&& (col_open(s, p, i, j - 1) ==> m[col_index(w, i, j - 1)])
    &&& (col_open(s, p, i, j + 1) ==> m[col_index(w, i, j + 1)])
}

/// A mark assignment that contains every open edge column and is closed
/// under open adjacency covers the endpoint of every flood path.
proof fn lemma_path_marked(s: VoxelStore, p: int, m: Seq<bool>, path: Seq<(int, int)>)
    requires
        forall|x: int| #![trigger col_open(s, p, x, 0)]
            0 <= x < s.grid_w() && col_open(s, p, x, 0) ==> m[col_index(s.grid_w(), x, 0)],
        forall|i: int, j: int| #![trigger m[col_index(s.grid_w(), i, j)]]
            0 <= i < s.grid_w() && 0 <= j < s.grid_h() && m[col_index(s.grid_w(), i, j)]
                ==> neighbors_marked(s, p, m, i, j),
        is_flood_path(s, p, path),
    ensures
        m[col_index(s.grid_w(), path.last().0, path.last().1)],
    decreases path.len(),
{
    let w = s.grid_w();
    let n = path.len() as int;
    assert(col_open(s, p, path[n - 1].0, path[n - 1].1));
    if n == 1 {
        assert(path.last().1 == 0);
    } else {
        let prefix = path.drop_last();
        assert(prefix[0] == path[0]);
        assert forall|i: int| #![trigger prefix[i]]
            0 <= i < prefix.len() implies col_open(s, p, prefix[i].0, prefix[i].1) by {
            assert(prefix[i] == path[i]);
        }
        assert forall|i: int| #![trigger prefix[i]]
            1 <= i < prefix.len() implies adjacent(prefix[i - 1], prefix[i]) by {
            assert(prefix[i] == path[i]);
            assert(prefix[i - 1] == path[i - 1]);
        }
        assert(is_flood_path(s, p, prefix));
        lemma_path_marked(s, p, m, prefix);
        let a = path[n - 2];
        let b = path[n - 1];
        assert(prefix.last() == a);
        assert(m[col_index(w, a.0, a.1)]);
        assert(col_open(s, p, a.0, a.1));
        assert(adjacent(a, b));
        assert(neighbors_marked(s, p, m, a.0, a.1));
        if a.0 == b.0 && a.1 == b.1 + 1 {
            assert(b == (a.0, a.1 - 1));
            assert(m[col_index(w, a.0, a.1 - 1)]);
        } else if a.0 == b.0 && a.1 + 1 == b.1 {
            assert(b == (a.0, a.1 + 1));
            assert(m[col_index(w, a.0, a.1 + 1)]);
        } else if a.1 == b.1 && a.0 == b.0 + 1 {
            assert(b == (a.0 - 1, a.1));
            assert(m[col_index(w, a.0 - 1, a.1)]);
        } else {
            assert(b == (a.0 + 1, a.1));
            assert(m[col_index(w, a.0 + 1, a.1)]);
        }
    }
}

/// A mark assignment that contains every open edge column and is closed
/// under open adjacency covers every reachable column.
pub proof fn lemma_reachable_marked(s: VoxelStore, p: int, m: Seq<bool>, x: int, y: int)
    requires
        forall|x2: int| #![trigger col_open(s, p, x2, 0)]
            0 <= x2 < s.grid_w() && col_open(s, p, x2, 0) ==> m[col_index(s.grid_w(), x2, 0)],
        forall|i: int, j: int| #![trigger m[col_index(s.grid_w(), i, j)]]
            0 <= i < s.grid_w() && 0 <= j < s.grid_h() && m[col_index(s.grid_w(), i, j)]
                ==> neighbors_marked(s, p, m, i, j),
        reachable(s, p, x, y),
    ensures
        m[col_index(s.grid_w(), x, y)],
{
    let path = choose|path: Seq<(int, int)>|
        is_flood_path(s, p, path) && path.last() == (x, y);
    lemma_path_marked(s, p, m, path);
}

} // verus!
