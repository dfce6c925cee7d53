use vstd::prelude::*;

use crate::coords::{
    CHUNK_LEN, COLUMNS, EDGE, IVec2, IVec3, chunk_axis, chunk_of, in_chunk_bounds, is_normalized_xz,
    chunk_vec, local_axis, local_vec, split_axis, world_of,
};
use crate::material::{GameMaterial, in_mask};

verus! {

/// Index of a chunk-local cell in a chunk's cell array.
pub open spec fn cell_index(x: int, y: int, z: int) -> int {
    x + z * 32 + y * 1024
}

/// Index of a chunk-local column in a chunk's column array.
pub open spec fn column_index(x: int, z: int) -> int {
    x * 32 + z
}

/// The abstract contents of a chunk: one optional material per cell and one
/// "forbidden" flag per column.
pub struct BlockView {
    pub cells: Seq<Option<GameMaterial>>,
    pub forbidden: Seq<bool>,
}

impl BlockView {
    pub open spec fn get(self, x: int, y: int, z: int) -> Option<GameMaterial> {
        self.cells[cell_index(x, y, z)]
    }

    pub open spec fn is_forbidden(self, x: int, z: int) -> bool {
        self.forbidden[column_index(x, z)]
    }

    /// The same chunk with one cell replaced.
    pub open spec fn set(self, x: int, y: int, z: int, v: Option<GameMaterial>) -> BlockView {
        BlockView { cells: self.cells.update(cell_index(x, y, z), v), forbidden: self.forbidden }
    }

    /// Sizes are right and a forbidden column holds no material.
    pub open spec fn wf(self) -> bool {
        &&& self.cells.len() == CHUNK_LEN
        &&& self.forbidden.len() == COLUMNS
        &&& forall|x: int, y: int, z: int|
            0 <= x < 32 && 0 <= y < 32 && 0 <= z < 32 && #[trigger] self.is_forbidden(x, z)
                ==> #[trigger] self.get(x, y, z) is None
    }

    /// Every cell empty; the given columns forbidden.
    pub open spec fn is_fresh(self, forbidden: spec_fn(int, int) -> bool) -> bool {
        &&& self.cells.len() == CHUNK_LEN
        &&& self.forbidden.len() == COLUMNS
        &&& forall|i: int| 0 <= i < CHUNK_LEN ==> #[trigger] self.cells[i] is None
        &&& forall|x: int, z: int|
            0 <= x < 32 && 0 <= z < 32 ==> #[trigger] self.is_forbidden(x, z) == forbidden(x, z)
    }
}

/// The materials of column `(x, z)` that match `mask`, with their local
/// positions, from height 0 up to (not including) `top`.
pub open spec fn column_matches(b: BlockView, x: int, z: int, mask: u8, top: int) -> Seq<
    (GameMaterial, IVec3),
>
    decreases top,
{
    if top <= 0 {
        Seq::empty()
    } else {
        let below = column_matches(b, x, z, mask, top - 1);
        match b.get(x, top - 1, z) {
            Some(m) => if in_mask(m, mask) {
                below.push((m, IVec3 { x: x as i32, y: (top - 1) as i32, z: z as i32 }))
            } else {
                below
            },
            None => below,
        }
    }
}

/// Squared Euclidean distance between two column positions.
pub open spec fn dist_sq(a: IVec2, b: IVec2) -> int {
    (a.x - b.x) * (a.x - b.x) + (a.y - b.y) * (a.y - b.y)
}

/// A change of one cell, kept for the mesh builder.
#[derive(Debug, Clone, Copy, PartialEq, Eq, Structural)]
pub struct CellChange {
    pub local: IVec3,
    pub material: Option<GameMaterial>,
}

/// One cubic chunk of the world.
pub struct VoxelBlock {
    pos: IVec2,
    grid: Vec<Option<GameMaterial>>,
    forbidden_columns: Vec<bool>,
    mesh_changes: Vec<CellChange>,
}

impl View for VoxelBlock {
    type V = BlockView;

    closed spec fn view(&self) -> BlockView {
        BlockView { cells: self.grid@, forbidden: self.forbidden_columns@ }
    }
}

fn cell_idx(local: IVec3) -> (r: usize)
    requires
        in_chunk_bounds(local),
    ensures
        r == cell_index(local.x as int, local.y as int, local.z as int),
        r < CHUNK_LEN,
{
    (local.x + local.z * 32 + local.y * 1024) as usize
}

fn column_idx(x: i32, z: i32) -> (r: usize)
    requires
        0 <= x < 32,
        0 <= z < 32,
    ensures
        r == column_index(x as int, z as int),
        r < COLUMNS,
{
    (x * 32 + z) as usize
}

/// Distinct in-bounds cells have distinct indices.
pub proof fn lemma_cell_index_injective(x1: int, y1: int, z1: int, x2: int, y2: int, z2: int)
    requires
        0 <= x1 < 32 && 0 <= y1 < 32 && 0 <= z1 < 32,
        0 <= x2 < 32 && 0 <= y2 < 32 && 0 <= z2 < 32,
        cell_index(x1, y1, z1) == cell_index(x2, y2, z2),
    ensures
        x1 == x2 && y1 == y2 && z1 == z2,
{
}

/// Once `write(l, m)` has put `m` into a chunk, `read(l)` returns it, and
/// the cell no longer meets the requirement of another `write`.
pub proof fn lemma_write_then_read(b: BlockView, x: int, y: int, z: int, m: GameMaterial)
    requires
        b.wf(),
        0 <= x < 32 && 0 <= y < 32 && 0 <= z < 32,
    ensures
        b.set(x, y, z, Some(m)).get(x, y, z) == Some(m),
        !(b.set(x, y, z, Some(m)).get(x, y, z) is None),
{
    assert(0 <= cell_index(x, y, z) < CHUNK_LEN);
}

/// Distinct in-bounds columns have distinct indices.
pub proof fn lemma_column_index_injective(x1: int, z1: int, x2: int, z2: int)
    requires
        0 <= x1 < 32 && 0 <= z1 < 32,
        0 <= x2 < 32 && 0 <= z2 < 32,
        column_index(x1, z1) == column_index(x2, z2),
    ensures
        x1 == x2 && z1 == z2,
{
}

impl VoxelBlock {
    /// The chunk's coordinate.
    pub closed spec fn coord(&self) -> IVec2 {
        self.pos
    }

    /// The chunk's coordinate.
    pub fn pos(&self) -> (r: IVec2)
        ensures
            r == self.coord(),
    {
        self.pos
    }

    /// Cell changes recorded since the mesh builder last drained them.
    pub closed spec fn pending_mesh_changes(&self) -> Seq<CellChange> {
        self.mesh_changes@
    }

    pub open spec fn wf(&self) -> bool {
        self@.wf()
    }

    /// A chunk at `pos` with every cell empty and no column forbidden.
    pub fn new(pos: IVec2) -> (r: VoxelBlock)
        ensures
            r.wf(),
            r.coord() == pos,
            r@.is_fresh(|x: int, z: int| false),
            r.pending_mesh_changes() == Seq::<CellChange>::empty(),
    {
        let mut grid: Vec<Option<GameMaterial>> = Vec::new();
        let mut i: usize = 0;
        while i < CHUNK_LEN
            invariant
                i <= CHUNK_LEN,
                grid@.len() == i,
                forall|j: int| 0 <= j < i ==> #[trigger] grid@[j] is None,
            decreases CHUNK_LEN - i,
        {
            grid.push(None);
            i = i + 1;
        }
        let mut forbidden_columns: Vec<bool> = Vec::new();
        let mut i: usize = 0;
        while i < COLUMNS
            invariant
                i <= COLUMNS,
                forbidden_columns@.len() == i,
                forall|j: int| 0 <= j < i ==> !#[trigger] forbidden_columns@[j],
            decreases COLUMNS - i,
        {
            forbidden_columns.push(false);
            i = i + 1;
        }
        let r = VoxelBlock { pos, grid, forbidden_columns, mesh_changes: Vec::new() };
        assert forall|x: int, z: int| 0 <= x < 32 && 0 <= z < 32 implies #[trigger] r@.is_forbidden(
            x,
            z,
        ) == false by {
            assert(0 <= column_index(x, z) < COLUMNS);
        }
        assert(r.wf()) by {
            assert forall|x: int, y: int, z: int|
                0 <= x < 32 && 0 <= y < 32 && 0 <= z < 32 && #[trigger] r@.is_forbidden(
                    x,
                    z,
                ) implies #[trigger] r@.get(x, y, z) is None by {
                assert(0 <= cell_index(x, y, z) < CHUNK_LEN);
            }
        }
        r
    }

    /// Whether a local position lies inside a chunk on all three axes.
    pub fn within_bounds(pos: IVec3) -> (r: bool)
        ensures
            r == in_chunk_bounds(pos),
    {
        pos.x >= 0 && pos.x < EDGE && pos.y >= 0 && pos.y < EDGE && pos.z >= 0 && pos.z < EDGE
    }

    /// Carries the horizontal components of `inner_pos` over into the chunk
    /// coordinate until both lie in `[0, EDGE)`; the vertical one is kept.
    pub fn normalize_pos(voxel_block_pos: IVec2, inner_pos: IVec3) -> (r: (IVec2, IVec3))
        requires
            i32::MIN <= voxel_block_pos.x + chunk_axis(inner_pos.x as int) <= i32::MAX,
            i32::MIN <= voxel_block_pos.y + chunk_axis(inner_pos.z as int) <= i32::MAX,
        ensures
            r.0.x == voxel_block_pos.x + chunk_axis(inner_pos.x as int),
            r.0.y == voxel_block_pos.y + chunk_axis(inner_pos.z as int),
            r.1.x == local_axis(inner_pos.x as int),
            r.1.y == inner_pos.y,
            r.1.z == local_axis(inner_pos.z as int),
            is_normalized_xz(r.1),
            world_of(r.0, r.1) == world_of(voxel_block_pos, inner_pos),
    {
        let (qx, rx) = split_axis(inner_pos.x);
        let (qz, rz) = split_axis(inner_pos.z);
        let r = (
            IVec2::new(voxel_block_pos.x + qx, voxel_block_pos.y + qz),
            IVec3::new(rx, inner_pos.y, rz),
        );
        assert(r.0.x * EDGE + r.1.x == voxel_block_pos.x * EDGE + inner_pos.x) by (nonlinear_arith)
            requires
                qx * EDGE + rx == inner_pos.x,
                r.0.x == voxel_block_pos.x + qx,
                r.1.x == rx,
        ;
        assert(r.0.y * EDGE + r.1.z == voxel_block_pos.y * EDGE + inner_pos.z) by (nonlinear_arith)
            requires
                qz * EDGE + rz == inner_pos.z,
                r.0.y == voxel_block_pos.y + qz,
                r.1.z == rz,
        ;
        r
    }

    /// Global position of a chunk-local position.
    pub fn real_pos(voxel_block_pos: IVec2, inner_pos: IVec3) -> (r: IVec3)
        requires
            i32::MIN <= voxel_block_pos.x * EDGE + inner_pos.x <= i32::MAX,
            i32::MIN <= voxel_block_pos.y * EDGE + inner_pos.z <= i32::MAX,
        ensures
            (r.x as int, r.y as int, r.z as int) == world_of(voxel_block_pos, inner_pos),
    {
        let x: i64 = voxel_block_pos.x as i64 * 32 + inner_pos.x as i64;
        let z: i64 = voxel_block_pos.y as i64 * 32 + inner_pos.z as i64;
        IVec3::new(x as i32, inner_pos.y, z as i32)
    }

    /// The chunk holding a global position and the position local to it.
    pub fn inner_pos(pos: IVec3) -> (r: (IVec2, IVec3))
        ensures
            r.0 == chunk_vec(pos),
            r.1 == local_vec(pos),
            (r.0.x as int, r.0.y as int) == chunk_of(pos),
            r.1.x == local_axis(pos.x as int),
            r.1.y == pos.y,
            r.1.z == local_axis(pos.z as int),
            is_normalized_xz(r.1),
            world_of(r.0, r.1) == (pos.x as int, pos.y as int, pos.z as int),
    {
        let (qx, rx) = split_axis(pos.x);
        let (qz, rz) = split_axis(pos.z);
        (IVec2::new(qx, qz), IVec3::new(rx, pos.y, rz))
    }

    /// The material at a local position, if any.
    pub fn read(&self, local: IVec3) -> (r: Option<GameMaterial>)
        requires
            self.wf(),
            in_chunk_bounds(local),
        ensures
            r == self@.get(local.x as int, local.y as int, local.z as int),
    {
        self.grid[cell_idx(local)]
    }

    /// Whether the column at local `(col.x, col.y)` may never hold material.
    pub fn is_forbidden(&self, col: IVec2) -> (r: bool)
        requires
            self.wf(),
            0 <= col.x < EDGE,
            0 <= col.y < EDGE,
        ensures
            r == self@.is_forbidden(col.x as int, col.y as int),
    {
        self.forbidden_columns[column_idx(col.x, col.y)]
    }

    /// Puts `mat` into an empty cell of an allowed column.
    pub fn write(&mut self, local: IVec3, mat: GameMaterial)
        requires
            old(self).wf(),
            in_chunk_bounds(local),
            old(self)@.get(local.x as int, local.y as int, local.z as int) is None,
            !old(self)@.is_forbidden(local.x as int, local.z as int),
        ensures
            final(self).wf(),
            final(self).coord() == old(self).coord(),
            final(self)@ == old(self)@.set(local.x as int, local.y as int, local.z as int, Some(mat)),
            final(self).pending_mesh_changes() == old(self).pending_mesh_changes().push(
                (CellChange { local, material: Some(mat) }),
            ),
    {
        let idx = cell_idx(local);
        self.grid.set(idx, Some(mat));
        self.mesh_changes.push(CellChange { local, material: Some(mat) });
        proof {
            let o = old(self)@;
            let n = self@;
            assert forall|x: int, y: int, z: int|
                0 <= x < 32 && 0 <= y < 32 && 0 <= z < 32 && #[trigger] n.is_forbidden(
                    x,
                    z,
                ) implies #[trigger] n.get(x, y, z) is None by {
                assert(o.is_forbidden(x, z));
                assert(o.get(x, y, z) is None);
                if cell_index(x, y, z) == idx as int {
                    lemma_cell_index_injective(
                        x,
                        y,
                        z,
                        local.x as int,
                        local.y as int,
                        local.z as int,
                    );
                }
            }
        }
    }

    /// Empties a cell and returns what it held.
    pub fn take(&mut self, local: IVec3) -> (r: Option<GameMaterial>)
        requires
            old(self).wf(),
            in_chunk_bounds(local),
        ensures
            final(self).wf(),
            final(self).coord() == old(self).coord(),
            r == old(self)@.get(local.x as int, local.y as int, local.z as int),
            final(self)@ == old(self)@.set(local.x as int, local.y as int, local.z as int, None),
            final(self).pending_mesh_changes() == old(self).pending_mesh_changes().push(
                (CellChange { local, material: None }),
            ),
    {
        let idx = cell_idx(local);
        let r = self.grid[idx];
        self.grid.set(idx, None);
        self.mesh_changes.push(CellChange { local, material: None });
        proof {
            let o = old(self)@;
            let n = self@;
            assert forall|x: int, y: int, z: int|
                0 <= x < 32 && 0 <= y < 32 && 0 <= z < 32 && #[trigger] n.is_forbidden(
                    x,
                    z,
                ) implies #[trigger] n.get(x, y, z) is None by {
                assert(o.is_forbidden(x, z));
                assert(o.get(x, y, z) is None);
            }
        }
        r
    }

    /// Hands the recorded cell changes to the mesh builder and forgets them.
    pub fn drain_mesh_changes(&mut self) -> (r: Vec<CellChange>)
        ensures
            r@ == old(self).pending_mesh_changes(),
            final(self).pending_mesh_changes() == Seq::<CellChange>::empty(),
            final(self)@ == old(self)@,
            final(self).coord() == old(self).coord(),
    {
        let mut r: Vec<CellChange> = Vec::new();
        std::mem::swap(&mut r, &mut self.mesh_changes);
        r
    }

    /// Marks an empty column as permanently unable to hold material.
    pub fn forbid_column(&mut self, local_pos: IVec2)
        requires
            old(self).wf(),
            0 <= local_pos.x < EDGE,
            0 <= local_pos.y < EDGE,
            forall|y: int|
                0 <= y < 32 ==> #[trigger] old(self)@.get(local_pos.x as int, y, local_pos.y as int)
                    is None,
        ensures
            final(self).wf(),
            final(self).coord() == old(self).coord(),
            final(self)@.cells == old(self)@.cells,
            final(self)@.forbidden == old(self)@.forbidden.update(
                column_index(local_pos.x as int, local_pos.y as int),
                true,
            ),
            final(self).pending_mesh_changes() == old(self).pending_mesh_changes(),
    {
        let idx = column_idx(local_pos.x, local_pos.y);
        self.forbidden_columns.set(idx, true);
        proof {
            let o = old(self)@;
            let n = self@;
            assert forall|x: int, y: int, z: int|
                0 <= x < 32 && 0 <= y < 32 && 0 <= z < 32 && #[trigger] n.is_forbidden(
                    x,
                    z,
                ) implies #[trigger] n.get(x, y, z) is None by {
                if column_index(x, z) == idx as int {
                    lemma_column_index_injective(x, z, local_pos.x as int, local_pos.y as int);
                    assert(o.get(local_pos.x as int, y, local_pos.y as int) is None);
                } else {
                    assert(o.is_forbidden(x, z));
                    assert(o.get(x, y, z) is None);
                }
            }
        }
    }

    /// Whether the bottom cell of local column `(pos.x, pos.y)` is empty.
    pub fn is_column_empty(&self, pos: IVec2) -> (r: bool)
        requires
            self.wf(),
            0 <= pos.x < EDGE,
            0 <= pos.y < EDGE,
        ensures
            r == self@.get(pos.x as int, 0, pos.y as int) is None,
    {
        self.read(IVec3::new(pos.x, 0, pos.y)).is_none()
    }

    /// The lowest empty cell of local column `(col.x, col.y)`; `None` when the
    /// column is forbidden or full.
    pub fn empty_at_col(&self, col: IVec2) -> (r: Option<IVec3>)
        requires
            self.wf(),
            0 <= col.x < EDGE,
            0 <= col.y < EDGE,
        ensures
            self@.is_forbidden(col.x as int, col.y as int) ==> r is None,
            !self@.is_forbidden(col.x as int, col.y as int) ==> match r {
                Some(p) => {
                    &&& p.x == col.x && p.z == col.y && 0 <= p.y < EDGE
                    &&& self@.get(col.x as int, p.y as int, col.y as int) is None
                    &&& forall|y: int|
                        0 <= y < p.y ==> #[trigger] self@.get(col.x as int, y, col.y as int)
                            is Some
                },
                None => forall|y: int|
                    0 <= y < 32 ==> #[trigger] self@.get(col.x as int, y, col.y as int) is Some,
            },
    {
        if self.is_forbidden(col) {
            return None;
        }
        let mut y: i32 = 0;
        while y < EDGE
            invariant
                self.wf(),
                0 <= col.x < EDGE,
                0 <= col.y < EDGE,
                0 <= y <= EDGE,
                !self@.is_forbidden(col.x as int, col.y as int),
                forall|k: int| 0 <= k < y ==> #[trigger] self@.get(col.x as int, k, col.y as int)
                    is Some,
            decreases EDGE - y,
        {
            let p = IVec3::new(col.x, y, col.y);
            if self.read(p).is_none() {
                return Some(p);
            }
            y = y + 1;
        }
        None
    }

    /// Every local column within squared distance `radius_sq` of `pos`, in
    /// order of `x`, then `z`.
    pub fn closest_columns(&self, pos: IVec2, radius_sq: i64) -> (r: Vec<IVec2>)
        requires
            -0x3000_0000 <= pos.x <= 0x3000_0000,
            -0x3000_0000 <= pos.y <= 0x3000_0000,
        ensures
            forall|c: IVec2|
                r@.contains(c) <==> (0 <= c.x < EDGE && 0 <= c.y < EDGE && dist_sq(c, pos)
                    <= radius_sq),
            forall|i: int, j: int|
                0 <= i < j < r@.len() ==> (r@[i].x < r@[j].x || (r@[i].x == r@[j].x && r@[i].y
                    < r@[j].y)),
    {
        let mut r: Vec<IVec2> = Vec::new();
        let mut x: i32 = 0;
        while x < EDGE
            invariant
                0 <= x <= EDGE,
                -0x3000_0000 <= pos.x <= 0x3000_0000,
                -0x3000_0000 <= pos.y <= 0x3000_0000,
                forall|c: IVec2|
                    r@.contains(c) <==> (0 <= c.x < x && 0 <= c.y < EDGE && dist_sq(c, pos)
                        <= radius_sq),
                forall|i: int, j: int|
                    0 <= i < j < r@.len() ==> (r@[i].x < r@[j].x || (r@[i].x == r@[j].x
                        && r@[i].y < r@[j].y)),
                forall|i: int| 0 <= i < r@.len() ==> r@[i].x < x,
            decreases EDGE - x,
        {
            let mut z: i32 = 0;
            while z < EDGE
                invariant
                    0 <= x < EDGE,
                    0 <= z <= EDGE,
                    -0x3000_0000 <= pos.x <= 0x3000_0000,
                    -0x3000_0000 <= pos.y <= 0x3000_0000,
                    forall|c: IVec2|
                        r@.contains(c) <==> ((0 <= c.x < x && 0 <= c.y < EDGE) || (c.x == x && 0
                            <= c.y < z)) && dist_sq(c, pos) <= radius_sq,
                    forall|i: int, j: int|
                        0 <= i < j < r@.len() ==> (r@[i].x < r@[j].x || (r@[i].x == r@[j].x
                            && r@[i].y < r@[j].y)),
                    forall|i: int|
                        0 <= i < r@.len() ==> r@[i].x < x || (r@[i].x == x && r@[i].y < z),
                decreases EDGE - z,
            {
                let dx: i64 = x as i64 - pos.x as i64;
                let dz: i64 = z as i64 - pos.y as i64;
                assert(dx * dx <= 0x3000_0020 * 0x3000_0020) by (nonlinear_arith)
                    requires
                        -0x3000_0020 <= dx <= 0x3000_0020,
                ;
                assert(dz * dz <= 0x3000_0020 * 0x3000_0020) by (nonlinear_arith)
                    requires
                        -0x3000_0020 <= dz <= 0x3000_0020,
                ;
                assert(0 <= dx * dx && 0 <= dz * dz) by (nonlinear_arith);
                let d = dx * dx + dz * dz;
                let c = IVec2::new(x, z);
                let ghost old_r = r@;
                if d <= radius_sq {
                    r.push(c);
                    assert(r@ == old_r.push(c));
                    assert forall|c2: IVec2|
                        r@.contains(c2) <==> ((0 <= c2.x < x && 0 <= c2.y < EDGE) || (c2.x == x
                            && 0 <= c2.y < z + 1)) && dist_sq(c2, pos) <= radius_sq by {
                        if r@.contains(c2) && c2 != c {
                            let k = choose|k: int| 0 <= k < r@.len() && r@[k] == c2;
                            assert(old_r[k] == c2);
                        }
                        if old_r.contains(c2) {
                            let k = choose|k: int| 0 <= k < old_r.len() && old_r[k] == c2;
                            assert(r@[k] == c2);
                        }
                        if c2 == c {
                            assert(r@[r@.len() - 1] == c);
                        }
                    }
                } else {
                    assert forall|c2: IVec2|
                        r@.contains(c2) <==> ((0 <= c2.x < x && 0 <= c2.y < EDGE) || (c2.x == x
                            && 0 <= c2.y < z + 1)) && dist_sq(c2, pos) <= radius_sq by {
                        if c2.x == x && c2.y == z {
                            assert(c2 == c);
                            if r@.contains(c2) {
                                let k = choose|k: int| 0 <= k < r@.len() && r@[k] == c2;
                            }
                        }
                    }
                }
                z = z + 1;
            }
            x = x + 1;
        }
        r
    }

    /// The materials of local column `(pos.x, pos.y)` that match `mask`, with
    /// their local positions, bottom to top.
    pub fn material_in_col(&self, pos: IVec2, mask: u8) -> (r: Vec<(GameMaterial, IVec3)>)
        requires
            self.wf(),
            0 <= pos.x < EDGE,
            0 <= pos.y < EDGE,
        ensures
            r@ == column_matches(self@, pos.x as int, pos.y as int, mask, 32),
    {
        let mut r: Vec<(GameMaterial, IVec3)> = Vec::new();
        let mut y: i32 = 0;
        while y < EDGE
            invariant
                self.wf(),
                0 <= pos.x < EDGE,
                0 <= pos.y < EDGE,
                0 <= y <= EDGE,
                r@ == column_matches(self@, pos.x as int, pos.y as int, mask, y as int),
            decreases EDGE - y,
        {
            let p = IVec3::new(pos.x, y, pos.y);
            match self.read(p) {
                Some(mat) => {
                    if mat.mask_contains(mask) {
                        r.push((mat, p));
                    }
                },
                None => {},
            }
            y = y + 1;
        }
        r
    }
}

} // verus!
