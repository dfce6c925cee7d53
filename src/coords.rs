use vstd::prelude::*;

verus! {

/// Edge length of a chunk along each of its three axes.
pub const EDGE: i32 = 32;

/// Number of cells in one chunk.
pub const CHUNK_LEN: usize = 32768;

/// Number of columns in one chunk.
pub const COLUMNS: usize = 1024;

/// A 2-D integer vector: a chunk coordinate, or a horizontal `(x, z)` column position.
#[derive(Debug, Clone, Copy, PartialEq, Eq, Structural, Hash)]
pub struct IVec2 {
    pub x: i32,
    pub y: i32,
}

/// A 3-D integer vector: a global or chunk-local cell position (`y` is vertical).
#[derive(Debug, Clone, Copy, PartialEq, Eq, Structural, Hash)]
pub struct IVec3 {
    pub x: i32,
    pub y: i32,
    pub z: i32,
}

impl IVec2 {
    pub fn new(x: i32, y: i32) -> (r: IVec2)
        ensures
            r.x == x,
            r.y == y,
    {
        IVec2 { x, y }
    }
}

impl IVec3 {
    pub fn new(x: i32, y: i32, z: i32) -> (r: IVec3)
        ensures
            r.x == x,
            r.y == y,
            r.z == z,
    {
        IVec3 { x, y, z }
    }
}

/// Chunk coordinate (floor division by `EDGE`) of a horizontal global coordinate.
pub open spec fn chunk_axis(v: int) -> int {
    v / (EDGE as int)
}

/// Chunk-local remainder (in `[0, EDGE)`) of a horizontal global coordinate.
pub open spec fn local_axis(v: int) -> int {
    v % (EDGE as int)
}

/// The chunk that holds a global position.
pub open spec fn chunk_of(p: IVec3) -> (int, int) {
    (chunk_axis(p.x as int), chunk_axis(p.z as int))
}

/// Global position of a chunk-local position.
pub open spec fn world_of(chunk: IVec2, local: IVec3) -> (int, int, int) {
    (chunk.x * EDGE + local.x, local.y as int, chunk.y * EDGE + local.z)
}

/// Both horizontal components lie in `[0, EDGE)`.
pub open spec fn is_normalized_xz(local: IVec3) -> bool {
    0 <= local.x < EDGE && 0 <= local.z < EDGE
}

/// All three components lie in `[0, EDGE)`.
pub open spec fn in_chunk_bounds(local: IVec3) -> bool {
    0 <= local.x < EDGE && 0 <= local.y < EDGE && 0 <= local.z < EDGE
}

/// Floor division and remainder of an `i32` by `EDGE`.
pub(crate) fn split_axis(v: i32) -> (r: (i32, i32))
    ensures
        r.0 == chunk_axis(v as int),
        r.1 == local_axis(v as int),
        r.0 * EDGE + r.1 == v,
        0 <= r.1 < EDGE,
        -67108864 <= r.0 < 67108864,
{
    let shifted: u64 = (v as i64 + 2147483648i64) as u64;
    let q: u64 = shifted / 32;
    let rem: u64 = shifted % 32;
    assert(chunk_axis(v as int) == q - 67108864 && local_axis(v as int) == rem) by {
        vstd::arithmetic::div_mod::lemma_fundamental_div_mod(shifted as int, 32);
        vstd::arithmetic::div_mod::lemma_fundamental_div_mod_converse(
            v as int,
            32,
            q - 67108864,
            rem as int,
        );
    }
    ((q as i64 - 67108864i64) as i32, rem as i32)
}

/// The chunk coordinate that holds global position `p`.
pub open spec fn chunk_vec(p: IVec3) -> IVec2 {
    IVec2 { x: chunk_axis(p.x as int) as i32, y: chunk_axis(p.z as int) as i32 }
}

/// Global position `p` made local to its chunk.
pub open spec fn local_vec(p: IVec3) -> IVec3 {
    IVec3 { x: local_axis(p.x as int) as i32, y: p.y, z: local_axis(p.z as int) as i32 }
}

/// Splitting a global position into chunk and local position, and joining
/// them again, gives the position back.
pub proof fn lemma_coordinate_round_trip(p: IVec3)
    ensures
        world_of(chunk_vec(p), local_vec(p)) == (p.x as int, p.y as int, p.z as int),
        is_normalized_xz(local_vec(p)),
{
    vstd::arithmetic::div_mod::lemma_fundamental_div_mod(p.x as int, 32);
    vstd::arithmetic::div_mod::lemma_fundamental_div_mod(p.z as int, 32);
    vstd::arithmetic::div_mod::lemma_mod_bound(p.x as int, 32);
    vstd::arithmetic::div_mod::lemma_mod_bound(p.z as int, 32);
    assert(-67108864 <= chunk_axis(p.x as int) < 67108864) by {
        vstd::arithmetic::div_mod::lemma_div_is_ordered(p.x as int, i32::MAX as int, 32);
        vstd::arithmetic::div_mod::lemma_div_is_ordered(i32::MIN as int, p.x as int, 32);
    }
    assert(-67108864 <= chunk_axis(p.z as int) < 67108864) by {
        vstd::arithmetic::div_mod::lemma_div_is_ordered(p.z as int, i32::MAX as int, 32);
        vstd::arithmetic::div_mod::lemma_div_is_ordered(i32::MIN as int, p.z as int, 32);
    }
}

} // verus!
