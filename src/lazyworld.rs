use vstd::prelude::*;
use std::collections::HashMap;

use crate::block::{
    BlockView, CellChange, VoxelBlock, cell_index, column_index, lemma_column_index_injective,
};
use crate::changes::{PendingWrite, VoxelBlockChanges, deferred_write, key_of, pending_of};
use crate::coords::{
    CHUNK_LEN, EDGE, IVec2, IVec3, chunk_axis, chunk_of, in_chunk_bounds, local_axis,
};
use crate::rng::gen_range_inclusive;
use rand::rngs::StdRng;
use crate::material::GameMaterial;

verus! {

broadcast use vstd::std_specs::hash::group_hash_axioms;

/// The loaded chunks, by chunk coordinate.
pub type WorldView = Map<(int, int), BlockView>;

/// Whether a pair of integers is a chunk coordinate that `i32` can hold.
pub open spec fn is_i32_pair(c: (int, int)) -> bool {
    i32::MIN <= c.0 <= i32::MAX && i32::MIN <= c.1 <= i32::MAX
}

/// Hash key of a chunk coordinate: both components shifted to be
/// non-negative and packed into one `u64`.
pub open spec fn part_key(c: (int, int)) -> u64 {
    ((c.0 + 0x8000_0000) * 0x1_0000_0000 + (c.1 + 0x8000_0000)) as u64
}

proof fn lemma_part_key_injective(c1: (int, int), c2: (int, int))
    requires
        is_i32_pair(c1),
        is_i32_pair(c2),
        part_key(c1) == part_key(c2),
    ensures
        c1 == c2,
{
    let k: int = 0x1_0000_0000;
    let (a1, b1) = (c1.0 + 0x8000_0000, c1.1 + 0x8000_0000);
    let (a2, b2) = (c2.0 + 0x8000_0000, c2.1 + 0x8000_0000);
    assert(0 <= a1 * k + b1 < 0x1_0000_0000_0000_0000) by (nonlinear_arith)
        requires
            0 <= a1 < k,
            0 <= b1 < k,
            k == 0x1_0000_0000,
    ;
    assert(0 <= a2 * k + b2 < 0x1_0000_0000_0000_0000) by (nonlinear_arith)
        requires
            0 <= a2 < k,
            0 <= b2 < k,
            k == 0x1_0000_0000,
    ;
    let x = a1 * k + b1;
    vstd::arithmetic::div_mod::lemma_fundamental_div_mod_converse(x, k, a1, b1);
    vstd::arithmetic::div_mod::lemma_fundamental_div_mod_converse(x, k, a2, b2);
}

fn key_for(c: IVec2) -> (r: u64)
    ensures
        r == part_key(key_of(c)),
{
    let a: u64 = (c.x as i64 + 0x8000_0000i64) as u64;
    let b: u64 = (c.y as i64 + 0x8000_0000i64) as u64;
    assert(a * 0x1_0000_0000 + b < 0x1_0000_0000_0000_0000) by (nonlinear_arith)
        requires
            a < 0x1_0000_0000,
            b < 0x1_0000_0000,
    ;
    a * 0x1_0000_0000 + b
}

/// Largest chunk coordinate (in absolute value) around which chunks may be created.
pub const CHUNK_LIMIT: i32 = 0x7f_fff0;

/// Whether a chunk coordinate lies within the world's extent.
pub open spec fn chunk_in_limit(c: IVec2) -> bool {
    -CHUNK_LIMIT - 2 <= c.x <= CHUNK_LIMIT + 2 && -CHUNK_LIMIT - 2 <= c.y <= CHUNK_LIMIT + 2
}

/// The chunk store: every chunk created so far, found by its coordinate.
/// A chunk, once inserted, is never removed.
pub struct LazyWorld {
    known_parts: HashMap<u64, usize>,
    blocks: Vec<VoxelBlock>,
}

impl View for LazyWorld {
    type V = WorldView;

    closed spec fn view(&self) -> WorldView {
        Map::new(
            |c: (int, int)| is_i32_pair(c) && self.known_parts@.contains_key(part_key(c)),
            |c: (int, int)| self.blocks@[self.known_parts@[part_key(c)] as int]@,
        )
    }
}

impl LazyWorld {
    /// Each chunk is well formed and stored once, under its own coordinate.
    pub closed spec fn wf(&self) -> bool {
        &&& forall|i: int|
            0 <= i < self.blocks@.len() ==> {
                &&& (#[trigger] self.blocks@[i]).wf()
                &&& self.known_parts@.contains_key(part_key(key_of(self.blocks@[i].coord())))
                &&& self.known_parts@[part_key(key_of(self.blocks@[i].coord()))] == i
            }
        &&& forall|i: int|
            0 <= i < self.blocks@.len() ==> chunk_in_limit(#[trigger] self.blocks@[i].coord())
        &&& forall|k: u64|
            #[trigger] self.known_parts@.contains_key(k) ==> {
                &&& self.known_parts@[k] < self.blocks@.len()
                &&& part_key(key_of(self.blocks@[self.known_parts@[k] as int].coord())) == k
            }
    }

    /// Coordinates of the chunks, in order of creation.
    pub closed spec fn order(&self) -> Seq<IVec2> {
        self.blocks@.map_values(|b: VoxelBlock| b.coord())
    }

    proof fn lemma_view_facts(&self)
        requires
            self.wf(),
        ensures
            forall|c: (int, int)| #[trigger] self@.contains_key(c) ==> self@[c].wf(),
            forall|i: int|
                0 <= i < self.blocks@.len() ==> #[trigger] self@.contains_key(
                    key_of(self.blocks@[i].coord()),
                ) && self@[key_of(self.blocks@[i].coord())] == self.blocks@[i]@,
            forall|c: (int, int)|
                #[trigger] self@.contains_key(c) ==> exists|i: int|
                    0 <= i < self.blocks@.len() && key_of(#[trigger] self.blocks@[i].coord()) == c,
    {
        assert forall|c: (int, int)| #[trigger] self@.contains_key(c) implies self@[c].wf() by {
            let i = self.known_parts@[part_key(c)] as int;
            assert(self.blocks@[i].wf());
        }
        assert forall|c: (int, int)| #[trigger] self@.contains_key(c) implies exists|i: int|
            0 <= i < self.blocks@.len() && key_of(#[trigger] self.blocks@[i].coord()) == c by {
            let i = self.known_parts@[part_key(c)] as int;
            lemma_part_key_injective(key_of(self.blocks@[i].coord()), c);
        }
    }

    /// Every chunk of a well-formed store is well formed and lies within the
    /// world's extent.
    pub proof fn lemma_parts_wf(&self)
        requires
            self.wf(),
        ensures
            forall|c: (int, int)| #[trigger] self@.contains_key(c) ==> self@[c].wf(),
            forall|c: (int, int)|
                #[trigger] self@.contains_key(c) ==> -CHUNK_LIMIT - 2 <= c.0 <= CHUNK_LIMIT + 2
                    && -CHUNK_LIMIT - 2 <= c.1 <= CHUNK_LIMIT + 2,
    {
        self.lemma_view_facts();
        assert forall|c: (int, int)| #[trigger] self@.contains_key(c) implies -CHUNK_LIMIT - 2 <= c.0
            <= CHUNK_LIMIT + 2 && -CHUNK_LIMIT - 2 <= c.1 <= CHUNK_LIMIT + 2 by {
            let i = choose|i: int|
                0 <= i < self.blocks@.len() && key_of(#[trigger] self.blocks@[i].coord()) == c;
            assert(chunk_in_limit(self.blocks@[i].coord()));
        }
    }

    /// Every existing chunk appears in the order of creation.
    pub proof fn lemma_order_covers(&self, c: IVec2)
        requires
            self.wf(),
            self@.contains_key(key_of(c)),
        ensures
            self.order().contains(c),
    {
        self.lemma_view_facts();
        let i = choose|i: int|
            0 <= i < self.blocks@.len() && key_of(#[trigger] self.blocks@[i].coord()) == key_of(c);
        assert(self.blocks@[i].coord() == c);
        assert(self.order()[i] == c);
    }

    /// A store with no chunk.
    pub fn new() -> (r: LazyWorld)
        ensures
            r.wf(),
            r@ == Map::<(int, int), BlockView>::empty(),
            r.order() == Seq::<IVec2>::empty(),
    {
        let r = LazyWorld { known_parts: HashMap::new(), blocks: Vec::new() };
        assert(r@ =~= Map::<(int, int), BlockView>::empty());
        assert(r.order() =~= Seq::<IVec2>::empty());
        r
    }

    /// Number of chunks created so far.
    pub fn len(&self) -> (r: usize)
        ensures
            r == self.order().len(),
    {
        self.blocks.len()
    }

    /// Whether the chunk at `block_pos` exists.
    pub fn is_initialized_by_blockpos(&self, block_pos: IVec2) -> (r: bool)
        requires
            self.wf(),
        ensures
            r == self@.contains_key(key_of(block_pos)),
    {
        self.known_parts.contains_key(&key_for(block_pos))
    }

    /// The chunk at `block_pos`, if it exists.
    pub fn get_part(&self, block_pos: IVec2) -> (r: Option<&VoxelBlock>)
        requires
            self.wf(),
        ensures
            r is None <==> !self@.contains_key(key_of(block_pos)),
            r matches Some(b) ==> b.wf() && b@ == self@[key_of(block_pos)] && b.coord()
                == block_pos,
    {
        match self.known_parts.get(&key_for(block_pos)) {
            Some(i) => {
                let b = &self.blocks[*i];
                proof {
                    lemma_part_key_injective(key_of(b.coord()), key_of(block_pos));
                }
                Some(b)
            },
            None => None,
        }
    }

    /// The chunk created `i`-th.
    pub fn part_by_order(&self, i: usize) -> (r: &VoxelBlock)
        requires
            self.wf(),
            i < self.order().len(),
        ensures
            r.wf(),
            r.coord() == self.order()[i as int],
            chunk_in_limit(r.coord()),
            self@.contains_key(key_of(r.coord())),
            r@ == self@[key_of(r.coord())],
    {
        proof {
            self.lemma_view_facts();
        }
        &self.blocks[i]
    }

    /// Adds a chunk at a coordinate that has none yet.
    pub fn insert_part(&mut self, block: VoxelBlock)
        requires
            old(self).wf(),
            block.wf(),
            chunk_in_limit(block.coord()),
            !old(self)@.contains_key(key_of(block.coord())),
        ensures
            final(self).wf(),
            final(self)@ == old(self)@.insert(key_of(block.coord()), block@),
            final(self).order() == old(self).order().push(block.coord()),
    {
        let key = key_for(block.pos());
        let n = self.blocks.len();
        let ghost c = key_of(block.coord());
        let ghost bv = block@;
        let ghost bc = block.coord();
        self.blocks.push(block);
        self.known_parts.insert(key, n);
        proof {
            let o = old(self);
            assert(!o.known_parts@.contains_key(key));
            assert forall|i: int| 0 <= i < self.blocks@.len() implies {
                &&& (#[trigger] self.blocks@[i]).wf()
                &&& self.known_parts@.contains_key(part_key(key_of(self.blocks@[i].coord())))
                &&& self.known_parts@[part_key(key_of(self.blocks@[i].coord()))] == i
            } by {
                if i < n {
                    assert(self.blocks@[i] == o.blocks@[i]);
                    assert(o.known_parts@.contains_key(part_key(key_of(o.blocks@[i].coord()))));
                }
            }
            assert forall|k: u64| #[trigger] self.known_parts@.contains_key(k) implies {
                &&& self.known_parts@[k] < self.blocks@.len()
                &&& part_key(key_of(self.blocks@[self.known_parts@[k] as int].coord())) == k
            } by {
                if k != key {
                    assert(o.known_parts@.contains_key(k));
                }
            }
            assert forall|c2: (int, int)| #[trigger] self@.contains_key(c2) == o@.insert(c, bv).contains_key(
                c2,
            ) by {
                if is_i32_pair(c2) && part_key(c2) == key {
                    lemma_part_key_injective(c2, c);
                }
            }
            assert forall|c2: (int, int)| #[trigger] self@.contains_key(c2) implies self@[c2]
                == o@.insert(c, bv)[c2] by {
                if c2 == c {
                } else {
                    if part_key(c2) == key {
                        lemma_part_key_injective(c2, c);
                    }
                    assert(o.known_parts@.contains_key(part_key(c2)));
                    assert(self.known_parts@[part_key(c2)] == o.known_parts@[part_key(c2)]);
                }
            }
            assert(self@ =~= o@.insert(c, bv));
            assert(self.order() =~= o.order().push(bc));
        }
    }

    /// Puts `mat` into an empty cell of an allowed column of an existing chunk.
    pub fn write_cell(&mut self, block_pos: IVec2, local: IVec3, mat: GameMaterial)
        requires
            old(self).wf(),
            old(self)@.contains_key(key_of(block_pos)),
            in_chunk_bounds(local),
            old(self)@[key_of(block_pos)].get(local.x as int, local.y as int, local.z as int)
                is None,
            !old(self)@[key_of(block_pos)].is_forbidden(local.x as int, local.z as int),
        ensures
            final(self).wf(),
            final(self)@ == old(self)@.insert(
                key_of(block_pos),
                old(self)@[key_of(block_pos)].set(
                    local.x as int,
                    local.y as int,
                    local.z as int,
                    Some(mat),
                ),
            ),
            final(self).order() == old(self).order(),
    {
        let key = key_for(block_pos);
        let i = *self.known_parts.get(&key).unwrap();
        proof {
            lemma_part_key_injective(key_of(self.blocks@[i as int].coord()), key_of(block_pos));
        }
        self.blocks[i].write(local, mat);
        proof {
            self.lemma_after_block_update(old(self), i as int, key_of(block_pos));
        }
    }

    /// Empties a cell of an existing chunk and returns what it held.
    pub fn take_cell(&mut self, block_pos: IVec2, local: IVec3) -> (r: Option<GameMaterial>)
        requires
            old(self).wf(),
            old(self)@.contains_key(key_of(block_pos)),
            in_chunk_bounds(local),
        ensures
            final(self).wf(),
            r == old(self)@[key_of(block_pos)].get(local.x as int, local.y as int, local.z as int),
            final(self)@ == old(self)@.insert(
                key_of(block_pos),
                old(self)@[key_of(block_pos)].set(local.x as int, local.y as int, local.z as int, None),
            ),
            final(self).order() == old(self).order(),
    {
        let key = key_for(block_pos);
        let i = *self.known_parts.get(&key).unwrap();
        proof {
            lemma_part_key_injective(key_of(self.blocks@[i as int].coord()), key_of(block_pos));
        }
        let r = self.blocks[i].take(local);
        proof {
            self.lemma_after_block_update(old(self), i as int, key_of(block_pos));
        }
        r
    }

    /// Hands the cell changes recorded in the chunk at `block_pos` to the
    /// mesh builder; the chunk's contents stay as they are.
    pub fn take_mesh_changes(&mut self, block_pos: IVec2) -> (r: Vec<CellChange>)
        requires
            old(self).wf(),
            old(self)@.contains_key(key_of(block_pos)),
        ensures
            final(self).wf(),
            final(self)@ == old(self)@,
            final(self).order() == old(self).order(),
    {
        let key = key_for(block_pos);
        let i = *self.known_parts.get(&key).unwrap();
        proof {
            lemma_part_key_injective(key_of(self.blocks@[i as int].coord()), key_of(block_pos));
        }
        let r = self.blocks[i].drain_mesh_changes();
        proof {
            self.lemma_after_block_update(old(self), i as int, key_of(block_pos));
            assert(self@ =~= old(self)@);
        }
        r
    }

    proof fn lemma_after_block_update(&self, o: &LazyWorld, i: int, c: (int, int))
        requires
            o.wf(),
            0 <= i < o.blocks@.len(),
            key_of(o.blocks@[i].coord()) == c,
            self.known_parts == o.known_parts,
            self.blocks@.len() == o.blocks@.len(),
            self.blocks@[i].wf(),
            self.blocks@[i].coord() == o.blocks@[i].coord(),
            forall|j: int| 0 <= j < o.blocks@.len() && j != i ==> self.blocks@[j] == o.blocks@[j],
        ensures
            self.wf(),
            self@ == o@.insert(c, self.blocks@[i]@),
            self.order() == o.order(),
    {
        assert forall|j: int| 0 <= j < self.blocks@.len() implies {
            &&& (#[trigger] self.blocks@[j]).wf()
            &&& self.known_parts@.contains_key(part_key(key_of(self.blocks@[j].coord())))
            &&& self.known_parts@[part_key(key_of(self.blocks@[j].coord()))] == j
        } by {
            assert(o.blocks@[j].wf());
        }
        assert(o.known_parts@[part_key(c)] == i);
        assert forall|c2: (int, int)| #[trigger] self@.contains_key(c2) implies self@[c2] == o@.insert(
            c,
            self.blocks@[i]@,
        )[c2] by {
            if c2 != c {
                let j = o.known_parts@[part_key(c2)] as int;
                if j == i {
                    lemma_part_key_injective(key_of(o.blocks@[j].coord()), c2);
                }
            }
        }
        assert(self@ =~= o@.insert(c, self.blocks@[i]@));
        assert(self.order() =~= o.order());
    }
}


/// The columns kept clear in the chunk at the world's origin, where the
/// player starts building.
pub open spec fn origin_forbidden(x: int, z: int) -> bool {
    0 <= x < 15 && 0 <= z < 15
}

/// The forbidden columns of a newly generated chunk at `c`.
pub open spec fn generated_forbidden(c: (int, int)) -> spec_fn(int, int) -> bool {
    if c == (0int, 0int) {
        |x: int, z: int| origin_forbidden(x, z)
    } else {
        |x: int, z: int| false
    }
}

/// Column number of a seeding write, in the order columns are seeded.
pub open spec fn seed_column(e: PendingWrite) -> int {
    e.0.x * 32 + e.0.z
}

/// A seeding write: a ground material to be dropped in from just above the
/// top layer of a column of its chunk.
pub open spec fn seed_ok(e: PendingWrite) -> bool {
    &&& e.0.y == EDGE
    &&& 0 <= e.0.x < EDGE && 0 <= e.0.z < EDGE
    &&& e.1 != GameMaterial::Reddish
}

/// The writes with which a new chunk is seeded: seeding writes, column by
/// column, at most two for each column.
pub open spec fn is_seeding(s: Seq<PendingWrite>) -> bool {
    &&& forall|i: int| 0 <= i < s.len() ==> #[trigger] seed_ok(s[i])
    &&& forall|i: int, j: int| 0 <= i < j < s.len() ==> seed_column(s[i]) <= seed_column(s[j])
    &&& forall|i: int| 0 <= i && i + 2 < s.len() ==> seed_column(s[i]) < seed_column(#[trigger] s[i + 2])
}

/// Whether chunk `c` lies in the 5×5 square of chunks around `center`.
pub open spec fn near_center(center: IVec2, c: (int, int)) -> bool {
    center.x - 2 <= c.0 <= center.x + 2 && center.y - 2 <= c.1 <= center.y + 2
}

/// What `ensure_loaded` guarantees: every chunk of the square around `center`
/// exists; existing chunks are untouched; new ones (only in the square) are
/// empty but for the origin's forbidden columns; only their queues grow, by
/// their seeding writes.
pub open spec fn loaded_post(
    center: IVec2,
    w0: WorldView,
    q0: Map<(int, int), Seq<PendingWrite>>,
    w1: WorldView,
    q1: Map<(int, int), Seq<PendingWrite>>,
) -> bool {
    &&& forall|c: (int, int)| near_center(center, c) ==> #[trigger] w1.contains_key(c)
    &&& forall|c: (int, int)| #[trigger] w0.contains_key(c) ==> w1.contains_key(c) && w1[c] == w0[c]
    &&& forall|c: (int, int)|
        #[trigger] w1.contains_key(c) && !w0.contains_key(c) ==> near_center(center, c)
            && w1[c].is_fresh(generated_forbidden(c))
    &&& forall|c: (int, int)| #[trigger] pending_of(q0, c).is_prefix_of(pending_of(q1, c))
    &&& forall|c: (int, int)|
        #[trigger] w0.contains_key(c) ==> pending_of(q1, c) == pending_of(q0, c)
    &&& forall|c: (int, int)|
        !#[trigger] w1.contains_key(c) ==> pending_of(q1, c) == pending_of(q0, c)
    &&& forall|c: (int, int)|
        #[trigger] w1.contains_key(c) && !w0.contains_key(c) ==> exists|s: Seq<PendingWrite>|
            #[trigger] is_seeding(s) && pending_of(q1, c) == pending_of(q0, c) + s
}

proof fn lemma_chunk_of_offset(part: int, x: int)
    requires
        0 <= x < 32,
    ensures
        chunk_axis(part * 32 + x) == part,
        local_axis(part * 32 + x) == x,
{
    vstd::arithmetic::div_mod::lemma_fundamental_div_mod_converse(part * 32 + x, 32, part, x);
}

/// A new chunk at `part`, with the origin's columns forbidden when it is the
/// origin chunk; queues up to two random blocks for each of its columns, to
/// be dropped in from above the top layer.
fn generate_part(part: IVec2, changes: &mut VoxelBlockChanges, rng: &mut StdRng) -> (r: VoxelBlock)
    requires
        old(changes).wf(),
        -CHUNK_LIMIT - 2 <= part.x <= CHUNK_LIMIT + 2,
        -CHUNK_LIMIT - 2 <= part.y <= CHUNK_LIMIT + 2,
    ensures
        final(changes).wf(),
        r.wf(),
        r.coord() == part,
        r@.is_fresh(generated_forbidden(key_of(part))),
        forall|c: (int, int)| #[trigger] pending_of(old(changes)@, c).is_prefix_of(
            pending_of(final(changes)@, c),
        ),
        forall|c: (int, int)| c != key_of(part) ==> #[trigger] pending_of(final(changes)@, c)
            == pending_of(old(changes)@, c),
        exists|s: Seq<PendingWrite>|
            #[trigger] is_seeding(s) && pending_of(final(changes)@, key_of(part)) == pending_of(
                old(changes)@,
                key_of(part),
            ) + s,
{
    let mut block = VoxelBlock::new(part);
    if part.x == 0 && part.y == 0 {
        let mut x: i32 = 0;
        while x < 15
            invariant
                0 <= x <= 15,
                block.wf(),
                block.coord() == part,
                part.x == 0 && part.y == 0,
                block@.cells.len() == CHUNK_LEN,
                forall|i: int| 0 <= i < CHUNK_LEN ==> #[trigger] block@.cells[i] is None,
                forall|cx: int, cz: int|
                    0 <= cx < 32 && 0 <= cz < 32 ==> #[trigger] block@.is_forbidden(cx, cz) == (
                    origin_forbidden(cx, cz) && cx < x),
            decreases 15 - x,
        {
            let mut z: i32 = 0;
            while z < 15
                invariant
                    0 <= x < 15,
                    0 <= z <= 15,
                    block.wf(),
                    block.coord() == part,
                    part.x == 0 && part.y == 0,
                    block@.cells.len() == CHUNK_LEN,
                    forall|i: int| 0 <= i < CHUNK_LEN ==> #[trigger] block@.cells[i] is None,
                    forall|cx: int, cz: int|
                        0 <= cx < 32 && 0 <= cz < 32 ==> #[trigger] block@.is_forbidden(cx, cz) == (
                        origin_forbidden(cx, cz) && (cx < x || (cx == x && cz < z))),
                decreases 15 - z,
            {
                proof {
                    assert forall|y: int| 0 <= y < 32 implies #[trigger] block@.get(
                        x as int,
                        y,
                        z as int,
                    ) is None by {
                        assert(0 <= cell_index(x as int, y, z as int) < CHUNK_LEN);
                    }
                }
                let ghost before = block@;
                block.forbid_column(IVec2::new(x, z));
                proof {
                    assert forall|cx: int, cz: int|
                        0 <= cx < 32 && 0 <= cz < 32 implies #[trigger] block@.is_forbidden(cx, cz)
                        == (origin_forbidden(cx, cz) && (cx < x || (cx == x && cz < z + 1))) by {
                        if column_index(cx, cz) == column_index(x as int, z as int) {
                            lemma_column_index_injective(cx, cz, x as int, z as int);
                        } else {
                            assert(block@.forbidden[column_index(cx, cz)]
                                == before.forbidden[column_index(cx, cz)]);
                            assert(before.is_forbidden(cx, cz) == (origin_forbidden(cx, cz) && (cx
                                < x || (cx == x && cz < z))));
                        }
                    }
                }
                z = z + 1;
            }
            x = x + 1;
        }
    }
    let ghost q0 = changes@;
    let ghost pk = key_of(part);
    let ghost mut seeds: Seq<PendingWrite> = Seq::empty();
    assert(pending_of(q0, pk) + seeds =~= pending_of(q0, pk));
    let base_x: i32 = part.x * EDGE;
    let base_z: i32 = part.y * EDGE;
    let mut x: i32 = 0;
    while x < EDGE
        invariant
            changes.wf(),
            0 <= x <= EDGE,
            base_x == part.x * 32,
            base_z == part.y * 32,
            -CHUNK_LIMIT - 2 <= part.x <= CHUNK_LIMIT + 2,
            -CHUNK_LIMIT - 2 <= part.y <= CHUNK_LIMIT + 2,
            q0 == old(changes)@,
            forall|c: (int, int)| #[trigger] pending_of(q0, c).is_prefix_of(pending_of(changes@, c)),
            forall|c: (int, int)| c != key_of(part) ==> #[trigger] pending_of(changes@, c)
                == pending_of(q0, c),
            pk == key_of(part),
            pending_of(changes@, pk) == pending_of(q0, pk) + seeds,
            is_seeding(seeds),
            forall|i: int| 0 <= i < seeds.len() ==> seed_column(#[trigger] seeds[i]) < x * 32,
        decreases EDGE - x,
    {
        let mut z: i32 = 0;
        while z < EDGE
            invariant
                changes.wf(),
                0 <= x < EDGE,
                0 <= z <= EDGE,
                base_x == part.x * 32,
                base_z == part.y * 32,
                -CHUNK_LIMIT - 2 <= part.x <= CHUNK_LIMIT + 2,
                -CHUNK_LIMIT - 2 <= part.y <= CHUNK_LIMIT + 2,
                forall|c: (int, int)| #[trigger] pending_of(q0, c).is_prefix_of(
                    pending_of(changes@, c),
                ),
                forall|c: (int, int)| c != key_of(part) ==> #[trigger] pending_of(changes@, c)
                    == pending_of(q0, c),
                pk == key_of(part),
                pending_of(changes@, pk) == pending_of(q0, pk) + seeds,
                is_seeding(seeds),
                forall|i: int| 0 <= i < seeds.len() ==> seed_column(#[trigger] seeds[i]) < x * 32 + z,
            decreases EDGE - z,
        {
            let cnt = gen_range_inclusive(rng, 0, 2);
            let mut n: i32 = 0;
            let ghost k = x * 32 + z;
            while n < cnt
                invariant
                    changes.wf(),
                    0 <= x < EDGE,
                    0 <= z < EDGE,
                    base_x == part.x * 32,
                    base_z == part.y * 32,
                    -CHUNK_LIMIT - 2 <= part.x <= CHUNK_LIMIT + 2,
                    -CHUNK_LIMIT - 2 <= part.y <= CHUNK_LIMIT + 2,
                    forall|c: (int, int)| #[trigger] pending_of(q0, c).is_prefix_of(
                        pending_of(changes@, c),
                    ),
                    forall|c: (int, int)| c != key_of(part) ==> #[trigger] pending_of(changes@, c)
                        == pending_of(q0, c),
                    pk == key_of(part),
                    k == x * 32 + z,
                    0 <= n <= cnt <= 2,
                    pending_of(changes@, pk) == pending_of(q0, pk) + seeds,
                    is_seeding(seeds),
                    n <= seeds.len(),
                    forall|i: int| 0 <= i < seeds.len() - n ==> seed_column(#[trigger] seeds[i]) < k,
                    forall|i: int|
                        seeds.len() - n <= i < seeds.len() ==> seed_column(#[trigger] seeds[i]) == k,
                decreases cnt - n,
            {
                let global_pos = IVec3::new(base_x + x, EDGE, base_z + z);
                let mat = GameMaterial::random(rng);
                let ghost cb = changes@;
                proof {
                    lemma_chunk_of_offset(part.x as int, x as int);
                    lemma_chunk_of_offset(part.y as int, z as int);
                }
                assert(chunk_of(global_pos) == key_of(part));
                changes.register_change(global_pos, mat);
                proof {
                    let e = deferred_write(global_pos, mat);
                    assert(e.0.x == x && e.0.z == z && e.0.y == EDGE);
                    assert(seed_column(e) == k);
                    assert(pending_of(changes@, pk) == pending_of(cb, pk).push(e));
                    let s2 = seeds.push(e);
                    assert(pending_of(changes@, pk) =~= pending_of(q0, pk) + s2);
                    assert forall|i: int| 0 <= i < s2.len() implies #[trigger] seed_ok(s2[i]) by {
                        if i < seeds.len() {
                            assert(seed_ok(seeds[i]));
                        }
                    }
                    assert forall|i: int, j: int|
                        0 <= i < j < s2.len() implies seed_column(s2[i]) <= seed_column(s2[j]) by {
                        if j < seeds.len() {
                            assert(seed_column(seeds[i]) <= seed_column(seeds[j]));
                        } else {
                            assert(seed_column(s2[i]) <= k);
                        }
                    }
                    assert forall|i: int| 0 <= i && i + 2 < s2.len() implies seed_column(s2[i])
                        < seed_column(#[trigger] s2[i + 2]) by {
                        if i + 2 < seeds.len() {
                            assert(seed_column(seeds[i]) < seed_column(seeds[i + 2]));
                        } else {
                            assert(seed_column(seeds[i]) < k);
                        }
                    }
                    seeds = s2;
                    assert forall|c: (int, int)| c != key_of(part) implies #[trigger] pending_of(
                        changes@,
                        c,
                    ) == pending_of(q0, c) by {
                        assert(pending_of(changes@, c) == pending_of(cb, c));
                    }
                    assert forall|c: (int, int)| #[trigger] pending_of(q0, c).is_prefix_of(
                        pending_of(changes@, c),
                    ) by {
                        assert(pending_of(q0, c).is_prefix_of(pending_of(cb, c)));
                        if c == key_of(part) {
                            let e = deferred_write(global_pos, mat);
                            assert(pending_of(changes@, c) == pending_of(cb, c).push(e));
                            assert(pending_of(q0, c) =~= pending_of(changes@, c).subrange(
                                0,
                                pending_of(q0, c).len() as int,
                            ));
                        }
                    }
                }
                n = n + 1;
            }
            assert forall|i: int| 0 <= i < seeds.len() implies seed_column(#[trigger] seeds[i])
                < x * 32 + z + 1 by {
                if i < seeds.len() - n {
                } else {
                }
            }
            z = z + 1;
        }
        x = x + 1;
    }
    proof {
        assert forall|cx: int, cz: int| 0 <= cx < 32 && 0 <= cz < 32 implies #[trigger] block@.is_forbidden(
            cx,
            cz,
        ) == generated_forbidden(key_of(part))(cx, cz) by {}
    }
    block
}

/// Offsets of a chunk and its eight neighbours.
fn around_2d() -> (r: Vec<IVec2>)
    ensures
        r@.len() == 9,
        forall|c: IVec2| #[trigger] r@.contains(c) <==> -1 <= c.x <= 1 && -1 <= c.y <= 1,
{
    let r = vec![
        IVec2::new(0, 0),
        IVec2::new(-1, -1),
        IVec2::new(-1, 0),
        IVec2::new(-1, 1),
        IVec2::new(0, -1),
        IVec2::new(0, 1),
        IVec2::new(1, -1),
        IVec2::new(1, 0),
        IVec2::new(1, 1),
    ];
    assert forall|c: IVec2| -1 <= c.x <= 1 && -1 <= c.y <= 1 implies #[trigger] r@.contains(c) by {
        if c.x == 0 && c.y == 0 {
            assert(r@[0] == c);
        } else if c.x == -1 && c.y == -1 {
            assert(r@[1] == c);
        } else if c.x == -1 && c.y == 0 {
            assert(r@[2] == c);
        } else if c.x == -1 && c.y == 1 {
            assert(r@[3] == c);
        } else if c.x == 0 && c.y == -1 {
            assert(r@[4] == c);
        } else if c.x == 0 && c.y == 1 {
            assert(r@[5] == c);
        } else if c.x == 1 && c.y == -1 {
            assert(r@[6] == c);
        } else if c.x == 1 && c.y == 0 {
            assert(r@[7] == c);
        } else {
            assert(r@[8] == c);
        }
    }
    r
}

impl LazyWorld {
    /// Creates every missing chunk of the 3×3 block of 3×3 neighbourhoods
    /// around `center` (the 5×5 chunks around it). Idempotent: chunks that
    /// exist are left alone.
    pub fn ensure_loaded(&mut self, center: IVec2, changes: &mut VoxelBlockChanges, rng: &mut StdRng)
        requires
            old(self).wf(),
            old(changes).wf(),
            -CHUNK_LIMIT <= center.x <= CHUNK_LIMIT,
            -CHUNK_LIMIT <= center.y <= CHUNK_LIMIT,
        ensures
            final(self).wf(),
            final(changes).wf(),
            loaded_post(center, old(self)@, old(changes)@, final(self)@, final(changes)@),
    {
        let around = around_2d();
        let ghost w0 = self@;
        let ghost q0 = changes@;
        let mut i: usize = 0;
        while i < 9
            invariant
                self.wf(),
                changes.wf(),
                around@.len() == 9,
                forall|c: IVec2| #[trigger] around@.contains(c) <==> -1 <= c.x <= 1 && -1 <= c.y <= 1,
                -CHUNK_LIMIT <= center.x <= CHUNK_LIMIT,
                -CHUNK_LIMIT <= center.y <= CHUNK_LIMIT,
                0 <= i <= 9,
                w0 == old(self)@,
                q0 == old(changes)@,
                forall|a: int, b: int|
                    0 <= a < i && 0 <= b < 9 ==> #[trigger] self@.contains_key(
                        (center.x + around@[a].x + around@[b].x, center.y + around@[a].y + around@[b].y),
                    ),
                forall|c: (int, int)| #[trigger] w0.contains_key(c) ==> self@.contains_key(c) && self@[c] == w0[c],
                forall|c: (int, int)|
                    #[trigger] self@.contains_key(c) && !w0.contains_key(c) ==> near_center(center, c)
                        && self@[c].is_fresh(generated_forbidden(c)),
                forall|c: (int, int)| #[trigger] pending_of(q0, c).is_prefix_of(pending_of(changes@, c)),
                forall|c: (int, int)|
                    #[trigger] w0.contains_key(c) ==> pending_of(changes@, c) == pending_of(q0, c),
                forall|c: (int, int)|
                    !#[trigger] self@.contains_key(c) ==> pending_of(changes@, c) == pending_of(q0, c),
                forall|c: (int, int)|
                    #[trigger] self@.contains_key(c) && !w0.contains_key(c) ==> exists|s: Seq<PendingWrite>|
                        #[trigger] is_seeding(s) && pending_of(changes@, c) == pending_of(q0, c) + s,
            decreases 9 - i,
        {
            let o = around[i];
            assert(around@.contains(o));
            let mut j: usize = 0;
            while j < 9
                invariant
                    self.wf(),
                    changes.wf(),
                    around@.len() == 9,
                    forall|c: IVec2| #[trigger] around@.contains(c) <==> -1 <= c.x <= 1 && -1 <= c.y <= 1,
                    -CHUNK_LIMIT <= center.x <= CHUNK_LIMIT,
                    -CHUNK_LIMIT <= center.y <= CHUNK_LIMIT,
                    0 <= i < 9,
                    o == around@[i as int],
                    -1 <= o.x <= 1 && -1 <= o.y <= 1,
                    0 <= j <= 9,
                    forall|a: int, b: int|
                        0 <= a < i && 0 <= b < 9 ==> #[trigger] self@.contains_key(
                            (center.x + around@[a].x + around@[b].x, center.y + around@[a].y + around@[b].y),
                        ),
                    forall|b: int|
                        0 <= b < j ==> #[trigger] self@.contains_key(
                            (center.x + o.x + around@[b].x, center.y + o.y + around@[b].y),
                        ),
                    forall|c: (int, int)| #[trigger] w0.contains_key(c) ==> self@.contains_key(c) && self@[c] == w0[c],
                    forall|c: (int, int)|
                        #[trigger] self@.contains_key(c) && !w0.contains_key(c) ==> near_center(center, c)
                            && self@[c].is_fresh(generated_forbidden(c)),
                    forall|c: (int, int)| #[trigger] pending_of(q0, c).is_prefix_of(pending_of(changes@, c)),
                    forall|c: (int, int)|
                        #[trigger] w0.contains_key(c) ==> pending_of(changes@, c) == pending_of(q0, c),
                    forall|c: (int, int)|
                        !#[trigger] self@.contains_key(c) ==> pending_of(changes@, c) == pending_of(q0, c),
                    forall|c: (int, int)|
                        #[trigger] self@.contains_key(c) && !w0.contains_key(c) ==> exists|s: Seq<PendingWrite>|
                            #[trigger] is_seeding(s) && pending_of(changes@, c) == pending_of(q0, c) + s,
                decreases 9 - j,
            {
                let off = around[j];
                assert(around@.contains(off));
                let part = IVec2::new(center.x + o.x + off.x, center.y + o.y + off.y);
                if !self.is_initialized_by_blockpos(part) {
                    let ghost cb = changes@;
                    let ghost wb = self@;
                    let block = generate_part(part, changes, rng);
                    proof {
                        assert(pending_of(cb, key_of(part)) == pending_of(q0, key_of(part)));
                        let s0 = choose|s0: Seq<PendingWrite>|
                            #[trigger] is_seeding(s0) && pending_of(changes@, key_of(part)) == pending_of(
                                cb,
                                key_of(part),
                            ) + s0;
                        assert(is_seeding(s0) && pending_of(changes@, key_of(part)) == pending_of(
                            q0,
                            key_of(part),
                        ) + s0);
                        assert forall|c: (int, int)|
                            #[trigger] wb.contains_key(c) && !w0.contains_key(c) implies exists|
                            s1: Seq<PendingWrite>,
                        | #[trigger] is_seeding(s1) && pending_of(changes@, c) == pending_of(q0, c)
                            + s1 by {
                            let s1 = choose|s1: Seq<PendingWrite>|
                                #[trigger] is_seeding(s1) && pending_of(cb, c) == pending_of(q0, c) + s1;
                            assert(c != key_of(part));
                            assert(pending_of(changes@, c) == pending_of(cb, c));
                        }
                        assert forall|c: (int, int)| #[trigger] pending_of(q0, c).is_prefix_of(
                            pending_of(changes@, c),
                        ) by {
                            assert(pending_of(q0, c).is_prefix_of(pending_of(cb, c)));
                            assert(pending_of(cb, c).is_prefix_of(pending_of(changes@, c)));
                            assert(pending_of(q0, c) =~= pending_of(changes@, c).subrange(
                                0,
                                pending_of(q0, c).len() as int,
                            ));
                        }
                    }
                    self.insert_part(block);
                    proof {
                        assert forall|c: (int, int)|
                            #[trigger] self@.contains_key(c) && !w0.contains_key(c) implies exists|
                            s1: Seq<PendingWrite>,
                        | #[trigger] is_seeding(s1) && pending_of(changes@, c) == pending_of(q0, c)
                            + s1 by {
                            if c == key_of(part) {
                                let s0 = choose|s0: Seq<PendingWrite>|
                                    #[trigger] is_seeding(s0) && pending_of(changes@, key_of(part))
                                        == pending_of(q0, key_of(part)) + s0;
                            } else {
                                assert(wb.contains_key(c));
                            }
                        }
                    }
                }
                j = j + 1;
            }
            i = i + 1;
        }
        proof {
            assert forall|c: (int, int)| near_center(center, c) implies #[trigger] self@.contains_key(c) by {
                let dx = c.0 - center.x;
                let dz = c.1 - center.y;
                let ox: int = if dx < -1 { -1 } else if dx > 1 { 1 } else { 0 };
                let oz: int = if dz < -1 { -1 } else if dz > 1 { 1 } else { 0 };
                let o = IVec2 { x: ox as i32, y: oz as i32 };
                let f = IVec2 { x: (dx - ox) as i32, y: (dz - oz) as i32 };
                assert(around@.contains(o));
                assert(around@.contains(f));
                let a = choose|a: int| 0 <= a < around@.len() && around@[a] == o;
                let b = choose|b: int| 0 <= b < around@.len() && around@[b] == f;
                assert(self@.contains_key(
                    (center.x + around@[a].x + around@[b].x, center.y + around@[a].y + around@[b].y),
                ));
            }
        }
    }
}

/// `ensure_loaded` is idempotent: once every chunk around `center` exists,
/// another call creates no chunk and queues nothing.
pub proof fn lemma_ensure_loaded_idempotent(
    center: IVec2,
    w0: WorldView,
    q0: Map<(int, int), Seq<PendingWrite>>,
    w1: WorldView,
    q1: Map<(int, int), Seq<PendingWrite>>,
)
    requires
        loaded_post(center, w0, q0, w1, q1),
        forall|c: (int, int)| near_center(center, c) ==> #[trigger] w0.contains_key(c),
    ensures
        w1 == w0,
        forall|c: (int, int)| #[trigger] pending_of(q1, c) == pending_of(q0, c),
{
    assert forall|c: (int, int)| #[trigger] w1.contains_key(c) implies w0.contains_key(c) by {
        if !w0.contains_key(c) {
            assert(near_center(center, c));
        }
    }
    assert(w1 =~= w0);
    assert forall|c: (int, int)| #[trigger] pending_of(q1, c) == pending_of(q0, c) by {
        if w1.contains_key(c) {
            assert(w0.contains_key(c));
        }
    }
}

} // verus!
