use vstd::prelude::*;
use rand::rngs::StdRng;

use crate::block::{BlockView, VoxelBlock, cell_index, lemma_cell_index_injective};
use crate::changes::{
    PendingWrite, VoxelBlockChanges, deferred_write, key_of, pending_of, with_deferred,
};
use crate::coords::{CHUNK_LEN, EDGE, IVec2, IVec3, chunk_of, local_axis};
use crate::lazyworld::{LazyWorld, WorldView};
use crate::material::GameMaterial;
use crate::rng::{gen_range_inclusive, pick};

verus! {

/// How many rings a relocating block may search, and how many times it may
/// be moved aside, before it is given up.
pub const RING_LIMIT: i32 = 30;

/// How far from the origin a block may be moved horizontally.
pub const WORLD_LIMIT: i32 = 0x1000_0000;

/// What a cell holds, as seen through the whole world.
#[derive(Debug, Clone, Copy, PartialEq, Eq, Structural)]
pub enum BlockState {
    Empty,
    Full(GameMaterial),
    Forbidden,
}

impl BlockState {
    /// Whether the cell holds material.
    pub fn is_full(&self) -> (r: bool)
        ensures
            r == (*self is Full),
    {
        match self {
            BlockState::Full(_) => true,
            _ => false,
        }
    }
}

/// The deferred write queue as a map from chunk coordinate to its writes.
pub type QueueView = Map<(int, int), Seq<PendingWrite>>;

/// Whether a position lies within the world's horizontal extent.
pub open spec fn in_limit(p: IVec3) -> bool {
    -WORLD_LIMIT <= p.x <= WORLD_LIMIT && -WORLD_LIMIT <= p.z <= WORLD_LIMIT
}

/// Whether a position's height lies inside a chunk.
pub open spec fn in_height(p: IVec3) -> bool {
    0 <= p.y < EDGE
}

/// The state of global cell `p` (of a height inside a chunk). A chunk that
/// does not exist yet reads as empty.
pub open spec fn state_in(w: WorldView, p: IVec3) -> BlockState {
    let c = chunk_of(p);
    let lx = local_axis(p.x as int);
    let lz = local_axis(p.z as int);
    if !w.contains_key(c) {
        BlockState::Empty
    } else if w[c].is_forbidden(lx, lz) {
        BlockState::Forbidden
    } else {
        match w[c].get(lx, p.y as int, lz) {
            Some(m) => BlockState::Full(m),
            None => BlockState::Empty,
        }
    }
}

/// Whether a block may move into `p`: it is empty and within the world's extent.
pub open spec fn is_candidate(w: WorldView, p: IVec3) -> bool {
    in_limit(p) && state_in(w, p) == BlockState::Empty
}

/// Chebyshev distance between the columns of two positions.
pub open spec fn ring_dist(a: IVec3, b: IVec3) -> int {
    let dx = if a.x >= b.x { a.x - b.x } else { b.x - a.x };
    let dz = if a.z >= b.z { a.z - b.z } else { b.z - a.z };
    if dx >= dz { dx } else { dz }
}

/// `w1` is `w0` with `mat` written into the empty, allowed, existing cell `p`.
pub open spec fn placed_at(w0: WorldView, w1: WorldView, p: IVec3, mat: GameMaterial) -> bool {
    let c = chunk_of(p);
    &&& in_height(p)
    &&& w0.contains_key(c)
    &&& state_in(w0, p) == BlockState::Empty
    &&& w1 == w0.insert(
        c,
        w0[c].set(local_axis(p.x as int), p.y as int, local_axis(p.z as int), Some(mat)),
    )
}

/// The three ways a push of `mat` can end: the block is discarded; it is
/// written into one empty cell; or it is queued for one chunk that does not
/// exist yet.
pub open spec fn push_outcome(
    w0: WorldView,
    q0: QueueView,
    mat: GameMaterial,
    w1: WorldView,
    q1: QueueView,
) -> bool {
    ||| w1 == w0 && q1 == q0
    ||| q1 == q0 && exists|p: IVec3| #[trigger] placed_at(w0, w1, p, mat)
    ||| w1 == w0 && exists|p: IVec3|
        !w0.contains_key(chunk_of(p)) && q1 == with_deferred(
            q0,
            chunk_of(p),
            #[trigger] deferred_write(p, mat),
        )
}

/// A block pushed at `p` stays there: `p` is an empty, allowed cell of an
/// existing chunk, and it is on the floor or above a full cell with no empty
/// cell among the nine cells below it.
pub open spec fn settles_at(w: WorldView, p: IVec3) -> bool {
    let below = IVec3 { x: p.x, y: (p.y - 1) as i32, z: p.z };
    &&& in_height(p)
    &&& w.contains_key(chunk_of(p))
    &&& state_in(w, p) == BlockState::Empty
    &&& p.y == 0 || {
        &&& state_in(w, below) is Full
        &&& forall|q: IVec3|
            q.y == p.y - 1 && ring_dist(q, p) <= 1 ==> #[trigger] state_in(w, q)
                != BlockState::Empty
    }
}

/// A block pushed at `p` falls straight to the floor: `p`'s chunk exists,
/// `p` is inside the world's extent with a margin of one column, and every
/// cell up to `p`'s height (and below the top layer) in its column and the
/// eight columns around it is empty.
pub open spec fn clear_below(w: WorldView, p: IVec3) -> bool {
    &&& w.contains_key(chunk_of(p))
    &&& -WORLD_LIMIT < p.x < WORLD_LIMIT && -WORLD_LIMIT < p.z < WORLD_LIMIT
    &&& forall|q: IVec3|
        0 <= q.y <= p.y && q.y < EDGE && ring_dist(q, p) <= 1 ==> #[trigger] state_in(w, q)
            == BlockState::Empty
}

/// Where a pushed block is during `push_block`, and how it ends.
pub enum PushState {
    /// Still looking, at a position, after so many moves aside.
    At(IVec3, nat),
    Placed(IVec3),
    Deferred(IVec3),
    Discarded,
}

/// Whether some cell of the ring at distance `rad` around `c` (at its
/// height) may take a block.
pub open spec fn ring_has_candidate(w: WorldView, c: IVec3, rad: int) -> bool {
    exists|q: IVec3| q.y == c.y && ring_dist(q, c) == rad && #[trigger] is_candidate(w, q)
}

/// The nearest ring, from `rad` on, with a cell that may take a block
/// (`RING_LIMIT` when none is nearer than that).
pub open spec fn first_ring(w: WorldView, c: IVec3, rad: int) -> int
    decreases RING_LIMIT - rad,
{
    if rad >= RING_LIMIT {
        RING_LIMIT as int
    } else if ring_has_candidate(w, c, rad) {
        rad
    } else {
        first_ring(w, c, rad + 1)
    }
}

/// Every cell of the nine below `p` that may hold material is free.
pub open spec fn open_below(w: WorldView, p: IVec3) -> bool {
    forall|q: IVec3|
        q.y == p.y - 1 && ring_dist(q, p) <= 1 && #[trigger] state_in(w, q) != BlockState::Forbidden
            ==> is_candidate(w, q)
}

/// Some cell of the nine below `p` may take a block.
pub open spec fn below_has_candidate(w: WorldView, p: IVec3) -> bool {
    exists|q: IVec3| q.y == p.y - 1 && ring_dist(q, p) <= 1 && #[trigger] is_candidate(w, q)
}

/// Steps 4 and 5 at `p` (inside a chunk's height): a free cell takes the
/// block; a taken one sends it to a free cell of the first ring or two cells
/// up, unless it was already moved aside `RING_LIMIT` times.
pub open spec fn resting_step(w: WorldView, p: IVec3, moves: nat, next: PushState) -> bool {
    if state_in(w, p) == BlockState::Empty {
        next == PushState::Placed(p)
    } else if moves >= RING_LIMIT {
        next == PushState::Discarded
    } else {
        next matches PushState::At(q, m) && m == moves + 1 && ((q.y == p.y && ring_dist(q, p) == 1
            && is_candidate(w, q)) || q == IVec3 { x: p.x, y: (p.y + 2) as i32, z: p.z })
    }
}

/// One step of `push_block` in world `w`, from state `cur` to state `next`.
pub open spec fn push_next(w: WorldView, cur: PushState, next: PushState) -> bool {
    match cur {
        PushState::At(p, moves) => if !w.contains_key(chunk_of(p)) {
            next == PushState::Deferred(p)
        } else if p.y >= EDGE {
            let top = IVec3 { x: p.x, y: (EDGE - 1) as i32, z: p.z };
            if state_in(w, top) == BlockState::Empty {
                next == PushState::At(top, moves)
            } else if first_ring(w, top, 1) < RING_LIMIT {
                next matches PushState::At(q, m) && m == moves && q.y == top.y && ring_dist(q, top)
                    == first_ring(w, top, 1) && is_candidate(w, q)
            } else {
                next == PushState::Discarded
            }
        } else if p.y > 0 && open_below(w, p) {
            next == PushState::At(IVec3 { x: p.x, y: (p.y - 1) as i32, z: p.z }, moves)
        } else if p.y > 0 && below_has_candidate(w, p) && (next matches PushState::At(q, m) && m
            == moves && q.y == p.y - 1 && ring_dist(q, p) <= 1 && is_candidate(w, q)) {
            true
        } else {
            &&& !(p.y > 0 && below_has_candidate(w, p) && state_in(
                w,
                IVec3 { x: p.x, y: (p.y - 1) as i32, z: p.z },
            ) == BlockState::Empty)
            &&& resting_step(w, p, moves, next)
        },
        _ => false,
    }
}

/// `trace` is a run of `push_block` in world `w` from `start`: it begins
/// there, each state follows from the one before by `push_next`, and only
/// the last one is final.
pub open spec fn push_chain(w: WorldView, start: IVec3, trace: Seq<PushState>) -> bool {
    &&& trace.len() >= 2
    &&& trace[0] == PushState::At(start, 0)
    &&& forall|i: int| 0 <= i < trace.len() - 1 ==> #[trigger] push_next(w, trace[i], trace[i + 1])
    &&& !(trace.last() is At)
}

/// What one call of `push_block` of `mat` at `start` may do to world and
/// queue: one of the three outcomes, reached by a run of steps from `start`.
pub open spec fn push_run(
    w0: WorldView,
    q0: QueueView,
    start: IVec3,
    mat: GameMaterial,
    w1: WorldView,
    q1: QueueView,
) -> bool {
    &&& push_outcome(w0, q0, mat, w1, q1)
    &&& exists|trace: Seq<PushState>|
        #[trigger] push_chain(w0, start, trace) && push_result(w0, q0, mat, trace.last(), w1, q1)
}

/// How a run of `push_block` that ended in `end` leaves world and queue.
pub open spec fn push_result(
    w0: WorldView,
    q0: QueueView,
    mat: GameMaterial,
    end: PushState,
    w1: WorldView,
    q1: QueueView,
) -> bool {
    match end {
        PushState::Placed(p) => placed_at(w0, w1, p, mat) && q1 == q0,
        PushState::Deferred(p) => w1 == w0 && q1 == with_deferred(
            q0,
            chunk_of(p),
            deferred_write(p, mat),
        ),
        PushState::Discarded => w1 == w0 && q1 == q0,
        PushState::At(_, _) => false,
    }
}

/// The settle decision of a block resting on something: it slides down
/// when there is a free cell below and the cell straight below is free, or
/// at most one of the `allowed` cells below is not free, or any of three
/// draws in `[0, allowed]` exceeds the number `n_empty` of free cells.
pub open spec fn falls(n_empty: int, allowed: int, below_empty: bool, draws: (i32, i32, i32)) -> bool {
    n_empty > 0 && (below_empty || n_empty + 1 >= allowed || draws.0 > n_empty || draws.1 > n_empty
        || draws.2 > n_empty)
}

/// Whether a block with `n_empty` free cells among the `allowed` cells
/// below it slides down, given the three draws.
pub fn must_fall(n_empty: i32, allowed: i32, below_empty: bool, draws: (i32, i32, i32)) -> (r: bool)
    ensures
        r == falls(n_empty as int, allowed as int, below_empty, draws),
{
    n_empty > 0 && (below_empty || n_empty as i64 + 1 >= allowed as i64 || draws.0 > n_empty || draws.1 > n_empty
        || draws.2 > n_empty)
}

proof fn lemma_chain_grows(w: WorldView, trace: Seq<PushState>, next: PushState)
    requires
        trace.len() >= 1,
        forall|i: int| 0 <= i < trace.len() - 1 ==> #[trigger] push_next(w, trace[i], trace[i + 1]),
        push_next(w, trace.last(), next),
    ensures
        forall|i: int|
            0 <= i < trace.push(next).len() - 1 ==> #[trigger] push_next(
                w,
                trace.push(next)[i],
                trace.push(next)[i + 1],
            ),
{
    let t = trace.push(next);
    assert forall|i: int| 0 <= i < t.len() - 1 implies #[trigger] push_next(w, t[i], t[i + 1]) by {
        if i < trace.len() - 1 {
            assert(push_next(w, trace[i], trace[i + 1]));
        }
    }
}

proof fn lemma_chain_ends(w: WorldView, start: IVec3, trace: Seq<PushState>, end: PushState)
    requires
        trace.len() >= 1,
        trace[0] == PushState::At(start, 0),
        forall|i: int| 0 <= i < trace.len() - 1 ==> #[trigger] push_next(w, trace[i], trace[i + 1]),
        push_next(w, trace.last(), end),
        !(end is At),
    ensures
        push_chain(w, start, trace.push(end)),
{
    lemma_chain_grows(w, trace, end);
}

/// Where `drop_block` starts a block: just above the top layer of column `xz`.
pub open spec fn drop_start(xz: IVec2) -> IVec3 {
    IVec3 { x: xz.x, y: EDGE, z: xz.y }
}

/// The cells of the square ring at Chebyshev distance `dist` around `pos`, at
/// its height.
pub fn blocks_around(pos: IVec3, dist: i32) -> (r: Vec<IVec3>)
    requires
        0 <= dist <= RING_LIMIT,
        in_limit(pos),
    ensures
        forall|p: IVec3| #[trigger] r@.contains(p) <==> p.y == pos.y && ring_dist(p, pos) == dist,
        r@.len() <= 61 * 61,
        r@.no_duplicates(),
        forall|i: int, j: int|
            0 <= i < j < r@.len() ==> r@[i].x < r@[j].x || (r@[i].x == r@[j].x && r@[i].z < r@[j].z),
{
    let mut r: Vec<IVec3> = Vec::new();
    let mut x: i32 = -dist;
    while x <= dist
        invariant
            0 <= dist <= RING_LIMIT,
            in_limit(pos),
            -dist <= x <= dist + 1,
            r@.len() <= (x + dist) * 61,
            forall|i: int, j: int|
                0 <= i < j < r@.len() ==> r@[i].x < r@[j].x || (r@[i].x == r@[j].x && r@[i].z
                    < r@[j].z),
            forall|i: int| 0 <= i < r@.len() ==> r@[i].x < pos.x + x,
            forall|p: IVec3|
                #[trigger] r@.contains(p) <==> p.y == pos.y && ring_dist(p, pos) == dist && p.x < pos.x + x,
        decreases dist + 1 - x,
    {
        let mut z: i32 = -dist;
        assert forall|p: IVec3| ring_dist(p, pos) == dist implies pos.z - dist <= p.z <= pos.z
            + dist && pos.x - dist <= p.x <= pos.x + dist by {}
        while z <= dist
            invariant
                0 <= dist <= RING_LIMIT,
                in_limit(pos),
                -dist <= x <= dist,
                -dist <= z <= dist + 1,
                r@.len() <= (x + dist) * 61 + (z + dist),
                forall|i: int, j: int|
                    0 <= i < j < r@.len() ==> r@[i].x < r@[j].x || (r@[i].x == r@[j].x && r@[i].z
                        < r@[j].z),
                forall|i: int|
                    0 <= i < r@.len() ==> r@[i].x < pos.x + x || (r@[i].x == pos.x + x && r@[i].z
                        < pos.z + z),
                forall|p: IVec3|
                    #[trigger] r@.contains(p) <==> p.y == pos.y && ring_dist(p, pos) == dist && (p.x < pos.x
                        + x || (p.x == pos.x + x && p.z < pos.z + z)),
            decreases dist + 1 - z,
        {
            let ghost old_r = r@;
            let on_ring = x == dist || x == -dist || z == dist || z == -dist;
            let c = IVec3::new(pos.x + x, pos.y, pos.z + z);
            assert(on_ring <==> ring_dist(c, pos) == dist);
            if on_ring {
                r.push(c);
            }
            assert forall|p: IVec3|
                #[trigger] r@.contains(p) <==> p.y == pos.y && ring_dist(p, pos) == dist && (p.x < pos.x + x
                    || (p.x == pos.x + x && p.z < pos.z + z + 1)) by {
                if on_ring {
                    if r@.contains(p) && p != c {
                        let k = choose|k: int| 0 <= k < r@.len() && r@[k] == p;
                        assert(old_r[k] == p);
                    }
                    if old_r.contains(p) {
                        let k = choose|k: int| 0 <= k < old_r.len() && old_r[k] == p;
                        assert(r@[k] == p);
                    }
                    if p == c {
                        assert(r@[r@.len() - 1] == c);
                    }
                } else {
                    if p.x == pos.x + x && p.z == pos.z + z && p.y == pos.y {
                        assert(p == c);
                    }
                }
            }
            z = z + 1;
        }
        x = x + 1;
    }
    assert forall|i: int, j: int| 0 <= i < r@.len() && 0 <= j < r@.len() && i != j implies r@[i]
        != r@[j] by {
        if i < j {
        } else {
        }
    }
    r
}

/// The whole world: the chunk store seen through global positions.
pub struct WholeBlockWorld {
    pub lazy_world: LazyWorld,
}

impl WholeBlockWorld {
    pub open spec fn wf(&self) -> bool {
        self.lazy_world.wf()
    }

    /// A world with no chunk.
    pub fn new() -> (r: WholeBlockWorld)
        ensures
            r.wf(),
            r.lazy_world@ == Map::<(int, int), crate::block::BlockView>::empty(),
    {
        WholeBlockWorld { lazy_world: LazyWorld::new() }
    }

    /// Whether the chunk at `block_pos` exists.
    pub fn is_initialized_by_blockpos(&self, block_pos: IVec2) -> (r: bool)
        requires
            self.wf(),
        ensures
            r == self.lazy_world@.contains_key(key_of(block_pos)),
    {
        self.lazy_world.is_initialized_by_blockpos(block_pos)
    }

    /// The chunk holding `global_pos`, if it exists, with the position local to it.
    pub fn get_voxel_block_for_pos(&self, global_pos: IVec3) -> (r: Option<(&VoxelBlock, IVec3)>)
        requires
            self.wf(),
        ensures
            r is None <==> !self.lazy_world@.contains_key(chunk_of(global_pos)),
            r matches Some((b, l)) ==> {
                &&& b.wf()
                &&& b@ == self.lazy_world@[chunk_of(global_pos)]
                &&& (b.coord().x as int, b.coord().y as int) == chunk_of(global_pos)
                &&& l.x == local_axis(global_pos.x as int)
                &&& l.y == global_pos.y
                &&& l.z == local_axis(global_pos.z as int)
            },
    {
        let (block_pos, local_pos) = VoxelBlock::inner_pos(global_pos);
        match self.lazy_world.get_part(block_pos) {
            Some(b) => Some((b, local_pos)),
            None => None,
        }
    }

    /// Whether the column of `global_pos` is forbidden (a column of a chunk
    /// that does not exist yet is not).
    pub fn is_in_forbidden_column(&self, global_pos: IVec3) -> (r: bool)
        requires
            self.wf(),
        ensures
            r == (self.lazy_world@.contains_key(chunk_of(global_pos)) && self.lazy_world@[chunk_of(
                global_pos,
            )].is_forbidden(local_axis(global_pos.x as int), local_axis(global_pos.z as int))),
    {
        match self.get_voxel_block_for_pos(global_pos) {
            Some((b, l)) => b.is_forbidden(IVec2::new(l.x, l.z)),
            None => false,
        }
    }

    /// The state of the cell at `global_pos`.
    pub fn get_block_value(&self, global_pos: IVec3) -> (r: BlockState)
        requires
            self.wf(),
            in_height(global_pos),
        ensures
            r == state_in(self.lazy_world@, global_pos),
    {
        match self.get_voxel_block_for_pos(global_pos) {
            Some((b, l)) => {
                if b.is_forbidden(IVec2::new(l.x, l.z)) {
                    BlockState::Forbidden
                } else {
                    match b.read(l) {
                        Some(m) => BlockState::Full(m),
                        None => BlockState::Empty,
                    }
                }
            },
            None => BlockState::Empty,
        }
    }

    /// The cells of `cells` that a block may move into.
    fn candidates_in(&self, cells: &Vec<IVec3>) -> (r: Vec<IVec3>)
        requires
            self.wf(),
            forall|i: int| 0 <= i < cells@.len() ==> in_height(#[trigger] cells@[i]),
        ensures
            forall|p: IVec3|
                #[trigger] r@.contains(p) <==> cells@.contains(p) && is_candidate(self.lazy_world@, p),
            r@.len() <= cells@.len(),
            (forall|k: int| 0 <= k < cells@.len() ==> is_candidate(self.lazy_world@, #[trigger] cells@[k]))
                ==> r@.len() == cells@.len(),
    {
        let mut r: Vec<IVec3> = Vec::new();
        let mut i: usize = 0;
        while i < cells.len()
            invariant
                self.wf(),
                i <= cells@.len(),
                r@.len() <= i,
                (forall|k: int| 0 <= k < i ==> is_candidate(self.lazy_world@, #[trigger] cells@[k]))
                    ==> r@.len() == i,
                forall|k: int| 0 <= k < cells@.len() ==> in_height(#[trigger] cells@[k]),
                forall|p: IVec3|
                    #[trigger] r@.contains(p) <==> cells@.subrange(0, i as int).contains(p) && is_candidate(
                        self.lazy_world@,
                        p,
                    ),
            decreases cells@.len() - i,
        {
            let p = cells[i];
            let ghost old_r = r@;
            let inside = -WORLD_LIMIT <= p.x && p.x <= WORLD_LIMIT && -WORLD_LIMIT <= p.z && p.z
                <= WORLD_LIMIT;
            let take = inside && self.get_block_value(p) == BlockState::Empty;
            if take {
                r.push(p);
            }
            assert forall|q: IVec3|
                #[trigger] r@.contains(q) <==> cells@.subrange(0, i + 1).contains(q) && is_candidate(
                    self.lazy_world@,
                    q,
                ) by {
                let s0 = cells@.subrange(0, i as int);
                let s1 = cells@.subrange(0, i + 1);
                if s1.contains(q) {
                    let k = choose|k: int| 0 <= k < s1.len() && s1[k] == q;
                    if k < i {
                        assert(s0[k] == q);
                    }
                }
                if s0.contains(q) {
                    let k = choose|k: int| 0 <= k < s0.len() && s0[k] == q;
                    assert(s1[k] == q);
                }
                assert(s1[i as int] == p);
                if take {
                    if r@.contains(q) && q != p {
                        let k = choose|k: int| 0 <= k < r@.len() && r@[k] == q;
                        assert(old_r[k] == q);
                    }
                    if old_r.contains(q) {
                        let k = choose|k: int| 0 <= k < old_r.len() && old_r[k] == q;
                        assert(r@[k] == q);
                    }
                    if q == p {
                        assert(r@[r@.len() - 1] == p);
                    }
                }
            }
            i = i + 1;
        }
        assert(cells@.subrange(0, cells@.len() as int) =~= cells@);
        r
    }

    /// A cell one ring after another around `center` (nearest ring first)
    /// that a block may move into, chosen at random within its ring.
    fn find_in_rings(&self, center: IVec3, rng: &mut StdRng) -> (r: Option<IVec3>)
        requires
            self.wf(),
            in_limit(center),
            in_height(center),
        ensures
            r matches Some(p) ==> is_candidate(self.lazy_world@, p) && p.y == center.y && ring_dist(
                p,
                center,
            ) == first_ring(self.lazy_world@, center, 1) && first_ring(self.lazy_world@, center, 1)
                < RING_LIMIT,
            r is None ==> first_ring(self.lazy_world@, center, 1) == RING_LIMIT,
    {
        let mut rad: i32 = 1;
        while rad < RING_LIMIT
            invariant
                self.wf(),
                in_limit(center),
                in_height(center),
                1 <= rad <= RING_LIMIT,
                first_ring(self.lazy_world@, center, 1) == first_ring(self.lazy_world@, center, rad as int),
            decreases RING_LIMIT - rad,
        {
            let ring = blocks_around(center, rad);
            assert forall|i: int| 0 <= i < ring@.len() implies in_height(#[trigger] ring@[i]) by {
                assert(ring@.contains(ring@[i]));
            }
            let empties = self.candidates_in(&ring);
            if empties.len() > 0 {
                let p = pick(rng, &empties).unwrap();
                assert(empties@.contains(p));
                assert(ring_has_candidate(self.lazy_world@, center, rad as int));
                return Some(p);
            }
            proof {
                if ring_has_candidate(self.lazy_world@, center, rad as int) {
                    let q = choose|q: IVec3|
                        q.y == center.y && ring_dist(q, center) == rad && #[trigger] is_candidate(
                            self.lazy_world@,
                            q,
                        );
                    assert(ring@.contains(q));
                    assert(empties@.contains(q));
                }
            }
            rad = rad + 1;
        }
        None
    }

    /// Places `mat` at `global_pos`, or wherever gravity and crowding move
    /// it; a block bound for a chunk that does not exist yet is queued in
    /// `change_collector`, and a block with nowhere to go is discarded.
    ///
    /// Each step (see `push_next`) looks at the current target: a missing
    /// chunk queues the block; above the top layer it falls onto the top
    /// layer, or into the nearest ring of free cells there; in the air with
    /// nothing but empty (or forbidden) cells below it falls straight down,
    /// and with some support it may randomly slide down into a free cell below
    /// (see `must_fall`); a free target takes the block; a taken one sends it
    /// aside or up, at most `RING_LIMIT` times.
    pub fn push_block(
        &mut self,
        global_pos: IVec3,
        mat: GameMaterial,
        change_collector: &mut VoxelBlockChanges,
        rng: &mut StdRng,
    )
        requires
            old(self).wf(),
            old(change_collector).wf(),
            in_limit(global_pos),
            0 <= global_pos.y,
        ensures
            final(self).wf(),
            final(change_collector).wf(),
            final(self).lazy_world.order() == old(self).lazy_world.order(),
            push_outcome(
                old(self).lazy_world@,
                old(change_collector)@,
                mat,
                final(self).lazy_world@,
                final(change_collector)@,
            ),
            exists|trace: Seq<PushState>|
                #[trigger] push_chain(old(self).lazy_world@, global_pos, trace) && push_result(
                    old(self).lazy_world@,
                    old(change_collector)@,
                    mat,
                    trace.last(),
                    final(self).lazy_world@,
                    final(change_collector)@,
                ),
            !old(self).lazy_world@.contains_key(chunk_of(global_pos)) ==> final(self).lazy_world@
                == old(self).lazy_world@ && final(change_collector)@ == with_deferred(
                old(change_collector)@,
                chunk_of(global_pos),
                deferred_write(global_pos, mat),
            ),
            settles_at(old(self).lazy_world@, global_pos) ==> placed_at(
                old(self).lazy_world@,
                final(self).lazy_world@,
                global_pos,
                mat,
            ) && final(change_collector)@ == old(change_collector)@,
            clear_below(old(self).lazy_world@, global_pos) ==> placed_at(
                old(self).lazy_world@,
                final(self).lazy_world@,
                IVec3 { x: global_pos.x, y: 0, z: global_pos.z },
                mat,
            ) && final(change_collector)@ == old(change_collector)@,
    {
        let ghost w0 = self.lazy_world@;
        let ghost q0 = change_collector@;
        let mut pos = global_pos;
        let mut relocations: i32 = 0;
        let ghost mut trace: Seq<PushState> = seq![PushState::At(global_pos, 0)];
        loop
            invariant
                self.wf(),
                change_collector.wf(),
                self.lazy_world@ == w0,
                self.lazy_world.order() == old(self).lazy_world.order(),
                change_collector@ == q0,
                w0 == old(self).lazy_world@,
                q0 == old(change_collector)@,
                in_limit(pos),
                0 <= pos.y,
                0 <= relocations <= RING_LIMIT,
                trace.len() >= 1,
                trace[0] == PushState::At(global_pos, 0),
                trace.last() == PushState::At(pos, relocations as nat),
                forall|i: int|
                    0 <= i < trace.len() - 1 ==> #[trigger] push_next(w0, trace[i], trace[i + 1]),
                !w0.contains_key(chunk_of(global_pos)) ==> pos == global_pos,
                settles_at(w0, global_pos) ==> pos == global_pos,
                clear_below(w0, global_pos) ==> pos.x == global_pos.x && pos.z == global_pos.z
                    && pos.y <= global_pos.y && (pos.y == global_pos.y || pos.y < EDGE),
            decreases RING_LIMIT - relocations, pos.y,
        {
            let ghost here = PushState::At(pos, relocations as nat);
            let (block_pos, local_pos) = VoxelBlock::inner_pos(pos);
            // a chunk that does not exist yet receives the block later
            if !self.lazy_world.is_initialized_by_blockpos(block_pos) {
                change_collector.register_change(pos, mat);
                proof {
                    assert(push_next(w0, here, PushState::Deferred(pos)));
                    lemma_chain_ends(w0, global_pos, trace, PushState::Deferred(pos));
                    assert(push_result(w0, q0, mat, PushState::Deferred(pos), self.lazy_world@, change_collector@));
                }
                return;
            }
            // above the top layer: fall onto it, or search the rings just below
            if pos.y >= EDGE {
                let below = IVec3::new(pos.x, EDGE - 1, pos.z);
                if self.get_block_value(below) == BlockState::Empty {
                    proof {
                        assert(push_next(w0, here, PushState::At(below, relocations as nat)));
                        lemma_chain_grows(w0, trace, PushState::At(below, relocations as nat));
                        trace = trace.push(PushState::At(below, relocations as nat));
                    }
                    pos = below;
                    continue;
                }
                assert(!clear_below(w0, global_pos));
                match self.find_in_rings(below, rng) {
                    Some(p) => {
                        proof {
                            assert(push_next(w0, here, PushState::At(p, relocations as nat)));
                            lemma_chain_grows(w0, trace, PushState::At(p, relocations as nat));
                            trace = trace.push(PushState::At(p, relocations as nat));
                        }
                        pos = p;
                        continue;
                    },
                    None => {
                        proof {
                            assert(push_next(w0, here, PushState::Discarded));
                            lemma_chain_ends(w0, global_pos, trace, PushState::Discarded);
                        }
                        return;
                    },
                }
            }
            if pos.y > 0 {
                let below = IVec3::new(pos.x, pos.y - 1, pos.z);
                let mut cells = blocks_around(below, 1);
                let ghost ring = cells@;
                cells.push(below);
                proof {
                    assert forall|q: IVec3| #[trigger] cells@.contains(q) <==> q.y == pos.y - 1
                        && ring_dist(q, pos) <= 1 by {
                        if cells@.contains(q) {
                            let k = choose|k: int| 0 <= k < cells@.len() && cells@[k] == q;
                            if k < ring.len() {
                                assert(ring.contains(ring[k]));
                            }
                        }
                        if q.y == pos.y - 1 && ring_dist(q, pos) <= 1 {
                            if ring_dist(q, pos) == 1 {
                                assert(ring_dist(q, below) == 1);
                                assert(ring.contains(q));
                                let k = choose|k: int| 0 <= k < ring.len() && ring[k] == q;
                                assert(cells@[k] == q);
                            } else {
                                assert(q == below);
                                assert(cells@[cells@.len() - 1] == below);
                            }
                        }
                    }
                    assert forall|i: int| 0 <= i < cells@.len() implies in_height(
                        #[trigger] cells@[i],
                    ) by {
                        assert(cells@.contains(cells@[i]));
                    }
                }
                let empties = self.candidates_in(&cells);
                // how many cells below may hold material, and whether all of
                // those are free
                let mut allowed: i32 = 0;
                let mut all_open = true;
                let mut i: usize = 0;
                while i < cells.len()
                    invariant
                        self.wf(),
                        i <= cells@.len(),
                        cells@.len() <= 61 * 61 + 1,
                        0 <= allowed <= i,
                        forall|k: int| 0 <= k < cells@.len() ==> in_height(#[trigger] cells@[k]),
                        all_open == forall|k: int|
                            0 <= k < i && #[trigger] state_in(self.lazy_world@, cells@[k])
                                != BlockState::Forbidden ==> is_candidate(self.lazy_world@, cells@[k]),
                    decreases cells@.len() - i,
                {
                    let st = self.get_block_value(cells[i]);
                    if st != BlockState::Forbidden {
                        allowed = allowed + 1;
                        let p = cells[i];
                        let inside = -WORLD_LIMIT <= p.x && p.x <= WORLD_LIMIT && -WORLD_LIMIT
                            <= p.z && p.z <= WORLD_LIMIT;
                        if !(inside && st == BlockState::Empty) {
                            all_open = false;
                        }
                    }
                    i = i + 1;
                }
                proof {
                    assert(all_open == open_below(w0, pos)) by {
                        if all_open {
                            assert forall|q: IVec3|
                                q.y == pos.y - 1 && ring_dist(q, pos) <= 1 && #[trigger] state_in(
                                    w0,
                                    q,
                                ) != BlockState::Forbidden implies is_candidate(w0, q) by {
                                assert(cells@.contains(q));
                                let k = choose|k: int| 0 <= k < cells@.len() && cells@[k] == q;
                            }
                        } else {
                            let k = choose|k: int|
                                0 <= k < cells@.len() && #[trigger] state_in(w0, cells@[k])
                                    != BlockState::Forbidden && !is_candidate(w0, cells@[k]);
                            assert(cells@.contains(cells@[k]));
                        }
                    }
                    assert((empties@.len() > 0) == below_has_candidate(w0, pos)) by {
                        if empties@.len() > 0 {
                            assert(empties@.contains(empties@[0]));
                        } else if below_has_candidate(w0, pos) {
                            let q = choose|q: IVec3|
                                q.y == pos.y - 1 && ring_dist(q, pos) <= 1 && #[trigger] is_candidate(
                                    w0,
                                    q,
                                );
                            assert(cells@.contains(q));
                            assert(empties@.contains(q));
                        }
                    }
                    if clear_below(w0, global_pos) {
                        assert(open_below(w0, pos)) by {
                            assert forall|q: IVec3|
                                q.y == pos.y - 1 && ring_dist(q, pos) <= 1 && #[trigger] state_in(
                                    w0,
                                    q,
                                ) != BlockState::Forbidden implies is_candidate(w0, q) by {}
                        }
                    }
                    if settles_at(w0, global_pos) && pos == global_pos {
                        assert(!is_candidate(w0, below));
                        assert(!open_below(w0, pos));
                        if empties@.len() > 0 {
                            assert(empties@.contains(empties@[0]));
                            assert(cells@.contains(empties@[0]));
                        }
                    }
                }
                if all_open {
                    // no support below: keep falling straight down
                    proof {
                        assert(push_next(w0, here, PushState::At(below, relocations as nat)));
                        lemma_chain_grows(w0, trace, PushState::At(below, relocations as nat));
                        trace = trace.push(PushState::At(below, relocations as nat));
                    }
                    pos = below;
                    continue;
                }
                let n_empty = empties.len() as i32;
                let below_empty = self.get_block_value(below) == BlockState::Empty;
                // the draws are taken only where they can decide
                let draws = if n_empty > 0 && !below_empty && n_empty + 1 < allowed {
                    (
                        gen_range_inclusive(rng, 0, allowed),
                        gen_range_inclusive(rng, 0, allowed),
                        gen_range_inclusive(rng, 0, allowed),
                    )
                } else {
                    (0, 0, 0)
                };
                if must_fall(n_empty, allowed, below_empty, draws) {
                    let p = pick(rng, &empties).unwrap();
                    assert(empties@.contains(p));
                    assert(cells@.contains(p));
                    proof {
                        assert(push_next(w0, here, PushState::At(p, relocations as nat)));
                        lemma_chain_grows(w0, trace, PushState::At(p, relocations as nat));
                        trace = trace.push(PushState::At(p, relocations as nat));
                    }
                    pos = p;
                    continue;
                }
                assert(!(below_has_candidate(w0, pos) && state_in(w0, below) == BlockState::Empty));
            }
            proof {
                if clear_below(w0, global_pos) && pos.y > 0 {
                    assert(false);
                }
            }
            if self.get_block_value(pos) == BlockState::Empty {
                self.lazy_world.write_cell(block_pos, local_pos, mat);
                proof {
                    assert(placed_at(w0, self.lazy_world@, pos, mat));
                    assert(resting_step(w0, pos, relocations as nat, PushState::Placed(pos)));
                    assert(push_next(w0, here, PushState::Placed(pos)));
                    lemma_chain_ends(w0, global_pos, trace, PushState::Placed(pos));
                }
                return;
            }
            if relocations >= RING_LIMIT {
                // moved aside too many times: give the block up
                proof {
                    assert(resting_step(w0, pos, relocations as nat, PushState::Discarded));
                    assert(push_next(w0, here, PushState::Discarded));
                    lemma_chain_ends(w0, global_pos, trace, PushState::Discarded);
                }
                return;
            }
            // the cell is taken: move to an empty cell of the first ring, or two
            // cells up; the cell two above is offered three times, so it weighs
            // more than any single cell of the ring (and the ring never comes
            // up empty, so no further ring is needed)
            relocations = relocations + 1;
            let ring = blocks_around(pos, 1);
            assert forall|i: int| 0 <= i < ring@.len() implies in_height(#[trigger] ring@[i]) by {
                assert(ring@.contains(ring@[i]));
            }
            let mut around = self.candidates_in(&ring);
            let ghost near = around@;
            let above = IVec3::new(pos.x, pos.y + 2, pos.z);
            around.push(above);
            around.push(above);
            around.push(above);
            let p = pick(rng, &around).unwrap();
            proof {
                let k = choose|k: int| 0 <= k < around@.len() && around@[k] == p;
                if k < near.len() {
                    assert(near.contains(near[k]));
                    assert(ring@.contains(near[k]));
                }
                assert(resting_step(w0, pos, (relocations - 1) as nat, PushState::At(p, relocations as nat)));
                assert(push_next(w0, here, PushState::At(p, relocations as nat)));
                lemma_chain_grows(w0, trace, PushState::At(p, relocations as nat));
                trace = trace.push(PushState::At(p, relocations as nat));
            }
            pos = p;
        }
    }

    /// Drops `mat` onto column `global_pos_xz` from just above the top layer.
    pub fn drop_block(
        &mut self,
        global_pos_xz: IVec2,
        mat: GameMaterial,
        change_collector: &mut VoxelBlockChanges,
        rng: &mut StdRng,
    )
        requires
            old(self).wf(),
            old(change_collector).wf(),
            in_limit(drop_start(global_pos_xz)),
        ensures
            final(self).wf(),
            final(change_collector).wf(),
            final(self).lazy_world.order() == old(self).lazy_world.order(),
            push_outcome(
                old(self).lazy_world@,
                old(change_collector)@,
                mat,
                final(self).lazy_world@,
                final(change_collector)@,
            ),
            !old(self).lazy_world@.contains_key(chunk_of(drop_start(global_pos_xz)))
                ==> final(self).lazy_world@ == old(self).lazy_world@ && final(change_collector)@
                == with_deferred(
                old(change_collector)@,
                chunk_of(drop_start(global_pos_xz)),
                deferred_write(drop_start(global_pos_xz), mat),
            ),
            exists|trace: Seq<PushState>|
                #[trigger] push_chain(old(self).lazy_world@, drop_start(global_pos_xz), trace)
                    && push_result(
                    old(self).lazy_world@,
                    old(change_collector)@,
                    mat,
                    trace.last(),
                    final(self).lazy_world@,
                    final(change_collector)@,
                ),
            clear_below(old(self).lazy_world@, drop_start(global_pos_xz)) ==> placed_at(
                old(self).lazy_world@,
                final(self).lazy_world@,
                IVec3 { x: global_pos_xz.x, y: 0, z: global_pos_xz.y },
                mat,
            ) && final(change_collector)@ == old(change_collector)@,
    {
        let start = IVec3::new(global_pos_xz.x, EDGE, global_pos_xz.y);
        self.push_block(start, mat, change_collector, rng);
    }

    /// Removes the material at `global_pos` and returns it (`None` when the
    /// cell is empty or its chunk does not exist). The column above then
    /// collapses: each block above is lifted out and pushed again, bottom to
    /// top, starting at the emptied cell.
    pub fn steal_block(
        &mut self,
        global_pos: IVec3,
        change_collector: &mut VoxelBlockChanges,
        rng: &mut StdRng,
    ) -> (r: Option<GameMaterial>)
        requires
            old(self).wf(),
            old(change_collector).wf(),
            in_limit(global_pos),
            in_height(global_pos),
        ensures
            final(self).wf(),
            final(change_collector).wf(),
            final(self).lazy_world.order() == old(self).lazy_world.order(),
            final(self).lazy_world@.dom() == old(self).lazy_world@.dom(),
            keeps_full_cells_outside(old(self).lazy_world@, final(self).lazy_world@, global_pos),
            steal_post(
                old(self).lazy_world@,
                old(change_collector)@,
                global_pos,
                r,
                final(self).lazy_world@,
                final(change_collector)@,
            ),
    {
        let ghost w0 = self.lazy_world@;
        let ghost q0 = change_collector@;
        let ghost c = chunk_of(global_pos);
        let ghost lx = local_axis(global_pos.x as int);
        let ghost lz = local_axis(global_pos.z as int);
        let (block_pos, local_pos) = VoxelBlock::inner_pos(global_pos);
        if !self.lazy_world.is_initialized_by_blockpos(block_pos) {
            return None;
        }
        proof {
            self.lazy_world.lemma_parts_wf();
        }
        let mt = self.lazy_world.take_cell(block_pos, local_pos);
        if mt.is_none() {
            proof {
                assert(w0[c].set(lx, global_pos.y as int, lz, None).cells =~= w0[c].cells);
                assert(self.lazy_world@ =~= w0);
            }
            return None;
        }
        let ghost from = global_pos.y as int;
        proof {
            assert(!w0[c].is_forbidden(lx, lz));
            lemma_restacked_base(w0, global_pos, from);
            lemma_restacked_set(w0, w0, global_pos, from, from, Seq::empty(), None);
        }
        let mut mats: Vec<GameMaterial> = Vec::new();
        let mut y: i32 = local_pos.y + 1;
        while y < EDGE
            invariant
                self.wf(),
                self.lazy_world.order() == old(self).lazy_world.order(),
                self.lazy_world@.contains_key(key_of(block_pos)),
                key_of(block_pos) == c,
                c == chunk_of(global_pos),
                lx == local_axis(global_pos.x as int),
                lz == local_axis(global_pos.z as int),
                local_pos.x == lx && local_pos.z == lz && local_pos.y == global_pos.y,
                from == global_pos.y,
                in_height(global_pos),
                w0.contains_key(c),
                w0[c].wf(),
                !w0[c].is_forbidden(lx, lz),
                from + 1 <= y <= EDGE,
                restacked(w0, self.lazy_world@, global_pos, from, y as int, Seq::empty()),
                self.lazy_world@.dom() == w0.dom(),
                mats@ == stack_between(w0[c], lx, lz, from + 1, y as int),
            decreases EDGE - y,
        {
            let lp = IVec3::new(local_pos.x, y, local_pos.z);
            let ghost before = self.lazy_world@;
            let m = self.lazy_world.take_cell(block_pos, lp);
            proof {
                lemma_restacked_get(w0, before, global_pos, from, y as int, Seq::empty(), lx, y as int, lz);
                lemma_restacked_set(w0, before, global_pos, from, y as int, Seq::empty(), None);
            }
            match m {
                Some(v) => mats.push(v),
                None => {},
            }
            y = y + 1;
        }
        let ghost stack = mats@;
        proof {
            lemma_stack_len(w0[c], lx, lz, from + 1, EDGE as int);
            assert forall|q: IVec3|
                in_height(q) && !(q.x == global_pos.x && q.z == global_pos.z && q.y >= global_pos.y)
                    && #[trigger] state_in(w0, q) is Full implies state_in(self.lazy_world@, q)
                == state_in(w0, q) by {
                lemma_restacked_state_off_column(
                    w0,
                    self.lazy_world@,
                    global_pos,
                    from,
                    EDGE as int,
                    Seq::empty(),
                    q,
                );
            }
        }
        let mut j: usize = 0;
        while j < mats.len()
            invariant
                self.wf(),
                change_collector.wf(),
                self.lazy_world.order() == old(self).lazy_world.order(),
                key_of(block_pos) == c,
                c == chunk_of(global_pos),
                lx == local_axis(global_pos.x as int),
                lz == local_axis(global_pos.z as int),
                from == global_pos.y,
                in_height(global_pos),
                in_limit(global_pos),
                w0.contains_key(c),
                w0[c].wf(),
                !w0[c].is_forbidden(lx, lz),
                mats@ == stack,
                stack == stack_between(w0[c], lx, lz, from + 1, EDGE as int),
                stack.len() <= EDGE - from - 1,
                j <= stack.len(),
                self.lazy_world@.dom() == w0.dom(),
                keeps_full_cells_outside(w0, self.lazy_world@, global_pos),
                stack_supported(w0, global_pos, stack.len() as int) ==> restacked(
                    w0,
                    self.lazy_world@,
                    global_pos,
                    from,
                    EDGE as int,
                    stack.subrange(0, j as int),
                ) && change_collector@ == q0,
            decreases stack.len() - j,
        {
            let target = IVec3::new(global_pos.x, global_pos.y + j as i32, global_pos.z);
            let ghost before = self.lazy_world@;
            proof {
                if stack_supported(w0, global_pos, stack.len() as int) {
                    lemma_restack_settles(w0, before, global_pos, stack, j as int);
                }
            }
            let ghost qb = change_collector@;
            proof {
                self.lazy_world.lemma_parts_wf();
            }
            self.push_block(target, mats[j], change_collector, rng);
            proof {
                assert forall|q: IVec3|
                    in_height(q) && !(q.x == global_pos.x && q.z == global_pos.z && q.y
                        >= global_pos.y) && #[trigger] state_in(w0, q) is Full implies state_in(
                    self.lazy_world@,
                    q,
                ) == state_in(w0, q) by {
                    assert(state_in(before, q) == state_in(w0, q));
                    lemma_push_keeps_occupied(
                        before,
                        qb,
                        stack[j as int],
                        self.lazy_world@,
                        change_collector@,
                        q,
                    );
                }
                lemma_push_outcome_facts(before, qb, stack[j as int], self.lazy_world@, change_collector@);
                if stack_supported(w0, global_pos, stack.len() as int) {
                    lemma_restacked_place(
                        w0,
                        before,
                        global_pos,
                        from,
                        stack.subrange(0, j as int),
                        stack[j as int],
                    );
                    assert(stack.subrange(0, j as int).push(stack[j as int]) =~= stack.subrange(
                        0,
                        j + 1,
                    ));
                }
            }
            j = j + 1;
        }
        proof {
            assert(stack.subrange(0, stack.len() as int) =~= stack);
        }
        mt
    }
}

/// Materials of local column `(lx, lz)` of `b` at heights `[lo, hi)`, bottom to top.
pub open spec fn stack_between(b: BlockView, lx: int, lz: int, lo: int, hi: int) -> Seq<
    GameMaterial,
>
    decreases hi - lo,
{
    if hi <= lo {
        Seq::empty()
    } else {
        let below = stack_between(b, lx, lz, lo, hi - 1);
        match b.get(lx, hi - 1, lz) {
            Some(m) => below.push(m),
            None => below,
        }
    }
}

/// `w1` is `w0` with the cells of `p`'s column at heights `[from, to)` replaced
/// by `mats` stacked from `from` up, and empty above them.
pub open spec fn restacked(
    w0: WorldView,
    w1: WorldView,
    p: IVec3,
    from: int,
    to: int,
    mats: Seq<GameMaterial>,
) -> bool {
    let c = chunk_of(p);
    let lx = local_axis(p.x as int);
    let lz = local_axis(p.z as int);
    &&& w0.contains_key(c)
    &&& w1.dom() == w0.dom()
    &&& forall|c2: (int, int)| #[trigger] w0.contains_key(c2) && c2 != c ==> w1[c2] == w0[c2]
    &&& w1[c].forbidden == w0[c].forbidden
    &&& w1[c].cells.len() == w0[c].cells.len()
    &&& forall|x: int, y: int, z: int|
        0 <= x < 32 && 0 <= y < 32 && 0 <= z < 32 ==> #[trigger] w1[c].get(x, y, z) == if x == lx
            && z == lz && from <= y < to {
            if y - from < mats.len() {
                Some(mats[y - from])
            } else {
                None
            }
        } else {
            w0[c].get(x, y, z)
        }
}

/// The blocks lifted out of `p`'s column settle straight back into it: the
/// cell below `p` is full (unless `p` is on the floor), and none of the cells
/// of the neighbouring columns at the heights the `n` blocks rest on is empty.
pub open spec fn stack_supported(w: WorldView, p: IVec3, n: int) -> bool {
    &&& (p.y > 0 && n > 0 ==> state_in(w, IVec3 { x: p.x, y: (p.y - 1) as i32, z: p.z }) is Full)
    &&& forall|q: IVec3|
        p.y <= q.y + 1 < p.y + n && 0 <= q.y && ring_dist(q, p) == 1 ==> #[trigger] state_in(w, q)
            != BlockState::Empty
}

/// What `steal_block` guarantees: it returns the stolen material, changes
/// nothing when there was none, and, when the blocks above settle straight
/// back, leaves the column above shifted down by one with its order kept.
pub open spec fn steal_post(
    w0: WorldView,
    q0: QueueView,
    p: IVec3,
    r: Option<GameMaterial>,
    w1: WorldView,
    q1: QueueView,
) -> bool {
    let c = chunk_of(p);
    let lx = local_axis(p.x as int);
    let lz = local_axis(p.z as int);
    let stack = stack_between(w0[c], lx, lz, p.y + 1, EDGE as int);
    &&& r == if w0.contains_key(c) {
        w0[c].get(lx, p.y as int, lz)
    } else {
        None
    }
    &&& r is None ==> w1 == w0 && q1 == q0
    &&& r is Some && stack_supported(w0, p, stack.len() as int) ==> restacked(
        w0,
        w1,
        p,
        p.y as int,
        EDGE as int,
        stack,
    ) && q1 == q0
}

proof fn lemma_stack_len(b: BlockView, lx: int, lz: int, lo: int, hi: int)
    ensures
        stack_between(b, lx, lz, lo, hi).len() <= if hi >= lo { hi - lo } else { 0 },
    decreases hi - lo,
{
    if hi > lo {
        lemma_stack_len(b, lx, lz, lo, hi - 1);
    }
}

proof fn lemma_restacked_get(
    w0: WorldView,
    w1: WorldView,
    p: IVec3,
    from: int,
    to: int,
    mats: Seq<GameMaterial>,
    x: int,
    y: int,
    z: int,
)
    requires
        restacked(w0, w1, p, from, to, mats),
        0 <= x < 32 && 0 <= y < 32 && 0 <= z < 32,
    ensures
        w1[chunk_of(p)].get(x, y, z) == if x == local_axis(p.x as int) && z == local_axis(
            p.z as int,
        ) && from <= y < to {
            if y - from < mats.len() {
                Some(mats[y - from])
            } else {
                None
            }
        } else {
            w0[chunk_of(p)].get(x, y, z)
        },
{
}

/// Writing cell `(lx, to, lz)` of the column extends the restacked range by one.
proof fn lemma_restacked_set(
    w0: WorldView,
    w1: WorldView,
    p: IVec3,
    from: int,
    to: int,
    mats: Seq<GameMaterial>,
    v: Option<GameMaterial>,
)
    requires
        w0.contains_key(chunk_of(p)),
        w0[chunk_of(p)].wf(),
        restacked(w0, w1, p, from, to, mats),
        0 <= from <= to,
        mats.len() <= to - from,
        v is Some ==> mats.len() == to - from,
        to < 32,
    ensures
        ({
            let c = chunk_of(p);
            let lx = local_axis(p.x as int);
            let lz = local_axis(p.z as int);
            let w2 = w1.insert(c, w1[c].set(lx, to, lz, v));
            restacked(
                w0,
                w2,
                p,
                from,
                to + 1,
                match v {
                    Some(m) => mats.push(m),
                    None => mats,
                },
            )
        }),
{
    let c = chunk_of(p);
    let lx = local_axis(p.x as int);
    let lz = local_axis(p.z as int);
    let w2 = w1.insert(c, w1[c].set(lx, to, lz, v));
    let m2 = match v {
        Some(m) => mats.push(m),
        None => mats,
    };
    assert(w2.dom() =~= w0.dom());
    assert forall|x: int, y: int, z: int|
        0 <= x < 32 && 0 <= y < 32 && 0 <= z < 32 implies #[trigger] w2[c].get(x, y, z) == if x
            == lx && z == lz && from <= y < to + 1 {
            if y - from < m2.len() {
                Some(m2[y - from])
            } else {
                None
            }
        } else {
            w0[c].get(x, y, z)
        } by {
        if cell_index(x, y, z) == cell_index(lx, to, lz) {
            lemma_cell_index_injective(x, y, z, lx, to, lz);
        } else {
            assert(w2[c].get(x, y, z) == w1[c].get(x, y, z));
        }
    }
}

proof fn lemma_restacked_base(w0: WorldView, p: IVec3, from: int)
    requires
        w0.contains_key(chunk_of(p)),
    ensures
        restacked(w0, w0, p, from, from, Seq::empty()),
{
}

/// Putting the next block on top of the restacked blocks extends them by one.
proof fn lemma_restacked_place(
    w0: WorldView,
    w1: WorldView,
    p: IVec3,
    from: int,
    mats: Seq<GameMaterial>,
    m: GameMaterial,
)
    requires
        w0[chunk_of(p)].wf(),
        restacked(w0, w1, p, from, EDGE as int, mats),
        0 <= from,
        from + mats.len() < EDGE,
    ensures
        ({
            let c = chunk_of(p);
            let lx = local_axis(p.x as int);
            let lz = local_axis(p.z as int);
            let w2 = w1.insert(c, w1[c].set(lx, from + mats.len(), lz, Some(m)));
            restacked(w0, w2, p, from, EDGE as int, mats.push(m))
        }),
{
    let c = chunk_of(p);
    let lx = local_axis(p.x as int);
    let lz = local_axis(p.z as int);
    let h = from + mats.len();
    let w2 = w1.insert(c, w1[c].set(lx, h, lz, Some(m)));
    let m2 = mats.push(m);
    assert(w2.dom() =~= w0.dom());
    assert forall|x: int, y: int, z: int|
        0 <= x < 32 && 0 <= y < 32 && 0 <= z < 32 implies #[trigger] w2[c].get(x, y, z) == if x
            == lx && z == lz && from <= y < EDGE {
            if y - from < m2.len() {
                Some(m2[y - from])
            } else {
                None
            }
        } else {
            w0[c].get(x, y, z)
        } by {
        vstd::arithmetic::div_mod::lemma_mod_bound(p.x as int, 32);
        vstd::arithmetic::div_mod::lemma_mod_bound(p.z as int, 32);
        if cell_index(x, y, z) == cell_index(lx, h, lz) {
            lemma_cell_index_injective(x, y, z, lx, h, lz);
        } else {
            assert(w2[c].get(x, y, z) == w1[c].get(x, y, z));
        }
    }
}

/// Every full cell of `w0` outside `p`'s column from `p`'s height up holds
/// the same material in `w1`.
pub open spec fn keeps_full_cells_outside(w0: WorldView, w1: WorldView, p: IVec3) -> bool {
    forall|q: IVec3|
        in_height(q) && !(q.x == p.x && q.z == p.z && q.y >= p.y) && #[trigger] state_in(w0, q)
            is Full ==> state_in(w1, q) == state_in(w0, q)
}

/// Outside `p`'s column a restacked world reads as before.
proof fn lemma_restacked_state_off_column(
    w0: WorldView,
    w1: WorldView,
    p: IVec3,
    from: int,
    to: int,
    mats: Seq<GameMaterial>,
    q: IVec3,
)
    requires
        restacked(w0, w1, p, from, to, mats),
        in_height(q),
        q.x != p.x || q.z != p.z || q.y < from,
    ensures
        state_in(w1, q) == state_in(w0, q),
{
    let c = chunk_of(p);
    let cq = chunk_of(q);
    vstd::arithmetic::div_mod::lemma_fundamental_div_mod(p.x as int, 32);
    vstd::arithmetic::div_mod::lemma_fundamental_div_mod(p.z as int, 32);
    vstd::arithmetic::div_mod::lemma_fundamental_div_mod(q.x as int, 32);
    vstd::arithmetic::div_mod::lemma_fundamental_div_mod(q.z as int, 32);
    if cq == c && w0.contains_key(c) {
        let lqx = local_axis(q.x as int);
        let lqz = local_axis(q.z as int);
        assert(w1[c].get(lqx, q.y as int, lqz) == w0[c].get(lqx, q.y as int, lqz));
    }
}

/// While the column is being restacked, the next block lands on top of it.
proof fn lemma_restack_settles(w0: WorldView, w1: WorldView, p: IVec3, stack: Seq<GameMaterial>, j: int)
    requires
        restacked(w0, w1, p, p.y as int, EDGE as int, stack.subrange(0, j)),
        stack_supported(w0, p, stack.len() as int),
        0 <= j < stack.len(),
        stack.len() <= EDGE - p.y - 1,
        in_height(p),
        w0[chunk_of(p)].wf(),
        !w0[chunk_of(p)].is_forbidden(local_axis(p.x as int), local_axis(p.z as int)),
    ensures
        settles_at(w1, IVec3 { x: p.x, y: (p.y + j) as i32, z: p.z }),
{
    let c = chunk_of(p);
    let lx = local_axis(p.x as int);
    let lz = local_axis(p.z as int);
    let t = IVec3 { x: p.x, y: (p.y + j) as i32, z: p.z };
    let below = IVec3 { x: p.x, y: (t.y - 1) as i32, z: p.z };
    vstd::arithmetic::div_mod::lemma_mod_bound(p.x as int, 32);
    vstd::arithmetic::div_mod::lemma_mod_bound(p.z as int, 32);
    assert(chunk_of(t) == c);
    assert(w1[c].get(lx, t.y as int, lz) is None);
    if t.y > 0 {
        assert(chunk_of(below) == c);
        if j > 0 {
            assert(w1[c].get(lx, below.y as int, lz) == Some(stack[j - 1]));
        } else {
            assert(w1[c].get(lx, below.y as int, lz) == w0[c].get(lx, below.y as int, lz));
        }
        assert forall|q: IVec3| q.y == t.y - 1 && ring_dist(q, t) <= 1 implies #[trigger] state_in(
            w1,
            q,
        ) != BlockState::Empty by {
            if q.x == p.x && q.z == p.z {
                assert(q == below);
            } else {
                lemma_restacked_state_off_column(
                    w0,
                    w1,
                    p,
                    p.y as int,
                    EDGE as int,
                    stack.subrange(0, j),
                    q,
                );
                assert(ring_dist(q, p) == 1);
            }
        }
    }
}

/// A push leaves the set of chunks as it was, leaves the writes queued for
/// existing chunks alone, and only ever adds writes after those queued.
pub proof fn lemma_push_outcome_facts(
    w0: WorldView,
    q0: QueueView,
    mat: GameMaterial,
    w1: WorldView,
    q1: QueueView,
)
    requires
        push_outcome(w0, q0, mat, w1, q1),
    ensures
        w1.dom() == w0.dom(),
        forall|c: (int, int)| #[trigger]
            w0.contains_key(c) ==> pending_of(q1, c) == pending_of(q0, c),
        forall|c: (int, int)| #[trigger] pending_of(q0, c).is_prefix_of(pending_of(q1, c)),
{
    if q1 == q0 && exists|p: IVec3| #[trigger] placed_at(w0, w1, p, mat) {
        let p = choose|p: IVec3| #[trigger] placed_at(w0, w1, p, mat);
        assert(w1.dom() =~= w0.dom());
    }
    assert forall|c: (int, int)| #[trigger] pending_of(q0, c).is_prefix_of(pending_of(q1, c)) by {
        assert(pending_of(q0, c) =~= pending_of(q0, c).subrange(0, pending_of(q0, c).len() as int));
        if w1 == w0 && exists|p: IVec3|
            !w0.contains_key(chunk_of(p)) && q1 == with_deferred(
                q0,
                chunk_of(p),
                #[trigger] deferred_write(p, mat),
            ) {
            let p = choose|p: IVec3|
                !w0.contains_key(chunk_of(p)) && q1 == with_deferred(
                    q0,
                    chunk_of(p),
                    #[trigger] deferred_write(p, mat),
                );
            if c == chunk_of(p) {
                assert(pending_of(q0, c) =~= pending_of(q1, c).subrange(
                    0,
                    pending_of(q0, c).len() as int,
                ));
            }
        }
    }
}

/// A push changes no cell that is full or forbidden: only one empty cell
/// can become full.
pub proof fn lemma_push_keeps_occupied(
    w0: WorldView,
    q0: QueueView,
    mat: GameMaterial,
    w1: WorldView,
    q1: QueueView,
    p: IVec3,
)
    requires
        forall|c: (int, int)| #[trigger] w0.contains_key(c) ==> w0[c].wf(),
        push_outcome(w0, q0, mat, w1, q1),
        in_height(p),
        state_in(w0, p) != BlockState::Empty,
    ensures
        state_in(w1, p) == state_in(w0, p),
{
    if q1 == q0 && exists|t: IVec3| #[trigger] placed_at(w0, w1, t, mat) {
        let t = choose|t: IVec3| #[trigger] placed_at(w0, w1, t, mat);
        let c = chunk_of(t);
        if chunk_of(p) == c {
            let (lx, lz) = (local_axis(p.x as int), local_axis(p.z as int));
            let (tx, tz) = (local_axis(t.x as int), local_axis(t.z as int));
            vstd::arithmetic::div_mod::lemma_mod_bound(p.x as int, 32);
            vstd::arithmetic::div_mod::lemma_mod_bound(p.z as int, 32);
            vstd::arithmetic::div_mod::lemma_mod_bound(t.x as int, 32);
            vstd::arithmetic::div_mod::lemma_mod_bound(t.z as int, 32);
            assert(0 <= cell_index(lx, p.y as int, lz) < CHUNK_LEN);
            if cell_index(lx, p.y as int, lz) == cell_index(tx, t.y as int, tz) {
                lemma_cell_index_injective(lx, p.y as int, lz, tx, t.y as int, tz);
                assert(state_in(w0, p) == state_in(w0, t));
            } else {
                assert(w1[c].get(lx, p.y as int, lz) == w0[c].get(lx, p.y as int, lz));
                assert(w1[c].is_forbidden(lx, lz) == w0[c].is_forbidden(lx, lz));
            }
        } else {
            assert(w1[chunk_of(p)] == w0[chunk_of(p)]);
        }
    }
}

/// Once a column is forbidden, no push makes any of its cells full: they all
/// stay forbidden.
pub proof fn lemma_forbidden_column_stays_clear(
    w0: WorldView,
    q0: QueueView,
    mat: GameMaterial,
    w1: WorldView,
    q1: QueueView,
    p: IVec3,
)
    requires
        forall|c: (int, int)| #[trigger] w0.contains_key(c) ==> w0[c].wf(),
        push_outcome(w0, q0, mat, w1, q1),
        in_height(p),
        w0.contains_key(chunk_of(p)),
        w0[chunk_of(p)].is_forbidden(local_axis(p.x as int), local_axis(p.z as int)),
    ensures
        state_in(w1, p) == BlockState::Forbidden,
        !(state_in(w1, p) is Full),
{
    lemma_push_keeps_occupied(w0, q0, mat, w1, q1, p);
}

/// A push aimed at a full cell leaves that cell's material in place: the
/// pushed block goes elsewhere or is discarded.
pub proof fn lemma_push_into_full_cell_relocates(
    w0: WorldView,
    q0: QueueView,
    mat: GameMaterial,
    w1: WorldView,
    q1: QueueView,
    p: IVec3,
    old_mat: GameMaterial,
)
    requires
        forall|c: (int, int)| #[trigger] w0.contains_key(c) ==> w0[c].wf(),
        push_outcome(w0, q0, mat, w1, q1),
        in_height(p),
        state_in(w0, p) == BlockState::Full(old_mat),
    ensures
        state_in(w1, p) == BlockState::Full(old_mat),
        !placed_at(w0, w1, p, mat),
{
    lemma_push_keeps_occupied(w0, q0, mat, w1, q1, p);
}

/// Column `(lx, lz)` of `b` holds material exactly at heights `[0, k)`.
pub open spec fn packed_from_floor(b: BlockView, lx: int, lz: int, k: int) -> bool {
    forall|y: int| 0 <= y < 32 ==> (#[trigger] b.get(lx, y, lz) is Some <==> y < k)
}

proof fn lemma_stack_of_packed(b: BlockView, lx: int, lz: int, k: int, hi: int)
    requires
        packed_from_floor(b, lx, lz, k),
        1 <= k <= 32,
        1 <= hi <= 32,
    ensures
        stack_between(b, lx, lz, 1, hi).len() == if hi <= k { hi - 1 } else { k - 1 },
        forall|j: int|
            0 <= j < stack_between(b, lx, lz, 1, hi).len() ==> Some(
                #[trigger] stack_between(b, lx, lz, 1, hi)[j],
            ) == b.get(lx, j + 1, lz),
    decreases hi,
{
    if hi > 1 {
        lemma_stack_of_packed(b, lx, lz, k, hi - 1);
        assert(b.get(lx, hi - 1, lz) is Some <==> hi - 1 < k);
    }
}

/// Stealing the bottom block of a column packed from the floor up to height
/// `k`, whose blocks are held up on every side, leaves `k - 1` blocks packed
/// from the floor in their former order, and changes nothing else.
pub proof fn lemma_steal_collapses_column(
    w0: WorldView,
    q0: QueueView,
    p: IVec3,
    k: int,
    r: Option<GameMaterial>,
    w1: WorldView,
    q1: QueueView,
)
    requires
        forall|c: (int, int)| #[trigger] w0.contains_key(c) ==> w0[c].wf(),
        w0.contains_key(chunk_of(p)),
        p.y == 0,
        1 <= k <= 32,
        packed_from_floor(w0[chunk_of(p)], local_axis(p.x as int), local_axis(p.z as int), k),
        forall|q: IVec3|
            0 <= q.y <= k - 3 && ring_dist(q, p) == 1 ==> #[trigger] state_in(w0, q)
                != BlockState::Empty,
        steal_post(w0, q0, p, r, w1, q1),
    ensures
        ({
            let c = chunk_of(p);
            let lx = local_axis(p.x as int);
            let lz = local_axis(p.z as int);
            &&& r == w0[c].get(lx, 0, lz)
            &&& r is Some
            &&& q1 == q0
            &&& w1.dom() == w0.dom()
            &&& forall|c2: (int, int)| #[trigger] w0.contains_key(c2) && c2 != c ==> w1[c2] == w0[c2]
            &&& w1[c].forbidden == w0[c].forbidden
            &&& forall|y: int| 0 <= y < 32 ==> #[trigger] w1[c].get(lx, y, lz) == if y < k - 1 {
                w0[c].get(lx, y + 1, lz)
            } else {
                None
            }
            &&& forall|x: int, y: int, z: int|
                0 <= x < 32 && 0 <= y < 32 && 0 <= z < 32 && (x != lx || z != lz)
                    ==> #[trigger] w1[c].get(x, y, z) == w0[c].get(x, y, z)
        }),
{
    let c = chunk_of(p);
    let lx = local_axis(p.x as int);
    let lz = local_axis(p.z as int);
    vstd::arithmetic::div_mod::lemma_mod_bound(p.x as int, 32);
    vstd::arithmetic::div_mod::lemma_mod_bound(p.z as int, 32);
    assert(w0[c].get(lx, 0, lz) is Some);
    lemma_stack_of_packed(w0[c], lx, lz, k, 32);
    let stack = stack_between(w0[c], lx, lz, p.y + 1, EDGE as int);
    assert(stack.len() == k - 1);
    assert(stack_supported(w0, p, stack.len() as int));
    assert forall|y: int| 0 <= y < 32 implies #[trigger] w1[c].get(lx, y, lz) == if y < k - 1 {
        w0[c].get(lx, y + 1, lz)
    } else {
        None
    } by {
        if y < k - 1 {
            assert(Some(stack[y]) == w0[c].get(lx, y + 1, lz));
        }
    }
}

/// A block that `push_block` places above the floor (away from the world's
/// edge) rests on something: one of the nine cells below it is full.
pub proof fn lemma_placed_block_is_supported(w: WorldView, start: IVec3, trace: Seq<PushState>, p: IVec3)
    requires
        push_chain(w, start, trace),
        trace.last() == PushState::Placed(p),
        p.y > 0,
        -WORLD_LIMIT < p.x < WORLD_LIMIT && -WORLD_LIMIT < p.z < WORLD_LIMIT,
    ensures
        exists|q: IVec3|
            q.y == p.y - 1 && ring_dist(q, p) <= 1 && #[trigger] state_in(w, q) is Full,
{
    let n = trace.len() - 2;
    assert(push_next(w, trace[n], trace[n + 1]));
    assert(trace[n + 1] == PushState::Placed(p));
    let q = choose|q: IVec3|
        !(q.y == p.y - 1 && ring_dist(q, p) <= 1 && #[trigger] state_in(w, q)
            != BlockState::Forbidden ==> is_candidate(w, q));
    assert(state_in(w, q) is Full);
}

} // verus!
