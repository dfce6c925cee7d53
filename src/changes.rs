use vstd::prelude::*;

use crate::block::VoxelBlock;
use crate::coords::{EDGE, IVec2, IVec3, chunk_of, local_axis};
use crate::lazyworld::{WorldView, loaded_post, near_center};
use crate::wholeworld::{
    QueueView, WORLD_LIMIT, WholeBlockWorld, in_limit, lemma_push_outcome_facts, push_outcome,
    push_run,
};
use rand::rngs::StdRng;
use crate::material::GameMaterial;

verus! {

/// A pending write: a chunk-local position and the material to put there.
pub type PendingWrite = (IVec3, GameMaterial);

/// Chunk coordinate of an `IVec2`, as a pair of integers.
pub open spec fn key_of(c: IVec2) -> (int, int) {
    (c.x as int, c.y as int)
}

/// The pending writes of chunk `c` (none when the map has no entry for it).
pub open spec fn pending_of(m: Map<(int, int), Seq<PendingWrite>>, c: (int, int)) -> Seq<
    PendingWrite,
> {
    if m.contains_key(c) {
        m[c]
    } else {
        Seq::empty()
    }
}

/// The queue `m` with one more write for chunk `c`, after those already there.
pub open spec fn with_deferred(m: Map<(int, int), Seq<PendingWrite>>, c: (int, int), w: PendingWrite) -> Map<
    (int, int),
    Seq<PendingWrite>,
> {
    m.insert(c, pending_of(m, c).push(w))
}

/// The write that a push of `mat` at global position `p` leaves in the queue.
pub open spec fn deferred_write(p: IVec3, mat: GameMaterial) -> PendingWrite {
    (IVec3 { x: local_axis(p.x as int) as i32, y: p.y, z: local_axis(p.z as int) as i32 }, mat)
}

/// A pending write for chunk `part` names a cell at or above the floor
/// within the world's horizontal extent.
pub open spec fn pending_ok(part: IVec2, w: PendingWrite) -> bool {
    &&& 0 <= w.0.y
    &&& -WORLD_LIMIT <= part.x * EDGE + w.0.x <= WORLD_LIMIT
    &&& -WORLD_LIMIT <= part.y * EDGE + w.0.z <= WORLD_LIMIT
}

/// The pending writes of one chunk.
pub struct PendingPart {
    pub part: IVec2,
    pub writes: Vec<PendingWrite>,
}

/// Writes that wait for their chunk to exist, grouped by chunk coordinate,
/// each group in the order of registration.
pub struct VoxelBlockChanges {
    added: Vec<PendingPart>,
    queued: Ghost<Map<(int, int), Seq<PendingWrite>>>,
}

impl View for VoxelBlockChanges {
    type V = Map<(int, int), Seq<PendingWrite>>;

    closed spec fn view(&self) -> Map<(int, int), Seq<PendingWrite>> {
        self.queued@
    }
}

impl VoxelBlockChanges {
    /// One group per chunk coordinate, and the abstract map matches the groups.
    pub closed spec fn wf(&self) -> bool {
        &&& forall|i: int, j: int|
            0 <= i < j < self.added@.len() ==> self.added@[i].part != self.added@[j].part
        &&& forall|i: int|
            0 <= i < self.added@.len() ==> self.queued@.contains_key(
                key_of(#[trigger] self.added@[i].part),
            ) && self.queued@[key_of(self.added@[i].part)] == self.added@[i].writes@
        &&& forall|c: (int, int)|
            #[trigger] self.queued@.contains_key(c) ==> exists|i: int|
                0 <= i < self.added@.len() && key_of(#[trigger] self.added@[i].part) == c
        &&& forall|i: int, k: int|
            0 <= i < self.added@.len() && 0 <= k < self.added@[i].writes@.len() ==> pending_ok(
                self.added@[i].part,
                #[trigger] self.added@[i].writes@[k],
            )
    }

    /// The chunk coordinates of the groups, in the order the pass visits them.
    pub closed spec fn order(&self) -> Seq<(int, int)> {
        self.added@.map_values(|p: PendingPart| key_of(p.part))
    }

    /// Every chunk with queued writes has a place in the visiting order.
    pub proof fn lemma_order_covers(&self, c: (int, int))
        requires
            self.wf(),
            pending_of(self@, c).len() > 0,
        ensures
            self.order().contains(c),
    {
        let j = choose|j: int| 0 <= j < self.added@.len() && key_of(#[trigger] self.added@[j].part) == c;
        assert(self.order()[j] == c);
    }

    /// An empty queue.
    pub fn new() -> (r: VoxelBlockChanges)
        ensures
            r.wf(),
            r@ == Map::<(int, int), Seq<PendingWrite>>::empty(),
    {
        VoxelBlockChanges { added: Vec::new(), queued: Ghost(Map::empty()) }
    }

    /// Number of writes queued for chunk `part`.
    pub fn pending_len(&self, part: IVec2) -> (r: usize)
        requires
            self.wf(),
        ensures
            r == pending_of(self@, key_of(part)).len(),
    {
        let mut i: usize = 0;
        while i < self.added.len()
            invariant
                self.wf(),
                i <= self.added@.len(),
                forall|j: int| 0 <= j < i ==> self.added@[j].part != part,
            decreases self.added@.len() - i,
        {
            if self.added[i].part == part {
                return self.added[i].writes.len();
            }
            i = i + 1;
        }
        proof {
            if self.queued@.contains_key(key_of(part)) {
                let k = choose|k: int|
                    0 <= k < self.added@.len() && key_of(#[trigger] self.added@[k].part) == key_of(part);
                assert(self.added@[k].part == part);
            }
        }
        0
    }

    /// Appends a write for chunk `part`.
    pub fn append(&mut self, part: IVec2, w: PendingWrite)
        requires
            old(self).wf(),
            pending_ok(part, w),
        ensures
            final(self).wf(),
            final(self)@ == with_deferred(old(self)@, key_of(part), w),
    {
        let mut i: usize = 0;
        while i < self.added.len()
            invariant
                self.wf(),
                *self == *old(self),
                pending_ok(part, w),
                i <= self.added@.len(),
                forall|j: int| 0 <= j < i ==> self.added@[j].part != part,
            decreases self.added@.len() - i,
        {
            if self.added[i].part == part {
                let ghost before = self.added@;
                self.added[i].writes.push(w);
                proof {
                    self.queued@ = with_deferred(old(self)@, key_of(part), w);
                    assert(before[i as int].part == part);
                    assert(old(self).queued@.contains_key(key_of(part)));
                    assert forall|j: int| 0 <= j < self.added@.len() implies self.queued@.contains_key(
                        key_of(#[trigger] self.added@[j].part),
                    ) && self.queued@[key_of(self.added@[j].part)] == self.added@[j].writes@ by {
                        if j != i {
                            assert(self.added@[j] == before[j]);
                            assert(key_of(self.added@[j].part) != key_of(part));
                        }
                    }
                    assert forall|j: int, k: int|
                        0 <= j < self.added@.len() && 0 <= k < self.added@[j].writes@.len()
                            implies pending_ok(
                        self.added@[j].part,
                        #[trigger] self.added@[j].writes@[k],
                    ) by {
                        if j != i {
                            assert(self.added@[j] == before[j]);
                            assert(pending_ok(
                                old(self).added@[j].part,
                                old(self).added@[j].writes@[k],
                            ));
                        } else {
                            assert(self.added@[j].writes@ == before[j].writes@.push(w));
                            if k < before[j].writes@.len() {
                                assert(pending_ok(
                                    old(self).added@[j].part,
                                    old(self).added@[j].writes@[k],
                                ));
                            }
                            assert(self.added@[j].part == part);
                            if k < before[j].writes@.len() {
                                assert(self.added@[j].writes@[k] == before[j].writes@[k]);
                            }
                        }
                    }
                    assert forall|c: (int, int)| #[trigger]
                        self.queued@.contains_key(c) implies exists|k: int|
                        0 <= k < self.added@.len() && key_of(#[trigger] self.added@[k].part)
                            == c by {
                        if c != key_of(part) {
                            assert(old(self).queued@.contains_key(c));
                            let k = choose|k: int|
                                0 <= k < before.len() && key_of(#[trigger] before[k].part) == c;
                            assert(self.added@[k].part == before[k].part);
                        } else {
                            assert(key_of(self.added@[i as int].part) == c);
                        }
                    }
                }
                return;
            }
            i = i + 1;
        }
        let mut writes: Vec<PendingWrite> = Vec::new();
        writes.push(w);
        let ghost before = self.added@;
        self.added.push(PendingPart { part, writes });
        proof {
            assert(!old(self).queued@.contains_key(key_of(part))) by {
                if old(self).queued@.contains_key(key_of(part)) {
                    let k = choose|k: int|
                        0 <= k < before.len() && key_of(#[trigger] before[k].part) == key_of(part);
                    assert(before[k].part == part);
                }
            }
            self.queued@ = with_deferred(old(self)@, key_of(part), w);
            assert(writes@ == seq![w]);
            assert forall|j: int| 0 <= j < self.added@.len() implies self.queued@.contains_key(
                key_of(#[trigger] self.added@[j].part),
            ) && self.queued@[key_of(self.added@[j].part)] == self.added@[j].writes@ by {
                if j < before.len() {
                    assert(self.added@[j] == before[j]);
                    assert(key_of(self.added@[j].part) != key_of(part));
                } else {
                    assert(pending_of(old(self)@, key_of(part)) == Seq::<PendingWrite>::empty());
                    assert(Seq::<PendingWrite>::empty().push(w) =~= seq![w]);
                }
            }
            assert forall|j: int, k: int|
                0 <= j < self.added@.len() && 0 <= k < self.added@[j].writes@.len()
                    implies pending_ok(self.added@[j].part, #[trigger] self.added@[j].writes@[k]) by {
                if j < before.len() {
                    assert(self.added@[j] == before[j]);
                    assert(pending_ok(old(self).added@[j].part, old(self).added@[j].writes@[k]));
                } else {
                    assert(self.added@[j].writes@ == seq![w]);
                }
            }
            assert forall|c: (int, int)| #[trigger]
                self.queued@.contains_key(c) implies exists|k: int|
                0 <= k < self.added@.len() && key_of(#[trigger] self.added@[k].part) == c by {
                if c != key_of(part) {
                    assert(old(self).queued@.contains_key(c));
                    let k = choose|k: int|
                        0 <= k < before.len() && key_of(#[trigger] before[k].part) == c;
                    assert(self.added@[k].part == before[k].part);
                } else {
                    assert(key_of(self.added@[before.len() as int].part) == c);
                }
            }
        }
    }

    /// Queues `mat` for the cell at global position `global_pos`, under the
    /// chunk that holds it.
    pub fn register_change(&mut self, global_pos: IVec3, mat: GameMaterial)
        requires
            old(self).wf(),
            in_limit(global_pos),
            0 <= global_pos.y,
        ensures
            final(self).wf(),
            final(self)@ == with_deferred(
                old(self)@,
                chunk_of(global_pos),
                deferred_write(global_pos, mat),
            ),
    {
        let (voxel_block_pos, inner_pos) = VoxelBlock::inner_pos(global_pos);
        self.append(voxel_block_pos, (inner_pos, mat));
    }
}

/// A run of pushes, one after the other, of the blocks `reps` (start
/// position and material): the world and queue go through `ws` and `qs`,
/// and each push is a run of `push_block` from its start position.
pub open spec fn push_trace(reps: Seq<(IVec3, GameMaterial)>, ws: Seq<WorldView>, qs: Seq<QueueView>) -> bool {
    &&& ws.len() == reps.len() + 1
    &&& qs.len() == reps.len() + 1
    &&& forall|i: int|
        0 <= i < reps.len() ==> #[trigger] push_run(ws[i], qs[i], reps[i].0, reps[i].1, ws[i + 1], qs[i + 1])
}

/// Global position of the cell that a write queued for chunk `c` at local
/// position `l` names.
pub open spec fn replay_pos(c: (int, int), l: IVec3) -> IVec3 {
    IVec3 { x: (c.0 * 32 + l.x) as i32, y: l.y, z: (c.1 * 32 + l.z) as i32 }
}

/// The pushes that a pass replays: the queued writes of each existing chunk
/// among `keys`, chunk by chunk in that order, each in queue order, at the
/// global position it names.
pub open spec fn replay_list(q: QueueView, w: WorldView, keys: Seq<(int, int)>) -> Seq<
    (IVec3, GameMaterial),
>
    decreases keys.len(),
{
    if keys.len() == 0 {
        Seq::empty()
    } else {
        let c = keys.last();
        replay_list(q, w, keys.drop_last()) + if w.contains_key(c) {
            pending_of(q, c).map_values(|e: PendingWrite| (replay_pos(c, e.0), e.1))
        } else {
            Seq::empty()
        }
    }
}

/// A write queued for an existing chunk among `keys` is among those replayed.
pub proof fn lemma_replay_list_contains(
    q: QueueView,
    w: WorldView,
    keys: Seq<(int, int)>,
    c: (int, int),
    k: int,
)
    requires
        keys.contains(c),
        w.contains_key(c),
        0 <= k < pending_of(q, c).len(),
    ensures
        replay_list(q, w, keys).contains(
            (replay_pos(c, pending_of(q, c)[k].0), pending_of(q, c)[k].1),
        ),
    decreases keys.len(),
{
    let rest = replay_list(q, w, keys.drop_last());
    let m = (replay_pos(c, pending_of(q, c)[k].0), pending_of(q, c)[k].1);
    if keys.last() == c {
        let tail = pending_of(q, c).map_values(|e: PendingWrite| (replay_pos(c, e.0), e.1));
        assert(replay_list(q, w, keys)[rest.len() + k] == tail[k]);
    } else {
        let j = choose|j: int| 0 <= j < keys.len() && keys[j] == c;
        assert(keys.drop_last()[j] == c);
        lemma_replay_list_contains(q, w, keys.drop_last(), c, k);
        let i = choose|i: int| 0 <= i < rest.len() && rest[i] == m;
        assert(replay_list(q, w, keys)[i] == m);
    }
}

/// Number of writes queued in `q` for the chunks of `keys`.
pub open spec fn total_pending(q: QueueView, keys: Seq<(int, int)>) -> nat
    decreases keys.len(),
{
    if keys.len() == 0 {
        0
    } else {
        total_pending(q, keys.drop_last()) + pending_of(q, keys.last()).len()
    }
}

/// `postponed` counts every write of queue `q` (up to `usize::MAX`): `ord`
/// lists each chunk with writes in `q` once.
pub open spec fn postponed_count(q: QueueView, ord: Seq<(int, int)>, postponed: usize) -> bool {
    &&& ord.no_duplicates()
    &&& forall|c: (int, int)| pending_of(q, c).len() > 0 ==> #[trigger] ord.contains(c)
    &&& postponed == if total_pending(q, ord) <= usize::MAX {
        total_pending(q, ord)
    } else {
        usize::MAX as nat
    }
}

/// How many of `keys` are existing chunks.
pub open spec fn count_loaded(w: WorldView, keys: Seq<(int, int)>) -> nat
    decreases keys.len(),
{
    if keys.len() == 0 {
        0
    } else {
        count_loaded(w, keys.drop_last()) + if w.contains_key(keys.last()) {
            1nat
        } else {
            0nat
        }
    }
}

/// Counts of one change application pass, for diagnostics.
#[derive(Debug, Clone, Copy, PartialEq, Eq, Structural)]
pub struct ChangeStats {
    /// Queued writes replayed into existing chunks.
    pub applied: usize,
    /// Writes that the replay queued again for chunks that do not exist yet.
    pub postponed: usize,
    /// Existing chunks whose queued writes were replayed.
    pub changed_blocks: usize,
}

/// What one application pass guarantees: the set of chunks stays as it is;
/// every existing chunk's queue is drained, each of its writes pushed in
/// turn (and counted), starting from an empty queue of new deferrals; every
/// chunk then holds its old queue (none if it exists) followed by the new
/// deferrals for it.
pub open spec fn applied_post(
    w0: WorldView,
    q0: QueueView,
    keys: Seq<(int, int)>,
    w1: WorldView,
    q1: QueueView,
    stats: ChangeStats,
) -> bool {
    &&& w1.dom() == w0.dom()
    &&& forall|c: (int, int)| pending_of(q0, c).len() > 0 ==> #[trigger] keys.contains(c)
    &&& exists|ws: Seq<WorldView>, qs: Seq<QueueView>|
        #[trigger] push_trace(replay_list(q0, w0, keys), ws, qs) && ws[0] == w0 && qs[0]
            == Map::<(int, int), Seq<PendingWrite>>::empty() && ws.last() == w1 && forall|
            c: (int, int),
        | #[trigger] pending_of(q1, c) == (if w0.contains_key(c) {
            Seq::<PendingWrite>::empty()
        } else {
            pending_of(q0, c)
        }) + pending_of(qs.last(), c) && exists|ord: Seq<(int, int)>|
            #[trigger] postponed_count(qs.last(), ord, stats.postponed)
    &&& stats.changed_blocks == if count_loaded(w0, keys) <= usize::MAX {
        count_loaded(w0, keys)
    } else {
        usize::MAX as nat
    }
    &&& stats.applied == if replay_list(q0, w0, keys).len() <= usize::MAX {
        replay_list(q0, w0, keys).len()
    } else {
        usize::MAX as nat
    }
    &&& forall|c: (int, int)|
        #[trigger] w0.contains_key(c) ==> pending_of(q1, c) == Seq::<PendingWrite>::empty()
            && stats.applied >= pending_of(q0, c).len()
    &&& forall|c: (int, int)|
        !w0.contains_key(c) ==> #[trigger] pending_of(q0, c).is_prefix_of(pending_of(q1, c))
}

/// Replays, through `push_block`, the queued writes of every chunk that now
/// exists; writes that land in chunks that do not exist yet are queued again.
pub fn apply_changes(
    changes: &mut VoxelBlockChanges,
    whole_world: &mut WholeBlockWorld,
    rng: &mut StdRng,
) -> (r: ChangeStats)
    requires
        old(changes).wf(),
        old(whole_world).wf(),
    ensures
        final(changes).wf(),
        final(whole_world).wf(),
        final(whole_world).lazy_world.order() == old(whole_world).lazy_world.order(),
        applied_post(
            old(whole_world).lazy_world@,
            old(changes)@,
            old(changes).order(),
            final(whole_world).lazy_world@,
            final(changes)@,
            r,
        ),
{
    let ghost w0 = whole_world.lazy_world@;
    let ghost q0 = changes@;
    let ghost parts0 = changes.added@;
    let ghost keys0 = changes.order();
    proof {
        assert forall|c: (int, int)| pending_of(q0, c).len() > 0 implies #[trigger] keys0.contains(c) by {
            changes.lemma_order_covers(c);
        }
    }
    let mut stats = ChangeStats { applied: 0, postponed: 0, changed_blocks: 0 };
    let mut new_changes = VoxelBlockChanges::new();
    let ghost mut done: Seq<(IVec3, GameMaterial)> = Seq::empty();
    let ghost mut ws: Seq<WorldView> = seq![w0];
    let ghost mut qs: Seq<QueueView> = seq![Map::empty()];
    proof {
        assert(keys0.subrange(0, 0) =~= Seq::<(int, int)>::empty());
    }
    let mut i: usize = 0;
    while i < changes.added.len()
        invariant
            changes.wf(),
            whole_world.wf(),
            new_changes.wf(),
            whole_world.lazy_world.order() == old(whole_world).lazy_world.order(),
            whole_world.lazy_world@.dom() == w0.dom(),
            w0 == old(whole_world).lazy_world@,
            q0 == old(changes)@,
            parts0 == old(changes).added@,
            changes.added@.len() == parts0.len(),
            i <= parts0.len(),
            forall|j: int| 0 <= j < parts0.len() ==> #[trigger] changes.added@[j].part == parts0[j].part,
            forall|j: int|
                0 <= j < parts0.len() ==> #[trigger] changes.added@[j].writes@ == if j < i
                    && w0.contains_key(key_of(parts0[j].part)) {
                    Seq::<PendingWrite>::empty()
                } else {
                    parts0[j].writes@
                },
            forall|j: int|
                0 <= j < i && w0.contains_key(key_of(parts0[j].part)) ==> stats.applied
                    >= (#[trigger] parts0[j]).writes@.len(),
            forall|c: (int, int)| #[trigger] w0.contains_key(c) ==> pending_of(new_changes@, c)
                == Seq::<PendingWrite>::empty(),
            keys0 == old(changes).order(),
            old(changes).wf(),
            stats.postponed == 0,
            done == replay_list(q0, w0, keys0.subrange(0, i as int)),
            stats.changed_blocks == if count_loaded(w0, keys0.subrange(0, i as int)) <= usize::MAX {
                count_loaded(w0, keys0.subrange(0, i as int))
            } else {
                usize::MAX as nat
            },
            push_trace(done, ws, qs),
            ws[0] == w0,
            qs[0] == Map::<(int, int), Seq<PendingWrite>>::empty(),
            ws.last() == whole_world.lazy_world@,
            qs.last() == new_changes@,
            stats.applied == if done.len() <= usize::MAX {
                done.len()
            } else {
                usize::MAX as nat
            },
        decreases parts0.len() - i,
    {
        let ghost done_before = done;
        proof {
            assert(keys0[i as int] == key_of(parts0[i as int].part));
            assert(keys0.subrange(0, i + 1).drop_last() =~= keys0.subrange(0, i as int));
            assert(old(changes).queued@[key_of(parts0[i as int].part)] == parts0[i as int].writes@);
        }
        let part = changes.added[i].part;
        if whole_world.is_initialized_by_blockpos(part) {
            stats.changed_blocks = stats.changed_blocks.saturating_add(1);
            let mut writes: Vec<PendingWrite> = Vec::new();
            let ghost before = changes.added@;
            std::mem::swap(&mut writes, &mut changes.added[i].writes);
            proof {
                changes.queued@ = changes.queued@.insert(key_of(part), Seq::empty());
                assert(writes@ == parts0[i as int].writes@);
                assert forall|j: int, k: int|
                    0 <= j < changes.added@.len() && 0 <= k < changes.added@[j].writes@.len()
                        implies pending_ok(
                    changes.added@[j].part,
                    #[trigger] changes.added@[j].writes@[k],
                ) by {
                    assert(j != i);
                    assert(changes.added@[j] == before[j]);
                    assert(pending_ok(before[j].part, before[j].writes@[k]));
                }
                assert forall|j: int| 0 <= j < changes.added@.len() implies changes.queued@.contains_key(
                    key_of(#[trigger] changes.added@[j].part),
                ) && changes.queued@[key_of(changes.added@[j].part)] == changes.added@[j].writes@ by {
                    if j != i {
                        assert(changes.added@[j] == before[j]);
                        assert(before[j].part != before[i as int].part);
                    }
                }
                assert forall|c: (int, int)| #[trigger]
                    changes.queued@.contains_key(c) implies exists|k: int|
                    0 <= k < changes.added@.len() && key_of(#[trigger] changes.added@[k].part)
                        == c by {
                    if c != key_of(part) {
                        let k = choose|k: int|
                            0 <= k < before.len() && key_of(#[trigger] before[k].part) == c;
                        assert(changes.added@[k].part == before[k].part);
                    } else {
                        assert(key_of(changes.added@[i as int].part) == c);
                    }
                }
            }
            let applied_before = stats.applied;
            let ghost changed_before = stats.changed_blocks;
            let mut k: usize = 0;
            while k < writes.len()
                invariant
                    whole_world.wf(),
                    new_changes.wf(),
                    whole_world.lazy_world.order() == old(whole_world).lazy_world.order(),
                    whole_world.lazy_world@.dom() == w0.dom(),
                    k <= writes@.len(),
                    forall|m: int| 0 <= m < writes@.len() ==> pending_ok(part, #[trigger] writes@[m]),
                    stats.applied >= applied_before,
                    stats.changed_blocks == changed_before,
                    stats.postponed == 0,
                    stats.applied >= k,
                    forall|c: (int, int)| #[trigger] w0.contains_key(c) ==> pending_of(
                        new_changes@,
                        c,
                    ) == Seq::<PendingWrite>::empty(),
                    done == done_before + writes@.subrange(0, k as int).map_values(
                        |e: PendingWrite| (replay_pos(key_of(part), e.0), e.1),
                    ),
                    push_trace(done, ws, qs),
                    ws[0] == w0,
                    qs[0] == Map::<(int, int), Seq<PendingWrite>>::empty(),
                    ws.last() == whole_world.lazy_world@,
                    qs.last() == new_changes@,
                    stats.applied == if done.len() <= usize::MAX {
                        done.len()
                    } else {
                        usize::MAX as nat
                    },
                decreases writes@.len() - k,
            {
                let (local_pos, mat) = writes[k];
                assert(pending_ok(part, writes@[k as int]));
                let global_pos = VoxelBlock::real_pos(part, local_pos);
                assert(global_pos == replay_pos(key_of(part), local_pos));
                let ghost wb = whole_world.lazy_world@;
                let ghost qb = new_changes@;
                whole_world.push_block(global_pos, mat, &mut new_changes, rng);
                proof {
                    lemma_push_outcome_facts(wb, qb, mat, whole_world.lazy_world@, new_changes@);
                    let next = done.push((global_pos, mat));
                    let ws2 = ws.push(whole_world.lazy_world@);
                    let qs2 = qs.push(new_changes@);
                    assert(push_run(wb, qb, global_pos, mat, whole_world.lazy_world@, new_changes@));
                    assert forall|j: int| 0 <= j < next.len() implies #[trigger] push_run(
                        ws2[j],
                        qs2[j],
                        next[j].0,
                        next[j].1,
                        ws2[j + 1],
                        qs2[j + 1],
                    ) by {
                        if j < done.len() {
                            assert(push_run(ws[j], qs[j], done[j].0, done[j].1, ws[j + 1], qs[j + 1]));
                        }
                    }
                    ws = ws2;
                    qs = qs2;
                    assert(writes@.subrange(0, k + 1).map_values(
                        |e: PendingWrite| (replay_pos(key_of(part), e.0), e.1),
                    ) =~= writes@.subrange(0, k as int).map_values(
                        |e: PendingWrite| (replay_pos(key_of(part), e.0), e.1),
                    ).push((global_pos, mat)));
                    assert(done_before + writes@.subrange(0, k + 1).map_values(
                        |e: PendingWrite| (replay_pos(key_of(part), e.0), e.1),
                    ) =~= next);
                    done = next;
                }
                stats.applied = stats.applied.saturating_add(1);
                k = k + 1;
            }
            proof {
                assert(writes@.subrange(0, writes@.len() as int) =~= writes@);
            }
        }
        proof {
            let key = keys0[i as int];
            assert(key == key_of(parts0[i as int].part));
            assert(pending_of(q0, key) == parts0[i as int].writes@);
            assert(keys0.subrange(0, i + 1).last() == key);
            if w0.contains_key(key) {
                assert(done == done_before + parts0[i as int].writes@.map_values(
                    |e: PendingWrite| (replay_pos(key, e.0), e.1),
                ));
            } else {
                assert(done == done_before);
            }
            assert(done =~= replay_list(q0, w0, keys0.subrange(0, i + 1)));
        }
        i = i + 1;
    }
    proof {
        assert(keys0.subrange(0, parts0.len() as int) =~= keys0);
    }
    let ghost mid = changes@;
    let ghost mid_parts = changes.added@;
    let ghost applied = stats.applied;
    let ghost changed = stats.changed_blocks;
    proof {
        assert forall|c: (int, int)| #[trigger] w0.contains_key(c) implies pending_of(mid, c)
            == Seq::<PendingWrite>::empty() && stats.applied >= pending_of(q0, c).len() by {
            if mid.contains_key(c) {
                let j = choose|j: int|
                    0 <= j < mid_parts.len() && key_of(#[trigger] mid_parts[j].part) == c;
                assert(mid[key_of(mid_parts[j].part)] == mid_parts[j].writes@);
                assert(parts0[j].part == mid_parts[j].part);
            }
            if q0.contains_key(c) {
                let j = choose|j: int|
                    0 <= j < parts0.len() && key_of(#[trigger] old(changes).added@[j].part) == c;
                assert(q0[key_of(parts0[j].part)] == parts0[j].writes@);
                assert(stats.applied >= parts0[j].writes@.len());
            }
        }
        assert forall|c: (int, int)| !w0.contains_key(c) implies #[trigger] pending_of(mid, c)
            == pending_of(q0, c) by {
            if mid.contains_key(c) {
                let j = choose|j: int|
                    0 <= j < mid_parts.len() && key_of(#[trigger] mid_parts[j].part) == c;
                assert(mid[key_of(mid_parts[j].part)] == mid_parts[j].writes@);
                assert(parts0[j].part == mid_parts[j].part);
                assert(q0.contains_key(key_of(old(changes).added@[j].part)));
            } else if q0.contains_key(c) {
                let j = choose|j: int|
                    0 <= j < parts0.len() && key_of(#[trigger] old(changes).added@[j].part) == c;
                assert(parts0[j].part == mid_parts[j].part);
                assert(mid.contains_key(key_of(mid_parts[j].part)));
            }
        }
    }
    // merge what the replay queued again
    let ghost np = new_changes.added@;
    let ghost ord = new_changes.order();
    let ghost qn = new_changes@;
    assert(ord.subrange(0, 0) =~= Seq::<(int, int)>::empty());
    let mut i: usize = 0;
    while i < new_changes.added.len()
        invariant
            changes.wf(),
            new_changes.wf(),
            np == new_changes.added@,
            i <= np.len(),
            stats.applied == applied,
            stats.changed_blocks == changed,
            ord == new_changes.order(),
            qn == new_changes@,
            stats.postponed == if total_pending(qn, ord.subrange(0, i as int)) <= usize::MAX {
                total_pending(qn, ord.subrange(0, i as int))
            } else {
                usize::MAX as nat
            },
            forall|j: int|
                0 <= j < i ==> pending_of(changes@, key_of(#[trigger] np[j].part)) == pending_of(
                    mid,
                    key_of(np[j].part),
                ) + np[j].writes@,
            forall|c: (int, int)|
                (forall|j: int| 0 <= j < i ==> key_of(#[trigger] np[j].part) != c)
                    ==> #[trigger] pending_of(changes@, c) == pending_of(mid, c),
        decreases np.len() - i,
    {
        let part = new_changes.added[i].part;
        proof {
            assert(pending_of(changes@, key_of(part)) == pending_of(mid, key_of(part)));
            assert(pending_of(mid, key_of(part)) + np[i as int].writes@.subrange(0, 0) =~= pending_of(
                mid,
                key_of(part),
            ));
        }
        let mut k: usize = 0;
        while k < new_changes.added[i].writes.len()
            invariant
                changes.wf(),
                new_changes.wf(),
                np == new_changes.added@,
                i < np.len(),
                part == np[i as int].part,
                k <= np[i as int].writes@.len(),
                stats.applied == applied,
                stats.changed_blocks == changed,
                ord == new_changes.order(),
                qn == new_changes@,
                stats.postponed == if total_pending(qn, ord.subrange(0, i as int)) + k <= usize::MAX {
                    total_pending(qn, ord.subrange(0, i as int)) + k
                } else {
                    usize::MAX as int
                },
                forall|j: int|
                    0 <= j < i ==> pending_of(changes@, key_of(#[trigger] np[j].part)) == pending_of(
                        mid,
                        key_of(np[j].part),
                    ) + np[j].writes@,
                pending_of(changes@, key_of(part)) == pending_of(mid, key_of(part))
                    + np[i as int].writes@.subrange(0, k as int),
                forall|c: (int, int)|
                    (forall|j: int| 0 <= j <= i ==> key_of(#[trigger] np[j].part) != c)
                        ==> #[trigger] pending_of(changes@, c) == pending_of(mid, c),
            decreases np[i as int].writes@.len() - k,
        {
            let w = new_changes.added[i].writes[k];
            assert(pending_ok(part, new_changes.added@[i as int].writes@[k as int]));
            let ghost cb = changes@;
            changes.append(part, w);
            proof {
                assert(pending_of(changes@, key_of(part)) == pending_of(cb, key_of(part)).push(w));
                assert(np[i as int].writes@.subrange(0, k + 1) =~= np[i as int].writes@.subrange(
                    0,
                    k as int,
                ).push(w));
                assert(pending_of(changes@, key_of(part)) =~= pending_of(mid, key_of(part))
                    + np[i as int].writes@.subrange(0, k + 1));
                assert forall|j: int| 0 <= j < i implies pending_of(
                    changes@,
                    key_of(#[trigger] np[j].part),
                ) == pending_of(mid, key_of(np[j].part)) + np[j].writes@ by {
                    assert(np[j].part != part);
                    assert(pending_of(changes@, key_of(np[j].part)) == pending_of(
                        cb,
                        key_of(np[j].part),
                    ));
                }
                assert forall|c: (int, int)|
                    (forall|j: int| 0 <= j <= i ==> key_of(#[trigger] np[j].part) != c)
                        implies #[trigger] pending_of(changes@, c) == pending_of(mid, c) by {
                    assert(key_of(np[i as int].part) != c);
                    assert(pending_of(changes@, c) == pending_of(cb, c));
                }
            }
            stats.postponed = stats.postponed.saturating_add(1);
            k = k + 1;
        }
        proof {
            assert(np[i as int].writes@.subrange(0, np[i as int].writes@.len() as int)
                =~= np[i as int].writes@);
            assert(ord.subrange(0, i + 1).drop_last() =~= ord.subrange(0, i as int));
            assert(ord[i as int] == key_of(part));
            assert(qn[key_of(np[i as int].part)] == np[i as int].writes@);
        }
        i = i + 1;
    }
    proof {
        assert(qn == qs.last());
        assert(ord.subrange(0, ord.len() as int) =~= ord);
        assert(ord.no_duplicates()) by {
            assert forall|a: int, b: int| 0 <= a < ord.len() && 0 <= b < ord.len() && a != b implies ord[a]
                != ord[b] by {
                assert(np[a].part != np[b].part);
            }
        }
        assert forall|c: (int, int)| pending_of(qn, c).len() > 0 implies #[trigger] ord.contains(c) by {
            new_changes.lemma_order_covers(c);
        }
        assert(postponed_count(qn, ord, stats.postponed));
        assert forall|c: (int, int)| #[trigger] pending_of(changes@, c) == (if w0.contains_key(c) {
            Seq::<PendingWrite>::empty()
        } else {
            pending_of(q0, c)
        }) + pending_of(qn, c) by {
            if exists|j: int| 0 <= j < np.len() && key_of(#[trigger] np[j].part) == c {
                let j = choose|j: int| 0 <= j < np.len() && key_of(#[trigger] np[j].part) == c;
                assert(qn[key_of(np[j].part)] == np[j].writes@);
            } else {
                if qn.contains_key(c) {
                    let j = choose|j: int| 0 <= j < np.len() && key_of(#[trigger] np[j].part) == c;
                }
                assert(pending_of(qn, c) == Seq::<PendingWrite>::empty());
                assert(pending_of(changes@, c) == pending_of(mid, c));
                assert(pending_of(changes@, c) =~= pending_of(mid, c) + pending_of(qn, c));
            }
            if w0.contains_key(c) {
                assert(pending_of(mid, c) == Seq::<PendingWrite>::empty());
            } else {
                assert(pending_of(mid, c) == pending_of(q0, c));
            }
        }
        assert forall|c: (int, int)| !w0.contains_key(c) implies #[trigger] pending_of(
            q0,
            c,
        ).is_prefix_of(pending_of(changes@, c)) by {
            assert(pending_of(changes@, c) == pending_of(q0, c) + pending_of(qn, c));
            assert(pending_of(q0, c) =~= pending_of(changes@, c).subrange(
                0,
                pending_of(q0, c).len() as int,
            ));
        }
        assert forall|c: (int, int)| #[trigger] w0.contains_key(c) implies pending_of(changes@, c)
            == Seq::<PendingWrite>::empty() by {
            assert(pending_of(changes@, c) == Seq::<PendingWrite>::empty() + pending_of(qn, c));
            assert(pending_of(changes@, c) =~= Seq::<PendingWrite>::empty());
        }
        assert(push_trace(replay_list(q0, w0, keys0), ws, qs));
    }
    stats
}

/// A write queued for a chunk that does not exist yet is replayed: once
/// `ensure_loaded` has created that chunk and one application pass has run,
/// the chunk's queue is empty, and the write (its position and material) is
/// among those the pass handed, one by one, to `push_block`.
pub proof fn lemma_deferred_write_replayed(
    w0: WorldView,
    q0: QueueView,
    global_pos: IVec3,
    mat: GameMaterial,
    q1: QueueView,
    center: IVec2,
    w2: WorldView,
    q2: QueueView,
    keys: Seq<(int, int)>,
    w3: WorldView,
    q3: QueueView,
    stats: ChangeStats,
)
    requires
        !w0.contains_key(chunk_of(global_pos)),
        q1 == with_deferred(q0, chunk_of(global_pos), deferred_write(global_pos, mat)),
        near_center(center, chunk_of(global_pos)),
        loaded_post(center, w0, q1, w2, q2),
        applied_post(w2, q2, keys, w3, q3, stats),
    ensures
        w3.contains_key(chunk_of(global_pos)),
        pending_of(q3, chunk_of(global_pos)) == Seq::<PendingWrite>::empty(),
        replay_list(q2, w2, keys).contains((global_pos, mat)),
        exists|ws: Seq<WorldView>, qs: Seq<QueueView>|
            #[trigger] push_trace(replay_list(q2, w2, keys), ws, qs) && ws[0] == w2 && qs[0]
                == Map::<(int, int), Seq<PendingWrite>>::empty() && ws.last() == w3,
        stats.applied >= 1,
{
    let c = chunk_of(global_pos);
    assert(w2.contains_key(c));
    let l1 = pending_of(q1, c);
    let l2 = pending_of(q2, c);
    assert(l1.len() >= 1);
    assert(l1[l1.len() - 1].1 == mat);
    assert(l1.is_prefix_of(l2));
    assert(l2[l1.len() - 1] == l1[l1.len() - 1]);
    assert(keys.contains(c));
    lemma_replay_list_contains(q2, w2, keys, c, l1.len() - 1);
    vstd::arithmetic::div_mod::lemma_fundamental_div_mod(global_pos.x as int, 32);
    vstd::arithmetic::div_mod::lemma_fundamental_div_mod(global_pos.z as int, 32);
    assert(replay_pos(c, l1[l1.len() - 1].0) == global_pos);
    assert(stats.applied >= pending_of(q2, c).len());
}

} // verus!
