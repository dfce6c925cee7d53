use vstd::prelude::*;
use rand::rngs::StdRng;

use crate::block::{BlockView, column_matches, dist_sq};
use crate::changes::key_of;
use crate::coords::{EDGE, IVec2, IVec3, chunk_of, local_axis};
use crate::direction::{Direction2D, cone_contains, small_vec};
use crate::lazyworld::{LazyWorld, WorldView, chunk_in_limit};
use crate::material::{GameMaterial, in_mask};
use crate::rng::pick;

verus! {

/// Distance from `v` to the nearest point of `[lo, lo + 31]`.
pub open spec fn gap(v: int, lo: int) -> int {
    if v < lo {
        lo - v
    } else if v > lo + 31 {
        v - (lo + 31)
    } else {
        0
    }
}

/// Squared distance from column `pos` to the nearest column of chunk `c`.
pub open spec fn chunk_dist_sq(c: IVec2, pos: IVec2) -> int {
    gap(pos.x as int, c.x * 32) * gap(pos.x as int, c.x * 32) + gap(pos.y as int, c.y * 32) * gap(
        pos.y as int,
        c.y * 32,
    )
}

/// Whether `(m, p)` is something a radar at column `pos` reports: material
/// `m` in the mask sits at global cell `p` of an existing chunk, within
/// squared distance `radius_sq` of the radar and, if it has one, in its cone.
pub open spec fn radar_match(
    w: WorldView,
    pos: IVec2,
    radius_sq: int,
    mask: u8,
    cone: Option<(Direction2D, IVec2)>,
    m: GameMaterial,
    p: IVec3,
) -> bool {
    let c = chunk_of(p);
    let rel = IVec2 { x: (p.x - pos.x) as i32, y: (p.z - pos.y) as i32 };
    &&& w.contains_key(c)
    &&& 0 <= p.y < EDGE
    &&& w[c].get(local_axis(p.x as int), p.y as int, local_axis(p.z as int)) == Some(m)
    &&& in_mask(m, mask)
    &&& dist_sq(IVec2 { x: p.x, y: p.z }, pos) <= radius_sq
    &&& cone matches Some((d, dims)) ==> cone_contains(d, rel, dims)
}

proof fn lemma_column_matches_contains(
    b: BlockView,
    x: int,
    z: int,
    mask: u8,
    top: int,
    m: GameMaterial,
    l: IVec3,
)
    requires
        0 <= x < 32,
        0 <= z < 32,
        top <= 32,
    ensures
        column_matches(b, x, z, mask, top).contains((m, l)) <==> (l.x == x && l.z == z && 0 <= l.y
            < top && b.get(x, l.y as int, z) == Some(m) && in_mask(m, mask)),
    decreases top,
{
    if top > 0 {
        lemma_column_matches_contains(b, x, z, mask, top - 1, m, l);
        let below = column_matches(b, x, z, mask, top - 1);
        let s = column_matches(b, x, z, mask, top);
        if below.contains((m, l)) {
            let k = choose|k: int| 0 <= k < below.len() && below[k] == (m, l);
            assert(s[k] == (m, l));
        }
        if s.contains((m, l)) && !below.contains((m, l)) {
            let k = choose|k: int| 0 <= k < s.len() && s[k] == (m, l);
            if k < below.len() {
                assert(below[k] == (m, l));
            }
        }
        if l.x == x && l.z == z && l.y == top - 1 && b.get(x, l.y as int, z) == Some(m) && in_mask(
            m,
            mask,
        ) {
            assert(s[s.len() - 1] == (m, l));
        }
    }
}

proof fn lemma_gap_le(v: int, lo: int, u: int)
    requires
        lo <= u <= lo + 31,
    ensures
        gap(v, lo) * gap(v, lo) <= (u - v) * (u - v),
        gap(v, lo) >= 0,
{
    let g = gap(v, lo);
    let d = if u >= v { u - v } else { v - u };
    assert(0 <= g <= d);
    assert(g * g <= d * d) by (nonlinear_arith)
        requires
            0 <= g <= d,
    ;
    assert(d * d == (u - v) * (u - v)) by (nonlinear_arith)
        requires
            d == u - v || d == v - u,
    ;
}

impl LazyWorld {
    /// The existing chunks that hold at least one column within squared
    /// distance `radius_sq` of column `center`, in order of creation.
    pub fn lookup_around(&self, center: IVec2, radius_sq: i64) -> (r: Vec<IVec2>)
        requires
            self.wf(),
            small_vec(center),
        ensures
            forall|c: IVec2| #[trigger] r@.contains(c) <==> self@.contains_key(key_of(c))
                && chunk_dist_sq(c, center) <= radius_sq,
    {
        let mut r: Vec<IVec2> = Vec::new();
        let mut i: usize = 0;
        let n = self.len();
        while i < n
            invariant
                self.wf(),
                small_vec(center),
                n == self.order().len(),
                i <= n,
                forall|c: IVec2| #[trigger] r@.contains(c) <==> self@.contains_key(key_of(c))
                    && chunk_dist_sq(c, center) <= radius_sq && self.order().subrange(
                    0,
                    i as int,
                ).contains(c),
            decreases n - i,
        {
            let block = self.part_by_order(i);
            let c = block.pos();
            let lo_x: i64 = c.x as i64 * 32;
            let lo_z: i64 = c.y as i64 * 32;
            let gx: i64 = if (center.x as i64) < lo_x {
                lo_x - center.x as i64
            } else if center.x as i64 > lo_x + 31 {
                center.x as i64 - (lo_x + 31)
            } else {
                0
            };
            let gz: i64 = if (center.y as i64) < lo_z {
                lo_z - center.y as i64
            } else if center.y as i64 > lo_z + 31 {
                center.y as i64 - (lo_z + 31)
            } else {
                0
            };
            assert(0 <= gx <= 0x2000_0000 && 0 <= gz <= 0x2000_0000);
            assert(gx * gx <= 0x2000_0000 * 0x2000_0000) by (nonlinear_arith)
                requires
                    0 <= gx <= 0x2000_0000,
            ;
            assert(gz * gz <= 0x2000_0000 * 0x2000_0000) by (nonlinear_arith)
                requires
                    0 <= gz <= 0x2000_0000,
            ;
            assert(0 <= gx * gx && 0 <= gz * gz) by (nonlinear_arith);
            let near = gx * gx + gz * gz <= radius_sq;
            let ghost old_r = r@;
            if near {
                r.push(c);
            }
            proof {
                let s0 = self.order().subrange(0, i as int);
                let s1 = self.order().subrange(0, i + 1);
                assert(s1 =~= s0.push(c));
                assert forall|c2: IVec2| #[trigger] r@.contains(c2) <==> self@.contains_key(
                    key_of(c2),
                ) && chunk_dist_sq(c2, center) <= radius_sq && s1.contains(c2) by {
                    if s1.contains(c2) && c2 != c {
                        let k = choose|k: int| 0 <= k < s1.len() && s1[k] == c2;
                        assert(s0[k] == c2);
                    }
                    if s0.contains(c2) {
                        let k = choose|k: int| 0 <= k < s0.len() && s0[k] == c2;
                        assert(s1[k] == c2);
                    }
                    assert(s1[i as int] == c);
                    if near {
                        if r@.contains(c2) && c2 != c {
                            let k = choose|k: int| 0 <= k < r@.len() && r@[k] == c2;
                            assert(old_r[k] == c2);
                        }
                        if old_r.contains(c2) {
                            let k = choose|k: int| 0 <= k < old_r.len() && old_r[k] == c2;
                            assert(r@[k] == c2);
                        }
                        if c2 == c {
                            assert(r@[r@.len() - 1] == c);
                        }
                    }
                }
            }
            i = i + 1;
        }
        assert(self.order().subrange(0, n as int) =~= self.order());
        proof {
            assert forall|c: IVec2| #[trigger] self@.contains_key(key_of(c)) implies self.order().contains(c) by {
                self.lemma_order_covers(c);
            }
        }
        r
    }
}

proof fn lemma_split_offset(c: int, l: int)
    requires
        0 <= l < 32,
    ensures
        (c * 32 + l) / 32 == c,
        (c * 32 + l) % 32 == l,
{
    vstd::arithmetic::div_mod::lemma_fundamental_div_mod_converse(c * 32 + l, 32, c, l);
}

/// The global cell of a local position of chunk `c`.
pub open spec fn global_of(c: IVec2, l: IVec3) -> IVec3 {
    IVec3 { x: (c.x * 32 + l.x) as i32, y: l.y, z: (c.y * 32 + l.z) as i32 }
}

/// Everything a radar at column `pos` may report: each material in the mask
/// within squared distance `radius_sq` (and within the cone, when there is
/// one), with its global position.
pub fn radar_candidates(
    world: &LazyWorld,
    pos: IVec2,
    radius_sq: i64,
    mask: u8,
    cone: Option<(Direction2D, IVec2)>,
) -> (r: Vec<(GameMaterial, IVec3)>)
    requires
        world.wf(),
        small_vec(pos),
    ensures
        forall|m: GameMaterial, p: IVec3| #[trigger] r@.contains((m, p)) <==> radar_match(
            world@,
            pos,
            radius_sq as int,
            mask,
            cone,
            m,
            p,
        ),
{
    let parts = world.lookup_around(pos, radius_sq);
    proof {
        world.lemma_parts_wf();
    }
    let mut r: Vec<(GameMaterial, IVec3)> = Vec::new();
    let mut i: usize = 0;
    while i < parts.len()
        invariant
            world.wf(),
            small_vec(pos),
            i <= parts@.len(),
            forall|c: IVec2| #[trigger] parts@.contains(c) <==> world@.contains_key(key_of(c))
                && chunk_dist_sq(c, pos) <= radius_sq,
            forall|c: (int, int)| #[trigger] world@.contains_key(c) ==> world@[c].wf(),
            forall|c: (int, int)|
                #[trigger] world@.contains_key(c) ==> -0x80_0000 <= c.0 <= 0x80_0000 && -0x80_0000
                    <= c.1 <= 0x80_0000,
            forall|m: GameMaterial, p: IVec3| #[trigger] r@.contains((m, p)) <==> radar_match(
                world@,
                pos,
                radius_sq as int,
                mask,
                cone,
                m,
                p,
            ) && parts@.subrange(0, i as int).contains(
                IVec2 { x: chunk_of(p).0 as i32, y: chunk_of(p).1 as i32 },
            ),
        decreases parts@.len() - i,
    {
        let c = parts[i];
        assert(parts@.contains(c));
        let block = world.get_part(c).unwrap();
        let base_x: i32 = c.x * EDGE;
        let base_z: i32 = c.y * EDGE;
        let local_pos = IVec2::new(pos.x - base_x, pos.y - base_z);
        let cols = block.closest_columns(local_pos, radius_sq);
        let ghost done = parts@.subrange(0, i as int);
        let mut k: usize = 0;
        while k < cols.len()
            invariant
                world.wf(),
                small_vec(pos),
                i < parts@.len(),
                c == parts@[i as int],
                world@.contains_key(key_of(c)),
                block@ == world@[key_of(c)],
                block.wf(),
                base_x == c.x * 32,
                base_z == c.y * 32,
                -0x80_0000 <= c.x <= 0x80_0000 && -0x80_0000 <= c.y <= 0x80_0000,
                local_pos.x == pos.x - base_x,
                local_pos.y == pos.y - base_z,
                done == parts@.subrange(0, i as int),
                forall|q: IVec2| #[trigger] cols@.contains(q) <==> (0 <= q.x < EDGE && 0 <= q.y < EDGE
                    && dist_sq(q, local_pos) <= radius_sq),
                k <= cols@.len(),
                forall|m: GameMaterial, p: IVec3| #[trigger] r@.contains((m, p)) <==> radar_match(
                    world@,
                    pos,
                    radius_sq as int,
                    mask,
                    cone,
                    m,
                    p,
                ) && (done.contains(IVec2 { x: chunk_of(p).0 as i32, y: chunk_of(p).1 as i32 }) || (
                chunk_of(p) == key_of(c) && cols@.subrange(0, k as int).contains(
                    IVec2 { x: local_axis(p.x as int) as i32, y: local_axis(p.z as int) as i32 },
                ))),
            decreases cols@.len() - k,
        {
            let col = cols[k];
            assert(cols@.contains(col));
            let mats = block.material_in_col(col, mask);
            let mut t: usize = 0;
            while t < mats.len()
                invariant
                    world.wf(),
                    small_vec(pos),
                    world@.contains_key(key_of(c)),
                    block@ == world@[key_of(c)],
                    block.wf(),
                    base_x == c.x * 32,
                    base_z == c.y * 32,
                    -0x80_0000 <= c.x <= 0x80_0000 && -0x80_0000 <= c.y <= 0x80_0000,
                    local_pos.x == pos.x - base_x,
                    local_pos.y == pos.y - base_z,
                    0 <= col.x < EDGE && 0 <= col.y < EDGE,
                    dist_sq(col, local_pos) <= radius_sq,
                    k < cols@.len(),
                    col == cols@[k as int],
                    mats@ == column_matches(block@, col.x as int, col.y as int, mask, 32),
                    t <= mats@.len(),
                    forall|m: GameMaterial, p: IVec3| #[trigger] r@.contains((m, p)) <==> radar_match(
                        world@,
                        pos,
                        radius_sq as int,
                        mask,
                        cone,
                        m,
                        p,
                    ) && (done.contains(IVec2 { x: chunk_of(p).0 as i32, y: chunk_of(p).1 as i32 })
                        || (chunk_of(p) == key_of(c) && cols@.subrange(0, k as int).contains(
                        IVec2 { x: local_axis(p.x as int) as i32, y: local_axis(p.z as int) as i32 },
                    )) || (chunk_of(p) == key_of(c) && local_axis(p.x as int) == col.x
                        && local_axis(p.z as int) == col.y && mats@.subrange(0, t as int).contains(
                        (m, IVec3 { x: col.x, y: p.y, z: col.y }),
                    ))),
                decreases mats@.len() - t,
            {
                let (mat, lp) = mats[t];
                proof {
                    assert(mats@.contains((mat, lp)));
                    lemma_column_matches_contains(block@, col.x as int, col.y as int, mask, 32, mat, lp);
                }
                let rel = IVec2::new(base_x + col.x - pos.x, base_z + col.y - pos.y);
                let keep = match cone {
                    Some((d, dims)) => d.within_cone(rel, dims),
                    None => true,
                };
                let gp = IVec3::new(base_x + lp.x, lp.y, base_z + lp.z);
                let ghost old_r = r@;
                if keep {
                    r.push((mat, gp));
                }
                proof {
                    lemma_split_offset(c.x as int, lp.x as int);
                    lemma_split_offset(c.y as int, lp.z as int);
                    let s0 = mats@.subrange(0, t as int);
                    let s1 = mats@.subrange(0, t + 1);
                    assert(s1 =~= s0.push((mat, lp)));
                    assert(dist_sq(IVec2 { x: gp.x, y: gp.z }, pos) == dist_sq(col, local_pos));
                    assert forall|m: GameMaterial, p: IVec3| #[trigger] r@.contains((m, p)) <==> radar_match(
                        world@,
                        pos,
                        radius_sq as int,
                        mask,
                        cone,
                        m,
                        p,
                    ) && (done.contains(IVec2 { x: chunk_of(p).0 as i32, y: chunk_of(p).1 as i32 })
                        || (chunk_of(p) == key_of(c) && cols@.subrange(0, k as int).contains(
                        IVec2 { x: local_axis(p.x as int) as i32, y: local_axis(p.z as int) as i32 },
                    )) || (chunk_of(p) == key_of(c) && local_axis(p.x as int) == col.x
                        && local_axis(p.z as int) == col.y && s1.contains(
                        (m, IVec3 { x: col.x, y: p.y, z: col.y }),
                    ))) by {
                        let lq = IVec3 { x: col.x, y: p.y, z: col.y };
                        if s1.contains((m, lq)) && (m, lq) != (mat, lp) {
                            let j = choose|j: int| 0 <= j < s1.len() && s1[j] == (m, lq);
                            assert(s0[j] == (m, lq));
                        }
                        if s0.contains((m, lq)) {
                            let j = choose|j: int| 0 <= j < s0.len() && s0[j] == (m, lq);
                            assert(s1[j] == (m, lq));
                        }
                        assert(s1[t as int] == (mat, lp));
                        if chunk_of(p) == key_of(c) && local_axis(p.x as int) == col.x && local_axis(
                            p.z as int,
                        ) == col.y {
                            vstd::arithmetic::div_mod::lemma_fundamental_div_mod(p.x as int, 32);
                            vstd::arithmetic::div_mod::lemma_fundamental_div_mod(p.z as int, 32);
                            if (m, lq) == (mat, lp) {
                                assert(p == gp);
                            }
                        }
                        if keep {
                            if r@.contains((m, p)) && (m, p) != (mat, gp) {
                                let j = choose|j: int| 0 <= j < r@.len() && r@[j] == (m, p);
                                assert(old_r[j] == (m, p));
                            }
                            if old_r.contains((m, p)) {
                                let j = choose|j: int| 0 <= j < old_r.len() && old_r[j] == (m, p);
                                assert(r@[j] == (m, p));
                            }
                            if (m, p) == (mat, gp) {
                                assert(r@[r@.len() - 1] == (mat, gp));
                            }
                        }
                    }
                }
                t = t + 1;
            }
            proof {
                assert(mats@.subrange(0, mats@.len() as int) =~= mats@);
                let s0 = cols@.subrange(0, k as int);
                let s1 = cols@.subrange(0, k + 1);
                assert(s1 =~= s0.push(col));
                assert forall|m: GameMaterial, p: IVec3| #[trigger] r@.contains((m, p)) <==> radar_match(
                    world@,
                    pos,
                    radius_sq as int,
                    mask,
                    cone,
                    m,
                    p,
                ) && (done.contains(IVec2 { x: chunk_of(p).0 as i32, y: chunk_of(p).1 as i32 }) || (
                chunk_of(p) == key_of(c) && s1.contains(
                    IVec2 { x: local_axis(p.x as int) as i32, y: local_axis(p.z as int) as i32 },
                ))) by {
                    let lc = IVec2 { x: local_axis(p.x as int) as i32, y: local_axis(p.z as int) as i32 };
                    if s1.contains(lc) && lc != col {
                        let j = choose|j: int| 0 <= j < s1.len() && s1[j] == lc;
                        assert(s0[j] == lc);
                    }
                    if s0.contains(lc) {
                        let j = choose|j: int| 0 <= j < s0.len() && s0[j] == lc;
                        assert(s1[j] == lc);
                    }
                    assert(s1[k as int] == col);
                    if chunk_of(p) == key_of(c) && lc == col && radar_match(
                        world@,
                        pos,
                        radius_sq as int,
                        mask,
                        cone,
                        m,
                        p,
                    ) {
                        vstd::arithmetic::div_mod::lemma_mod_bound(p.x as int, 32);
                        vstd::arithmetic::div_mod::lemma_mod_bound(p.z as int, 32);
                        lemma_column_matches_contains(
                            block@,
                            col.x as int,
                            col.y as int,
                            mask,
                            32,
                            m,
                            IVec3 { x: col.x, y: p.y, z: col.y },
                        );
                    }
                }
            }
            k = k + 1;
        }
        proof {
            assert(cols@.subrange(0, cols@.len() as int) =~= cols@);
            let s0 = parts@.subrange(0, i as int);
            let s1 = parts@.subrange(0, i + 1);
            assert(s1 =~= s0.push(c));
            assert forall|m: GameMaterial, p: IVec3| #[trigger] r@.contains((m, p)) <==> radar_match(
                world@,
                pos,
                radius_sq as int,
                mask,
                cone,
                m,
                p,
            ) && s1.contains(IVec2 { x: chunk_of(p).0 as i32, y: chunk_of(p).1 as i32 }) by {
                let pc = IVec2 { x: chunk_of(p).0 as i32, y: chunk_of(p).1 as i32 };
                if s1.contains(pc) && pc != c {
                    let j = choose|j: int| 0 <= j < s1.len() && s1[j] == pc;
                    assert(s0[j] == pc);
                }
                if s0.contains(pc) {
                    let j = choose|j: int| 0 <= j < s0.len() && s0[j] == pc;
                    assert(s1[j] == pc);
                }
                assert(s1[i as int] == c);
                if pc == c && radar_match(world@, pos, radius_sq as int, mask, cone, m, p) {
                    vstd::arithmetic::div_mod::lemma_fundamental_div_mod(p.x as int, 32);
                    vstd::arithmetic::div_mod::lemma_fundamental_div_mod(p.z as int, 32);
                    vstd::arithmetic::div_mod::lemma_mod_bound(p.x as int, 32);
                    vstd::arithmetic::div_mod::lemma_mod_bound(p.z as int, 32);
                    let lc = IVec2 { x: local_axis(p.x as int) as i32, y: local_axis(p.z as int) as i32 };
                    assert(dist_sq(lc, local_pos) == dist_sq(IVec2 { x: p.x, y: p.z }, pos));
                    assert(cols@.contains(lc));
                }
            }
        }
        i = i + 1;
    }
    proof {
        assert(parts@.subrange(0, parts@.len() as int) =~= parts@);
        assert forall|m: GameMaterial, p: IVec3| radar_match(
            world@,
            pos,
            radius_sq as int,
            mask,
            cone,
            m,
            p,
        ) implies #[trigger] r@.contains((m, p)) by {
            let pc = IVec2 { x: chunk_of(p).0 as i32, y: chunk_of(p).1 as i32 };
            assert(key_of(pc) == chunk_of(p));
            vstd::arithmetic::div_mod::lemma_fundamental_div_mod(p.x as int, 32);
            vstd::arithmetic::div_mod::lemma_fundamental_div_mod(p.z as int, 32);
            vstd::arithmetic::div_mod::lemma_mod_bound(p.x as int, 32);
            vstd::arithmetic::div_mod::lemma_mod_bound(p.z as int, 32);
            lemma_gap_le(pos.x as int, pc.x * 32, p.x as int);
            lemma_gap_le(pos.y as int, pc.y * 32, p.z as int);
            assert(parts@.contains(pc));
        }
    }
    r
}

/// One scan of a radar: a candidate chosen uniformly at random among all of
/// `radar_candidates`, or `None` when there is none.
pub fn radar_search(
    world: &LazyWorld,
    pos: IVec2,
    radius_sq: i64,
    mask: u8,
    cone: Option<(Direction2D, IVec2)>,
    rng: &mut StdRng,
) -> (r: Option<(GameMaterial, IVec3)>)
    requires
        world.wf(),
        small_vec(pos),
    ensures
        r is None <==> !exists|m: GameMaterial, p: IVec3|
            #[trigger] radar_match(world@, pos, radius_sq as int, mask, cone, m, p),
        r matches Some((m, p)) ==> radar_match(world@, pos, radius_sq as int, mask, cone, m, p),
        r matches Some((m, p)) ==> in_mask(m, mask),
        r matches Some((m, p)) ==> (cone matches Some((d, dims)) ==> cone_contains(
            d,
            IVec2 { x: (p.x - pos.x) as i32, y: (p.z - pos.y) as i32 },
            dims,
        )),
{
    let candidates = radar_candidates(world, pos, radius_sq, mask, cone);
    let r = pick(rng, &candidates);
    proof {
        if r is None {
            assert forall|m: GameMaterial, p: IVec3| !#[trigger] radar_match(
                world@,
                pos,
                radius_sq as int,
                mask,
                cone,
                m,
                p,
            ) by {
                if radar_match(world@, pos, radius_sq as int, mask, cone, m, p) {
                    assert(candidates@.contains((m, p)));
                }
            }
        } else {
            let (m, p) = r.unwrap();
            assert(candidates@.contains((m, p)));
        }
    }
    r
}

} // verus!
