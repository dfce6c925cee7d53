use vstd::prelude::*;
use rand::rngs::StdRng;

use crate::coords::IVec2;
use crate::rng::gen_range_inclusive;

verus! {

/// One of the four horizontal facings, numbered clockwise from `Forward`.
#[derive(Debug, Clone, Copy, PartialEq, Eq, Structural, Hash)]
pub enum Direction2D {
    Forward,
    Right,
    Backward,
    Left,
}

/// Clockwise number of a facing, in `[0, 4)`.
pub open spec fn dir_index(d: Direction2D) -> nat {
    match d {
        Direction2D::Forward => 0,
        Direction2D::Right => 1,
        Direction2D::Backward => 2,
        Direction2D::Left => 3,
    }
}

/// The facing with clockwise number `n` modulo 4.
pub open spec fn dir_of(n: nat) -> Direction2D {
    let k = n % 4;
    if k == 0 {
        Direction2D::Forward
    } else if k == 1 {
        Direction2D::Right
    } else if k == 2 {
        Direction2D::Backward
    } else {
        Direction2D::Left
    }
}

/// Rust's `/ 2` on an integer: the quotient truncated toward zero.
pub open spec fn half_toward_zero(v: int) -> int {
    if v >= 0 {
        v / 2
    } else {
        -((-v) / 2)
    }
}

pub open spec fn abs_int(v: int) -> int {
    if v >= 0 {
        v
    } else {
        -v
    }
}

pub open spec fn max_int(a: int, b: int) -> int {
    if a >= b {
        a
    } else {
        b
    }
}

/// Whether `pos`, relative to a carrier facing `d`, lies in the cone in front
/// of it; the cone is at least half of the carrier's footprint `min_dims` wide.
pub open spec fn cone_contains(d: Direction2D, pos: IVec2, min_dims: IVec2) -> bool {
    let x = pos.x as int;
    let y = pos.y as int;
    match d {
        Direction2D::Forward => y < 0 && abs_int(x) <= max_int(-y, half_toward_zero(
            min_dims.x as int,
        )),
        Direction2D::Backward => y > 0 && abs_int(x) <= max_int(y, half_toward_zero(
            min_dims.x as int,
        )),
        Direction2D::Left => x <= 0 && abs_int(y) <= max_int(-x, half_toward_zero(
            min_dims.y as int,
        )),
        Direction2D::Right => x > 0 && abs_int(y) <= max_int(x, half_toward_zero(
            min_dims.y as int,
        )),
    }
}

/// The unit step of a facing on the `(x, z)` plane.
pub open spec fn dir_step(d: Direction2D) -> (int, int) {
    match d {
        Direction2D::Forward => (0, -1),
        Direction2D::Backward => (0, 1),
        Direction2D::Left => (-1, 0),
        Direction2D::Right => (1, 0),
    }
}

/// Both components are far enough from the ends of `i32` for sums and
/// negations of such values not to overflow.
pub open spec fn small_vec(v: IVec2) -> bool {
    -0x1000_0000 <= v.x <= 0x1000_0000 && -0x1000_0000 <= v.y <= 0x1000_0000
}

/// Width of the line that `line_in_direction` draws across `size`.
pub open spec fn line_width(d: Direction2D, size: IVec2) -> int {
    match d {
        Direction2D::Forward | Direction2D::Backward => size.x as int,
        Direction2D::Left | Direction2D::Right => size.y as int,
    }
}

/// Cell number `i` of the line that `line_in_direction` draws.
pub open spec fn line_cell(d: Direction2D, center: IVec2, size: IVec2, i: int) -> (int, int) {
    let w = line_width(d, size);
    match d {
        Direction2D::Forward => (center.x - half_toward_zero(w) + i, center.y - half_toward_zero(
            size.y as int,
        )),
        Direction2D::Backward => (center.x - half_toward_zero(w) + i, center.y + half_toward_zero(
            size.y as int,
        )),
        Direction2D::Left => (center.x - half_toward_zero(size.x as int), center.y
            - half_toward_zero(w) + i),
        Direction2D::Right => (center.x + half_toward_zero(size.x as int), center.y
            - half_toward_zero(w) + i),
    }
}

/// Number of cells of the square `[-max_d, max_d]²` inside the cone.
pub open spec fn cone_count(d: Direction2D, max_d: int, min_dims: IVec2, k: int) -> nat
    decreases k,
{
    if k <= 0 {
        0
    } else {
        let side = 2 * max_d + 1;
        let i = k - 1;
        let pos = IVec2 { x: (i / side - max_d) as i32, y: (i % side - max_d) as i32 };
        cone_count(d, max_d, min_dims, k - 1) + if cone_contains(d, pos, min_dims) {
            1nat
        } else {
            0nat
        }
    }
}

fn trunc_half(v: i32) -> (r: i32)
    ensures
        r == half_toward_zero(v as int),
{
    if v >= 0 {
        v / 2
    } else {
        let n: i64 = -(v as i64);
        -((n / 2) as i32)
    }
}

impl Direction2D {
    /// Clockwise number of this facing.
    pub fn index(self) -> (r: usize)
        ensures
            r == dir_index(self),
    {
        match self {
            Direction2D::Forward => 0,
            Direction2D::Right => 1,
            Direction2D::Backward => 2,
            Direction2D::Left => 3,
        }
    }

    /// The facing with clockwise number `val` modulo 4.
    pub fn from_index(val: usize) -> (r: Direction2D)
        ensures
            r == dir_of(val as nat),
    {
        let k = val % 4;
        if k == 0 {
            Direction2D::Forward
        } else if k == 1 {
            Direction2D::Right
        } else if k == 2 {
            Direction2D::Backward
        } else {
            Direction2D::Left
        }
    }

    /// A quarter turn clockwise.
    pub fn rotate(self) -> (r: Self)
        ensures
            r == dir_of(dir_index(self) + 1),
    {
        Direction2D::from_index(self.index() + 1)
    }

    /// A half turn.
    pub fn opposite(self) -> (r: Self)
        ensures
            r == dir_of(dir_index(self) + 2),
    {
        Direction2D::from_index(self.index() + 2)
    }

    /// This facing turned further by `rhs` (the sum of both turns).
    pub fn combine(self, rhs: Direction2D) -> (r: Self)
        ensures
            r == dir_of(dir_index(self) + dir_index(rhs)),
    {
        Direction2D::from_index(self.index() + rhs.index())
    }

    /// The unit step of this facing on the `(x, z)` plane.
    pub fn to_ivec2(self) -> (r: IVec2)
        ensures
            (r.x as int, r.y as int) == dir_step(self),
    {
        match self {
            Direction2D::Forward => IVec2::new(0, -1),
            Direction2D::Backward => IVec2::new(0, 1),
            Direction2D::Left => IVec2::new(-1, 0),
            Direction2D::Right => IVec2::new(1, 0),
        }
    }

    /// A footprint `size` as seen after turning to this facing: sideways
    /// facings swap its two extents.
    pub fn rotate_size(self, size: IVec2) -> (r: IVec2)
        ensures
            (self == Direction2D::Forward || self == Direction2D::Backward) ==> r == size,
            (self == Direction2D::Left || self == Direction2D::Right) ==> r == (IVec2 {
                x: size.y,
                y: size.x,
            }),
    {
        match self {
            Direction2D::Backward | Direction2D::Forward => size,
            Direction2D::Left | Direction2D::Right => IVec2::new(size.y, size.x),
        }
    }

    /// Whether `pos`, relative to a carrier facing this way, lies in its cone.
    pub fn within_cone(self, pos: IVec2, min_dims: IVec2) -> (r: bool)
        requires
            pos.x > i32::MIN,
            pos.y > i32::MIN,
        ensures
            r == cone_contains(self, pos, min_dims),
    {
        match self {
            Direction2D::Forward => {
                let w = trunc_half(min_dims.x);
                let reach = if -pos.y >= w { -pos.y } else { w };
                pos.y < 0 && (if pos.x >= 0 { pos.x } else { -pos.x }) <= reach
            },
            Direction2D::Backward => {
                let w = trunc_half(min_dims.x);
                let reach = if pos.y >= w { pos.y } else { w };
                pos.y > 0 && (if pos.x >= 0 { pos.x } else { -pos.x }) <= reach
            },
            Direction2D::Left => {
                let w = trunc_half(min_dims.y);
                let reach = if -pos.x >= w { -pos.x } else { w };
                pos.x <= 0 && (if pos.y >= 0 { pos.y } else { -pos.y }) <= reach
            },
            Direction2D::Right => {
                let w = trunc_half(min_dims.y);
                let reach = if pos.x >= w { pos.x } else { w };
                pos.x > 0 && (if pos.y >= 0 { pos.y } else { -pos.y }) <= reach
            },
        }
    }

    /// The cells of a straight line across the footprint `size` centred on
    /// `center`, on the side this facing points to, one per unit of width.
    pub fn line_in_direction(self, center: IVec2, size: IVec2) -> (r: Vec<IVec2>)
        requires
            small_vec(center),
            small_vec(size),
        ensures
            r@.len() == if line_width(self, size) > 0 {
                line_width(self, size)
            } else {
                0
            },
            forall|i: int|
                0 <= i < r@.len() ==> (r@[i].x as int, r@[i].y as int) == line_cell(
                    self,
                    center,
                    size,
                    i,
                ),
    {
        let width = match self {
            Direction2D::Forward | Direction2D::Backward => size.x,
            Direction2D::Left | Direction2D::Right => size.y,
        };
        let start = match self {
            Direction2D::Forward => IVec2::new(
                center.x - trunc_half(width),
                center.y - trunc_half(size.y),
            ),
            Direction2D::Backward => IVec2::new(
                center.x - trunc_half(width),
                center.y + trunc_half(size.y),
            ),
            Direction2D::Left => IVec2::new(
                center.x - trunc_half(size.x),
                center.y - trunc_half(width),
            ),
            Direction2D::Right => IVec2::new(
                center.x + trunc_half(size.x),
                center.y - trunc_half(width),
            ),
        };
        let along = match self {
            Direction2D::Forward | Direction2D::Backward => true,
            Direction2D::Left | Direction2D::Right => false,
        };
        let mut r: Vec<IVec2> = Vec::new();
        let mut i: i32 = 0;
        while i < width
            invariant
                0 <= i,
                width <= 0x1000_0000,
                i <= width || i == 0,
                r@.len() == i,
                small_vec(center),
                small_vec(size),
                -0x1800_0000 <= start.x <= 0x1800_0000,
                -0x1800_0000 <= start.y <= 0x1800_0000,
                along == (self == Direction2D::Forward || self == Direction2D::Backward),
                forall|j: int|
                    0 <= j < i ==> if along {
                        r@[j].x == start.x + j && r@[j].y == start.y
                    } else {
                        r@[j].x == start.x && r@[j].y == start.y + j
                    },
            decreases width - i,
        {
            if along {
                r.push(IVec2::new(start.x + i, start.y));
            } else {
                r.push(IVec2::new(start.x, start.y + i));
            }
            i = i + 1;
        }
        r
    }

    /// A random position in the square `[-max_d, max_d]²` that lies in this
    /// facing's cone, every such position being equally likely.
    pub fn random_in_cone(self, max_d: i32, min_dims: IVec2, rng: &mut StdRng) -> (r: IVec2)
        requires
            1 <= max_d <= 16383,
        ensures
            -max_d <= r.x <= max_d,
            -max_d <= r.y <= max_d,
            cone_contains(self, r, min_dims),
    {
        let side: i32 = 2 * max_d + 1;
        assert(side * side <= 32767 * 32767) by (nonlinear_arith)
            requires
                0 < side <= 32767,
        ;
        let cells: i32 = side * side;
        // count the cells of the square inside the cone
        let mut count: i32 = 0;
        let mut k: i32 = 0;
        while k < cells
            invariant
                1 <= max_d <= 16383,
                side == 2 * max_d + 1,
                cells == side * side,
                0 <= k <= cells,
                0 <= count <= k,
                count == cone_count(self, max_d as int, min_dims, k as int),
            decreases cells - k,
        {
            proof { lemma_cone_cell_bounds(max_d as int, k as int); }
            let pos = IVec2::new(k / side - max_d, k % side - max_d);
            if self.within_cone(pos, min_dims) {
                count = count + 1;
            }
            k = k + 1;
        }
        // the cell (0, -1), (0, 1), (0, 0) or (1, 0) of the square is in the cone
        proof { lemma_cone_nonempty(self, max_d as int, min_dims); }
        let target = gen_range_inclusive(rng, 0, count - 1);
        let mut seen: i32 = 0;
        let mut k: i32 = 0;
        loop
            invariant
                1 <= max_d <= 16383,
                side == 2 * max_d + 1,
                cells == side * side,
                0 <= k <= cells,
                seen == cone_count(self, max_d as int, min_dims, k as int),
                0 <= target < count,
                count == cone_count(self, max_d as int, min_dims, cells as int),
                seen <= target,
            decreases cells - k,
        {
            proof {
                lemma_cone_count_monotone(self, max_d as int, min_dims, k as int, cells as int);
                if k == cells {
                    assert(false);
                }
                lemma_cone_cell_bounds(max_d as int, k as int);
            }
            let pos = IVec2::new(k / side - max_d, k % side - max_d);
            if self.within_cone(pos, min_dims) {
                if seen == target {
                    return pos;
                }
                seen = seen + 1;
            }
            k = k + 1;
        }
    }
}

proof fn lemma_cone_cell_bounds(max_d: int, k: int)
    requires
        1 <= max_d <= 16383,
        0 <= k < (2 * max_d + 1) * (2 * max_d + 1),
    ensures
        0 <= k / (2 * max_d + 1) < 2 * max_d + 1,
        0 <= k % (2 * max_d + 1) < 2 * max_d + 1,
{
    let side = 2 * max_d + 1;
    vstd::arithmetic::div_mod::lemma_div_pos_is_pos(k, side);
    vstd::arithmetic::div_mod::lemma_mod_bound(k, side);
    vstd::arithmetic::div_mod::lemma_div_is_ordered(k, side * side - 1, side);
    assert(side * side - 1 == (side - 1) * side + (side - 1)) by (nonlinear_arith);
    vstd::arithmetic::div_mod::lemma_fundamental_div_mod_converse(
        side * side - 1,
        side,
        side - 1,
        side - 1,
    );
}

proof fn lemma_cone_count_monotone(d: Direction2D, max_d: int, min_dims: IVec2, a: int, b: int)
    requires
        0 <= a <= b,
    ensures
        cone_count(d, max_d, min_dims, a) <= cone_count(d, max_d, min_dims, b),
    decreases b - a,
{
    if a < b {
        lemma_cone_count_monotone(d, max_d, min_dims, a, b - 1);
    }
}

proof fn lemma_cone_count_hit(d: Direction2D, max_d: int, min_dims: IVec2, i: int, b: int)
    requires
        0 <= i < b,
        cone_contains(
            d,
            IVec2 {
                x: (i / (2 * max_d + 1) - max_d) as i32,
                y: (i % (2 * max_d + 1) - max_d) as i32,
            },
            min_dims,
        ),
    ensures
        cone_count(d, max_d, min_dims, b) >= 1,
    decreases b,
{
    if i < b - 1 {
        lemma_cone_count_hit(d, max_d, min_dims, i, b - 1);
    }
}

proof fn lemma_cone_nonempty(d: Direction2D, max_d: int, min_dims: IVec2)
    requires
        1 <= max_d <= 16383,
    ensures
        cone_count(d, max_d, min_dims, (2 * max_d + 1) * (2 * max_d + 1)) >= 1,
{
    let side = 2 * max_d + 1;
    let cells = side * side;
    assert(cells >= side * 3) by (nonlinear_arith)
        requires
            side >= 3,
            cells == side * side,
    ;
    // the chosen cell, written as (column, row) offsets from the corner
    let (cx, cy): (int, int) = match d {
        Direction2D::Forward => (max_d, max_d - 1),
        Direction2D::Backward => (max_d, max_d + 1),
        Direction2D::Left => (max_d, max_d),
        Direction2D::Right => (max_d + 1, max_d),
    };
    let i = cx * side + cy;
    assert(0 <= i < cells) by (nonlinear_arith)
        requires
            0 <= cx < side,
            0 <= cy < side,
            i == cx * side + cy,
            cells == side * side,
    ;
    vstd::arithmetic::div_mod::lemma_fundamental_div_mod_converse(i, side, cx, cy);
    lemma_cone_count_hit(d, max_d, min_dims, i, cells);
}

/// Whether two machine footprints overlap: each covers `dims` (turned to its
/// facing) cells from its corner `pos`.
pub open spec fn footprints_overlap(
    pos1: IVec2,
    dims1: IVec2,
    dir1: Direction2D,
    pos2: IVec2,
    dims2: IVec2,
    dir2: Direction2D,
) -> bool {
    let (w1, h1) = if dir1 == Direction2D::Left || dir1 == Direction2D::Right {
        (dims1.y as int, dims1.x as int)
    } else {
        (dims1.x as int, dims1.y as int)
    };
    let (w2, h2) = if dir2 == Direction2D::Left || dir2 == Direction2D::Right {
        (dims2.y as int, dims2.x as int)
    } else {
        (dims2.x as int, dims2.y as int)
    };
    pos1.x < pos2.x + w2 && pos1.x + w1 > pos2.x && pos1.y < pos2.y + h2 && pos1.y + h1 > pos2.y
}

/// Whether the footprints of two machines, placed at `pos1` and `pos2` with
/// sizes `dims1` and `dims2` turned to their facings, overlap.
pub fn intersects(
    pos1: IVec2,
    dims1: IVec2,
    dir1: Direction2D,
    pos2: IVec2,
    dims2: IVec2,
    dir2: Direction2D,
) -> (r: bool)
    requires
        small_vec(pos1),
        small_vec(dims1),
        small_vec(pos2),
        small_vec(dims2),
    ensures
        r == footprints_overlap(pos1, dims1, dir1, pos2, dims2, dir2),
{
    let s1 = dir1.rotate_size(dims1);
    let s2 = dir2.rotate_size(dims2);
    pos1.x < pos2.x + s2.x && pos1.x + s1.x > pos2.x && pos1.y < pos2.y + s2.y && pos1.y + s1.y
        > pos2.y
}

} // verus!
