use vstd::prelude::*;
use rand::rngs::StdRng;

use crate::rng::gen_range_inclusive;

verus! {

/// A category of recyclable substance. Each variant owns one bit, so that a
/// set of materials can be written as a mask.
#[derive(Debug, Clone, Copy, PartialEq, Eq, Structural, Hash)]
pub enum GameMaterial {
    /// maintenance
    Reddish,
    /// building
    Greenish,
    /// fuel
    Blueish,
    Brownish,
}

/// Position of the material's bit in a mask.
pub open spec fn material_index(m: GameMaterial) -> nat {
    match m {
        GameMaterial::Reddish => 0,
        GameMaterial::Greenish => 1,
        GameMaterial::Blueish => 2,
        GameMaterial::Brownish => 3,
    }
}

/// The single-bit mask value of a material.
pub open spec fn material_bit(m: GameMaterial) -> u8 {
    match m {
        GameMaterial::Reddish => 1,
        GameMaterial::Greenish => 2,
        GameMaterial::Blueish => 4,
        GameMaterial::Brownish => 8,
    }
}

/// Bitwise union of the masks of a sequence of materials.
pub open spec fn mask_of(s: Seq<GameMaterial>) -> u8
    decreases s.len(),
{
    if s.len() == 0 {
        0
    } else {
        mask_of(s.drop_last()) | material_bit(s.last())
    }
}

/// Whether a material belongs to a mask.
pub open spec fn in_mask(m: GameMaterial, mask: u8) -> bool {
    material_bit(m) & mask != 0
}

/// Material that `GameMaterial::random` returns for a draw in `[1, 200)`.
pub open spec fn spawn_material(n: int) -> GameMaterial {
    if 1 <= n <= 3 {
        GameMaterial::Greenish
    } else if 10 <= n <= 50 {
        GameMaterial::Blueish
    } else {
        GameMaterial::Brownish
    }
}

/// Material that `GameMaterial::random_recycle` returns for a draw in `[0, 6]`.
pub open spec fn recycle_material(n: int) -> GameMaterial {
    if n == 0 {
        GameMaterial::Reddish
    } else if 1 <= n <= 2 {
        GameMaterial::Greenish
    } else {
        GameMaterial::Blueish
    }
}

proof fn lemma_bit_in_union(a: u8, b: u8, bit: u8)
    ensures
        (a | b) & bit != 0 <==> (a & bit != 0 || b & bit != 0),
{
    assert((a | b) & bit != 0 <==> (a & bit != 0 || b & bit != 0)) by (bit_vector);
}

proof fn lemma_distinct_bits(m: GameMaterial, n: GameMaterial)
    ensures
        material_bit(m) & material_bit(n) != 0 <==> m == n,
{
    assert(1u8 & 2u8 == 0) by (bit_vector);
    assert(1u8 & 4u8 == 0) by (bit_vector);
    assert(1u8 & 8u8 == 0) by (bit_vector);
    assert(2u8 & 1u8 == 0) by (bit_vector);
    assert(2u8 & 4u8 == 0) by (bit_vector);
    assert(2u8 & 8u8 == 0) by (bit_vector);
    assert(4u8 & 1u8 == 0) by (bit_vector);
    assert(4u8 & 2u8 == 0) by (bit_vector);
    assert(4u8 & 8u8 == 0) by (bit_vector);
    assert(8u8 & 1u8 == 0) by (bit_vector);
    assert(8u8 & 2u8 == 0) by (bit_vector);
    assert(8u8 & 4u8 == 0) by (bit_vector);
    assert(1u8 & 1u8 == 1) by (bit_vector);
    assert(2u8 & 2u8 == 2) by (bit_vector);
    assert(4u8 & 4u8 == 4) by (bit_vector);
    assert(8u8 & 8u8 == 8) by (bit_vector);
}

/// A material belongs to the union mask of a sequence exactly when the
/// sequence holds it.
pub proof fn lemma_mask_of_contains(s: Seq<GameMaterial>, m: GameMaterial)
    ensures
        in_mask(m, mask_of(s)) <==> s.contains(m),
    decreases s.len(),
{
    if s.len() == 0 {
        assert(material_bit(m) & 0u8 == 0) by {
            let b = material_bit(m);
            assert(b & 0u8 == 0) by (bit_vector);
        }
    } else {
        let init = s.drop_last();
        lemma_mask_of_contains(init, m);
        lemma_bit_in_union(mask_of(init), material_bit(s.last()), material_bit(m));
        let x = material_bit(m);
        let y = mask_of(s);
        assert(x & y != 0 <==> y & x != 0) by (bit_vector);
        let a = mask_of(init);
        assert(x & a != 0 <==> a & x != 0) by (bit_vector);
        let c = material_bit(s.last());
        assert(x & c != 0 <==> c & x != 0) by (bit_vector);
        lemma_distinct_bits(s.last(), m);
        assert(s =~= init.push(s.last()));
        if init.contains(m) {
            let i = choose|i: int| 0 <= i < init.len() && init[i] == m;
            assert(s[i] == m);
        }
        if s.contains(m) && s.last() != m {
            let i = choose|i: int| 0 <= i < s.len() && s[i] == m;
            assert(i < init.len());
            assert(init[i] == m);
        }
    }
}

impl GameMaterial {
    /// The single-bit mask value of this material.
    pub fn bit(self) -> (r: u8)
        ensures
            r == material_bit(self),
    {
        match self {
            GameMaterial::Reddish => 1,
            GameMaterial::Greenish => 2,
            GameMaterial::Blueish => 4,
            GameMaterial::Brownish => 8,
        }
    }

    /// Index of this material's bit (its number of trailing zeros).
    pub fn as_usize(self) -> (r: usize)
        ensures
            r == material_index(self),
    {
        match self {
            GameMaterial::Reddish => 0,
            GameMaterial::Greenish => 1,
            GameMaterial::Blueish => 2,
            GameMaterial::Brownish => 3,
        }
    }

    /// Material for a world-generation draw `n` in `[1, 200)`.
    pub fn from_spawn_draw(n: i32) -> (r: GameMaterial)
        ensures
            r == spawn_material(n as int),
    {
        if 1 <= n && n <= 3 {
            GameMaterial::Greenish
        } else if 10 <= n && n <= 50 {
            GameMaterial::Blueish
        } else {
            GameMaterial::Brownish
        }
    }

    /// Material for a recycling draw `n` in `[0, 6]`.
    pub fn from_recycle_draw(n: i32) -> (r: GameMaterial)
        ensures
            r == recycle_material(n as int),
    {
        if n == 0 {
            GameMaterial::Reddish
        } else if 1 <= n && n <= 2 {
            GameMaterial::Greenish
        } else {
            GameMaterial::Blueish
        }
    }

    /// A random material as found in freshly generated ground: never reddish.
    pub fn random(rng: &mut StdRng) -> (r: GameMaterial)
        ensures
            exists|n: int| 1 <= n < 200 && r == spawn_material(n),
    {
        let n = gen_range_inclusive(rng, 1, 199);
        GameMaterial::from_spawn_draw(n)
    }

    /// A random material as produced by recycling: never brownish.
    pub fn random_recycle(rng: &mut StdRng) -> (r: GameMaterial)
        ensures
            exists|n: int| 0 <= n <= 6 && r == recycle_material(n),
    {
        let n = gen_range_inclusive(rng, 0, 6);
        GameMaterial::from_recycle_draw(n)
    }

    /// Union of the masks of the given materials.
    pub fn any_of_mask(of: &[GameMaterial]) -> (r: u8)
        ensures
            r == mask_of(of@),
            forall|m: GameMaterial| in_mask(m, r) <==> of@.contains(m),
    {
        let mut acc: u8 = 0;
        let mut i: usize = 0;
        while i < of.len()
            invariant
                i <= of@.len(),
                acc == mask_of(of@.subrange(0, i as int)),
            decreases of@.len() - i,
        {
            assert(of@.subrange(0, i as int + 1).drop_last() =~= of@.subrange(0, i as int));
            acc = acc | of[i].bit();
            i = i + 1;
        }
        assert(of@.subrange(0, i as int) =~= of@);
        proof {
            assert forall|m: GameMaterial| in_mask(m, acc) <==> of@.contains(m) by {
                lemma_mask_of_contains(of@, m);
            }
        }
        acc
    }

    /// Every material, in mask-bit order.
    pub fn all() -> (r: Vec<GameMaterial>)
        ensures
            r@ == seq![
                GameMaterial::Reddish,
                GameMaterial::Greenish,
                GameMaterial::Blueish,
                GameMaterial::Brownish,
            ],
    {
        vec![
            GameMaterial::Reddish,
            GameMaterial::Greenish,
            GameMaterial::Blueish,
            GameMaterial::Brownish,
        ]
    }

    /// Whether this material belongs to `mask`.
    pub fn mask_contains(&self, mask: u8) -> (r: bool)
        ensures
            r == in_mask(*self, mask),
    {
        self.bit() & mask != 0
    }
}

} // verus!
