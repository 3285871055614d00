//! Small utilities of the engine: the per-cell marker bit set and the
//! deterministic pseudo-random number generator that resolves `Flip`.

use vstd::prelude::*;

verus! {

/// A fixed-width set of eight independently settable bits.  The engine uses
/// bits 0 through 5 as the six chemical markers a colony can leave on a cell.
#[derive(Clone, Copy, Debug, PartialEq, Eq, Structural)]
pub struct BitField8 {
    pub bits: u8,
}

/// Whether bit `i` of `bits` is set.
pub open spec fn bit_test(bits: u8, i: u8) -> bool {
    bits & (1u8 << i) != 0
}

/// `bits` with bit `i` set.
pub open spec fn bit_set(bits: u8, i: u8) -> u8 {
    bits | (1u8 << i)
}

/// `bits` with bit `i` cleared.
pub open spec fn bit_clear(bits: u8, i: u8) -> u8 {
    bits & !(1u8 << i)
}

impl BitField8 {
    /// The empty bit set.
    pub fn new() -> (r: BitField8)
        ensures
            r.bits == 0u8,
    {
        BitField8 { bits: 0 }
    }

    /// Whether bit `i` is set.
    pub fn test(&self, i: u8) -> (r: bool)
        requires
            i < 8,
        ensures
            r == bit_test(self.bits, i),
    {
        self.bits & (1u8 << i) != 0
    }

    /// Set bit `i`.
    pub fn set_bit(&mut self, i: u8)
        requires
            i < 8,
        ensures
            final(self).bits == bit_set(old(self).bits, i),
    {
        self.bits = self.bits | (1u8 << i);
    }

    /// Clear bit `i`.
    pub fn clear(&mut self, i: u8)
        requires
            i < 8,
        ensures
            final(self).bits == bit_clear(old(self).bits, i),
    {
        self.bits = self.bits & !(1u8 << i);
    }

    /// Whether any bit at all is set.
    pub fn any_set(&self) -> (r: bool)
        ensures
            r == (self.bits != 0u8),
    {
        self.bits != 0
    }

    /// The indices of the set bits, in ascending order.
    pub fn set_bits(&self) -> (r: Vec<u8>)
        ensures
            forall|k: int| 0 <= k < r@.len() ==> r@[k] < 8 && bit_test(self.bits, r@[k]),
            forall|i: u8| i < 8 && bit_test(self.bits, i) ==> r@.contains(i),
            forall|k: int, l: int| 0 <= k < l < r@.len() ==> r@[k] < r@[l],
    {
        let mut r: Vec<u8> = Vec::new();
        let mut i: u8 = 0;
        while i < 8
            invariant
                i <= 8,
                forall|k: int| 0 <= k < r@.len() ==> r@[k] < i && bit_test(self.bits, r@[k]),
                forall|j: u8| j < i && bit_test(self.bits, j) ==> r@.contains(j),
                forall|k: int, l: int| 0 <= k < l < r@.len() ==> r@[k] < r@[l],
            decreases 8 - i,
        {
            if self.test(i) {
                let ghost r0 = r@;
                r.push(i);
                proof {
                    assert forall|j: u8| r0.contains(j) implies r@.contains(j) by {
                        let k = choose|k: int| 0 <= k < r0.len() && r0[k] == j;
                        assert(r@[k] == j);
                    }
                    assert(r@[r@.len() - 1] == i);
                }
            }
            i = i + 1;
        }
        r
    }
}

/// Setting a bit and then clearing it gives the same result as clearing it
/// outright; when the bit was clear to begin with, the original value comes
/// back.  This is the marker round trip behind `Mark(m); Unmark(m)`.
pub proof fn lemma_set_then_clear(bits: u8, i: u8)
    requires
        i < 8,
    ensures
        bit_clear(bit_set(bits, i), i) == bit_clear(bits, i),
        !bit_test(bits, i) ==> bit_clear(bit_set(bits, i), i) == bits,
{
    assert((bits | (1u8 << i)) & !(1u8 << i) == bits & !(1u8 << i)) by (bit_vector);
    assert(bits & (1u8 << i) == 0 ==> bits & !(1u8 << i) == bits) by (bit_vector)
        requires i < 8;
}

/// The multiplier of the linear congruential generator.
pub const RNG_MULTIPLIER: u32 = 22695477;

/// The state that follows `s`: `s * 22695477 + 1 (mod 2^32)`.
pub open spec fn rng_step(s: u32) -> u32 {
    (((s as int) * 22695477 + 1) % 0x1_0000_0000) as u32
}

/// The value drawn from state `s`: `(s div 65536) mod 16384`.
pub open spec fn rng_out(s: u32) -> u32 {
    (((s as int) / 65536) % 16384) as u32
}

/// `seed` advanced `n` times by `rng_step`.
pub open spec fn rng_step_n(seed: u32, n: nat) -> u32
    decreases n,
{
    if n == 0 {
        seed
    } else {
        rng_step(rng_step_n(seed, (n - 1) as nat))
    }
}

/// The deterministic pseudo-random number generator of the engine, consumed
/// only by the `Flip` instruction.
///
/// It is the linear congruential generator documented for the 2004 ICFP
/// contest task: from `S_0 = seed`, the states follow
/// `S_{j+1} = S_j * 22695477 + 1 (mod 2^32)`, and the i-th value drawn is
/// `X_i = (S_{i+4} div 65536) mod 16384`.  Identical seeds give identical
/// value streams on every platform, which replays depend on.
#[derive(Clone, Copy, Debug, PartialEq, Eq, Structural)]
pub struct Rng {
    pub state: u32,
}

impl Rng {
    /// Seed the generator.  The state starts at `S_4`, so that the first
    /// value drawn is `X_0`.
    pub fn new(seed: u32) -> (r: Rng)
        ensures
            r.state == rng_step_n(seed, 4),
    {
        let mut r = Rng { state: seed };
        r.advance();
        r.advance();
        r.advance();
        r.advance();
        proof {
            reveal_with_fuel(rng_step_n, 5);
        }
        r
    }

    /// Step the state once.
    fn advance(&mut self)
        ensures
            final(self).state == rng_step(old(self).state),
    {
        let next: u64 = (self.state as u64 * 22695477 + 1) % 0x1_0000_0000;
        self.state = next as u32;
    }

    /// Draw the next value, reduced into `[0, n)`.
    pub fn random_int(&mut self, n: u32) -> (r: u32)
        requires
            n >= 1,
        ensures
            r == rng_out(old(self).state) % n,
            r < n,
            final(self).state == rng_step(old(self).state),
    {
        let value = (self.state / 65536) % 16384;
        self.advance();
        value % n
    }
}

} // verus!
