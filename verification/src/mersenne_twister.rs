//! The Mersenne Twister pseudo-random number generator (MT19937), as used by
//! NetLogo.

use vstd::prelude::*;
use vstd::wrapping::u32_specs::{wrapping_add, wrapping_mul};
use vstd::wrapping::u64_specs;

verus! {

/// The number of words of state.
pub const STATE_VECTOR_SIZE: usize = 624;

/// The distance between the two words combined by the twist.
pub const TEMPERING_SHIFT: usize = 397;

/// Applied in the twist to words with the lowest bit set.
pub const TEMPERING_MATRIX_A: u32 = 0x9908b0df;

/// Mask for the higher bits.
pub const UPPER_MASK: u32 = 0x80000000;

/// Mask for the lower bits.
pub const LOWER_MASK: u32 = 0x7fffffff;

/// Used in tempering.
pub const TEMPERING_MASK_B: u32 = 0x9d2c5680;

/// Used in tempering.
pub const TEMPERING_MASK_C: u32 = 0xefc60000;

/// The word of state at `i` of the initial state for `seed`.
pub open spec fn seed_word(seed: u32, i: nat) -> u32
    decreases i,
{
    if i == 0 {
        seed
    } else {
        let prev = seed_word(seed, (i - 1) as nat);
        wrapping_add(wrapping_mul(1812433253u32, prev ^ (prev >> 30u32)), i as u32)
    }
}

/// The initial state for `seed`.
pub open spec fn seed_state(seed: u32) -> Seq<u32> {
    Seq::new(STATE_VECTOR_SIZE as nat, |i: int| seed_word(seed, i as nat))
}

/// The matrix applied in the twist: `TEMPERING_MATRIX_A` if the lowest bit
/// of `y` is set.
pub open spec fn mag01(y: u32) -> u32 {
    if y & 1u32 == 0 {
        0
    } else {
        TEMPERING_MATRIX_A
    }
}

/// The twist of word `i`: the upper bit of word `i` and the lower bits of the
/// next word, combined with the word `TEMPERING_SHIFT` further on.
pub open spec fn twist_word(t: Seq<u32>, i: int) -> u32 {
    let y = (t[i] & UPPER_MASK) | (t[(i + 1) % 624] & LOWER_MASK);
    t[(i + 397) % 624] ^ (y >> 1u32) ^ mag01(y)
}

/// The state after the first `k` words were twisted in place, one after
/// another.
pub open spec fn twist_prefix(s: Seq<u32>, k: nat) -> Seq<u32>
    decreases k,
{
    if k == 0 {
        s
    } else {
        let t = twist_prefix(s, (k - 1) as nat);
        t.update(k - 1, twist_word(t, k - 1))
    }
}

/// The next batch of state.
pub open spec fn twist(s: Seq<u32>) -> Seq<u32> {
    twist_prefix(s, STATE_VECTOR_SIZE as nat)
}

/// The tempering of a word of state into an output.
pub open spec fn temper(y0: u32) -> u32 {
    let y1 = y0 ^ (y0 >> 11u32);
    let y2 = y1 ^ ((y1 << 7u32) & TEMPERING_MASK_B);
    let y3 = y2 ^ ((y2 << 15u32) & TEMPERING_MASK_C);
    y3 ^ (y3 >> 18u32)
}

/// The generator's state: a vector of words and the index of the next word
/// to use.
#[derive(Debug, Clone)]
pub struct MersenneTwister {
    state_vector: Vec<u32>,
    /// Index into `state_vector`.
    state_index: usize,
}

/// The matrix applied in the twist.
fn apply_tempering_matrix(y: u32) -> (r: u32)
    ensures
        r == mag01(y),
{
    if y & 0x1 == 0 {
        0
    } else {
        TEMPERING_MATRIX_A
    }
}

impl MersenneTwister {
    /// The words of state.
    pub closed spec fn state(&self) -> Seq<u32> {
        self.state_vector@
    }

    /// The index of the next word of state to use.
    pub closed spec fn index(&self) -> nat {
        self.state_index as nat
    }

    /// The state has `STATE_VECTOR_SIZE` words and the index is at most that.
    pub closed spec fn wf(&self) -> bool {
        &&& self.state_vector.len() == STATE_VECTOR_SIZE
        &&& self.state_index <= STATE_VECTOR_SIZE
    }

    /// Creates a new generator with the given seed.
    pub fn new(seed: u32) -> (r: Self)
        ensures
            r.wf(),
            r.state() == seed_state(seed),
            r.index() == STATE_VECTOR_SIZE,
    {
        // initial values don't matter because the seed is set right away
        let mut state_vector: Vec<u32> = Vec::new();
        while state_vector.len() < STATE_VECTOR_SIZE
            invariant
                state_vector.len() <= STATE_VECTOR_SIZE,
            decreases STATE_VECTOR_SIZE - state_vector.len(),
        {
            state_vector.push(0);
        }
        let mut rng = MersenneTwister { state_vector, state_index: STATE_VECTOR_SIZE };
        rng.set_seed(seed);
        rng
    }

    /// Sets the seed and initializes the state vector.
    pub fn set_seed(&mut self, seed: u32)
        requires
            old(self).wf(),
        ensures
            final(self).wf(),
            final(self).state() == seed_state(seed),
            final(self).index() == STATE_VECTOR_SIZE,
    {
        self.state_vector.set(0, seed);
        let mut i: usize = 1;
        while i < STATE_VECTOR_SIZE
            invariant
                1 <= i <= STATE_VECTOR_SIZE,
                self.state_vector.len() == STATE_VECTOR_SIZE,
                forall|j: int| 0 <= j < i ==> #[trigger] self.state_vector@[j] == seed_word(seed, j as nat),
            decreases STATE_VECTOR_SIZE - i,
        {
            let prev = self.state_vector[i - 1];
            let word = 1812433253u32.wrapping_mul(prev ^ (prev >> 30u32)).wrapping_add(i as u32);
            assert(word == seed_word(seed, i as nat));
            self.state_vector.set(i, word);
            i = i + 1;
        }
        assert(self.state_vector@ =~= seed_state(seed));
        // set the index to trigger generation
        self.state_index = STATE_VECTOR_SIZE;
    }

    /// Twists the whole state into the next batch.
    fn generate(&mut self)
        requires
            old(self).wf(),
        ensures
            final(self).wf(),
            final(self).state() == twist(old(self).state()),
            final(self).index() == 0,
    {
        let ghost s0 = self.state_vector@;
        let mut i: usize = 0;
        while i < STATE_VECTOR_SIZE - 1
            invariant
                i <= STATE_VECTOR_SIZE - 1,
                self.state_vector.len() == STATE_VECTOR_SIZE,
                self.state_vector@ == twist_prefix(s0, i as nat),
            decreases STATE_VECTOR_SIZE - 1 - i,
        {
            let src = if i < STATE_VECTOR_SIZE - TEMPERING_SHIFT {
                i + TEMPERING_SHIFT
            } else {
                i + TEMPERING_SHIFT - STATE_VECTOR_SIZE
            };
            let y = (self.state_vector[i] & UPPER_MASK) | (self.state_vector[i + 1] & LOWER_MASK);
            let word = self.state_vector[src] ^ (y >> 1u32) ^ apply_tempering_matrix(y);
            proof {
                assert((i + 1) % 624 == i + 1);
                assert((i + 397) % 624 == src);
            }
            self.state_vector.set(i, word);
            i = i + 1;
        }
        let y = (self.state_vector[STATE_VECTOR_SIZE - 1] & UPPER_MASK) | (self.state_vector[0] & LOWER_MASK);
        let word = self.state_vector[TEMPERING_SHIFT - 1] ^ (y >> 1u32) ^ apply_tempering_matrix(y);
        self.state_vector.set(STATE_VECTOR_SIZE - 1, word);
        self.state_index = 0;
    }

    /// Generates a random `u32`, uniformly drawn from all possible `u32`
    /// values: the next word of state, tempered. A new batch of state is
    /// generated when the current one is used up.
    pub fn next_u32(&mut self) -> (r: u32)
        requires
            old(self).wf(),
        ensures
            final(self).wf(),
            ({
                let fresh = old(self).index() >= STATE_VECTOR_SIZE;
                let s = if fresh { twist(old(self).state()) } else { old(self).state() };
                let idx = if fresh { 0 } else { old(self).index() };
                &&& final(self).state() == s
                &&& final(self).index() == idx + 1
                &&& r == temper(s[idx as int])
            }),
    {
        // if the state vector is exhausted, generate the next batch
        if self.state_index >= STATE_VECTOR_SIZE {
            self.generate();
        }
        // extract the next value
        let mut y = self.state_vector[self.state_index];
        self.state_index = self.state_index + 1;
        // temper the value
        y = y ^ (y >> 11u32);
        y = y ^ ((y << 7u32) & TEMPERING_MASK_B);
        y = y ^ ((y << 15u32) & TEMPERING_MASK_C);
        y = y ^ (y >> 18u32);
        y
    }
}

/// The value in `[0, upper_bound)` that the draw `raw` gives, or `None` if
/// the draw falls in the region that would cause bias: the draw is shifted
/// to 31 bits, then scaled to the bound if the bound is a power of two, and
/// reduced modulo the bound otherwise.
pub open spec fn u32_in_draw(raw: u32, upper_bound: u32) -> Option<u32> {
    let raw_val = raw >> 1u32;
    let n = upper_bound as i32;
    if n & ((0 - n) as i32) == n {
        Some((((upper_bound as u64) * (raw_val as u64)) as u64 >> 31u64) as u32)
    } else {
        let value = raw_val % upper_bound;
        if ((raw_val - value + upper_bound - 1) as u32) as i32 >= 0 {
            Some(value)
        } else {
            None
        }
    }
}

/// One draw of `next_u32_in`: from a raw draw `raw` of `next_u32`, the value
/// in `[0, upper_bound)` it gives, or `None` if it must be rejected to avoid
/// bias and another draw is needed. Bounds that are powers of two are never
/// rejected.
pub fn u32_in_from_draw(raw: u32, upper_bound: u32) -> (r: Option<u32>)
    requires
        0 < upper_bound <= i32::MAX,
    ensures
        r == u32_in_draw(raw, upper_bound),
        r matches Some(v) ==> v < upper_bound,
{
    let n = upper_bound as i32;
    let raw_val = raw >> 1u32;
    let neg: i32 = 0i32 - n;
    // check if the bound is a power of 2
    if n & neg == n {
        // transform to be within the bound
        proof {
            assert(raw_val < 0x80000000) by (bit_vector)
                requires
                    raw_val == raw >> 1u32,
            ;
            assert((upper_bound as u64) * (raw_val as u64) < 0x80000000 * 0x80000000) by (nonlinear_arith)
                requires
                    raw_val < 0x80000000,
                    upper_bound < 0x80000000,
            ;
        }
        let product: u64 = upper_bound as u64 * raw_val as u64;
        let scaled = product >> 31u64;
        proof {
            assert(scaled == product / 0x80000000) by (bit_vector)
                requires
                    scaled == product >> 31u64,
            ;
            assert(scaled < upper_bound) by (nonlinear_arith)
                requires
                    scaled == product / 0x80000000,
                    product == (upper_bound as u64) * (raw_val as u64),
                    raw_val < 0x80000000,
                    upper_bound > 0,
            ;
        }
        Some(scaled as u32)
    } else {
        // transform to be within the desired range
        let value = raw_val % upper_bound;
        proof {
            assert(raw_val < 0x80000000) by (bit_vector)
                requires
                    raw_val == raw >> 1u32,
            ;
            assert(value <= raw_val && value < upper_bound) by (nonlinear_arith)
                requires
                    value == raw_val % upper_bound,
                    upper_bound > 0,
            ;
        }
        // reject if the value is in the region that would cause bias
        let span: u32 = (raw_val - value) + (upper_bound - 1);
        if (#[verifier::truncate] (span as i32)) >= 0 {
            Some(value)
        } else {
            None
        }
    }
}

/// The value in `[0, upper_bound)` that the draws `y` and `z` give, or
/// `None` if they fall in the region that would cause bias. The second draw
/// is sign-extended before the two are joined, as the engine this one
/// follows does.
pub open spec fn u64_in_draws(y: u32, z: u32, upper_bound: u64) -> Option<u64> {
    let zz = ((z as i32) as i64) as u64;
    let raw_val = u64_specs::wrapping_add((y as u64) << 32u64, zz) >> 1u64;
    let value = raw_val % upper_bound;
    if ((raw_val - value + upper_bound - 1) as u64) as i64 >= 0 {
        Some(value)
    } else {
        None
    }
}

/// One draw of `next_u64_in`: from two raw draws `y` and `z` of `next_u32`,
/// the value in `[0, upper_bound)` they give, or `None` if they must be
/// rejected to avoid bias and another pair of draws is needed.
pub fn u64_in_from_draws(y: u32, z: u32, upper_bound: u64) -> (r: Option<u64>)
    requires
        0 < upper_bound <= i64::MAX,
    ensures
        r == u64_in_draws(y, z, upper_bound),
        r matches Some(v) ==> v < upper_bound,
{
    let y = y as u64;
    // the second draw is sign-extended, as in the engine this generator
    // follows; the wrapping add makes up for it
    let z = (z as i32) as i64 as u64;
    proof {
        assert(y << 32u64 == y * 0x1_0000_0000) by (bit_vector)
            requires
                y < 0x1_0000_0000,
        ;
    }
    // concatenate two 32-bit values into a 64-bit value
    let raw_val = (y << 32u64).wrapping_add(z) >> 1u64;
    proof {
        assert(raw_val < 0x8000_0000_0000_0000) by (bit_vector)
            requires
                raw_val == (y << 32u64).wrapping_add(z) >> 1u64,
        ;
    }
    // transform to be within the desired range
    let value = raw_val % upper_bound;
    proof {
        assert(value <= raw_val && value < upper_bound) by (nonlinear_arith)
            requires
                value == raw_val % upper_bound,
                upper_bound > 0,
        ;
    }
    // reject if the value is in the region that would cause bias
    let span: u64 = (raw_val - value) + (upper_bound - 1);
    if (#[verifier::truncate] (span as i64)) >= 0 {
        Some(value)
    } else {
        None
    }
}

} // verus!
