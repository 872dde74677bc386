use vstd::prelude::*;

verus! {

/// The multiplier that scrambles the xorshift state into an output word.
pub const RNG_MULTIPLIER: u64 = 2685821657736338717;

/// One xorshift step (shifts 12, 25, 27) on a 64-bit state.
pub open spec fn xorshift_spec(v: u64) -> u64 {
    let a = v ^ (v >> 12u64);
    let b = a ^ (a << 25u64);
    b ^ (b >> 27u64)
}

/// The output word for a freshly advanced state: the state times the multiplier, mod 2^64.
pub open spec fn scramble_spec(state: u64) -> u64 {
    ((state as nat * RNG_MULTIPLIER as nat) % 0x1_0000_0000_0000_0000nat) as u64
}

/// The state a seed starts from: the seed, or 1 for a zero seed.
pub open spec fn seed_state_spec(seed: u64) -> u64 {
    if seed == 0 {
        1
    } else {
        seed
    }
}

/// The index drawn below `upper_bound` from `state`, and the state afterwards.
/// A bound of 0 or 1 gives 0 and leaves the state as it is.
pub open spec fn index_step_spec(state: u64, upper_bound: usize) -> (usize, u64) {
    if upper_bound <= 1 {
        (0usize, state)
    } else {
        let next = xorshift_spec(state);
        (((scramble_spec(next) as usize) % upper_bound) as usize, next)
    }
}

/// The multiplier is odd, so multiplying by it modulo 2^64 sends no nonzero word to zero.
proof fn lemma_scramble_nonzero(state: u64)
    requires
        state != 0,
    ensures
        scramble_spec(state) != 0,
{
    let m: int = 0x1_0000_0000_0000_0000;
    let p: int = state as int * RNG_MULTIPLIER as int;
    let q: int = p / m;
    if p % m == 0 {
        assert(p == q * m);
        // The multiplier times 6415128727920758069 is one more than a multiple of 2^64.
        let inverse: int = 6415128727920758069;
        let k: int = 934034299265436267;
        assert(RNG_MULTIPLIER as int * inverse == 1 + k * m);
        assert(p * inverse == state as int + state as int * k * m) by (nonlinear_arith)
            requires
                p == state as int * RNG_MULTIPLIER as int,
                RNG_MULTIPLIER as int * inverse == 1 + k * m,
        ;
        assert(state as int == (q * inverse - state as int * k) * m) by (nonlinear_arith)
            requires
                p == q * m,
                p * inverse == state as int + state as int * k * m,
        ;
        assert(false) by (nonlinear_arith)
            requires
                state as int == (q * inverse - state as int * k) * m,
                0 < state as int,
                (state as int) < m,
                m > 0,
        ;
    }
}

/// The generator never reaches the all-zero state: from a nonzero state the next state is
/// nonzero, and so is the word it yields.
pub proof fn lemma_nonzero_state_stays_nonzero(state: u64)
    requires
        state != 0,
    ensures
        xorshift_spec(state) != 0,
        scramble_spec(xorshift_spec(state)) != 0,
{
    let a = state ^ (state >> 12u64);
    assert(state ^ (state >> 12u64) != 0) by (bit_vector)
        requires
            state != 0,
    ;
    let b = a ^ (a << 25u64);
    assert(a ^ (a << 25u64) != 0) by (bit_vector)
        requires
            a != 0,
    ;
    assert(b ^ (b >> 27u64) != 0) by (bit_vector)
        requires
            b != 0,
    ;
    lemma_scramble_nonzero(xorshift_spec(state));
}

/// Every seed starts the generator in a nonzero state.
pub proof fn lemma_seed_state_nonzero(seed: u64)
    ensures
        seed_state_spec(seed) != 0,
{
}

/// A small deterministic xorshift generator, seeded by the caller.
pub struct Rng {
    state: u64,
}

impl Rng {
    /// The current state of the generator.
    pub closed spec fn state(&self) -> u64 {
        self.state
    }

    /// A generator that starts from `seed` (a zero seed counts as 1).
    pub fn new(seed: u64) -> (rng: Rng)
        ensures
            rng.state() == seed_state_spec(seed),
    {
        Rng { state: if seed == 0 { 1 } else { seed } }
    }

    /// Advances the state by one xorshift step and returns the scrambled new state.
    pub fn next_u64(&mut self) -> (value: u64)
        ensures
            final(self).state() == xorshift_spec(old(self).state()),
            value == scramble_spec(final(self).state()),
    {
        let mut value = self.state;
        value = value ^ (value >> 12u64);
        value = value ^ (value << 25u64);
        value = value ^ (value >> 27u64);
        self.state = value;
        value.wrapping_mul(RNG_MULTIPLIER)
    }

    /// An index below `upper_bound` (0 when the bound is 0 or 1, without advancing).
    pub fn index(&mut self, upper_bound: usize) -> (i: usize)
        ensures
            (i, final(self).state()) == index_step_spec(old(self).state(), upper_bound),
            upper_bound <= 1 ==> i == 0,
            upper_bound > 1 ==> i < upper_bound,
    {
        if upper_bound <= 1 {
            return 0;
        }
        let value = self.next_u64();
        (value as usize) % upper_bound
    }
}

} // verus!
