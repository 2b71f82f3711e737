//! Deterministic number stream for replayable traffic.

use vstd::prelude::*;

verus! {

/// The state after one step.
pub open spec fn next_state(state: u64) -> u64 {
    let first = state ^ (state >> 12);
    let second = first ^ (first << 25);
    second ^ (second >> 27)
}

/// The number that a state stands for.
pub open spec fn output(state: u64) -> u64 {
    vstd::wrapping::u64_specs::wrapping_mul(state, 0x2545_f491_4f6c_dd1d)
}

/// The state that a stream starts from. Zero would never leave zero.
pub open spec fn start_state(seed: u64) -> u64 {
    if seed == 0 {
        0x9e37_79b9_7f4a_7c15
    } else {
        seed
    }
}

/// The state after `steps` steps.
pub open spec fn state_at(seed: u64, steps: nat) -> u64
    decreases steps,
{
    if steps == 0 {
        start_state(seed)
    } else {
        next_state(state_at(seed, (steps - 1) as nat))
    }
}

/// `number` reduced below `bound`. Zero when nothing is below it.
pub open spec fn reduced(number: u64, bound: int) -> int {
    if bound == 0 {
        0
    } else {
        number as int % bound
    }
}

/// Draw number `index` of the stream of `seed`, below `bound`.
pub open spec fn draw(seed: u64, index: nat, bound: int) -> int {
    reduced(output(state_at(seed, index + 1)), bound)
}

/// A replayable stream of numbers.
pub struct TraceRng {
    pub state: u64,
}

impl TraceRng {
    /// The stream is at step `steps` of `seed`.
    pub open spec fn at(self, seed: u64, steps: nat) -> bool {
        self.state == state_at(seed, steps)
    }

    pub fn new(seed: u64) -> (rng: Self)
        ensures
            rng.at(seed, 0),
    {
        if seed == 0 {
            Self { state: 0x9e37_79b9_7f4a_7c15 }
        } else {
            Self { state: seed }
        }
    }

    /// Next number below `bound`.
    pub fn next_usize(&mut self, bound: usize) -> (number: usize)
        ensures
            final(self).state == next_state(old(self).state),
            number == reduced(output(final(self).state), bound as int),
            bound > 0 ==> number < bound,
            forall|seed: u64, steps: nat| #[trigger]
                old(self).at(seed, steps) ==> final(self).at(seed, steps + 1) && number == draw(
                    seed,
                    steps,
                    bound as int,
                ),
    {
        let ghost before = *self;
        let first: u64 = self.state ^ (self.state >> 12);
        let second: u64 = first ^ (first << 25);
        self.state = second ^ (second >> 27);
        let value: u64 = self.state.wrapping_mul(0x2545_f491_4f6c_dd1d);
        if bound == 0 {
            return 0;
        }
        let number: u64 = value % (bound as u64);
        number as usize
    }

    /// A size from one to `max`, small ones more often.
    pub fn biased_size(&mut self, max: usize) -> (size: usize)
        requires
            0 < max < usize::MAX,
        ensures
            1 <= size <= max,
            forall|seed: u64, steps: nat| #[trigger]
                old(self).at(seed, steps) ==> final(self).at(seed, steps + 2) && size == biased(
                    seed,
                    steps,
                    max as int,
                ),
    {
        let ghost before = *self;
        let span: usize = self.next_usize(max);
        let ghost middle = *self;
        let size: usize = self.next_usize(span + 1);
        proof {
            assert forall|seed: u64, steps: nat| #[trigger] before.at(seed, steps) implies self.at(
                seed,
                steps + 2,
            ) && size + 1 == biased(seed, steps, max as int) by {
                assert(middle.at(seed, steps + 1));
                assert(self.at(seed, steps + 1 + 1));
            }
        }
        size + 1
    }
}

/// The size that two draws from `index` on give.
pub open spec fn biased(seed: u64, index: nat, max: int) -> int {
    draw(seed, index + 1, draw(seed, index, max) + 1) + 1
}

/// A step can be undone from the state it leads to, so a stream never merges into another
/// and never runs into zero.
pub proof fn law_steps_can_be_undone(state: u64)
    ensures
        ({
            let reached = next_state(state);
            let second = reached ^ (reached >> 27) ^ (reached >> 54);
            let first = second ^ (second << 25) ^ (second << 50);
            state == first ^ (first >> 12) ^ (first >> 24) ^ (first >> 36) ^ (first >> 48) ^ (first
                >> 60)
        }),
        start_state(state) != 0,
        state != 0 ==> start_state(state) == state && next_state(state) != 0,
{
    assert({
        let one = state ^ (state >> 12);
        let two = one ^ (one << 25);
        let reached = two ^ (two >> 27);
        let second = reached ^ (reached >> 27) ^ (reached >> 54);
        let first = second ^ (second << 25) ^ (second << 50);
        &&& state == first ^ (first >> 12) ^ (first >> 24) ^ (first >> 36) ^ (first >> 48) ^ (first
            >> 60)
        &&& state != 0 ==> reached != 0
    }) by (bit_vector);
}

/// Different states stand for different numbers: the number times a fixed factor, in 64
/// bits, is the state again.
pub proof fn law_numbers_tell_states_apart(state: u64)
    ensures
        (output(state) as int * 0x5907_1d96_d81e_cd35) % 0x1_0000_0000_0000_0000 == state,
{
    let range: int = 0x1_0000_0000_0000_0000;
    let factor: int = 0x2545_f491_4f6c_dd1d;
    let back: int = 0x5907_1d96_d81e_cd35;
    let product = state as int * factor;
    assert(output(state) as int == product % range) by {
        vstd::arithmetic::div_mod::lemma_mod_bound(product, range);
    }
    vstd::arithmetic::div_mod::lemma_mul_mod_noop_left(product, back, range);
    let whole = state as int * 934034299265436267;
    assert(product * back == state + whole * range) by (nonlinear_arith)
        requires
            product == state as int * factor,
            factor == 0x2545_f491_4f6c_dd1d,
            back == 0x5907_1d96_d81e_cd35,
            whole == state as int * 934034299265436267,
            range == 0x1_0000_0000_0000_0000,
    ;
    vstd::arithmetic::div_mod::lemma_mod_multiples_vanish(whole, state as int, range);
    vstd::arithmetic::div_mod::lemma_small_mod(state as nat, range as nat);
}

/// A draw is what is left of the number when the bound is taken out as often as it goes; a
/// size of two draws is at least one and never above the span that the first draw gave.
pub proof fn law_draws_stay_in_bounds(seed: u64, index: nat, bound: int)
    requires
        bound > 0,
    ensures
        0 <= draw(seed, index, bound) < bound,
        (output(state_at(seed, index + 1)) - draw(seed, index, bound)) % bound == 0,
        1 <= biased(seed, index, bound) <= draw(seed, index, bound) + 1 <= bound,
{
    let number = output(state_at(seed, index + 1)) as int;
    vstd::arithmetic::div_mod::lemma_fundamental_div_mod(number, bound);
    vstd::arithmetic::div_mod::lemma_mod_bound(number, bound);
    assert(number - number % bound == (number / bound) * bound) by (nonlinear_arith)
        requires
            number == bound * (number / bound) + number % bound,
    ;
    vstd::arithmetic::div_mod::lemma_mod_multiples_basic(number / bound, bound);
    let span = draw(seed, index, bound) + 1;
    vstd::arithmetic::div_mod::lemma_mod_bound(
        output(state_at(seed, index + 1 + 1)) as int,
        span,
    );
}

} // verus!
