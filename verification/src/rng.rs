//! The pseudo-random generator that drives the synthesis: the 64-bit permuted
//! congruential generator of the `oorandom` crate, held by its state.

use vstd::prelude::*;

verus! {

/// The state in which `oorandom::Rand64::new(seed)` starts, as
/// `Rand64::state` gives it: the generator's state, then its increment.
pub uninterp spec fn rand64_new(seed: u128) -> (u128, u128);

/// What `oorandom::Rand64::rand_u64` returns when called in the given state,
/// and the state it leaves.
pub uninterp spec fn rand64_rand_u64(state: (u128, u128)) -> (u64, (u128, u128));

/// What `oorandom::Rand64::rand_range(start..end)` returns when called in the
/// given state, and the state it leaves.
pub uninterp spec fn rand64_rand_range(state: (u128, u128), start: u64, end: u64) -> (u64, (u128, u128));

/// Calls `oorandom::Rand64::new` and reads the new generator's state with
/// `Rand64::state`.  The state is the one named `rand64_new(seed)`; its
/// increment is odd, because `new` sets the lowest bit of the increment.
#[verifier::external_body]
fn seeded(seed: u128) -> (state: (u128, u128))
    ensures
        state == rand64_new(seed),
        state.1 % 2 == 1,
{
    oorandom::Rand64::new(seed).state()
}

/// Calls `oorandom::Rand64::rand_u64` on a generator in the given state.  The
/// number and the state left are the ones named `rand64_rand_u64(state)`; the
/// call changes the generator's state and leaves its increment.
#[verifier::external_body]
fn stepped(state: (u128, u128)) -> (out: (u64, (u128, u128)))
    ensures
        out == rand64_rand_u64(state),
        out.1.1 == state.1,
{
    let mut generator = oorandom::Rand64::from_state(state);
    let value = generator.rand_u64();
    (value, generator.state())
}

/// Calls `oorandom::Rand64::rand_range(start..end)` on a generator in the
/// given state.  The number and the state left are the ones named
/// `rand64_rand_range(state, start, end)`; the number lies in the range, and
/// the increment is left as it was.  The range must not be empty, and the
/// increment must be odd: the call draws again and again until a draw is
/// acceptable, and with an odd increment the generator runs through all its
/// states.
#[verifier::external_body]
fn ranged(state: (u128, u128), start: u64, end: u64) -> (out: (u64, (u128, u128)))
    requires
        start < end,
        state.1 % 2 == 1,
    ensures
        out == rand64_rand_range(state, start, end),
        start <= out.0 < end,
        out.1.1 == state.1,
{
    let mut generator = oorandom::Rand64::from_state(state);
    let value = generator.rand_range(start..end);
    (value, generator.state())
}

/// A pseudo-random generator.
#[derive(Clone, Copy, Debug)]
pub struct Rng {
    state: u128,
    inc: u128,
}

impl View for Rng {
    type V = (u128, u128);

    closed spec fn view(&self) -> (u128, u128) {
        (self.state, self.inc)
    }
}

impl Rng {
    /// Whether the generator can be drawn from: its increment is odd.
    pub open spec fn wf(&self) -> bool {
        self@.1 % 2 == 1
    }

    /// A generator started from `seed`.
    pub fn new(seed: u128) -> (rng: Rng)
        ensures
            rng@ == rand64_new(seed),
            rng.wf(),
    {
        let state: (u128, u128) = seeded(seed);
        Rng { state: state.0, inc: state.1 }
    }

    /// Draws a number from all of `u64`.
    pub fn rand_u64(&mut self) -> (value: u64)
        requires
            old(self).wf(),
        ensures
            (value, final(self)@) == rand64_rand_u64(old(self)@),
            final(self).wf(),
    {
        let out: (u64, (u128, u128)) = stepped((self.state, self.inc));
        self.state = out.1.0;
        self.inc = out.1.1;
        out.0
    }

    /// Draws a number that is at least `start` and less than `end`.
    pub fn rand_range(&mut self, start: u64, end: u64) -> (value: u64)
        requires
            old(self).wf(),
            start < end,
        ensures
            (value, final(self)@) == rand64_rand_range(old(self)@, start, end),
            start <= value < end,
            final(self).wf(),
    {
        let out: (u64, (u128, u128)) = ranged((self.state, self.inc), start, end);
        self.state = out.1.0;
        self.inc = out.1.1;
        out.0
    }
}

} // verus!
