//! Random numbers.

use rand::rngs::ThreadRng;
use rand::Rng;
use vstd::prelude::*;

verus! {

/// `rand::rngs::ThreadRng`, the generator of the current thread. Nothing is
/// claimed of its state.
#[verifier::external_type_specification]
#[verifier::external_body]
pub struct ExThreadRng(ThreadRng);

/// `rand::thread_rng` hands out the generator of the current thread. Nothing is
/// claimed of what it returns.
pub assume_specification[ rand::thread_rng ]() -> (rng: ThreadRng);

/// Calls `rand::Rng::gen_range` on a half-open range.
///
/// Claimed of it: the number drawn lies in the range, which must not be empty.
/// Which number it is depends on chance.
#[verifier::external_body]
fn gen_range(rng: &mut ThreadRng, start: u32, end: u32) -> (r: u32)
    requires
        start < end,
    ensures
        start <= r < end,
{
    rng.gen_range(start..end)
}

/// A number that was drawn, and the half-open range that it was drawn from.
pub struct Draw {
    pub start: u32,
    pub end: u32,
    pub number: u32,
}

impl Draw {
    /// Whether a number was drawn from a range.
    pub open spec fn is_from(self, start: u32, end: u32) -> bool {
        self.start == start && self.end == end && start <= self.number < end
    }
}

/// A source of random numbers that remembers, for proofs, what was drawn.
pub struct Generator {
    rng: ThreadRng,
    drawn: Ghost<Seq<Draw>>,
}

impl Generator {
    /// Everything that was drawn so far, in order.
    pub closed spec fn drawn(&self) -> Seq<Draw> {
        self.drawn@
    }

    /// The generator of the current thread, of which nothing was drawn yet.
    pub fn new() -> (r: Self)
        ensures
            r.drawn() == Seq::<Draw>::empty(),
    {
        Generator { rng: rand::thread_rng(), drawn: Ghost(Seq::empty()) }
    }

    /// Draws a number from a half-open range.
    pub fn draw(&mut self, start: u32, end: u32) -> (r: u32)
        requires
            start < end,
        ensures
            start <= r < end,
            final(self).drawn() == old(self).drawn().push(Draw { start, end, number: r }),
    {
        let number: u32 = gen_range(&mut self.rng, start, end);
        self.drawn = Ghost(self.drawn@.push(Draw { start, end, number }));
        number
    }
}

} // verus!
