//! Random numbers, with a record of what was drawn.

use crate::swap::draw;
use rand::rngs::ThreadRng;
use vstd::prelude::*;

verus! {

/// A number that was drawn, and the range that it was drawn from.
pub struct Roll {
    pub low: int,
    pub high: int,
    pub n: int,
}

/// A source of random numbers. It keeps a record of what was drawn, which nothing else can write.
pub struct Dice {
    rng: ThreadRng,
    rolls: Ghost<Seq<Roll>>,
}

impl Dice {
    /// What was drawn so far, and from which ranges.
    pub closed spec fn rolls(self) -> Seq<Roll> {
        self.rolls@
    }

    /// Nothing drawn yet.
    pub fn new() -> (dice: Dice)
        ensures
            dice.rolls() == Seq::<Roll>::empty(),
    {
        Dice { rng: rand::thread_rng(), rolls: Ghost(Seq::empty()) }
    }

    /// Draws a number from `low` to `high`.
    pub fn roll(&mut self, low: u32, high: u32) -> (n: u32)
        requires
            low <= high,
        ensures
            low <= n <= high,
            final(self).rolls() == old(self).rolls().push(
                Roll { low: low as int, high: high as int, n: n as int },
            ),
    {
        let n: u32 = draw(&mut self.rng, low, high);
        proof {
            self.rolls@ = self.rolls@.push(
                Roll { low: low as int, high: high as int, n: n as int },
            );
        }
        n
    }
}

} // verus!
