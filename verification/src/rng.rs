//! Injectable randomness source.
//!
//! Every "choose one at random" decision in the engine draws from a
//! [`Picker`].  A picker first consumes its scripted values (so tests can
//! drive every choice deterministically) and falls back to the process
//! random number generator once the script runs out.

use vstd::prelude::*;

verus! {

/// Relies on rand::random: draws one value from the thread-local
/// generator.  Nothing can be promised of a random value.
#[verifier::external_body]
fn random_u64() -> u64 {
    rand::random::<u64>()
}

/// A source of bounded random choices.  Scripted values are consumed in
/// order; after they run out, choices come from the process generator.
pub struct Picker {
    pub values: Vec<u64>,
    pub pos: usize,
}

impl Picker {
    /// A picker that plays back the given values, then turns random.
    pub fn new(values: Vec<u64>) -> (r: Picker)
        ensures
            r.values@ == values@,
            r.pos == 0,
    {
        Picker { values, pos: 0 }
    }

    /// A picker with no script: every choice is random.
    pub fn random() -> (r: Picker)
        ensures
            r.values@.len() == 0,
            r.pos == 0,
    {
        Picker { values: Vec::new(), pos: 0 }
    }

    /// Draws a choice below `n`.  While the script lasts, the result is
    /// the next scripted value reduced modulo `n`.
    pub fn pick(&mut self, n: usize) -> (r: usize)
        requires
            n > 0,
        ensures
            r < n,
            final(self).values@ == old(self).values@,
            old(self).pos < old(self).values@.len() ==> {
                &&& r == old(self).values@[old(self).pos as int] as nat % (n as nat)
                &&& final(self).pos == old(self).pos + 1
            },
            old(self).pos >= old(self).values@.len() ==> final(self).pos == old(self).pos,
    {
        if self.pos < self.values.len() {
            let v = self.values[self.pos];
            self.pos = self.pos + 1;
            (v % (n as u64)) as usize
        } else {
            (random_u64() % (n as u64)) as usize
        }
    }

    /// A biased coin: true with probability `num_tenths / 10` (under a
    /// uniform source).  Scripted pickers decide it with one value.
    pub fn chance_tenths(&mut self, num_tenths: u64) -> (r: bool)
        ensures
            final(self).values@ == old(self).values@,
            old(self).pos < old(self).values@.len() ==> {
                &&& r == (old(self).values@[old(self).pos as int] as nat % 10 < num_tenths)
                &&& final(self).pos == old(self).pos + 1
            },
            old(self).pos >= old(self).values@.len() ==> final(self).pos == old(self).pos,
    {
        let v = self.pick(10);
        (v as u64) < num_tenths
    }
}

} // verus!
