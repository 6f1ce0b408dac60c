use vstd::prelude::*;

verus! {

/// `x`, clamped to the range of `usize`.
pub open spec fn clamp_usize(x: nat) -> nat {
    if x > usize::MAX {
        usize::MAX as nat
    } else {
        x
    }
}

/// Saturating addition of naturals at the capacity of `usize`.
pub open spec fn sat_add_usize(a: nat, b: nat) -> nat {
    clamp_usize(a + b)
}

pub proof fn lemma_sat_add_zero(a: nat)
    requires
        a <= usize::MAX,
    ensures
        sat_add_usize(a, 0) == a,
{
}

pub proof fn lemma_sat_add_assoc(a: nat, x: nat, y: nat)
    requires
        a <= usize::MAX,
    ensures
        sat_add_usize(sat_add_usize(a, x), y) == sat_add_usize(a, x + y),
{
}

/// The global tally of successfully spawned nodes, scoped to one run.
pub struct Counter {
    pub count: usize,
}

impl Counter {
    pub fn new() -> (c: Counter)
        ensures
            c.count == 0,
    {
        Counter { count: 0 }
    }

    /// Record one successful spawn, saturating at the counter's capacity.
    pub fn record_spawn(&mut self)
        ensures
            final(self).count as nat == sat_add_usize(old(self).count as nat, 1),
    {
        if self.count < usize::MAX {
            self.count = self.count + 1;
        }
    }
}

} // verus!
