use vstd::arithmetic::div_mod::{
    lemma_div_decreases, lemma_div_is_ordered, lemma_div_is_ordered_by_denominator,
};
use vstd::prelude::*;

verus! {

/// How a node's remaining depth budget decays into a freshly spawned child's
/// budget once overflow has been observed on the node.
#[derive(Clone, Copy, Debug, PartialEq, Eq, Structural)]
pub enum DecayPolicy {
    /// After any overflow, divide the remaining budget by a fixed factor of four.
    Legacy,
    /// After any overflow, divide by four raised to the node's overflow count,
    /// the power saturating at `u64::MAX` so that the quotient eventually
    /// floors to zero.
    SeverityScaled,
}

/// Four raised to the `k`-th power, as an unbounded natural number.
pub open spec fn pow4(k: nat) -> nat
    decreases k,
{
    if k == 0 {
        1
    } else {
        4 * pow4((k - 1) as nat)
    }
}

/// The divisor used by `DecayPolicy::SeverityScaled`: `4^k`, saturating at
/// `u64::MAX` instead of overflowing.
pub open spec fn severity_divisor(k: u64) -> u64 {
    if pow4(k as nat) > u64::MAX {
        u64::MAX
    } else {
        pow4(k as nat) as u64
    }
}

/// The budget a freshly spawned child receives, computed from its parent's
/// remaining budget and the parent's overflow count at spawn time. Meaningful
/// when `depth >= 1`: an exhausted node spawns no child at all.
pub open spec fn child_budget(policy: DecayPolicy, depth: u64, overflow_count: u64) -> u64 {
    if overflow_count == 0 {
        (depth - 1) as u64
    } else {
        match policy {
            DecayPolicy::Legacy => depth / 4,
            DecayPolicy::SeverityScaled => depth / severity_divisor(overflow_count),
        }
    }
}

pub proof fn lemma_pow4_pos(k: nat)
    ensures
        pow4(k) >= 1,
    decreases k,
{
    if k > 0 {
        lemma_pow4_pos((k - 1) as nat);
    }
}

pub proof fn lemma_pow4_increases(a: nat, b: nat)
    requires
        a <= b,
    ensures
        pow4(a) <= pow4(b),
    decreases b,
{
    if a < b {
        lemma_pow4_increases(a, (b - 1) as nat);
        lemma_pow4_pos((b - 1) as nat);
    }
}

pub proof fn lemma_severity_divisor_at_least_four(k: u64)
    requires
        k >= 1,
    ensures
        severity_divisor(k) >= 4,
{
    lemma_pow4_pos((k - 1) as nat);
    assert(pow4(k as nat) == 4 * pow4((k as nat - 1) as nat));
}

/// A spawned child always has a strictly smaller budget than its parent, which
/// is what bounds the depth of the recursion.
pub proof fn lemma_child_budget_decreases(policy: DecayPolicy, depth: u64, overflow_count: u64)
    requires
        depth >= 1,
    ensures
        child_budget(policy, depth, overflow_count) < depth,
{
    if overflow_count > 0 {
        lemma_div_decreases(depth as int, 4);
        match policy {
            DecayPolicy::Legacy => {},
            DecayPolicy::SeverityScaled => {
                lemma_severity_divisor_at_least_four(overflow_count);
                lemma_div_is_ordered_by_denominator(
                    depth as int,
                    4,
                    severity_divisor(overflow_count) as int,
                );
            },
        }
    }
}

/// Throttling never hands out more budget than plain decrement does, and a
/// larger budget with an equal-or-smaller overflow count under the legacy
/// policy never yields a smaller child budget than the severity-scaled one.
pub proof fn lemma_child_budget_policy_order(depth_legacy: u64, depth_scaled: u64, overflow_count: u64)
    requires
        depth_legacy >= depth_scaled,
        depth_scaled >= 1,
    ensures
        child_budget(DecayPolicy::Legacy, depth_legacy, overflow_count)
            >= child_budget(DecayPolicy::SeverityScaled, depth_scaled, overflow_count),
{
    if overflow_count > 0 {
        lemma_severity_divisor_at_least_four(overflow_count);
        lemma_div_is_ordered(depth_scaled as int, depth_legacy as int, 4);
        lemma_div_is_ordered_by_denominator(
            depth_scaled as int,
            4,
            severity_divisor(overflow_count) as int,
        );
    }
}

/// Computes `severity_divisor(k)`: four to the `k`-th power, saturating at
/// `u64::MAX` instead of overflowing.
pub fn pow4_saturating(k: u64) -> (r: u64)
    ensures
        r == severity_divisor(k),
{
    let mut r: u64 = 1;
    let mut i: u64 = 0;
    while i < k && r != u64::MAX
        invariant
            i <= k,
            r == severity_divisor(i),
        decreases k - i,
    {
        proof {
            assert(pow4((i + 1) as nat) == 4 * pow4(i as nat));
        }
        if r > u64::MAX / 4 {
            r = u64::MAX;
        } else {
            r = r * 4;
        }
        i = i + 1;
    }
    proof {
        // Once the divisor has saturated, every later power saturates too.
        if r == u64::MAX && i < k {
            lemma_pow4_increases(i as nat, k as nat);
        }
    }
    r
}

/// The budget handed to a child spawned now, per the decay policy.
pub fn decayed_budget(policy: DecayPolicy, depth: u64, overflow_count: u64) -> (r: u64)
    requires
        depth >= 1,
    ensures
        r == child_budget(policy, depth, overflow_count),
{
    if overflow_count == 0 {
        depth - 1
    } else {
        match policy {
            DecayPolicy::Legacy => depth / 4,
            DecayPolicy::SeverityScaled => {
                let divisor: u64 = pow4_saturating(overflow_count);
                proof {
                    lemma_severity_divisor_at_least_four(overflow_count);
                }
                depth / divisor
            },
        }
    }
}

} // verus!
