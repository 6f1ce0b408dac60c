use crate::builder::{node_run, run_spec};
use crate::decay::{
    child_budget, lemma_child_budget_decreases, lemma_child_budget_policy_order,
    lemma_severity_divisor_at_least_four, DecayPolicy,
};
use crate::protocol::sat_inc;
use vstd::arithmetic::div_mod::lemma_basic_div;
use vstd::prelude::*;

verus! {

/// The number of nodes in a full `n`-ary tree of depth `d`, the root excluded:
/// `n + n^2 + ... + n^d`.
pub open spec fn full_tree_count(n: nat, d: nat) -> nat
    decreases d,
{
    if d == 0 {
        0
    } else {
        n * (1 + full_tree_count(n, (d - 1) as nat))
    }
}

/// An exhausted node spawns nothing, however often it is asked.
pub proof fn lemma_zero_depth_spawns_nothing(policy: DecayPolicy, n: u64, i: u64, overflow_count: u64)
    ensures
        node_run(policy, n, i, 0, overflow_count).count == 0,
    decreases n - i,
{
    if i < n {
        lemma_zero_depth_spawns_nothing(policy, n, (i + 1) as u64, sat_inc(overflow_count));
    }
}

/// A node that still has attempts left and no overflow recorded always lets
/// one notification escape: the leftmost descent exhausts a descendant, whose
/// first failure travels up through a chain of still-fresh counts.
pub proof fn lemma_escape_when_fresh(policy: DecayPolicy, n: u64, i: u64, depth: u64)
    requires
        i < n,
    ensures
        node_run(policy, n, i, depth, 0).escaped,
    decreases depth, n - i,
{
    if depth > 0 {
        lemma_child_budget_decreases(policy, depth, 0);
        lemma_escape_when_fresh(policy, n, 0, child_budget(policy, depth, 0));
    }
}

/// A run with no budget at all spawns nothing: the root fails every one of its
/// attempts, for every policy and every branching factor.
pub proof fn lemma_zero_budget(policy: DecayPolicy, n: u64)
    ensures
        run_spec(policy, n, 0) == 0,
{
    lemma_zero_depth_spawns_nothing(policy, n, 0, 0);
}

/// A run with branching factor zero makes no spawn attempts and spawns
/// nothing, whatever the budget.
pub proof fn lemma_zero_branching(policy: DecayPolicy, d: u64)
    ensures
        run_spec(policy, 0, d) == 0,
{
}

/// One more unit of budget buys at least the previous whole run: the root's
/// first child starts exactly where the smaller run's root started.
pub proof fn lemma_budget_step(policy: DecayPolicy, n: u64, d: u64)
    requires
        n >= 1,
        d < u64::MAX,
    ensures
        run_spec(policy, n, (d + 1) as u64) >= 1 + run_spec(policy, n, d),
{
    let grown: u64 = (d + 1) as u64;
    assert(child_budget(policy, grown, 0) == d);
    let sub = node_run(policy, n, 0, d, 0);
    let received: u64 = if sub.escaped {
        sat_inc(0)
    } else {
        0
    };
    let rest = node_run(policy, n, 1, grown, received);
    assert(node_run(policy, n, 0, grown, 0).count == 1 + sub.count + rest.count);
}

/// For a fixed policy and branching factor of at least one, the total count is
/// non-decreasing in the initial budget.
pub proof fn lemma_monotone_in_budget(policy: DecayPolicy, n: u64, lower: u64, higher: u64)
    requires
        n >= 1,
        lower <= higher,
    ensures
        run_spec(policy, n, lower) <= run_spec(policy, n, higher),
    decreases higher - lower,
{
    if lower < higher {
        lemma_monotone_in_budget(policy, n, lower, (higher - 1) as u64);
        lemma_budget_step(policy, n, (higher - 1) as u64);
    }
}

/// The relational induction behind the policy comparison: with equal overflow
/// counts and a legacy-side budget at least as large, the legacy side spawns
/// at least as many nodes, and both sides' own counts evolve identically --
/// every attempt of either side increments its node's count exactly once,
/// whether by a local failure or by the event that always escapes a fresh
/// child's subtree.
proof fn lemma_policy_order_rec(n: u64, i: u64, depth_legacy: u64, depth_scaled: u64, c: u64)
    requires
        depth_legacy >= depth_scaled,
    ensures
        node_run(DecayPolicy::Legacy, n, i, depth_legacy, c).count >= node_run(
            DecayPolicy::SeverityScaled,
            n,
            i,
            depth_scaled,
            c,
        ).count,
        node_run(DecayPolicy::Legacy, n, i, depth_legacy, c).overflow_count == node_run(
            DecayPolicy::SeverityScaled,
            n,
            i,
            depth_scaled,
            c,
        ).overflow_count,
    decreases depth_legacy, n - i,
{
    if i < n {
        if depth_legacy == 0 {
            // Both sides are exhausted: both absorb one failure locally.
            lemma_policy_order_rec(n, (i + 1) as u64, depth_legacy, depth_scaled, sat_inc(c));
        } else if depth_scaled == 0 {
            // Only the severity-scaled side is exhausted. Its failure and the
            // event escaping the legacy side's fresh child both increment the
            // respective node's count by one.
            let cb_legacy = child_budget(DecayPolicy::Legacy, depth_legacy, c);
            lemma_child_budget_decreases(DecayPolicy::Legacy, depth_legacy, c);
            lemma_escape_when_fresh(DecayPolicy::Legacy, n, 0, cb_legacy);
            lemma_policy_order_rec(n, (i + 1) as u64, depth_legacy, depth_scaled, sat_inc(c));
        } else {
            let cb_legacy = child_budget(DecayPolicy::Legacy, depth_legacy, c);
            let cb_scaled = child_budget(DecayPolicy::SeverityScaled, depth_scaled, c);
            lemma_child_budget_policy_order(depth_legacy, depth_scaled, c);
            lemma_child_budget_decreases(DecayPolicy::Legacy, depth_legacy, c);
            lemma_policy_order_rec(n, 0, cb_legacy, cb_scaled, 0);
            lemma_escape_when_fresh(DecayPolicy::Legacy, n, 0, cb_legacy);
            lemma_escape_when_fresh(DecayPolicy::SeverityScaled, n, 0, cb_scaled);
            lemma_policy_order_rec(n, (i + 1) as u64, depth_legacy, depth_scaled, sat_inc(c));
        }
    }
}

/// Severity-scaled throttling divides by an equal-or-larger power of four at
/// every spawn after an overflow, so the legacy policy never spawns fewer
/// nodes than the severity-scaled one.
pub proof fn lemma_legacy_dominates(n: u64, d: u64)
    ensures
        run_spec(DecayPolicy::Legacy, n, d) >= run_spec(DecayPolicy::SeverityScaled, n, d),
{
    lemma_policy_order_rec(n, 0, d, d, 0);
}

/// With one unit of budget every attempt spawns a child and no child can spawn
/// further: whatever the node's overflow count, the decayed budget is zero.
proof fn lemma_depth_one_counts(policy: DecayPolicy, n: u64, i: u64, c: u64)
    requires
        i <= n,
    ensures
        node_run(policy, n, i, 1, c).count == n - i,
    decreases n - i,
{
    if i < n {
        if c >= 1 {
            lemma_severity_divisor_at_least_four(c);
            lemma_basic_div(1, 4);
            if policy is SeverityScaled {
                lemma_basic_div(1, crate::decay::severity_divisor(c) as int);
            }
        }
        assert(child_budget(policy, 1, c) == 0);
        let sub = node_run(policy, n, 0, 0, 0);
        lemma_zero_depth_spawns_nothing(policy, n, 0, 0);
        let received: u64 = if sub.escaped {
            sat_inc(c)
        } else {
            c
        };
        lemma_depth_one_counts(policy, n, (i + 1) as u64, received);
    }
}

/// With branching factor one there is a single line of descent: each level
/// spawns exactly one child until the budget runs out, and the one failure at
/// the bottom is absorbed before any node gets a second attempt.
proof fn lemma_single_branch_counts(policy: DecayPolicy, d: u64)
    ensures
        node_run(policy, 1, 0, d, 0).count == d,
    decreases d,
{
    reveal_with_fuel(node_run, 2);
    if d > 0 {
        assert(child_budget(policy, d, 0) == d - 1);
        lemma_single_branch_counts(policy, (d - 1) as u64);
        lemma_escape_when_fresh(policy, 1, 0, (d - 1) as u64);
    }
}

proof fn lemma_full_tree_count_one(d: nat)
    ensures
        full_tree_count(1, d) == d,
    decreases d,
{
    if d > 0 {
        lemma_full_tree_count_one((d - 1) as nat);
    }
}

/// Where no throttling can alter any child's budget -- a single line of
/// descent (`n <= 1`) or a budget too small to survive a second level
/// (`d <= 1`) -- both policies spawn the same nodes, and the count is that of
/// the full `n`-ary tree of depth `d`. With a larger branching factor and
/// budget the first exhaustion throttles later siblings and the count falls
/// short of the full tree.
pub proof fn lemma_throttle_free_full_tree(policy: DecayPolicy, n: u64, d: u64)
    requires
        n <= 1 || d <= 1,
    ensures
        run_spec(policy, n, d) == full_tree_count(n as nat, d as nat),
        run_spec(DecayPolicy::Legacy, n, d) == run_spec(DecayPolicy::SeverityScaled, n, d),
{
    lemma_throttle_free_one_policy(policy, n, d);
    lemma_throttle_free_one_policy(DecayPolicy::Legacy, n, d);
    lemma_throttle_free_one_policy(DecayPolicy::SeverityScaled, n, d);
}

proof fn lemma_throttle_free_one_policy(policy: DecayPolicy, n: u64, d: u64)
    requires
        n <= 1 || d <= 1,
    ensures
        run_spec(policy, n, d) == full_tree_count(n as nat, d as nat),
{
    reveal_with_fuel(full_tree_count, 2);
    if n == 0 {
        assert(full_tree_count(0, d as nat) == 0);
    } else if n == 1 {
        lemma_single_branch_counts(policy, d);
        lemma_full_tree_count_one(d as nat);
    } else if d == 0 {
        lemma_zero_budget(policy, n);
    } else {
        lemma_depth_one_counts(policy, n, 0, 0);
        assert(full_tree_count(n as nat, 1) == n as nat * 1);
    }
}

} // verus!
