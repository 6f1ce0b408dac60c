use budget_tree::builder::run;
use budget_tree::counter::Counter;
use budget_tree::decay::{decayed_budget, pow4_saturating, DecayPolicy};
use budget_tree::protocol::Node;

#[test]
fn zero_budget_spawns_nothing() {
    assert_eq!(run(DecayPolicy::Legacy, 3, 0), 0);
    assert_eq!(run(DecayPolicy::SeverityScaled, 3, 0), 0);
    assert_eq!(run(DecayPolicy::Legacy, 17, 0), 0);
    assert_eq!(run(DecayPolicy::SeverityScaled, 0, 0), 0);
}

#[test]
fn zero_branching_spawns_nothing() {
    assert_eq!(run(DecayPolicy::Legacy, 0, 7), 0);
    assert_eq!(run(DecayPolicy::SeverityScaled, 0, 511), 0);
}

#[test]
fn single_level_fanout() {
    // With one unit of budget every attempt spawns a child with budget zero.
    assert_eq!(run(DecayPolicy::Legacy, 3, 1), 3);
    assert_eq!(run(DecayPolicy::SeverityScaled, 3, 1), 3);
    assert_eq!(run(DecayPolicy::Legacy, 1000, 1), 1000);
}

#[test]
fn two_level_counts() {
    // Root (budget 2) spawns three children; the first has budget 1 and
    // spawns three budget-zero grandchildren, whose first failure notifies
    // the whole path, so the root's later children start with budget 2/4 = 0.
    assert_eq!(run(DecayPolicy::Legacy, 3, 2), 6);
    assert_eq!(run(DecayPolicy::SeverityScaled, 3, 2), 6);
}

#[test]
fn single_branch_counts() {
    assert_eq!(run(DecayPolicy::Legacy, 1, 9), 9);
    assert_eq!(run(DecayPolicy::SeverityScaled, 1, 300), 300);
}

#[test]
fn monotone_in_budget() {
    for policy in [DecayPolicy::Legacy, DecayPolicy::SeverityScaled] {
        let mut prev = 0;
        for d in 0..12 {
            let next = run(policy, 3, d);
            assert!(next >= prev);
            prev = next;
        }
    }
}

#[test]
fn legacy_dominates_severity_scaled() {
    for d in 0..12 {
        assert!(run(DecayPolicy::Legacy, 3, d) >= run(DecayPolicy::SeverityScaled, 3, d));
    }
    // Once a node spawns with two overflows recorded and enough budget left,
    // the divisors 4 and 16 differ and the legacy count pulls strictly ahead.
    assert!(run(DecayPolicy::Legacy, 3, 8) > run(DecayPolicy::SeverityScaled, 3, 8));
}

#[test]
fn overflow_throttles_next_sibling() {
    // A child created with budget 0 fails every attempt; the first failure
    // notifies the parent, which throttles the next sibling: budget 8/4
    // instead of 8 - 1.
    let parent = Node { policy: DecayPolicy::Legacy, available_depth: 8, overflow_count: 0 };
    let child = Node { policy: DecayPolicy::Legacy, available_depth: 0, overflow_count: 0 };
    let mut path = vec![parent, child];
    let mut counter = Counter::new();

    assert!(!Node::try_spawn_child(&mut path, &mut counter));
    assert_eq!(path[1].overflow_count, 1);
    assert_eq!(path[0].overflow_count, 1);

    assert!(!Node::try_spawn_child(&mut path, &mut counter));
    assert_eq!(path[1].overflow_count, 2);
    assert_eq!(path[0].overflow_count, 1); // the repeat failure is absorbed locally
    assert_eq!(counter.count, 0);

    path.pop();
    assert!(Node::try_spawn_child(&mut path, &mut counter));
    assert_eq!(path.len(), 2);
    assert_eq!(path[1].available_depth, 2);
    assert_eq!(path[1].overflow_count, 0);
    assert_eq!(counter.count, 1);
}

#[test]
fn propagation_halts_at_notified_ancestor() {
    // The notification travels upward only through counts that were zero and
    // stops at (but still increments) the first already-notified ancestor.
    let mut path = vec![
        Node { policy: DecayPolicy::SeverityScaled, available_depth: 9, overflow_count: 0 },
        Node { policy: DecayPolicy::SeverityScaled, available_depth: 7, overflow_count: 2 },
        Node { policy: DecayPolicy::SeverityScaled, available_depth: 0, overflow_count: 0 },
    ];
    let mut counter = Counter::new();
    assert!(!Node::try_spawn_child(&mut path, &mut counter));
    assert_eq!(path[2].overflow_count, 1);
    assert_eq!(path[1].overflow_count, 3);
    assert_eq!(path[0].overflow_count, 0);
}

#[test]
fn set_overflow_on_root() {
    let mut path = vec![Node::root(DecayPolicy::Legacy, 5)];
    Node::set_overflow(&mut path);
    assert_eq!(path[0].overflow_count, 1);
    Node::set_overflow(&mut path);
    assert_eq!(path[0].overflow_count, 2);
    assert_eq!(path[0].available_depth, 5);
}

#[test]
fn root_starts_fresh() {
    let root = Node::root(DecayPolicy::SeverityScaled, 7);
    assert_eq!(root.available_depth, 7);
    assert_eq!(root.overflow_count, 0);
    assert_eq!(root.policy, DecayPolicy::SeverityScaled);
}

#[test]
fn decay_divisors() {
    assert_eq!(pow4_saturating(0), 1);
    assert_eq!(pow4_saturating(1), 4);
    assert_eq!(pow4_saturating(2), 16);
    assert_eq!(pow4_saturating(31), 1u64 << 62);
    assert_eq!(pow4_saturating(32), u64::MAX);
    assert_eq!(pow4_saturating(40), u64::MAX);
    assert_eq!(pow4_saturating(u64::MAX), u64::MAX);
}

#[test]
fn decayed_budgets_per_policy() {
    // No overflow observed: plain decrement under either policy.
    assert_eq!(decayed_budget(DecayPolicy::Legacy, 1000, 0), 999);
    assert_eq!(decayed_budget(DecayPolicy::SeverityScaled, 1000, 0), 999);
    // One overflow: both divide by four.
    assert_eq!(decayed_budget(DecayPolicy::Legacy, 1000, 1), 250);
    assert_eq!(decayed_budget(DecayPolicy::SeverityScaled, 1000, 1), 250);
    // Two overflows: the severity-scaled divisor compounds.
    assert_eq!(decayed_budget(DecayPolicy::Legacy, 1000, 2), 250);
    assert_eq!(decayed_budget(DecayPolicy::SeverityScaled, 1000, 2), 62);
    // A saturated divisor floors the budget to zero ...
    assert_eq!(decayed_budget(DecayPolicy::SeverityScaled, 1000, 33), 0);
    assert_eq!(decayed_budget(DecayPolicy::Legacy, 1000, 33), 250);
    // ... except for the largest representable budget.
    assert_eq!(decayed_budget(DecayPolicy::SeverityScaled, u64::MAX, 40), 1);
    assert_eq!(decayed_budget(DecayPolicy::SeverityScaled, 1u64 << 62, 31), 1);
}

#[test]
fn throttled_spawn_pushes_child() {
    let mut path = vec![Node {
        policy: DecayPolicy::SeverityScaled,
        available_depth: 1000,
        overflow_count: 2,
    }];
    let mut counter = Counter::new();
    assert!(Node::try_spawn_child(&mut path, &mut counter));
    assert_eq!(path.len(), 2);
    assert_eq!(path[1].available_depth, 62);
    assert_eq!(path[1].overflow_count, 0);
    assert_eq!(path[1].policy, DecayPolicy::SeverityScaled);
    assert_eq!(path[0].overflow_count, 2);
    assert_eq!(counter.count, 1);
}

#[test]
fn tally_accumulates_across_runs() {
    let mut counter = Counter::new();
    assert_eq!(counter.pow_n_tree(DecayPolicy::Legacy, 3, 1), 3);
    assert_eq!(counter.pow_n_tree(DecayPolicy::Legacy, 3, 2), 9);
    assert_eq!(counter.count, 9);
}

#[test]
fn run_matches_fresh_counter() {
    assert_eq!(
        run(DecayPolicy::Legacy, 3, 5),
        Counter::new().pow_n_tree(DecayPolicy::Legacy, 3, 5)
    );
    assert_eq!(
        run(DecayPolicy::SeverityScaled, 4, 6),
        Counter::new().pow_n_tree(DecayPolicy::SeverityScaled, 4, 6)
    );
}
