use crate::counter::{lemma_sat_add_assoc, lemma_sat_add_zero, sat_add_usize, Counter};
use crate::decay::{child_budget, lemma_child_budget_decreases, DecayPolicy};
use crate::protocol::{
    escape_into, lemma_ovf_counts_drop_last, lemma_ovf_counts_last, lemma_ovf_counts_push,
    lemma_propagate_at_last, lemma_shape_drop_last, lemma_shape_last, lemma_shape_push, ovf_counts,
    sat_inc, shape, Node,
};
use vstd::prelude::*;

verus! {

/// What becomes of one node over its remaining spawn attempts: its own final
/// overflow count, the number of nodes spawned in its whole subtree, and
/// whether an overflow notification escaped past the node to its ancestors.
/// At most one ever escapes: the first notification to find the node's own
/// count at zero travels on; every later one is absorbed.
pub ghost struct Expansion {
    pub overflow_count: u64,
    pub count: nat,
    pub escaped: bool,
}

/// The meaning of expanding the node at the top of the active path, with
/// budget `depth` and overflow count `overflow_count`, over its spawn attempts
/// `i .. n`. A failed attempt (budget zero) increments the node's own count and
/// escapes exactly when that count was zero. A successful attempt spawns a
/// child with the decayed budget and a fresh count, expands it depth-first,
/// and, when an event escapes the child's subtree, receives it: the node's own
/// count grows by one and the event travels on exactly when that count was
/// zero. Later siblings therefore see the counts earlier subtrees left behind.
pub open spec fn node_run(
    policy: DecayPolicy,
    n: u64,
    i: u64,
    depth: u64,
    overflow_count: u64,
) -> Expansion
    decreases depth, n - i,
{
    if i >= n {
        Expansion { overflow_count, count: 0, escaped: false }
    } else if depth == 0 {
        let rest = node_run(policy, n, (i + 1) as u64, depth, sat_inc(overflow_count));
        Expansion {
            overflow_count: rest.overflow_count,
            count: rest.count,
            escaped: overflow_count == 0 || rest.escaped,
        }
    } else {
        proof {
            lemma_child_budget_decreases(policy, depth, overflow_count);
        }
        let sub = node_run(policy, n, 0, child_budget(policy, depth, overflow_count), 0);
        let received = if sub.escaped {
            sat_inc(overflow_count)
        } else {
            overflow_count
        };
        let rest = node_run(policy, n, (i + 1) as u64, depth, received);
        Expansion {
            overflow_count: rest.overflow_count,
            count: 1 + sub.count + rest.count,
            escaped: (sub.escaped && overflow_count == 0) || rest.escaped,
        }
    }
}

/// The total number of nodes spawned by one whole run: a root carrying the
/// initial budget, `n` spawn attempts at every visited node, explored depth
/// first. The root itself is supplied by the caller and not counted.
pub open spec fn run_spec(policy: DecayPolicy, n: u64, initial_budget: u64) -> nat {
    node_run(policy, n, 0, initial_budget, 0).count
}

/// A node whose overflow count is already positive absorbs every further
/// notification: nothing escapes it again.
pub proof fn lemma_no_escape_when_positive(
    policy: DecayPolicy,
    n: u64,
    i: u64,
    depth: u64,
    overflow_count: u64,
)
    requires
        overflow_count >= 1,
    ensures
        !node_run(policy, n, i, depth, overflow_count).escaped,
    decreases n - i,
{
    if i < n {
        if depth == 0 {
            lemma_no_escape_when_positive(policy, n, (i + 1) as u64, depth, sat_inc(overflow_count));
        } else {
            let sub = node_run(policy, n, 0, child_budget(policy, depth, overflow_count), 0);
            let received = if sub.escaped {
                sat_inc(overflow_count)
            } else {
                overflow_count
            };
            lemma_no_escape_when_positive(policy, n, (i + 1) as u64, depth, received);
        }
    }
}

impl Counter {
    /// The spawn attempts `i .. n` of the node at the top of the path, each
    /// successful one followed depth-first by the whole expansion of the child
    /// it spawned. Budgets and policies along the path never change; the
    /// overflow counts and the tally evolve exactly as `node_run` states, and
    /// the ancestors below the top receive the one event that escapes, if one
    /// does.
    fn spawn_attempts(&mut self, n: u64, i: u64, depth: u64, path: &mut Vec<Node>)
        requires
            i <= n,
            old(path)@.len() >= 1,
            old(path)@.last().available_depth == depth,
        ensures
            ({
                let pre = old(path)@;
                let r = node_run(pre.last().policy, n, i, depth, pre.last().overflow_count);
                &&& final(path)@.len() == pre.len()
                &&& shape(final(path)@) == shape(pre)
                &&& final(path)@.last().overflow_count == r.overflow_count
                &&& ovf_counts(final(path)@.drop_last()) == (if r.escaped {
                    escape_into(ovf_counts(pre.drop_last()))
                } else {
                    ovf_counts(pre.drop_last())
                })
                &&& final(self).count as nat == sat_add_usize(old(self).count as nat, r.count)
            }),
        decreases depth, n - i,
    {
        let ghost pre = path@;
        let ghost t = pre.last().overflow_count;
        let ghost policy = pre.last().policy;
        let ghost r = node_run(policy, n, i, depth, t);
        if i == n {
            proof {
                lemma_sat_add_zero(old(self).count as nat);
                assert(ovf_counts(path@.drop_last()) == ovf_counts(pre.drop_last()));
            }
            return;
        }
        let spawned = Node::try_spawn_child(path, self);
        if spawned {
            let ghost sub = node_run(policy, n, 0, child_budget(policy, depth, t), 0);
            let ghost received = if sub.escaped {
                sat_inc(t)
            } else {
                t
            };
            let ghost rest = node_run(policy, n, (i + 1) as u64, depth, received);
            let child_depth: u64 = path[path.len() - 1].available_depth;
            let ghost child = (Node {
                policy,
                available_depth: child_budget(policy, depth, t),
                overflow_count: 0,
            });
            proof {
                lemma_child_budget_decreases(policy, depth, t);
                lemma_shape_push(pre, child);
                lemma_ovf_counts_push(pre, child);
                assert(path@.drop_last() =~= pre);
            }
            let ghost grown = path@;
            self.spawn_attempts(n, 0, child_depth, path);
            let ghost expanded = path@;
            let _ = path.pop();
            proof {
                // The child's subtree left the child's ancestors -- this whole
                // path up to and including the top node -- either untouched or
                // visited by the one event that escaped the child.
                assert(path@ =~= expanded.drop_last());
                lemma_shape_drop_last(expanded);
                assert(shape(grown).drop_last() =~= shape(pre));
                assert(shape(path@) == shape(pre));
                lemma_ovf_counts_drop_last(expanded);
                assert(grown.drop_last() == pre);
                assert(ovf_counts(path@) == (if sub.escaped {
                    escape_into(ovf_counts(pre))
                } else {
                    ovf_counts(pre)
                }));
                lemma_ovf_counts_last(pre);
                lemma_ovf_counts_last(path@);
                lemma_ovf_counts_drop_last(pre);
                lemma_ovf_counts_drop_last(path@);
                if sub.escaped {
                    lemma_propagate_at_last(ovf_counts(pre));
                    let ghost ancestors = (if t == 0 {
                        escape_into(ovf_counts(pre.drop_last()))
                    } else {
                        ovf_counts(pre.drop_last())
                    });
                    assert(ovf_counts(path@) == ancestors.push(sat_inc(t)));
                    assert(ovf_counts(path@).last() == sat_inc(t));
                    assert(ovf_counts(path@).drop_last() =~= ancestors);
                } else {
                    assert(ovf_counts(path@.drop_last()) == ovf_counts(pre.drop_last()));
                }
                assert(path@.last().overflow_count == received);
                lemma_shape_last(pre);
                lemma_shape_last(path@);
                assert(path@.last().available_depth == depth && path@.last().policy == policy);
            }
            let ghost mid = path@;
            self.spawn_attempts(n, i + 1, depth, path);
            proof {
                assert(r.count == 1 + sub.count + rest.count);
                lemma_sat_add_assoc(old(self).count as nat, 1, sub.count);
                lemma_sat_add_assoc(old(self).count as nat, 1 + sub.count, rest.count);
                lemma_ovf_counts_drop_last(mid);
                lemma_ovf_counts_drop_last(path@);
                lemma_ovf_counts_last(path@);
                if sub.escaped {
                    lemma_no_escape_when_positive(policy, n, (i + 1) as u64, depth, received);
                    assert(!rest.escaped);
                    assert(r.escaped == (t == 0));
                    assert(ovf_counts(path@.drop_last()) == ovf_counts(mid.drop_last()));
                } else {
                    assert(ovf_counts(mid.drop_last()) == ovf_counts(pre.drop_last()));
                    assert(r.escaped == rest.escaped);
                }
            }
        } else {
            // The top of the path is exhausted: the overflow protocol ran.
            let ghost rest = node_run(policy, n, (i + 1) as u64, depth, sat_inc(t));
            proof {
                lemma_propagate_at_last(ovf_counts(pre));
                lemma_ovf_counts_last(pre);
                lemma_ovf_counts_drop_last(pre);
                let ghost ancestors = (if t == 0 {
                    escape_into(ovf_counts(pre.drop_last()))
                } else {
                    ovf_counts(pre.drop_last())
                });
                assert(ovf_counts(path@) == ancestors.push(sat_inc(t)));
                lemma_ovf_counts_last(path@);
                lemma_ovf_counts_drop_last(path@);
                assert(ovf_counts(path@).last() == sat_inc(t));
                assert(ovf_counts(path@).drop_last() =~= ancestors);
                assert(path@.last().overflow_count == sat_inc(t));
                lemma_shape_last(pre);
                lemma_shape_last(path@);
                assert(path@.last().available_depth == depth && path@.last().policy == policy);
            }
            let ghost mid = path@;
            self.spawn_attempts(n, i + 1, depth, path);
            proof {
                assert(r.count == rest.count);
                lemma_no_escape_when_positive(policy, n, (i + 1) as u64, depth, sat_inc(t));
                assert(!rest.escaped);
                assert(r.escaped == (t == 0));
                lemma_ovf_counts_drop_last(mid);
                lemma_ovf_counts_drop_last(path@);
                assert(ovf_counts(path@.drop_last()) == ovf_counts(mid.drop_last()));
            }
        }
    }

    /// Expand the subtree below the node at the top of the active path, making
    /// `n` spawn attempts at every visited node, depth first.
    pub fn pow_n_tree_recur(&mut self, n: u64, path: &mut Vec<Node>)
        requires
            old(path)@.len() >= 1,
        ensures
            ({
                let pre = old(path)@;
                let r = node_run(
                    pre.last().policy,
                    n,
                    0,
                    pre.last().available_depth,
                    pre.last().overflow_count,
                );
                &&& final(path)@.len() == pre.len()
                &&& shape(final(path)@) == shape(pre)
                &&& final(path)@.last().overflow_count == r.overflow_count
                &&& ovf_counts(final(path)@.drop_last()) == (if r.escaped {
                    escape_into(ovf_counts(pre.drop_last()))
                } else {
                    ovf_counts(pre.drop_last())
                })
                &&& final(self).count as nat == sat_add_usize(old(self).count as nat, r.count)
            }),
    {
        let depth: u64 = path[path.len() - 1].available_depth;
        self.spawn_attempts(n, 0, depth, path);
    }

    /// One whole run: a root with the given budget and no ancestors, `n` spawn
    /// attempts at every visited node, depth first. Adds the number of spawned
    /// nodes to the running tally, saturating, and returns the tally.
    pub fn pow_n_tree(&mut self, policy: DecayPolicy, n: u64, available_depth: u64) -> (total:
        usize)
        ensures
            final(self).count as nat == sat_add_usize(
                old(self).count as nat,
                run_spec(policy, n, available_depth),
            ),
            total == final(self).count,
    {
        let mut path: Vec<Node> = Vec::new();
        path.push(Node::root(policy, available_depth));
        self.pow_n_tree_recur(n, &mut path);
        self.count
    }
}

/// The public entry point: the total number of nodes spawned by one run with
/// the given policy, branching factor and initial budget, saturating at the
/// capacity of `usize`.
pub fn run(policy: DecayPolicy, n: u64, initial_budget: u64) -> (total: usize)
    ensures
        total as nat == crate::counter::clamp_usize(run_spec(policy, n, initial_budget)),
{
    let mut counter = Counter::new();
    counter.pow_n_tree(policy, n, initial_budget)
}

} // verus!
