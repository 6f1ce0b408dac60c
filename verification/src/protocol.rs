use crate::counter::{sat_add_usize, Counter};
use crate::decay::{child_budget, decayed_budget, DecayPolicy};
use vstd::prelude::*;

verus! {

/// One increment of an overflow count, saturating at `u64::MAX`.
pub open spec fn sat_inc(c: u64) -> u64 {
    if c == u64::MAX {
        c
    } else {
        (c + 1) as u64
    }
}

/// One position on the active root-to-leaf path. The path itself is the
/// caller-held stack of records through which a node signals its ancestors:
/// index 0 is the root, the last entry is the node currently being expanded,
/// and every other entry is an ancestor whose own spawn loop is still active.
#[derive(Clone, Copy, Debug, PartialEq, Eq, Structural)]
pub struct Node {
    /// The decay policy of the whole run, inherited unchanged from the root.
    pub policy: DecayPolicy,
    /// The remaining depth budget, fixed at construction time.
    pub available_depth: u64,
    /// How often this node has been notified of an exhaustion; only ever grows.
    pub overflow_count: u64,
}

/// The overflow counts along a path, root first.
pub open spec fn ovf_counts(chain: Seq<Node>) -> Seq<u64> {
    Seq::new(chain.len(), |k: int| chain[k].overflow_count)
}

/// The immutable part of a path: every node's budget and policy. Operations of
/// the overflow protocol change overflow counts only, so they preserve this.
pub open spec fn shape(chain: Seq<Node>) -> Seq<(u64, DecayPolicy)> {
    Seq::new(chain.len(), |k: int| (chain[k].available_depth, chain[k].policy))
}

/// The overflow counts after one exhaustion recorded at position `j` of the
/// path: position `j` is incremented, and while the incremented position held
/// zero before, the notification travels one position toward the root.
pub open spec fn propagate_seq(counts: Seq<u64>, j: int) -> Seq<u64>
    recommends
        0 <= j < counts.len(),
    decreases j,
{
    let bumped = counts.update(j, sat_inc(counts[j]));
    if counts[j] == 0 && j > 0 {
        propagate_seq(bumped, j - 1)
    } else {
        bumped
    }
}

/// The effect on the ancestor part of a path of the one overflow event that
/// escapes the subtree below it: the event arrives at the nearest ancestor and
/// propagates from there.
pub open spec fn escape_into(counts: Seq<u64>) -> Seq<u64> {
    if counts.len() == 0 {
        counts
    } else {
        propagate_seq(counts, counts.len() - 1)
    }
}

pub proof fn lemma_ovf_counts_push(chain: Seq<Node>, nd: Node)
    ensures
        ovf_counts(chain.push(nd)) == ovf_counts(chain).push(nd.overflow_count),
{
    assert(ovf_counts(chain.push(nd)) =~= ovf_counts(chain).push(nd.overflow_count));
}

pub proof fn lemma_ovf_counts_drop_last(chain: Seq<Node>)
    requires
        chain.len() >= 1,
    ensures
        ovf_counts(chain.drop_last()) == ovf_counts(chain).drop_last(),
{
    assert(ovf_counts(chain.drop_last()) =~= ovf_counts(chain).drop_last());
}

pub proof fn lemma_ovf_counts_last(chain: Seq<Node>)
    requires
        chain.len() >= 1,
    ensures
        ovf_counts(chain).last() == chain.last().overflow_count,
{
}

pub proof fn lemma_shape_push(chain: Seq<Node>, nd: Node)
    ensures
        shape(chain.push(nd)) == shape(chain).push((nd.available_depth, nd.policy)),
{
    assert(shape(chain.push(nd)) =~= shape(chain).push((nd.available_depth, nd.policy)));
}

pub proof fn lemma_shape_drop_last(chain: Seq<Node>)
    requires
        chain.len() >= 1,
    ensures
        shape(chain.drop_last()) == shape(chain).drop_last(),
{
    assert(shape(chain.drop_last()) =~= shape(chain).drop_last());
}

pub proof fn lemma_shape_last(chain: Seq<Node>)
    requires
        chain.len() >= 1,
    ensures
        shape(chain).last() == (chain.last().available_depth, chain.last().policy),
{
}

/// Where a notification starting at position `j` comes to rest: at the nearest
/// position at or below `j` that has already been notified, or at the root.
pub open spec fn halt_index(counts: Seq<u64>, j: int) -> int
    recommends
        0 <= j < counts.len(),
    decreases j,
{
    if counts[j] != 0 || j <= 0 {
        j
    } else {
        halt_index(counts, j - 1)
    }
}

/// The effect of one exhaustion recorded at position `j`: the notification
/// travels toward the root through every position that had not been notified
/// yet, incrementing each by exactly one, and halts at the first position that
/// had been -- which still receives one increment -- or at the root. Every
/// position outside that stretch is left untouched.
pub proof fn lemma_propagation_effect(counts: Seq<u64>, j: int)
    requires
        0 <= j < counts.len(),
    ensures
        propagate_seq(counts, j).len() == counts.len(),
        0 <= halt_index(counts, j) <= j,
        forall|k: int|
            halt_index(counts, j) <= k <= j ==> propagate_seq(counts, j)[k] == sat_inc(
                #[trigger] counts[k],
            ),
        forall|k: int|
            0 <= k < counts.len() && !(halt_index(counts, j) <= k <= j)
                ==> propagate_seq(counts, j)[k] == #[trigger] counts[k],
        forall|k: int| halt_index(counts, j) < k <= j ==> #[trigger] counts[k] == 0,
    decreases j,
{
    let bumped = counts.update(j, sat_inc(counts[j]));
    if counts[j] == 0 && j > 0 {
        lemma_propagation_effect(bumped, j - 1);
        lemma_halt_index_ignores_above(counts, bumped, j - 1);
        let h = halt_index(counts, j);
        let result = propagate_seq(counts, j);
        assert(halt_index(bumped, j - 1) == h);
        assert(result == propagate_seq(bumped, j - 1));
        assert forall|k: int| h <= k <= j implies result[k] == sat_inc(counts[k]) by {
            if k < j {
                assert(result[k] == sat_inc(bumped[k]));
            } else {
                assert(result[j] == bumped[j]);
            }
        }
        assert forall|k: int| 0 <= k < counts.len() && !(h <= k <= j) implies result[k]
            == counts[k] by {
            assert(result[k] == bumped[k]);
        }
        assert forall|k: int| h < k <= j implies counts[k] == 0 by {
            if k < j {
                assert(bumped[k] == 0);
            }
        }
    }
}

/// The halt position depends only on the counts at and below the start.
proof fn lemma_halt_index_ignores_above(a: Seq<u64>, b: Seq<u64>, j: int)
    requires
        0 <= j < a.len(),
        0 <= j < b.len(),
        forall|k: int| 0 <= k <= j ==> #[trigger] a[k] == b[k],
    ensures
        halt_index(a, j) == halt_index(b, j),
    decreases j,
{
    if a[j] == 0 && j > 0 {
        lemma_halt_index_ignores_above(a, b, j - 1);
    }
}

/// A propagation started strictly below the last position never touches the
/// last position.
pub proof fn lemma_propagate_below_last(counts: Seq<u64>, j: int)
    requires
        0 <= j < counts.len() - 1,
    ensures
        propagate_seq(counts, j) == propagate_seq(counts.drop_last(), j).push(counts.last()),
    decreases j,
{
    let bumped = counts.update(j, sat_inc(counts[j]));
    assert(bumped.drop_last() =~= counts.drop_last().update(j, sat_inc(counts[j])));
    if counts[j] == 0 && j > 0 {
        lemma_propagate_below_last(bumped, j - 1);
        assert(bumped.last() == counts.last());
    } else {
        assert(propagate_seq(counts, j) =~= propagate_seq(counts.drop_last(), j).push(
            counts.last(),
        ));
    }
}

/// A propagation started at the last position increments it, and exactly when
/// that position held zero the event continues into the positions before it.
pub proof fn lemma_propagate_at_last(counts: Seq<u64>)
    requires
        counts.len() >= 1,
    ensures
        propagate_seq(counts, counts.len() - 1) == (if counts.last() == 0 {
            escape_into(counts.drop_last())
        } else {
            counts.drop_last()
        }).push(sat_inc(counts.last())),
{
    let j = counts.len() - 1;
    let bumped = counts.update(j, sat_inc(counts[j]));
    assert(bumped =~= counts.drop_last().push(sat_inc(counts.last())));
    if counts[j] == 0 && j > 0 {
        lemma_propagate_below_last(bumped, j - 1);
        assert(bumped.drop_last() =~= counts.drop_last());
        assert(bumped.last() == sat_inc(counts.last()));
    }
}

impl Node {
    /// A fresh root holding the initial budget; no overflow recorded yet and,
    /// being the root, no ancestor to signal.
    pub fn root(policy: DecayPolicy, available_depth: u64) -> (node: Node)
        ensures
            node == (Node { policy, available_depth, overflow_count: 0 }),
    {
        Node { policy, available_depth, overflow_count: 0 }
    }

    /// Record an exhaustion on the node at the top of the active path: its own
    /// overflow count grows by one, and the first time a node on the way is
    /// exhausted the notification also travels to the position before it, so a
    /// first failure travels furthest and later failures are absorbed locally.
    pub fn set_overflow(path: &mut Vec<Node>)
        requires
            old(path)@.len() >= 1,
        ensures
            final(path)@.len() == old(path)@.len(),
            shape(final(path)@) == shape(old(path)@),
            ovf_counts(final(path)@) == propagate_seq(
                ovf_counts(old(path)@),
                old(path)@.len() - 1,
            ),
    {
        let last: usize = path.len() - 1;
        Node::signal_at(path, last);
    }

    fn signal_at(path: &mut Vec<Node>, j: usize)
        requires
            j < old(path)@.len(),
        ensures
            final(path)@.len() == old(path)@.len(),
            shape(final(path)@) == shape(old(path)@),
            ovf_counts(final(path)@) == propagate_seq(ovf_counts(old(path)@), j as int),
        decreases j,
    {
        let current: Node = path[j];
        let prev: u64 = current.overflow_count;
        let bumped: u64 = if prev < u64::MAX {
            prev + 1
        } else {
            prev
        };
        path[j] = Node {
            policy: current.policy,
            available_depth: current.available_depth,
            overflow_count: bumped,
        };
        proof {
            assert(ovf_counts(path@) =~= ovf_counts(old(path)@).update(
                j as int,
                sat_inc(ovf_counts(old(path)@)[j as int]),
            ));
            assert(shape(path@) =~= shape(old(path)@));
        }
        if prev == 0 && j > 0 {
            Node::signal_at(path, j - 1);
            proof {
                assert(shape(path@) =~= shape(old(path)@));
            }
        }
    }

    /// Attempt to spawn a child below the node at the top of the active path.
    /// An exhausted node (budget zero) runs the overflow protocol and spawns
    /// nothing; otherwise the counter records the spawn and the child, carrying
    /// the decayed budget and a fresh overflow count, joins the path.
    pub fn try_spawn_child(path: &mut Vec<Node>, counter: &mut Counter) -> (spawned: bool)
        requires
            old(path)@.len() >= 1,
        ensures
            spawned == (old(path)@.last().available_depth >= 1),
            old(path)@.last().available_depth == 0 ==> {
                &&& final(path)@.len() == old(path)@.len()
                &&& shape(final(path)@) == shape(old(path)@)
                &&& ovf_counts(final(path)@) == propagate_seq(
                    ovf_counts(old(path)@),
                    old(path)@.len() - 1,
                )
                &&& *final(counter) == *old(counter)
            },
            old(path)@.last().available_depth >= 1 ==> {
                &&& final(path)@ == old(path)@.push(
                    (Node {
                        policy: old(path)@.last().policy,
                        available_depth: child_budget(
                            old(path)@.last().policy,
                            old(path)@.last().available_depth,
                            old(path)@.last().overflow_count,
                        ),
                        overflow_count: 0,
                    }),
                )
                &&& final(counter).count as nat == sat_add_usize(old(counter).count as nat, 1)
            },
    {
        let last: usize = path.len() - 1;
        let top: Node = path[last];
        if top.available_depth == 0 {
            Node::set_overflow(path);
            false
        } else {
            counter.record_spawn();
            let budget: u64 = decayed_budget(top.policy, top.available_depth, top.overflow_count);
            path.push(Node { policy: top.policy, available_depth: budget, overflow_count: 0 });
            true
        }
    }
}

} // verus!
