//! Which declared parent links of a tick are trusted, and what follows from
//! trusting only those.
//!
//! A process table records for every process the pid it claims as parent. Pids
//! are recycled, so a claim is accepted only when the start times make it
//! plausible. Everything here concerns the accepted links alone.

use crate::snapshot::{distinct_pids, has_pid, position_of, ProcessSample};
use vstd::prelude::*;

verus! {

/// The start-time rule: a child cannot have started before its parent, and two
/// unknown (zero) start times prove nothing.
pub open spec fn edge_accepted(parent_start: u64, child_start: u64) -> bool {
    child_start >= parent_start && !(child_start == 0 && parent_start == 0)
}

/// Decides the start-time rule.
pub fn accepts_edge(parent_start: u64, child_start: u64) -> (accepted: bool)
    ensures
        accepted == edge_accepted(parent_start, child_start),
{
    child_start >= parent_start && !(child_start == 0 && parent_start == 0)
}

/// Position of the accepted parent of sample `i`: the declared parent, when it
/// is present in `samples` and the start-time rule accepts the link.
pub open spec fn parent_of(samples: Seq<ProcessSample>, i: int) -> Option<int> {
    match samples[i].parent {
        None => None,
        Some(pid) => {
            if has_pid(samples, pid) && edge_accepted(
                samples[position_of(samples, pid)].start_time,
                samples[i].start_time,
            ) {
                Some(position_of(samples, pid))
            } else {
                None
            }
        },
    }
}

/// A sample without an accepted parent.
pub open spec fn is_root(samples: Seq<ProcessSample>, i: int) -> bool {
    parent_of(samples, i) is None
}

/// Position reached from sample `i` by following `k` accepted links upwards.
pub open spec fn ancestor(samples: Seq<ProcessSample>, i: int, k: nat) -> Option<int>
    decreases k,
{
    if k == 0 {
        Some(i)
    } else {
        match parent_of(samples, i) {
            None => None,
            Some(p) => ancestor(samples, p, (k - 1) as nat),
        }
    }
}

/// Sample `i` lies exactly `depth` accepted links below a root.
pub open spec fn rooted_at_depth(samples: Seq<ProcessSample>, i: int, depth: nat) -> bool {
    match ancestor(samples, i, depth) {
        None => false,
        Some(top) => is_root(samples, top),
    }
}

/// Following accepted links upwards from sample `i` ends at a root.
pub open spec fn anchored(samples: Seq<ProcessSample>, i: int) -> bool {
    exists|depth: nat| rooted_at_depth(samples, i, depth)
}

/// Every sample is anchored: the accepted links contain no cycle.
pub open spec fn acyclic(samples: Seq<ProcessSample>) -> bool {
    forall|i: int| 0 <= i < samples.len() ==> anchored(samples, i)
}

/// In a table without repeated pids, the position of a sample's pid is the
/// sample's own position.
pub proof fn lemma_position_of_own_pid(samples: Seq<ProcessSample>, i: int)
    requires
        distinct_pids(samples),
        0 <= i < samples.len(),
    ensures
        has_pid(samples, samples[i].pid),
        position_of(samples, samples[i].pid) == i,
{
}

/// An accepted parent is a position inside the table.
pub proof fn lemma_parent_in_range(samples: Seq<ProcessSample>, i: int)
    ensures
        parent_of(samples, i) matches Some(p) ==> 0 <= p < samples.len(),
{
}

/// Ancestors of a sample inside the table are inside the table.
pub proof fn lemma_ancestor_in_range(samples: Seq<ProcessSample>, i: int, k: nat)
    requires
        0 <= i < samples.len(),
    ensures
        ancestor(samples, i, k) matches Some(a) ==> 0 <= a < samples.len(),
    decreases k,
{
    if k > 0 {
        lemma_parent_in_range(samples, i);
        if let Some(p) = parent_of(samples, i) {
            lemma_ancestor_in_range(samples, p, (k - 1) as nat);
        }
    }
}

/// Climbing `a + b` links is climbing `a` links and then `b` more.
pub proof fn lemma_ancestor_add(samples: Seq<ProcessSample>, i: int, a: nat, b: nat)
    ensures
        ancestor(samples, i, a + b) == match ancestor(samples, i, a) {
            None => None,
            Some(m) => ancestor(samples, m, b),
        },
    decreases a,
{
    if a > 0 {
        if let Some(p) = parent_of(samples, i) {
            lemma_ancestor_add(samples, p, (a - 1) as nat, b);
            assert(ancestor(samples, i, a + b) == ancestor(samples, p, (a + b - 1) as nat));
        }
    }
}

/// Nothing lies above a root.
pub proof fn lemma_nothing_above_root(samples: Seq<ProcessSample>, top: int, k: nat)
    requires
        is_root(samples, top),
        k > 0,
    ensures
        ancestor(samples, top, k) is None,
{
}

/// A sample has at most one depth.
pub proof fn lemma_depth_unique(samples: Seq<ProcessSample>, i: int, a: nat, b: nat)
    requires
        rooted_at_depth(samples, i, a),
        rooted_at_depth(samples, i, b),
    ensures
        a == b,
{
    if a < b {
        lemma_ancestor_add(samples, i, a, (b - a) as nat);
        lemma_nothing_above_root(samples, ancestor(samples, i, a).unwrap(), (b - a) as nat);
    } else if b < a {
        lemma_ancestor_add(samples, i, b, (a - b) as nat);
        lemma_nothing_above_root(samples, ancestor(samples, i, b).unwrap(), (a - b) as nat);
    }
}

/// A sample whose accepted parent is anchored is anchored one level deeper.
pub proof fn lemma_child_depth(samples: Seq<ProcessSample>, child: int, parent: int, depth: nat)
    requires
        parent_of(samples, child) == Some(parent),
        rooted_at_depth(samples, parent, depth),
    ensures
        rooted_at_depth(samples, child, depth + 1),
{
    assert(ancestor(samples, child, depth + 1) == ancestor(samples, parent, depth));
}

/// The ancestor `k` levels up of an anchored sample is anchored `k` levels
/// higher.
pub proof fn lemma_ancestor_depth(samples: Seq<ProcessSample>, i: int, depth: nat, k: nat)
    requires
        rooted_at_depth(samples, i, depth),
        k <= depth,
    ensures
        ancestor(samples, i, k) is Some,
        rooted_at_depth(samples, ancestor(samples, i, k).unwrap(), (depth - k) as nat),
{
    lemma_ancestor_add(samples, i, k, (depth - k) as nat);
}

/// An anchored sample never meets itself again on the way up.
pub proof fn lemma_anchored_not_own_ancestor(
    samples: Seq<ProcessSample>,
    i: int,
    depth: nat,
    k: nat,
)
    requires
        rooted_at_depth(samples, i, depth),
        k > 0,
    ensures
        ancestor(samples, i, k) != Some(i),
{
    if ancestor(samples, i, k) == Some(i) {
        lemma_ancestor_add(samples, i, k, depth);
        lemma_ancestor_add(samples, i, depth, k);
        assert(k + depth == depth + k);
        lemma_nothing_above_root(samples, ancestor(samples, i, depth).unwrap(), k);
    }
}

/// The positions met on the way from an anchored sample up to its root.
pub open spec fn path_to_root(samples: Seq<ProcessSample>, i: int, depth: nat) -> Seq<int> {
    Seq::new(depth + 1, |k: int| ancestor(samples, i, k as nat).unwrap())
}

/// A sample cannot lie deeper than the table is long.
pub proof fn lemma_depth_bounded(samples: Seq<ProcessSample>, i: int, depth: nat)
    requires
        0 <= i < samples.len(),
        rooted_at_depth(samples, i, depth),
    ensures
        depth < samples.len(),
{
    let path = path_to_root(samples, i, depth);
    assert forall|a: int, b: int|
        0 <= a < path.len() && 0 <= b < path.len() && a != b implies path[a] != path[b] by {
        let (lo, hi) = if a < b {
            (a, b)
        } else {
            (b, a)
        };
        let low = ancestor(samples, i, lo as nat).unwrap();
        lemma_ancestor_depth(samples, i, depth, lo as nat);
        lemma_ancestor_depth(samples, i, depth, hi as nat);
        lemma_ancestor_add(samples, i, lo as nat, (hi - lo) as nat);
        assert(lo as nat + (hi - lo) as nat == hi as nat);
        assert(ancestor(samples, i, hi as nat) == ancestor(samples, low, (hi - lo) as nat));
        lemma_anchored_not_own_ancestor(samples, low, (depth - lo) as nat, (hi - lo) as nat);
        assert(path[lo] == low);
        assert(path[hi] == ancestor(samples, i, hi as nat).unwrap());
    }
    assert(path.no_duplicates());
    path.unique_seq_to_set();
    assert forall|x: int| path.to_set().contains(x) implies vstd::set_lib::set_int_range(
        0,
        samples.len() as int,
    ).contains(x) by {
        let k = choose|k: int| 0 <= k < path.len() && path[k] == x;
        lemma_ancestor_depth(samples, i, depth, k as nat);
        lemma_ancestor_in_range(samples, i, k as nat);
    }
    vstd::set_lib::lemma_int_range(0, samples.len() as int);
    vstd::set_lib::lemma_len_subset(
        path.to_set(),
        vstd::set_lib::set_int_range(0, samples.len() as int),
    );
}

} // verus!
