//! What holds of every forest that [`is_forest_of`] accepts, and so of every
//! forest that `build_forest` returns.

use crate::forest::{
    aggregates_ok, capped, describes, has_node, is_forest_of, ranked, sum_of, total_cpus,
    total_disk_reads, total_disk_writes, total_memories, totals_of,
};
use crate::lineage::{
    acyclic, ancestor, anchored, is_root, lemma_ancestor_add, lemma_anchored_not_own_ancestor,
    lemma_child_depth, lemma_depth_unique, lemma_parent_in_range, lemma_position_of_own_pid,
    parent_of, rooted_at_depth,
};
use crate::models::{flatten, flatten_node, ProcessInfo};
use crate::snapshot::{distinct_pids, has_pid, position_of, ProcessSample};
use vstd::prelude::*;

verus! {

/// The pids carried by `nodes`, in order.
pub open spec fn pids(nodes: Seq<ProcessInfo>) -> Seq<u32> {
    nodes.map_values(|n: ProcessInfo| n.pid)
}

/// The pids of the samples, in table order.
pub open spec fn sample_pids(samples: Seq<ProcessSample>) -> Seq<u32> {
    samples.map_values(|s: ProcessSample| s.pid)
}

/// `x` is the subtree of its sample, and that sample stands `k` accepted links
/// below position `top`, which lies at `level`.
spec fn hangs_at(
    samples: Seq<ProcessSample>,
    x: ProcessInfo,
    top: int,
    level: nat,
    k: nat,
    cores: usize,
    aggregate: bool,
) -> bool {
    &&& has_pid(samples, x.pid)
    &&& describes(x, samples, position_of(samples, x.pid), cores, aggregate)
    &&& ancestor(samples, position_of(samples, x.pid), k) == Some(top)
    &&& rooted_at_depth(samples, position_of(samples, x.pid), level + k)
}

/// `x` is the subtree of its sample, which stands at or below position `top`.
spec fn hangs_below(
    samples: Seq<ProcessSample>,
    x: ProcessInfo,
    top: int,
    level: nat,
    cores: usize,
    aggregate: bool,
) -> bool {
    exists|k: nat| hangs_at(samples, x, top, level, k, cores, aggregate)
}

/// `x` hangs at or below one of the first `m` of `nodes`.
spec fn hangs_in(
    samples: Seq<ProcessSample>,
    x: ProcessInfo,
    nodes: Seq<ProcessInfo>,
    m: int,
    level: nat,
    cores: usize,
    aggregate: bool,
) -> bool {
    exists|j: int|
        0 <= j < m && hangs_below(
            samples,
            x,
            position_of(samples, (#[trigger] nodes[j]).pid),
            level,
            cores,
            aggregate,
        )
}

/// `nodes` are subtrees of distinct samples that all lie at `level`.
spec fn level_nodes(
    nodes: Seq<ProcessInfo>,
    samples: Seq<ProcessSample>,
    level: nat,
    cores: usize,
    aggregate: bool,
) -> bool {
    &&& forall|k: int|
        0 <= k < nodes.len() ==> {
            let at = position_of(samples, (#[trigger] nodes[k]).pid);
            &&& has_pid(samples, nodes[k].pid)
            &&& describes(nodes[k], samples, at, cores, aggregate)
            &&& rooted_at_depth(samples, at, level)
        }
    &&& forall|a: int, b: int|
        0 <= a < b < nodes.len() ==> (#[trigger] nodes[a]).pid != (#[trigger] nodes[b]).pid
}

/// The children of a subtree whose sample lies at `level` lie one level
/// deeper.
proof fn lemma_children_level(
    node: ProcessInfo,
    samples: Seq<ProcessSample>,
    i: int,
    level: nat,
    cores: usize,
    aggregate: bool,
)
    requires
        describes(node, samples, i, cores, aggregate),
        rooted_at_depth(samples, i, level),
    ensures
        level_nodes(node.children@, samples, level + 1, cores, aggregate),
{
    let kids = node.children@;
    assert forall|k: int| 0 <= k < kids.len() implies {
        let at = position_of(samples, (#[trigger] kids[k]).pid);
        &&& has_pid(samples, kids[k].pid)
        &&& describes(kids[k], samples, at, cores, aggregate)
        &&& rooted_at_depth(samples, at, level + 1)
    } by {
        lemma_child_depth(samples, position_of(samples, kids[k].pid), i, level);
    }
}

/// The roots of a forest lie at level 0.
proof fn lemma_roots_level(
    forest: Seq<ProcessInfo>,
    samples: Seq<ProcessSample>,
    cores: usize,
    aggregate: bool,
)
    requires
        is_forest_of(forest, samples, cores, aggregate),
    ensures
        level_nodes(forest, samples, 0, cores, aggregate),
{
    assert forall|k: int| 0 <= k < forest.len() implies {
        let at = position_of(samples, (#[trigger] forest[k]).pid);
        &&& has_pid(samples, forest[k].pid)
        &&& describes(forest[k], samples, at, cores, aggregate)
        &&& rooted_at_depth(samples, at, 0)
    } by {
        let at = position_of(samples, forest[k].pid);
        assert(is_root(samples, at));
        assert(ancestor(samples, at, 0) == Some(at));
    }
}

/// The flattening of a list grows node by node.
proof fn lemma_flatten_step(nodes: Seq<ProcessInfo>, m: int)
    requires
        0 <= m < nodes.len(),
    ensures
        flatten(nodes.take(m + 1)) == flatten(nodes.take(m)) + flatten_node(nodes[m]),
{
    assert(nodes.take(m + 1).drop_last() =~= nodes.take(m));
    assert(nodes.take(m + 1).last() == nodes[m]);
}

/// A sample that hangs below two positions of one level hangs below one
/// position only.
proof fn lemma_one_top_per_level(
    samples: Seq<ProcessSample>,
    x: int,
    top_a: int,
    top_b: int,
    level: nat,
    ka: nat,
    kb: nat,
)
    requires
        ancestor(samples, x, ka) == Some(top_a),
        ancestor(samples, x, kb) == Some(top_b),
        rooted_at_depth(samples, x, level + ka),
        rooted_at_depth(samples, x, level + kb),
    ensures
        top_a == top_b,
{
    lemma_depth_unique(samples, x, level + ka, level + kb);
}

/// Within the subtree of an anchored sample no pid occurs twice, and every
/// node is the subtree of a sample at or below that sample.
proof fn lemma_subtree(
    node: ProcessInfo,
    samples: Seq<ProcessSample>,
    i: int,
    level: nat,
    cores: usize,
    aggregate: bool,
)
    requires
        distinct_pids(samples),
        describes(node, samples, i, cores, aggregate),
        rooted_at_depth(samples, i, level),
    ensures
        pids(flatten_node(node)).no_duplicates(),
        forall|t: int|
            0 <= t < flatten_node(node).len() ==> hangs_below(
                samples,
                #[trigger] flatten_node(node)[t],
                i,
                level,
                cores,
                aggregate,
            ),
    decreases node, 1nat, 0nat,
{
    let kids = node.children@;
    let below = flatten(kids);
    let all = flatten_node(node);
    lemma_children_level(node, samples, i, level, cores, aggregate);
    lemma_subtrees(kids, samples, level + 1, kids.len() as int, cores, aggregate);
    assert(kids.take(kids.len() as int) =~= kids);
    lemma_position_of_own_pid(samples, i);
    assert(ancestor(samples, i, 0) == Some(i));
    assert(hangs_at(samples, node, i, level, 0, cores, aggregate));
    assert forall|t: int| 0 <= t < all.len() implies hangs_below(
        samples,
        #[trigger] all[t],
        i,
        level,
        cores,
        aggregate,
    ) by {
        if t > 0 {
            let x = below[t - 1];
            assert(all[t] == x);
            assert(hangs_in(samples, x, kids, kids.len() as int, level + 1, cores, aggregate));
            let j = choose|j: int|
                0 <= j < kids.len() && hangs_below(
                    samples,
                    x,
                    position_of(samples, (#[trigger] kids[j]).pid),
                    level + 1,
                    cores,
                    aggregate,
                );
            let top = position_of(samples, kids[j].pid);
            let deeper: nat = level + 1;
            let k = choose|k: nat|
                #[trigger] hangs_at(samples, x, top, deeper, k, cores, aggregate);
            let at = position_of(samples, x.pid);
            lemma_ancestor_add(samples, at, k, 1);
            assert(ancestor(samples, top, 1) == Some(i)) by {
                assert(parent_of(samples, top) == Some(i));
                assert(ancestor(samples, i, 0) == Some(i));
            }
            assert(level + 1 + k == level + (k + 1));
            assert(hangs_at(samples, x, i, level, k + 1, cores, aggregate));
        }
    }
    assert forall|a: int, b: int| 0 <= a < all.len() && 0 <= b < all.len() && a != b implies pids(
        all,
    )[a] != pids(all)[b] by {
        if a > 0 && b > 0 {
            assert(pids(below)[a - 1] != pids(below)[b - 1]);
        } else {
            let t = if a == 0 {
                b
            } else {
                a
            };
            let x = all[t];
            if x.pid == node.pid {
                let k = choose|k: nat| hangs_at(samples, x, i, level, k, cores, aggregate);
                assert(x == below[t - 1]);
                assert(hangs_in(samples, x, kids, kids.len() as int, level + 1, cores, aggregate));
                let j = choose|j: int|
                    0 <= j < kids.len() && hangs_below(
                        samples,
                        x,
                        position_of(samples, (#[trigger] kids[j]).pid),
                        level + 1,
                        cores,
                        aggregate,
                    );
                let top = position_of(samples, kids[j].pid);
                let deeper: nat = level + 1;
                let kk = choose|kk: nat|
                    #[trigger] hangs_at(samples, x, top, deeper, kk, cores, aggregate);
                lemma_ancestor_add(samples, i, kk, 1);
                assert(ancestor(samples, top, 1) == Some(i)) by {
                    assert(parent_of(samples, top) == Some(i));
                    assert(ancestor(samples, i, 0) == Some(i));
                }
                lemma_anchored_not_own_ancestor(samples, i, level, kk + 1);
            }
        }
    }
}

/// Among the subtrees of the first `m` of `nodes` no pid occurs twice, and
/// every node hangs at or below one of those `m`.
proof fn lemma_subtrees(
    nodes: Seq<ProcessInfo>,
    samples: Seq<ProcessSample>,
    level: nat,
    m: int,
    cores: usize,
    aggregate: bool,
)
    requires
        distinct_pids(samples),
        level_nodes(nodes, samples, level, cores, aggregate),
        0 <= m <= nodes.len(),
    ensures
        pids(flatten(nodes.take(m))).no_duplicates(),
        forall|t: int|
            0 <= t < flatten(nodes.take(m)).len() ==> hangs_in(
                samples,
                #[trigger] flatten(nodes.take(m))[t],
                nodes,
                m,
                level,
                cores,
                aggregate,
            ),
    decreases nodes, 0nat, m,
{
    if m == 0 {
        assert(nodes.take(0) =~= Seq::<ProcessInfo>::empty());
    } else {
        let last = nodes[m - 1];
        let top = position_of(samples, last.pid);
        let head = flatten(nodes.take(m - 1));
        let tail = flatten_node(last);
        let all = flatten(nodes.take(m));
        lemma_subtrees(nodes, samples, level, m - 1, cores, aggregate);
        lemma_subtree(last, samples, top, level, cores, aggregate);
        lemma_flatten_step(nodes, m - 1);
        assert(all == head + tail);
        assert forall|t: int| 0 <= t < all.len() implies hangs_in(
            samples,
            #[trigger] all[t],
            nodes,
            m,
            level,
            cores,
            aggregate,
        ) by {
            if t < head.len() {
                assert(all[t] == head[t]);
                assert(hangs_in(samples, head[t], nodes, m - 1, level, cores, aggregate));
                let j = choose|j: int|
                    0 <= j < m - 1 && hangs_below(
                        samples,
                        head[t],
                        position_of(samples, (#[trigger] nodes[j]).pid),
                        level,
                        cores,
                        aggregate,
                    );
                assert(0 <= j < m);
            } else {
                assert(all[t] == tail[t - head.len()]);
                assert(hangs_below(samples, tail[t - head.len()], top, level, cores, aggregate));
                assert(nodes[m - 1] == last);
            }
        }
        assert(pids(all) =~= pids(head) + pids(tail));
        assert forall|a: int, b: int| 0 <= a < head.len() && 0 <= b < tail.len() implies pids(
            head,
        )[a] != pids(tail)[b] by {
            let x = head[a];
            let y = tail[b];
            if x.pid == y.pid {
                assert(hangs_in(samples, x, nodes, m - 1, level, cores, aggregate));
                let j = choose|j: int|
                    0 <= j < m - 1 && hangs_below(
                        samples,
                        x,
                        position_of(samples, (#[trigger] nodes[j]).pid),
                        level,
                        cores,
                        aggregate,
                    );
                let top_x = position_of(samples, nodes[j].pid);
                let kx = choose|k: nat| hangs_at(samples, x, top_x, level, k, cores, aggregate);
                assert(hangs_below(samples, y, top, level, cores, aggregate));
                let ky = choose|k: nat| hangs_at(samples, y, top, level, k, cores, aggregate);
                lemma_one_top_per_level(
                    samples,
                    position_of(samples, x.pid),
                    top_x,
                    top,
                    level,
                    kx,
                    ky,
                );
                assert(has_pid(samples, nodes[j].pid));
                assert(has_pid(samples, nodes[m - 1].pid));
                assert(nodes[j].pid != nodes[m - 1].pid);
            }
        }
        vstd::seq_lib::lemma_no_dup_in_concat(pids(head), pids(tail));
    }
}

/// Each of the first `m` of `nodes` occurs in their flattening.
proof fn lemma_top_in_flatten(nodes: Seq<ProcessInfo>, m: int, j: int)
    requires
        0 <= j < m <= nodes.len(),
    ensures
        flatten(nodes.take(m)).contains(nodes[j]),
    decreases m,
{
    let head = flatten(nodes.take(m - 1));
    let tail = flatten_node(nodes[m - 1]);
    lemma_flatten_step(nodes, m - 1);
    if j == m - 1 {
        assert((head + tail)[head.len() as int] == tail[0]);
    } else {
        lemma_top_in_flatten(nodes, m - 1, j);
        let t = choose|t: int| 0 <= t < head.len() && head[t] == nodes[j];
        assert((head + tail)[t] == head[t]);
    }
}

/// The children of a node of a subtree are nodes of that subtree.
proof fn lemma_subtree_closed(node: ProcessInfo, t: int, k: int)
    requires
        0 <= t < flatten_node(node).len(),
        0 <= k < flatten_node(node)[t].children@.len(),
    ensures
        flatten_node(node).contains(flatten_node(node)[t].children@[k]),
    decreases node, 1nat, 0nat,
{
    let kids = node.children@;
    let below = flatten(kids);
    let all = flatten_node(node);
    let child = all[t].children@[k];
    assert(kids.take(kids.len() as int) =~= kids);
    if t == 0 {
        lemma_top_in_flatten(kids, kids.len() as int, k);
    } else {
        lemma_subtrees_closed(kids, kids.len() as int, t - 1, k);
    }
    let u = choose|u: int| 0 <= u < below.len() && below[u] == child;
    assert(all[u + 1] == below[u]);
}

/// The children of a node of a flattening are nodes of that flattening.
proof fn lemma_subtrees_closed(nodes: Seq<ProcessInfo>, m: int, t: int, k: int)
    requires
        0 <= m <= nodes.len(),
        0 <= t < flatten(nodes.take(m)).len(),
        0 <= k < flatten(nodes.take(m))[t].children@.len(),
    ensures
        flatten(nodes.take(m)).contains(flatten(nodes.take(m))[t].children@[k]),
    decreases nodes, 0nat, m,
{
    if m == 0 {
        assert(nodes.take(0) =~= Seq::<ProcessInfo>::empty());
    } else {
        let head = flatten(nodes.take(m - 1));
        let tail = flatten_node(nodes[m - 1]);
        let all = flatten(nodes.take(m));
        lemma_flatten_step(nodes, m - 1);
        let child = all[t].children@[k];
        if t < head.len() {
            assert(all[t] == head[t]);
            lemma_subtrees_closed(nodes, m - 1, t, k);
            let u = choose|u: int| 0 <= u < head.len() && head[u] == child;
            assert(all[u] == head[u]);
        } else {
            assert(all[t] == tail[t - head.len()]);
            lemma_subtree_closed(nodes[m - 1], t - head.len(), k);
            let u = choose|u: int| 0 <= u < tail.len() && tail[u] == child;
            assert(all[head.len() + u] == tail[u]);
        }
    }
}

/// An anchored sample has its subtree somewhere in the forest.
proof fn lemma_reached(
    forest: Seq<ProcessInfo>,
    samples: Seq<ProcessSample>,
    i: int,
    depth: nat,
    cores: usize,
    aggregate: bool,
)
    requires
        distinct_pids(samples),
        is_forest_of(forest, samples, cores, aggregate),
        0 <= i < samples.len(),
        rooted_at_depth(samples, i, depth),
    ensures
        exists|t: int|
            0 <= t < flatten(forest).len() && (#[trigger] flatten(forest)[t]).pid == samples[i].pid
                && describes(flatten(forest)[t], samples, i, cores, aggregate),
    decreases depth,
{
    let all = flatten(forest);
    assert(forest.take(forest.len() as int) =~= forest);
    lemma_position_of_own_pid(samples, i);
    if depth == 0 {
        assert(ancestor(samples, i, 0) == Some(i));
        assert(has_node(forest, samples[i].pid));
        let k = choose|k: int| 0 <= k < forest.len() && forest[k].pid == samples[i].pid;
        lemma_top_in_flatten(forest, forest.len() as int, k);
        let t = choose|t: int| 0 <= t < all.len() && all[t] == forest[k];
        assert(all[t].pid == samples[i].pid && describes(all[t], samples, i, cores, aggregate));
    } else {
        let p = parent_of(samples, i).unwrap();
        lemma_parent_in_range(samples, i);
        assert(ancestor(samples, i, depth) == ancestor(samples, p, (depth - 1) as nat));
        lemma_reached(forest, samples, p, (depth - 1) as nat, cores, aggregate);
        let tp = choose|tp: int|
            0 <= tp < all.len() && (#[trigger] all[tp]).pid == samples[p].pid && describes(
                all[tp],
                samples,
                p,
                cores,
                aggregate,
            );
        let kids = all[tp].children@;
        assert(has_node(kids, samples[i].pid));
        let k = choose|k: int| 0 <= k < kids.len() && kids[k].pid == samples[i].pid;
        lemma_subtrees_closed(forest, forest.len() as int, tp, k);
        let t = choose|t: int| 0 <= t < all.len() && all[t] == kids[k];
        assert(all[t].pid == samples[i].pid && describes(all[t], samples, i, cores, aggregate));
    }
}

/// Every node of the forest, at whatever depth, is the subtree of a sample
/// of the table, and that sample is anchored.
pub proof fn law_nodes_are_subtrees(
    forest: Seq<ProcessInfo>,
    samples: Seq<ProcessSample>,
    cores: usize,
    aggregate: bool,
)
    requires
        distinct_pids(samples),
        is_forest_of(forest, samples, cores, aggregate),
    ensures
        forall|t: int|
            0 <= t < flatten(forest).len() ==> {
                let node = #[trigger] flatten(forest)[t];
                &&& has_pid(samples, node.pid)
                &&& describes(node, samples, position_of(samples, node.pid), cores, aggregate)
                &&& anchored(samples, position_of(samples, node.pid))
            },
{
    let all = flatten(forest);
    lemma_roots_level(forest, samples, cores, aggregate);
    lemma_subtrees(forest, samples, 0, forest.len() as int, cores, aggregate);
    assert(forest.take(forest.len() as int) =~= forest);
    assert forall|t: int| 0 <= t < all.len() implies {
        let node = #[trigger] all[t];
        &&& has_pid(samples, node.pid)
        &&& describes(node, samples, position_of(samples, node.pid), cores, aggregate)
        &&& anchored(samples, position_of(samples, node.pid))
    } by {
        let node = all[t];
        assert(hangs_in(samples, node, forest, forest.len() as int, 0, cores, aggregate));
        let j = choose|j: int|
            0 <= j < forest.len() && hangs_below(
                samples,
                node,
                position_of(samples, (#[trigger] forest[j]).pid),
                0,
                cores,
                aggregate,
            );
        let top = position_of(samples, forest[j].pid);
        let k = choose|k: nat| hangs_at(samples, node, top, 0, k, cores, aggregate);
        assert(rooted_at_depth(samples, position_of(samples, node.pid), 0 + k));
    }
}

/// No pid occurs twice in a forest.
pub proof fn law_no_pid_twice(
    forest: Seq<ProcessInfo>,
    samples: Seq<ProcessSample>,
    cores: usize,
    aggregate: bool,
)
    requires
        distinct_pids(samples),
        is_forest_of(forest, samples, cores, aggregate),
    ensures
        pids(flatten(forest)).no_duplicates(),
{
    lemma_roots_level(forest, samples, cores, aggregate);
    lemma_subtrees(forest, samples, 0, forest.len() as int, cores, aggregate);
    assert(forest.take(forest.len() as int) =~= forest);
}

/// Where the accepted links contain no cycle, no pid of the table is missing
/// from the forest.
pub proof fn law_no_pid_lost(
    forest: Seq<ProcessInfo>,
    samples: Seq<ProcessSample>,
    cores: usize,
    aggregate: bool,
)
    requires
        distinct_pids(samples),
        acyclic(samples),
        is_forest_of(forest, samples, cores, aggregate),
    ensures
        forall|i: int|
            0 <= i < samples.len() ==> pids(flatten(forest)).contains((#[trigger] samples[i]).pid),
{
    let all = flatten(forest);
    assert forall|i: int| 0 <= i < samples.len() implies pids(all).contains(
        (#[trigger] samples[i]).pid,
    ) by {
        assert(anchored(samples, i));
        let depth = choose|depth: nat| rooted_at_depth(samples, i, depth);
        lemma_reached(forest, samples, i, depth, cores, aggregate);
        let t = choose|t: int|
            0 <= t < all.len() && (#[trigger] all[t]).pid == samples[i].pid && describes(
                all[t],
                samples,
                i,
                cores,
                aggregate,
            );
        assert(pids(all)[t] == samples[i].pid);
    }
}

/// Where the accepted links contain no cycle, the forest holds every pid of
/// the table exactly once: as collections that count their elements, the
/// pids of the forest and the pids of the table are the same.
pub proof fn law_every_pid_exactly_once(
    forest: Seq<ProcessInfo>,
    samples: Seq<ProcessSample>,
    cores: usize,
    aggregate: bool,
)
    requires
        distinct_pids(samples),
        acyclic(samples),
        is_forest_of(forest, samples, cores, aggregate),
    ensures
        pids(flatten(forest)).to_multiset() == sample_pids(samples).to_multiset(),
        flatten(forest).len() == samples.len(),
{
    let found = pids(flatten(forest));
    let given = sample_pids(samples);
    law_no_pid_twice(forest, samples, cores, aggregate);
    law_no_pid_lost(forest, samples, cores, aggregate);
    law_nodes_are_subtrees(forest, samples, cores, aggregate);
    assert(given.no_duplicates());
    found.lemma_multiset_has_no_duplicates();
    given.lemma_multiset_has_no_duplicates();
    found.to_multiset_ensures();
    given.to_multiset_ensures();
    assert forall|pid: u32| found.to_multiset().count(pid) == given.to_multiset().count(pid) by {
        if found.contains(pid) {
            let t = choose|t: int| 0 <= t < found.len() && found[t] == pid;
            let node = flatten(forest)[t];
            assert(has_pid(samples, node.pid));
            let i = position_of(samples, pid);
            assert(given[i] == pid);
        } else if given.contains(pid) {
            let i = choose|i: int| 0 <= i < given.len() && given[i] == pid;
            assert(found.contains(samples[i].pid));
        }
    }
    assert(found.to_multiset() =~= given.to_multiset());
}

/// No node of a forest is reachable from itself: its pid does not occur among
/// its descendants.
pub proof fn law_no_node_below_itself(
    forest: Seq<ProcessInfo>,
    samples: Seq<ProcessSample>,
    cores: usize,
    aggregate: bool,
)
    requires
        distinct_pids(samples),
        is_forest_of(forest, samples, cores, aggregate),
    ensures
        forall|t: int|
            0 <= t < flatten(forest).len() ==> !pids(
                flatten((#[trigger] flatten(forest)[t]).children@),
            ).contains(flatten(forest)[t].pid),
{
    let all = flatten(forest);
    law_nodes_are_subtrees(forest, samples, cores, aggregate);
    assert forall|t: int| 0 <= t < all.len() implies !pids(
        flatten((#[trigger] all[t]).children@),
    ).contains(all[t].pid) by {
        let node = all[t];
        let at = position_of(samples, node.pid);
        let below = pids(flatten(node.children@));
        let depth = choose|depth: nat| rooted_at_depth(samples, at, depth);
        lemma_subtree(node, samples, at, depth, cores, aggregate);
        if below.contains(node.pid) {
            let u = choose|u: int| 0 <= u < below.len() && below[u] == node.pid;
            assert(pids(flatten_node(node))[0] == node.pid);
            assert(pids(flatten_node(node))[u + 1] == below[u]);
        }
    }
}

/// A sample whose link to its declared parent is rejected stands among the
/// roots and is the child of no node.
proof fn lemma_rejected_link(
    forest: Seq<ProcessInfo>,
    samples: Seq<ProcessSample>,
    child: int,
    cores: usize,
    aggregate: bool,
)
    requires
        distinct_pids(samples),
        is_forest_of(forest, samples, cores, aggregate),
        0 <= child < samples.len(),
        is_root(samples, child),
    ensures
        has_node(forest, samples[child].pid),
        forall|t: int|
            0 <= t < flatten(forest).len() ==> !has_node(
                (#[trigger] flatten(forest)[t]).children@,
                samples[child].pid,
            ),
{
    let all = flatten(forest);
    law_nodes_are_subtrees(forest, samples, cores, aggregate);
    lemma_position_of_own_pid(samples, child);
    assert forall|t: int| 0 <= t < all.len() implies !has_node(
        (#[trigger] all[t]).children@,
        samples[child].pid,
    ) by {
        let kids = all[t].children@;
        if has_node(kids, samples[child].pid) {
            let k = choose|k: int| 0 <= k < kids.len() && kids[k].pid == samples[child].pid;
            assert(parent_of(samples, position_of(samples, kids[k].pid)) is Some);
        }
    }
}

/// A sample that started before the process it names as parent is placed at
/// the root and under no node, that parent included.
pub proof fn law_older_child_is_root(
    forest: Seq<ProcessInfo>,
    samples: Seq<ProcessSample>,
    child: int,
    parent: int,
    cores: usize,
    aggregate: bool,
)
    requires
        distinct_pids(samples),
        is_forest_of(forest, samples, cores, aggregate),
        0 <= child < samples.len(),
        0 <= parent < samples.len(),
        samples[child].parent == Some(samples[parent].pid),
        samples[child].start_time < samples[parent].start_time,
    ensures
        has_node(forest, samples[child].pid),
        forall|t: int|
            0 <= t < flatten(forest).len() ==> !has_node(
                (#[trigger] flatten(forest)[t]).children@,
                samples[child].pid,
            ),
{
    lemma_position_of_own_pid(samples, parent);
    lemma_rejected_link(forest, samples, child, cores, aggregate);
}

/// Two samples whose start times are both unknown are never linked, whatever
/// parent the one declares: it is placed at the root and under no node.
pub proof fn law_unknown_start_times_never_linked(
    forest: Seq<ProcessInfo>,
    samples: Seq<ProcessSample>,
    child: int,
    parent: int,
    cores: usize,
    aggregate: bool,
)
    requires
        distinct_pids(samples),
        is_forest_of(forest, samples, cores, aggregate),
        0 <= child < samples.len(),
        0 <= parent < samples.len(),
        samples[child].parent == Some(samples[parent].pid),
        samples[child].start_time == 0,
        samples[parent].start_time == 0,
    ensures
        has_node(forest, samples[child].pid),
        forall|t: int|
            0 <= t < flatten(forest).len() ==> !has_node(
                (#[trigger] flatten(forest)[t]).children@,
                samples[child].pid,
            ),
{
    lemma_position_of_own_pid(samples, parent);
    lemma_rejected_link(forest, samples, child, cores, aggregate);
}

/// The roots, and the children of every node, stand in non-increasing order
/// of their CPU aggregate.
pub proof fn law_siblings_ranked(
    forest: Seq<ProcessInfo>,
    samples: Seq<ProcessSample>,
    cores: usize,
    aggregate: bool,
)
    requires
        distinct_pids(samples),
        is_forest_of(forest, samples, cores, aggregate),
    ensures
        ranked(forest),
        forall|t: int|
            0 <= t < flatten(forest).len() ==> ranked((#[trigger] flatten(forest)[t]).children@),
{
    law_nodes_are_subtrees(forest, samples, cores, aggregate);
}

/// The sum of two sequences laid end to end is the sum of their sums.
pub proof fn lemma_sum_of_concat(a: Seq<u64>, b: Seq<u64>)
    ensures
        sum_of(a + b) == sum_of(a) + sum_of(b),
    decreases b.len(),
{
    if b.len() == 0 {
        assert(a + b =~= a);
    } else {
        lemma_sum_of_concat(a, b.drop_last());
        assert((a + b).drop_last() =~= a + b.drop_last());
        assert((a + b).last() == b.last());
    }
}

/// The aggregate that `total` reads off `node` is the node's own figure, read
/// by `own`, plus the aggregates of its children, capped.
spec fn adds_up(
    node: ProcessInfo,
    own: spec_fn(ProcessInfo) -> u64,
    total: spec_fn(ProcessInfo) -> u64,
) -> bool {
    total(node) == capped(own(node) as nat + sum_of(node.children@.map_values(total)))
}

/// Every node of the subtree adds up.
spec fn adds_up_throughout(
    node: ProcessInfo,
    own: spec_fn(ProcessInfo) -> u64,
    total: spec_fn(ProcessInfo) -> u64,
) -> bool
    decreases node,
{
    &&& adds_up(node, own, total)
    &&& forall|k: int|
        0 <= k < node.children@.len() ==> adds_up_throughout(
            #[trigger] node.children@[k],
            own,
            total,
        )
}

/// Where every node adds up, the aggregate of a node is the capped sum of the
/// own figures of the node and all its descendants.
proof fn lemma_aggregate_is_subtree_sum(
    node: ProcessInfo,
    own: spec_fn(ProcessInfo) -> u64,
    total: spec_fn(ProcessInfo) -> u64,
)
    requires
        adds_up_throughout(node, own, total),
    ensures
        total(node) == capped(sum_of(flatten_node(node).map_values(own))),
    decreases node, 1nat, 0nat,
{
    let kids = node.children@;
    lemma_aggregates_are_subtree_sums(kids, kids.len() as int, own, total);
    assert(kids.take(kids.len() as int) =~= kids);
    assert(flatten_node(node).map_values(own) =~= seq![own(node)] + flatten(kids).map_values(
        own,
    ));
    lemma_sum_of_concat(seq![own(node)], flatten(kids).map_values(own));
    assert(sum_of(seq![own(node)]) == own(node)) by {
        assert(seq![own(node)].drop_last() =~= Seq::<u64>::empty());
        assert(sum_of(Seq::<u64>::empty()) == 0);
    }
}

/// Where every node adds up, the capped sum of the aggregates of a list of
/// nodes is the capped sum of the own figures of all nodes below the list.
proof fn lemma_aggregates_are_subtree_sums(
    nodes: Seq<ProcessInfo>,
    m: int,
    own: spec_fn(ProcessInfo) -> u64,
    total: spec_fn(ProcessInfo) -> u64,
)
    requires
        0 <= m <= nodes.len(),
        forall|k: int| 0 <= k < nodes.len() ==> adds_up_throughout(#[trigger] nodes[k], own, total),
    ensures
        capped(sum_of(nodes.take(m).map_values(total))) == capped(
            sum_of(flatten(nodes.take(m)).map_values(own)),
        ),
    decreases nodes, 0nat, m,
{
    if m == 0 {
        assert(nodes.take(0) =~= Seq::<ProcessInfo>::empty());
        assert(nodes.take(0).map_values(total) =~= Seq::<u64>::empty());
        assert(flatten(nodes.take(0)).map_values(own) =~= Seq::<u64>::empty());
    } else {
        let last = nodes[m - 1];
        lemma_aggregates_are_subtree_sums(nodes, m - 1, own, total);
        lemma_aggregate_is_subtree_sum(last, own, total);
        lemma_flatten_step(nodes, m - 1);
        let head = flatten(nodes.take(m - 1)).map_values(own);
        let tail = flatten_node(last).map_values(own);
        assert(flatten(nodes.take(m)).map_values(own) =~= head + tail);
        lemma_sum_of_concat(head, tail);
        assert(nodes.take(m).map_values(total).drop_last() =~= nodes.take(m - 1).map_values(
            total,
        ));
        assert(nodes.take(m).map_values(total).last() == total(last));
    }
}

/// Every node of the subtree follows the aggregation policy.
spec fn aggregated_throughout(node: ProcessInfo) -> bool
    decreases node,
{
    &&& aggregates_ok(node, true)
    &&& forall|k: int|
        0 <= k < node.children@.len() ==> aggregated_throughout(#[trigger] node.children@[k])
}

/// `node` is the subtree of sample `i` under the aggregation policy.
#[verifier::opaque]
spec fn summed_subtree(
    node: ProcessInfo,
    samples: Seq<ProcessSample>,
    i: int,
    cores: usize,
) -> bool {
    describes(node, samples, i, cores, true)
}

/// A subtree under the aggregation policy follows the policy at its top, and
/// its children are subtrees under the policy.
proof fn lemma_summed_subtree(node: ProcessInfo, samples: Seq<ProcessSample>, i: int, cores: usize)
    requires
        summed_subtree(node, samples, i, cores),
    ensures
        aggregates_ok(node, true),
        forall|k: int|
            0 <= k < node.children@.len() ==> summed_subtree(
                #[trigger] node.children@[k],
                samples,
                position_of(samples, node.children@[k].pid),
                cores,
            ),
{
    reveal(summed_subtree);
}

/// A subtree built under the aggregation policy follows it throughout.
proof fn lemma_described_aggregates(
    node: ProcessInfo,
    samples: Seq<ProcessSample>,
    i: int,
    cores: usize,
)
    requires
        summed_subtree(node, samples, i, cores),
    ensures
        aggregated_throughout(node),
    decreases node,
{
    let kids = node.children@;
    lemma_summed_subtree(node, samples, i, cores);
    assert forall|k: int| 0 <= k < kids.len() implies aggregated_throughout(
        #[trigger] kids[k],
    ) by {
        lemma_described_aggregates(kids[k], samples, position_of(samples, kids[k].pid), cores);
    }
}

/// Following the policy throughout is adding up throughout, in the CPU
/// figure.
proof fn lemma_cpu_adds_up(node: ProcessInfo)
    requires
        aggregated_throughout(node),
    ensures
        adds_up_throughout(
            node,
            |n: ProcessInfo| n.cpu_usage,
            |n: ProcessInfo| n.total_cpu_usage,
        ),
    decreases node,
{
    let kids = node.children@;
    assert forall|k: int| 0 <= k < kids.len() implies adds_up_throughout(
        #[trigger] kids[k],
        |n: ProcessInfo| n.cpu_usage,
        |n: ProcessInfo| n.total_cpu_usage,
    ) by {
        lemma_cpu_adds_up(kids[k]);
    }
    assert(kids.map_values(|n: ProcessInfo| n.total_cpu_usage) =~= total_cpus(kids));
}

/// Following the policy throughout is adding up throughout, in the memory
/// figure.
proof fn lemma_memory_adds_up(node: ProcessInfo)
    requires
        aggregated_throughout(node),
    ensures
        adds_up_throughout(
            node,
            |n: ProcessInfo| n.memory_usage,
            |n: ProcessInfo| n.total_memory_usage,
        ),
    decreases node,
{
    let kids = node.children@;
    assert forall|k: int| 0 <= k < kids.len() implies adds_up_throughout(
        #[trigger] kids[k],
        |n: ProcessInfo| n.memory_usage,
        |n: ProcessInfo| n.total_memory_usage,
    ) by {
        lemma_memory_adds_up(kids[k]);
    }
    assert(kids.map_values(|n: ProcessInfo| n.total_memory_usage) =~= total_memories(kids));
}

/// Following the policy throughout is adding up throughout, in the disk-read
/// figure.
proof fn lemma_disk_read_adds_up(node: ProcessInfo)
    requires
        aggregated_throughout(node),
    ensures
        adds_up_throughout(
            node,
            |n: ProcessInfo| n.disk_read,
            |n: ProcessInfo| n.total_disk_read,
        ),
    decreases node,
{
    let kids = node.children@;
    assert forall|k: int| 0 <= k < kids.len() implies adds_up_throughout(
        #[trigger] kids[k],
        |n: ProcessInfo| n.disk_read,
        |n: ProcessInfo| n.total_disk_read,
    ) by {
        lemma_disk_read_adds_up(kids[k]);
    }
    assert(kids.map_values(|n: ProcessInfo| n.total_disk_read) =~= total_disk_reads(kids));
}

/// Following the policy throughout is adding up throughout, in the disk-write
/// figure.
proof fn lemma_disk_write_adds_up(node: ProcessInfo)
    requires
        aggregated_throughout(node),
    ensures
        adds_up_throughout(
            node,
            |n: ProcessInfo| n.disk_write,
            |n: ProcessInfo| n.total_disk_write,
        ),
    decreases node,
{
    let kids = node.children@;
    assert forall|k: int| 0 <= k < kids.len() implies adds_up_throughout(
        #[trigger] kids[k],
        |n: ProcessInfo| n.disk_write,
        |n: ProcessInfo| n.total_disk_write,
    ) by {
        lemma_disk_write_adds_up(kids[k]);
    }
    assert(kids.map_values(|n: ProcessInfo| n.total_disk_write) =~= total_disk_writes(kids));
}

/// The CPU figures of the nodes themselves, in order.
pub open spec fn own_cpus(nodes: Seq<ProcessInfo>) -> Seq<u64> {
    nodes.map_values(|n: ProcessInfo| n.cpu_usage)
}

/// The memory figures of the nodes themselves, in order.
pub open spec fn own_memories(nodes: Seq<ProcessInfo>) -> Seq<u64> {
    nodes.map_values(|n: ProcessInfo| n.memory_usage)
}

/// The disk-read figures of the nodes themselves, in order.
pub open spec fn own_disk_reads(nodes: Seq<ProcessInfo>) -> Seq<u64> {
    nodes.map_values(|n: ProcessInfo| n.disk_read)
}

/// The disk-write figures of the nodes themselves, in order.
pub open spec fn own_disk_writes(nodes: Seq<ProcessInfo>) -> Seq<u64> {
    nodes.map_values(|n: ProcessInfo| n.disk_write)
}

/// Under the aggregation policy the aggregates of a node include all its
/// descendants: each is the sum of the figure over the node and everything
/// below it, capped.
pub proof fn law_aggregates_cover_subtree(
    node: ProcessInfo,
    samples: Seq<ProcessSample>,
    i: int,
    cores: usize,
)
    requires
        describes(node, samples, i, cores, true),
    ensures
        node.total_cpu_usage == capped(sum_of(own_cpus(flatten_node(node)))),
        node.total_memory_usage == capped(sum_of(own_memories(flatten_node(node)))),
        node.total_disk_read == capped(sum_of(own_disk_reads(flatten_node(node)))),
        node.total_disk_write == capped(sum_of(own_disk_writes(flatten_node(node)))),
{
    assert(summed_subtree(node, samples, i, cores)) by {
        reveal(summed_subtree);
    }
    lemma_described_aggregates(node, samples, i, cores);
    lemma_cpu_adds_up(node);
    lemma_memory_adds_up(node);
    lemma_disk_read_adds_up(node);
    lemma_disk_write_adds_up(node);
    lemma_aggregate_is_subtree_sum(
        node,
        |n: ProcessInfo| n.cpu_usage,
        |n: ProcessInfo| n.total_cpu_usage,
    );
    lemma_aggregate_is_subtree_sum(
        node,
        |n: ProcessInfo| n.memory_usage,
        |n: ProcessInfo| n.total_memory_usage,
    );
    lemma_aggregate_is_subtree_sum(
        node,
        |n: ProcessInfo| n.disk_read,
        |n: ProcessInfo| n.total_disk_read,
    );
    lemma_aggregate_is_subtree_sum(
        node,
        |n: ProcessInfo| n.disk_write,
        |n: ProcessInfo| n.total_disk_write,
    );
}

/// Under the aggregation policy the sums over the roots are the sums over the
/// whole forest: the published disk figures count every process of the
/// forest once. Without the policy they count the roots alone.
pub proof fn law_forest_totals(
    forest: Seq<ProcessInfo>,
    samples: Seq<ProcessSample>,
    cores: usize,
    aggregate: bool,
)
    requires
        is_forest_of(forest, samples, cores, aggregate),
    ensures
        aggregate ==> totals_of(forest).cpu == capped(sum_of(own_cpus(flatten(forest)))),
        aggregate ==> totals_of(forest).memory == capped(sum_of(own_memories(flatten(forest)))),
        aggregate ==> totals_of(forest).disk_read == capped(
            sum_of(own_disk_reads(flatten(forest))),
        ),
        aggregate ==> totals_of(forest).disk_write == capped(
            sum_of(own_disk_writes(flatten(forest))),
        ),
        !aggregate ==> totals_of(forest).cpu == capped(sum_of(own_cpus(forest))),
        !aggregate ==> totals_of(forest).memory == capped(sum_of(own_memories(forest))),
        !aggregate ==> totals_of(forest).disk_read == capped(sum_of(own_disk_reads(forest))),
        !aggregate ==> totals_of(forest).disk_write == capped(sum_of(own_disk_writes(forest))),
{
    let whole = forest.len() as int;
    assert(forest.take(whole) =~= forest);
    if aggregate {
        assert forall|k: int| 0 <= k < forest.len() implies {
            &&& adds_up_throughout(
                #[trigger] forest[k],
                |n: ProcessInfo| n.cpu_usage,
                |n: ProcessInfo| n.total_cpu_usage,
            )
            &&& adds_up_throughout(
                forest[k],
                |n: ProcessInfo| n.memory_usage,
                |n: ProcessInfo| n.total_memory_usage,
            )
            &&& adds_up_throughout(
                forest[k],
                |n: ProcessInfo| n.disk_read,
                |n: ProcessInfo| n.total_disk_read,
            )
            &&& adds_up_throughout(
                forest[k],
                |n: ProcessInfo| n.disk_write,
                |n: ProcessInfo| n.total_disk_write,
            )
        } by {
            assert(summed_subtree(forest[k], samples, position_of(samples, forest[k].pid), cores))
                by {
                reveal(summed_subtree);
            }
            lemma_described_aggregates(
                forest[k],
                samples,
                position_of(samples, forest[k].pid),
                cores,
            );
            lemma_cpu_adds_up(forest[k]);
            lemma_memory_adds_up(forest[k]);
            lemma_disk_read_adds_up(forest[k]);
            lemma_disk_write_adds_up(forest[k]);
        }
        lemma_aggregates_are_subtree_sums(
            forest,
            whole,
            |n: ProcessInfo| n.cpu_usage,
            |n: ProcessInfo| n.total_cpu_usage,
        );
        lemma_aggregates_are_subtree_sums(
            forest,
            whole,
            |n: ProcessInfo| n.memory_usage,
            |n: ProcessInfo| n.total_memory_usage,
        );
        lemma_aggregates_are_subtree_sums(
            forest,
            whole,
            |n: ProcessInfo| n.disk_read,
            |n: ProcessInfo| n.total_disk_read,
        );
        lemma_aggregates_are_subtree_sums(
            forest,
            whole,
            |n: ProcessInfo| n.disk_write,
            |n: ProcessInfo| n.total_disk_write,
        );
    } else {
        assert(total_cpus(forest) =~= own_cpus(forest));
        assert(total_memories(forest) =~= own_memories(forest));
        assert(total_disk_reads(forest) =~= own_disk_reads(forest));
        assert(total_disk_writes(forest) =~= own_disk_writes(forest));
    }
}

} // verus!
