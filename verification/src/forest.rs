//! Building the process forest of one tick.
//!
//! Every sample becomes a node. A node hangs below the sample that
//! [`parent_of`] accepts as its parent and is a root when there is none.
//! Siblings are ranked by their CPU aggregate, highest first; equal aggregates
//! keep the order of the table.

use crate::lineage::{
    accepts_edge, is_root, lemma_child_depth, lemma_depth_bounded, lemma_position_of_own_pid,
    parent_of, rooted_at_depth,
};
use crate::models::ProcessInfo;
use crate::snapshot::{distinct_pids, has_pid, position_of, ProcessSample, ProcessTable};
use vstd::prelude::*;

verus! {

/// A raw CPU reading divided by the core count (rounded down), so that the
/// figure reads 0–100 % on every machine. A machine reporting no cores leaves
/// the reading as it is.
pub open spec fn normalized(raw: u64, cores: usize) -> u64 {
    if cores == 0 {
        raw
    } else {
        (raw as int / cores as int) as u64
    }
}

/// Computes [`normalized`].
pub fn normalize_cpu(raw: u64, cores: usize) -> (shown: u64)
    ensures
        shown == normalized(raw, cores),
{
    if cores == 0 {
        raw
    } else {
        raw / (cores as u64)
    }
}

/// A reading of at most 100 % per core shows as at most 100 %.
pub proof fn law_normalized_in_range(raw: u64, cores: usize)
    requires
        cores > 0,
        raw <= 100_000 * cores,
    ensures
        normalized(raw, cores) <= 100_000,
{
    assert(raw as int / cores as int <= 100_000) by (nonlinear_arith)
        requires
            cores > 0,
            raw <= 100_000 * cores,
    ;
}

/// The sum of a sequence of counters, without bound.
pub open spec fn sum_of(values: Seq<u64>) -> nat
    decreases values.len(),
{
    if values.len() == 0 {
        0
    } else {
        sum_of(values.drop_last()) + values.last() as nat
    }
}

/// A sum as a 64-bit counter holds it: capped at the largest value.
pub open spec fn capped(sum: nat) -> u64 {
    if sum > u64::MAX {
        u64::MAX
    } else {
        sum as u64
    }
}

/// The CPU aggregates of `nodes`, in order.
pub open spec fn total_cpus(nodes: Seq<ProcessInfo>) -> Seq<u64> {
    nodes.map_values(|n: ProcessInfo| n.total_cpu_usage)
}

/// The memory aggregates of `nodes`, in order.
pub open spec fn total_memories(nodes: Seq<ProcessInfo>) -> Seq<u64> {
    nodes.map_values(|n: ProcessInfo| n.total_memory_usage)
}

/// The disk-read aggregates of `nodes`, in order.
pub open spec fn total_disk_reads(nodes: Seq<ProcessInfo>) -> Seq<u64> {
    nodes.map_values(|n: ProcessInfo| n.total_disk_read)
}

/// The disk-write aggregates of `nodes`, in order.
pub open spec fn total_disk_writes(nodes: Seq<ProcessInfo>) -> Seq<u64> {
    nodes.map_values(|n: ProcessInfo| n.total_disk_write)
}

/// The four aggregates of a list of nodes.
#[derive(Clone, Copy, Debug, PartialEq, Eq)]
pub struct Totals {
    pub cpu: u64,
    pub memory: u64,
    pub disk_read: u64,
    pub disk_write: u64,
}

/// The capped sums of the aggregates of `nodes`.
pub open spec fn totals_of(nodes: Seq<ProcessInfo>) -> Totals {
    Totals {
        cpu: capped(sum_of(total_cpus(nodes))),
        memory: capped(sum_of(total_memories(nodes))),
        disk_read: capped(sum_of(total_disk_reads(nodes))),
        disk_write: capped(sum_of(total_disk_writes(nodes))),
    }
}

/// Adding to a capped sum and capping again is capping the whole sum.
pub proof fn lemma_capped_add(sum: nat, more: u64)
    ensures
        capped(capped(sum) as nat + more as nat) == capped(sum + more as nat),
{
}

/// Sums up the aggregates of `nodes`; each sum stops at `u64::MAX`.
pub fn sum_totals(nodes: &Vec<ProcessInfo>) -> (totals: Totals)
    ensures
        totals == totals_of(nodes@),
{
    let mut cpu: u64 = 0;
    let mut memory: u64 = 0;
    let mut disk_read: u64 = 0;
    let mut disk_write: u64 = 0;
    let mut k: usize = 0;
    while k < nodes.len()
        invariant
            k <= nodes.len(),
            cpu == capped(sum_of(total_cpus(nodes@.take(k as int)))),
            memory == capped(sum_of(total_memories(nodes@.take(k as int)))),
            disk_read == capped(sum_of(total_disk_reads(nodes@.take(k as int)))),
            disk_write == capped(sum_of(total_disk_writes(nodes@.take(k as int)))),
        decreases nodes.len() - k,
    {
        proof {
            let before = nodes@.take(k as int);
            let after = nodes@.take(k + 1);
            assert(after.drop_last() =~= before);
            assert(total_cpus(after).drop_last() =~= total_cpus(before));
            assert(total_memories(after).drop_last() =~= total_memories(before));
            assert(total_disk_reads(after).drop_last() =~= total_disk_reads(before));
            assert(total_disk_writes(after).drop_last() =~= total_disk_writes(before));
            lemma_capped_add(sum_of(total_cpus(before)), nodes@[k as int].total_cpu_usage);
            lemma_capped_add(sum_of(total_memories(before)), nodes@[k as int].total_memory_usage);
            lemma_capped_add(sum_of(total_disk_reads(before)), nodes@[k as int].total_disk_read);
            lemma_capped_add(sum_of(total_disk_writes(before)), nodes@[k as int].total_disk_write);
        }
        let node = &nodes[k];
        cpu = cpu.saturating_add(node.total_cpu_usage);
        memory = memory.saturating_add(node.total_memory_usage);
        disk_read = disk_read.saturating_add(node.total_disk_read);
        disk_write = disk_write.saturating_add(node.total_disk_write);
        k += 1;
    }
    assert(nodes@.take(k as int) =~= nodes@);
    Totals { cpu, memory, disk_read, disk_write }
}

/// `nodes` are in rank order as far as the aggregates tell: no node has a
/// higher CPU aggregate than one before it.
pub open spec fn ranked(nodes: Seq<ProcessInfo>) -> bool {
    forall|a: int, b: int|
        0 <= a < b < nodes.len() ==> nodes[a].total_cpu_usage >= nodes[b].total_cpu_usage
}

/// Where a node with CPU aggregate `cpu` enters a ranked list: behind every
/// node whose aggregate is at least `cpu`, before every node below it.
pub open spec fn entry_point(nodes: Seq<ProcessInfo>, cpu: u64, at: int) -> bool {
    &&& 0 <= at <= nodes.len()
    &&& forall|k: int| 0 <= k < at ==> nodes[k].total_cpu_usage >= cpu
    &&& forall|k: int| at <= k < nodes.len() ==> nodes[k].total_cpu_usage < cpu
}

/// Puts `node` into the ranked list `nodes` at its entry point and returns
/// that position. Nodes already listed keep their order.
pub fn insert_ranked(nodes: &mut Vec<ProcessInfo>, node: ProcessInfo) -> (at: usize)
    requires
        ranked(old(nodes)@),
    ensures
        entry_point(old(nodes)@, node.total_cpu_usage, at as int),
        final(nodes)@ == old(nodes)@.insert(at as int, node),
        ranked(final(nodes)@),
{
    let cpu = node.total_cpu_usage;
    let mut at: usize = 0;
    while at < nodes.len() && nodes[at].total_cpu_usage >= cpu
        invariant
            at <= nodes.len(),
            forall|k: int| 0 <= k < at ==> nodes@[k].total_cpu_usage >= cpu,
        decreases nodes.len() - at,
    {
        at += 1;
    }
    nodes.insert(at, node);
    at
}

/// `found` is the accepted parent of sample `i`, as a machine index.
spec fn resolves(found: Option<usize>, samples: Seq<ProcessSample>, i: int) -> bool {
    match found {
        None => parent_of(samples, i) is None,
        Some(p) => parent_of(samples, i) == Some(p as int),
    }
}

/// The accepted parent of every sample of `table`.
fn resolve_parents(table: &ProcessTable) -> (parents: Vec<Option<usize>>)
    ensures
        parents@.len() == table@.len(),
        forall|i: int| 0 <= i < table@.len() ==> resolves(#[trigger] parents@[i], table@, i),
{
    let samples = table.samples();
    let mut parents: Vec<Option<usize>> = Vec::new();
    let mut i: usize = 0;
    while i < samples.len()
        invariant
            i <= samples.len(),
            samples@ == table@,
            parents@.len() == i,
            forall|x: int| 0 <= x < i ==> resolves(#[trigger] parents@[x], table@, x),
        decreases samples.len() - i,
    {
        let sample = &samples[i];
        let found = match sample.parent {
            None => None,
            Some(pid) => match table.position(pid) {
                None => None,
                Some(p) => if accepts_edge(samples[p].start_time, sample.start_time) {
                    Some(p)
                } else {
                    None
                },
            },
        };
        parents.push(found);
        i += 1;
    }
    parents
}

/// The positions below `limit` whose accepted parent is `who`, ascending.
spec fn members(parents: Seq<Option<usize>>, who: Option<usize>, limit: int) -> Seq<usize>
    decreases limit,
{
    if limit <= 0 {
        Seq::empty()
    } else if parents[limit - 1] == who {
        members(parents, who, limit - 1).push((limit - 1) as usize)
    } else {
        members(parents, who, limit - 1)
    }
}

/// Every member is a position below `limit` with parent `who`, and the members
/// ascend.
proof fn lemma_members_sound(parents: Seq<Option<usize>>, who: Option<usize>, limit: int)
    requires
        0 <= limit <= parents.len(),
        parents.len() <= usize::MAX,
    ensures
        forall|k: int|
            0 <= k < members(parents, who, limit).len() ==> {
                let m = #[trigger] members(parents, who, limit)[k];
                m < limit && parents[m as int] == who
            },
        forall|a: int, b: int|
            0 <= a < b < members(parents, who, limit).len() ==> members(parents, who, limit)[a]
                < members(parents, who, limit)[b],
    decreases limit,
{
    if limit > 0 {
        lemma_members_sound(parents, who, limit - 1);
    }
}

/// Every position below `limit` with parent `who` is a member.
proof fn lemma_members_complete(
    parents: Seq<Option<usize>>,
    who: Option<usize>,
    limit: int,
    i: int,
)
    requires
        0 <= i < limit <= parents.len() <= usize::MAX,
        parents[i] == who,
    ensures
        members(parents, who, limit).contains(i as usize),
    decreases limit,
{
    if i == limit - 1 {
        let all = members(parents, who, limit);
        assert(all[all.len() - 1] == i as usize);
    } else {
        lemma_members_complete(parents, who, limit - 1, i);
        let fewer = members(parents, who, limit - 1);
        let k = choose|k: int| 0 <= k < fewer.len() && fewer[k] == i as usize;
        assert(members(parents, who, limit)[k] == i as usize);
    }
}

/// Sorts the positions by accepted parent: `kids[j]` are the positions whose
/// parent is `j`, `roots` those without one, each in table order.
fn group_children(parents: &Vec<Option<usize>>) -> (groups: (Vec<Vec<usize>>, Vec<usize>))
    requires
        forall|i: int|
            0 <= i < parents@.len() ==> (#[trigger] parents@[i] matches Some(p) ==> p
                < parents@.len()),
    ensures
        groups.0@.len() == parents@.len(),
        forall|j: int|
            0 <= j < parents@.len() ==> (#[trigger] groups.0@[j])@ == members(
                parents@,
                Some(j as usize),
                parents@.len() as int,
            ),
        groups.1@ == members(parents@, None, parents@.len() as int),
{
    let n = parents.len();
    let mut kids: Vec<Vec<usize>> = Vec::new();
    let mut j: usize = 0;
    while j < n
        invariant
            j <= n,
            kids@.len() == j,
            forall|x: int| 0 <= x < j ==> (#[trigger] kids@[x])@ == Seq::<usize>::empty(),
        decreases n - j,
    {
        kids.push(Vec::new());
        j += 1;
    }
    let mut roots: Vec<usize> = Vec::new();
    let mut i: usize = 0;
    while i < n
        invariant
            i <= n,
            n == parents@.len(),
            kids@.len() == n,
            forall|x: int|
                0 <= x < n ==> (#[trigger] parents@[x] matches Some(p) ==> p < n),
            forall|x: int|
                0 <= x < n ==> (#[trigger] kids@[x])@ == members(
                    parents@,
                    Some(x as usize),
                    i as int,
                ),
            roots@ == members(parents@, None, i as int),
        decreases n - i,
    {
        match parents[i] {
            None => {
                roots.push(i);
            },
            Some(p) => {
                kids[p].push(i);
            },
        }
        i += 1;
    }
    (kids, roots)
}

/// What a node shows of its own sample.
pub open spec fn shows(node: ProcessInfo, sample: ProcessSample, cores: usize) -> bool {
    &&& node.pid == sample.pid
    &&& node.name@ == sample.name@
    &&& node.cpu_usage == normalized(sample.cpu_usage, cores)
    &&& node.memory_usage == sample.memory_usage
    &&& node.disk_read == sample.disk_read
    &&& node.disk_write == sample.disk_write
    &&& node.thread_count == sample.thread_count
}

/// The aggregation policy: with `aggregate`, a node's aggregates are its own
/// figures plus the aggregates of its children (capped); without, they are its
/// own figures.
pub open spec fn aggregates_ok(node: ProcessInfo, aggregate: bool) -> bool {
    if aggregate {
        &&& node.total_cpu_usage == capped(
            node.cpu_usage as nat + sum_of(total_cpus(node.children@)),
        )
        &&& node.total_memory_usage == capped(
            node.memory_usage as nat + sum_of(total_memories(node.children@)),
        )
        &&& node.total_disk_read == capped(
            node.disk_read as nat + sum_of(total_disk_reads(node.children@)),
        )
        &&& node.total_disk_write == capped(
            node.disk_write as nat + sum_of(total_disk_writes(node.children@)),
        )
    } else {
        &&& node.total_cpu_usage == node.cpu_usage
        &&& node.total_memory_usage == node.memory_usage
        &&& node.total_disk_read == node.disk_read
        &&& node.total_disk_write == node.disk_write
    }
}

/// The rank order among siblings: higher CPU aggregate first, and among equal
/// aggregates the sample that stands earlier in the table.
pub open spec fn ranks_before(samples: Seq<ProcessSample>, a: ProcessInfo, b: ProcessInfo) -> bool {
    a.total_cpu_usage > b.total_cpu_usage || (a.total_cpu_usage == b.total_cpu_usage
        && position_of(samples, a.pid) < position_of(samples, b.pid))
}

/// Whether one of `nodes` carries `pid`.
pub open spec fn has_node(nodes: Seq<ProcessInfo>, pid: u32) -> bool {
    exists|k: int| 0 <= k < nodes.len() && nodes[k].pid == pid
}

/// `node` is the subtree of sample `i`: it shows that sample, follows the
/// aggregation policy, and its children are exactly the samples whose accepted
/// parent is `i`, each with its own subtree, in rank order.
pub open spec fn describes(
    node: ProcessInfo,
    samples: Seq<ProcessSample>,
    i: int,
    cores: usize,
    aggregate: bool,
) -> bool
    decreases node, 1nat,
{
    &&& 0 <= i < samples.len()
    &&& shows(node, samples[i], cores)
    &&& aggregates_ok(node, aggregate)
    &&& listed_below(node.children@, samples, Some(i), samples.len() as int, cores, aggregate)
}

/// `nodes` are exactly the samples standing before `limit` whose accepted
/// parent is `parent` (the roots, for `None`), each once and with its subtree,
/// in rank order.
pub open spec fn listed_below(
    nodes: Seq<ProcessInfo>,
    samples: Seq<ProcessSample>,
    parent: Option<int>,
    limit: int,
    cores: usize,
    aggregate: bool,
) -> bool
    decreases nodes, 0nat,
{
    &&& forall|k: int|
        0 <= k < nodes.len() ==> {
            let at = position_of(samples, (#[trigger] nodes[k]).pid);
            &&& has_pid(samples, nodes[k].pid)
            &&& at < limit
            &&& parent_of(samples, at) == parent
            &&& describes(nodes[k], samples, at, cores, aggregate)
        }
    &&& forall|i: int|
        0 <= i < limit && i < samples.len() && parent_of(samples, i) == parent ==> has_node(
            nodes,
            (#[trigger] samples[i]).pid,
        )
    &&& forall|a: int, b: int|
        0 <= a < b < nodes.len() ==> (#[trigger] nodes[a]).pid != (#[trigger] nodes[b]).pid
            && ranks_before(samples, nodes[a], nodes[b])
}

/// `nodes` are exactly the samples whose accepted parent is `parent`, each
/// with its subtree, in rank order.
pub open spec fn listed(
    nodes: Seq<ProcessInfo>,
    samples: Seq<ProcessSample>,
    parent: Option<int>,
    cores: usize,
    aggregate: bool,
) -> bool {
    listed_below(nodes, samples, parent, samples.len() as int, cores, aggregate)
}

/// The forest of a tick: the roots with their subtrees.
pub open spec fn is_forest_of(
    forest: Seq<ProcessInfo>,
    samples: Seq<ProcessSample>,
    cores: usize,
    aggregate: bool,
) -> bool {
    listed(forest, samples, None, cores, aggregate)
}

/// What stands where after an insertion.
proof fn lemma_insert_index(nodes: Seq<ProcessInfo>, at: int, node: ProcessInfo, k: int)
    requires
        0 <= at <= nodes.len(),
        0 <= k <= nodes.len(),
    ensures
        nodes.insert(at, node).len() == nodes.len() + 1,
        nodes.insert(at, node)[k] == if k < at {
            nodes[k]
        } else if k == at {
            node
        } else {
            nodes[k - 1]
        },
{
}

/// Entering the subtree of the next sample with parent `parent` extends the
/// listing up to the sample after it with that parent.
proof fn lemma_listing_grows(
    nodes: Seq<ProcessInfo>,
    samples: Seq<ProcessSample>,
    parent: Option<int>,
    next: int,
    further: int,
    child: ProcessInfo,
    at: int,
    cores: usize,
    aggregate: bool,
)
    requires
        distinct_pids(samples),
        0 <= next < further <= samples.len(),
        listed_below(nodes, samples, parent, next, cores, aggregate),
        parent_of(samples, next) == parent,
        forall|x: int| next < x < further ==> parent_of(samples, x) != parent,
        describes(child, samples, next, cores, aggregate),
        entry_point(nodes, child.total_cpu_usage, at),
    ensures
        listed_below(nodes.insert(at, child), samples, parent, further, cores, aggregate),
{
    let grown = nodes.insert(at, child);
    assert(child.pid == samples[next].pid);
    lemma_position_of_own_pid(samples, next);
    assert forall|k: int| 0 <= k < grown.len() implies {
        let pos = position_of(samples, (#[trigger] grown[k]).pid);
        &&& has_pid(samples, grown[k].pid)
        &&& pos < further
        &&& parent_of(samples, pos) == parent
        &&& describes(grown[k], samples, pos, cores, aggregate)
    } by {
        lemma_insert_index(nodes, at, child, k);
        if k != at {
            let prior = if k < at {
                k
            } else {
                k - 1
            };
            assert(grown[k] == nodes[prior]);
            assert(has_pid(samples, nodes[prior].pid));
            assert(position_of(samples, nodes[prior].pid) < next);
        } else {
            assert(grown[k] == child);
            assert(position_of(samples, child.pid) == next);
        }
    }
    assert forall|i: int|
        0 <= i < further && i < samples.len() && parent_of(samples, i) == parent implies has_node(
        grown,
        (#[trigger] samples[i]).pid,
    ) by {
        if i == next {
            lemma_insert_index(nodes, at, child, at);
        } else {
            assert(has_node(nodes, samples[i].pid));
            let k = choose|k: int| 0 <= k < nodes.len() && nodes[k].pid == samples[i].pid;
            let later = if k < at {
                k
            } else {
                k + 1
            };
            lemma_insert_index(nodes, at, child, later);
        }
    }
    assert forall|a: int, b: int| 0 <= a < b < grown.len() implies (#[trigger] grown[a]).pid != (
    #[trigger] grown[b]).pid && ranks_before(samples, grown[a], grown[b]) by {
        lemma_insert_index(nodes, at, child, a);
        lemma_insert_index(nodes, at, child, b);
        if a == at {
            assert(has_pid(samples, nodes[b - 1].pid));
            assert(nodes[b - 1].total_cpu_usage < child.total_cpu_usage);
        } else if b == at {
            assert(has_pid(samples, nodes[a].pid));
            assert(nodes[a].total_cpu_usage >= child.total_cpu_usage);
        } else {
            let pa = if a < at {
                a
            } else {
                a - 1
            };
            let pb = if b < at {
                b
            } else {
                b - 1
            };
            assert(nodes[pa].pid != nodes[pb].pid && ranks_before(samples, nodes[pa], nodes[pb]));
        }
    }
}

/// The accepted parent as the contracts name it.
spec fn as_position(who: Option<usize>) -> Option<int> {
    match who {
        None => None,
        Some(p) => Some(p as int),
    }
}

/// Where the group's member number `c` stands, or the end of the table when
/// the group has no such member.
spec fn frontier(group: Seq<usize>, c: int, end: int) -> int {
    if c < group.len() {
        group[c] as int
    } else {
        end
    }
}

/// Between two neighbouring members of a group, and before its first and
/// behind its last, no sample has the group's parent.
proof fn lemma_no_member_between(
    samples: Seq<ProcessSample>,
    parents: Seq<Option<usize>>,
    who: Option<usize>,
    c: int,
    x: int,
)
    requires
        parents.len() == samples.len(),
        samples.len() <= usize::MAX,
        0 <= x < samples.len(),
        resolves(parents[x], samples, x),
        0 <= c <= members(parents, who, samples.len() as int).len(),
        x < frontier(members(parents, who, samples.len() as int), c, samples.len() as int),
        c > 0 ==> members(parents, who, samples.len() as int)[c - 1] < x,
    ensures
        parent_of(samples, x) != as_position(who),
{
    let n = samples.len() as int;
    let group = members(parents, who, n);
    if parent_of(samples, x) == as_position(who) {
        assert(parents[x] == who);
        lemma_members_complete(parents, who, n, x);
        lemma_members_sound(parents, who, n);
        let t = choose|t: int| 0 <= t < group.len() && group[t] == x as usize;
        if t < c - 1 {
            assert(group[t] < group[c - 1]);
        } else if t > c {
            assert(group[c] < group[t]);
        }
    }
}

/// Builds the subtree of sample `i`, which lies `depth` links below a root.
fn build_node(
    samples: &Vec<ProcessSample>,
    parents: &Vec<Option<usize>>,
    kids: &Vec<Vec<usize>>,
    i: usize,
    cores: usize,
    aggregate: bool,
    Ghost(depth): Ghost<nat>,
) -> (node: ProcessInfo)
    requires
        i < samples@.len(),
        distinct_pids(samples@),
        parents@.len() == samples@.len(),
        kids@.len() == samples@.len(),
        forall|x: int| 0 <= x < samples@.len() ==> resolves(#[trigger] parents@[x], samples@, x),
        forall|j: int|
            0 <= j < samples@.len() ==> (#[trigger] kids@[j])@ == members(
                parents@,
                Some(j as usize),
                samples@.len() as int,
            ),
        rooted_at_depth(samples@, i as int, depth),
    ensures
        describes(node, samples@, i as int, cores, aggregate),
    decreases samples@.len() - depth,
{
    let sample = &samples[i];
    let group = &kids[i];
    let mut children: Vec<ProcessInfo> = Vec::new();
    let mut c: usize = 0;
    let ghost n = samples@.len() as int;
    proof {
        assert(samples@.len() <= usize::MAX) by {
            assert(samples.len() == samples@.len());
        }
        lemma_members_sound(parents@, Some(i), n);
        lemma_depth_bounded(samples@, i as int, depth);
        assert forall|x: int| 0 <= x < frontier(group@, 0, n) implies parent_of(samples@, x)
            != Some(i as int) by {
            assert(resolves(parents@[x], samples@, x));
            lemma_no_member_between(samples@, parents@, Some(i), 0, x);
        }
    }
    while c < group.len()
        invariant
            c <= group@.len(),
            i < samples@.len() <= usize::MAX,
            n == samples@.len(),
            depth < samples@.len(),
            distinct_pids(samples@),
            parents@.len() == samples@.len(),
            kids@.len() == samples@.len(),
            forall|x: int|
                0 <= x < samples@.len() ==> resolves(#[trigger] parents@[x], samples@, x),
            forall|j: int|
                0 <= j < samples@.len() ==> (#[trigger] kids@[j])@ == members(
                    parents@,
                    Some(j as usize),
                    samples@.len() as int,
                ),
            rooted_at_depth(samples@, i as int, depth),
            group@ == members(parents@, Some(i), n),
            forall|k: int|
                0 <= k < group@.len() ==> (#[trigger] group@[k]) < samples@.len()
                    && parents@[group@[k] as int] == Some(i),
            forall|a: int, b: int| 0 <= a < b < group@.len() ==> group@[a] < group@[b],
            ranked(children@),
            listed_below(
                children@,
                samples@,
                Some(i as int),
                frontier(group@, c as int, n),
                cores,
                aggregate,
            ),
        decreases group@.len() - c,
    {
        let next = group[c];
        proof {
            assert(resolves(parents@[next as int], samples@, next as int));
            lemma_child_depth(samples@, next as int, i as int, depth);
            lemma_depth_bounded(samples@, next as int, depth + 1);
        }
        let child = build_node(samples, parents, kids, next, cores, aggregate, Ghost(depth + 1));
        let ghost listed_before = children@;
        let at = insert_ranked(&mut children, child);
        proof {
            assert forall|x: int| next < x < frontier(group@, c + 1, n) implies parent_of(
                samples@,
                x,
            ) != Some(i as int) by {
                assert(resolves(parents@[x], samples@, x));
                lemma_no_member_between(samples@, parents@, Some(i), c + 1, x);
            }
            if c + 1 < group@.len() {
                assert(group@[c as int] < group@[c + 1]);
            }
            lemma_listing_grows(
                listed_before,
                samples@,
                Some(i as int),
                next as int,
                frontier(group@, c + 1, n),
                child,
                at as int,
                cores,
                aggregate,
            );
        }
        c += 1;
    }
    proof {
        lemma_capped_add(sum_of(total_cpus(children@)), normalized(sample.cpu_usage, cores));
        lemma_capped_add(sum_of(total_memories(children@)), sample.memory_usage);
        lemma_capped_add(sum_of(total_disk_reads(children@)), sample.disk_read);
        lemma_capped_add(sum_of(total_disk_writes(children@)), sample.disk_write);
    }
    let cpu = normalize_cpu(sample.cpu_usage, cores);
    let below = if aggregate {
        sum_totals(&children)
    } else {
        Totals { cpu: 0, memory: 0, disk_read: 0, disk_write: 0 }
    };
    ProcessInfo {
        pid: sample.pid,
        name: sample.name.clone(),
        cpu_usage: cpu,
        total_cpu_usage: below.cpu.saturating_add(cpu),
        memory_usage: sample.memory_usage,
        total_memory_usage: below.memory.saturating_add(sample.memory_usage),
        disk_read: sample.disk_read,
        disk_write: sample.disk_write,
        total_disk_read: below.disk_read.saturating_add(sample.disk_read),
        total_disk_write: below.disk_write.saturating_add(sample.disk_write),
        thread_count: sample.thread_count,
        children,
    }
}

/// Builds the forest of one tick.
///
/// Each sample whose declared parent is missing from the table, or whose link
/// to it the start-time rule rejects, becomes a root; every other sample
/// becomes a child of its declared parent. `cores` scales the CPU readings and
/// `aggregate` is the aggregation policy.
pub fn build_forest(table: &ProcessTable, cores: usize, aggregate: bool) -> (forest: Vec<
    ProcessInfo,
>)
    ensures
        distinct_pids(table@),
        is_forest_of(forest@, table@, cores, aggregate),
{
    let samples = table.samples();
    let parents = resolve_parents(table);
    let (kids, roots) = group_children(&parents);
    let mut forest: Vec<ProcessInfo> = Vec::new();
    let mut r: usize = 0;
    let ghost n = samples@.len() as int;
    proof {
        assert(samples@.len() <= usize::MAX) by {
            assert(samples.len() == samples@.len());
        }
        lemma_members_sound(parents@, None, n);
        assert forall|x: int| 0 <= x < frontier(roots@, 0, n) implies parent_of(samples@, x)
            != None::<int> by {
            assert(resolves(parents@[x], samples@, x));
            lemma_no_member_between(samples@, parents@, None, 0, x);
        }
    }
    while r < roots.len()
        invariant
            r <= roots@.len(),
            samples@ == table@,
            samples@.len() <= usize::MAX,
            n == samples@.len(),
            distinct_pids(samples@),
            parents@.len() == samples@.len(),
            kids@.len() == samples@.len(),
            forall|x: int|
                0 <= x < samples@.len() ==> resolves(#[trigger] parents@[x], samples@, x),
            forall|j: int|
                0 <= j < samples@.len() ==> (#[trigger] kids@[j])@ == members(
                    parents@,
                    Some(j as usize),
                    samples@.len() as int,
                ),
            roots@ == members(parents@, None, n),
            forall|k: int|
                0 <= k < roots@.len() ==> (#[trigger] roots@[k]) < samples@.len()
                    && parents@[roots@[k] as int] == None::<usize>,
            forall|a: int, b: int| 0 <= a < b < roots@.len() ==> roots@[a] < roots@[b],
            ranked(forest@),
            listed_below(forest@, samples@, None, frontier(roots@, r as int, n), cores, aggregate),
        decreases roots@.len() - r,
    {
        let next = roots[r];
        proof {
            assert(resolves(parents@[next as int], samples@, next as int));
            assert(is_root(samples@, next as int));
        }
        let tree = build_node(samples, &parents, &kids, next, cores, aggregate, Ghost(0));
        let ghost listed_before = forest@;
        let at = insert_ranked(&mut forest, tree);
        proof {
            assert forall|x: int| next < x < frontier(roots@, r + 1, n) implies parent_of(
                samples@,
                x,
            ) != None::<int> by {
                assert(resolves(parents@[x], samples@, x));
                lemma_no_member_between(samples@, parents@, None, r + 1, x);
            }
            if r + 1 < roots@.len() {
                assert(roots@[r as int] < roots@[r + 1]);
            }
            lemma_listing_grows(
                listed_before,
                samples@,
                None,
                next as int,
                frontier(roots@, r + 1, n),
                tree,
                at as int,
                cores,
                aggregate,
            );
        }
        r += 1;
    }
    forest
}

} // verus!
