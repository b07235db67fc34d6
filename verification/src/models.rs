//! Plain records exchanged with the presentation layer.

use vstd::prelude::*;

verus! {

/// One node of the process forest.
///
/// CPU figures are fixed-point: thousandths of a percent, already divided by
/// the core count.
#[derive(Debug, PartialEq, Eq)]
pub struct ProcessInfo {
    pub pid: u32,
    pub name: String,
    pub cpu_usage: u64,
    pub total_cpu_usage: u64,
    pub memory_usage: u64,
    pub total_memory_usage: u64,
    pub disk_read: u64,
    pub disk_write: u64,
    pub total_disk_read: u64,
    pub total_disk_write: u64,
    pub thread_count: u64,
    pub children: Vec<ProcessInfo>,
}

/// Every node of a forest, each parent directly before its descendants.
pub open spec fn flatten(forest: Seq<ProcessInfo>) -> Seq<ProcessInfo>
    decreases forest, 0nat,
{
    if forest.len() == 0 {
        Seq::empty()
    } else {
        flatten(forest.drop_last()) + flatten_node(forest.last())
    }
}

/// A node followed by all of its descendants.
pub open spec fn flatten_node(node: ProcessInfo) -> Seq<ProcessInfo>
    decreases node, 1nat,
{
    seq![node] + flatten(node.children@)
}

/// The two trees show the same processes in the same places.
pub open spec fn same_tree(a: ProcessInfo, b: ProcessInfo) -> bool
    decreases a,
{
    &&& a.pid == b.pid
    &&& a.name@ == b.name@
    &&& a.cpu_usage == b.cpu_usage
    &&& a.total_cpu_usage == b.total_cpu_usage
    &&& a.memory_usage == b.memory_usage
    &&& a.total_memory_usage == b.total_memory_usage
    &&& a.disk_read == b.disk_read
    &&& a.disk_write == b.disk_write
    &&& a.total_disk_read == b.total_disk_read
    &&& a.total_disk_write == b.total_disk_write
    &&& a.thread_count == b.thread_count
    &&& a.children@.len() == b.children@.len()
    &&& forall|k: int|
        0 <= k < a.children@.len() ==> same_tree(#[trigger] a.children@[k], b.children@[k])
}

impl Clone for ProcessInfo {
    /// A copy of the node and of everything below it.
    fn clone(&self) -> (copy: Self)
        ensures
            same_tree(copy, *self),
        decreases *self,
    {
        let mut children: Vec<ProcessInfo> = Vec::new();
        let mut k: usize = 0;
        while k < self.children.len()
            invariant
                k <= self.children@.len(),
                children@.len() == k,
                forall|j: int|
                    0 <= j < k ==> same_tree(#[trigger] children@[j], self.children@[j]),
            decreases self.children@.len() - k,
        {
            let child = self.children[k].clone();
            children.push(child);
            k += 1;
        }
        ProcessInfo {
            pid: self.pid,
            name: self.name.clone(),
            cpu_usage: self.cpu_usage,
            total_cpu_usage: self.total_cpu_usage,
            memory_usage: self.memory_usage,
            total_memory_usage: self.total_memory_usage,
            disk_read: self.disk_read,
            disk_write: self.disk_write,
            total_disk_read: self.total_disk_read,
            total_disk_write: self.total_disk_write,
            thread_count: self.thread_count,
            children,
        }
    }
}

/// One reading of a thermal sensor, in thousandths of a degree Celsius.
#[derive(Clone, Debug, PartialEq, Eq)]
pub struct ComponentInfo {
    pub label: String,
    pub temperature: i64,
    pub max_temperature: i64,
    pub critical_temperature: Option<i64>,
}

/// Everything published for one tick.
///
/// CPU figures are thousandths of a percent; network figures are the bytes
/// moved during the tick, not running totals.
#[derive(Clone, Debug, PartialEq, Eq)]
pub struct SystemStats {
    pub cpu_usage: u64,
    pub process_count: usize,
    pub memory_used: u64,
    pub memory_total: u64,
    pub network_up: u64,
    pub network_down: u64,
    pub disk_read: u64,
    pub disk_write: u64,
    pub gpu_usage: Option<u64>,
    pub components: Vec<ComponentInfo>,
    pub top_processes: Vec<ProcessInfo>,
}

/// A program that the desktop session starts on login.
#[derive(Clone, Debug, PartialEq, Eq)]
pub struct StartupApp {
    pub name: String,
    pub path: String,
    pub enabled: bool,
}

/// A listening socket and the process that owns it.
#[derive(Clone, Debug, PartialEq, Eq)]
pub struct PortInfo {
    pub pid: Option<u32>,
    pub process_name: String,
    pub port: u16,
    pub protocol: String,
    pub address: String,
}

} // verus!
