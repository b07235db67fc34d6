//! The per-tick process table: one sample per live process, indexed by pid.

use std::collections::HashMap;
use vstd::prelude::*;

verus! {

/// One live process as observed during a single tick.
///
/// CPU readings are fixed-point: thousandths of a percent.
#[derive(Clone, Debug, PartialEq, Eq)]
pub struct ProcessSample {
    pub pid: u32,
    pub parent: Option<u32>,
    /// Start time in seconds; `0` means unknown.
    pub start_time: u64,
    pub name: String,
    /// Raw reading, not yet divided by the core count.
    pub cpu_usage: u64,
    pub memory_usage: u64,
    pub disk_read: u64,
    pub disk_write: u64,
    pub thread_count: u64,
}

/// No two samples share a pid.
pub open spec fn distinct_pids(samples: Seq<ProcessSample>) -> bool {
    forall|i: int, j: int|
        0 <= i < samples.len() && 0 <= j < samples.len() && samples[i].pid == samples[j].pid
            ==> i == j
}

/// Whether some sample carries `pid`.
pub open spec fn has_pid(samples: Seq<ProcessSample>, pid: u32) -> bool {
    exists|i: int| 0 <= i < samples.len() && samples[i].pid == pid
}

/// The position of a sample carrying `pid` (meaningful when `has_pid`).
pub open spec fn position_of(samples: Seq<ProcessSample>, pid: u32) -> int {
    choose|i: int| 0 <= i < samples.len() && samples[i].pid == pid
}

/// The samples of one tick, at most one per pid, in insertion order.
pub struct ProcessTable {
    samples: Vec<ProcessSample>,
    index: HashMap<u32, usize>,
}

impl View for ProcessTable {
    type V = Seq<ProcessSample>;

    closed spec fn view(&self) -> Seq<ProcessSample> {
        self.samples@
    }
}

impl ProcessTable {
    #[verifier::type_invariant]
    spec fn indexed(self) -> bool {
        &&& forall|p: u32|
            self.index@.contains_key(p) ==> self.index@[p] < self.samples@.len()
                && self.samples@[self.index@[p] as int].pid == p
        &&& forall|i: int|
            0 <= i < self.samples@.len() ==> self.index@.contains_key(
                #[trigger] self.samples@[i].pid,
            ) && self.index@[self.samples@[i].pid] == i
    }

    /// An empty table.
    pub fn new() -> (table: Self)
        ensures
            table@ == Seq::<ProcessSample>::empty(),
    {
        ProcessTable { samples: Vec::new(), index: HashMap::new() }
    }

    /// Number of samples held.
    pub fn len(&self) -> (n: usize)
        ensures
            n == self@.len(),
    {
        self.samples.len()
    }

    /// The samples in insertion order. No two of them share a pid.
    pub fn samples(&self) -> (samples: &Vec<ProcessSample>)
        ensures
            samples@ == self@,
            distinct_pids(self@),
    {
        proof {
            use_type_invariant(self);
        }
        &self.samples
    }

    /// Where the sample carrying `pid` stands, if there is one.
    pub fn position(&self, pid: u32) -> (at: Option<usize>)
        ensures
            at is Some == has_pid(self@, pid),
            at matches Some(i) ==> i == position_of(self@, pid) && i < self@.len(),
    {
        proof {
            use_type_invariant(self);
        }
        match self.index.get(&pid) {
            Some(at) => Some(*at),
            None => None,
        }
    }

    /// The sample carrying `pid`, if there is one.
    pub fn get(&self, pid: u32) -> (found: Option<&ProcessSample>)
        ensures
            found is Some == has_pid(self@, pid),
            found matches Some(sample) ==> *sample == self@[position_of(self@, pid)],
    {
        match self.position(pid) {
            Some(at) => {
                proof {
                    use_type_invariant(self);
                }
                Some(&self.samples[at])
            },
            None => None,
        }
    }

    /// Records `sample`; a sample already held under the same pid is replaced
    /// in place. Returns whether the pid was new.
    pub fn insert(&mut self, sample: ProcessSample) -> (fresh: bool)
        ensures
            distinct_pids(final(self)@),
            fresh == !has_pid(old(self)@, sample.pid),
            fresh ==> final(self)@ == old(self)@.push(sample),
            !fresh ==> final(self)@ == old(self)@.update(
                position_of(old(self)@, sample.pid),
                sample,
            ),
    {
        let mut held = ProcessTable::new();
        core::mem::swap(self, &mut held);
        proof {
            use_type_invariant(&held);
        }
        let ProcessTable { mut samples, mut index } = held;
        let pid = sample.pid;
        let fresh = match index.get(&pid) {
            Some(at) => {
                let at = *at;
                samples.set(at, sample);
                false
            },
            None => {
                let at = samples.len();
                samples.push(sample);
                index.insert(pid, at);
                true
            },
        };
        *self = ProcessTable { samples, index };
        fresh
    }
}

} // verus!
