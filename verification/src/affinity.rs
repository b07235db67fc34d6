//! Which processors a process may run on: as a set of the scheduler's
//! interface, and as a bit mask.

use nix::errno::Errno;
use nix::sched::CpuSet;
use vstd::prelude::*;

verus! {

/// `nix::sched::CpuSet`, a fixed-size bit mask of processors. Its inside is
/// not looked into here.
#[verifier::external_type_specification]
#[verifier::external_body]
pub struct ExCpuSet(CpuSet);

/// `nix::errno::Errno`, the error of the calls below. Its inside is not
/// looked into here.
#[verifier::external_type_specification]
#[verifier::external_body]
pub struct ExErrno(Errno);

/// The processors that a `CpuSet` holds.
pub uninterp spec fn cpus_in(set: CpuSet) -> Set<int>;

/// The number of processors that a `CpuSet` has room for (`CpuSet::count()`):
/// it takes the processors below this number and no others.
pub uninterp spec fn cpu_limit(set: CpuSet) -> int;

/// `CpuSet::set`: puts a processor into the set. The call fails exactly for a
/// processor at or beyond the set's limit, and then leaves the set as it was.
#[verifier::external_body]
fn add_cpu(set: &mut CpuSet, cpu: usize) -> (added: Result<(), Errno>)
    ensures
        added is Ok == (cpu < cpu_limit(*old(set))),
        cpu_limit(*final(set)) == cpu_limit(*old(set)),
        cpus_in(*final(set)) == if added is Ok {
            cpus_in(*old(set)).insert(cpu as int)
        } else {
            cpus_in(*old(set))
        },
{
    set.set(cpu)
}

/// `CpuSet::is_set`: whether the set holds a processor. The call fails exactly
/// for a processor at or beyond the set's limit.
#[verifier::external_body]
fn holds_cpu(set: &CpuSet, cpu: usize) -> (held: Result<bool, Errno>)
    ensures
        held is Ok == (cpu < cpu_limit(*set)),
        held matches Ok(yes) ==> yes == cpus_in(*set).contains(cpu as int),
{
    set.is_set(cpu)
}

/// Why a choice of processors cannot be made.
#[derive(Clone, Copy, Debug, PartialEq, Eq)]
pub enum AffinityError {
    /// No processor was chosen.
    NoCpuSelected,
    /// The set has no room for this processor.
    InvalidCpu { cpu: u32 },
}

/// The processors among the first `count` of `cpus`.
pub open spec fn chosen(cpus: Seq<u32>, count: int) -> Set<int> {
    Set::new(|cpu: int| exists|k: int| 0 <= k < count && k < cpus.len() && cpus[k] == cpu)
}

/// Puts the chosen processors into `set`, in order.
///
/// An empty choice is refused and leaves the set untouched. The first
/// processor that the set has no room for ends the work: the processors
/// before it are in the set, it and those after it are not put in.
pub fn fill_cpu_set(set: &mut CpuSet, cpus: &Vec<u32>) -> (filled: Result<(), AffinityError>)
    ensures
        cpu_limit(*final(set)) == cpu_limit(*old(set)),
        match filled {
            Ok(()) => {
                &&& cpus@.len() > 0
                &&& forall|k: int| 0 <= k < cpus@.len() ==> cpus@[k] < cpu_limit(*old(set))
                &&& cpus_in(*final(set)) == cpus_in(*old(set)).union(
                    chosen(cpus@, cpus@.len() as int),
                )
            },
            Err(AffinityError::NoCpuSelected) => {
                &&& cpus@.len() == 0
                &&& cpus_in(*final(set)) == cpus_in(*old(set))
            },
            Err(AffinityError::InvalidCpu { cpu }) => exists|at: int|
                {
                    &&& 0 <= at < cpus@.len()
                    &&& #[trigger] cpus@[at] == cpu
                    &&& cpu >= cpu_limit(*old(set))
                    &&& forall|k: int| 0 <= k < at ==> cpus@[k] < cpu_limit(*old(set))
                    &&& cpus_in(*final(set)) == cpus_in(*old(set)).union(chosen(cpus@, at))
                },
        },
{
    if cpus.len() == 0 {
        return Err(AffinityError::NoCpuSelected);
    }
    let mut k: usize = 0;
    assert(cpus_in(*set) =~= cpus_in(*old(set)).union(chosen(cpus@, 0)));
    while k < cpus.len()
        invariant
            k <= cpus@.len(),
            cpus@.len() > 0,
            cpu_limit(*set) == cpu_limit(*old(set)),
            forall|j: int| 0 <= j < k ==> cpus@[j] < cpu_limit(*old(set)),
            cpus_in(*set) == cpus_in(*old(set)).union(chosen(cpus@, k as int)),
        decreases cpus@.len() - k,
    {
        let cpu = cpus[k];
        match add_cpu(set, cpu as usize) {
            Ok(()) => {
                assert(cpus_in(*set) =~= cpus_in(*old(set)).union(chosen(cpus@, k + 1)));
            },
            Err(_) => {
                return Err(AffinityError::InvalidCpu { cpu });
            },
        }
        k += 1;
    }
    Ok(())
}

/// The processors below `count` that `set` holds, ascending.
pub open spec fn held_below(set: CpuSet, count: int) -> Seq<usize>
    decreases count,
{
    if count <= 0 {
        Seq::empty()
    } else if count - 1 < cpu_limit(set) && cpus_in(set).contains(count - 1) {
        held_below(set, count - 1).push((count - 1) as usize)
    } else {
        held_below(set, count - 1)
    }
}

/// The list holds exactly the processors below `count` that the set holds and
/// has room for, each once, in ascending order.
pub proof fn law_held_below(set: CpuSet, count: int)
    requires
        0 <= count <= usize::MAX,
    ensures
        forall|cpu: usize|
            #[trigger] held_below(set, count).contains(cpu) <==> cpu < count && cpu < cpu_limit(
                set,
            ) && cpus_in(set).contains(cpu as int),
        forall|a: int, b: int|
            0 <= a < b < held_below(set, count).len() ==> held_below(set, count)[a] < held_below(
                set,
                count,
            )[b],
        forall|k: int|
            0 <= k < held_below(set, count).len() ==> (#[trigger] held_below(set, count)[k])
                < count,
    decreases count,
{
    if count > 0 {
        let fewer = held_below(set, count - 1);
        let all = held_below(set, count);
        law_held_below(set, count - 1);
        assert forall|cpu: usize| #[trigger] all.contains(cpu) <==> cpu < count && cpu < cpu_limit(
            set,
        ) && cpus_in(set).contains(cpu as int) by {
            if all.contains(cpu) {
                let k = choose|k: int| 0 <= k < all.len() && all[k] == cpu;
                if k < fewer.len() {
                    assert(fewer[k] == cpu);
                    assert(fewer.contains(cpu));
                } else {
                    assert(cpu == count - 1);
                }
            }
            if cpu < count && cpu < cpu_limit(set) && cpus_in(set).contains(cpu as int) {
                if cpu == count - 1 {
                    assert(all[all.len() - 1] == cpu);
                } else {
                    assert(fewer.contains(cpu));
                    let k = choose|k: int| 0 <= k < fewer.len() && fewer[k] == cpu;
                    assert(all[k] == cpu);
                }
            }
        }
    }
}

/// Lists the processors below `count` that `set` holds, ascending. Numbers at
/// or beyond the set's limit are not in it.
pub fn cpus_of_set(set: &CpuSet, count: usize) -> (cpus: Vec<usize>)
    ensures
        cpus@ == held_below(*set, count as int),
{
    let mut cpus: Vec<usize> = Vec::new();
    let mut cpu: usize = 0;
    while cpu < count
        invariant
            cpu <= count,
            cpus@ == held_below(*set, cpu as int),
        decreases count - cpu,
    {
        let held = match holds_cpu(set, cpu) {
            Ok(yes) => yes,
            Err(_) => false,
        };
        if held {
            cpus.push(cpu);
        }
        cpu += 1;
    }
    cpus
}

/// Whether bit `cpu` of the mask is set.
pub open spec fn in_mask(mask: u64, cpu: u32) -> bool {
    cpu < 64 && (mask >> cpu) & 1 == 1
}

/// The processors of a mask, ascending, among those below `count`.
pub open spec fn masked_below(mask: u64, count: u32) -> Seq<u32>
    decreases count,
{
    if count == 0 {
        Seq::empty()
    } else if in_mask(mask, (count - 1) as u32) {
        masked_below(mask, (count - 1) as u32).push((count - 1) as u32)
    } else {
        masked_below(mask, (count - 1) as u32)
    }
}

/// The list holds exactly the processors below `count` whose bit is set, each
/// once, in ascending order.
pub proof fn law_masked_below(mask: u64, count: u32)
    ensures
        forall|cpu: u32|
            #[trigger] masked_below(mask, count).contains(cpu) <==> cpu < count && in_mask(
                mask,
                cpu,
            ),
        forall|a: int, b: int|
            0 <= a < b < masked_below(mask, count).len() ==> masked_below(mask, count)[a]
                < masked_below(mask, count)[b],
        forall|k: int|
            0 <= k < masked_below(mask, count).len() ==> (#[trigger] masked_below(mask, count)[k])
                < count,
    decreases count,
{
    if count > 0 {
        let less = (count - 1) as u32;
        let fewer = masked_below(mask, less);
        let all = masked_below(mask, count);
        law_masked_below(mask, less);
        assert forall|cpu: u32| #[trigger] all.contains(cpu) <==> cpu < count && in_mask(
            mask,
            cpu,
        ) by {
            if all.contains(cpu) {
                let k = choose|k: int| 0 <= k < all.len() && all[k] == cpu;
                if k < fewer.len() {
                    assert(fewer[k] == cpu);
                    assert(fewer.contains(cpu));
                } else {
                    assert(cpu == less);
                }
            }
            if cpu < count && in_mask(mask, cpu) {
                if cpu == less {
                    assert(all[all.len() - 1] == cpu);
                } else {
                    assert(fewer.contains(cpu));
                    let k = choose|k: int| 0 <= k < fewer.len() && fewer[k] == cpu;
                    assert(all[k] == cpu);
                }
            }
        }
    }
}

/// Lists the processors of a 64-bit affinity mask, ascending.
pub fn cpus_of_mask(mask: u64) -> (cpus: Vec<u32>)
    ensures
        cpus@ == masked_below(mask, 64),
{
    let mut cpus: Vec<u32> = Vec::new();
    let mut cpu: u32 = 0;
    while cpu < 64
        invariant
            cpu <= 64,
            cpus@ == masked_below(mask, cpu),
        decreases 64 - cpu,
    {
        if (mask >> cpu) & 1 == 1 {
            cpus.push(cpu);
        }
        cpu += 1;
    }
    cpus
}

/// Builds the 64-bit affinity mask of the chosen processors. A processor
/// numbered 64 or higher has no bit and is passed over.
pub fn mask_of_cpus(cpus: &Vec<u32>) -> (mask: u64)
    ensures
        forall|cpu: u32| #[trigger] in_mask(mask, cpu) <==> cpu < 64 && cpus@.contains(cpu),
{
    let mut mask: u64 = 0;
    let mut k: usize = 0;
    assert forall|cpu: u32| #[trigger] in_mask(0u64, cpu) <==> cpu < 64 && cpus@.take(0).contains(
        cpu,
    ) by {
        if cpu < 64 {
            assert((0u64 >> cpu) & 1 == 0) by (bit_vector);
        }
    }
    while k < cpus.len()
        invariant
            k <= cpus@.len(),
            forall|cpu: u32|
                #[trigger] in_mask(mask, cpu) <==> cpu < 64 && cpus@.take(k as int).contains(cpu),
        decreases cpus@.len() - k,
    {
        let next = cpus[k];
        let ghost before = mask;
        if next < 64 {
            mask = mask | (1u64 << next);
        }
        assert forall|cpu: u32| #[trigger] in_mask(mask, cpu) <==> cpu < 64 && cpus@.take(
            k + 1,
        ).contains(cpu) by {
            let shorter = cpus@.take(k as int);
            let longer = cpus@.take(k + 1);
            assert(longer =~= shorter.push(next));
            assert(in_mask(before, cpu) <==> cpu < 64 && shorter.contains(cpu));
            if cpu < 64 {
                if next < 64 {
                    assert(((before | (1u64 << next)) >> cpu) & 1 == 1 <==> ((before >> cpu) & 1
                        == 1 || cpu == next)) by (bit_vector)
                        requires
                            cpu < 64,
                            next < 64,
                    ;
                }
                if shorter.contains(cpu) {
                    let j = choose|j: int| 0 <= j < shorter.len() && shorter[j] == cpu;
                    assert(longer[j] == cpu);
                }
                if cpu == next {
                    assert(longer[k as int] == cpu);
                }
                if longer.contains(cpu) {
                    let j = choose|j: int| 0 <= j < longer.len() && longer[j] == cpu;
                    if j < k {
                        assert(shorter[j] == cpu);
                    }
                }
            }
        }
        k += 1;
    }
    assert(cpus@.take(k as int) =~= cpus@);
    mask
}

} // verus!
