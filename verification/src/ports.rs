//! The list of listening sockets.

use crate::models::PortInfo;
use vstd::prelude::*;

verus! {

/// The entry for a listening socket. A socket whose process is not known by
/// name is listed under `Unknown`; the protocol is not told apart.
pub fn port_entry(pid: u32, process_name: Option<String>, port: u16, address: String) -> (entry:
    PortInfo)
    ensures
        entry.pid == Some(pid),
        entry.process_name@ == match process_name {
            Some(name) => name@,
            None => "Unknown"@,
        },
        entry.port == port,
        entry.protocol@ == "TCP/UDP"@,
        entry.address@ == address@,
{
    let process_name = match process_name {
        Some(name) => name,
        None => String::from_str("Unknown"),
    };
    PortInfo {
        pid: Some(pid),
        process_name,
        port,
        protocol: String::from_str("TCP/UDP"),
        address,
    }
}

/// The entries stand in non-decreasing order of their port.
pub open spec fn port_ordered(entries: Seq<PortInfo>) -> bool {
    forall|a: int, b: int| 0 <= a < b < entries.len() ==> entries[a].port <= entries[b].port
}

/// How many entries at the front of the list have a port of at most `port`.
pub open spec fn slot(entries: Seq<PortInfo>, port: u16) -> int
    decreases entries.len(),
{
    if entries.len() == 0 || entries[0].port > port {
        0
    } else {
        1 + slot(entries.drop_first(), port)
    }
}

/// The entries by port, lowest first; entries with the same port keep their
/// order.
pub open spec fn by_port(entries: Seq<PortInfo>) -> Seq<PortInfo>
    decreases entries.len(),
{
    if entries.len() == 0 {
        Seq::empty()
    } else {
        let sorted = by_port(entries.drop_last());
        sorted.insert(slot(sorted, entries.last().port), entries.last())
    }
}

/// The slot lies in the list; the entries before it have a port of at most
/// `port`, and the entry at it, if any, has a higher one.
pub proof fn lemma_slot(entries: Seq<PortInfo>, port: u16)
    ensures
        0 <= slot(entries, port) <= entries.len(),
        forall|k: int| 0 <= k < slot(entries, port) ==> entries[k].port <= port,
        slot(entries, port) < entries.len() ==> entries[slot(entries, port)].port > port,
    decreases entries.len(),
{
    if entries.len() > 0 && entries[0].port <= port {
        let rest = entries.drop_first();
        lemma_slot(rest, port);
        assert forall|k: int| 0 <= k < slot(entries, port) implies entries[k].port <= port by {
            if k > 0 {
                assert(entries[k] == rest[k - 1]);
            }
        }
        if slot(entries, port) < entries.len() {
            assert(entries[slot(entries, port)] == rest[slot(rest, port)]);
        }
    }
}

/// Sorting by port yields an ordered list.
pub proof fn law_by_port_is_ordered(entries: Seq<PortInfo>)
    ensures
        port_ordered(by_port(entries)),
    decreases entries.len(),
{
    if entries.len() > 0 {
        let sorted = by_port(entries.drop_last());
        let last = entries.last();
        let at = slot(sorted, last.port);
        let all = sorted.insert(at, last);
        law_by_port_is_ordered(entries.drop_last());
        lemma_slot(sorted, last.port);
        assert forall|a: int, b: int| 0 <= a < b < all.len() implies all[a].port
            <= all[b].port by {
            if b == at {
                assert(all[a] == sorted[a]);
            } else if a == at {
                assert(all[b] == sorted[b - 1]);
                assert(sorted[at].port <= sorted[b - 1].port);
            } else {
                let pa = if a < at {
                    a
                } else {
                    a - 1
                };
                let pb = if b < at {
                    b
                } else {
                    b - 1
                };
                assert(all[a] == sorted[pa] && all[b] == sorted[pb]);
            }
        }
    }
}

/// Sorting by port neither loses nor adds nor repeats an entry.
pub proof fn law_by_port_keeps_entries(entries: Seq<PortInfo>)
    ensures
        by_port(entries).to_multiset() == entries.to_multiset(),
    decreases entries.len(),
{
    if entries.len() > 0 {
        let shorter = entries.drop_last();
        let sorted = by_port(shorter);
        let last = entries.last();
        let at = slot(sorted, last.port);
        law_by_port_keeps_entries(shorter);
        lemma_slot(sorted, last.port);
        vstd::seq_lib::to_multiset_insert(sorted, at, last);
        shorter.to_multiset_ensures();
        assert(shorter.push(last) =~= entries);
        assert(by_port(entries).to_multiset() =~= entries.to_multiset());
    } else {
        assert(by_port(entries) =~= entries);
    }
}

/// Filtering a list of which no entry passes leaves nothing.
proof fn lemma_filter_none(entries: Seq<PortInfo>, pass: spec_fn(PortInfo) -> bool)
    requires
        forall|k: int| 0 <= k < entries.len() ==> !pass(#[trigger] entries[k]),
    ensures
        entries.filter(pass) == Seq::<PortInfo>::empty(),
    decreases entries.len(),
{
    reveal(Seq::filter);
    if entries.len() > 0 {
        assert forall|k: int| 0 <= k < entries.drop_last().len() implies !pass(
            #[trigger] entries.drop_last()[k],
        ) by {
            assert(entries.drop_last()[k] == entries[k]);
        }
        lemma_filter_none(entries.drop_last(), pass);
    }
}

/// Sorting by port is stable: the entries of any one port stand in the sorted
/// list in the order in which they stood before.
pub proof fn law_by_port_is_stable(entries: Seq<PortInfo>, port: u16)
    ensures
        by_port(entries).filter(|e: PortInfo| e.port == port) == entries.filter(
            |e: PortInfo| e.port == port,
        ),
    decreases entries.len(),
{
    let pass = |e: PortInfo| e.port == port;
    reveal(Seq::filter);
    if entries.len() > 0 {
        let shorter = entries.drop_last();
        let sorted = by_port(shorter);
        let last = entries.last();
        let at = slot(sorted, last.port);
        let front = sorted.subrange(0, at);
        let back = sorted.subrange(at, sorted.len() as int);
        law_by_port_is_stable(shorter, port);
        law_by_port_is_ordered(shorter);
        lemma_slot(sorted, last.port);
        assert(sorted =~= front + back);
        assert(by_port(entries) =~= (front + seq![last]) + back);
        Seq::filter_distributes_over_add(front, back, pass);
        Seq::filter_distributes_over_add(front, seq![last], pass);
        Seq::filter_distributes_over_add(front + seq![last], back, pass);
        assert(seq![last].drop_last() =~= Seq::<PortInfo>::empty());
        assert(Seq::<PortInfo>::empty().filter(pass) =~= Seq::<PortInfo>::empty());
        if last.port == port {
            assert forall|k: int| 0 <= k < back.len() implies !pass(#[trigger] back[k]) by {
                assert(back[k] == sorted[at + k]);
                assert(sorted[at].port <= sorted[at + k].port);
            }
            lemma_filter_none(back, pass);
            assert(seq![last].filter(pass) =~= seq![last]);
            assert(by_port(entries).filter(pass) =~= sorted.filter(pass).push(last));
        } else {
            assert(seq![last].filter(pass) =~= Seq::<PortInfo>::empty());
            assert(by_port(entries).filter(pass) =~= sorted.filter(pass));
        }
    } else {
        assert(by_port(entries) =~= entries);
    }
}

/// Sorts the entries by port, lowest first; entries with the same port keep
/// their order.
pub fn sort_by_port(entries: Vec<PortInfo>) -> (sorted: Vec<PortInfo>)
    ensures
        sorted@ == by_port(entries@),
{
    let mut rest = entries;
    let mut sorted: Vec<PortInfo> = Vec::new();
    let ghost done: int = 0;
    while rest.len() > 0
        invariant
            0 <= done <= entries@.len(),
            rest@ == entries@.skip(done),
            sorted@ == by_port(entries@.take(done)),
        decreases rest@.len(),
    {
        let next = rest.remove(0);
        proof {
            assert(next == entries@[done]);
            assert(entries@.take(done + 1).drop_last() =~= entries@.take(done));
            assert(entries@.take(done + 1).last() == next);
            lemma_slot(sorted@, next.port);
        }
        let mut at: usize = 0;
        assert(sorted@.skip(0) =~= sorted@);
        while at < sorted.len() && sorted[at].port <= next.port
            invariant
                at <= sorted@.len(),
                slot(sorted@, next.port) == at + slot(sorted@.skip(at as int), next.port),
            decreases sorted@.len() - at,
        {
            proof {
                let tail = sorted@.skip(at as int);
                assert(tail[0] == sorted@[at as int]);
                assert(tail.drop_first() =~= sorted@.skip(at + 1));
            }
            at += 1;
        }
        proof {
            let tail = sorted@.skip(at as int);
            if at < sorted@.len() {
                assert(tail[0] == sorted@[at as int]);
            }
        }
        sorted.insert(at, next);
        proof {
            assert(rest@ =~= entries@.skip(done + 1));
            done = done + 1;
        }
    }
    assert(entries@.take(done) =~= entries@);
    sorted
}

} // verus!
