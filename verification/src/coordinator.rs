//! The scan itself: each worker walks its partition and keeps the ports that
//! answer, and the findings of all workers become one ascending report.

use crate::args::Arguments;
use crate::connector::{ConnectOutcome, HostAddr};
use crate::partition::{
    covered, first_port, lemma_multiples_apart, lemma_owner_visits, lemma_visited_is_covered,
    next_port, owner, visits, MAX,
};
use crate::report::{arranges, ascending, lemma_ascending_unique, sort_ports};
use vstd::arithmetic::div_mod::{lemma_mod_add_multiples_vanish, lemma_small_mod};
use vstd::prelude::*;
use vstd::seq_lib::group_to_multiset_ensures;

verus! {

/// Each port is greater than the one before it.
pub open spec fn strictly_ascending(ports: Seq<u16>) -> bool {
    forall|i: int, j: int| 0 <= i < j < ports.len() ==> ports[i] < ports[j]
}

/// What one worker found on `addr`: in ascending order, the ports of its
/// partition on which `probe` answered `Open`; on the others it answered
/// `Closed`.
pub open spec fn worker_found<F: Fn(HostAddr, u16) -> ConnectOutcome>(
    probe: &F,
    addr: HostAddr,
    worker: int,
    stride: int,
    found: Seq<u16>,
) -> bool {
    &&& strictly_ascending(found)
    &&& forall|i: int|
        0 <= i < found.len() ==> visits(worker, stride, #[trigger] found[i] as int)
            && call_ensures(probe, (addr, found[i]), ConnectOutcome::Open)
    &&& forall|port: u16|
        visits(worker, stride, port as int) && !found.contains(port) ==> #[trigger] call_ensures(
            probe,
            (addr, port),
            ConnectOutcome::Closed,
        )
}

/// Runs the worker that starts just above `start_port` and advances by
/// `num_threads`: probes every port of its partition once, in ascending
/// order, and returns those that were open.
pub fn scan<F: Fn(HostAddr, u16) -> ConnectOutcome>(
    start_port: u16,
    addr: HostAddr,
    num_threads: u16,
    probe: &F,
) -> (found: Vec<u16>)
    requires
        start_port < MAX,
        num_threads >= 1,
        forall|port: u16|
            visits(start_port as int, num_threads as int, port as int) ==> call_requires(
                probe,
                (addr, port),
            ),
    ensures
        worker_found(probe, addr, start_port as int, num_threads as int, found@),
{
    let ghost worker = start_port as int;
    let ghost stride = num_threads as int;
    let mut found: Vec<u16> = Vec::new();
    let mut port: u16 = first_port(start_port);
    proof {
        lemma_small_mod(0, stride as nat);
    }
    loop
        invariant_except_break
            visits(worker, stride, port as int),
            forall|i: int| 0 <= i < found.len() ==> found[i] < port,
            forall|p: u16|
                visits(worker, stride, p as int) && p < port && !found@.contains(p)
                    ==> #[trigger] call_ensures(probe, (addr, p), ConnectOutcome::Closed),
        invariant
            worker == start_port,
            stride == num_threads,
            stride >= 1,
            strictly_ascending(found@),
            forall|p: u16|
                visits(worker, stride, p as int) ==> call_requires(probe, (addr, p)),
            forall|i: int|
                0 <= i < found.len() ==> visits(worker, stride, #[trigger] found[i] as int)
                    && call_ensures(probe, (addr, found[i]), ConnectOutcome::Open),
        ensures
            forall|p: u16|
                visits(worker, stride, p as int) && !found@.contains(p)
                    ==> #[trigger] call_ensures(probe, (addr, p), ConnectOutcome::Closed),
        decreases MAX - port,
    {
        let outcome: ConnectOutcome = probe(addr, port);
        let ghost before = found@;
        if outcome.is_open() {
            found.push(port);
        }
        proof {
            assert forall|p: u16|
                visits(worker, stride, p as int) && p <= port && !found@.contains(p)
                    implies #[trigger] call_ensures(probe, (addr, p), ConnectOutcome::Closed) by {
                if p == port {
                    if outcome == ConnectOutcome::Open {
                        assert(found@[found@.len() - 1] == port);
                    }
                } else {
                    if before.contains(p) {
                        let k = choose|k: int| 0 <= k < before.len() && before[k] == p;
                        assert(found@[k] == p);
                    }
                }
            }
            assert forall|p: u16|
                visits(worker, stride, p as int) && port < p < port + stride implies false by {
                lemma_multiples_apart(port - (worker + 1), p - (worker + 1), stride);
            }
        }
        match next_port(port, num_threads) {
            None => {
                proof {
                    assert forall|p: u16|
                        visits(worker, stride, p as int) && p > port implies false by {
                        lemma_multiples_apart(port - (worker + 1), p - (worker + 1), stride);
                    }
                }
                break ;
            },
            Some(next) => {
                proof {
                    lemma_mod_add_multiples_vanish(port - (worker + 1), stride);
                }
                port = next;
            },
        }
    }
    found
}

/// What a whole scan of `addr` by `stride` workers found: in ascending order,
/// the covered ports on which `probe` answered `Open`; on the other covered
/// ports it answered `Closed`.
pub open spec fn scan_found<F: Fn(HostAddr, u16) -> ConnectOutcome>(
    probe: &F,
    addr: HostAddr,
    stride: int,
    report: Seq<u16>,
) -> bool {
    &&& strictly_ascending(report)
    &&& forall|i: int|
        0 <= i < report.len() ==> covered(stride, #[trigger] report[i] as int) && call_ensures(
            probe,
            (addr, report[i]),
            ConnectOutcome::Open,
        )
    &&& forall|port: u16|
        covered(stride, port as int) && !report.contains(port) ==> #[trigger] call_ensures(
            probe,
            (addr, port),
            ConnectOutcome::Closed,
        )
}

/// An ascending sequence in which no port stands twice is strictly ascending.
proof fn lemma_distinct_ascending(report: Seq<u16>)
    requires
        ascending(report),
        report.no_duplicates(),
    ensures
        strictly_ascending(report),
{
}

/// A strictly ascending sequence holds no port twice.
proof fn lemma_strict_is_distinct(report: Seq<u16>)
    requires
        strictly_ascending(report),
    ensures
        report.no_duplicates(),
        ascending(report),
{
    assert forall|i: int, j: int| 0 <= i < report.len() && 0 <= j < report.len() && i != j implies report[i]
        != report[j] by {
        if i < j {
            assert(report[i] < report[j]);
        } else {
            assert(report[j] < report[i]);
        }
    }
}

/// An arrangement of ports holds the same ports, and none twice if none
/// arrived twice.
proof fn lemma_arrangement_keeps_ports(report: Seq<u16>, found: Seq<u16>)
    requires
        arranges(report, found),
    ensures
        forall|port: u16| report.contains(port) <==> found.contains(port),
        found.no_duplicates() ==> report.no_duplicates(),
{
    broadcast use group_to_multiset_ensures;

    assert forall|port: u16| report.contains(port) <==> found.contains(port) by {
        assert(report.to_multiset().count(port) == found.to_multiset().count(port));
    }
    if found.no_duplicates() {
        found.lemma_multiset_has_no_duplicates();
        report.lemma_multiset_has_no_duplicates_conv();
    }
}

/// Two sequences without repetition that hold the same ports hold each port
/// equally often.
proof fn lemma_same_ports_same_multiset(first: Seq<u16>, second: Seq<u16>)
    requires
        first.no_duplicates(),
        second.no_duplicates(),
        forall|port: u16| first.contains(port) <==> second.contains(port),
    ensures
        first.to_multiset() == second.to_multiset(),
{
    broadcast use group_to_multiset_ensures;

    first.lemma_multiset_has_no_duplicates();
    second.lemma_multiset_has_no_duplicates();
    assert forall|port: u16|
        first.to_multiset().count(port) == second.to_multiset().count(port) by {
        if first.contains(port) {
            assert(second.contains(port));
            assert(first.to_multiset().contains(port));
            assert(second.to_multiset().contains(port));
        } else {
            assert(!second.contains(port));
        }
    }
    assert(first.to_multiset() =~= second.to_multiset());
}

/// Scans `target`: lets each worker walk its partition, one worker after the
/// other, and returns the ports that were open, in ascending order.
pub fn run<F: Fn(HostAddr, u16) -> ConnectOutcome>(target: &Arguments, probe: &F) -> (report: Vec<
    u16,
>)
    requires
        forall|port: u16|
            covered(target.threads as int, port as int) ==> call_requires(
                probe,
                (target.ipaddr, port),
            ),
    ensures
        scan_found(probe, target.ipaddr, target.threads as int, report@),
{
    let addr: HostAddr = target.ipaddr;
    let threads: u16 = target.threads;
    let ghost stride = threads as int;
    let mut found: Vec<u16> = Vec::new();
    let mut worker: u16 = 0;
    while worker < threads
        invariant
            worker <= threads,
            stride == threads,
            forall|port: u16|
                covered(stride, port as int) ==> call_requires(probe, (addr, port)),
            found@.no_duplicates(),
            forall|i: int|
                0 <= i < found.len() ==> covered(stride, #[trigger] found[i] as int) && owner(
                    stride,
                    found[i] as int,
                ) < worker && call_ensures(probe, (addr, found[i]), ConnectOutcome::Open),
            forall|port: u16|
                covered(stride, port as int) && owner(stride, port as int) < worker
                    && !found@.contains(port) ==> #[trigger] call_ensures(
                    probe,
                    (addr, port),
                    ConnectOutcome::Closed,
                ),
        decreases threads - worker,
    {
        proof {
            assert forall|port: u16|
                visits(worker as int, stride, port as int) implies call_requires(
                probe,
                (addr, port),
            ) by {
                lemma_visited_is_covered(worker as int, stride, port as int);
            }
        }
        let mut part = scan(worker, addr, threads, probe);
        let ghost before = found@;
        let ghost added = part@;
        found.append(&mut part);
        proof {
            lemma_strict_is_distinct(added);
            assert forall|i: int| 0 <= i < added.len() implies covered(
                stride,
                #[trigger] added[i] as int,
            ) && owner(stride, added[i] as int) == worker by {
                lemma_visited_is_covered(worker as int, stride, added[i] as int);
            }
            assert forall|i: int, j: int|
                0 <= i < found.len() && 0 <= j < found.len() && i != j implies found[i]
                != found[j] by {
                if i < before.len() && j < before.len() {
                    assert(before[i] != before[j]);
                } else if i >= before.len() && j >= before.len() {
                    assert(added[i - before.len()] != added[j - before.len()]);
                } else if i < before.len() {
                    assert(owner(stride, before[i] as int) < worker);
                    assert(owner(stride, added[j - before.len()] as int) == worker);
                } else {
                    assert(owner(stride, before[j] as int) < worker);
                    assert(owner(stride, added[i - before.len()] as int) == worker);
                }
            }
            assert forall|i: int| 0 <= i < found.len() implies covered(
                stride,
                #[trigger] found[i] as int,
            ) && owner(stride, found[i] as int) < worker + 1 && call_ensures(
                probe,
                (addr, found[i]),
                ConnectOutcome::Open,
            ) by {
                if i < before.len() {
                    assert(found[i] == before[i]);
                } else {
                    assert(found[i] == added[i - before.len()]);
                }
            }
            assert forall|port: u16|
                covered(stride, port as int) && owner(stride, port as int) < worker + 1
                    && !found@.contains(port) implies #[trigger] call_ensures(
                probe,
                (addr, port),
                ConnectOutcome::Closed,
            ) by {
                if owner(stride, port as int) < worker {
                    if before.contains(port) {
                        let k = choose|k: int| 0 <= k < before.len() && before[k] == port;
                        assert(found[k] == port);
                    }
                } else {
                    lemma_owner_visits(stride, port as int);
                    if added.contains(port) {
                        let k = choose|k: int| 0 <= k < added.len() && added[k] == port;
                        assert(found[before.len() + k] == port);
                    }
                }
            }
        }
        worker += 1;
    }
    let ghost gathered = found@;
    let report = sort_ports(found);
    proof {
        lemma_arrangement_keeps_ports(report@, gathered);
        lemma_distinct_ascending(report@);
        assert forall|i: int| 0 <= i < report.len() implies covered(
            stride,
            #[trigger] report[i] as int,
        ) && call_ensures(probe, (addr, report[i]), ConnectOutcome::Open) by {
            assert(report@.contains(report[i]));
            let k = choose|k: int| 0 <= k < gathered.len() && gathered[k] == report[i];
            assert(covered(stride, gathered[k] as int));
        }
        assert forall|port: u16|
            covered(stride, port as int) && !report@.contains(port) implies #[trigger] call_ensures(
            probe,
            (addr, port),
            ConnectOutcome::Closed,
        ) by {
            lemma_owner_visits(stride, port as int);
        }
    }
    report
}

/// The report of a scan does not depend on how the workers' findings
/// interleave on their way to the coordinator: if each port that a worker
/// found arrives once, and nothing else does, then the arrival, put in
/// ascending order, is what the whole scan found.
pub proof fn lemma_gathered_report<F: Fn(HostAddr, u16) -> ConnectOutcome>(
    probe: &F,
    addr: HostAddr,
    stride: int,
    parts: Seq<Seq<u16>>,
    arrived: Seq<u16>,
    report: Seq<u16>,
)
    requires
        0 <= stride <= MAX,
        parts.len() == stride,
        forall|worker: int|
            0 <= worker < stride ==> worker_found(
                probe,
                addr,
                worker,
                stride,
                #[trigger] parts[worker],
            ),
        arrived.no_duplicates(),
        forall|port: u16|
            arrived.contains(port) <==> exists|worker: int|
                0 <= worker < stride && (#[trigger] parts[worker]).contains(port),
        arranges(report, arrived),
    ensures
        scan_found(probe, addr, stride, report),
{
    lemma_arrangement_keeps_ports(report, arrived);
    lemma_distinct_ascending(report);
    assert forall|i: int| 0 <= i < report.len() implies covered(
        stride,
        #[trigger] report[i] as int,
    ) && call_ensures(probe, (addr, report[i]), ConnectOutcome::Open) by {
        let port = report[i];
        assert(report.contains(port));
        let worker = choose|worker: int|
            0 <= worker < stride && (#[trigger] parts[worker]).contains(port);
        let k = choose|k: int| 0 <= k < parts[worker].len() && parts[worker][k] == port;
        assert(visits(worker, stride, parts[worker][k] as int));
        lemma_visited_is_covered(worker, stride, port as int);
    }
    assert forall|port: u16|
        covered(stride, port as int) && !report.contains(port) implies #[trigger] call_ensures(
        probe,
        (addr, port),
        ConnectOutcome::Closed,
    ) by {
        lemma_owner_visits(stride, port as int);
        let worker = owner(stride, port as int);
        assert(!parts[worker].contains(port));
    }
}

/// A scan can be repeated: while the probe answers each port in one way only,
/// two scans of one host by the same number of workers give the same report.
pub proof fn lemma_scan_repeatable<F: Fn(HostAddr, u16) -> ConnectOutcome>(
    probe: &F,
    addr: HostAddr,
    stride: int,
    first: Seq<u16>,
    second: Seq<u16>,
)
    requires
        scan_found(probe, addr, stride, first),
        scan_found(probe, addr, stride, second),
        forall|port: u16|
            !(call_ensures(probe, (addr, port), ConnectOutcome::Open) && call_ensures(
                probe,
                (addr, port),
                ConnectOutcome::Closed,
            )),
    ensures
        first == second,
{
    assert forall|port: u16| first.contains(port) <==> second.contains(port) by {
        if first.contains(port) {
            let k = choose|k: int| 0 <= k < first.len() && first[k] == port;
            assert(covered(stride, first[k] as int));
        }
        if second.contains(port) {
            let k = choose|k: int| 0 <= k < second.len() && second[k] == port;
            assert(covered(stride, second[k] as int));
        }
    }
    lemma_strict_is_distinct(first);
    lemma_strict_is_distinct(second);
    lemma_same_ports_same_multiset(first, second);
    lemma_ascending_unique(first, second);
}

} // verus!
