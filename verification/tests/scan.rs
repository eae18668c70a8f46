use ip_sniffer::args::Arguments;
use ip_sniffer::connector::{ConnectOutcome, HostAddr};
use ip_sniffer::coordinator::{run, scan};
use ip_sniffer::report::report_lines;
use std::cell::RefCell;

const V4: HostAddr = HostAddr::V4(0x7f00_0001);
const V6: HostAddr = HostAddr::V6(1);

fn listening_on(ports: &[u16]) -> impl Fn(HostAddr, u16) -> ConnectOutcome + '_ {
    move |_addr: HostAddr, port: u16| ConnectOutcome::from_attempt(ports.contains(&port))
}

#[test]
fn an_attempt_that_connects_is_open() {
    assert_eq!(ConnectOutcome::from_attempt(true), ConnectOutcome::Open);
    assert!(ConnectOutcome::from_attempt(true).is_open());
}

#[test]
fn an_attempt_that_fails_is_closed() {
    assert_eq!(ConnectOutcome::from_attempt(false), ConnectOutcome::Closed);
    assert!(!ConnectOutcome::from_attempt(false).is_open());
    assert!(ConnectOutcome::Open.is_open());
    assert!(!ConnectOutcome::Closed.is_open());
}

#[test]
fn a_worker_reports_the_open_ports_of_its_partition_only() {
    let probe = listening_on(&[22, 80, 443, 8080]);
    assert_eq!(scan(0, V4, 4, &probe), Vec::<u16>::new());
    assert_eq!(scan(1, V4, 4, &probe), vec![22]);
    assert_eq!(scan(2, V4, 4, &probe), vec![443]);
    assert_eq!(scan(3, V4, 4, &probe), vec![80, 8080]);
}

#[test]
fn a_worker_probes_each_port_of_its_partition_once_and_in_order() {
    let probed = RefCell::new(Vec::new());
    let probe = |_addr: HostAddr, port: u16| {
        probed.borrow_mut().push(port);
        ConnectOutcome::Closed
    };
    let found = scan(2, V4, 16384, &probe);
    assert!(found.is_empty());
    assert_eq!(*probed.borrow(), vec![3, 16387, 32771, 49155]);
}

#[test]
fn a_worker_hands_the_address_to_the_probe() {
    let probe = |addr: HostAddr, port: u16| {
        ConnectOutcome::from_attempt(addr == HostAddr::V6(1) && port == 9)
    };
    assert_eq!(scan(0, V6, 1, &probe), vec![9]);
    assert_eq!(scan(0, V4, 1, &probe), Vec::<u16>::new());
}

#[test]
fn three_listeners_are_reported_in_ascending_order() {
    let target = Arguments { ipaddr: V4, threads: 4 };
    let report = run(&target, &listening_on(&[40123, 40001, 40077]));
    assert_eq!(report, vec![40001, 40077, 40123]);
}

#[test]
fn three_listeners_on_an_ipv6_host_are_reported_too() {
    let target = Arguments { ipaddr: V6, threads: 4 };
    let report = run(&target, &listening_on(&[7, 6, 5]));
    assert_eq!(report, vec![5, 6, 7]);
}

#[test]
fn no_listener_gives_an_empty_report() {
    let target = Arguments { ipaddr: V4, threads: 4 };
    let report = run(&target, &listening_on(&[]));
    assert!(report.is_empty());
    let lines = report_lines(&report);
    assert_eq!(lines, vec![String::new()]);
    assert!(lines.iter().all(|line| !line.contains("is open")));
}

#[test]
fn scanning_twice_gives_the_same_report() {
    let open = [1u16, 1024, 3306, 5432, 65534];
    for threads in [1u16, 4, 7, 100] {
        let target = Arguments { ipaddr: V4, threads };
        let first = run(&target, &listening_on(&open));
        let second = run(&target, &listening_on(&open));
        assert_eq!(first, second);
        assert_eq!(first, vec![1, 1024, 3306, 5432, 65534]);
    }
}

#[test]
fn the_report_does_not_depend_on_the_number_of_workers() {
    let open = [9u16, 8, 7, 65000, 12345];
    for threads in [1u16, 2, 3, 4, 5, 64, 65535] {
        let target = Arguments { ipaddr: V4, threads };
        assert_eq!(run(&target, &listening_on(&open)), vec![7, 8, 9, 12345, 65000]);
    }
}

#[test]
fn the_last_port_is_passed_over() {
    let target = Arguments { ipaddr: V4, threads: 4 };
    assert_eq!(run(&target, &listening_on(&[65534, 65535])), vec![65534]);
    let single = Arguments { ipaddr: V4, threads: 1 };
    assert_eq!(run(&single, &listening_on(&[65535])), Vec::<u16>::new());
}

#[test]
fn the_last_port_is_scanned_by_a_worker_that_starts_on_it() {
    let target = Arguments { ipaddr: V4, threads: 65535 };
    assert_eq!(run(&target, &listening_on(&[1, 65535])), vec![1, 65535]);
}

#[test]
fn every_covered_port_is_probed_exactly_once() {
    let counts = RefCell::new(vec![0u32; 65536]);
    let probe = |_addr: HostAddr, port: u16| {
        counts.borrow_mut()[port as usize] += 1;
        ConnectOutcome::Closed
    };
    let target = Arguments { ipaddr: V4, threads: 4 };
    assert!(run(&target, &probe).is_empty());
    let counts = counts.borrow();
    assert_eq!(counts[0], 0);
    assert!(counts[1..65535].iter().all(|count| *count == 1));
    assert_eq!(counts[65535], 0);
}

#[test]
fn without_workers_nothing_is_probed() {
    let probed = RefCell::new(0u32);
    let probe = |_addr: HostAddr, _port: u16| {
        *probed.borrow_mut() += 1;
        ConnectOutcome::Open
    };
    let target = Arguments { ipaddr: V4, threads: 0 };
    assert!(run(&target, &probe).is_empty());
    assert_eq!(*probed.borrow(), 0);
}

#[test]
fn a_host_with_every_port_open_is_reported_whole() {
    let target = Arguments { ipaddr: V4, threads: 4 };
    let report = run(&target, &|_addr: HostAddr, _port: u16| ConnectOutcome::Open);
    assert_eq!(report.len(), 65534);
    assert!(report.iter().enumerate().all(|(at, port)| *port as usize == at + 1));
}
