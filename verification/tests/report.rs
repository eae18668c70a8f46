use ip_sniffer::connector::{ConnectOutcome, HostAddr};
use ip_sniffer::coordinator::scan;
use ip_sniffer::report::{port_text, report_line, report_lines, sort_ports};

#[test]
fn ports_are_put_in_ascending_order() {
    assert_eq!(sort_ports(vec![443, 22, 8080, 80]), vec![22, 80, 443, 8080]);
    assert_eq!(sort_ports(vec![3, 2, 1]), vec![1, 2, 3]);
    assert_eq!(sort_ports(vec![1, 2, 3]), vec![1, 2, 3]);
}

#[test]
fn sorting_nothing_gives_nothing() {
    assert_eq!(sort_ports(Vec::new()), Vec::<u16>::new());
    assert_eq!(sort_ports(vec![7]), vec![7]);
}

#[test]
fn sorting_keeps_a_port_that_arrived_twice() {
    assert_eq!(sort_ports(vec![5, 1, 5, 0, 65535, 1]), vec![0, 1, 1, 5, 5, 65535]);
}

#[test]
fn the_report_ascends_when_workers_report_in_reverse() {
    let host = HostAddr::V4(0x0a00_0001);
    let open = [21u16, 22, 25, 80, 110, 143, 443, 993, 3389, 8443];
    let probe = |_addr: HostAddr, port: u16| ConnectOutcome::from_attempt(open.contains(&port));
    let mut arrived: Vec<u16> = Vec::new();
    for worker in (0..4u16).rev() {
        let mut found = scan(worker, host, 4, &probe);
        found.reverse();
        arrived.extend(found);
    }
    assert_eq!(arrived, vec![80, 8443, 443, 143, 110, 22, 3389, 993, 25, 21]);
    assert_eq!(sort_ports(arrived), open.to_vec());
}

#[test]
fn the_report_is_the_same_for_every_order_of_arrival() {
    let orders: [[u16; 3]; 6] =
        [[1, 2, 3], [1, 3, 2], [2, 1, 3], [2, 3, 1], [3, 1, 2], [3, 2, 1]];
    for order in orders {
        assert_eq!(sort_ports(order.to_vec()), vec![1, 2, 3]);
    }
}

#[test]
fn a_long_descending_arrival_is_sorted() {
    let arrived: Vec<u16> = (1..=5000u16).rev().collect();
    let wanted: Vec<u16> = (1..=5000u16).collect();
    assert_eq!(sort_ports(arrived), wanted);
}

#[test]
fn a_port_is_written_in_decimal() {
    assert_eq!(port_text(0), "0");
    assert_eq!(port_text(7), "7");
    assert_eq!(port_text(10), "10");
    assert_eq!(port_text(99), "99");
    assert_eq!(port_text(100), "100");
    assert_eq!(port_text(1000), "1000");
    assert_eq!(port_text(8080), "8080");
    assert_eq!(port_text(10000), "10000");
    assert_eq!(port_text(10001), "10001");
    assert_eq!(port_text(60309), "60309");
    assert_eq!(port_text(65535), "65535");
}

#[test]
fn every_port_is_written_as_the_standard_library_writes_it() {
    for port in 0..=65535u16 {
        assert_eq!(port_text(port), format!("{}", port));
    }
}

#[test]
fn a_line_names_the_port_and_says_that_it_is_open() {
    assert_eq!(report_line(80), "80 is open");
    assert_eq!(report_line(1), "1 is open");
    assert_eq!(report_line(65535), "65535 is open");
}

#[test]
fn the_lines_start_with_an_empty_one() {
    assert_eq!(
        report_lines(&[22, 80, 443]),
        vec!["".to_string(), "22 is open".to_string(), "80 is open".to_string(), "443 is open".to_string()]
    );
}

#[test]
fn the_lines_follow_the_order_of_the_report() {
    assert_eq!(
        report_lines(&[9, 3]),
        vec!["".to_string(), "9 is open".to_string(), "3 is open".to_string()]
    );
}
