//! The final report: the ports that were found open, in ascending order, and
//! the lines in which they are printed.

use vstd::prelude::*;
use vstd::string::*;
use vstd::relations::{sorted_by, total_ordering};
use vstd::seq_lib::{lemma_sorted_unique, to_multiset_build, to_multiset_insert};

verus! {

/// No port is smaller than one before it.
pub open spec fn ascending(ports: Seq<u16>) -> bool {
    forall|i: int, j: int| 0 <= i < j < ports.len() ==> ports[i] <= ports[j]
}

/// `report` holds the ports of `found`, each as often as `found` does, in
/// ascending order.
pub open spec fn arranges(report: Seq<u16>, found: Seq<u16>) -> bool {
    &&& ascending(report)
    &&& report.to_multiset() == found.to_multiset()
}

/// Where `port` goes in an ascending `report`: behind every port that is not
/// greater than it.
fn insertion_point(report: &Vec<u16>, port: u16) -> (at: usize)
    requires
        ascending(report@),
    ensures
        at <= report.len(),
        forall|i: int| 0 <= i < at ==> report[i] <= port,
        forall|i: int| at <= i < report.len() ==> port < report[i],
{
    let mut low: usize = 0;
    let mut high: usize = report.len();
    while low < high
        invariant
            low <= high <= report.len(),
            ascending(report@),
            forall|i: int| 0 <= i < low ==> report[i] <= port,
            forall|i: int| high <= i < report.len() ==> port < report[i],
        decreases high - low,
    {
        let middle: usize = low + (high - low) / 2;
        if report[middle] <= port {
            low = middle + 1;
        } else {
            high = middle;
        }
    }
    low
}

/// Puts the ports that arrived, in whatever order, into ascending order.
pub fn sort_ports(found: Vec<u16>) -> (report: Vec<u16>)
    ensures
        arranges(report@, found@),
{
    let mut report: Vec<u16> = Vec::new();
    let mut taken: usize = 0;
    proof {
        assert(found@.take(0) == report@);
    }
    while taken < found.len()
        invariant
            taken <= found.len(),
            ascending(report@),
            report@.to_multiset() == found@.take(taken as int).to_multiset(),
        decreases found.len() - taken,
    {
        let port: u16 = found[taken];
        let at: usize = insertion_point(&report, port);
        proof {
            to_multiset_insert(report@, at as int, port);
            to_multiset_build(found@.take(taken as int), port);
            assert(found@.take(taken + 1) == found@.take(taken as int).push(port));
        }
        report.insert(at, port);
        taken += 1;
    }
    proof {
        assert(found@.take(taken as int) == found@);
    }
    report
}

/// Only one ascending sequence holds given ports a given number of times.
pub proof fn lemma_ascending_unique(first: Seq<u16>, second: Seq<u16>)
    requires
        ascending(first),
        ascending(second),
        first.to_multiset() == second.to_multiset(),
    ensures
        first == second,
{
    let leq = |a: u16, b: u16| a <= b;
    assert(sorted_by(first, leq));
    assert(sorted_by(second, leq));
    assert(total_ordering(leq));
    lemma_sorted_unique(first, second, leq);
}

/// The report does not depend on the order in which the findings arrived:
/// two arrivals of the same ports have the same report.
pub proof fn lemma_arrival_order_immaterial(
    first: Seq<u16>,
    second: Seq<u16>,
    first_report: Seq<u16>,
    second_report: Seq<u16>,
)
    requires
        first.to_multiset() == second.to_multiset(),
        arranges(first_report, first),
        arranges(second_report, second),
    ensures
        first_report == second_report,
{
    lemma_ascending_unique(first_report, second_report);
}

/// The character that stands for a digit's value.
pub open spec fn digit(value: int) -> char {
    ('0' as int + value) as char
}

/// A number written in decimal digits, without leading zeros.
pub open spec fn decimal(number: nat) -> Seq<char>
    decreases number,
{
    if number < 10 {
        seq![digit(number as int)]
    } else {
        decimal(number / 10).push(digit((number % 10) as int))
    }
}

/// The line that reports `port` as open.
pub open spec fn line_of(port: u16) -> Seq<char> {
    decimal(port as nat) + " is open"@
}

/// The lines that follow a scan: an empty one, then one for each port of the
/// report.
pub open spec fn lines_of(report: Seq<u16>) -> Seq<Seq<char>> {
    Seq::new(
        report.len() + 1,
        |i: int|
            if i == 0 {
                Seq::<char>::empty()
            } else {
                line_of(report[i - 1])
            },
    )
}

/// The one character that stands for a digit's value.
fn digit_str(value: u16) -> (text: &'static str)
    requires
        value < 10,
    ensures
        text@ == seq![digit(value as int)],
{
    proof {
        reveal_strlit("0");
        reveal_strlit("1");
        reveal_strlit("2");
        reveal_strlit("3");
        reveal_strlit("4");
        reveal_strlit("5");
        reveal_strlit("6");
        reveal_strlit("7");
        reveal_strlit("8");
        reveal_strlit("9");
    }
    let text = match value {
        0 => "0",
        1 => "1",
        2 => "2",
        3 => "3",
        4 => "4",
        5 => "5",
        6 => "6",
        7 => "7",
        8 => "8",
        _ => "9",
    };
    proof {
        assert(text@ =~= seq![digit(value as int)]);
    }
    text
}

/// Writes a port number in decimal digits.
pub fn port_text(port: u16) -> (text: String)
    ensures
        text@ == decimal(port as nat),
{
    let mut text = String::new();
    if port >= 10000 {
        text.append(digit_str(port / 10000));
    }
    if port >= 1000 {
        text.append(digit_str(port / 1000 % 10));
    }
    if port >= 100 {
        text.append(digit_str(port / 100 % 10));
    }
    if port >= 10 {
        text.append(digit_str(port / 10 % 10));
    }
    text.append(digit_str(port % 10));
    proof {
        let n = port as nat;
        assert(decimal(n / 10000) == seq![digit((n / 10000) as int)]);
        if n >= 10000 {
            assert(decimal(n / 1000) == decimal(n / 10000).push(digit((n / 1000 % 10) as int)));
        }
        if n >= 1000 {
            assert(decimal(n / 100) == decimal(n / 1000).push(digit((n / 100 % 10) as int)));
        }
        if n >= 100 {
            assert(decimal(n / 10) == decimal(n / 100).push(digit((n / 10 % 10) as int)));
        }
        if n >= 10 {
            assert(decimal(n) == decimal(n / 10).push(digit((n % 10) as int)));
        }
        assert(text@ =~= decimal(n));
    }
    text
}

/// Writes the line that reports `port` as open.
pub fn report_line(port: u16) -> (line: String)
    ensures
        line@ == line_of(port),
{
    let mut line = port_text(port);
    line.append(" is open");
    line
}

/// Writes the lines that follow a scan: an empty one, then one for each port
/// of the report, in the report's order.
pub fn report_lines(report: &[u16]) -> (lines: Vec<String>)
    ensures
        lines.deep_view() == lines_of(report@),
{
    let mut lines: Vec<String> = Vec::new();
    lines.push(String::new());
    let mut at: usize = 0;
    while at < report.len()
        invariant
            at <= report.len(),
            lines.len() == at + 1,
            lines[0]@ == Seq::<char>::empty(),
            forall|i: int| 1 <= i <= at ==> (#[trigger] lines[i])@ == line_of(report[i - 1]),
        decreases report.len() - at,
    {
        lines.push(report_line(report[at]));
        at += 1;
    }
    proof {
        assert(lines.deep_view() =~= lines_of(report@));
    }
    lines
}

} // verus!
