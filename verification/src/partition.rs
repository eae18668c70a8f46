//! The strided division of the port space among the workers.
//!
//! Worker `i` of `w` starts at port `i + 1` and advances by `w`. It stops once
//! the distance from its current port to the last port is at most `w`, so a
//! step is taken only when it lands strictly below the last port. The last
//! port is therefore visited only by a worker that starts on it.

use vstd::arithmetic::div_mod::*;
use vstd::prelude::*;

verus! {

/// The highest port number.
pub const MAX: u16 = 65535;

/// Whether `port` is one of the ports that the worker with index `worker`
/// visits when it advances by `stride`.
pub open spec fn visits(worker: int, stride: int, port: int) -> bool {
    &&& 0 <= worker
    &&& 1 <= stride
    &&& worker + 1 <= port <= MAX
    &&& (port - (worker + 1)) % stride == 0
    &&& (port == worker + 1 || port < MAX)
}

/// Whether some worker visits `port` when `stride` workers share the scan.
pub open spec fn covered(stride: int, port: int) -> bool {
    &&& 1 <= stride
    &&& 1 <= port <= MAX
    &&& (port < MAX || stride == MAX)
}

/// The index of the worker in whose arithmetic sequence `port` lies.
pub open spec fn owner(stride: int, port: int) -> int {
    (port - 1) % stride
}

/// The port at which the worker with index `worker` begins.
pub fn first_port(worker: u16) -> (port: u16)
    requires
        worker < MAX,
    ensures
        port == worker + 1,
{
    worker + 1
}

/// The port that follows `port` for a worker advancing by `stride`, or `None`
/// when `port` is the last one of its partition.
pub fn next_port(port: u16, stride: u16) -> (next: Option<u16>)
    ensures
        next is Some <==> MAX - port > stride,
        next is Some ==> next->0 == port + stride,
{
    if MAX - port <= stride {
        None
    } else {
        Some(port + stride)
    }
}

/// Two multiples of `stride` that differ are at least `stride` apart.
pub proof fn lemma_multiples_apart(a: int, b: int, stride: int)
    requires
        1 <= stride,
        a % stride == 0,
        b % stride == 0,
        a < b,
    ensures
        a + stride <= b,
{
    lemma_fundamental_div_mod(a, stride);
    lemma_fundamental_div_mod(b, stride);
    let qa = a / stride;
    let qb = b / stride;
    assert(qa < qb) by (nonlinear_arith)
        requires
            1 <= stride,
            a == stride * qa,
            b == stride * qb,
            a < b,
    ;
    assert(stride * qa + stride <= stride * qb) by (nonlinear_arith)
        requires
            1 <= stride,
            qa + 1 <= qb,
    ;
}

/// No port is visited by two workers of one scan.
pub proof fn lemma_partitions_disjoint(first: int, second: int, stride: int, port: int)
    requires
        0 <= first < stride,
        0 <= second < stride,
        first != second,
    ensures
        !(visits(first, stride, port) && visits(second, stride, port)),
{
    if visits(first, stride, port) && visits(second, stride, port) {
        let a = port - (first + 1);
        let b = port - (second + 1);
        if a < b {
            lemma_multiples_apart(a, b, stride);
        } else {
            lemma_multiples_apart(b, a, stride);
        }
    }
}

/// A covered port is visited by its owner, which is one of the workers.
pub proof fn lemma_owner_visits(stride: int, port: int)
    requires
        covered(stride, port),
    ensures
        0 <= owner(stride, port) < stride,
        visits(owner(stride, port), stride, port),
{
    let w = owner(stride, port);
    lemma_mod_pos_bound(port - 1, stride);
    lemma_fundamental_div_mod(port - 1, stride);
    let q = (port - 1) / stride;
    assert(port - (w + 1) == stride * q);
    lemma_mod_multiples_basic(q, stride);
    assert((stride * q) % stride == 0) by {
        assert(stride * q == q * stride) by (nonlinear_arith);
    }
    assert(0 <= q) by (nonlinear_arith)
        requires
            1 <= stride,
            0 <= w < stride,
            port - 1 == stride * q + w,
            port >= 1,
    ;
    assert(w + 1 <= port) by (nonlinear_arith)
        requires
            1 <= stride,
            0 <= q,
            port - (w + 1) == stride * q,
    ;
    if port == MAX {
        assert(stride == MAX);
        lemma_small_mod((port - 1) as nat, stride as nat);
    }
}

/// Whatever one of the workers visits is covered, and that worker is its owner.
pub proof fn lemma_visited_is_covered(worker: int, stride: int, port: int)
    requires
        0 <= worker < stride <= MAX,
        visits(worker, stride, port),
    ensures
        covered(stride, port),
        worker == owner(stride, port),
{
    if port == MAX {
        assert(worker + 1 == MAX);
    }
    let a = port - (worker + 1);
    lemma_fundamental_div_mod(a, stride);
    let q = a / stride;
    assert(port - 1 == stride * q + worker);
    lemma_fundamental_div_mod_converse_mod(port - 1, stride, q, worker);
}

/// The partitions of the workers of one scan are pairwise disjoint, and their
/// union is the set of covered ports: every port but the last, and the last
/// one too when there are as many workers as ports.
pub proof fn lemma_partitions_cover(stride: int)
    requires
        1 <= stride <= MAX,
    ensures
        forall|port: int| #[trigger]
            covered(stride, port) ==> 0 <= owner(stride, port) < stride && visits(
                owner(stride, port),
                stride,
                port,
            ),
        forall|worker: int, port: int|
            0 <= worker < stride && #[trigger] visits(worker, stride, port) ==> covered(
                stride,
                port,
            ) && worker == owner(stride, port),
{
    assert forall|port: int| #[trigger] covered(stride, port) implies 0 <= owner(stride, port)
        < stride && visits(owner(stride, port), stride, port) by {
        lemma_owner_visits(stride, port);
    }
    assert forall|worker: int, port: int|
        0 <= worker < stride && #[trigger] visits(worker, stride, port) implies covered(
        stride,
        port,
    ) && worker == owner(stride, port) by {
        lemma_visited_is_covered(worker, stride, port);
    }
}

} // verus!
