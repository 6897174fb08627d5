//! Reachability of hosts: what is known of each host, and the TCP checks
//! that are asked for.
use vstd::prelude::*;

verus! {

#[derive(Debug, Clone, Copy, PartialEq, Eq, Structural)]
pub enum HostReachability {
    Unchecked,
    Checking,
    Reachable,
    Unreachable,
}

/// A TCP check to run: the host's index, the address to connect to and the
/// port.
#[derive(Debug, Clone, PartialEq, Eq)]
pub struct CheckTarget {
    pub host_index: usize,
    pub host: String,
    pub port: u16,
}

pub struct CheckTargetView {
    pub host_index: usize,
    pub host: Seq<char>,
    pub port: u16,
}

impl View for CheckTarget {
    type V = CheckTargetView;

    open spec fn view(&self) -> CheckTargetView {
        CheckTargetView { host_index: self.host_index, host: self.host@, port: self.port }
    }
}

pub open spec fn target_views(t: Seq<CheckTarget>) -> Seq<CheckTargetView> {
    t.map_values(|x: CheckTarget| x@)
}

/// The outcome of a check.
#[derive(Debug, Clone, Copy, PartialEq, Eq)]
pub struct CheckResult {
    pub host_index: usize,
    pub reachability: HostReachability,
}

/// The outcome of a check from whether a connection was made.
pub fn check_outcome(host_index: usize, connected: bool) -> (r: CheckResult)
    ensures
        r.host_index == host_index,
        r.reachability == if connected {
            HostReachability::Reachable
        } else {
            HostReachability::Unreachable
        },
{
    CheckResult {
        host_index,
        reachability: if connected {
            HostReachability::Reachable
        } else {
            HostReachability::Unreachable
        },
    }
}

/// How many workers run the checks: one per target, at most eight.
pub fn worker_count(targets: usize) -> (r: usize)
    ensures
        r == if targets < 8 {
            targets
        } else {
            8
        },
{
    if targets < 8 {
        targets
    } else {
        8
    }
}

/// The time, in nanoseconds, that the next connection attempt may take:
/// what is left of the timeout, capped at `u64::MAX`, or `None` once the
/// timeout has passed and no attempt is made.
pub fn attempt_budget_ns(timeout_ns: u128, elapsed_ns: u128) -> (r: Option<u64>)
    ensures
        r == if elapsed_ns <= timeout_ns {
            Some(
                if timeout_ns - elapsed_ns <= u64::MAX {
                    (timeout_ns - elapsed_ns) as u64
                } else {
                    u64::MAX
                },
            )
        } else {
            None::<u64>
        },
{
    match remaining_time(timeout_ns, elapsed_ns) {
        Some(left) => if left <= u64::MAX as u128 {
            Some(left as u64)
        } else {
            Some(u64::MAX)
        },
        None => None,
    }
}

/// Whether another address may still be tried: the time left of `timeout`
/// after `elapsed` (both in nanoseconds), or `None` once it is spent.
pub fn remaining_time(timeout_ns: u128, elapsed_ns: u128) -> (r: Option<u128>)
    ensures
        r == if elapsed_ns <= timeout_ns {
            Some((timeout_ns - elapsed_ns) as u128)
        } else {
            None::<u128>
        },
{
    if elapsed_ns <= timeout_ns {
        Some(timeout_ns - elapsed_ns)
    } else {
        None
    }
}

} // verus!
