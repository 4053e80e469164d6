//! TCP keepalive settings of relayed connections.

use vstd::prelude::*;

verus! {

/// Keepalive to set on a TCP socket: idle time and probe interval in
/// seconds, and the number of probes.
#[derive(Debug, Clone, Copy, PartialEq, Eq, Structural)]
pub struct Keepalive {
    pub time_secs: u64,
    pub interval_secs: u64,
    pub retries: u32,
}

/// The keepalive of a connection with `tcp_keepalive` seconds and
/// `tcp_keepalive_probe` probes: none when `tcp_keepalive` is 0; otherwise
/// idle time and interval both `tcp_keepalive`, and the probe count taken
/// as a `u32` (truncated, as `as` does).
pub fn build_keepalive(tcp_keepalive: usize, tcp_keepalive_probe: usize) -> (r: Option<Keepalive>)
    ensures
        tcp_keepalive == 0 ==> r is None,
        tcp_keepalive != 0 ==> r == Some(Keepalive {
            time_secs: tcp_keepalive as u64,
            interval_secs: tcp_keepalive as u64,
            retries: tcp_keepalive_probe as u32,
        }),
{
    if tcp_keepalive == 0 {
        return None;
    }
    let secs = tcp_keepalive as u64;
    Some(Keepalive { time_secs: secs, interval_secs: secs, retries: tcp_keepalive_probe as u32 })
}

/// What to do next while connecting to a target's resolved addresses, one
/// after another.
#[derive(Debug, Clone, Copy, PartialEq, Eq, Structural)]
pub enum ConnectAction {
    /// Use the connection made to address `i`.
    Use(usize),
    /// Try address `i`.
    Try(usize),
    /// Give up with the error of the attempt on address `i`, the last one.
    FailWith(usize),
    /// Give up: there was no address to try.
    NoAddress,
}

/// Index of the first `true` in `s`, if any.
pub open spec fn first_true(s: Seq<bool>) -> Option<int>
    decreases s.len(),
{
    if s.len() == 0 {
        None
    } else {
        match first_true(s.drop_last()) {
            Some(i) => Some(i),
            None => if s.last() {
                Some(s.len() - 1)
            } else {
                None
            },
        }
    }
}

/// The next step after the attempts so far (`connected[i]` tells whether
/// address `i` connected) among `addresses` addresses: the first success
/// wins; otherwise the next address is tried while one is left; then the
/// last attempt's error is returned, or "not connected" when there was no
/// address at all.
pub open spec fn spec_connect_next(connected: Seq<bool>, addresses: nat) -> ConnectAction {
    match first_true(connected) {
        Some(i) => ConnectAction::Use(i as usize),
        None => if connected.len() < addresses {
            ConnectAction::Try(connected.len() as usize)
        } else if connected.len() > 0 {
            ConnectAction::FailWith((connected.len() - 1) as usize)
        } else {
            ConnectAction::NoAddress
        },
    }
}

pub fn connect_next(connected: &Vec<bool>, addresses: usize) -> (r: ConnectAction)
    ensures
        r == spec_connect_next(connected@, addresses as nat),
{
    let mut i: usize = 0;
    while i < connected.len()
        invariant
            i <= connected.len(),
            first_true(connected@.take(i as int)) is None,
        decreases connected.len() - i,
    {
        proof {
            assert(connected@.take(i + 1).drop_last() == connected@.take(i as int));
        }
        if connected[i] {
            proof {
                lemma_first_true_prefix(connected@, i as int + 1);
            }
            return ConnectAction::Use(i);
        }
        i = i + 1;
    }
    proof {
        assert(connected@.take(connected.len() as int) == connected@);
    }
    if connected.len() < addresses {
        ConnectAction::Try(connected.len())
    } else if connected.len() > 0 {
        ConnectAction::FailWith(connected.len() - 1)
    } else {
        ConnectAction::NoAddress
    }
}

/// A first `true` within a prefix is the first `true` of the whole.
proof fn lemma_first_true_prefix(s: Seq<bool>, k: int)
    requires
        0 <= k <= s.len(),
        first_true(s.take(k)) is Some,
    ensures
        first_true(s) == first_true(s.take(k)),
    decreases s.len() - k,
{
    if k < s.len() {
        assert(s.take(k + 1).drop_last() == s.take(k));
        lemma_first_true_prefix(s, k + 1);
    } else {
        assert(s.take(k) == s);
    }
}

} // verus!
