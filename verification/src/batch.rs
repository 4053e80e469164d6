//! A batch of received UDP packets, grouped by the client that sent them so
//! that each client's packets go out through one downstream socket.

use vstd::prelude::*;
use core::ops::Range;

use crate::addr::PeerAddr;

verus! {

broadcast use vstd::seq_lib::group_to_multiset_ensures;

pub const MAX_PACKETS: usize = 128;

pub const PACKET_SIZE: usize = 1500;

/// One received datagram: its buffer, sender and length.
#[derive(Debug, Clone, Copy)]
pub struct Packet {
    pub buf: [u8; PACKET_SIZE],
    pub peer: PeerAddr,
    pub len: u16,
}

impl Packet {
    /// The bytes received: the first `len` bytes of the buffer.
    pub fn payload(&self) -> (r: &[u8])
        requires
            self.len <= PACKET_SIZE,
        ensures
            r@ == self.buf@.take(self.len as int),
    {
        self.buf.as_slice().split_at(self.len as usize).0
    }
}

/// The kinds of socket error that the relay tells apart.
#[derive(Debug, Clone, Copy, PartialEq, Eq, Structural)]
pub enum IoErrorKind {
    ConnectionReset,
    ConnectionAborted,
    Other,
}

/// Errors after which the relay goes on receiving: a peer reset or aborted.
pub fn recoverable(kind: IoErrorKind) -> (r: bool)
    ensures
        r == recoverable_spec(kind),
{
    match kind {
        IoErrorKind::ConnectionReset | IoErrorKind::ConnectionAborted => true,
        IoErrorKind::Other => false,
    }
}

/// `gs` splits `d` into consecutive non-empty runs, each of packets from one
/// peer, no two runs from the same peer.
pub open spec fn is_peer_grouping(d: Seq<Packet>, gs: Seq<Range<u16>>) -> bool {
    &&& (gs.len() == 0 <==> d.len() == 0)
    &&& gs.len() > 0 ==> gs[0].start == 0 && gs.last().end == d.len()
    &&& forall|i: int| 0 <= i < gs.len() ==> #[trigger] gs[i].start < gs[i].end
    &&& forall|i: int| 0 <= i < gs.len() - 1 ==> #[trigger] gs[i].end == gs[i + 1].start
    &&& forall|i: int, j: int|
        #![trigger gs[i], d[j]]
        0 <= i < gs.len() && gs[i].start <= j < gs[i].end ==> d[j].peer == d[gs[i].start as int].peer
    &&& forall|i: int, k: int|
        0 <= i < k < gs.len() ==> d[#[trigger] gs[i].start as int].peer != d[#[trigger] gs[k].start as int].peer
}

proof fn lemma_swap_multiset(s: Seq<Packet>, i: int, j: int)
    requires
        0 <= i < s.len(),
        0 <= j < s.len(),
    ensures
        s.update(i, s[j]).update(j, s[i]).to_multiset() == s.to_multiset(),
{
    broadcast use vstd::seq_lib::to_multiset_update;
    broadcast use vstd::multiset::group_multiset_axioms;

    let s1 = s.update(i, s[j]);
    if i == j {
        assert(s1 == s);
        assert(s1.update(j, s[i]) == s);
    } else {
        assert(s1[j] == s[j]);
        assert(s.to_multiset().count(s[i]) > 0);
        assert(s1.update(j, s[i]).to_multiset() =~= s.to_multiset());
    }
}

/// Groups the first `count` packets of `data` by peer: reorders them so that
/// each peer's packets stand together, and appends one range per peer to
/// `groups`. The packets are only permuted; those after `count` stay.
/// The first `beg` packets of `d` are split by `gs` into consecutive runs of
/// one peer each, and no packet in `d[run end..n]` comes from a run's peer.
pub open spec fn grouped_prefix(d: Seq<Packet>, gs: Seq<Range<u16>>, beg: int, n: int) -> bool {
    &&& (gs.len() == 0 <==> beg == 0)
    &&& gs.len() > 0 ==> gs[0].start == 0 && gs.last().end == beg
    &&& forall|i: int| 0 <= i < gs.len() ==> #[trigger] gs[i].start < gs[i].end
    &&& forall|i: int| 0 <= i < gs.len() - 1 ==> #[trigger] gs[i].end == gs[i + 1].start
    &&& forall|i: int, j: int|
        #![trigger gs[i], d[j]]
        0 <= i < gs.len() && gs[i].start <= j < gs[i].end ==> d[j].peer == d[gs[i].start as int].peer
    &&& forall|i: int, j: int|
        #![trigger gs[i], d[j]]
        0 <= i < gs.len() && gs[i].end <= j < n ==> d[j].peer != d[gs[i].start as int].peer
}

proof fn lemma_grouped_prefix_reorder(
    d0: Seq<Packet>,
    d1: Seq<Packet>,
    gs: Seq<Range<u16>>,
    beg: int,
    end: int,
    n: int,
)
    requires
        0 <= beg < end <= n <= d0.len() == d1.len(),
        grouped_prefix(d0, gs, beg, n),
        forall|j: int| 0 <= j < end ==> #[trigger] d1[j] == d0[j],
        forall|j: int| end <= j < n ==> exists|k: int| end <= k < n && #[trigger] d1[j] == d0[k],
    ensures
        grouped_prefix(d1, gs, beg, n),
{
    if gs.len() > 0 {
        assert forall|i: int, j: int|
            #![trigger gs[i], d1[j]]
            0 <= i < gs.len() && gs[i].start <= j < gs[i].end implies d1[j].peer
                == d1[gs[i].start as int].peer by {
            lemma_runs_ordered_last(gs, i);
            assert(d1[j] == d0[j]);
            assert(d1[gs[i].start as int] == d0[gs[i].start as int]);
            assert(d0[j].peer == d0[gs[i].start as int].peer);
        }
        assert forall|i: int, j: int|
            #![trigger gs[i], d1[j]]
            0 <= i < gs.len() && gs[i].end <= j < n implies d1[j].peer != d1[gs[i].start as int].peer by {
            lemma_runs_ordered_last(gs, i);
            assert(d1[gs[i].start as int] == d0[gs[i].start as int]);
            if j >= end {
                let k = choose|k: int| end <= k < n && d1[j] == d0[k];
                assert(d0[k].peer != d0[gs[i].start as int].peer);
            } else {
                assert(d1[j] == d0[j]);
                assert(d0[j].peer != d0[gs[i].start as int].peer);
            }
        }
    }
}

proof fn lemma_grouped_prefix_push(d: Seq<Packet>, gs: Seq<Range<u16>>, beg: int, end: int, n: int)
    requires
        0 <= beg < end <= n <= d.len(),
        n <= u16::MAX,
        grouped_prefix(d, gs, beg, n),
        forall|j: int| beg <= j < end ==> #[trigger] d[j].peer == d[beg].peer,
        forall|j: int| end <= j < n ==> #[trigger] d[j].peer != d[beg].peer,
    ensures
        grouped_prefix(d, gs.push((beg as u16)..(end as u16)), end, n),
{
    let g = gs.push((beg as u16)..(end as u16));
    assert(g[gs.len() as int].start == beg);
    assert(g[gs.len() as int].end == end);
    assert forall|i: int| 0 <= i < g.len() - 1 implies #[trigger] g[i].end == g[i + 1].start by {
        if i < g.len() - 2 {
            assert(g[i] == gs[i]);
            assert(g[i + 1] == gs[i + 1]);
        }
    }
    assert forall|i: int| 0 <= i < g.len() implies #[trigger] g[i].start < g[i].end by {
        if i < gs.len() {
            assert(g[i] == gs[i]);
        }
    }
    assert forall|i: int, j: int|
        #![trigger g[i], d[j]]
        0 <= i < g.len() && g[i].start <= j < g[i].end implies d[j].peer == d[g[i].start as int].peer by {
        if i < gs.len() {
            assert(g[i] == gs[i]);
            assert(d[j].peer == d[gs[i].start as int].peer);
        }
    }
    assert forall|i: int, j: int|
        #![trigger g[i], d[j]]
        0 <= i < g.len() && g[i].end <= j < n implies d[j].peer != d[g[i].start as int].peer by {
        if i < gs.len() {
            assert(g[i] == gs[i]);
            assert(d[j].peer != d[gs[i].start as int].peer);
        }
    }
}

proof fn lemma_grouped_prefix_complete(d: Seq<Packet>, gs: Seq<Range<u16>>, n: int)
    requires
        0 < n <= d.len(),
        grouped_prefix(d, gs, n, n),
    ensures
        is_peer_grouping(d.take(n), gs),
{
    let t = d.take(n);
    assert forall|i: int, j: int|
        #![trigger gs[i], t[j]]
        0 <= i < gs.len() && gs[i].start <= j < gs[i].end implies t[j].peer == t[gs[i].start as int].peer by {
        lemma_runs_ordered_last(gs, i);
        assert(d[j].peer == d[gs[i].start as int].peer);
    }
    assert forall|i: int, k: int|
        0 <= i < k < gs.len() implies t[#[trigger] gs[i].start as int].peer != t[#[trigger] gs[k].start as int].peer by {
        lemma_runs_ordered(gs, i, k);
        lemma_runs_ordered_last(gs, k);
        assert(d[gs[k].start as int].peer != d[gs[i].start as int].peer);
    }
}

/// One gathering scan behind a run: going through `d[probe..n]`, each
/// packet of `d[beg]`'s peer is swapped into position `end`, which then moves
/// up by one. Gives the reordered packets and the run's new end.
pub open spec fn gather_spec(d: Seq<Packet>, beg: int, end: int, probe: int, n: int) -> (Seq<Packet>, int)
    decreases n - probe,
{
    if probe >= n {
        (d, end)
    } else if d[probe].peer == d[beg].peer {
        gather_spec(d.update(probe, d[end]).update(end, d[probe]), beg, end + 1, probe + 1, n)
    } else {
        gather_spec(d, beg, end, probe + 1, n)
    }
}

pub proof fn lemma_gather_spec_end(d: Seq<Packet>, beg: int, end: int, probe: int, n: int)
    ensures
        gather_spec(d, beg, end, probe, n).1 >= end,
        probe <= n ==> gather_spec(d, beg, end, probe, n).1 <= end + (n - probe),
    decreases n - probe,
{
    if probe < n {
        if d[probe].peer == d[beg].peer {
            lemma_gather_spec_end(d.update(probe, d[end]).update(end, d[probe]), beg, end + 1, probe + 1, n);
        } else {
            lemma_gather_spec_end(d, beg, end, probe + 1, n);
        }
    }
}

/// The grouping pass over `d[..n]` from a run `d[beg..end]` of one peer on:
/// the run is extended while the next packet is of its peer; otherwise the
/// rest of the peer's packets are gathered behind it (`gather_spec`), the
/// run is closed, and the pass goes on from the packet after it. Gives the
/// reordered packets and the ranges of the runs, in order.
pub open spec fn grouping_spec(d: Seq<Packet>, beg: int, end: int, n: int) -> (Seq<Packet>, Seq<Range<u16>>)
    decreases n - end,
{
    if end >= n {
        (d, seq![(beg as u16)..(end as u16)])
    } else if d[end].peer == d[beg].peer {
        grouping_spec(d, beg, end + 1, n)
    } else {
        let g = gather_spec(d, beg, end, end + 1, n);
        proof {
            lemma_gather_spec_end(d, beg, end, end + 1, n);
        }
        let rest = grouping_spec(g.0, g.1, g.1 + 1, n);
        (rest.0, seq![(beg as u16)..(g.1 as u16)] + rest.1)
    }
}

/// Moves every packet of `d[beg]`'s peer found in `d[end+1..n]` to the front
/// of that range, returning the new end of the run that starts at `beg`.
fn gather_run(data: &mut Vec<Packet>, beg: usize, end: usize, n: usize) -> (new_end: usize)
    requires
        beg < end < n <= old(data).len(),
        forall|j: int| beg <= j < end ==> #[trigger] old(data)@[j].peer == old(data)@[beg as int].peer,
        old(data)@[end as int].peer != old(data)@[beg as int].peer,
    ensures
        end <= new_end < n,
        final(data).len() == old(data).len(),
        final(data)@.take(n as int).to_multiset() == old(data)@.take(n as int).to_multiset(),
        final(data)@.skip(n as int) == old(data)@.skip(n as int),
        forall|j: int| 0 <= j < end ==> #[trigger] final(data)@[j] == old(data)@[j],
        forall|j: int| end <= j < n ==> exists|k: int| end <= k < n && #[trigger] final(data)@[j] == old(data)@[k],
        forall|j: int| beg <= j < new_end ==> #[trigger] final(data)@[j].peer == final(data)@[beg as int].peer,
        forall|j: int| new_end <= j < n ==> #[trigger] final(data)@[j].peer != final(data)@[beg as int].peer,
        (final(data)@, new_end as int) == gather_spec(old(data)@, beg as int, end as int, end + 1, n as int),
{
    let ghost before = data@;
    let mut run_end: usize = end;
    let mut probe: usize = end + 1;
    while probe < n
        invariant
            beg < end <= run_end < probe <= n <= data.len() == before.len(),
            data@.take(n as int).to_multiset() == before.take(n as int).to_multiset(),
            data@.skip(n as int) == before.skip(n as int),
            forall|j: int| 0 <= j < end ==> #[trigger] data@[j] == before[j],
            forall|j: int| beg <= j < run_end ==> #[trigger] data@[j].peer == data@[beg as int].peer,
            forall|j: int| run_end <= j < probe ==> #[trigger] data@[j].peer != data@[beg as int].peer,
            forall|j: int| end <= j < n ==> exists|k: int| end <= k < n && #[trigger] data@[j] == before[k],
            gather_spec(data@, beg as int, run_end as int, probe as int, n as int) == gather_spec(
                before,
                beg as int,
                end as int,
                end + 1,
                n as int,
            ),
        decreases n - probe,
    {
        if data[probe].peer == data[beg].peer {
            let a = data[probe];
            let b = data[run_end];
            let ghost pre = data@;
            data[probe] = b;
            data[run_end] = a;
            proof {
                let sw = pre.update(probe as int, pre[run_end as int]).update(run_end as int, pre[probe as int]);
                assert(data@ == sw);
                lemma_swap_multiset(pre.take(n as int), probe as int, run_end as int);
                assert(data@.take(n as int) == pre.take(n as int).update(probe as int, pre[run_end as int]).update(run_end as int, pre[probe as int]));
                assert(data@.skip(n as int) == pre.skip(n as int));
                assert forall|j: int| end <= j < n implies exists|k: int| end <= k < n && #[trigger] data@[j] == before[k] by {
                    if j == probe {
                        assert(data@[j] == pre[run_end as int]);
                    } else if j == run_end {
                        assert(data@[j] == pre[probe as int]);
                    } else {
                        assert(data@[j] == pre[j]);
                    }
                }
            }
            run_end = run_end + 1;
        }
        probe = probe + 1;
    }
    run_end
}

/// Groups the first `count` packets of `data` by peer: reorders them so that
/// each peer's packets stand together, and appends one range per peer to
/// `groups`. The packets are only permuted; those after `count` stay.
pub fn group_by_peer(data: &mut Vec<Packet>, count: usize, groups: &mut Vec<Range<u16>>)
    requires
        count <= old(data).len(),
    ensures
        final(data).len() == old(data).len(),
        final(data)@.take(count as int).to_multiset() == old(data)@.take(count as int).to_multiset(),
        final(data)@.skip(count as int) == old(data)@.skip(count as int),
        final(groups)@.take(old(groups).len() as int) == old(groups)@,
        count <= u16::MAX ==> is_peer_grouping(
            final(data)@.take(count as int),
            final(groups)@.skip(old(groups).len() as int),
        ),
        count == 0 ==> final(data)@ == old(data)@ && final(groups)@ == old(groups)@,
        count > 0 ==> final(data)@ == grouping_spec(old(data)@, 0, 1, count as int).0 && final(groups)@
            == old(groups)@ + grouping_spec(old(data)@, 0, 1, count as int).1,
{
    let ghost d0 = data@;
    let ghost g0 = groups@;
    let n = count;
    if n == 0 {
        assert(groups@.skip(g0.len() as int) =~= Seq::<Range<u16>>::empty());
        assert(groups@.take(g0.len() as int) =~= g0);
        return;
    }
    let ghost mut gs: Seq<Range<u16>> = Seq::empty();
    let mut beg: usize = 0;
    let mut end: usize = 1;
    assert(groups@ == g0 + gs);
    while end < n
        invariant
            0 <= beg < end <= n,
            n == count,
            n <= data.len() == d0.len(),
            data@.take(n as int).to_multiset() == d0.take(n as int).to_multiset(),
            data@.skip(n as int) == d0.skip(n as int),
            groups@ == g0 + gs,
            n <= u16::MAX ==> grouped_prefix(data@, gs, beg as int, n as int),
            forall|j: int| beg <= j < end ==> #[trigger] data@[j].peer == data@[beg as int].peer,
            grouping_spec(data@, beg as int, end as int, n as int).0 == grouping_spec(d0, 0, 1, n as int).0,
            gs + grouping_spec(data@, beg as int, end as int, n as int).1 == grouping_spec(d0, 0, 1, n as int).1,
        decreases n - end,
    {
        if data[end].peer == data[beg].peer {
            end = end + 1;
            continue;
        }
        let ghost before = data@;
        let new_end = gather_run(data, beg, end, n);
        proof {
            let x = (beg as u16)..(new_end as u16);
            let rest = grouping_spec(data@, new_end as int, new_end + 1, n as int);
            assert(grouping_spec(before, beg as int, end as int, n as int) == (rest.0, seq![x] + rest.1));
            assert(gs.push(x) + rest.1 == gs + (seq![x] + rest.1));
            if n <= u16::MAX {
                lemma_grouped_prefix_reorder(before, data@, gs, beg as int, end as int, n as int);
                lemma_grouped_prefix_push(data@, gs, beg as int, new_end as int, n as int);
            }
        }
        groups.push(#[verifier::truncate] (beg as u16)..#[verifier::truncate] (new_end as u16));
        proof {
            gs = gs.push((beg as u16)..(new_end as u16));
        }
        beg = new_end;
        end = new_end + 1;
    }
    proof {
        if n <= u16::MAX {
            lemma_grouped_prefix_push(data@, gs, beg as int, end as int, n as int);
        }
    }
    groups.push(#[verifier::truncate] (beg as u16)..#[verifier::truncate] (end as u16));
    proof {
        assert(grouping_spec(data@, beg as int, end as int, n as int) == (data@, seq![(beg as u16)..(end as u16)]));
        assert(gs.push((beg as u16)..(end as u16)) == gs + seq![(beg as u16)..(end as u16)]);
        gs = gs.push((beg as u16)..(end as u16));
        assert(groups@.take(g0.len() as int) =~= g0);
        assert(groups@.skip(g0.len() as int) =~= gs);
        if n <= u16::MAX {
            lemma_grouped_prefix_complete(data@, gs, n as int);
        }
    }
}

proof fn lemma_runs_ordered(gs: Seq<Range<u16>>, i: int, k: int)
    requires
        0 <= i < k < gs.len(),
        forall|a: int| 0 <= a < gs.len() ==> #[trigger] gs[a].start < gs[a].end,
        forall|a: int| 0 <= a < gs.len() - 1 ==> #[trigger] gs[a].end == gs[a + 1].start,
    ensures
        gs[i].end <= gs[k].start,
    decreases k - i,
{
    if k > i + 1 {
        lemma_runs_ordered(gs, i, k - 1);
        assert(gs[k - 1].end == gs[k].start);
    } else {
        assert(gs[i].end == gs[i + 1].start);
    }
}

proof fn lemma_runs_ordered_last(gs: Seq<Range<u16>>, i: int)
    requires
        0 <= i < gs.len(),
        forall|a: int| 0 <= a < gs.len() ==> #[trigger] gs[a].start < gs[a].end,
        forall|a: int| 0 <= a < gs.len() - 1 ==> #[trigger] gs[a].end == gs[a + 1].start,
    ensures
        gs[i].end <= gs.last().end,
    decreases gs.len() - i,
{
    if i < gs.len() - 1 {
        lemma_runs_ordered_last(gs, i + 1);
    }
}

/// A receive buffer of `MAX_PACKETS` packets, of which the first `count`
/// hold the last receive, and the peer groups found among them.
#[derive(Debug)]
pub struct Batch {
    pkts: Vec<Packet>,
    groups: Vec<Range<u16>>,
    count: u16,
}

impl Batch {
    /// The batch has all its slots and counts no more packets than it holds.
    pub closed spec fn wf(self) -> bool {
        &&& self.pkts.len() == MAX_PACKETS
        &&& self.count <= MAX_PACKETS
    }

    /// All packet slots.
    pub closed spec fn slots(self) -> Seq<Packet> {
        self.pkts@
    }

    /// The packets of the last receive.
    pub closed spec fn received(self) -> Seq<Packet> {
        self.pkts@.take(self.count as int)
    }

    /// The peer groups last computed.
    pub closed spec fn groups(self) -> Seq<Range<u16>> {
        self.groups@
    }

    pub fn new() -> (r: Self)
        ensures
            r.wf(),
            r.slots().len() == MAX_PACKETS,
            r.received().len() == 0,
            r.groups().len() == 0,
            forall|i: int| 0 <= i < MAX_PACKETS ==> (#[trigger] r.slots()[i]).len == 0
                && r.slots()[i].peer == PeerAddr::unspecified_spec(),
    {
        let mut pkts: Vec<Packet> = Vec::with_capacity(MAX_PACKETS);
        let empty = Packet { buf: [0u8; PACKET_SIZE], peer: PeerAddr::unspecified(), len: 0 };
        while pkts.len() < MAX_PACKETS
            invariant
                pkts.len() <= MAX_PACKETS,
                empty.len == 0,
                empty.peer == PeerAddr::unspecified_spec(),
                forall|i: int| 0 <= i < pkts.len() ==> #[trigger] pkts@[i] == empty,
            decreases MAX_PACKETS - pkts.len(),
        {
            pkts.push(empty);
        }
        Batch { pkts, groups: Vec::with_capacity(MAX_PACKETS), count: 0 }
    }

    pub fn count(&self) -> (r: usize)
        requires
            self.wf(),
        ensures
            r == self.received().len(),
    {
        self.count as usize
    }

    /// The length of each received packet, in order.
    pub fn rx_bytes(&self) -> (r: Vec<u64>)
        requires
            self.wf(),
        ensures
            r.len() == self.received().len(),
            forall|i: int| 0 <= i < r.len() ==> #[trigger] r@[i] == self.received()[i].len,
    {
        let n = self.count as usize;
        let mut r: Vec<u64> = Vec::with_capacity(n);
        let mut i: usize = 0;
        while i < n
            invariant
                n == self.count <= self.pkts.len(),
                i <= n,
                r.len() == i,
                forall|j: int| 0 <= j < i ==> #[trigger] r@[j] == self.pkts@[j].len,
            decreases n - i,
        {
            r.push(self.pkts[i].len as u64);
            i = i + 1;
        }
        r
    }

    /// Stores a received packet in slot `i`.
    pub fn set_packet(&mut self, i: usize, pkt: Packet)
        requires
            old(self).wf(),
            i < MAX_PACKETS,
        ensures
            final(self).wf(),
            final(self).slots() == old(self).slots().update(i as int, pkt),
            final(self).received().len() == old(self).received().len(),
            final(self).groups() == old(self).groups(),
    {
        self.pkts[i] = pkt;
    }

    /// Records the outcome of a receive into the slots: `n` packets, or an
    /// error. A recoverable error counts as an empty receive; any other is
    /// handed back.
    pub fn apply_recv(&mut self, res: Result<usize, IoErrorKind>) -> (r: Result<(), IoErrorKind>)
        requires
            old(self).wf(),
            res matches Ok(n) ==> n <= MAX_PACKETS,
        ensures
            final(self).wf(),
            final(self).slots() == old(self).slots(),
            final(self).groups() == old(self).groups(),
            match res {
                Ok(n) => r is Ok && final(self).received().len() == n,
                Err(e) => if recoverable_spec(e) {
                    r is Ok && final(self).received().len() == 0
                } else {
                    r == Err::<(), IoErrorKind>(e) && final(self).received() == old(self).received()
                },
            },
    {
        match res {
            Ok(n) => {
                self.count = n as u16;
                Ok(())
            },
            Err(e) => {
                if recoverable(e) {
                    self.count = 0;
                    Ok(())
                } else {
                    Err(e)
                }
            },
        }
    }

    /// Groups the received packets by peer (see `group_by_peer`).
    pub fn group_by_peer(&mut self)
        requires
            old(self).wf(),
        ensures
            final(self).wf(),
            final(self).slots().len() == MAX_PACKETS,
            final(self).received().len() == old(self).received().len(),
            final(self).received().to_multiset() == old(self).received().to_multiset(),
            final(self).slots().skip(old(self).received().len() as int) == old(self).slots().skip(
                old(self).received().len() as int,
            ),
            is_peer_grouping(final(self).received(), final(self).groups()),
            old(self).received().len() > 0 ==> final(self).slots() == grouping_spec(
                old(self).slots(),
                0,
                1,
                old(self).received().len() as int,
            ).0 && final(self).groups() == grouping_spec(
                old(self).slots(),
                0,
                1,
                old(self).received().len() as int,
            ).1,
    {
        let n = self.count as usize;
        self.groups.clear();
        proof {
            assert(self.groups@.len() == 0);
        }
        group_by_peer(&mut self.pkts, n, &mut self.groups);
        proof {
            assert(self.groups@.skip(0) == self.groups@);
            assert(Seq::<Range<u16>>::empty() + self.groups@.skip(0) == self.groups@.skip(0));
        }
    }

    /// The peer groups, as ranges of packet slots.
    pub fn peer_groups(&self) -> (r: &[Range<u16>])
        ensures
            r@ == self.groups(),
    {
        self.groups.as_slice()
    }

    /// All packet slots.
    pub fn packets(&self) -> (r: &[Packet])
        ensures
            r@ == self.slots(),
    {
        self.pkts.as_slice()
    }
}

pub open spec fn recoverable_spec(kind: IoErrorKind) -> bool {
    kind is ConnectionReset || kind is ConnectionAborted
}

} // verus!
