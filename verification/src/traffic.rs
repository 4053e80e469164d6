//! Per-port traffic counters, quota checks and the decisions taken on them:
//! when a rule trips its quota, what the dashboard shows, and when a
//! quota period starts over.

use vstd::prelude::*;

use crate::rule::{QuotaPeriod, RuleRecord, in_calendar_range};

verus! {

/// Byte counters of one port.
#[derive(Debug, Clone, Copy, PartialEq, Eq, Structural)]
pub struct TrafficTotals {
    pub tcp_rx: u64,
    pub tcp_tx: u64,
    pub udp_rx: u64,
    pub udp_tx: u64,
}

pub open spec fn sat_u64(x: int) -> u64 {
    if x > u64::MAX {
        u64::MAX
    } else {
        x as u64
    }
}

pub open spec fn wrap_u64(x: int) -> u64 {
    (x % 0x1_0000_0000_0000_0000) as u64
}

impl TrafficTotals {
    /// All four counters, summed (saturating at `u64::MAX`).
    pub open spec fn spec_total(self) -> u64 {
        sat_u64(self.tcp_rx + self.tcp_tx + self.udp_rx + self.udp_tx)
    }

    pub fn zero() -> (r: Self)
        ensures
            r == (TrafficTotals { tcp_rx: 0, tcp_tx: 0, udp_rx: 0, udp_tx: 0 }),
    {
        TrafficTotals { tcp_rx: 0, tcp_tx: 0, udp_rx: 0, udp_tx: 0 }
    }

    pub fn total_bytes(&self) -> (r: u64)
        ensures
            r == self.spec_total(),
    {
        self.tcp_rx.saturating_add(self.tcp_tx).saturating_add(self.udp_rx).saturating_add(
            self.udp_tx,
        )
    }
}

/// Whether `total` bytes reach a positive quota, comparing `total` as the
/// signed 64-bit number it converts to (a total above `i64::MAX` converts to
/// a negative number and so never reaches the quota).
pub open spec fn reaches_quota(total: u64, quota: i64) -> bool {
    quota > 0 && total <= i64::MAX && total as int >= quota as int
}

fn reaches_quota_exec(total: u64, quota: i64) -> (r: bool)
    ensures
        r == reaches_quota(total, quota),
{
    quota > 0 && total <= (i64::MAX as u64) && (total as i64) >= quota
}

/// Whether the rule's quota is set and used up by `totals`.
pub open spec fn quota_exceeded(quota_bytes: Option<i64>, totals: TrafficTotals) -> bool {
    quota_bytes matches Some(q) && reaches_quota(totals.spec_total(), q)
}

pub fn is_quota_exceeded(rule: &RuleRecord, totals: &TrafficTotals) -> (r: bool)
    ensures
        r == quota_exceeded(rule.quota_bytes, *totals),
{
    match rule.quota_bytes {
        Some(q) => reaches_quota_exec(totals.total_bytes(), q),
        None => false,
    }
}

// ---------------------------------------------------------------------------
// Quota trip control
// ---------------------------------------------------------------------------

/// The quota state of one local port: its quota and whether it has tripped
/// in the current relay session.
#[derive(Debug, Clone, Copy)]
pub struct RuleControl {
    pub port: u16,
    pub quota_bytes: i64,
    pub tripped: bool,
}

impl RuleControl {
    pub fn new(port: u16) -> (r: Self)
        ensures
            r == (RuleControl { port, quota_bytes: 0, tripped: false }),
    {
        RuleControl { port, quota_bytes: 0, tripped: false }
    }

    pub fn set_quota(&mut self, bytes: i64)
        ensures
            *final(self) == (RuleControl { quota_bytes: bytes, ..*old(self) }),
    {
        self.quota_bytes = bytes;
    }

    /// A new relay session starts untripped.
    pub fn start_session(&mut self)
        ensures
            *final(self) == (RuleControl { tripped: false, ..*old(self) }),
    {
        self.tripped = false;
    }

    /// Called after every count: returns whether the quota trips now, which
    /// happens once per session, the first time the totals reach a positive
    /// quota. The caller then stops the session and reports the port.
    pub fn check_after_add(&mut self, totals: TrafficTotals) -> (trip: bool)
        ensures
            trip == (!old(self).tripped && reaches_quota(totals.spec_total(), old(self).quota_bytes)),
            *final(self) == (RuleControl { tripped: old(self).tripped || trip, ..*old(self) }),
    {
        let quota = self.quota_bytes;
        if quota <= 0 {
            return false;
        }
        if !reaches_quota_exec(totals.total_bytes(), quota) {
            return false;
        }
        if self.tripped {
            return false;
        }
        self.tripped = true;
        true
    }
}

/// `cs[i + 1]` and `trips[i]` are what `check_after_add(ts[i])` makes of
/// `cs[i]` and returns, for each check `i`, with no new session between.
pub open spec fn checks_chain(cs: Seq<RuleControl>, ts: Seq<TrafficTotals>, trips: Seq<bool>) -> bool {
    &&& cs.len() == ts.len() + 1
    &&& trips.len() == ts.len()
    &&& forall|i: int|
        #![trigger trips[i]]
        0 <= i < ts.len() ==> trips[i] == (!cs[i].tripped && reaches_quota(ts[i].spec_total(), cs[i].quota_bytes))
            && cs[i + 1] == (RuleControl { tripped: cs[i].tripped || trips[i], ..cs[i] })
}

proof fn lemma_checks_chain(cs: Seq<RuleControl>, ts: Seq<TrafficTotals>, trips: Seq<bool>, k: int)
    requires
        checks_chain(cs, ts, trips),
        !cs[0].tripped,
        0 <= k <= ts.len(),
    ensures
        cs[k].quota_bytes == cs[0].quota_bytes,
        cs[k].port == cs[0].port,
        cs[k].tripped <==> exists|j: int| 0 <= j < k && reaches_quota(#[trigger] ts[j].spec_total(), cs[0].quota_bytes),
    decreases k,
{
    if k > 0 {
        lemma_checks_chain(cs, ts, trips, k - 1);
        let p = k - 1;
        assert(trips[p] == (!cs[p].tripped && reaches_quota(ts[p].spec_total(), cs[p].quota_bytes)));
        if reaches_quota(ts[p].spec_total(), cs[0].quota_bytes) {
            assert(exists|j: int| 0 <= j < k && reaches_quota(#[trigger] ts[j].spec_total(), cs[0].quota_bytes));
        }
        if exists|j: int| 0 <= j < k && reaches_quota(#[trigger] ts[j].spec_total(), cs[0].quota_bytes) {
            let j = choose|j: int| 0 <= j < k && reaches_quota(#[trigger] ts[j].spec_total(), cs[0].quota_bytes);
            if j < p {
                assert(cs[p].tripped);
            }
        }
    }
}

/// Over the checks of one session (`check_after_add` on totals `ts[0]`,
/// `ts[1]`, ... from an untripped control), the quota trips exactly at the
/// first totals that reach it, and at no other check: no trip at all if
/// none reaches it (a quota of 0 or less is never reached), exactly one
/// otherwise. The quota and port stay as they were.
pub proof fn law_quota_trips_at_first_reach(cs: Seq<RuleControl>, ts: Seq<TrafficTotals>, trips: Seq<bool>)
    requires
        checks_chain(cs, ts, trips),
        !cs[0].tripped,
    ensures
        forall|i: int|
            #![trigger trips[i]]
            0 <= i < ts.len() ==> (trips[i] <==> reaches_quota(ts[i].spec_total(), cs[0].quota_bytes)
                && forall|j: int| 0 <= j < i ==> !reaches_quota(#[trigger] ts[j].spec_total(), cs[0].quota_bytes)),
        forall|i: int, j: int| 0 <= i < j < ts.len() && #[trigger] trips[i] ==> !#[trigger] trips[j],
        cs[0].quota_bytes <= 0 ==> forall|i: int| 0 <= i < ts.len() ==> !#[trigger] trips[i],
        cs.last().quota_bytes == cs[0].quota_bytes && cs.last().port == cs[0].port,
{
    lemma_checks_chain(cs, ts, trips, ts.len() as int);
    assert forall|i: int|
        #![trigger trips[i]]
        0 <= i < ts.len() implies (trips[i] <==> reaches_quota(ts[i].spec_total(), cs[0].quota_bytes)
            && forall|j: int| 0 <= j < i ==> !reaches_quota(#[trigger] ts[j].spec_total(), cs[0].quota_bytes)) by {
        lemma_checks_chain(cs, ts, trips, i);
        assert(trips[i] == (!cs[i].tripped && reaches_quota(ts[i].spec_total(), cs[i].quota_bytes)));
    }
    assert forall|i: int, j: int| 0 <= i < j < ts.len() && #[trigger] trips[i] implies !#[trigger] trips[j] by {
        lemma_checks_chain(cs, ts, trips, j);
        lemma_checks_chain(cs, ts, trips, i);
        assert(trips[i] == (!cs[i].tripped && reaches_quota(ts[i].spec_total(), cs[i].quota_bytes)));
        assert(reaches_quota(ts[i].spec_total(), cs[0].quota_bytes));
        assert(cs[j].tripped);
        assert(trips[j] == (!cs[j].tripped && reaches_quota(ts[j].spec_total(), cs[j].quota_bytes)));
    }
    assert forall|i: int| 0 <= i < ts.len() && cs[0].quota_bytes <= 0 implies !#[trigger] trips[i] by {
        lemma_checks_chain(cs, ts, trips, i);
        assert(trips[i] == (!cs[i].tripped && reaches_quota(ts[i].spec_total(), cs[i].quota_bytes)));
    }
}

// ---------------------------------------------------------------------------
// Traffic meter
// ---------------------------------------------------------------------------

/// Which counter a byte count goes to.
#[derive(Debug, Clone, Copy, PartialEq, Eq, Structural)]
pub enum Direction {
    TcpRx,
    TcpTx,
    UdpRx,
    UdpTx,
}

/// `t` with `n` added (wrapping) to the counter of `dir`.
pub open spec fn add_to(t: TrafficTotals, dir: Direction, n: u64) -> TrafficTotals {
    match dir {
        Direction::TcpRx => TrafficTotals { tcp_rx: wrap_u64(t.tcp_rx + n), ..t },
        Direction::TcpTx => TrafficTotals { tcp_tx: wrap_u64(t.tcp_tx + n), ..t },
        Direction::UdpRx => TrafficTotals { udp_rx: wrap_u64(t.udp_rx + n), ..t },
        Direction::UdpTx => TrafficTotals { udp_tx: wrap_u64(t.udp_tx + n), ..t },
    }
}

/// Counters of one port and the quota control they report to.
#[derive(Debug)]
pub struct TrafficMeter {
    totals: TrafficTotals,
    control: RuleControl,
}

impl TrafficMeter {
    pub closed spec fn totals(self) -> TrafficTotals {
        self.totals
    }

    pub closed spec fn control(self) -> RuleControl {
        self.control
    }

    pub fn new(control: RuleControl) -> (r: Self)
        ensures
            r.totals() == (TrafficTotals { tcp_rx: 0, tcp_tx: 0, udp_rx: 0, udp_tx: 0 }),
            r.control() == control,
    {
        TrafficMeter { totals: TrafficTotals::zero(), control }
    }

    fn wrapping_add(a: u64, b: u64) -> (r: u64)
        ensures
            r == wrap_u64(a + b),
    {
        if a as u128 + b as u128 > u64::MAX as u128 {
            (a as u128 + b as u128 - 0x1_0000_0000_0000_0000u128) as u64
        } else {
            a + b
        }
    }

    /// Whether counting `n` bytes in direction `dir` makes the quota trip:
    /// not yet tripped in this session, and the new totals reach it.
    pub open spec fn trips(self, dir: Direction, n: u64) -> bool {
        !self.control().tripped && reaches_quota(
            add_to(self.totals(), dir, n).spec_total(),
            self.control().quota_bytes,
        )
    }

    /// The meter after counting `n` bytes in direction `dir`, and the port
    /// it reports when the quota trips.
    pub open spec fn counted(self, new: Self, dir: Direction, n: u64, r: Option<u16>) -> bool {
        &&& new.totals() == add_to(self.totals(), dir, n)
        &&& new.control() == (RuleControl {
            tripped: self.control().tripped || self.trips(dir, n),
            ..self.control()
        })
        &&& r == if self.trips(dir, n) {
            Some(self.control().port)
        } else {
            None
        }
    }

    /// Counts `n` bytes in direction `dir`, then checks the quota; returns
    /// the port to report when the quota trips.
    pub fn record(&mut self, dir: Direction, n: u64) -> (r: Option<u16>)
        ensures
            old(self).counted(*final(self), dir, n, r),
    {
        match dir {
            Direction::TcpRx => self.totals.tcp_rx = Self::wrapping_add(self.totals.tcp_rx, n),
            Direction::TcpTx => self.totals.tcp_tx = Self::wrapping_add(self.totals.tcp_tx, n),
            Direction::UdpRx => self.totals.udp_rx = Self::wrapping_add(self.totals.udp_rx, n),
            Direction::UdpTx => self.totals.udp_tx = Self::wrapping_add(self.totals.udp_tx, n),
        }
        let snapshot = self.totals;
        if self.control.check_after_add(snapshot) {
            Some(self.control.port)
        } else {
            None
        }
    }

    pub fn add_tcp_rx(&mut self, n: u64) -> (r: Option<u16>)
        ensures
            old(self).counted(*final(self), Direction::TcpRx, n, r),
    {
        self.record(Direction::TcpRx, n)
    }

    pub fn add_tcp_tx(&mut self, n: u64) -> (r: Option<u16>)
        ensures
            old(self).counted(*final(self), Direction::TcpTx, n, r),
    {
        self.record(Direction::TcpTx, n)
    }

    pub fn add_udp_rx(&mut self, n: u64) -> (r: Option<u16>)
        ensures
            old(self).counted(*final(self), Direction::UdpRx, n, r),
    {
        self.record(Direction::UdpRx, n)
    }

    pub fn add_udp_tx(&mut self, n: u64) -> (r: Option<u16>)
        ensures
            old(self).counted(*final(self), Direction::UdpTx, n, r),
    {
        self.record(Direction::UdpTx, n)
    }

    pub fn snapshot(&self) -> (r: TrafficTotals)
        ensures
            r == self.totals(),
    {
        self.totals
    }

    pub fn reset(&mut self)
        ensures
            final(self).totals() == (TrafficTotals { tcp_rx: 0, tcp_tx: 0, udp_rx: 0, udp_tx: 0 }),
            final(self).control() == old(self).control(),
    {
        self.totals = TrafficTotals::zero();
    }

    pub fn restore(&mut self, totals: &TrafficTotals)
        ensures
            final(self).totals() == *totals,
            final(self).control() == old(self).control(),
    {
        self.totals = *totals;
    }

    pub fn control_mut(&mut self) -> (r: &mut RuleControl)
        ensures
            *r == old(self).control(),
            final(self).totals() == old(self).totals(),
            final(self).control() == *final(r),
    {
        &mut self.control
    }
}

/// Within one relay session a meter reports its port at most once: once a
/// count has tripped the quota, later counts report nothing, whatever they
/// add. When a new session starts (control untripped, counters kept), the
/// next count that reaches the quota reports the same port again.
pub proof fn law_trip_once_per_session(
    m0: TrafficMeter,
    m1: TrafficMeter,
    m2: TrafficMeter,
    m3: TrafficMeter,
    m4: TrafficMeter,
    d1: Direction,
    n1: u64,
    r1: Option<u16>,
    d2: Direction,
    n2: u64,
    r2: Option<u16>,
    d3: Direction,
    n3: u64,
    r3: Option<u16>,
)
    requires
        m0.counted(m1, d1, n1, r1),
        m1.counted(m2, d2, n2, r2),
        m3.totals() == m2.totals(),
        m3.control() == (RuleControl { tripped: false, ..m2.control() }),
        m3.counted(m4, d3, n3, r3),
    ensures
        r1 is Some ==> r1 == Some(m0.control().port) && r2 is None && m2.control().tripped,
        reaches_quota(add_to(m3.totals(), d3, n3).spec_total(), m3.control().quota_bytes) ==> r3 == Some(
            m0.control().port,
        ),
{
}

/// Counting `n` bytes adds exactly `n` to the chosen counter (modulo 2^64)
/// and leaves the others as they were.
pub proof fn law_count_adds(t: TrafficTotals, dir: Direction, n: u64)
    requires
        t.tcp_rx + n <= u64::MAX,
        t.tcp_tx + n <= u64::MAX,
        t.udp_rx + n <= u64::MAX,
        t.udp_tx + n <= u64::MAX,
    ensures
        ({
            let u = add_to(t, dir, n);
            u.tcp_rx + u.tcp_tx + u.udp_rx + u.udp_tx == t.tcp_rx + t.tcp_tx + t.udp_rx + t.udp_tx + n
        }),
{
}

// ---------------------------------------------------------------------------
// Dashboard
// ---------------------------------------------------------------------------

/// Panel statistics over all rules.
#[derive(Debug, Clone, Copy, PartialEq, Eq, Structural)]
pub struct DashboardStats {
    pub rule_count: usize,
    pub active_count: usize,
    pub total_traffic_bytes: u64,
    pub quota_blocked_count: usize,
}

/// Whether a rule is off because its quota is used up.
pub open spec fn quota_blocked(rule: RuleRecord, totals: TrafficTotals) -> bool {
    !rule.enabled && quota_exceeded(rule.quota_bytes, totals)
}

pub open spec fn count_active(rules: Seq<RuleRecord>) -> nat
    decreases rules.len(),
{
    if rules.len() == 0 {
        0
    } else {
        count_active(rules.drop_last()) + if rules.last().enabled {
            1nat
        } else {
            0nat
        }
    }
}

pub open spec fn count_blocked(rules: Seq<RuleRecord>, totals: Seq<TrafficTotals>) -> nat
    decreases rules.len(),
{
    if rules.len() == 0 {
        0
    } else {
        count_blocked(rules.drop_last(), totals) + if quota_blocked(
            rules.last(),
            totals[rules.len() - 1],
        ) {
            1nat
        } else {
            0nat
        }
    }
}

/// Sum of all ports' totals, wrapping modulo 2^64.
pub open spec fn traffic_sum(totals: Seq<TrafficTotals>) -> u64
    decreases totals.len(),
{
    if totals.len() == 0 {
        0
    } else {
        wrap_u64(traffic_sum(totals.drop_last()) + totals.last().spec_total())
    }
}

proof fn lemma_counts_bounded(rules: Seq<RuleRecord>, totals: Seq<TrafficTotals>)
    ensures
        count_active(rules) <= rules.len(),
        count_blocked(rules, totals) <= rules.len(),
    decreases rules.len(),
{
    if rules.len() > 0 {
        lemma_counts_bounded(rules.drop_last(), totals);
    }
}

/// Counts rules, enabled rules and rules blocked by their quota, and sums
/// the traffic; `totals[i]` are the counters of `rules[i]`'s port.
pub fn dashboard_stats(rules: &Vec<RuleRecord>, totals: &Vec<TrafficTotals>) -> (r: DashboardStats)
    requires
        totals.len() == rules.len(),
    ensures
        r.rule_count == rules.len(),
        r.active_count == count_active(rules@),
        r.total_traffic_bytes == traffic_sum(totals@),
        r.quota_blocked_count == count_blocked(rules@, totals@),
{
    let mut active: usize = 0;
    let mut blocked: usize = 0;
    let mut sum: u64 = 0;
    let mut i: usize = 0;
    while i < rules.len()
        invariant
            totals.len() == rules.len(),
            i <= rules.len(),
            active == count_active(rules@.take(i as int)),
            blocked == count_blocked(rules@.take(i as int), totals@),
            sum == traffic_sum(totals@.take(i as int)),
            active <= i,
            blocked <= i,
        decreases rules.len() - i,
    {
        let rule = &rules[i];
        let t = &totals[i];
        proof {
            assert(rules@.take(i + 1).drop_last() == rules@.take(i as int));
            assert(totals@.take(i + 1).drop_last() == totals@.take(i as int));
            lemma_counts_bounded(rules@.take(i as int), totals@);
        }
        if rule.enabled {
            active = active + 1;
        }
        if !rule.enabled && is_quota_exceeded(rule, t) {
            blocked = blocked + 1;
        }
        sum = TrafficMeter::wrapping_add(sum, t.total_bytes());
        i = i + 1;
    }
    proof {
        assert(rules@.take(rules.len() as int) == rules@);
        assert(totals@.take(totals.len() as int) == totals@);
    }
    DashboardStats { rule_count: rules.len(), active_count: active, total_traffic_bytes: sum, quota_blocked_count: blocked }
}

/// Ports of enabled rules whose quota is used up (switched off at start-up).
pub open spec fn over_quota_ports(rules: Seq<RuleRecord>, totals: Seq<TrafficTotals>) -> Seq<u16>
    decreases rules.len(),
{
    if rules.len() == 0 {
        Seq::empty()
    } else {
        let rest = over_quota_ports(rules.drop_last(), totals);
        if rules.last().enabled && quota_exceeded(rules.last().quota_bytes, totals[rules.len() - 1]) {
            rest.push(rules.last().local_port)
        } else {
            rest
        }
    }
}

pub fn rules_over_quota(rules: &Vec<RuleRecord>, totals: &Vec<TrafficTotals>) -> (r: Vec<u16>)
    requires
        totals.len() == rules.len(),
    ensures
        r@ == over_quota_ports(rules@, totals@),
{
    let mut out: Vec<u16> = Vec::new();
    let mut i: usize = 0;
    while i < rules.len()
        invariant
            totals.len() == rules.len(),
            i <= rules.len(),
            out@ == over_quota_ports(rules@.take(i as int), totals@),
        decreases rules.len() - i,
    {
        proof {
            assert(rules@.take(i + 1).drop_last() == rules@.take(i as int));
        }
        if rules[i].enabled && is_quota_exceeded(&rules[i], &totals[i]) {
            out.push(rules[i].local_port);
        }
        i = i + 1;
    }
    proof {
        assert(rules@.take(rules.len() as int) == rules@);
    }
    out
}

/// Ports of disabled rules whose relay still runs (`running[i]` for
/// `rules[i]`): these are stopped to bring the runtime back in line.
pub open spec fn stray_ports(rules: Seq<RuleRecord>, running: Seq<bool>) -> Seq<u16>
    decreases rules.len(),
{
    if rules.len() == 0 {
        Seq::empty()
    } else {
        let rest = stray_ports(rules.drop_last(), running);
        if !rules.last().enabled && running[rules.len() - 1] {
            rest.push(rules.last().local_port)
        } else {
            rest
        }
    }
}

pub fn ports_to_force_stop(rules: &Vec<RuleRecord>, running: &Vec<bool>) -> (r: Vec<u16>)
    requires
        running.len() == rules.len(),
    ensures
        r@ == stray_ports(rules@, running@),
{
    let mut out: Vec<u16> = Vec::new();
    let mut i: usize = 0;
    while i < rules.len()
        invariant
            running.len() == rules.len(),
            i <= rules.len(),
            out@ == stray_ports(rules@.take(i as int), running@),
        decreases rules.len() - i,
    {
        proof {
            assert(rules@.take(i + 1).drop_last() == rules@.take(i as int));
        }
        if !rules[i].enabled && running[i] {
            out.push(rules[i].local_port);
        }
        i = i + 1;
    }
    proof {
        assert(rules@.take(rules.len() as int) == rules@);
    }
    out
}

// ---------------------------------------------------------------------------
// Quota periods
// ---------------------------------------------------------------------------

/// What to do for a rule whose quota period has ended: clear its traffic,
/// store the new period start and, if the quota had switched it off,
/// switch it back on.
#[derive(Debug, Clone, Copy, PartialEq, Eq, Structural)]
pub struct PeriodReset {
    pub period_start: i64,
    pub reenable: bool,
}

/// The reset due for `rule` at `now`, if any: only for daily and monthly
/// quotas whose stored period start lies before the current period's start.
pub open spec fn spec_plan_period_reset(rule: RuleRecord, totals: TrafficTotals, now: i64) -> Option<
    PeriodReset,
> {
    match rule.quota_period.spec_period_start(now) {
        None => None,
        Some(current) => {
            let stored = match rule.period_start {
                Some(s) => s,
                None => current,
            };
            if stored >= current {
                None
            } else {
                Some(PeriodReset { period_start: current, reenable: quota_blocked(rule, totals) })
            }
        },
    }
}

pub fn plan_period_reset(rule: &RuleRecord, totals: &TrafficTotals, now: i64) -> (r: Option<PeriodReset>)
    ensures
        in_calendar_range(now as int) ==> r == spec_plan_period_reset(*rule, *totals, now),
        !in_calendar_range(now as int) ==> r is None,
        r is Some ==> r == spec_plan_period_reset(*rule, *totals, now),
{
    let current = match rule.quota_period.current_period_start(now) {
        None => return None,
        Some(c) => c,
    };
    let stored = match rule.period_start {
        Some(s) => s,
        None => current,
    };
    if stored >= current {
        return None;
    }
    let was_blocked = !rule.enabled && is_quota_exceeded(rule, totals);
    Some(PeriodReset { period_start: current, reenable: was_blocked })
}

/// Once a period's reset is applied (start stored, traffic cleared, rule
/// re-enabled if the quota had stopped it), no second reset is due in the
/// same period.
pub proof fn law_period_reset_once(rule: RuleRecord, totals: TrafficTotals, now: i64)
    requires
        spec_plan_period_reset(rule, totals, now) matches Some(p),
    ensures
        ({
            let p = spec_plan_period_reset(rule, totals, now)->0;
            let after = RuleRecord {
                period_start: Some(p.period_start),
                enabled: rule.enabled || p.reenable,
                ..rule
            };
            spec_plan_period_reset(after, TrafficTotals { tcp_rx: 0, tcp_tx: 0, udp_rx: 0, udp_tx: 0 }, now) is None
        }),
{
}

/// A reset re-enables exactly the rules that were off because of their quota.
pub proof fn law_period_reset_reenables_blocked(rule: RuleRecord, totals: TrafficTotals, now: i64)
    requires
        spec_plan_period_reset(rule, totals, now) matches Some(p),
    ensures
        spec_plan_period_reset(rule, totals, now)->0.reenable <==> (!rule.enabled && quota_exceeded(rule.quota_bytes, totals)),
{
}

/// A quota is used up: it is set and positive, and the sum of the four
/// counters reaches it without passing `i64::MAX`.
pub open spec fn quota_used_up(quota_bytes: Option<i64>, t: TrafficTotals) -> bool {
    match quota_bytes {
        Some(q) => 0 < q && q <= t.tcp_rx + t.tcp_tx + t.udp_rx + t.udp_tx && t.tcp_rx + t.tcp_tx
            + t.udp_rx + t.udp_tx <= i64::MAX,
        None => false,
    }
}

proof fn lemma_quota_exceeded_direct(quota_bytes: Option<i64>, t: TrafficTotals)
    ensures
        quota_exceeded(quota_bytes, t) <==> quota_used_up(quota_bytes, t),
{
}

/// `p` is the port of an enabled rule whose quota is used up.
pub open spec fn exhausted_rule_port(rules: Seq<RuleRecord>, totals: Seq<TrafficTotals>, p: u16) -> bool {
    exists|i: int|
        0 <= i < rules.len() && #[trigger] rules[i].local_port == p && rules[i].enabled && quota_used_up(
            rules[i].quota_bytes,
            totals[i],
        )
}

/// At start-up exactly the enabled rules whose quota is set and reached are
/// switched off: every listed port is such a rule's, and every such rule's
/// port is listed (a rule without a quota, or a disabled one, never is).
pub proof fn law_over_quota_ports_are_exactly_the_exhausted(rules: Seq<RuleRecord>, totals: Seq<TrafficTotals>)
    requires
        totals.len() >= rules.len(),
    ensures
        forall|j: int|
            0 <= j < over_quota_ports(rules, totals).len() ==> exhausted_rule_port(
                rules,
                totals,
                #[trigger] over_quota_ports(rules, totals)[j],
            ),
        forall|i: int|
            0 <= i < rules.len() && #[trigger] rules[i].enabled && quota_used_up(rules[i].quota_bytes, totals[i])
                ==> over_quota_ports(rules, totals).contains(rules[i].local_port),
    decreases rules.len(),
{
    if rules.len() > 0 {
        let init = rules.drop_last();
        let n = rules.len() - 1;
        law_over_quota_ports_are_exactly_the_exhausted(init, totals);
        lemma_quota_exceeded_direct(rules.last().quota_bytes, totals[n]);
        let rest = over_quota_ports(init, totals);
        let all = over_quota_ports(rules, totals);
        assert forall|j: int| 0 <= j < all.len() implies exhausted_rule_port(rules, totals, #[trigger] all[j]) by {
            if j < rest.len() {
                assert(all[j] == rest[j]);
                assert(exhausted_rule_port(init, totals, rest[j]));
                let i = choose|i: int|
                    0 <= i < init.len() && #[trigger] init[i].local_port == rest[j] && init[i].enabled
                        && quota_used_up(init[i].quota_bytes, totals[i]);
                assert(rules[i] == init[i]);
                assert(rules[i].local_port == all[j]);
            } else {
                assert(all.len() == rest.len() + 1);
                assert(rules[n] == rules.last());
                assert(rules[n].local_port == all[j]);
                assert(quota_used_up(rules[n].quota_bytes, totals[n]));
            }
        }
        assert forall|i: int|
            0 <= i < rules.len() && #[trigger] rules[i].enabled && quota_used_up(rules[i].quota_bytes, totals[i])
                implies all.contains(rules[i].local_port) by {
            if i < n {
                assert(init[i] == rules[i]);
                assert(init[i].enabled);
                assert(rest.contains(rules[i].local_port));
                let j = choose|j: int| 0 <= j < rest.len() && rest[j] == rules[i].local_port;
                if all != rest {
                    assert(all[j] == rest[j]);
                }
            } else {
                assert(all.last() == rules[i].local_port);
            }
        }
    }
}

/// Reconciliation force-stops exactly the disabled rules whose relay still
/// runs: every listed port is such a rule's and every such rule's port is
/// listed; an enabled rule never is, running or not.
pub proof fn law_stray_ports_are_exactly_disabled_running(rules: Seq<RuleRecord>, running: Seq<bool>)
    requires
        running.len() >= rules.len(),
    ensures
        forall|j: int|
            #![trigger stray_ports(rules, running)[j]]
            0 <= j < stray_ports(rules, running).len() ==> exists|i: int|
                0 <= i < rules.len() && #[trigger] rules[i].local_port == stray_ports(rules, running)[j]
                    && !rules[i].enabled && running[i],
        forall|i: int|
            0 <= i < rules.len() && !#[trigger] rules[i].enabled && running[i] ==> stray_ports(
                rules,
                running,
            ).contains(rules[i].local_port),
    decreases rules.len(),
{
    if rules.len() > 0 {
        let init = rules.drop_last();
        let n = rules.len() - 1;
        law_stray_ports_are_exactly_disabled_running(init, running);
        let rest = stray_ports(init, running);
        let all = stray_ports(rules, running);
        assert forall|j: int| #![trigger all[j]] 0 <= j < all.len() implies exists|i: int|
            0 <= i < rules.len() && #[trigger] rules[i].local_port == all[j] && !rules[i].enabled
                && running[i] by {
            if j < rest.len() {
                assert(all[j] == rest[j]);
                let i = choose|i: int|
                    0 <= i < init.len() && #[trigger] init[i].local_port == rest[j] && !init[i].enabled
                        && running[i];
                assert(rules[i] == init[i]);
            } else {
                assert(rules[n].local_port == all[j]);
            }
        }
        assert forall|i: int| 0 <= i < rules.len() && !#[trigger] rules[i].enabled && running[i] implies all.contains(
            rules[i].local_port,
        ) by {
            if i < n {
                assert(init[i] == rules[i]);
                assert(!init[i].enabled);
                assert(rest.contains(rules[i].local_port));
                let j = choose|j: int| 0 <= j < rest.len() && rest[j] == rules[i].local_port;
                if all != rest {
                    assert(all[j] == rest[j]);
                }
            } else {
                assert(all.last() == rules[i].local_port);
            }
        }
    }
}

/// The dashboard's traffic total starts at 0 and each further port adds all
/// four of its counters (its sum saturated at `u64::MAX`), the total
/// wrapping modulo 2^64.
pub proof fn law_traffic_total_adds_every_counter(totals: Seq<TrafficTotals>, t: TrafficTotals)
    ensures
        traffic_sum(Seq::<TrafficTotals>::empty()) == 0,
        ({
            let raw = t.tcp_rx + t.tcp_tx + t.udp_rx + t.udp_tx;
            let add = if raw <= u64::MAX { raw } else { u64::MAX as int };
            traffic_sum(totals.push(t)) as int == (traffic_sum(totals) + add) % 0x1_0000_0000_0000_0000
        }),
{
    assert(totals.push(t).drop_last() == totals);
}

proof fn lemma_count_blocked_prefix(rules: Seq<RuleRecord>, a: Seq<TrafficTotals>, b: Seq<TrafficTotals>)
    requires
        a.len() >= rules.len(),
        b.len() >= rules.len(),
        forall|i: int| 0 <= i < rules.len() ==> a[i] == b[i],
    ensures
        count_blocked(rules, a) == count_blocked(rules, b),
    decreases rules.len(),
{
    if rules.len() > 0 {
        lemma_count_blocked_prefix(rules.drop_last(), a, b);
    }
}

/// Adding a rule to the dashboard counts it once, counts it as active
/// exactly when it is enabled, and as blocked exactly when it is disabled
/// with its quota set and reached; its traffic adds as in
/// `law_traffic_total_adds_every_counter`.
pub proof fn law_dashboard_counts_each_rule(
    rules: Seq<RuleRecord>,
    totals: Seq<TrafficTotals>,
    r: RuleRecord,
    t: TrafficTotals,
)
    requires
        totals.len() == rules.len(),
    ensures
        count_active(rules.push(r)) == count_active(rules) + if r.enabled {
            1int
        } else {
            0int
        },
        count_blocked(rules.push(r), totals.push(t)) == count_blocked(rules, totals) + if !r.enabled
            && quota_used_up(r.quota_bytes, t) {
            1int
        } else {
            0int
        },
{
    assert(rules.push(r).drop_last() == rules);
    lemma_quota_exceeded_direct(r.quota_bytes, t);
    lemma_count_blocked_prefix(rules, totals, totals.push(t));
}

/// For a daily or monthly quota, at a time in calendar range, a reset is
/// due exactly when a period start is stored and lies before the current
/// period's start, whatever the traffic: it stores the current start and
/// re-enables the rule exactly when the rule is off with its quota set and
/// reached. Other periods are never reset.
pub proof fn law_period_reset_due_when_period_ended(rule: RuleRecord, totals: TrafficTotals, now: i64)
    requires
        in_calendar_range(now as int),
    ensures
        !(rule.quota_period is Daily || rule.quota_period is Monthly) ==> spec_plan_period_reset(
            rule,
            totals,
            now,
        ) is None,
        (rule.quota_period is Daily || rule.quota_period is Monthly) ==> ({
            let current = rule.quota_period.spec_period_start(now)->0;
            &&& (rule.period_start matches Some(s) && s < current) ==> spec_plan_period_reset(
                rule,
                totals,
                now,
            ) == Some(
                PeriodReset {
                    period_start: current,
                    reenable: !rule.enabled && quota_used_up(rule.quota_bytes, totals),
                },
            )
            &&& !(rule.period_start matches Some(s) && s < current) ==> spec_plan_period_reset(
                rule,
                totals,
                now,
            ) is None
        }),
{
    lemma_quota_exceeded_direct(rule.quota_bytes, totals);
}

} // verus!
