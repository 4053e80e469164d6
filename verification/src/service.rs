//! The decisions of the rule store that do not touch the database: the
//! fields an update writes, the period start of new rules, and which ports a
//! batch delete removed.

use vstd::prelude::*;

use crate::rule::{QuotaPeriod, RuleRecord, in_calendar_range};

verus! {

/// A rule update as requested. `quota_bytes` is the quota the request
/// resolves to (the existing one when the request leaves it alone).
#[derive(Debug, Clone)]
pub struct RuleUpdate {
    pub target_host: Option<String>,
    pub target_port: Option<u16>,
    pub enabled: Option<bool>,
    pub quota_bytes: Option<i64>,
    pub quota_gb_given: bool,
    pub unset_quota: Option<bool>,
    pub quota_period: Option<String>,
}

impl RuleUpdate {
    /// The period the request names, if it names one.
    pub open spec fn spec_quota_period(self) -> Option<QuotaPeriod> {
        match self.quota_period {
            Some(s) => Some(QuotaPeriod::from_name(s@)),
            None => None,
        }
    }

    pub fn parse_quota_period(&self) -> (r: Option<QuotaPeriod>)
        ensures
            r == self.spec_quota_period(),
    {
        match &self.quota_period {
            Some(s) => Some(QuotaPeriod::parse(s.as_str())),
            None => None,
        }
    }

    /// Whether the request touches the quota or its period.
    pub open spec fn changes_quota(self) -> bool {
        self.quota_gb_given || self.unset_quota == Some(true) || self.quota_period is Some
    }
}

/// The quota an update leaves: none when it unsets the quota, else the
/// requested quota when it names one, else the existing one.
pub fn resolve_quota_bytes(unset_quota: Option<bool>, requested: Option<i64>, existing: Option<i64>) -> (r: Option<i64>)
    ensures
        r == if unset_quota == Some(true) {
            None
        } else if requested is Some {
            requested
        } else {
            existing
        },
{
    if unset_quota == Some(true) {
        None
    } else if requested.is_some() {
        requested
    } else {
        existing
    }
}

/// The period start an update stores: none without a positive daily or
/// monthly quota; otherwise the current period's start when the quota
/// changes or none was stored, else the stored one.
pub open spec fn spec_update_period_start(
    existing: Option<i64>,
    quota_bytes: Option<i64>,
    period: QuotaPeriod,
    changes_quota: bool,
    now: i64,
) -> Option<i64> {
    if quota_bytes matches Some(q) && q > 0 && period.is_calendar() {
        if changes_quota || existing is None {
            period.spec_period_start(now)
        } else {
            existing
        }
    } else {
        None
    }
}

/// The rule as an update leaves it at `now` (Unix seconds).
pub fn apply_update(existing: &RuleRecord, req: &RuleUpdate, now: i64) -> (r: RuleRecord)
    requires
        in_calendar_range(now as int),
    ensures
        r.id == existing.id,
        r.local_port == existing.local_port,
        r.listen_host == existing.listen_host,
        r.target_host@ == (match req.target_host {
            Some(h) => h@,
            None => existing.target_host@,
        }),
        r.target_port == (match req.target_port {
            Some(p) => p,
            None => existing.target_port,
        }),
        r.enabled == (match req.enabled {
            Some(e) => e,
            None => existing.enabled,
        }),
        r.quota_bytes == req.quota_bytes,
        r.quota_period == (match req.spec_quota_period() {
            Some(p) => p,
            None => existing.quota_period,
        }),
        r.period_start == spec_update_period_start(
            existing.period_start,
            req.quota_bytes,
            r.quota_period,
            req.changes_quota(),
            now,
        ),
        r.created_at == existing.created_at,
        r.updated_at == now,
        !req.quota_gb_given && req.unset_quota != Some(true) && req.quota_period is None
            && existing.period_start is Some && req.quota_bytes is Some && req.quota_bytes->0 > 0
            && (existing.quota_period is Daily || existing.quota_period is Monthly) ==> r.period_start
            == existing.period_start,
{
    let target_host = match &req.target_host {
        Some(h) => h.clone(),
        None => existing.target_host.clone(),
    };
    let target_port = match req.target_port {
        Some(p) => p,
        None => existing.target_port,
    };
    let enabled = match req.enabled {
        Some(e) => e,
        None => existing.enabled,
    };
    let quota_bytes = req.quota_bytes;
    let quota_period = match req.parse_quota_period() {
        Some(p) => p,
        None => existing.quota_period,
    };
    let positive_quota = match quota_bytes {
        Some(q) => q > 0,
        None => false,
    };
    let calendar = match quota_period {
        QuotaPeriod::Daily | QuotaPeriod::Monthly => true,
        _ => false,
    };
    let period_start = if positive_quota && calendar {
        let unset = match req.unset_quota {
            Some(u) => u,
            None => false,
        };
        if req.quota_gb_given || unset || req.quota_period.is_some() || existing.period_start.is_none() {
            quota_period.current_period_start(now)
        } else {
            existing.period_start
        }
    } else {
        None
    };
    RuleRecord {
        id: existing.id,
        local_port: existing.local_port,
        listen_host: existing.listen_host.clone(),
        target_host,
        target_port,
        enabled,
        quota_bytes,
        quota_period,
        period_start,
        created_at: existing.created_at,
        updated_at: now,
    }
}

/// An update that gives no quota, does not unset it and names no period
/// keeps the stored period start of a rule with a positive daily or monthly
/// quota, whatever target and on/off state it sets. An update that does give
/// a quota, unset it or name a period restarts the period at the current
/// period's start (if the resulting quota is positive and daily or
/// monthly). Without such a quota no period start is stored.
pub proof fn law_update_period_start(existing: RuleRecord, req: RuleUpdate, now: i64)
    ensures
        ({
            let period = match req.spec_quota_period() {
                Some(p) => p,
                None => existing.quota_period,
            };
            let stored = spec_update_period_start(
                existing.period_start,
                req.quota_bytes,
                period,
                req.changes_quota(),
                now,
            );
            &&& (!req.quota_gb_given && req.unset_quota != Some(true) && req.quota_period is None
                && existing.period_start is Some && req.quota_bytes is Some && req.quota_bytes->0 > 0
                && (existing.quota_period is Daily || existing.quota_period is Monthly)) ==> stored
                == existing.period_start
            &&& ((req.quota_gb_given || req.unset_quota == Some(true) || req.quota_period is Some)
                && req.quota_bytes is Some && req.quota_bytes->0 > 0 && (period is Daily
                || period is Monthly)) ==> stored == period.spec_period_start(now)
            &&& !(req.quota_bytes is Some && req.quota_bytes->0 > 0 && (period is Daily
                || period is Monthly)) ==> stored is None
        }),
{
}

/// The period start stored with new rules: the current period's start when
/// a positive quota is set, none otherwise.
pub fn new_rules_period_start(quota_bytes: Option<i64>, period: QuotaPeriod, now: i64) -> (r: Option<i64>)
    requires
        in_calendar_range(now as int),
    ensures
        r == if quota_bytes matches Some(q) && q > 0 {
            period.spec_period_start(now)
        } else {
            None
        },
{
    match quota_bytes {
        Some(q) => if q > 0 {
            period.current_period_start(now)
        } else {
            None
        },
        None => None,
    }
}

/// `ports` split by whether their delete removed a rule (`removed[i]`).
pub open spec fn split_deleted(ports: Seq<u16>, removed: Seq<bool>) -> (Seq<u16>, Seq<u16>)
    decreases ports.len(),
{
    if ports.len() == 0 {
        (Seq::empty(), Seq::empty())
    } else {
        let (d, f) = split_deleted(ports.drop_last(), removed);
        if removed[ports.len() - 1] {
            (d.push(ports.last()), f)
        } else {
            (d, f.push(ports.last()))
        }
    }
}

/// Splits a batch delete's ports into those deleted and those not found.
pub fn partition_deleted(ports: &Vec<u16>, removed: &Vec<bool>) -> (r: (Vec<u16>, Vec<u16>))
    requires
        removed.len() == ports.len(),
    ensures
        (r.0@, r.1@) == split_deleted(ports@, removed@),
{
    let mut deleted: Vec<u16> = Vec::new();
    let mut failed: Vec<u16> = Vec::new();
    let mut i: usize = 0;
    while i < ports.len()
        invariant
            removed.len() == ports.len(),
            i <= ports.len(),
            (deleted@, failed@) == split_deleted(ports@.take(i as int), removed@),
        decreases ports.len() - i,
    {
        proof {
            assert(ports@.take(i + 1).drop_last() == ports@.take(i as int));
        }
        if removed[i] {
            deleted.push(ports[i]);
        } else {
            failed.push(ports[i]);
        }
        i = i + 1;
    }
    proof {
        assert(ports@.take(ports.len() as int) == ports@);
    }
    (deleted, failed)
}

/// Every port of a batch delete is reported once, as deleted or as failed.
pub proof fn law_delete_batch_accounts_every_port(ports: Seq<u16>, removed: Seq<bool>)
    requires
        removed.len() >= ports.len(),
    ensures
        split_deleted(ports, removed).0.len() + split_deleted(ports, removed).1.len() == ports.len(),
        split_deleted(ports, removed).0.to_multiset().add(split_deleted(ports, removed).1.to_multiset())
            == ports.to_multiset(),
    decreases ports.len(),
{
    broadcast use vstd::seq_lib::group_to_multiset_ensures;
    broadcast use vstd::multiset::group_multiset_axioms;

    if ports.len() > 0 {
        law_delete_batch_accounts_every_port(ports.drop_last(), removed);
        assert(ports.drop_last().push(ports.last()) == ports);
        let (d, f) = split_deleted(ports.drop_last(), removed);
        assert(d.to_multiset().add(f.to_multiset()) == ports.drop_last().to_multiset());
        if removed[ports.len() - 1] {
            assert(d.push(ports.last()).to_multiset().add(f.to_multiset()) =~= ports.to_multiset());
        } else {
            assert(d.to_multiset().add(f.push(ports.last()).to_multiset()) =~= ports.to_multiset());
        }
    }
}

} // verus!
