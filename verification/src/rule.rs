//! Forwarding rule domain model: quota periods, port assignment modes and
//! the `host:port` target lines that rules are created from.

use vstd::prelude::*;
use vstd::string::*;
use chrono::{Datelike, TimeZone};

use crate::text::{
    chars_of, digits, is_digit, is_white_space, lemma_decimal_digits, parse_u16, spec_parse_u16,
    str_eq, trim, trim_bounds, trim_end, trim_start, unsigned_digits,
};

verus! {

broadcast use vstd::string::group_string_axioms;

/// Traffic quota reset period.
#[derive(Debug, Clone, Copy, PartialEq, Eq, Structural)]
pub enum QuotaPeriod {
    /// No quota period (stored as `none`).
    NoPeriod,
    Daily,
    Monthly,
    Total,
}

/// Seconds in one UTC day.
pub const SECS_PER_DAY: i64 = 86400;

/// Timestamps (in seconds) whose dates chrono represents: from
/// -262143-01-01 00:00:00 to 262142-12-31 23:59:59 UTC, its first and last
/// dates.
pub open spec fn in_calendar_range(secs: int) -> bool {
    -8_334_601_228_800 <= secs <= 8_210_266_876_799
}

/// Start of the UTC day that holds `secs`.
pub open spec fn spec_day_start(secs: int) -> int {
    secs - secs % (SECS_PER_DAY as int)
}

/// Start (00:00:00 UTC on the 1st) of the UTC month that holds `secs`, as chrono computes it.
pub uninterp spec fn month_start(secs: i64) -> i64;

/// Calls chrono: `DateTime::from_timestamp(secs, 0)`, then `date_naive()`,
/// `and_hms_opt(0, 0, 0)` and `Utc.from_utc_datetime(..).timestamp()`.
/// Claimed: when a date comes back it is the midnight that starts the day of
/// `secs`; one comes back exactly for the `secs` in `in_calendar_range`
/// (`from_timestamp` gives none outside chrono's dates, and nothing after it
/// fails).
#[verifier::external_body]
fn chrono_day_start(secs: i64) -> (r: Option<i64>)
    ensures
        r matches Some(d) ==> d == spec_day_start(secs as int),
        r is Some <==> in_calendar_range(secs as int),
{
    let now = chrono::DateTime::from_timestamp(secs, 0)?;
    let naive = now.date_naive().and_hms_opt(0, 0, 0)?;
    Some(chrono::Utc.from_utc_datetime(&naive).timestamp())
}

/// Calls chrono: `DateTime::from_timestamp(secs, 0)`, then
/// `NaiveDate::from_ymd_opt(year, month, 1)`, `and_hms_opt(0, 0, 0)` and
/// `Utc.from_utc_datetime(..).timestamp()`. Claimed: the result, when there
/// is one, is `month_start(secs)`, a midnight (a multiple of a day) no later
/// than `secs` and less than 31 days before it, whose own month starts at
/// itself; there is one exactly for the `secs` in `in_calendar_range` (the
/// 1st of a month of a represented date is represented). Which midnight it
/// is (calendar arithmetic) is left to chrono and not stated.
#[verifier::external_body]
fn chrono_month_start(secs: i64) -> (r: Option<i64>)
    ensures
        r matches Some(d) ==> d == month_start(secs) && d <= secs && secs - d < 31 * SECS_PER_DAY
            && spec_day_start(d as int) == d && month_start(d) == d && in_calendar_range(d as int),
        r is Some <==> in_calendar_range(secs as int),
{
    let now = chrono::DateTime::from_timestamp(secs, 0)?;
    let naive = chrono::NaiveDate::from_ymd_opt(now.year(), now.month(), 1)?.and_hms_opt(0, 0, 0)?;
    Some(chrono::Utc.from_utc_datetime(&naive).timestamp())
}

impl QuotaPeriod {
    /// The name under which the period is stored and shown.
    pub open spec fn name(self) -> Seq<char> {
        match self {
            QuotaPeriod::NoPeriod => "none"@,
            QuotaPeriod::Daily => "daily"@,
            QuotaPeriod::Monthly => "monthly"@,
            QuotaPeriod::Total => "total"@,
        }
    }

    /// The period named `s`; any other name means no quota period.
    pub open spec fn from_name(s: Seq<char>) -> QuotaPeriod {
        if s == "daily"@ {
            QuotaPeriod::Daily
        } else if s == "monthly"@ {
            QuotaPeriod::Monthly
        } else if s == "total"@ {
            QuotaPeriod::Total
        } else {
            QuotaPeriod::NoPeriod
        }
    }

    /// Whether the quota of this period starts over at a calendar boundary.
    pub open spec fn is_calendar(self) -> bool {
        self is Daily || self is Monthly
    }

    /// The start of the period that holds `now`, for calendar periods.
    pub open spec fn spec_period_start(self, now: i64) -> Option<i64> {
        match self {
            QuotaPeriod::Daily => Some(spec_day_start(now as int) as i64),
            QuotaPeriod::Monthly => Some(month_start(now)),
            _ => None,
        }
    }

    pub fn as_str(self) -> (r: &'static str)
        ensures
            r@ == self.name(),
    {
        match self {
            QuotaPeriod::NoPeriod => "none",
            QuotaPeriod::Daily => "daily",
            QuotaPeriod::Monthly => "monthly",
            QuotaPeriod::Total => "total",
        }
    }

    pub fn parse(s: &str) -> (r: Self)
        ensures
            r == QuotaPeriod::from_name(s@),
    {
        if str_eq(s, "daily") {
            QuotaPeriod::Daily
        } else if str_eq(s, "monthly") {
            QuotaPeriod::Monthly
        } else if str_eq(s, "total") {
            QuotaPeriod::Total
        } else {
            QuotaPeriod::NoPeriod
        }
    }

    /// Start (UTC, in Unix seconds) of the current quota period: midnight of
    /// today for `Daily`, midnight of the 1st for `Monthly`, none otherwise.
    pub fn current_period_start(self, now: i64) -> (r: Option<i64>)
        ensures
            self.is_calendar() && in_calendar_range(now as int) ==> r == self.spec_period_start(
                now,
            ),
            self.is_calendar() && !in_calendar_range(now as int) ==> r is None,
            !self.is_calendar() ==> r is None,
            r matches Some(t) ==> t <= now && now - t < 31 * SECS_PER_DAY && self.spec_period_start(t)
                == Some(t) && in_calendar_range(t as int),
    {
        proof {
            if self is Daily {
                let d = spec_day_start(now as int);
                assert(d % (SECS_PER_DAY as int) == 0) by {
                    vstd::arithmetic::div_mod::lemma_sub_mod_noop(now as int, now as int % (SECS_PER_DAY as int), SECS_PER_DAY as int);
                    vstd::arithmetic::div_mod::lemma_mod_twice(now as int, SECS_PER_DAY as int);
                }
                if in_calendar_range(now as int) {
                    assert(d >= -8_334_601_228_800) by {
                        vstd::arithmetic::div_mod::lemma_fundamental_div_mod(now as int, SECS_PER_DAY as int);
                        vstd::arithmetic::div_mod::lemma_fundamental_div_mod(-8_334_601_228_800, SECS_PER_DAY as int);
                        assert(now as int / (SECS_PER_DAY as int) >= -96_465_292) by {
                            vstd::arithmetic::div_mod::lemma_div_is_ordered(-8_334_601_228_800, now as int, SECS_PER_DAY as int);
                        }
                    }
                }
            }
        }
        match self {
            QuotaPeriod::Daily => chrono_day_start(now),
            QuotaPeriod::Monthly => chrono_month_start(now),
            _ => None,
        }
    }
}

/// Writing a period's name and reading it back gives the period.
pub proof fn law_quota_period_name_round_trip(p: QuotaPeriod)
    ensures
        QuotaPeriod::from_name(p.name()) == p,
{
    reveal_strlit("none");
    reveal_strlit("daily");
    reveal_strlit("monthly");
    reveal_strlit("total");
    assert("none"@[0] != "daily"@[0]);
    assert("none"@ != "daily"@);
    assert("none"@ != "monthly"@);
    assert("none"@ != "total"@);
    assert("daily"@[0] != "monthly"@[0]);
    assert("daily"@ != "monthly"@);
    assert("total"@ != "monthly"@);
}

/// Port assignment strategy for batch creation.
#[derive(Debug, Clone)]
pub enum PortAssignMode {
    Auto,
    FromStart { start_port: u16 },
    Manual { ports: Vec<u16> },
}

/// Rule as stored and exposed; times are Unix seconds (UTC).
#[derive(Debug, Clone)]
pub struct RuleRecord {
    pub id: i64,
    pub local_port: u16,
    pub listen_host: String,
    pub target_host: String,
    pub target_port: u16,
    pub enabled: bool,
    pub quota_bytes: Option<i64>,
    pub quota_period: QuotaPeriod,
    pub period_start: Option<i64>,
    pub created_at: i64,
    pub updated_at: i64,
}

/// Target endpoint parsed from `host:port` lines.
#[derive(Debug, Clone)]
pub struct ForwardRule {
    pub target_host: String,
    pub target_port: u16,
}

/// Why a `host:port` line was refused.
#[derive(Debug, Clone)]
pub enum RuleParseError {
    /// The line holds no `:`.
    MissingSeparator,
    /// The text after the last `:` is not a port number.
    InvalidPort { port: String },
    /// The port is 0.
    ZeroPort,
}

impl RuleParseError {
    /// The message shown for the refusal.
    pub open spec fn text(self) -> Seq<char> {
        match self {
            RuleParseError::MissingSeparator => "无效格式，需要 主机:端口"@,
            RuleParseError::InvalidPort { port } => "无效端口: "@ + port@,
            RuleParseError::ZeroPort => "端口不能为 0"@,
        }
    }

    pub fn message(&self) -> (r: String)
        ensures
            r@ == self.text(),
    {
        match self {
            RuleParseError::MissingSeparator => "无效格式，需要 主机:端口".to_owned(),
            RuleParseError::InvalidPort { port } => {
                let mut s = "无效端口: ".to_owned();
                s.append(port.as_str());
                s
            },
            RuleParseError::ZeroPort => "端口不能为 0".to_owned(),
        }
    }
}

/// Index of the last `:` in `s`, or -1.
pub open spec fn last_colon(s: Seq<char>) -> int
    decreases s.len(),
{
    if s.len() == 0 {
        -1
    } else if s.last() == ':' {
        s.len() - 1
    } else {
        last_colon(s.drop_last())
    }
}

pub proof fn lemma_last_colon(s: Seq<char>)
    ensures
        -1 <= last_colon(s) < s.len(),
        last_colon(s) >= 0 ==> s[last_colon(s)] == ':',
        forall|j: int| last_colon(s) < j < s.len() ==> s[j] != ':',
    decreases s.len(),
{
    if s.len() > 0 && s.last() != ':' {
        lemma_last_colon(s.drop_last());
        assert forall|j: int| last_colon(s) < j < s.len() implies s[j] != ':' by {
            if j < s.len() - 1 {
                assert(s[j] == s.drop_last()[j]);
            }
        }
    }
}

/// `last_colon` looks past a suffix that holds no `:`.
proof fn lemma_last_colon_skip(s: Seq<char>, t: Seq<char>)
    requires
        forall|i: int| 0 <= i < t.len() ==> #[trigger] t[i] != ':',
    ensures
        last_colon(s + t) == last_colon(s),
    decreases t.len(),
{
    if t.len() > 0 {
        assert((s + t).drop_last() == s + t.drop_last());
        assert((s + t).last() == t.last());
        lemma_last_colon_skip(s, t.drop_last());
    } else {
        assert(s + t == s);
    }
}

/// The host part of a target line: the trimmed line up to its last `:`.
pub open spec fn line_host(line: Seq<char>) -> Seq<char> {
    trim(line).subrange(0, last_colon(trim(line)))
}

/// The port text of a target line: the trimmed line after its last `:`.
pub open spec fn line_port_text(line: Seq<char>) -> Seq<char> {
    let t = trim(line);
    t.subrange(last_colon(t) + 1, t.len() as int)
}

/// Whether `line` is a valid target line.
pub open spec fn line_is_target(line: Seq<char>) -> bool {
    &&& last_colon(trim(line)) >= 0
    &&& spec_parse_u16(line_port_text(line)) matches Some(p)
    &&& p != 0
}

impl ForwardRule {
    /// `r` is what parsing `line` gives: the host before the last `:` of the
    /// trimmed line and the port after it, or the reason the line is refused.
    pub open spec fn parse_outcome(line: Seq<char>, r: Result<ForwardRule, RuleParseError>) -> bool {
        let t = trim(line);
        let k = last_colon(t);
        match r {
            Ok(rule) => {
                &&& line_is_target(line)
                &&& rule.target_host@ == line_host(line)
                &&& Some(rule.target_port) == spec_parse_u16(line_port_text(line))
            },
            Err(RuleParseError::MissingSeparator) => k < 0,
            Err(RuleParseError::InvalidPort { port }) => {
                &&& k >= 0
                &&& spec_parse_u16(line_port_text(line)) is None
                &&& port@ == line_port_text(line)
            },
            Err(RuleParseError::ZeroPort) => k >= 0 && spec_parse_u16(line_port_text(line))
                == Some(0u16),
        }
    }

    pub fn parse(line: &str) -> (r: Result<Self, RuleParseError>)
        ensures
            Self::parse_outcome(line@, r),
    {
        let chars = chars_of(line);
        let (lo, hi) = trim_bounds(&chars);
        let ghost t = trim(line@);
        let mut k: usize = hi;
        while k > lo && chars[k - 1] != ':'
            invariant
                lo <= k <= hi <= chars.len(),
                chars@ == line@,
                t == chars@.subrange(lo as int, hi as int),
                forall|j: int| k <= j < hi ==> chars@[j] != ':',
            decreases k,
        {
            k = k - 1;
        }
        proof {
            lemma_last_colon(t);
        }
        if k == lo {
            proof {
                if last_colon(t) >= 0 {
                    assert(t[last_colon(t)] == chars@[lo + last_colon(t)]);
                }
            }
            return Err(RuleParseError::MissingSeparator);
        }
        let colon: usize = k - 1;
        proof {
            assert(t[colon - lo] == ':');
            if last_colon(t) > colon - lo {
                assert(t[last_colon(t)] == chars@[lo + last_colon(t)]);
            }
            assert(last_colon(t) == colon - lo);
        }
        let mut port_chars: Vec<char> = Vec::new();
        let mut i: usize = colon + 1;
        while i < hi
            invariant
                colon + 1 <= i <= hi <= chars.len(),
                port_chars@ == chars@.subrange(colon + 1, i as int),
            decreases hi - i,
        {
            port_chars.push(chars[i]);
            i = i + 1;
        }
        proof {
            assert(port_chars@ == line_port_text(line@));
        }
        match parse_u16(&port_chars) {
            None => {
                let port = line.substring_char(colon + 1, hi).to_owned();
                Err(RuleParseError::InvalidPort { port })
            },
            Some(p) => {
                if p == 0 {
                    Err(RuleParseError::ZeroPort)
                } else {
                    let host = line.substring_char(lo, colon).to_owned();
                    proof {
                        assert(host@ == line_host(line@));
                    }
                    Ok(ForwardRule { target_host: host, target_port: p })
                }
            },
        }
    }
}

/// Writing a target as `host:port` (the port in decimal) and parsing the
/// line gives back the host and the port, for every host that does not start
/// with white space and every port but 0.
pub proof fn law_target_line_round_trip(host: Seq<char>, port: u16)
    requires
        port != 0,
        host.len() > 0 ==> !is_white_space(host[0]),
    ensures
        forall|r: Result<ForwardRule, RuleParseError>|
            #[trigger] ForwardRule::parse_outcome(host + seq![':'] + digits(port as nat, 10), r) ==> (
            r matches Ok(rule) && rule.target_host@ == host && rule.target_port == port),
{
    let d = digits(port as nat, 10);
    lemma_decimal_digits(port as nat);
    let head = host + seq![':'];
    let line = head + d;
    assert(line[0] == head[0]);
    assert(!is_white_space(line[0]));
    assert(trim_start(line) == line);
    assert(line.last() == d[d.len() - 1]);
    assert(is_digit(d[d.len() - 1]));
    assert(trim_end(line) == line);
    assert(trim(line) == line);
    assert forall|i: int| 0 <= i < d.len() implies #[trigger] d[i] != ':' by {
        assert(is_digit(d[i]));
    }
    lemma_last_colon_skip(head, d);
    assert(head.last() == ':');
    assert(last_colon(head) == host.len());
    assert(line_host(line) =~= host);
    assert(line_port_text(line) =~= d);
    assert(unsigned_digits(d) == d);
    assert(spec_parse_u16(d) == Some(port));
}

} // verus!
