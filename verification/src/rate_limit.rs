//! Login brute-force protection: failures are counted per client (an IPv4
//! address, or the /64 prefix of an IPv6 address), and every fifth failure
//! bans the client for a time that doubles with each ban.
//!
//! Times are monotonic milliseconds, as read from the caller's clock.

use vstd::prelude::*;
use vstd::arithmetic::power2::pow2;

use crate::addr::IpAddress;
use crate::text::{digit_char, digits, push_digits, string_from_chars};

verus! {

/// Failures that trigger a ban.
pub const MAX_FAILURES: u32 = 5;

/// Length of a ban before doubling, in seconds.
pub const BASE_BAN_SECS: u64 = 600;

/// Longest ban, in seconds.
pub const MAX_BAN_SECS: u64 = 86_400;

/// Clients tracked before the least recently seen are dropped.
pub const MAX_ENTRIES: usize = 10_000;

/// Seconds after which an unbanned client is forgotten.
pub const STALE_SECS: u64 = 86_400;

/// Milliseconds per second.
pub const MILLIS_PER_SEC: u64 = 1000;

// ---------------------------------------------------------------------------
// Client keys
// ---------------------------------------------------------------------------

/// The key under which failures of `ip` are counted: `v4:` and the IPv4
/// address in dotted decimal, or `v6:`, the first four segments of an IPv6
/// address in hex, and `:/64`.
pub open spec fn client_key(ip: IpAddress) -> Seq<char> {
    match ip {
        IpAddress::V4(a, b, c, d) => seq!['v', '4', ':'] + (digits(a as nat, 10) + (seq!['.'] + (
        digits(b as nat, 10) + (seq!['.'] + (digits(c as nat, 10) + (seq!['.'] + digits(
            d as nat,
            10,
        ))))))),
        IpAddress::V6(a, b, c, d, _, _, _, _) => seq!['v', '6', ':'] + (digits(a as nat, 16) + (seq![
            ':',
        ] + (digits(b as nat, 16) + (seq![':'] + (digits(c as nat, 16) + (seq![':'] + (digits(
            d as nat,
            16,
        ) + seq![':', '/', '6', '4']))))))),
    }
}

/// The key for `ip` (see `client_key`).
pub fn normalize_ip(ip: IpAddress) -> (r: String)
    ensures
        r@ == client_key(ip),
{
    let mut out: Vec<char> = Vec::new();
    match ip {
        IpAddress::V4(a, b, c, d) => {
            out.push('v');
            out.push('4');
            out.push(':');
            let ghost p = out@;
            push_digits(&mut out, a as u32, 10);
            let ghost s0 = out@;
            out.push('.');
            push_digits(&mut out, b as u32, 10);
            let ghost s1 = out@;
            out.push('.');
            push_digits(&mut out, c as u32, 10);
            let ghost s2 = out@;
            out.push('.');
            push_digits(&mut out, d as u32, 10);
            proof {
                let da = digits(a as nat, 10);
                let db = digits(b as nat, 10);
                let dc = digits(c as nat, 10);
                let dd = digits(d as nat, 10);
                assert(p =~= seq!['v', '4', ':']);
                assert(out@ =~= s2 + (seq!['.'] + dd));
                assert(s2 =~= s1 + (seq!['.'] + dc));
                assert(s1 =~= s0 + (seq!['.'] + db));
                assert(s0 =~= p + da);
                assert(out@ =~= p + (da + (seq!['.'] + (db + (seq!['.'] + (dc + (seq!['.'] + dd)))))));
            }
        },
        IpAddress::V6(a, b, c, d, _, _, _, _) => {
            out.push('v');
            out.push('6');
            out.push(':');
            let ghost p = out@;
            push_digits(&mut out, a as u32, 16);
            let ghost s0 = out@;
            out.push(':');
            push_digits(&mut out, b as u32, 16);
            let ghost s1 = out@;
            out.push(':');
            push_digits(&mut out, c as u32, 16);
            let ghost s2 = out@;
            out.push(':');
            push_digits(&mut out, d as u32, 16);
            let ghost s3 = out@;
            out.push(':');
            out.push('/');
            out.push('6');
            out.push('4');
            proof {
                let da = digits(a as nat, 16);
                let db = digits(b as nat, 16);
                let dc = digits(c as nat, 16);
                let dd = digits(d as nat, 16);
                let t = seq![':', '/', '6', '4'];
                assert(p =~= seq!['v', '6', ':']);
                assert(out@ =~= s3 + t);
                assert(s3 =~= s2 + (seq![':'] + dd));
                assert(s2 =~= s1 + (seq![':'] + dc));
                assert(s1 =~= s0 + (seq![':'] + db));
                assert(s0 =~= p + da);
                assert(out@ =~= p + (da + (seq![':'] + (db + (seq![':'] + (dc + (seq![':'] + (dd + t))))))));
            }
        },
    }
    string_from_chars(out.as_slice())
}

/// Two IPv6 addresses in one /64 network are counted as one client.
pub proof fn law_ipv6_same_prefix_same_key(a: IpAddress, b: IpAddress)
    requires
        a matches IpAddress::V6(a0, a1, a2, a3, _, _, _, _),
        b matches IpAddress::V6(b0, b1, b2, b3, _, _, _, _),
        a->V6_0 == b->V6_0 && a->V6_1 == b->V6_1 && a->V6_2 == b->V6_2 && a->V6_3 == b->V6_3,
    ensures
        client_key(a) == client_key(b),
{
}

// ---------------------------------------------------------------------------
// Per-client state
// ---------------------------------------------------------------------------

/// What is known of one client.
#[derive(Debug, Clone, Copy)]
pub struct Entry {
    /// Failures since the last ban (or since first seen).
    pub failures: u32,
    /// When the current ban ends, if the client was ever banned.
    pub ban_until: Option<u64>,
    /// How many bans the client has had.
    pub ban_level: u32,
    /// When the client last failed.
    pub last_seen: u64,
}

/// Whole seconds from `earlier` to `later`, zero if `later` is not later.
pub open spec fn secs_between(earlier: u64, later: u64) -> int {
    if later >= earlier {
        (later - earlier) as int / MILLIS_PER_SEC as int
    } else {
        0
    }
}

/// Whether `e` is still under a ban at `now`.
pub open spec fn is_banned(e: Entry, now: u64) -> bool {
    e.ban_until matches Some(until) && until > now
}

/// Whether cleanup keeps `e` at `now`: banned, or seen within `STALE_SECS`.
pub open spec fn is_kept(e: Entry, now: u64) -> bool {
    is_banned(e, now) || secs_between(e.last_seen, now) < STALE_SECS
}

/// Length in seconds of the ban a client gets at ban level `level`.
pub open spec fn ban_secs(level: u32) -> int {
    let shift: nat = if level < 6 {
        level as nat
    } else {
        6
    };
    let secs = BASE_BAN_SECS * pow2(shift);
    if secs < MAX_BAN_SECS {
        secs as int
    } else {
        MAX_BAN_SECS as int
    }
}

/// The entry after one more failure at `now`; `prev` is the entry before.
pub open spec fn failure_step(prev: Option<Entry>, now: u64) -> Entry {
    let e = match prev {
        Some(e) => e,
        None => Entry { failures: 0, ban_until: None, ban_level: 0, last_seen: now },
    };
    if e.failures + 1 >= MAX_FAILURES {
        let level: u32 = if e.ban_level < u32::MAX {
            (e.ban_level + 1) as u32
        } else {
            u32::MAX
        };
        Entry {
            failures: 0,
            ban_until: Some((now + ban_secs(level) * MILLIS_PER_SEC) as u64),
            ban_level: level,
            last_seen: now,
        }
    } else {
        Entry { failures: (e.failures + 1) as u32, last_seen: now, ..e }
    }
}

/// Seconds of ban left at `now` (at least 1 while banned), 0 when not banned.
pub open spec fn ban_remaining(e: Option<Entry>, now: u64) -> u64 {
    match e {
        Some(e) => if is_banned(e, now) {
            let secs = secs_between(now, e.ban_until->0);
            if secs >= 1 {
                secs as u64
            } else {
                1
            }
        } else {
            0
        },
        None => 0,
    }
}

// ---------------------------------------------------------------------------
// The table of clients
// ---------------------------------------------------------------------------

pub open spec fn keys_distinct(s: Seq<(String, Entry)>) -> bool {
    forall|i: int, j: int|
        0 <= i < s.len() && 0 <= j < s.len() && i != j ==> #[trigger] s[i].0@ != #[trigger] s[j].0@
}

/// Every element of `a` is one of the first `n` elements of `s`.
pub open spec fn drawn_from(a: Seq<(String, Entry)>, s: Seq<(String, Entry)>, n: int) -> bool {
    forall|j: int|
        #![trigger a[j]]
        0 <= j < a.len() ==> exists|m: int| #![trigger s[m]] 0 <= m < n && a[j] == s[m]
}

pub open spec fn has_key(s: Seq<(String, Entry)>, k: Seq<char>) -> bool {
    exists|i: int| 0 <= i < s.len() && #[trigger] s[i].0@ == k
}

/// The map from client key to entry that a list of distinct keys stands for.
pub open spec fn map_of(s: Seq<(String, Entry)>) -> Map<Seq<char>, Entry> {
    Map::new(
        |k: Seq<char>| has_key(s, k),
        |k: Seq<char>| s[choose|i: int| 0 <= i < s.len() && #[trigger] s[i].0@ == k].1,
    )
}

proof fn lemma_map_of_index(s: Seq<(String, Entry)>, i: int)
    requires
        keys_distinct(s),
        0 <= i < s.len(),
    ensures
        map_of(s).contains_key(s[i].0@),
        map_of(s)[s[i].0@] == s[i].1,
{
    let k = s[i].0@;
    assert(has_key(s, k));
    let j = choose|j: int| 0 <= j < s.len() && #[trigger] s[j].0@ == k;
    assert(j == i);
}

proof fn lemma_map_of_remove(s: Seq<(String, Entry)>, i: int)
    requires
        keys_distinct(s),
        0 <= i < s.len(),
    ensures
        keys_distinct(s.remove(i)),
        map_of(s.remove(i)) == map_of(s).remove(s[i].0@),
        forall|j: int| #![trigger s.remove(i)[j]] 0 <= j < s.remove(i).len() ==> exists|m: int| #![trigger s[m]] 0 <= m < s.len() && s.remove(i)[j] == s[m],
{
    let r = s.remove(i);
    assert forall|a: int, b: int| 0 <= a < r.len() && 0 <= b < r.len() && a != b implies #[trigger] r[a].0@ != #[trigger] r[b].0@ by {
        let a2 = if a < i { a } else { a + 1 };
        let b2 = if b < i { b } else { b + 1 };
        assert(r[a] == s[a2]);
        assert(r[b] == s[b2]);
    }
    assert forall|j: int| #![trigger r[j]] 0 <= j < r.len() implies exists|m: int| #![trigger s[m]] 0 <= m < s.len() && r[j] == s[m] by {
        if j < i {
            assert(r[j] == s[j]);
        } else {
            assert(r[j] == s[j + 1]);
        }
    }
    let m1 = map_of(r);
    let m2 = map_of(s).remove(s[i].0@);
    assert forall|k: Seq<char>| #[trigger] m1.contains_key(k) <==> m2.contains_key(k) by {
        if m1.contains_key(k) {
            let j = choose|j: int| 0 <= j < r.len() && #[trigger] r[j].0@ == k;
            let j2 = if j < i { j } else { j + 1 };
            assert(r[j] == s[j2]);
            assert(has_key(s, k));
            assert(k != s[i].0@);
        }
        if m2.contains_key(k) {
            let j = choose|j: int| 0 <= j < s.len() && #[trigger] s[j].0@ == k;
            assert(j != i);
            let j2 = if j < i { j } else { j - 1 };
            assert(r[j2] == s[j]);
            assert(has_key(r, k));
        }
    }
    assert forall|k: Seq<char>| #[trigger] m1.contains_key(k) implies m1[k] == m2[k] by {
        let j = choose|j: int| 0 <= j < r.len() && #[trigger] r[j].0@ == k;
        let j2 = if j < i { j } else { j + 1 };
        assert(r[j] == s[j2]);
        lemma_map_of_index(r, j);
        lemma_map_of_index(s, j2);
    }
    assert(m1 =~= m2);
}

proof fn lemma_map_of_update(s: Seq<(String, Entry)>, i: int, p: (String, Entry))
    requires
        keys_distinct(s),
        0 <= i < s.len(),
        p.0@ == s[i].0@,
    ensures
        keys_distinct(s.update(i, p)),
        map_of(s.update(i, p)) == map_of(s).insert(s[i].0@, p.1),
{
    let u = s.update(i, p);
    assert forall|a: int, b: int| 0 <= a < u.len() && 0 <= b < u.len() && a != b implies #[trigger] u[a].0@ != #[trigger] u[b].0@ by {
        assert(u[a].0@ == s[a].0@);
        assert(u[b].0@ == s[b].0@);
    }
    let m1 = map_of(u);
    let m2 = map_of(s).insert(s[i].0@, p.1);
    assert forall|k: Seq<char>| #[trigger] m1.contains_key(k) <==> m2.contains_key(k) by {
        if m1.contains_key(k) {
            let j = choose|j: int| 0 <= j < u.len() && #[trigger] u[j].0@ == k;
            assert(s[j].0@ == k);
        }
        if m2.contains_key(k) && k != s[i].0@ {
            let j = choose|j: int| 0 <= j < s.len() && #[trigger] s[j].0@ == k;
            assert(u[j].0@ == k);
        }
        if k == s[i].0@ {
            assert(u[i].0@ == k);
        }
    }
    assert forall|k: Seq<char>| #[trigger] m1.contains_key(k) implies m1[k] == m2[k] by {
        let j = choose|j: int| 0 <= j < u.len() && #[trigger] u[j].0@ == k;
        lemma_map_of_index(u, j);
        if j != i {
            assert(u[j] == s[j]);
            lemma_map_of_index(s, j);
        }
    }
    assert(m1 =~= m2);
}

proof fn lemma_map_of_push(s: Seq<(String, Entry)>, p: (String, Entry))
    requires
        keys_distinct(s),
        !has_key(s, p.0@),
    ensures
        keys_distinct(s.push(p)),
        map_of(s.push(p)) == map_of(s).insert(p.0@, p.1),
{
    let u = s.push(p);
    assert forall|a: int, b: int| 0 <= a < u.len() && 0 <= b < u.len() && a != b implies #[trigger] u[a].0@ != #[trigger] u[b].0@ by {
        if a < s.len() && b < s.len() {
            assert(u[a] == s[a]);
            assert(u[b] == s[b]);
        } else if a < s.len() {
            assert(u[a] == s[a]);
            assert(u[b] == p);
            assert(s[a].0@ != p.0@);
        } else {
            assert(u[b] == s[b]);
            assert(u[a] == p);
            assert(s[b].0@ != p.0@);
        }
    }
    let m1 = map_of(u);
    let m2 = map_of(s).insert(p.0@, p.1);
    assert forall|k: Seq<char>| #[trigger] m1.contains_key(k) <==> m2.contains_key(k) by {
        if m1.contains_key(k) && k != p.0@ {
            let j = choose|j: int| 0 <= j < u.len() && #[trigger] u[j].0@ == k;
            assert(u[j] == s[j]);
        }
        if m2.contains_key(k) && k != p.0@ {
            let j = choose|j: int| 0 <= j < s.len() && #[trigger] s[j].0@ == k;
            assert(u[j] == s[j]);
        }
        if k == p.0@ {
            assert(u[s.len() as int].0@ == k);
        }
    }
    assert forall|k: Seq<char>| #[trigger] m1.contains_key(k) implies m1[k] == m2[k] by {
        let j = choose|j: int| 0 <= j < u.len() && #[trigger] u[j].0@ == k;
        lemma_map_of_index(u, j);
        if j < s.len() {
            assert(u[j] == s[j]);
            lemma_map_of_index(s, j);
        }
    }
    assert(m1 =~= m2);
}

/// The part of `m` that cleanup at `now` keeps before any eviction.
pub open spec fn retained(m: Map<Seq<char>, Entry>, now: u64) -> Map<Seq<char>, Entry> {
    m.restrict(m.dom().filter(|k: Seq<char>| is_kept(m[k], now)))
}

/// Login failure tracker keyed by client (see `client_key`).
pub struct LoginRateLimiter {
    entries: Vec<(String, Entry)>,
}

impl View for LoginRateLimiter {
    type V = Map<Seq<char>, Entry>;

    closed spec fn view(&self) -> Map<Seq<char>, Entry> {
        map_of(self.entries@)
    }
}

impl LoginRateLimiter {
    /// No client key occurs twice, and no client has reached the failure
    /// threshold without being banned.
    pub closed spec fn wf(self) -> bool {
        &&& keys_distinct(self.entries@)
        &&& forall|i: int| 0 <= i < self.entries@.len() ==> (#[trigger] self.entries@[i]).1.failures < MAX_FAILURES
    }

    /// Number of clients tracked.
    pub closed spec fn len(self) -> nat {
        self.entries@.len()
    }

    /// Number of clients that cleanup at `now` keeps before any eviction.
    pub closed spec fn retained_len(self, now: u64) -> nat {
        self.entries@.filter(|p: (String, Entry)| is_kept(p.1, now)).len()
    }

    /// `new` is `old` after cleanup at `now`: clients that are neither banned
    /// nor recently seen are dropped, then, while more than `MAX_ENTRIES`
    /// remain, the least recently seen are dropped.
    pub open spec fn is_cleanup_of(new: Self, old: Self, now: u64) -> bool {
        let kept = retained(old@, now);
        &&& new.wf()
        &&& new@.submap_of(kept)
        &&& new.len() == if old.retained_len(now) <= MAX_ENTRIES {
            old.retained_len(now)
        } else {
            MAX_ENTRIES as nat
        }
        &&& old.retained_len(now) <= MAX_ENTRIES ==> new@ == kept
        &&& forall|r: Seq<char>, c: Seq<char>|
            #![trigger kept.contains_key(r), new@.contains_key(c)]
            kept.contains_key(r) && !new@.contains_key(r) && new@.contains_key(c) ==> kept[r].last_seen
                <= kept[c].last_seen
    }

    /// `new` is what recording a failed login of `ip` at `now` makes of
    /// `old`: cleanup at `now`, then one more failure for the client's key,
    /// which adds at most one client.
    pub open spec fn failure_recorded(new: Self, old: Self, ip: IpAddress, now: u64) -> bool {
        &&& new.wf()
        &&& exists|mid: Self|
            #![trigger Self::is_cleanup_of(mid, old, now)]
            Self::is_cleanup_of(mid, old, now) && new@ == mid@.insert(
                client_key(ip),
                failure_step(mid@.get(client_key(ip)), now),
            ) && new.len() <= mid.len() + 1
    }

    /// Cleanup never adds clients, and drops only stale ones while the
    /// table holds no more than `MAX_ENTRIES`.
    proof fn lemma_cleanup_len(new: Self, old: Self, now: u64)
        requires
            Self::is_cleanup_of(new, old, now),
        ensures
            new.len() <= old.len(),
            old.len() <= MAX_ENTRIES ==> new@ == retained(old@, now),
    {
        broadcast use vstd::seq_lib::group_filter_ensures;

        assert(old.retained_len(now) <= old.len());
    }

    pub fn new() -> (r: Self)
        ensures
            r.wf(),
            r@ == Map::<Seq<char>, Entry>::empty(),
            r.len() == 0,
    {
        let r = LoginRateLimiter { entries: Vec::new() };
        assert(r@ =~= Map::<Seq<char>, Entry>::empty());
        r
    }

    fn find(&self, key: &String) -> (r: Option<usize>)
        requires
            self.wf(),
        ensures
            match r {
                Some(i) => i < self.entries@.len() && self.entries@[i as int].0@ == key@,
                None => !has_key(self.entries@, key@),
            },
    {
        let mut i: usize = 0;
        while i < self.entries.len()
            invariant
                i <= self.entries@.len(),
                forall|j: int| 0 <= j < i ==> #[trigger] self.entries@[j].0@ != key@,
            decreases self.entries@.len() - i,
        {
            if self.entries[i].0 == *key {
                return Some(i);
            }
            i = i + 1;
        }
        None
    }

    /// Drops stale clients, then the least recently seen beyond `MAX_ENTRIES`.
    pub fn cleanup(&mut self, now: u64)
        requires
            old(self).wf(),
        ensures
            Self::is_cleanup_of(*final(self), *old(self), now),
    {
        let ghost s = self.entries@;
        let ghost pred = |p: (String, Entry)| is_kept(p.1, now);
        let mut kept: Vec<(String, Entry)> = Vec::new();
        let mut i: usize = 0;
        while i < self.entries.len()
            invariant
                s == self.entries@,
                keys_distinct(s),
                forall|j: int| 0 <= j < s.len() ==> (#[trigger] s[j]).1.failures < MAX_FAILURES,
                i <= s.len(),
                pred == (|p: (String, Entry)| is_kept(p.1, now)),
                kept@ == s.take(i as int).filter(pred),
                keys_distinct(kept@),
                drawn_from(kept@, s, i as int),
                forall|m: int| 0 <= m < i && is_kept(s[m].1, now) ==> has_key(kept@, #[trigger] s[m].0@),
            decreases s.len() - i,
        {
            let ghost before = kept@;
            if is_kept_exec(&self.entries[i].1, now) {
                let key = self.entries[i].0.clone();
                let e = self.entries[i].1;
                proof {
                    assert forall|j: int| 0 <= j < before.len() implies #[trigger] before[j].0@ != key@ by {
                        assert(drawn_from(before, s, i as int));
                        let m = choose|m: int| #![trigger s[m]] 0 <= m < i && before[j] == s[m];
                        assert(s[m].0@ != s[i as int].0@);
                    }
                    if has_key(before, key@) {
                        let j = choose|j: int| 0 <= j < before.len() && #[trigger] before[j].0@ == key@;
                    }
                    lemma_map_of_push(before, (key, e));
                }
                kept.push((key, e));
                proof {
                    assert forall|j: int| #![trigger kept@[j]] 0 <= j < kept@.len() implies exists|m: int| #![trigger s[m]] 0 <= m < i + 1 && kept@[j] == s[m] by {
                        if j == before.len() {
                            assert(kept@[j] == s[i as int]);
                        } else {
                            assert(kept@[j] == before[j]);
                        }
                    }
                    assert forall|m: int| 0 <= m < i + 1 && is_kept(s[m].1, now) implies has_key(kept@, #[trigger] s[m].0@) by {
                        if m == i {
                            assert(kept@[before.len() as int].0@ == s[m].0@);
                        } else {
                            let j = choose|j: int| 0 <= j < before.len() && #[trigger] before[j].0@ == s[m].0@;
                            assert(kept@[j] == before[j]);
                        }
                    }
                }
            } else {
                proof {
                    assert forall|j: int| #![trigger kept@[j]] 0 <= j < kept@.len() implies exists|m: int| #![trigger s[m]] 0 <= m < i + 1 && kept@[j] == s[m] by {
                        let m = choose|m: int| #![trigger s[m]] 0 <= m < i && kept@[j] == s[m];
                    }
                }
            }
            proof {
                reveal_with_fuel(Seq::<_>::filter, 1);
                assert(s.take(i + 1).drop_last() == s.take(i as int));
                assert(s.take(i + 1).last() == s[i as int]);
            }
            i = i + 1;
        }
        proof {
            assert(s.take(s.len() as int) == s);
            // the kept list stands for the retained map
            let m1 = map_of(kept@);
            let m2 = retained(map_of(s), now);
            assert forall|k: Seq<char>| #[trigger] m1.contains_key(k) <==> m2.contains_key(k) by {
                if m1.contains_key(k) {
                    let j = choose|j: int| 0 <= j < kept@.len() && #[trigger] kept@[j].0@ == k;
                    let m = choose|m: int| #![trigger s[m]] 0 <= m < i && kept@[j] == s[m];
                    lemma_map_of_index(s, m);
                    lemma_seq_filter_member(s.take(s.len() as int), pred, j);
                }
                if m2.contains_key(k) {
                    let m = choose|m: int| 0 <= m < s.len() && #[trigger] s[m].0@ == k;
                    lemma_map_of_index(s, m);
                }
            }
            assert forall|k: Seq<char>| #[trigger] m1.contains_key(k) implies m1[k] == m2[k] by {
                let j = choose|j: int| 0 <= j < kept@.len() && #[trigger] kept@[j].0@ == k;
                let m = choose|m: int| #![trigger s[m]] 0 <= m < i && kept@[j] == s[m];
                lemma_map_of_index(s, m);
                lemma_map_of_index(kept@, j);
            }
            assert(m1 =~= m2);
        }
        let ghost kept_map = map_of(kept@);
        let ghost kept_len = kept.len();
        while kept.len() > MAX_ENTRIES
            invariant
                kept_map == retained(map_of(s), now),
                kept_len == s.filter(pred).len(),
                keys_distinct(kept@),
                drawn_from(kept@, s, s.len() as int),
                kept_len > MAX_ENTRIES ==> kept@.len() >= MAX_ENTRIES,
                kept_len <= MAX_ENTRIES ==> kept@.len() == kept_len,
                kept_len > MAX_ENTRIES ==> kept@.len() <= kept_len,
                kept_len <= MAX_ENTRIES ==> map_of(kept@) == kept_map,
                map_of(kept@).submap_of(kept_map),
                forall|r: Seq<char>, c: Seq<char>|
                    #![trigger kept_map.contains_key(r), map_of(kept@).contains_key(c)]
                    kept_map.contains_key(r) && !map_of(kept@).contains_key(r) && map_of(kept@).contains_key(c)
                        ==> kept_map[r].last_seen <= kept_map[c].last_seen,
            decreases kept@.len(),
        {
            let mut oldest: usize = 0;
            let mut j: usize = 1;
            while j < kept.len()
                invariant
                    1 <= j <= kept@.len(),
                    oldest < kept@.len(),
                    forall|x: int| 0 <= x < j ==> kept@[oldest as int].1.last_seen <= #[trigger] kept@[x].1.last_seen,
                decreases kept@.len() - j,
            {
                if kept[j].1.last_seen < kept[oldest].1.last_seen {
                    oldest = j;
                }
                j = j + 1;
            }
            let ghost before = kept@;
            let ghost gone = before[oldest as int].0@;
            proof {
                lemma_map_of_remove(before, oldest as int);
                lemma_map_of_index(before, oldest as int);
            }
            kept.remove(oldest);
            proof {
                let mb = map_of(before);
                let ma = map_of(kept@);
                assert forall|x: int| #![trigger kept@[x]] 0 <= x < kept@.len() implies exists|m: int| #![trigger s[m]] 0 <= m < s.len() && kept@[x] == s[m] by {
                    let y = choose|y: int| #![trigger before[y]] 0 <= y < before.len() && kept@[x] == before[y];
                    let m = choose|m: int| #![trigger s[m]] 0 <= m < s.len() && before[y] == s[m];
                }
                assert forall|r: Seq<char>, c: Seq<char>|
                    #![trigger kept_map.contains_key(r), ma.contains_key(c)]
                    kept_map.contains_key(r) && !ma.contains_key(r) && ma.contains_key(c)
                        implies kept_map[r].last_seen <= kept_map[c].last_seen by {
                    assert(mb.contains_key(c));
                    let y = choose|y: int| 0 <= y < before.len() && #[trigger] before[y].0@ == c;
                    lemma_map_of_index(before, y);
                    if r == gone {
                        assert(kept_map[r] == mb[r]);
                    }
                }
            }
        }
        self.entries = kept;
        proof {
            let fresh = self.entries@;
            assert forall|x: int| 0 <= x < fresh.len() implies (#[trigger] fresh[x]).1.failures < MAX_FAILURES by {
                let m = choose|m: int| #![trigger s[m]] 0 <= m < s.len() && fresh[x] == s[m];
            }
        }
    }

    /// Seconds of ban left for `ip` at `now` (0 when not banned), after
    /// cleanup at `now`.
    pub fn check(&mut self, ip: IpAddress, now: u64) -> (r: u64)
        requires
            old(self).wf(),
        ensures
            Self::is_cleanup_of(*final(self), *old(self), now),
            r == ban_remaining(final(self)@.get(client_key(ip)), now),
    {
        let key = normalize_ip(ip);
        self.cleanup(now);
        match self.find(&key) {
            None => {
                proof {
                    if self@.contains_key(key@) {
                        let j = choose|j: int| 0 <= j < self.entries@.len() && #[trigger] self.entries@[j].0@ == key@;
                    }
                }
                0
            },
            Some(i) => {
                proof {
                    lemma_map_of_index(self.entries@, i as int);
                }
                let e = self.entries[i].1;
                match e.ban_until {
                    Some(until) => {
                        if until > now {
                            let secs = (until - now) / MILLIS_PER_SEC;
                            if secs >= 1 {
                                secs
                            } else {
                                1
                            }
                        } else {
                            0
                        }
                    },
                    None => 0,
                }
            },
        }
    }

    /// Counts one failed login of `ip` at `now` (after cleanup at `now`);
    /// the fifth failure since the last ban bans the client.
    pub fn record_failure(&mut self, ip: IpAddress, now: u64)
        requires
            old(self).wf(),
            now <= u64::MAX - MAX_BAN_SECS * MILLIS_PER_SEC,
        ensures
            Self::failure_recorded(*final(self), *old(self), ip, now),
    {
        let key = normalize_ip(ip);
        self.cleanup(now);
        let ghost mid = *self;
        match self.find(&key) {
            None => {
                let e = failure_step_exec(None, now);
                proof {
                    if mid@.contains_key(key@) {
                        let j = choose|j: int| 0 <= j < self.entries@.len() && #[trigger] self.entries@[j].0@ == key@;
                    }
                    lemma_map_of_push(self.entries@, (key, e));
                }
                self.entries.push((key, e));
                proof {
                    assert forall|i: int| 0 <= i < self.entries@.len() implies (#[trigger] self.entries@[i]).1.failures < MAX_FAILURES by {
                        if i < mid.entries@.len() {
                            assert(self.entries@[i] == mid.entries@[i]);
                        }
                    }
                }
            },
            Some(i) => {
                let prev = self.entries[i].1;
                let e = failure_step_exec(Some(prev), now);
                let k = self.entries[i].0.clone();
                proof {
                    lemma_map_of_index(self.entries@, i as int);
                    lemma_map_of_update(self.entries@, i as int, (k, e));
                }
                self.entries.set(i, (k, e));
                proof {
                    assert forall|j: int| 0 <= j < self.entries@.len() implies (#[trigger] self.entries@[j]).1.failures < MAX_FAILURES by {
                        if j != i {
                            assert(self.entries@[j] == mid.entries@[j]);
                        }
                    }
                }
            },
        }
    }

    /// Forgets `ip` after a successful login.
    pub fn record_success(&mut self, ip: IpAddress)
        requires
            old(self).wf(),
        ensures
            final(self).wf(),
            final(self)@ == old(self)@.remove(client_key(ip)),
    {
        let key = normalize_ip(ip);
        match self.find(&key) {
            None => {
                proof {
                    if self@.contains_key(key@) {
                        let j = choose|j: int| 0 <= j < self.entries@.len() && #[trigger] self.entries@[j].0@ == key@;
                    }
                    assert(self@.remove(key@) =~= self@);
                }
            },
            Some(i) => {
                let ghost before = self.entries@;
                proof {
                    lemma_map_of_remove(before, i as int);
                }
                self.entries.remove(i);
                proof {
                    assert forall|j: int| 0 <= j < self.entries@.len() implies (#[trigger] self.entries@[j]).1.failures < MAX_FAILURES by {
                        if j < i {
                            assert(self.entries@[j] == before[j]);
                        } else {
                            assert(self.entries@[j] == before[j + 1]);
                        }
                    }
                }
            },
        }
    }
}

impl Default for LoginRateLimiter {
    fn default() -> (r: Self)
        ensures
            r.wf(),
            r@ == Map::<Seq<char>, Entry>::empty(),
    {
        Self::new()
    }
}

fn ban_secs_exec(level: u32) -> (r: u64)
    ensures
        r == ban_secs(level),
{
    let shift: u32 = if level < 6 {
        level
    } else {
        6
    };
    proof {
        vstd::arithmetic::power2::lemma2_to64();
    }
    let multiplier: u64 = if shift == 0 {
        1
    } else if shift == 1 {
        2
    } else if shift == 2 {
        4
    } else if shift == 3 {
        8
    } else if shift == 4 {
        16
    } else if shift == 5 {
        32
    } else {
        64
    };
    let secs = BASE_BAN_SECS * multiplier;
    if secs < MAX_BAN_SECS {
        secs
    } else {
        MAX_BAN_SECS
    }
}

fn failure_step_exec(prev: Option<Entry>, now: u64) -> (r: Entry)
    requires
        prev matches Some(e) ==> e.failures < MAX_FAILURES,
        now <= u64::MAX - MAX_BAN_SECS * MILLIS_PER_SEC,
    ensures
        r == failure_step(prev, now),
        r.failures < MAX_FAILURES,
{
    let mut e = match prev {
        Some(e) => e,
        None => Entry { failures: 0, ban_until: None, ban_level: 0, last_seen: now },
    };
    e.last_seen = now;
    e.failures = e.failures + 1;
    if e.failures >= MAX_FAILURES {
        e.ban_level = e.ban_level.saturating_add(1);
        let secs = ban_secs_exec(e.ban_level);
        e.ban_until = Some(now + secs * MILLIS_PER_SEC);
        e.failures = 0;
    }
    e
}

fn is_kept_exec(e: &Entry, now: u64) -> (r: bool)
    ensures
        r == is_kept(*e, now),
{
    let banned = match e.ban_until {
        Some(until) => until > now,
        None => false,
    };
    let secs: u64 = if now >= e.last_seen {
        (now - e.last_seen) / MILLIS_PER_SEC
    } else {
        0
    };
    banned || secs < STALE_SECS
}

proof fn lemma_seq_filter_member(s: Seq<(String, Entry)>, pred: spec_fn((String, Entry)) -> bool, j: int)
    requires
        0 <= j < s.filter(pred).len(),
    ensures
        pred(s.filter(pred)[j]),
{
    broadcast use vstd::seq_lib::group_filter_ensures;
    assert(s.filter(pred).contains(s.filter(pred)[j]));
}

proof fn lemma_digit_char_inj(x: nat, y: nat)
    requires
        x < 16,
        y < 16,
        digit_char(x) == digit_char(y),
    ensures
        x == y,
{
}

proof fn lemma_digits_shape(n: nat, base: nat)
    requires
        2 <= base <= 16,
    ensures
        n < base ==> digits(n, base).len() == 1,
        n >= base ==> digits(n, base).len() >= 2,
        forall|i: int| 0 <= i < digits(n, base).len() ==> {
            let c = #[trigger] digits(n, base)[i];
            c != '.' && c != ':'
        },
    decreases n,
{
    if n >= base {
        vstd::arithmetic::div_mod::lemma_div_decreases(n as int, base as int);
        lemma_digits_shape(n / base, base);
        assert(n / base >= 1) by (nonlinear_arith)
            requires
                n >= base,
                base >= 2,
        ;
        let pre = digits(n / base, base);
        assert forall|i: int| 0 <= i < digits(n, base).len() implies {
            let c = #[trigger] digits(n, base)[i];
            c != '.' && c != ':'
        } by {
            if i < pre.len() {
                assert(digits(n, base)[i] == pre[i]);
            }
        }
    }
}

proof fn lemma_digits_injective(n: nat, m: nat, base: nat)
    requires
        2 <= base <= 16,
        digits(n, base) == digits(m, base),
    ensures
        n == m,
    decreases n,
{
    lemma_digits_shape(n, base);
    lemma_digits_shape(m, base);
    if n < base {
        assert(digits(n, base)[0] == digit_char(n));
        assert(digits(m, base)[0] == digit_char(m));
        lemma_digit_char_inj(n, m);
    } else {
        vstd::arithmetic::div_mod::lemma_div_decreases(n as int, base as int);
        let dn = digits(n, base);
        assert(dn.drop_last() == digits(n / base, base));
        assert(dn.last() == digit_char(n % base));
        assert(digits(m, base).drop_last() == digits(m / base, base));
        assert(digits(m, base).last() == digit_char(m % base));
        lemma_digit_char_inj(n % base, m % base);
        lemma_digits_injective(n / base, m / base, base);
        vstd::arithmetic::div_mod::lemma_fundamental_div_mod(n as int, base as int);
        vstd::arithmetic::div_mod::lemma_fundamental_div_mod(m as int, base as int);
    }
}

proof fn lemma_sep_split(x1: Seq<char>, r1: Seq<char>, x2: Seq<char>, r2: Seq<char>, sep: char)
    requires
        x1 + (seq![sep] + r1) == x2 + (seq![sep] + r2),
        forall|i: int| 0 <= i < x1.len() ==> #[trigger] x1[i] != sep,
        forall|i: int| 0 <= i < x2.len() ==> #[trigger] x2[i] != sep,
    ensures
        x1 == x2,
        r1 == r2,
{
    let w1 = x1 + (seq![sep] + r1);
    let w2 = x2 + (seq![sep] + r2);
    if x1.len() < x2.len() {
        assert(w1[x1.len() as int] == sep);
        assert(w2[x1.len() as int] == x2[x1.len() as int]);
    } else if x2.len() < x1.len() {
        assert(w2[x2.len() as int] == sep);
        assert(w1[x2.len() as int] == x1[x2.len() as int]);
    } else {
        assert(x1 == w1.subrange(0, x1.len() as int));
        assert(x2 == w2.subrange(0, x2.len() as int));
        assert(r1 == w1.subrange(x1.len() as int + 1, w1.len() as int));
        assert(r2 == w2.subrange(x2.len() as int + 1, w2.len() as int));
    }
}

/// IPv4 clients are matched exactly: two different IPv4 addresses never
/// share a key.
#[verifier::rlimit(40)]
pub proof fn law_ipv4_exact(a: IpAddress, b: IpAddress)
    requires
        a is V4,
        b is V4,
        client_key(a) == client_key(b),
    ensures
        a == b,
{
    let (a0, a1, a2, a3) = (a->V4_0 as nat, a->V4_1 as nat, a->V4_2 as nat, a->V4_3 as nat);
    let (b0, b1, b2, b3) = (b->V4_0 as nat, b->V4_1 as nat, b->V4_2 as nat, b->V4_3 as nat);
    let dot = seq!['.'];
    let ra2 = digits(a2, 10) + (dot + digits(a3, 10));
    let rb2 = digits(b2, 10) + (dot + digits(b3, 10));
    let ra1 = digits(a1, 10) + (dot + ra2);
    let rb1 = digits(b1, 10) + (dot + rb2);
    let ta = digits(a0, 10) + (dot + ra1);
    let tb = digits(b0, 10) + (dot + rb1);
    let p = seq!['v', '4', ':'];
    assert(client_key(a) == p + ta);
    assert(client_key(b) == p + tb);
    assert((p + ta).skip(3) =~= ta);
    assert((p + tb).skip(3) =~= tb);
    lemma_digits_shape(a0, 10);
    lemma_digits_shape(b0, 10);
    lemma_sep_split(digits(a0, 10), ra1, digits(b0, 10), rb1, '.');
    lemma_digits_shape(a1, 10);
    lemma_digits_shape(b1, 10);
    lemma_sep_split(digits(a1, 10), ra2, digits(b1, 10), rb2, '.');
    lemma_digits_shape(a2, 10);
    lemma_digits_shape(b2, 10);
    lemma_sep_split(digits(a2, 10), digits(a3, 10), digits(b2, 10), digits(b3, 10), '.');
    lemma_digits_injective(a0, b0, 10);
    lemma_digits_injective(a1, b1, 10);
    lemma_digits_injective(a2, b2, 10);
    lemma_digits_injective(a3, b3, 10);
}

/// IPv6 clients are matched by /64 network: addresses in different /64
/// networks never share a key, and no IPv6 key is an IPv4 key.
#[verifier::rlimit(40)]
pub proof fn law_ipv6_prefix_exact(a: IpAddress, b: IpAddress)
    requires
        a is V6,
        client_key(a) == client_key(b),
    ensures
        b is V6,
        a->V6_0 == b->V6_0 && a->V6_1 == b->V6_1 && a->V6_2 == b->V6_2 && a->V6_3 == b->V6_3,
{
    let ka = client_key(a);
    let kb = client_key(b);
    if b is V4 {
        assert(ka[1] == '6');
        assert(kb[1] == '4');
    } else {
        let (a0, a1, a2, a3) = (a->V6_0 as nat, a->V6_1 as nat, a->V6_2 as nat, a->V6_3 as nat);
        let (b0, b1, b2, b3) = (b->V6_0 as nat, b->V6_1 as nat, b->V6_2 as nat, b->V6_3 as nat);
        let col = seq![':'];
        let tail = seq!['/', '6', '4'];
        assert(seq![':', '/', '6', '4'] =~= col + tail);
        let ra3 = digits(a3, 16) + (col + tail);
        let rb3 = digits(b3, 16) + (col + tail);
        let ra2 = digits(a2, 16) + (col + ra3);
        let rb2 = digits(b2, 16) + (col + rb3);
        let ra1 = digits(a1, 16) + (col + ra2);
        let rb1 = digits(b1, 16) + (col + rb2);
        let ta = digits(a0, 16) + (col + ra1);
        let tb = digits(b0, 16) + (col + rb1);
        let p = seq!['v', '6', ':'];
        assert(ka == p + ta);
        assert(kb == p + tb);
        assert((p + ta).skip(3) =~= ta);
        assert((p + tb).skip(3) =~= tb);
        lemma_digits_shape(a0, 16);
        lemma_digits_shape(b0, 16);
        lemma_sep_split(digits(a0, 16), ra1, digits(b0, 16), rb1, ':');
        lemma_digits_shape(a1, 16);
        lemma_digits_shape(b1, 16);
        lemma_sep_split(digits(a1, 16), ra2, digits(b1, 16), rb2, ':');
        lemma_digits_shape(a2, 16);
        lemma_digits_shape(b2, 16);
        lemma_sep_split(digits(a2, 16), ra3, digits(b2, 16), rb3, ':');
        lemma_digits_shape(a3, 16);
        lemma_digits_shape(b3, 16);
        lemma_sep_split(digits(a3, 16), tail, digits(b3, 16), tail, ':');
        lemma_digits_injective(a0, b0, 16);
        lemma_digits_injective(a1, b1, 16);
        lemma_digits_injective(a2, b2, 16);
        lemma_digits_injective(a3, b3, 16);
    }
}

/// Failures of one client before its next ban.
pub open spec fn failures_of(prev: Option<Entry>) -> int {
    match prev {
        Some(e) => e.failures as int,
        None => 0,
    }
}

/// The failure that reaches `MAX_FAILURES` bans the client from `now` for
/// `ban_secs` of its next ban level and starts the count over; an earlier
/// failure only counts.
pub proof fn law_threshold_failure_bans(prev: Option<Entry>, now: u64)
    requires
        prev matches Some(e) ==> e.failures < MAX_FAILURES,
        now <= u64::MAX - MAX_BAN_SECS * MILLIS_PER_SEC,
    ensures
        ({
            let next = failure_step(prev, now);
            &&& failures_of(prev) + 1 == MAX_FAILURES ==> {
                &&& is_banned(next, now)
                &&& next.failures == 0
                &&& next.ban_level == (match prev {
                    Some(e) => if e.ban_level < u32::MAX { e.ban_level + 1 } else { e.ban_level as int },
                    None => 1,
                })
                &&& ban_remaining(Some(next), now) == ban_secs(next.ban_level)
            }
            &&& failures_of(prev) + 1 < MAX_FAILURES ==> {
                &&& next.failures == failures_of(prev) + 1
                &&& prev matches Some(e) ==> next.ban_until == e.ban_until && next.ban_level == e.ban_level
                &&& prev is None ==> next.ban_until is None
            }
            &&& next.last_seen == now
        }),
{
    let next = failure_step(prev, now);
    if failures_of(prev) + 1 == MAX_FAILURES {
        law_ban_length(next.ban_level);
        let d = (now + ban_secs(next.ban_level) * MILLIS_PER_SEC) as u64;
        assert(d - now == ban_secs(next.ban_level) * MILLIS_PER_SEC);
        assert((ban_secs(next.ban_level) * MILLIS_PER_SEC) / MILLIS_PER_SEC as int == ban_secs(next.ban_level)) by (nonlinear_arith);
    }
}

/// Each ban lasts twice as long as the one before, from 600 s at level 0 up
/// to 38400 s from level 6 on; no ban is shorter than `BASE_BAN_SECS` or
/// longer than `MAX_BAN_SECS`.
pub proof fn law_ban_length(level: u32)
    ensures
        BASE_BAN_SECS <= ban_secs(level) <= MAX_BAN_SECS,
        level < 6 ==> ban_secs((level + 1) as u32) == 2 * ban_secs(level),
        level >= 6 ==> ban_secs(level) == BASE_BAN_SECS * 64,
        ban_secs(0) == BASE_BAN_SECS,
{
    vstd::arithmetic::power2::lemma2_to64();
}

/// After a successful login the client is not banned, whatever cleanup
/// happens before the next check.
pub proof fn law_success_clears_ban(
    before: LoginRateLimiter,
    after: LoginRateLimiter,
    checked: LoginRateLimiter,
    ip: IpAddress,
    now: u64,
)
    requires
        after@ == before@.remove(client_key(ip)),
        LoginRateLimiter::is_cleanup_of(checked, after, now),
    ensures
        ban_remaining(checked@.get(client_key(ip)), now) == 0,
{
    let k = client_key(ip);
    if checked@.contains_key(k) {
        assert(retained(after@, now).contains_key(k));
    }
}

/// Recording a failure of a client at `now`, while at most `MAX_ENTRIES`
/// clients are tracked, counts it on the client's entry if cleanup keeps
/// that entry (banned, or seen within `STALE_SECS`), or on a fresh entry
/// otherwise; no other client is added, and the table grows by at most one.
pub proof fn law_failure_counts_for_client(
    new: LoginRateLimiter,
    old: LoginRateLimiter,
    ip: IpAddress,
    now: u64,
)
    requires
        LoginRateLimiter::failure_recorded(new, old, ip, now),
        old.len() <= MAX_ENTRIES,
    ensures
        new.len() <= old.len() + 1,
        new@.contains_key(client_key(ip)),
        new@[client_key(ip)] == failure_step(
            if old@.contains_key(client_key(ip)) && is_kept(old@[client_key(ip)], now) {
                Some(old@[client_key(ip)])
            } else {
                None
            },
            now,
        ),
        forall|o: Seq<char>|
            #[trigger] new@.contains_key(o) && o != client_key(ip) ==> old@.contains_key(o),
{
    let k = client_key(ip);
    let mid = choose|mid: LoginRateLimiter|
        #![trigger LoginRateLimiter::is_cleanup_of(mid, old, now)]
        LoginRateLimiter::is_cleanup_of(mid, old, now) && new@ == mid@.insert(
            k,
            failure_step(mid@.get(k), now),
        ) && new.len() <= mid.len() + 1;
    LoginRateLimiter::lemma_cleanup_len(mid, old, now);
    assert(mid@ == retained(old@, now));
    if old@.contains_key(k) && is_kept(old@[k], now) {
        assert(old@.dom().filter(|c: Seq<char>| is_kept(old@[c], now)).contains(k));
        assert(mid@.get(k) == Some(old@[k]));
    } else {
        assert(!old@.dom().filter(|c: Seq<char>| is_kept(old@[c], now)).contains(k));
        assert(mid@.get(k) is None);
    }
    assert forall|o: Seq<char>| #[trigger] new@.contains_key(o) && o != k implies old@.contains_key(o) by {
        assert(mid@.contains_key(o));
    }
}

/// Later bans are never shorter: the ban length grows with the ban level.
pub proof fn law_bans_never_shorten(a: u32, b: u32)
    requires
        a <= b,
    ensures
        ban_secs(a) <= ban_secs(b),
{
    vstd::arithmetic::power2::lemma2_to64();
}

/// `ls[i + 1]` is what recording a failed login of `ips[i]` at `ts[i]`
/// makes of `ls[i]`, for each failure `i`.
pub open spec fn failures_chain(ls: Seq<LoginRateLimiter>, ips: Seq<IpAddress>, ts: Seq<u64>) -> bool {
    &&& ls.len() == ips.len() + 1
    &&& ts.len() == ips.len()
    &&& forall|i: int|
        #![trigger ips[i]]
        0 <= i < ips.len() ==> LoginRateLimiter::failure_recorded(ls[i + 1], ls[i], ips[i], ts[i])
}

proof fn lemma_failures_chain(
    ls: Seq<LoginRateLimiter>,
    ips: Seq<IpAddress>,
    ts: Seq<u64>,
    key: Seq<char>,
    i: int,
)
    requires
        failures_chain(ls, ips, ts),
        ips.len() <= 5,
        0 <= i <= ips.len(),
        forall|j: int| 0 <= j < ips.len() ==> client_key(#[trigger] ips[j]) == key,
        !ls[0]@.contains_key(key),
        ls[0].len() + ips.len() <= MAX_ENTRIES,
        forall|j: int, m: int| 0 <= j <= m < ts.len() ==> #[trigger] ts[j] <= #[trigger] ts[m],
        ips.len() > 0 ==> ts.last() - ts[0] < STALE_SECS * MILLIS_PER_SEC,
        ips.len() > 0 ==> ts.last() <= u64::MAX - MAX_BAN_SECS * MILLIS_PER_SEC,
    ensures
        ls[i].len() <= ls[0].len() + i,
        forall|o: Seq<char>| #[trigger] ls[i]@.contains_key(o) && o != key ==> ls[0]@.contains_key(o),
        i == 0 ==> !ls[i]@.contains_key(key),
        1 <= i <= 4 ==> ls[i]@.contains_key(key) && ls[i]@[key] == (Entry {
            failures: i as u32,
            ban_until: None,
            ban_level: 0,
            last_seen: ts[i - 1],
        }),
        i == 5 ==> ls[i]@.contains_key(key) && ls[i]@[key].ban_until == Some(
            (ts[4] + 2 * BASE_BAN_SECS * MILLIS_PER_SEC) as u64,
        ),
    decreases i,
{
    if i > 0 {
        lemma_failures_chain(ls, ips, ts, key, i - 1);
        let p = i - 1;
        assert(LoginRateLimiter::failure_recorded(ls[p + 1], ls[p], ips[p], ts[p]));
        assert(client_key(ips[p]) == key);
        law_failure_counts_for_client(ls[i], ls[p], ips[p], ts[p]);
        assert forall|o: Seq<char>| #[trigger] ls[i]@.contains_key(o) && o != key implies ls[0]@.contains_key(o) by {
            assert(ls[p]@.contains_key(o));
        }
        if p >= 1 {
            assert(ts[p - 1] <= ts[p]);
            assert(ts[0] <= ts[p - 1]);
            assert(ts[p] <= ts.last());
            assert(is_kept(ls[p]@[key], ts[p]));
        }
        if i == 5 {
            law_ban_length(0);
            assert(ts[4] == ts.last());
        }
    }
}

/// A client not yet tracked that fails to log in `k` times (`k` at most
/// five), each failure less than `STALE_SECS` after the first: after fewer
/// than five failures a check finds it not banned; the fifth bans it for
/// twice `BASE_BAN_SECS` (its first ban), and a check before the ban ends
/// finds between 1 and that many seconds left. Clients that were not
/// tracked before are never banned by these failures. This holds while at
/// most `MAX_ENTRIES - k` clients are tracked before the first failure, so
/// that cleanup evicts no recent client.
pub proof fn law_fifth_failure_bans_client(
    ls: Seq<LoginRateLimiter>,
    ips: Seq<IpAddress>,
    ts: Seq<u64>,
    key: Seq<char>,
    checked: LoginRateLimiter,
    t: u64,
    other: Seq<char>,
)
    requires
        failures_chain(ls, ips, ts),
        1 <= ips.len() <= 5,
        forall|j: int| 0 <= j < ips.len() ==> client_key(#[trigger] ips[j]) == key,
        !ls[0]@.contains_key(key),
        ls[0].len() + ips.len() <= MAX_ENTRIES,
        forall|j: int, m: int| 0 <= j <= m < ts.len() ==> #[trigger] ts[j] <= #[trigger] ts[m],
        ts.last() - ts[0] < STALE_SECS * MILLIS_PER_SEC,
        ts.last() <= u64::MAX - MAX_BAN_SECS * MILLIS_PER_SEC,
        ts.last() <= t,
        LoginRateLimiter::is_cleanup_of(checked, ls.last(), t),
    ensures
        ips.len() < 5 ==> ban_remaining(checked@.get(key), t) == 0,
        ips.len() == 5 ==> ls.last()@[key].ban_until == Some(
            (ts[4] + 2 * BASE_BAN_SECS * MILLIS_PER_SEC) as u64,
        ),
        ips.len() == 5 && t < ts[4] + 2 * BASE_BAN_SECS * MILLIS_PER_SEC ==> 1 <= ban_remaining(
            checked@.get(key),
            t,
        ) <= 2 * BASE_BAN_SECS,
        ips.len() == 5 && t == ts[4] ==> ban_remaining(checked@.get(key), t) == 2 * BASE_BAN_SECS,
        other != key && !ls[0]@.contains_key(other) ==> ban_remaining(checked@.get(other), t) == 0,
{
    let k = ips.len() as int;
    lemma_failures_chain(ls, ips, ts, key, k);
    let last = ls[k];
    assert(ls.last() == last);
    LoginRateLimiter::lemma_cleanup_len(checked, last, t);
    assert(checked@ == retained(last@, t));
    if checked@.contains_key(other) && other != key {
        assert(last@.contains_key(other));
    }
    if k == 5 {
        let e5 = last@[key];
        if t < ts[4] + 2 * BASE_BAN_SECS * MILLIS_PER_SEC {
            assert(is_banned(e5, t));
            assert(last@.dom().filter(|c: Seq<char>| is_kept(last@[c], t)).contains(key));
            assert(checked@.get(key) == Some(e5));
            let until = (ts[4] + 2 * BASE_BAN_SECS * MILLIS_PER_SEC) as int;
            assert((until - t) / (MILLIS_PER_SEC as int) <= 2 * BASE_BAN_SECS) by (nonlinear_arith)
                requires
                    until - t <= 2 * BASE_BAN_SECS * MILLIS_PER_SEC,
                    until - t > 0,
            ;
        }
        if t == ts[4] {
            assert(((2 * BASE_BAN_SECS * MILLIS_PER_SEC) as int) / (MILLIS_PER_SEC as int) == 2 * BASE_BAN_SECS);
        }
    } else {
        if checked@.contains_key(key) {
            assert(last@.contains_key(key));
        }
    }
}

} // verus!
