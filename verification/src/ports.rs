//! Choosing local ports for a batch of new rules.

use vstd::prelude::*;
use vstd::string::*;

use crate::rule::PortAssignMode;
use crate::text::{decimal_string, digits};

verus! {

/// Why no ports could be assigned.
#[derive(Debug, Clone, Copy, PartialEq, Eq, Structural)]
pub enum PortError {
    /// The start port of `FromStart` is 0.
    InvalidStartPort,
    /// `Manual` lists a different number of ports than there are targets.
    CountMismatch,
    /// `Manual` lists port 0.
    InvalidPort(u16),
    /// `Manual` lists a port that is in use.
    PortUnavailable(u16),
    /// No free port is left at or above the cursor.
    NoFreePort,
}

impl PortError {
    /// The message shown for the failure.
    pub open spec fn text(self) -> Seq<char> {
        match self {
            PortError::InvalidStartPort => "起始端口无效"@,
            PortError::CountMismatch => "手动端口数量与目标数量不一致"@,
            PortError::InvalidPort(p) => "端口 "@ + digits(p as nat, 10) + " 无效"@,
            PortError::PortUnavailable(p) => "端口 "@ + digits(p as nat, 10) + " 不可用"@,
            PortError::NoFreePort => "没有可用端口"@,
        }
    }

    pub fn message(&self) -> (r: String)
        ensures
            r@ == self.text(),
    {
        match self {
            PortError::InvalidStartPort => "起始端口无效".to_owned(),
            PortError::CountMismatch => "手动端口数量与目标数量不一致".to_owned(),
            PortError::InvalidPort(p) => {
                let mut s = "端口 ".to_owned();
                s.append(decimal_string(*p).as_str());
                s.append(" 无效");
                s
            },
            PortError::PortUnavailable(p) => {
                let mut s = "端口 ".to_owned();
                s.append(decimal_string(*p).as_str());
                s.append(" 不可用");
                s
            },
            PortError::NoFreePort => "没有可用端口".to_owned(),
        }
    }
}

/// A port is available when no rule uses it and it is not reserved.
pub open spec fn port_available(port: u16, used: Seq<u16>, reserved: Seq<u16>) -> bool {
    !used.contains(port) && !reserved.contains(port)
}

/// `p` is a non-zero port that no rule uses.
pub open spec fn is_free(p: int, used: Seq<u16>, reserved: Seq<u16>) -> bool {
    1 <= p <= 65535 && port_available(p as u16, used, reserved)
}

/// The lowest available non-zero port at or above `from`.
pub open spec fn next_free(from: int, used: Seq<u16>, reserved: Seq<u16>) -> Option<u16>
    decreases 65536 - from,
{
    if from > 65535 {
        None
    } else if is_free(from, used, reserved) {
        Some(from as u16)
    } else {
        next_free(from + 1, used, reserved)
    }
}

/// `p + 1`, saturating at 65535.
pub open spec fn after(p: u16) -> u16 {
    if p < 65535 {
        (p + 1) as u16
    } else {
        65535
    }
}

/// `count` ports taken one after another from `cursor` on, each the next
/// free port at or after the one before plus one; none if the ports run out.
pub open spec fn sequential_ports(count: nat, cursor: u16, used: Seq<u16>, reserved: Seq<u16>) -> Option<Seq<u16>>
    decreases count,
{
    if count == 0 {
        Some(Seq::empty())
    } else {
        match next_free(cursor as int, used, reserved) {
            None => None,
            Some(p) => match sequential_ports((count - 1) as nat, after(p), used.push(p), reserved) {
                None => None,
                Some(rest) => Some(seq![p] + rest),
            },
        }
    }
}

/// Where sequential assignment goes on after taking `ps` from `start`.
pub open spec fn cursor_after(ps: Seq<u16>, start: u16) -> u16 {
    if ps.len() == 0 {
        start
    } else {
        after(ps.last())
    }
}

/// `new` is `used` with the ports that sequential assignment from `start`
/// took before the free ports ran out, short of `count`: the first `k` of
/// them exist for some `k < count`, the first `k + 1` do not.
pub open spec fn ran_out(count: nat, start: u16, used: Seq<u16>, reserved: Seq<u16>, new: Seq<u16>) -> bool {
    exists|k: nat, ps: Seq<u16>|
        #![trigger sequential_ports(k, start, used, reserved), used + ps]
        k < count && sequential_ports(k, start, used, reserved) == Some(ps) && sequential_ports(
            k + 1,
            start,
            used,
            reserved,
        ) is None && new == used + ps
}

/// Taking `i + m` ports is taking `i`, then `m` more from where those end.
proof fn lemma_sequential_split(i: nat, m: nat, s: u16, u: Seq<u16>, r: Seq<u16>)
    ensures
        sequential_ports(i + m, s, u, r) == match sequential_ports(i, s, u, r) {
            None => None,
            Some(ps) => match sequential_ports(m, cursor_after(ps, s), u + ps, r) {
                None => None,
                Some(rs) => Some(ps + rs),
            },
        },
    decreases i,
{
    if i == 0 {
        assert(u + Seq::<u16>::empty() == u);
        assert(i + m == m);
        if let Some(rs) = sequential_ports(m, s, u, r) {
            assert(Seq::<u16>::empty() + rs == rs);
        }
    } else {
        assert((i + m - 1) as nat == ((i - 1) as nat + m) as nat);
        if let Some(p) = next_free(s as int, u, r) {
            lemma_sequential_split((i - 1) as nat, m, after(p), u.push(p), r);
            if let Some(rest) = sequential_ports((i - 1) as nat, after(p), u.push(p), r) {
                let ps = seq![p] + rest;
                assert(cursor_after(ps, s) == cursor_after(rest, after(p)));
                assert(u + ps == u.push(p) + rest);
                if let Some(rs) = sequential_ports(m, cursor_after(rest, after(p)), u.push(p) + rest, r) {
                    assert(ps + rs == seq![p] + (rest + rs));
                }
            }
        }
    }
}

/// The start of sequential assignment in `mode`.
pub open spec fn sequential_start(mode: PortAssignMode, default_start: u16) -> u16 {
    match mode {
        PortAssignMode::FromStart { start_port } => start_port,
        _ => default_start,
    }
}

/// Index of the first manual port that is 0 or in use, if any.
pub open spec fn first_bad_port(ports: Seq<u16>, used: Seq<u16>, reserved: Seq<u16>, from: int) -> Option<int>
    decreases ports.len() - from,
{
    if from >= ports.len() || from < 0 {
        None
    } else if ports[from] == 0 || !port_available(ports[from], used, reserved) {
        Some(from)
    } else {
        first_bad_port(ports, used, reserved, from + 1)
    }
}

/// What assigning `count` ports in `mode` gives, with `default_start` as
/// the start of automatic assignment and `used` the ports taken.
pub open spec fn spec_assign(
    count: nat,
    mode: PortAssignMode,
    default_start: u16,
    used: Seq<u16>,
    reserved: Seq<u16>,
) -> Result<
    Seq<u16>,
    PortError,
> {
    match mode {
        PortAssignMode::Auto => match sequential_ports(count, default_start, used, reserved) {
            Some(ps) => Ok(ps),
            None => Err(PortError::NoFreePort),
        },
        PortAssignMode::FromStart { start_port } => if start_port == 0 {
            Err(PortError::InvalidStartPort)
        } else {
            match sequential_ports(count, start_port, used, reserved) {
                Some(ps) => Ok(ps),
                None => Err(PortError::NoFreePort),
            }
        },
        PortAssignMode::Manual { ports } => if ports@.len() != count {
            Err(PortError::CountMismatch)
        } else {
            match first_bad_port(ports@, used, reserved, 0) {
                Some(i) => if ports@[i] == 0 {
                    Err(PortError::InvalidPort(0))
                } else {
                    Err(PortError::PortUnavailable(ports@[i]))
                },
                None => Ok(ports@),
            }
        },
    }
}

pub fn contains_port(v: &Vec<u16>, x: u16) -> (r: bool)
    ensures
        r == v@.contains(x),
{
    let mut i: usize = 0;
    while i < v.len()
        invariant
            i <= v.len(),
            forall|j: int| 0 <= j < i ==> v@[j] != x,
        decreases v.len() - i,
    {
        if v[i] == x {
            return true;
        }
        i = i + 1;
    }
    false
}

/// Whether `port` is free of rules and not reserved.
pub fn is_port_available(port: u16, used: &Vec<u16>, reserved: &Vec<u16>) -> (r: bool)
    ensures
        r == port_available(port, used@, reserved@),
{
    !contains_port(used, port) && !contains_port(reserved, port)
}

proof fn lemma_next_free_skip(from: int, to: int, used: Seq<u16>, reserved: Seq<u16>)
    requires
        from <= to <= 65536,
        forall|p: int| from <= p < to ==> !#[trigger] is_free(p, used, reserved),
    ensures
        next_free(from, used, reserved) == next_free(to, used, reserved),
    decreases to - from,
{
    if from < to {
        lemma_next_free_skip(from + 1, to, used, reserved);
    }
}

/// The lowest free non-zero port at or above `start`.
pub fn find_next_port(start: u16, used: &Vec<u16>, reserved: &Vec<u16>) -> (r: Result<u16, PortError>)
    ensures
        match next_free(start as int, used@, reserved@) {
            Some(p) => r == Ok::<u16, PortError>(p),
            None => r == Err::<u16, PortError>(PortError::NoFreePort),
        },
{
    let mut p: u32 = start as u32;
    while p <= 65535
        invariant
            start <= p <= 65536,
            forall|q: int| start <= q < p ==> !#[trigger] is_free(q, used@, reserved@),
        decreases 65536 - p,
    {
        if p >= 1 && is_port_available(p as u16, used, reserved) {
            proof {
                lemma_next_free_skip(start as int, p as int, used@, reserved@);
            }
            return Ok(p as u16);
        }
        p = p + 1;
    }
    proof {
        lemma_next_free_skip(start as int, 65536, used@, reserved@);
    }
    Err(PortError::NoFreePort)
}

#[verifier::loop_isolation(false)]
fn assign_sequential(count: usize, start: u16, used: &mut Vec<u16>, reserved: &Vec<u16>) -> (r: Result<
    Vec<u16>,
    PortError,
>)
    ensures
        match sequential_ports(count as nat, start, old(used)@, reserved@) {
            Some(ps) => r matches Ok(v) && v@ == ps && final(used)@ == old(used)@ + ps,
            None => r == Err::<Vec<u16>, PortError>(PortError::NoFreePort) && ran_out(
                count as nat,
                start,
                old(used)@,
                reserved@,
                final(used)@,
            ),
        },
{
    let ghost used0 = used@;
    let mut ports: Vec<u16> = Vec::with_capacity(count);
    let mut cursor: u16 = start;
    let mut i: usize = 0;
    while i < count
        invariant
            i <= count,
            used@ == used0 + ports@,
            ports@.len() == i,
            ({
                let total = sequential_ports(count as nat, start, used0, reserved@);
                let rest = sequential_ports((count - i) as nat, cursor, used@, reserved@);
                &&& total is Some <==> rest is Some
                &&& rest matches Some(rs) ==> total == Some(ports@ + rs)
            }),
            sequential_ports(i as nat, start, used0, reserved@) == Some(ports@),
            cursor == cursor_after(ports@, start),
        decreases count - i,
    {
        let ghost before_used = used@;
        let ghost before_ports = ports@;
        let ghost before_cursor = cursor;
        match find_next_port(cursor, used, reserved) {
            Err(e) => {
                proof {
                    assert(sequential_ports((count - i) as nat, cursor, used@, reserved@) is None);
                    lemma_sequential_split(i as nat, 1, start, used0, reserved@);
                    assert(sequential_ports(1, cursor, used@, reserved@) is None);
                    assert(sequential_ports((i + 1) as nat, start, used0, reserved@) is None);
                    assert(ran_out(count as nat, start, used0, reserved@, used@));
                }
                return Err(e);
            },
            Ok(p) => {
                ports.push(p);
                used.push(p);
                cursor = if p < 65535 {
                    p + 1
                } else {
                    65535
                };
                proof {
                    let rest_before = sequential_ports((count - i) as nat, before_cursor, before_used, reserved@);
                    let rest_after = sequential_ports((count - i - 1) as nat, cursor, used@, reserved@);
                    assert(used@ == before_used.push(p));
                    assert(used@ == used0 + ports@);
                    lemma_sequential_split(i as nat, 1, start, used0, reserved@);
                    assert(sequential_ports(0, after(p), before_used.push(p), reserved@) == Some(Seq::<u16>::empty()));
                    assert(sequential_ports(1, before_cursor, before_used, reserved@) == Some(seq![p] + Seq::<u16>::empty()));
                    assert(before_ports + (seq![p] + Seq::<u16>::empty()) == ports@);
                    assert(sequential_ports((i + 1) as nat, start, used0, reserved@) == Some(ports@));
                    assert(cursor == cursor_after(ports@, start));
                    if let Some(rs) = rest_after {
                        assert(rest_before == Some(seq![p] + rs));
                        assert(before_ports + (seq![p] + rs) == ports@ + rs);
                    }
                }
            },
        }
        i = i + 1;
    }
    proof {
        assert(ports@ + Seq::<u16>::empty() == ports@);
    }
    Ok(ports)
}

/// `r` and `new_used` are what assigning `count` ports in `mode` gives from
/// `old_used`: the ports of `spec_assign`, added to the used ports; or its
/// error, with the used ports unchanged, except that sequential assignment
/// that runs out of ports keeps those it took before (`ran_out`).
pub open spec fn assign_outcome(
    count: nat,
    mode: PortAssignMode,
    default_start: u16,
    reserved: Seq<u16>,
    old_used: Seq<u16>,
    new_used: Seq<u16>,
    r: Result<Seq<u16>, PortError>,
) -> bool {
    match spec_assign(count, mode, default_start, old_used, reserved) {
        Ok(ps) => r == Ok::<Seq<u16>, PortError>(ps) && new_used == old_used + ps,
        Err(e) => {
            &&& r == Err::<Seq<u16>, PortError>(e)
            &&& e != PortError::NoFreePort ==> new_used == old_used
            &&& e == PortError::NoFreePort ==> ran_out(
                count,
                sequential_start(mode, default_start),
                old_used,
                reserved,
                new_used,
            )
        },
    }
}

#[verifier::loop_isolation(false)]
/// Assigns `count` local ports in `mode` and adds them to `used`:
/// automatically from `default_start_port`, sequentially from a given port,
/// or exactly the listed ports when each is non-zero, unused and not
/// reserved.
pub fn assign_ports(
    count: usize,
    mode: &PortAssignMode,
    default_start_port: u16,
    used: &mut Vec<u16>,
    reserved: &Vec<u16>,
) -> (r: Result<Vec<u16>, PortError>)
    ensures
        assign_outcome(
            count as nat,
            *mode,
            default_start_port,
            reserved@,
            old(used)@,
            final(used)@,
            match r {
                Ok(v) => Ok(v@),
                Err(e) => Err(e),
            },
        ),
{
    match mode {
        PortAssignMode::Auto => assign_sequential(count, default_start_port, used, reserved),
        PortAssignMode::FromStart { start_port } => {
            if *start_port == 0 {
                return Err(PortError::InvalidStartPort);
            }
            assign_sequential(count, *start_port, used, reserved)
        },
        PortAssignMode::Manual { ports } => {
            if ports.len() != count {
                return Err(PortError::CountMismatch);
            }
            let mut i: usize = 0;
            while i < ports.len()
                invariant
                    i <= ports@.len(),
                    ports@.len() == count,
                    used@ == old(used)@,
                    first_bad_port(ports@, used@, reserved@, 0) == first_bad_port(ports@, used@, reserved@, i as int),
                decreases ports@.len() - i,
            {
                let port = ports[i];
                proof {
                    if port == 0 || !port_available(port, used@, reserved@) {
                        assert(first_bad_port(ports@, used@, reserved@, i as int) == Some(i as int));
                    } else {
                        assert(first_bad_port(ports@, used@, reserved@, i as int) == first_bad_port(ports@, used@, reserved@, i + 1));
                    }
                }
                if port == 0 {
                    return Err(PortError::InvalidPort(port));
                }
                if !is_port_available(port, used, reserved) {
                    return Err(PortError::PortUnavailable(port));
                }
                i = i + 1;
            }
            let mut j: usize = 0;
            let ghost used0 = used@;
            while j < ports.len()
                invariant
                    j <= ports@.len(),
                    used@ == used0 + ports@.take(j as int),
                decreases ports@.len() - j,
            {
                used.push(ports[j]);
                proof {
                    assert(ports@.take(j + 1) == ports@.take(j as int).push(ports@[j as int]));
                }
                j = j + 1;
            }
            proof {
                assert(ports@.take(ports@.len() as int) == ports@);
            }
            Ok(ports.clone())
        },
    }
}

/// Why a batch of new rules got no ports.
#[derive(Debug, Clone, Copy, PartialEq, Eq, Structural)]
pub enum BatchPortError {
    /// The batch has no targets.
    NoTargets,
    /// Assigning the ports failed.
    Port(PortError),
}

impl BatchPortError {
    /// The message shown for the failure.
    pub open spec fn text(self) -> Seq<char> {
        match self {
            BatchPortError::NoTargets => "请至少输入一条转发目标"@,
            BatchPortError::Port(e) => e.text(),
        }
    }

    pub fn message(&self) -> (r: String)
        ensures
            r@ == self.text(),
    {
        match self {
            BatchPortError::NoTargets => "请至少输入一条转发目标".to_owned(),
            BatchPortError::Port(e) => e.message(),
        }
    }
}

/// Ports for a batch of `count` new rules: refused without targets,
/// otherwise assigned as `assign_ports` does.
pub fn assign_batch_ports(
    count: usize,
    mode: &PortAssignMode,
    default_start_port: u16,
    used: &mut Vec<u16>,
    reserved: &Vec<u16>,
) -> (r: Result<Vec<u16>, BatchPortError>)
    ensures
        count == 0 ==> r == Err::<Vec<u16>, BatchPortError>(BatchPortError::NoTargets) && final(used)@
            == old(used)@,
        count > 0 ==> assign_outcome(
            count as nat,
            *mode,
            default_start_port,
            reserved@,
            old(used)@,
            final(used)@,
            match r {
                Ok(v) => Ok(v@),
                Err(BatchPortError::Port(e)) => Err(e),
                Err(BatchPortError::NoTargets) => Err(PortError::CountMismatch),
            },
        ) && !(r matches Err(BatchPortError::NoTargets)),
{
    if count == 0 {
        return Err(BatchPortError::NoTargets);
    }
    match assign_ports(count, mode, default_start_port, used, reserved) {
        Ok(v) => Ok(v),
        Err(e) => Err(BatchPortError::Port(e)),
    }
}

proof fn lemma_next_free(from: int, used: Seq<u16>, reserved: Seq<u16>)
    ensures
        next_free(from, used, reserved) matches Some(p) ==> from <= p && is_free(p as int, used, reserved),
    decreases 65536 - from,
{
    if from <= 65535 && !is_free(from, used, reserved) {
        lemma_next_free(from + 1, used, reserved);
    }
}

proof fn lemma_no_bad_port(ports: Seq<u16>, used: Seq<u16>, reserved: Seq<u16>, from: int)
    requires
        0 <= from,
        first_bad_port(ports, used, reserved, from) is None,
    ensures
        forall|i: int| from <= i < ports.len() ==> #[trigger] ports[i] != 0 && port_available(ports[i], used, reserved),
    decreases ports.len() - from,
{
    if from < ports.len() {
        lemma_no_bad_port(ports, used, reserved, from + 1);
    }
}

/// Ports taken one after another are non-zero, unused, not reserved, at or
/// above the cursor, and strictly increasing (so no two are the same).
pub proof fn law_sequential_ports_fresh(count: nat, cursor: u16, used: Seq<u16>, reserved: Seq<u16>)
    ensures
        sequential_ports(count, cursor, used, reserved) matches Some(ps) ==> {
            &&& ps.len() == count
            &&& forall|i: int| 0 <= i < ps.len() ==> #[trigger] ps[i] != 0 && !used.contains(ps[i]) && !reserved.contains(ps[i]) && ps[i] >= cursor
            &&& forall|i: int, j: int| 0 <= i < j < ps.len() ==> #[trigger] ps[i] < #[trigger] ps[j]
        },
    decreases count,
{
    if count > 0 {
        lemma_next_free(cursor as int, used, reserved);
        if let Some(p) = next_free(cursor as int, used, reserved) {
            let used2 = used.push(p);
            law_sequential_ports_fresh((count - 1) as nat, after(p), used2, reserved);
            if let Some(rest) = sequential_ports((count - 1) as nat, after(p), used2, reserved) {
                let ps = seq![p] + rest;
                assert forall|i: int| 0 <= i < ps.len() implies #[trigger] ps[i] != 0 && !used.contains(ps[i]) && !reserved.contains(ps[i]) && ps[i] >= cursor by {
                    if i > 0 {
                        assert(ps[i] == rest[i - 1]);
                        assert(!used2.contains(rest[i - 1]));
                        if used.contains(rest[i - 1]) {
                            let k = choose|k: int| 0 <= k < used.len() && used[k] == rest[i - 1];
                            assert(used2[k] == used[k]);
                        }
                        assert(used2[used.len() as int] == p);
                    }
                }
                assert forall|i: int, j: int| 0 <= i < j < ps.len() implies #[trigger] ps[i] < #[trigger] ps[j] by {
                    assert(ps[j] == rest[j - 1]);
                    assert(used2[used.len() as int] == p);
                    assert(rest[j - 1] != p);
                    if i > 0 {
                        assert(ps[i] == rest[i - 1]);
                    }
                }
            }
        }
    }
}

/// Whatever the mode, assigned ports are non-zero, not in use before and not
/// reserved; automatic and sequential assignment never repeat a port.
pub proof fn law_assigned_ports_free(
    count: nat,
    mode: PortAssignMode,
    default_start: u16,
    used: Seq<u16>,
    reserved: Seq<u16>,
)
    ensures
        spec_assign(count, mode, default_start, used, reserved) matches Ok(ps) ==> {
            &&& ps.len() == count
            &&& forall|i: int| 0 <= i < ps.len() ==> #[trigger] ps[i] != 0 && !used.contains(ps[i]) && !reserved.contains(ps[i])
            &&& !(mode is Manual) ==> forall|i: int, j: int| 0 <= i < j < ps.len() ==> #[trigger] ps[i] != #[trigger] ps[j]
        },
{
    match mode {
        PortAssignMode::Auto => {
            law_sequential_ports_fresh(count, default_start, used, reserved);
        },
        PortAssignMode::FromStart { start_port } => {
            law_sequential_ports_fresh(count, start_port, used, reserved);
        },
        PortAssignMode::Manual { ports } => {
            if ports@.len() == count && first_bad_port(ports@, used, reserved, 0) is None {
                lemma_no_bad_port(ports@, used, reserved, 0);
            }
        },
    }
}

} // verus!
