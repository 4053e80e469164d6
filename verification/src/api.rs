//! What the HTTP handlers decide before they touch the store: parsing the
//! target list and port mode of an add request, and the response bodies.

use vstd::prelude::*;
use vstd::string::*;

use crate::rule::{ForwardRule, PortAssignMode, QuotaPeriod, RuleParseError, line_is_target};
use crate::text::{
    chars_of, is_blank, lemma_nonblank_concat, lemma_split_lines_concat, nonblank, split_lines,
    str_eq, trim_bounds,
};

verus! {

broadcast use vstd::string::group_string_axioms;

/// Why an add request's target list was refused.
#[derive(Debug, Clone)]
pub enum TargetsError {
    /// A non-blank line is not a valid `host:port`.
    Line(RuleParseError),
    /// No non-blank line.
    NoTargets,
}

impl TargetsError {
    /// The message shown for the refusal.
    pub open spec fn text(self) -> Seq<char> {
        match self {
            TargetsError::Line(e) => e.text(),
            TargetsError::NoTargets => "请至少输入一条转发目标"@,
        }
    }

    pub fn message(&self) -> (r: String)
        ensures
            r@ == self.text(),
    {
        match self {
            TargetsError::Line(e) => e.message(),
            TargetsError::NoTargets => "请至少输入一条转发目标".to_owned(),
        }
    }
}

/// `r` is what parsing the target list `text` gives: one rule per non-blank
/// line, or the error of the first invalid one, or `NoTargets`.
pub open spec fn targets_outcome(text: Seq<char>, r: Result<Vec<ForwardRule>, TargetsError>) -> bool {
    let lines = nonblank(split_lines(text));
    match r {
        Ok(v) => {
            &&& lines.len() > 0
            &&& v@.len() == lines.len()
            &&& forall|i: int| 0 <= i < v@.len() ==> ForwardRule::parse_outcome(#[trigger] lines[i], Ok(v@[i]))
        },
        Err(TargetsError::Line(e)) => exists|i: int|
            0 <= i < lines.len() && (forall|j: int| 0 <= j < i ==> line_is_target(#[trigger] lines[j]))
                && ForwardRule::parse_outcome(#[trigger] lines[i], Err(e)),
        Err(TargetsError::NoTargets) => lines.len() == 0,
    }
}

fn parse_line(text: &str, chars: &Vec<char>, start: usize, end: usize, rules: &mut Vec<ForwardRule>) -> (r: Result<
    (),
    RuleParseError,
>)
    requires
        chars@ == text@,
        start <= end <= chars.len(),
    ensures
        ({
            let line = chars@.subrange(start as int, end as int);
            match r {
                Ok(()) => if is_blank(line) {
                    final(rules)@ == old(rules)@
                } else {
                    &&& final(rules)@.len() == old(rules)@.len() + 1
                    &&& final(rules)@.drop_last() == old(rules)@
                    &&& ForwardRule::parse_outcome(line, Ok(final(rules)@.last()))
                },
                Err(e) => {
                    &&& !is_blank(line)
                    &&& ForwardRule::parse_outcome(line, Err(e))
                    &&& final(rules)@ == old(rules)@
                },
            }
        }),
{
    let mut seg: Vec<char> = Vec::new();
    let mut k: usize = start;
    while k < end
        invariant
            start <= k <= end <= chars.len(),
            seg@ == chars@.subrange(start as int, k as int),
        decreases end - k,
    {
        seg.push(chars[k]);
        k = k + 1;
    }
    let (lo, hi) = trim_bounds(&seg);
    if lo == hi {
        return Ok(());
    }
    let line = text.substring_char(start, end);
    match ForwardRule::parse(line) {
        Ok(rule) => {
            rules.push(rule);
            Ok(())
        },
        Err(e) => Err(e),
    }
}

/// Parses an add request's target list: one `host:port` per line, blank
/// lines skipped.
pub fn parse_targets(text: &str) -> (r: Result<Vec<ForwardRule>, TargetsError>)
    ensures
        targets_outcome(text@, r),
{
    let chars = chars_of(text);
    let n = chars.len();
    let mut rules: Vec<ForwardRule> = Vec::new();
    let mut start: usize = 0;
    let mut i: usize = 0;
    let ghost mut done: Seq<Seq<char>> = Seq::empty();
    proof {
        assert(chars@.take(0) == Seq::<char>::empty());
        assert(chars@.subrange(0, 0) == Seq::<char>::empty());
    }
    while i < n
        invariant
            chars@ == text@,
            n == chars.len(),
            start <= i <= n,
            split_lines(chars@.take(i as int)) == done.push(chars@.subrange(start as int, i as int)),
            rules@.len() == nonblank(done).len(),
            forall|k: int| 0 <= k < rules@.len() ==> ForwardRule::parse_outcome(#[trigger] nonblank(done)[k], Ok(rules@[k])),
        decreases n - i,
    {
        let ghost prefix = chars@.take(i as int);
        let ghost cur = chars@.subrange(start as int, i as int);
        proof {
            assert(chars@.take(i + 1).drop_last() == prefix);
            assert(chars@.take(i + 1).last() == chars@[i as int]);
        }
        if chars[i] == '\n' {
            let ghost before = rules@;
            match parse_line(text, &chars, start, i, &mut rules) {
                Err(e) => {
                    proof {
                        let rest = chars@.skip(i + 1);
                        assert(prefix + seq!['\n'] + rest == chars@);
                        lemma_split_lines_concat(prefix, rest);
                        let lines = split_lines(chars@);
                        assert(lines == done.push(cur) + split_lines(rest));
                        assert(done.push(cur) == done + seq![cur]);
                        lemma_nonblank_concat(done, seq![cur]);
                        lemma_nonblank_concat(done + seq![cur], split_lines(rest));
                        assert(seq![cur].drop_last() == Seq::<Seq<char>>::empty());
                        assert(seq![cur].last() == cur);
                        assert(Seq::<Seq<char>>::empty().push(cur) == seq![cur]);
                        assert(!is_blank(cur));
                        assert(nonblank(Seq::<Seq<char>>::empty()) == Seq::<Seq<char>>::empty());
                        assert(nonblank(seq![cur]) == seq![cur]);
                        let nb = nonblank(lines);
                        let i0 = nonblank(done).len() as int;
                        assert(nb[i0] == cur);
                        assert forall|j: int| 0 <= j < i0 implies line_is_target(#[trigger] nb[j]) by {
                            assert(nb[j] == nonblank(done)[j]);
                            assert(ForwardRule::parse_outcome(nonblank(done)[j], Ok(before[j])));
                        }
                    }
                    return Err(TargetsError::Line(e));
                },
                Ok(()) => {
                    proof {
                        assert(chars@.subrange(i + 1, i + 1) == Seq::<char>::empty());
                        let nd = done.push(cur);
                        assert(nd.drop_last() == done);
                        if !is_blank(cur) {
                            assert forall|k: int| 0 <= k < rules@.len() implies ForwardRule::parse_outcome(#[trigger] nonblank(nd)[k], Ok(rules@[k])) by {
                                if k < before.len() {
                                    assert(rules@[k] == before[k]);
                                }
                            }
                        }
                        done = nd;
                    }
                    start = i + 1;
                },
            }
        } else {
            proof {
                assert(chars@.subrange(start as int, i + 1) == cur.push(chars@[i as int]));
                assert(done.push(cur).update(done.len() as int, cur.push(chars@[i as int])) == done.push(cur.push(chars@[i as int])));
            }
        }
        i = i + 1;
    }
    let ghost cur = chars@.subrange(start as int, n as int);
    let ghost before = rules@;
    proof {
        assert(chars@.take(n as int) == chars@);
    }
    match parse_line(text, &chars, start, n, &mut rules) {
        Err(e) => {
            proof {
                let lines = split_lines(chars@);
                let nd = done.push(cur);
                assert(nd.drop_last() == done);
                let nb = nonblank(lines);
                let i0 = nonblank(done).len() as int;
                assert(nb == nonblank(done).push(cur));
                assert(nb[i0] == cur);
                assert forall|j: int| 0 <= j < i0 implies line_is_target(#[trigger] nb[j]) by {
                    assert(nb[j] == nonblank(done)[j]);
                    assert(ForwardRule::parse_outcome(nonblank(done)[j], Ok(before[j])));
                }
            }
            Err(TargetsError::Line(e))
        },
        Ok(()) => {
            proof {
                let nd = done.push(cur);
                assert(nd.drop_last() == done);
                if !is_blank(cur) {
                    assert forall|k: int| 0 <= k < rules@.len() implies ForwardRule::parse_outcome(#[trigger] nonblank(nd)[k], Ok(rules@[k])) by {
                        if k < before.len() {
                            assert(rules@[k] == before[k]);
                        }
                    }
                }
            }
            if rules.len() == 0 {
                Err(TargetsError::NoTargets)
            } else {
                Ok(rules)
            }
        },
    }
}

/// Why an add request's port mode was refused.
#[derive(Debug, Clone, Copy, PartialEq, Eq, Structural)]
pub enum PortModeError {
    /// `specific` without a start port.
    MissingStartPort,
    /// `manual` without a port list.
    MissingPorts,
    /// A mode other than `auto`, `specific` and `manual`.
    UnknownMode,
}

impl PortModeError {
    /// The message shown for the refusal.
    pub open spec fn text(self) -> Seq<char> {
        match self {
            PortModeError::MissingStartPort => "请指定起始端口"@,
            PortModeError::MissingPorts => "请指定端口列表"@,
            PortModeError::UnknownMode => "无效的端口分配模式"@,
        }
    }

    pub fn message(&self) -> (r: String)
        ensures
            r@ == self.text(),
    {
        match self {
            PortModeError::MissingStartPort => "请指定起始端口".to_owned(),
            PortModeError::MissingPorts => "请指定端口列表".to_owned(),
            PortModeError::UnknownMode => "无效的端口分配模式".to_owned(),
        }
    }
}

/// Reads the port mode of an add request: `auto`, `specific` (with a start
/// port) or `manual` (with a port list).
pub fn parse_port_mode(mode: &str, start_port: Option<u16>, ports: &Option<Vec<u16>>) -> (r: Result<
    PortAssignMode,
    PortModeError,
>)
    ensures
        mode@ == "auto"@ ==> r matches Ok(PortAssignMode::Auto),
        mode@ == "specific"@ ==> match start_port {
            Some(p) => r matches Ok(PortAssignMode::FromStart { start_port: sp }) && sp == p,
            None => r == Err::<PortAssignMode, PortModeError>(PortModeError::MissingStartPort),
        },
        mode@ == "manual"@ ==> match ports {
            Some(ps) => r matches Ok(PortAssignMode::Manual { ports: qs }) && qs@ == ps@,
            None => r == Err::<PortAssignMode, PortModeError>(PortModeError::MissingPorts),
        },
        mode@ != "auto"@ && mode@ != "specific"@ && mode@ != "manual"@ ==> r == Err::<
            PortAssignMode,
            PortModeError,
        >(PortModeError::UnknownMode),
{
    proof {
        reveal_strlit("auto");
        reveal_strlit("specific");
        reveal_strlit("manual");
        assert("auto"@.len() != "specific"@.len());
        assert("auto"@.len() != "manual"@.len());
        assert("specific"@.len() != "manual"@.len());
    }
    if str_eq(mode, "auto") {
        Ok(PortAssignMode::Auto)
    } else if str_eq(mode, "specific") {
        match start_port {
            Some(p) => Ok(PortAssignMode::FromStart { start_port: p }),
            None => Err(PortModeError::MissingStartPort),
        }
    } else if str_eq(mode, "manual") {
        match ports {
            Some(ps) => Ok(PortAssignMode::Manual { ports: ps.clone() }),
            None => Err(PortModeError::MissingPorts),
        }
    } else {
        Err(PortModeError::UnknownMode)
    }
}

/// The quota period of an add request: the named one, `Total` when unnamed.
pub fn requested_quota_period(name: Option<&str>) -> (r: QuotaPeriod)
    ensures
        r == match name {
            Some(s) => QuotaPeriod::from_name(s@),
            None => QuotaPeriod::Total,
        },
{
    match name {
        Some(s) => QuotaPeriod::parse(s),
        None => QuotaPeriod::Total,
    }
}

/// HTTP status of a successful request.
pub const STATUS_OK: u16 = 200;

/// HTTP status of a refused request.
pub const STATUS_BAD_REQUEST: u16 = 400;

/// HTTP status of a request that failed inside the server.
pub const STATUS_INTERNAL_ERROR: u16 = 500;

/// The JSON body of every API answer.
#[derive(Debug, Clone)]
pub struct ApiResponse<T> {
    pub success: bool,
    pub message: Option<String>,
    pub data: Option<T>,
}

impl<T> ApiResponse<T> {
    /// A successful answer carrying `data`, with status 200.
    pub fn ok(data: T, message: String) -> (r: (u16, Self))
        ensures
            r.0 == STATUS_OK,
            r.1.success,
            r.1.message == Some(message),
            r.1.data == Some(data),
    {
        (STATUS_OK, ApiResponse { success: true, message: Some(message), data: Some(data) })
    }

    /// A refusal with `message` and no data, with status 400.
    pub fn bad_request(message: String) -> (r: (u16, Self))
        ensures
            r.0 == STATUS_BAD_REQUEST,
            !r.1.success,
            r.1.message == Some(message),
            r.1.data is None,
    {
        (STATUS_BAD_REQUEST, ApiResponse { success: false, message: Some(message), data: None })
    }

    /// A failure inside the server with `message`, with status 500.
    pub fn internal_error(message: String) -> (r: (u16, Self))
        ensures
            r.0 == STATUS_INTERNAL_ERROR,
            !r.1.success,
            r.1.message == Some(message),
            r.1.data is None,
    {
        (STATUS_INTERNAL_ERROR, ApiResponse { success: false, message: Some(message), data: None })
    }
}

/// Ports to delete in one request.
#[derive(Debug, Clone)]
pub struct BatchDeleteRequest {
    pub ports: Vec<u16>,
}

/// Outcome of a batch delete.
#[derive(Debug, Clone)]
pub struct BatchDeleteResponse {
    pub deleted: Vec<u16>,
    pub failed: Vec<u16>,
}

impl BatchDeleteResponse {
    /// A batch delete succeeds when no port failed.
    pub fn all_deleted(&self) -> (r: bool)
        ensures
            r == (self.failed@.len() == 0),
    {
        self.failed.len() == 0
    }
}

} // verus!
