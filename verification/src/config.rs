//! What the panel makes of its environment settings: trimmed optional
//! values, numbers with defaults, and credentials and secrets generated
//! when none are set.

use vstd::prelude::*;
use vstd::string::*;

use crate::text::{
    chars_of, parse_i64, parse_u16, spec_parse_i64, spec_parse_u16, split_on, string_from_chars, trim,
    trim_bounds,
};

verus! {

broadcast use vstd::string::group_string_axioms;

/// Default port of the management panel.
pub const DEFAULT_PANEL_PORT: u16 = 888;

/// Default first port of automatic assignment.
pub const DEFAULT_START_PORT: u16 = 1000;

/// Default lifetime of a login token, in hours.
pub const DEFAULT_JWT_EXPIRE_HOURS: i64 = 5;

/// Length of a generated user name.
pub const GENERATED_USERNAME_LEN: usize = 8;

/// Length of a generated password.
pub const GENERATED_PASSWORD_LEN: usize = 16;

/// The trimmed value of a setting, when it is set and not blank.
pub open spec fn spec_setting(value: Option<Seq<char>>) -> Option<Seq<char>> {
    match value {
        Some(v) => if trim(v).len() > 0 {
            Some(trim(v))
        } else {
            None
        },
        None => None,
    }
}

/// The trimmed value of a setting, when it is set and not blank.
pub fn nonblank_setting(value: Option<&str>) -> (r: Option<String>)
    ensures
        match r {
            Some(s) => spec_setting(match value {
                Some(v) => Some(v@),
                None => None,
            }) == Some(s@),
            None => spec_setting(match value {
                Some(v) => Some(v@),
                None => None,
            }) is None,
        },
{
    match value {
        None => None,
        Some(v) => {
            let chars = chars_of(v);
            let (lo, hi) = trim_bounds(&chars);
            if lo == hi {
                None
            } else {
                Some(v.substring_char(lo, hi).to_owned())
            }
        },
    }
}

/// A 16-bit setting: its value when it reads as a `u16`, else `default`.
/// The value is not trimmed.
pub fn setting_u16(value: Option<&str>, default: u16) -> (r: u16)
    ensures
        r == match value {
            Some(v) => match spec_parse_u16(v@) {
                Some(n) => n,
                None => default,
            },
            None => default,
        },
{
    match value {
        None => default,
        Some(v) => match parse_u16(&chars_of(v)) {
            Some(n) => n,
            None => default,
        },
    }
}

/// A signed 64-bit setting: its value when it reads as an `i64`, else
/// `default`. The value is not trimmed.
pub fn setting_i64(value: Option<&str>, default: i64) -> (r: i64)
    ensures
        r == match value {
            Some(v) => match spec_parse_i64(v@) {
                Some(n) => n,
                None => default,
            },
            None => default,
        },
{
    match value {
        None => default,
        Some(v) => match parse_i64(&chars_of(v)) {
            Some(n) => n,
            None => default,
        },
    }
}

/// Ports never assigned automatically when `RESERVED_PORTS` is not set.
pub open spec fn default_reserved_ports() -> Seq<u16> {
    seq![22u16, 80u16, 443u16, 888u16]
}

/// The ports named in comma-separated `pieces`, each trimmed; pieces that
/// are not port numbers are skipped.
pub open spec fn ports_of_pieces(pieces: Seq<Seq<char>>) -> Seq<u16>
    decreases pieces.len(),
{
    if pieces.len() == 0 {
        Seq::empty()
    } else {
        let rest = ports_of_pieces(pieces.drop_last());
        match spec_parse_u16(trim(pieces.last())) {
            Some(p) => rest.push(p),
            None => rest,
        }
    }
}

fn parse_trimmed_u16(chars: &Vec<char>, start: usize, end: usize) -> (r: Option<u16>)
    requires
        start <= end <= chars.len(),
    ensures
        r == spec_parse_u16(trim(chars@.subrange(start as int, end as int))),
{
    let mut seg: Vec<char> = Vec::new();
    let mut k: usize = start;
    while k < end
        invariant
            start <= k <= end <= chars.len(),
            seg@ == chars@.subrange(start as int, k as int),
        decreases end - k,
    {
        seg.push(chars[k]);
        k = k + 1;
    }
    let (lo, hi) = trim_bounds(&seg);
    let mut t: Vec<char> = Vec::new();
    let mut j: usize = lo;
    while j < hi
        invariant
            lo <= j <= hi <= seg.len(),
            t@ == seg@.subrange(lo as int, j as int),
        decreases hi - j,
    {
        t.push(seg[j]);
        j = j + 1;
    }
    parse_u16(&t)
}

/// The reserved ports: those listed (comma-separated) in the setting, or
/// 22, 80, 443 and 888 when it is not set.
pub fn parse_reserved_ports(value: Option<&str>) -> (r: Vec<u16>)
    ensures
        r@ == match value {
            Some(v) => ports_of_pieces(split_on(v@, ',')),
            None => default_reserved_ports(),
        },
{
    let v = match value {
        None => {
            let r: Vec<u16> = vec![22, 80, 443, 888];
            assert(r@ == default_reserved_ports());
            return r;
        },
        Some(v) => v,
    };
    let chars = chars_of(v);
    let n = chars.len();
    let mut out: Vec<u16> = Vec::new();
    let mut start: usize = 0;
    let mut i: usize = 0;
    let ghost mut done: Seq<Seq<char>> = Seq::empty();
    proof {
        assert(chars@.take(0) == Seq::<char>::empty());
        assert(chars@.subrange(0, 0) == Seq::<char>::empty());
    }
    while i < n
        invariant
            chars@ == v@,
            n == chars.len(),
            start <= i <= n,
            split_on(chars@.take(i as int), ',') == done.push(chars@.subrange(start as int, i as int)),
            out@ == ports_of_pieces(done),
        decreases n - i,
    {
        let ghost cur = chars@.subrange(start as int, i as int);
        proof {
            assert(chars@.take(i + 1).drop_last() == chars@.take(i as int));
            assert(chars@.take(i + 1).last() == chars@[i as int]);
        }
        if chars[i] == ',' {
            let p = parse_trimmed_u16(&chars, start, i);
            if let Some(port) = p {
                out.push(port);
            }
            proof {
                let nd = done.push(cur);
                assert(nd.drop_last() == done);
                assert(nd.last() == cur);
                assert(chars@.subrange(i + 1, i + 1) == Seq::<char>::empty());
                done = nd;
            }
            start = i + 1;
        } else {
            proof {
                assert(chars@.subrange(start as int, i + 1) == cur.push(chars@[i as int]));
                assert(done.push(cur).update(done.len() as int, cur.push(chars@[i as int])) == done.push(
                    cur.push(chars@[i as int]),
                ));
            }
        }
        i = i + 1;
    }
    let ghost cur = chars@.subrange(start as int, n as int);
    proof {
        assert(chars@.take(n as int) == chars@);
        let nd = done.push(cur);
        assert(nd.drop_last() == done);
        assert(nd.last() == cur);
    }
    let p = parse_trimmed_u16(&chars, start, n);
    if let Some(port) = p {
        out.push(port);
    }
    out
}

/// The 36 characters generated names are made of.
pub open spec fn charset() -> Seq<char> {
    "abcdefghijklmnopqrstuvwxyz0123456789"@
}

pub open spec fn is_lower_alnum(c: char) -> bool {
    ('a' <= c && c <= 'z') || ('0' <= c && c <= '9')
}

/// The character that random byte `b` stands for.
pub open spec fn charset_char(b: u8) -> char {
    let i = b % 36;
    if i < 26 {
        (i + 'a' as nat) as char
    } else {
        (i - 26 + '0' as nat) as char
    }
}

fn charset_char_exec(b: u8) -> (c: char)
    ensures
        c == charset_char(b),
        is_lower_alnum(c),
{
    let i = b % 36;
    if i < 26 {
        (i + 97u8) as char
    } else {
        (i - 26 + 48u8) as char
    }
}

/// Calls uuid: `Uuid::new_v4().into_bytes()`, 16 bytes from the operating
/// system's random number generator. Nothing is claimed of the bytes. It
/// panics when the generator fails (uuid's `new_v4` does), which this
/// contract cannot exclude.
#[verifier::external_body]
fn random_uuid_bytes() -> (r: [u8; 16]) {
    uuid::Uuid::new_v4().into_bytes()
}

pub open spec fn is_lower_hex(c: char) -> bool {
    ('0' <= c && c <= '9') || ('a' <= c && c <= 'f')
}

/// `s` is a random (version 4) UUID in hyphenated lower-case form:
/// 36 characters, hyphens at 8, 13, 18 and 23, lower-case hex digits
/// elsewhere, version digit `4` at 14 and variant digit `8`, `9`, `a` or
/// `b` at 19.
pub open spec fn is_uuid_v4_text(s: Seq<char>) -> bool {
    &&& s.len() == 36
    &&& forall|i: int|
        0 <= i < 36 ==> if i == 8 || i == 13 || i == 18 || i == 23 {
            #[trigger] s[i] == '-'
        } else {
            is_lower_hex(s[i])
        }
    &&& s[14] == '4'
    &&& s[19] == '8' || s[19] == '9' || s[19] == 'a' || s[19] == 'b'
}

/// Calls uuid: `Uuid::new_v4().to_string()`. Claimed: the text of a
/// version 4 UUID in the hyphenated lower-case form (`new_v4` sets the
/// version and variant bits of random bytes; `Display` writes the
/// hyphenated lower-case hex). Which UUID comes out is random and not
/// claimed. It panics when the random number generator fails, which this
/// contract cannot exclude.
#[verifier::external_body]
fn random_uuid_string() -> (r: String)
    ensures
        is_uuid_v4_text(r@),
{
    uuid::Uuid::new_v4().to_string()
}

/// The characters that the first `len` bytes stand for: byte `b` gives
/// `charset()[b % 36]`.
pub fn alphanumeric_from_bytes(bytes: &[u8], len: usize) -> (r: String)
    requires
        len <= bytes@.len(),
    ensures
        r@ == Seq::new(len as nat, |i: int| charset_char(bytes@[i])),
{
    let mut out: Vec<char> = Vec::with_capacity(len);
    let mut i: usize = 0;
    while i < len
        invariant
            i <= len <= bytes@.len(),
            out@ == Seq::new(i as nat, |j: int| charset_char(bytes@[j])),
        decreases len - i,
    {
        out.push(charset_char_exec(bytes[i]));
        i = i + 1;
        assert(out@ =~= Seq::new(i as nat, |j: int| charset_char(bytes@[j])));
    }
    string_from_chars(out.as_slice())
}

/// `len` random characters, each a lower-case ASCII letter or digit: random
/// UUID bytes are drawn, 16 at a time, until there are `len`, and handed to
/// `alphanumeric_from_bytes`.
pub fn random_alphanumeric(len: usize) -> (r: String)
    ensures
        r@.len() == len,
        forall|i: int| 0 <= i < len ==> is_lower_alnum(#[trigger] r@[i]),
        exists|bytes: Seq<u8>|
            bytes.len() == len && r@ == Seq::new(len as nat, |i: int| charset_char(bytes[i])),
{
    let mut bytes: Vec<u8> = Vec::new();
    while bytes.len() < len
        invariant
            bytes@.len() <= len,
        decreases len - bytes@.len(),
    {
        let drawn = random_uuid_bytes();
        let ghost start_len = bytes@.len();
        let mut k: usize = 0;
        while k < 16 && bytes.len() < len
            invariant
                k <= 16,
                start_len < len,
                k == 0 ==> bytes@.len() == start_len,
                k > 0 ==> bytes@.len() > start_len,
                bytes@.len() <= len,
            decreases 16 - k,
        {
            bytes.push(drawn[k]);
            k = k + 1;
        }
    }
    let r = alphanumeric_from_bytes(bytes.as_slice(), len);
    proof {
        assert forall|i: int| 0 <= i < len implies is_lower_alnum(#[trigger] r@[i]) by {
            law_charset_char_in_charset(bytes@[i]);
        }
    }
    r
}

/// The secret that signs login tokens: the `JWT_SECRET` setting when set
/// and not blank (trimmed), else a random UUID.
pub fn resolve_jwt_secret(value: Option<&str>) -> (r: String)
    ensures
        match value {
            Some(v) => match spec_setting(Some(v@)) {
                Some(s) => r@ == s,
                None => is_uuid_v4_text(r@),
            },
            None => is_uuid_v4_text(r@),
        },
{
    match nonblank_setting(value) {
        Some(s) => s,
        None => random_uuid_string(),
    }
}

/// Login credentials: the set user name and password when both are set and
/// not blank (trimmed); otherwise a random 8-character user name and a
/// random 16-character password, with `generated` set so that the caller
/// shows them.
pub fn resolve_auth_credentials(user: Option<&str>, password: Option<&str>) -> (r: (String, String, bool))
    ensures
        ({
            let u = spec_setting(match user {
                Some(v) => Some(v@),
                None => None,
            });
            let p = spec_setting(match password {
                Some(v) => Some(v@),
                None => None,
            });
            if u is Some && p is Some {
                r.0@ == u->0 && r.1@ == p->0 && !r.2
            } else {
                &&& r.2
                &&& r.0@.len() == GENERATED_USERNAME_LEN
                &&& r.1@.len() == GENERATED_PASSWORD_LEN
                &&& forall|i: int| 0 <= i < r.0@.len() ==> is_lower_alnum(#[trigger] r.0@[i])
                &&& forall|i: int| 0 <= i < r.1@.len() ==> is_lower_alnum(#[trigger] r.1@[i])
                &&& exists|b: Seq<u8>|
                    b.len() == GENERATED_USERNAME_LEN && r.0@ == Seq::new(
                        GENERATED_USERNAME_LEN as nat,
                        |i: int| charset_char(b[i]),
                    )
                &&& exists|b: Seq<u8>|
                    b.len() == GENERATED_PASSWORD_LEN && r.1@ == Seq::new(
                        GENERATED_PASSWORD_LEN as nat,
                        |i: int| charset_char(b[i]),
                    )
            }
        }),
{
    let u = nonblank_setting(user);
    let p = nonblank_setting(password);
    match (u, p) {
        (Some(u), Some(p)) => (u, p, false),
        _ => {
            let username = random_alphanumeric(GENERATED_USERNAME_LEN);
            let password = random_alphanumeric(GENERATED_PASSWORD_LEN);
            (username, password, true)
        },
    }
}

/// Every generated character is a character of `charset()`.
pub proof fn law_charset_char_in_charset(b: u8)
    ensures
        charset().contains(charset_char(b)),
        charset_char(b) == charset()[(b % 36) as int],
{
    reveal_strlit("abcdefghijklmnopqrstuvwxyz0123456789");
    let i = (b % 36) as int;
    assert(charset()[i] == charset_char(b));
}

} // verus!
