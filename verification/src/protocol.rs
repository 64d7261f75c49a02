//! The engine control channel's version handshake and its typed error codes.

use crate::chunk_manifest::append_str;
use crate::command::{digit_value, digits_from, is_digit, parse_u64_chars, u64_parse};
use crate::text::{
    chars_of, decimal, decimal_text, digit_char, lemma_split_append_plain, lemma_split_append_sep,
    push_char, split_on,
};
use vstd::prelude::*;

verus! {

/// A semantic version triple. A major mismatch refuses the connection.
#[derive(Debug, Clone, Copy, PartialEq, Eq, Structural, PartialOrd, Ord, Hash)]
pub struct ProtocolVersion {
    pub major: u64,
    pub minor: u64,
    pub patch: u64,
}

/// The major number of the engine's protocol version.
pub const PROTOCOL_MAJOR: u64 = 1;

/// The minor number of the engine's protocol version.
pub const PROTOCOL_MINOR: u64 = 0;

/// The patch number of the engine's protocol version.
pub const PROTOCOL_PATCH: u64 = 0;

/// The engine's protocol version.
pub fn protocol_version() -> (v: ProtocolVersion)
    ensures
        v == (ProtocolVersion { major: PROTOCOL_MAJOR, minor: PROTOCOL_MINOR, patch: PROTOCOL_PATCH }),
{
    ProtocolVersion { major: PROTOCOL_MAJOR, minor: PROTOCOL_MINOR, patch: PROTOCOL_PATCH }
}

/// The version a text names: exactly three dot-separated pieces, each a `u64` as
/// `str::parse` reads it.
pub open spec fn version_of(s: Seq<char>) -> Option<ProtocolVersion> {
    let p = split_on(s, '.');
    if p.len() == 3 && u64_parse(p[0]) is Ok && u64_parse(p[1]) is Ok && u64_parse(p[2]) is Ok {
        Some(
            ProtocolVersion {
                major: u64_parse(p[0])->Ok_0,
                minor: u64_parse(p[1])->Ok_0,
                patch: u64_parse(p[2])->Ok_0,
            },
        )
    } else {
        None
    }
}

/// `major.minor.patch` in shortest decimal.
pub open spec fn version_text(v: ProtocolVersion) -> Seq<char> {
    ((decimal_text(v.major as nat).push('.') + decimal_text(v.minor as nat)).push('.')
        + decimal_text(v.patch as nat))
}

impl ProtocolVersion {
    /// Read `major.minor.patch`; anything else is `None`.
    pub fn parse(text: &str) -> (r: Option<ProtocolVersion>)
        ensures
            r == version_of(text@),
    {
        let cs = chars_of(text);
        let ghost s = cs@;
        let mut count: usize = 0;
        let mut ok = true;
        let mut first: u64 = 0;
        let mut second: u64 = 0;
        let mut cur: Vec<char> = Vec::new();
        let ghost mut done: Seq<Seq<char>> = Seq::empty();
        let mut i: usize = 0;
        proof {
            assert(s.take(0) =~= Seq::<char>::empty());
            assert(done.push(cur@) =~= seq![Seq::<char>::empty()]);
        }
        while i < cs.len()
            invariant
                i <= s.len(),
                cs@ == s,
                s == text@,
                split_on(s.take(i as int), '.') == done.push(cur@),
                count == done.len(),
                count <= i,
                ok == (forall|k: int| 0 <= k < done.len() ==> u64_parse(#[trigger] done[k]) is Ok),
                ok && count > 0 ==> first == u64_parse(done[0])->Ok_0,
                ok && count > 1 ==> second == u64_parse(done[1])->Ok_0,
            decreases s.len() - i,
        {
            let c = cs[i];
            proof {
                assert(s.take(i + 1) =~= s.take(i as int).push(c));
            }
            if c == '.' {
                let ghost old_ok = ok;
                let ghost old_done = done;
                let r = parse_u64_chars(&cur);
                match r {
                    Ok(v) => {
                        if count == 0 {
                            first = v;
                        } else if count == 1 {
                            second = v;
                        }
                    },
                    Err(_) => {
                        ok = false;
                    },
                }
                proof {
                    lemma_split_append_sep(s.take(i as int), '.');
                    done = done.push(cur@);
                    assert forall|k: int| 0 <= k < old_done.len() implies done[k] == old_done[k] by {}
                    if !old_ok {
                        let k = choose|k: int|
                            0 <= k < old_done.len() && !(u64_parse(#[trigger] old_done[k]) is Ok);
                        assert(done[k] == old_done[k]);
                    }
                    if r is Err {
                        assert(done[old_done.len() as int] == cur@);
                    }
                    assert(ok == (forall|k: int|
                        0 <= k < done.len() ==> u64_parse(#[trigger] done[k]) is Ok)) by {
                        if ok {
                            assert forall|k: int| 0 <= k < done.len() implies u64_parse(
                                #[trigger] done[k],
                            ) is Ok by {
                                if k < old_done.len() {
                                    assert(done[k] == old_done[k]);
                                }
                            }
                        }
                    }
                }
                cur = Vec::new();
                count += 1;
                proof {
                    assert(split_on(s.take(i + 1), '.') =~= done.push(cur@));
                }
            } else {
                let ghost old_cur = cur@;
                cur.push(c);
                proof {
                    let old_done = done;
                    assert(s.take(i + 1).drop_last() =~= s.take(i as int));
                    assert(s.take(i + 1).last() == c);
                    assert(split_on(s.take(i + 1), '.') =~= old_done.push(old_cur).update(
                        old_done.len() as int,
                        old_cur.push(c),
                    ));
                    assert(split_on(s.take(i + 1), '.') =~= done.push(cur@));
                }
            }
            i += 1;
        }
        proof {
            assert(s.take(s.len() as int) =~= s);
        }
        let last = parse_u64_chars(&cur);
        if ok && count == 2 {
            match last {
                Ok(third) => {
                    proof {
                        let p = split_on(s, '.');
                        assert(p[0] == done[0] && p[1] == done[1] && p[2] == cur@);
                        assert(u64_parse(done[0]) is Ok && u64_parse(done[1]) is Ok);
                    }
                    Some(ProtocolVersion { major: first, minor: second, patch: third })
                },
                Err(_) => None,
            }
        } else {
            proof {
                let p = split_on(s, '.');
                if ok == false {
                    let k = choose|k: int| 0 <= k < done.len() && !(u64_parse(#[trigger] done[k]) is Ok);
                    assert(p[k] == done[k]);
                }
            }
            None
        }
    }

    /// `major.minor.patch`, as the wire and the logs write it.
    pub fn to_text(&self) -> (s: String)
        ensures
            s@ == version_text(*self),
    {
        let mut s = decimal(self.major);
        push_char(&mut s, '.');
        let minor = decimal(self.minor);
        append_str(&mut s, minor.as_str());
        push_char(&mut s, '.');
        let patch = decimal(self.patch);
        append_str(&mut s, patch.as_str());
        s
    }

    /// Whether a peer speaking `self` may talk to one speaking `other`: the majors agree.
    pub fn compatible_with(&self, other: &ProtocolVersion) -> (r: bool)
        ensures
            r == (self.major == other.major),
    {
        self.major == other.major
    }
}

proof fn lemma_digit_char(d: nat)
    requires
        d < 10,
    ensures
        is_digit(digit_char(d)),
        digit_value(digit_char(d)) == d,
        digit_char(d) != '.',
        digit_char(d) != '+',
{
    assert(((48 + d) as u8) as nat == 48 + d);
}

proof fn lemma_decimal_digits(n: nat)
    ensures
        decimal_text(n).len() >= 1,
        forall|k: int| 0 <= k < decimal_text(n).len() ==> is_digit(#[trigger] decimal_text(n)[k]),
        forall|k: int| 0 <= k < decimal_text(n).len() ==> #[trigger] decimal_text(n)[k] != '.',
        forall|k: int| 0 <= k < decimal_text(n).len() ==> #[trigger] decimal_text(n)[k] != '+',
    decreases n,
{
    if n < 10 {
        lemma_digit_char(n);
    } else {
        lemma_decimal_digits(n / 10);
        lemma_digit_char(n % 10);
        let t = decimal_text(n);
        let h = decimal_text(n / 10);
        assert forall|k: int| 0 <= k < t.len() implies is_digit(#[trigger] t[k]) && t[k] != '.'
            && t[k] != '+' by {
            if k < h.len() {
                assert(t[k] == h[k]);
            }
        }
    }
}

proof fn lemma_digits_push(s: Seq<char>, c: char, i: int, acc: nat, m: u64)
    requires
        0 <= i <= s.len(),
        forall|k: int| i <= k < s.len() ==> is_digit(#[trigger] s[k]),
        is_digit(c),
        digits_from(s, i, acc) == Ok::<u64, crate::command::IntError>(m),
        m * 10 + digit_value(c) <= u64::MAX,
    ensures
        digits_from(s.push(c), i, acc) == Ok::<u64, crate::command::IntError>(
            (m * 10 + digit_value(c)) as u64,
        ),
    decreases s.len() - i,
{
    let t = s.push(c);
    if i == s.len() {
        assert(t[i] == c);
        assert(digits_from(t, i + 1, acc * 10 + digit_value(c)) == Ok::<
            u64,
            crate::command::IntError,
        >((acc * 10 + digit_value(c)) as u64));
    } else {
        assert(t[i] == s[i]);
        assert(is_digit(s[i]));
        lemma_digits_push(s, c, i + 1, acc * 10 + digit_value(s[i]), m);
    }
}

proof fn lemma_decimal_parses(n: nat)
    requires
        n <= u64::MAX,
    ensures
        digits_from(decimal_text(n), 0, 0) == Ok::<u64, crate::command::IntError>(n as u64),
        u64_parse(decimal_text(n)) == Ok::<u64, crate::command::IntError>(n as u64),
    decreases n,
{
    lemma_decimal_digits(n);
    if n < 10 {
        lemma_digit_char(n);
        let t = decimal_text(n);
        assert(digits_from(t, 1, n) == Ok::<u64, crate::command::IntError>(n as u64));
    } else {
        lemma_decimal_parses(n / 10);
        lemma_decimal_digits(n / 10);
        lemma_digit_char(n % 10);
        lemma_digits_push(decimal_text(n / 10), digit_char(n % 10), 0, 0, (n / 10) as u64);
    }
    assert(decimal_text(n)[0] != '+');
}

/// Writing a version and reading the text back gives the same version.
pub proof fn law_version_text_parses_back(v: ProtocolVersion)
    ensures
        version_of(version_text(v)) == Some(v),
{
    let a = decimal_text(v.major as nat);
    let b = decimal_text(v.minor as nat);
    let c = decimal_text(v.patch as nat);
    lemma_decimal_digits(v.major as nat);
    lemma_decimal_digits(v.minor as nat);
    lemma_decimal_digits(v.patch as nat);
    lemma_decimal_parses(v.major as nat);
    lemma_decimal_parses(v.minor as nat);
    lemma_decimal_parses(v.patch as nat);
    let e = Seq::<char>::empty();
    assert(!a.contains('.'));
    assert(!b.contains('.'));
    assert(!c.contains('.'));
    lemma_split_append_plain(e, a, '.');
    assert(e + a =~= a);
    assert(split_on(e, '.') =~= seq![e]);
    assert(split_on(a, '.') =~= seq![a]);
    lemma_split_append_sep(a, '.');
    lemma_split_append_plain(a.push('.'), b, '.');
    assert(split_on(a.push('.') + b, '.') =~= seq![a, b]);
    lemma_split_append_sep(a.push('.') + b, '.');
    lemma_split_append_plain((a.push('.') + b).push('.'), c, '.');
    assert(split_on(version_text(v), '.') =~= seq![a, b, c]);
}

/// The three capabilities a client may declare in its hello.
#[derive(Debug, Clone, Copy, PartialEq, Eq, Structural, PartialOrd, Ord, Hash)]
pub enum Capability {
    Indicator,
    Cancel,
    Notify,
}

/// `engine.hello` params.
#[derive(Debug, Clone, PartialEq, Eq)]
pub struct Hello {
    pub client_protocol: ProtocolVersion,
    pub client_capabilities: Vec<Capability>,
}

/// Typed error codes. Application codes sit in the JSON-RPC server-error range.
#[derive(Debug, Clone, Copy, PartialEq, Eq, Structural, Hash)]
pub enum ErrorCode {
    ParseError,
    InvalidRequest,
    MethodNotFound,
    InvalidParams,
    ProtocolMismatch,
    ClientTooSlow,
    Unauthorized,
    NotHandshaken,
    Rejected,
    /// The method is in the closed set but this build does not perform it yet; never a silent
    /// success.
    NotImplemented,
}

/// The wire number of each code.
pub open spec fn code_of(e: ErrorCode) -> i64 {
    match e {
        ErrorCode::ParseError => -32700i64,
        ErrorCode::InvalidRequest => -32600i64,
        ErrorCode::MethodNotFound => -32601i64,
        ErrorCode::InvalidParams => -32602i64,
        ErrorCode::ProtocolMismatch => -32001i64,
        ErrorCode::ClientTooSlow => -32002i64,
        ErrorCode::Unauthorized => -32003i64,
        ErrorCode::NotHandshaken => -32004i64,
        ErrorCode::Rejected => -32005i64,
        ErrorCode::NotImplemented => -32006i64,
    }
}

impl ErrorCode {
    /// The code's wire number.
    pub fn code(self) -> (c: i64)
        ensures
            c == code_of(self),
    {
        match self {
            ErrorCode::ParseError => -32700,
            ErrorCode::InvalidRequest => -32600,
            ErrorCode::MethodNotFound => -32601,
            ErrorCode::InvalidParams => -32602,
            ErrorCode::ProtocolMismatch => -32001,
            ErrorCode::ClientTooSlow => -32002,
            ErrorCode::Unauthorized => -32003,
            ErrorCode::NotHandshaken => -32004,
            ErrorCode::Rejected => -32005,
            ErrorCode::NotImplemented => -32006,
        }
    }

    /// The code a wire number names, if any.
    pub fn from_code(code: i64) -> (r: Option<ErrorCode>)
        ensures
            match r {
                Some(e) => code_of(e) == code,
                None => forall|e: ErrorCode| code_of(e) != code,
            },
    {
        if code == -32700 {
            Some(ErrorCode::ParseError)
        } else if code == -32600 {
            Some(ErrorCode::InvalidRequest)
        } else if code == -32601 {
            Some(ErrorCode::MethodNotFound)
        } else if code == -32602 {
            Some(ErrorCode::InvalidParams)
        } else if code == -32001 {
            Some(ErrorCode::ProtocolMismatch)
        } else if code == -32002 {
            Some(ErrorCode::ClientTooSlow)
        } else if code == -32003 {
            Some(ErrorCode::Unauthorized)
        } else if code == -32004 {
            Some(ErrorCode::NotHandshaken)
        } else if code == -32005 {
            Some(ErrorCode::Rejected)
        } else if code == -32006 {
            Some(ErrorCode::NotImplemented)
        } else {
            None
        }
    }
}

/// Distinct codes have distinct wire numbers, so a number read back names the code written.
pub proof fn law_error_code_roundtrip(e: ErrorCode, f: ErrorCode)
    ensures
        code_of(e) == code_of(f) ==> e == f,
{
}

/// The literal `"2.0"` of every JSON-RPC frame.
#[derive(Debug, Clone, Copy, PartialEq, Eq, Structural, Default)]
pub struct Version;

} // verus!
