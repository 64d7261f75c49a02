//! The extension channel's endpoint descriptor, per-start token and request authentication.

use crate::chunk_manifest::append_str;
use crate::export_identity::hex_lower;
use crate::ids::hex_char;
use crate::text::{chars_of, push_char, same_text};
use vstd::prelude::*;

verus! {

/// Thirty-two random bytes, as `rand::random` gives them.
#[verifier::external_body]
fn random_bytes() -> (b: [u8; 32]) {
    rand::random()
}

/// A 256-bit token minted at every engine start. Deliberately not `Clone`: one copy per engine.
pub struct Token([u8; 32]);

impl View for Token {
    type V = Seq<u8>;

    closed spec fn view(&self) -> Seq<u8> {
        self.0@
    }
}

fn hex_digit(d: u8) -> (c: char)
    requires
        d < 16,
    ensures
        c == hex_char(d as nat),
{
    if d < 10 {
        (48 + d) as char
    } else {
        (87 + d) as char
    }
}

impl Token {
    /// A fresh random token. Nothing is promised of its bytes.
    pub fn generate() -> (t: Token)
        ensures
            t@.len() == 32,
    {
        Token(random_bytes())
    }

    /// A token with the given bytes.
    pub fn from_bytes(bytes: [u8; 32]) -> (t: Token)
        ensures
            t@ == bytes@,
    {
        Token(bytes)
    }

    /// Lowercase hex, the form carried in the descriptor and in the request header.
    pub fn to_hex(&self) -> (s: String)
        ensures
            s@ == hex_lower(self@),
    {
        let mut s = String::new();
        let mut i: usize = 0;
        while i < 32
            invariant
                i <= 32,
                self@.len() == 32,
                s@ == hex_lower(self@.take(i as int)),
            decreases 32 - i,
        {
            let b = self.0[i];
            push_char(&mut s, hex_digit(b / 16));
            push_char(&mut s, hex_digit(b % 16));
            proof {
                assert(self@.take(i + 1).drop_last() =~= self@.take(i as int));
                assert(self@.take(i + 1).last() == b);
            }
            i += 1;
        }
        proof {
            assert(self@.take(32) =~= self@);
        }
        s
    }

    /// Whether the presented text is the token's hex form, compared without an early exit.
    fn matches(&self, presented: &str) -> (r: bool)
        ensures
            r == (presented@ == hex_lower(self@)),
    {
        let expected = self.to_hex();
        let a = chars_of(expected.as_str());
        let b = chars_of(presented);
        if a.len() != b.len() {
            return false;
        }
        let mut acc: u32 = 0;
        let mut i: usize = 0;
        while i < a.len()
            invariant
                i <= a@.len(),
                a@.len() == b@.len(),
                a@ == expected@,
                b@ == presented@,
                (acc == 0) == (forall|k: int| 0 <= k < i ==> a@[k] == b@[k]),
            decreases a@.len() - i,
        {
            let x: u32 = a[i] as u32;
            let y: u32 = b[i] as u32;
            let d: u32 = x ^ y;
            let next: u32 = acc | d;
            proof {
                assert((d == 0) == (x == y)) by (bit_vector)
                    requires
                        d == x ^ y,
                ;
                assert((next == 0) == (acc == 0 && d == 0)) by (bit_vector)
                    requires
                        next == acc | d,
                ;
                vstd::utf8::char_u32_cast(a@[i as int], x);
                vstd::utf8::char_u32_cast(b@[i as int], y);
                assert((x == y) == (a@[i as int] == b@[i as int]));
            }
            acc = next;
            i += 1;
        }
        proof {
            if acc == 0 {
                assert(a@ =~= b@);
            }
        }
        acc == 0
    }
}

/// Where the extension finds the engine: the loopback port and the token.
#[derive(Debug, Clone, PartialEq, Eq)]
pub struct EndpointDescriptor {
    pub port: u16,
    pub token: String,
}

/// `Path::join` of a relative component: a separator goes between unless the base is empty or
/// already ends in one.
pub open spec fn path_join(base: Seq<char>, component: Seq<char>) -> Seq<char> {
    if base.len() == 0 || base.last() == '/' {
        base + component
    } else {
        base.push('/') + component
    }
}

fn join(base: &str, component: &str) -> (r: String)
    ensures
        r@ == path_join(base@, component@),
{
    let cs = chars_of(base);
    let mut r = String::new();
    append_str(&mut r, base);
    if !(cs.len() == 0 || cs[cs.len() - 1] == '/') {
        push_char(&mut r, '/');
    }
    append_str(&mut r, component);
    r
}

impl EndpointDescriptor {
    /// `<local_app_data>/MeetingAssistant/ext/endpoint.json`.
    pub fn path_under(local_app_data: &str) -> (p: String)
        ensures
            p@ == path_join(
                path_join(path_join(local_app_data@, "MeetingAssistant"@), "ext"@),
                "endpoint.json"@,
            ),
    {
        let a = join(local_app_data, "MeetingAssistant");
        let b = join(a.as_str(), "ext");
        join(b.as_str(), "endpoint.json")
    }
}

/// Records `(path, security descriptor text)` for every application; never touches the file.
#[derive(Debug, Default, Clone)]
pub struct RecordingApplier {
    pub applied: Vec<(String, String)>,
}

/// Why a request was refused.
#[derive(Debug, Clone, Copy, PartialEq, Eq, Structural, Hash, PartialOrd, Ord)]
pub enum RejectReason {
    MissingToken,
    WrongToken,
    WebOrigin,
    OriginMismatch,
    Malformed,
    StaleSequence,
    StaleObservation,
    RateLimited,
}

/// Token plus pinned extension origin. A request must satisfy both.
pub struct Authenticator {
    token: Token,
    pinned_origin: String,
}

/// `chrome-extension://`.
pub open spec fn extension_scheme() -> Seq<char> {
    "chrome-extension://"@
}

/// Whether `s` begins with `p`.
pub open spec fn starts_with(s: Seq<char>, p: Seq<char>) -> bool {
    p.len() <= s.len() && s.take(p.len() as int) == p
}

/// The outcome of the token and origin check: a web origin is refused before the token is even
/// looked at; then only the pinned origin passes; then the token must be present and right.
pub open spec fn check_spec(
    pinned_origin: Seq<char>,
    token_hex: Seq<char>,
    origin: Option<Seq<char>>,
    presented: Option<Seq<char>>,
) -> Result<(), RejectReason> {
    match origin {
        Some(o) if starts_with(o, "http://"@) || starts_with(o, "https://"@) => Err(
            RejectReason::WebOrigin,
        ),
        Some(o) if o == pinned_origin => match presented {
            None => Err(RejectReason::MissingToken),
            Some(t) => if t == token_hex {
                Ok(())
            } else {
                Err(RejectReason::WrongToken)
            },
        },
        _ => Err(RejectReason::OriginMismatch),
    }
}

fn begins_with(s: &str, p: &str) -> (r: bool)
    ensures
        r == starts_with(s@, p@),
{
    let a = chars_of(s);
    let b = chars_of(p);
    if b.len() > a.len() {
        return false;
    }
    let mut i: usize = 0;
    while i < b.len()
        invariant
            i <= b@.len() <= a@.len(),
            a@ == s@,
            b@ == p@,
            forall|k: int| 0 <= k < i ==> a@[k] == b@[k],
        decreases b@.len() - i,
    {
        if a[i] != b[i] {
            proof {
                assert(s@.take(p@.len() as int)[i as int] != p@[i as int]);
            }
            return false;
        }
        i += 1;
    }
    proof {
        assert(s@.take(p@.len() as int) =~= p@);
    }
    true
}

/// `Some` of the characters of a borrowed string, or `None`.
pub open spec fn opt_text(o: Option<&str>) -> Option<Seq<char>> {
    match o {
        Some(s) => Some(s@),
        None => None,
    }
}

impl Authenticator {
    /// Pin `chrome-extension://<pinned_extension_id>` as the only origin.
    pub fn new(token: Token, pinned_extension_id: &str) -> (a: Authenticator)
        ensures
            a.pinned_origin()@ == extension_scheme() + pinned_extension_id@,
            a.token_view() == token@,
    {
        let mut pinned_origin = String::new();
        append_str(&mut pinned_origin, "chrome-extension://");
        append_str(&mut pinned_origin, pinned_extension_id);
        Authenticator { token, pinned_origin }
    }

    /// The pinned origin.
    pub closed spec fn pinned_origin(&self) -> String {
        self.pinned_origin
    }

    /// The token's bytes.
    pub closed spec fn token_view(&self) -> Seq<u8> {
        self.token@
    }

    /// The token requests must present.
    pub fn token(&self) -> (t: &Token)
        ensures
            t@ == self.token_view(),
    {
        &self.token
    }

    /// Token and origin check.
    pub fn check(&self, origin: Option<&str>, presented_token: Option<&str>) -> (r: Result<(), RejectReason>)
        ensures
            r == check_spec(
                self.pinned_origin()@,
                hex_lower(self.token_view()),
                opt_text(origin),
                opt_text(presented_token),
            ),
    {
        match origin {
            Some(o) => {
                if begins_with(o, "http://") || begins_with(o, "https://") {
                    return Err(RejectReason::WebOrigin);
                }
                if !same_text(o, self.pinned_origin.as_str()) {
                    return Err(RejectReason::OriginMismatch);
                }
            },
            None => return Err(RejectReason::OriginMismatch),
        }
        match presented_token {
            None => Err(RejectReason::MissingToken),
            Some(t) => if self.token.matches(t) {
                Ok(())
            } else {
                Err(RejectReason::WrongToken)
            },
        }
    }
}

} // verus!
