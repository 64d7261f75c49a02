//! Manifest payloads and their well-formedness. A payload is only judged after its signature
//! verified.

use crate::keys::parse_hex_key;
use crate::manifest_verify::RejectCode;
use crate::text::{chars_of, same_text};
use vstd::prelude::*;

verus! {

/// The only hosts a manifest may point at; a manifest naming any other host is malformed.
pub const DISTRIBUTION_HOSTS: [&'static str; 2] = ["github.com", "objects.githubusercontent.com"];

/// One downloadable file of a release.
#[derive(Debug, Clone, PartialEq, Eq)]
pub struct Artifact {
    pub name: String,
    pub url: String,
    pub sha256: String,
    pub size: u64,
}

/// The next release key, introduced by a manifest signed with a current one.
#[derive(Debug, Clone, PartialEq, Eq)]
pub struct KeyRollover {
    pub next_key_id: String,
    pub next_public_key: String,
}

/// An application update.
#[derive(Debug, Clone, PartialEq, Eq)]
pub struct UpdateManifest {
    /// Strictly increasing integer; distinct from the display version.
    pub manifest_version: u64,
    pub version: String,
    pub channel: String,
    pub artifacts: Vec<Artifact>,
    /// The update replaces the engine binary and therefore waits for a terminal session.
    pub engine_replacement: bool,
    pub key_rollover: Option<KeyRollover>,
}

/// A detection adapter release.
#[derive(Debug, Clone, PartialEq, Eq)]
pub struct AdapterManifest {
    pub manifest_version: u64,
    pub adapter_id: String,
    pub version: String,
    pub artifacts: Vec<Artifact>,
    /// The pinned browser extension identifier for the detection-only channel, when the adapter
    /// has one.
    pub pinned_extension_id: Option<String>,
}

/// `https://`.
pub open spec fn https_prefix() -> Seq<char> {
    seq!['h', 't', 't', 'p', 's', ':', '/', '/']
}

/// The first index of `c` in `s`, or `s.len()` where it does not occur.
pub open spec fn index_of(s: Seq<char>, c: char) -> int
    decreases s.len(),
{
    if s.len() == 0 {
        0
    } else if s[0] == c {
        0
    } else {
        1 + index_of(s.drop_first(), c)
    }
}

/// The host of an `https://` URL: the text after the scheme, up to the first `/`.
pub open spec fn host_spec(url: Seq<char>) -> Option<Seq<char>> {
    if url.len() >= 8 && url.take(8) == https_prefix() {
        let rest = url.skip(8);
        Some(rest.take(index_of(rest, '/')))
    } else {
        None
    }
}

/// One of the distribution hosts.
pub open spec fn distribution_host(h: Seq<char>) -> bool {
    h == "github.com"@ || h == "objects.githubusercontent.com"@
}

/// An ASCII hexadecimal digit of either case.
pub open spec fn is_hex_ascii(c: char) -> bool {
    ('0' <= c && c <= '9') || ('a' <= c && c <= 'f') || ('A' <= c && c <= 'F')
}

/// Two dots in a row somewhere in `s`.
pub open spec fn has_dot_dot(s: Seq<char>) -> bool {
    exists|i: int| 0 <= i < s.len() - 1 && s[i] == '.' && #[trigger] s[i + 1] == '.'
}

/// An artifact served from a distribution host, with a 64-digit hexadecimal digest and a plain
/// file name.
pub open spec fn artifact_ok(a: Artifact) -> bool {
    &&& host_spec(a.url@) is Some
    &&& distribution_host(host_spec(a.url@)->0)
    &&& a.sha256@.len() == 64
    &&& forall|i: int| 0 <= i < a.sha256@.len() ==> is_hex_ascii(#[trigger] a.sha256@[i])
    &&& !a.name@.contains('/')
    &&& !a.name@.contains('\\')
    &&& !has_dot_dot(a.name@)
}

proof fn lemma_index_of(s: Seq<char>, c: char)
    ensures
        0 <= index_of(s, c) <= s.len(),
        index_of(s, c) < s.len() ==> s[index_of(s, c)] == c,
        forall|k: int| 0 <= k < index_of(s, c) ==> #[trigger] s[k] != c,
    decreases s.len(),
{
    if s.len() > 0 && s[0] != c {
        lemma_index_of(s.drop_first(), c);
        assert forall|k: int| 0 <= k < index_of(s, c) implies #[trigger] s[k] != c by {
            if k > 0 {
                assert(s[k] == s.drop_first()[k - 1]);
            }
        }
    }
}

/// The host of an `https://` URL.
pub fn host_of(url: &str) -> (r: Option<String>)
    ensures
        match r {
            Some(h) => host_spec(url@) == Some(h@),
            None => host_spec(url@) is None,
        },
{
    let cs = chars_of(url);
    let prefix: [char; 8] = ['h', 't', 't', 'p', 's', ':', '/', '/'];
    if cs.len() < 8 {
        return None;
    }
    let mut i: usize = 0;
    while i < 8
        invariant
            i <= 8,
            cs@ == url@,
            cs@.len() >= 8,
            prefix@ == https_prefix(),
            forall|k: int| 0 <= k < i ==> cs@[k] == https_prefix()[k],
        decreases 8 - i,
    {
        if cs[i] != prefix[i] {
            proof {
                assert(url@.take(8)[i as int] != https_prefix()[i as int]);
            }
            return None;
        }
        i += 1;
    }
    proof {
        assert(url@.take(8) =~= https_prefix());
    }
    let ghost rest = url@.skip(8);
    let mut host = String::new();
    let mut j: usize = 8;
    proof {
        lemma_index_of(rest, '/');
    }
    while j < cs.len() && cs[j] != '/'
        invariant
            8 <= j <= cs@.len(),
            cs@ == url@,
            rest == url@.skip(8),
            j - 8 <= index_of(rest, '/'),
            host@ == rest.take(j - 8),
            0 <= index_of(rest, '/') <= rest.len(),
            index_of(rest, '/') < rest.len() ==> rest[index_of(rest, '/')] == '/',
            forall|k: int| 0 <= k < index_of(rest, '/') ==> #[trigger] rest[k] != '/',
        decreases cs@.len() - j,
    {
        crate::text::push_char(&mut host, cs[j]);
        proof {
            assert(rest[j - 8] == cs@[j as int]);
            assert(rest.take(j - 8 + 1) =~= rest.take(j - 8).push(cs@[j as int]));
        }
        j += 1;
    }
    proof {
        if j < cs.len() {
            assert(rest[j - 8] == '/');
        }
    }
    Some(host)
}

fn char_free(s: &str, c: char) -> (r: bool)
    ensures
        r == !s@.contains(c),
{
    let cs = chars_of(s);
    let mut i: usize = 0;
    while i < cs.len()
        invariant
            i <= cs@.len(),
            cs@ == s@,
            forall|k: int| 0 <= k < i ==> cs@[k] != c,
        decreases cs@.len() - i,
    {
        if cs[i] == c {
            return false;
        }
        i += 1;
    }
    true
}

fn dot_dot_free(s: &str) -> (r: bool)
    ensures
        r == !has_dot_dot(s@),
{
    let cs = chars_of(s);
    let mut i: usize = 0;
    while i < cs.len() && i + 1 < cs.len()
        invariant
            cs@ == s@,
            i <= cs@.len(),
            forall|k: int| 0 <= k < i && k < s@.len() - 1 ==> !(s@[k] == '.' && #[trigger] s@[k + 1] == '.'),
        decreases cs@.len() - i,
    {
        if cs[i] == '.' && cs[i + 1] == '.' {
            return false;
        }
        i += 1;
    }
    proof {
        assert forall|k: int| 0 <= k < s@.len() - 1 implies !(s@[k] == '.' && #[trigger] s@[k + 1] == '.') by {
            assert(k < i);
        }
    }
    true
}

fn hex_digest_text(s: &str) -> (r: bool)
    ensures
        r == (s@.len() == 64 && forall|i: int| 0 <= i < s@.len() ==> is_hex_ascii(#[trigger] s@[i])),
{
    let cs = chars_of(s);
    if cs.len() != 64 {
        return false;
    }
    let mut i: usize = 0;
    while i < cs.len()
        invariant
            i <= cs@.len(),
            cs@ == s@,
            forall|k: int| 0 <= k < i ==> is_hex_ascii(#[trigger] s@[k]),
        decreases cs@.len() - i,
    {
        let c = cs[i];
        if !(('0' <= c && c <= '9') || ('a' <= c && c <= 'f') || ('A' <= c && c <= 'F')) {
            return false;
        }
        i += 1;
    }
    true
}

/// Whether one artifact is well formed.
pub fn artifact_well_formed(a: &Artifact) -> (r: bool)
    ensures
        r == artifact_ok(*a),
{
    let host_ok = match host_of(a.url.as_str()) {
        Some(h) => same_text(h.as_str(), DISTRIBUTION_HOSTS[0]) || same_text(h.as_str(), DISTRIBUTION_HOSTS[1]),
        None => false,
    };
    proof {
        assert(DISTRIBUTION_HOSTS[0]@ == "github.com"@);
        assert(DISTRIBUTION_HOSTS[1]@ == "objects.githubusercontent.com"@);
    }
    host_ok && hex_digest_text(a.sha256.as_str()) && char_free(a.name.as_str(), '/') && char_free(
        a.name.as_str(),
        '\\',
    ) && dot_dot_free(a.name.as_str())
}

/// Whether every artifact is served from a distribution host, names a plain file and declares a
/// 64-digit hexadecimal digest.
pub fn artifacts_well_formed(artifacts: &[Artifact]) -> (r: bool)
    ensures
        r == forall|i: int| 0 <= i < artifacts@.len() ==> artifact_ok(#[trigger] artifacts@[i]),
{
    let mut i: usize = 0;
    while i < artifacts.len()
        invariant
            i <= artifacts@.len(),
            forall|k: int| 0 <= k < i ==> artifact_ok(#[trigger] artifacts@[k]),
        decreases artifacts@.len() - i,
    {
        if !artifact_well_formed(&artifacts[i]) {
            return false;
        }
        i += 1;
    }
    true
}

/// An update payload that may be acted on: at least one artifact, all well formed, and a
/// rollover, if any, naming a key id and a valid key.
pub open spec fn update_ok(m: UpdateManifest) -> bool {
    &&& m.artifacts@.len() > 0
    &&& forall|i: int| 0 <= i < m.artifacts@.len() ==> artifact_ok(#[trigger] m.artifacts@[i])
    &&& match m.key_rollover {
        Some(r) => crate::keys::hex_key_spec(r.next_public_key@) is Some && r.next_key_id@.len() > 0,
        None => true,
    }
}

/// An adapter payload that may be acted on: at least one artifact, all well formed.
pub open spec fn adapter_ok(m: AdapterManifest) -> bool {
    &&& m.artifacts@.len() > 0
    &&& forall|i: int| 0 <= i < m.artifacts@.len() ==> artifact_ok(#[trigger] m.artifacts@[i])
}

/// Judge a parsed update payload; anything short of well formed is `Malformed`.
pub fn check_update(m: &UpdateManifest) -> (r: Result<(), RejectCode>)
    ensures
        r is Ok <==> update_ok(*m),
        r is Err ==> r == Err::<(), RejectCode>(RejectCode::Malformed),
{
    if !artifacts_well_formed(m.artifacts.as_slice()) || m.artifacts.len() == 0 {
        return Err(RejectCode::Malformed);
    }
    if let Some(rollover) = &m.key_rollover {
        if parse_hex_key(rollover.next_public_key.as_str()).is_none()
            || rollover.next_key_id.as_str().is_empty() {
            return Err(RejectCode::Malformed);
        }
    }
    Ok(())
}

/// Judge a parsed adapter payload; anything short of well formed is `Malformed`.
pub fn check_adapter(m: &AdapterManifest) -> (r: Result<(), RejectCode>)
    ensures
        r is Ok <==> adapter_ok(*m),
        r is Err ==> r == Err::<(), RejectCode>(RejectCode::Malformed),
{
    if !artifacts_well_formed(m.artifacts.as_slice()) || m.artifacts.len() == 0 {
        return Err(RejectCode::Malformed);
    }
    Ok(())
}

} // verus!
