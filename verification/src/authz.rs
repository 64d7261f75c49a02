//! Who may speak to the engine, and which engine a client may trust.

use crate::text::{chars_of, same_text};
use vstd::prelude::*;

verus! {

/// Why a peer was refused.
#[derive(Debug, Clone, PartialEq, Eq)]
pub enum AuthzError {
    /// Only the SID string is recorded.
    SidMismatch { sid: String },
    ImpersonationFailed,
}

/// Compare the impersonated client's user SID with the engine's own. Fail closed.
pub fn authorize_client(engine_sid: &str, client_sid: Option<&str>) -> (r: Result<(), AuthzError>)
    ensures
        match client_sid {
            None => r == Err::<(), AuthzError>(AuthzError::ImpersonationFailed),
            Some(sid) => if sid@ == engine_sid@ {
                r is Ok
            } else {
                r matches Err(AuthzError::SidMismatch { sid: recorded }) && recorded@ == sid@
            },
        },
{
    match client_sid {
        None => Err(AuthzError::ImpersonationFailed),
        Some(sid) => {
            if same_text(sid, engine_sid) {
                Ok(())
            } else {
                Err(AuthzError::SidMismatch { sid: sid.to_owned() })
            }
        },
    }
}

/// The build channel, fixed when the library is compiled; not readable from configuration,
/// environment or command line.
#[derive(Debug, Clone, Copy, PartialEq, Eq, Structural)]
pub enum BuildChannel {
    Release,
    Development,
}

impl BuildChannel {
    /// The channel this library was built for. It has no development build, so it is always
    /// the release channel.
    pub fn compiled() -> (c: BuildChannel)
        ensures
            c == BuildChannel::Release,
    {
        BuildChannel::Release
    }
}

/// What the operating system said about the server binary's signature.
#[derive(Debug, Clone, Copy, PartialEq, Eq, Structural)]
pub enum SignatureStatus {
    ValidPinnedSigner,
    Unsigned,
    Invalid,
    /// Revocation unreachable or a malformed catalogue: a mismatch for a release client.
    Unverifiable,
}

/// What the client learned about the pipe server's process.
#[derive(Debug, Clone, PartialEq, Eq)]
pub struct ServerImage {
    pub image_path: String,
    pub same_user_sid: bool,
    pub signature: SignatureStatus,
}

/// Where the client expects its engine.
#[derive(Debug, Clone, PartialEq, Eq)]
pub struct ClientContext {
    pub installed_engine_path: String,
    /// The build output directory the client image lives under.
    pub own_target_dir: String,
}

/// Why a server was not trusted.
#[derive(Debug, Clone, PartialEq, Eq)]
pub struct TamperWarning {
    pub channel: BuildChannel,
    pub image_path: String,
    pub reason: &'static str,
}

/// A path character with `\` read as `/` and ASCII upper case folded to lower case.
pub open spec fn norm_char(c: char) -> char {
    if c == '\\' {
        '/'
    } else if 'A' <= c && c <= 'Z' {
        ((c as u32) + 32) as char
    } else {
        c
    }
}

/// A path with normalized separators and ASCII case.
pub open spec fn normalized(s: Seq<char>) -> Seq<char> {
    Seq::new(s.len(), |i: int| norm_char(s[i]))
}

/// Whether `path` lies under `dir`, judged on normalized text so that a Windows path is judged
/// the same on every host.
pub open spec fn under_spec(path: Seq<char>, dir: Seq<char>) -> bool {
    let p = normalized(path);
    let d0 = normalized(dir);
    let d = if d0.len() > 0 && d0.last() == '/' {
        d0
    } else {
        d0.push('/')
    };
    d.len() <= p.len() && p.take(d.len() as int) == d
}

fn norm(c: char) -> (r: char)
    ensures
        r == norm_char(c),
{
    if c == '\\' {
        '/'
    } else if 'A' <= c && c <= 'Z' {
        let code: u32 = c as u32;
        let lower: u8 = (code + 32) as u8;
        proof {
            assert(lower as u32 == code + 32);
        }
        lower as char
    } else {
        c
    }
}

fn normalized_chars(s: &str) -> (v: Vec<char>)
    ensures
        v@ == normalized(s@),
{
    let cs = chars_of(s);
    let mut v: Vec<char> = Vec::new();
    let mut i: usize = 0;
    while i < cs.len()
        invariant
            i <= cs@.len(),
            cs@ == s@,
            v@ == normalized(s@).take(i as int),
        decreases cs@.len() - i,
    {
        let c = norm(cs[i]);
        v.push(c);
        proof {
            assert(normalized(s@).take(i + 1) =~= normalized(s@).take(i as int).push(c));
        }
        i += 1;
    }
    proof {
        assert(normalized(s@).take(cs@.len() as int) =~= normalized(s@));
    }
    v
}

/// Prefix test on normalized separators and case.
pub fn under(path: &str, dir: &str) -> (r: bool)
    ensures
        r == under_spec(path@, dir@),
{
    let p = normalized_chars(path);
    let mut d = normalized_chars(dir);
    let ghost d0 = d@;
    if !(d.len() > 0 && d[d.len() - 1] == '/') {
        d.push('/');
    }
    proof {
        let ds = if d0.len() > 0 && d0.last() == '/' {
            d0
        } else {
            d0.push('/')
        };
        assert(d@ =~= ds);
    }
    if d.len() > p.len() {
        return false;
    }
    let mut i: usize = 0;
    while i < d.len()
        invariant
            i <= d@.len() <= p@.len(),
            forall|k: int| 0 <= k < i ==> p@[k] == d@[k],
            p@ == normalized(path@),
            d@ == (if normalized(dir@).len() > 0 && normalized(dir@).last() == '/' {
                normalized(dir@)
            } else {
                normalized(dir@).push('/')
            }),
        decreases d@.len() - i,
    {
        if p[i] != d[i] {
            proof {
                assert(p@.take(d@.len() as int)[i as int] != d@[i as int]);
            }
            return false;
        }
        i += 1;
    }
    proof {
        assert(p@.take(d@.len() as int) =~= d@);
    }
    true
}

/// A path separator on Windows.
pub open spec fn is_sep(c: char) -> bool {
    c == '/' || c == '\\'
}

/// Whether a path starts at a root (with a separator).
pub open spec fn rooted(p: Seq<char>) -> bool {
    p.len() > 0 && is_sep(p[0])
}

/// The components read so far after closing the piece `cur`: empty pieces (repeated or trailing
/// separators) and `.` pieces other than a leading one of a path without root are no components.
pub open spec fn close_piece(acc: Seq<Seq<char>>, cur: Seq<char>, root: bool) -> Seq<Seq<char>> {
    if cur.len() == 0 || (cur == seq!['.'] && (acc.len() > 0 || root)) {
        acc
    } else {
        acc.push(cur)
    }
}

/// The components closed within the first `n` characters of `p`, and the piece still open.
pub open spec fn scan_pieces(p: Seq<char>, n: nat) -> (Seq<Seq<char>>, Seq<char>)
    decreases n,
{
    if n == 0 || n > p.len() {
        (Seq::empty(), Seq::empty())
    } else {
        let prev = scan_pieces(p, (n - 1) as nat);
        if is_sep(p[n - 1]) {
            (close_piece(prev.0, prev.1, rooted(p)), Seq::empty())
        } else {
            (prev.0, prev.1.push(p[n - 1]))
        }
    }
}

/// A path's components, as `Path` compares them: the pieces between separators, without empty
/// pieces or `.` pieces other than a leading one.
pub open spec fn path_components(p: Seq<char>) -> Seq<Seq<char>> {
    let st = scan_pieces(p, p.len());
    close_piece(st.0, st.1, rooted(p))
}

/// Two paths are the same path: both rooted or neither, with the same components.
pub open spec fn same_path_spec(a: Seq<char>, b: Seq<char>) -> bool {
    rooted(a) == rooted(b) && path_components(a) == path_components(b)
}

/// The views of a list of character vectors.
pub open spec fn pieces_view(v: Seq<Vec<char>>) -> Seq<Seq<char>> {
    v.map_values(|x: Vec<char>| x@)
}

fn close_exec(acc: &mut Vec<Vec<char>>, cur: Vec<char>, root: bool)
    ensures
        pieces_view(final(acc)@) == close_piece(pieces_view(old(acc)@), cur@, root),
{
    let dot = cur.len() == 1 && cur[0] == '.';
    if cur.len() == 0 || (dot && (acc.len() > 0 || root)) {
        proof {
            if cur@.len() == 1 && cur@[0] == '.' {
                assert(cur@ =~= seq!['.']);
            }
        }
        return;
    }
    proof {
        if cur@ == seq!['.'] {
            assert(cur@[0] == '.');
        }
    }
    let ghost before = acc@;
    acc.push(cur);
    assert(pieces_view(acc@) =~= pieces_view(before).push(acc@.last()@));
}

/// The components of `path`.
fn components(path: &str) -> (v: Vec<Vec<char>>)
    ensures
        pieces_view(v@) == path_components(path@),
{
    let cs = chars_of(path);
    let root = cs.len() > 0 && (cs[0] == '/' || cs[0] == '\\');
    let mut acc: Vec<Vec<char>> = Vec::new();
    let mut cur: Vec<char> = Vec::new();
    let mut i: usize = 0;
    assert(pieces_view(acc@) =~= Seq::<Seq<char>>::empty());
    while i < cs.len()
        invariant
            cs@ == path@,
            i <= cs@.len(),
            root == rooted(path@),
            pieces_view(acc@) == scan_pieces(path@, i as nat).0,
            cur@ == scan_pieces(path@, i as nat).1,
        decreases cs@.len() - i,
    {
        let c = cs[i];
        if c == '/' || c == '\\' {
            let piece = cur;
            cur = Vec::new();
            close_exec(&mut acc, piece, root);
        } else {
            cur.push(c);
        }
        i += 1;
    }
    close_exec(&mut acc, cur, root);
    acc
}

/// Whether two character vectors are equal.
fn same_chars(a: &Vec<char>, b: &Vec<char>) -> (r: bool)
    ensures
        r == (a@ == b@),
{
    if a.len() != b.len() {
        return false;
    }
    let mut i: usize = 0;
    while i < a.len()
        invariant
            i <= a@.len(),
            a@.len() == b@.len(),
            forall|k: int| 0 <= k < i ==> a@[k] == b@[k],
        decreases a@.len() - i,
    {
        if a[i] != b[i] {
            return false;
        }
        i += 1;
    }
    assert(a@ =~= b@);
    true
}

/// Whether two paths are the same path, component by component.
pub fn same_path(a: &str, b: &str) -> (r: bool)
    ensures
        r == same_path_spec(a@, b@),
{
    let ca = chars_of(a);
    let cb = chars_of(b);
    let ra = ca.len() > 0 && (ca[0] == '/' || ca[0] == '\\');
    let rb = cb.len() > 0 && (cb[0] == '/' || cb[0] == '\\');
    assert(ra == rooted(a@));
    assert(rb == rooted(b@));
    let pa = components(a);
    let pb = components(b);
    if ra != rb || pa.len() != pb.len() {
        proof {
            if ra == rb {
                assert(pieces_view(pa@).len() == pa@.len());
                assert(pieces_view(pb@).len() == pb@.len());
                assert(path_components(a@).len() != path_components(b@).len());
            }
        }
        return false;
    }
    let mut i: usize = 0;
    while i < pa.len()
        invariant
            i <= pa@.len(),
            pa@.len() == pb@.len(),
            pieces_view(pa@) == path_components(a@),
            pieces_view(pb@) == path_components(b@),
            ra == rb,
            ra == rooted(a@),
            rb == rooted(b@),
            forall|k: int| 0 <= k < i ==> pa@[k]@ == pb@[k]@,
        decreases pa@.len() - i,
    {
        if !same_chars(&pa[i], &pb[i]) {
            proof {
                assert(pieces_view(pa@)[i as int] != pieces_view(pb@)[i as int]);
                assert(path_components(a@)[i as int] != path_components(b@)[i as int]);
            }
            return false;
        }
        i += 1;
    }
    assert(pieces_view(pa@) =~= pieces_view(pb@));
    true
}

/// The server-authenticity rule per build channel; anything not listed is refused.
/// Release trusts only the signed installed engine. Development also trusts an installed path
/// only when signed, and otherwise a same-user binary from its own build tree.
pub open spec fn server_trusted(channel: BuildChannel, server: ServerImage, ctx: ClientContext) -> bool {
    let signed = server.signature == SignatureStatus::ValidPinnedSigner;
    let installed = same_path_spec(server.image_path@, ctx.installed_engine_path@);
    match channel {
        BuildChannel::Release => installed && signed,
        BuildChannel::Development => if installed {
            signed
        } else {
            under_spec(server.image_path@, ctx.own_target_dir@) && server.same_user_sid
        },
    }
}

/// Judge the pipe server by the rule of `channel`; a refusal names the channel and the image.
pub fn verify_server(channel: BuildChannel, server: &ServerImage, ctx: &ClientContext) -> (r: Result<
    (),
    TamperWarning,
>)
    ensures
        r is Ok <==> server_trusted(channel, *server, *ctx),
        r matches Err(w) ==> w.channel == channel && w.image_path@ == server.image_path@,
{
    let signed = server.signature == SignatureStatus::ValidPinnedSigner;
    let installed = same_path(server.image_path.as_str(), ctx.installed_engine_path.as_str());
    let reason: &'static str = match channel {
        BuildChannel::Release => {
            if installed && signed {
                return Ok(());
            }
            "release client accepts only the signed installed engine"
        },
        BuildChannel::Development => {
            if installed {
                if signed {
                    return Ok(());
                }
                "an installed path must carry a valid signature"
            } else {
                if under(server.image_path.as_str(), ctx.own_target_dir.as_str())
                    && server.same_user_sid {
                    return Ok(());
                }
                "development client accepts only same-user binaries from its own build tree"
            }
        },
    };
    Err(TamperWarning { channel, image_path: server.image_path.clone(), reason })
}

} // verus!
