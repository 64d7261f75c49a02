//! The request head the extension listener accepts on loopback: `POST /report`, a bounded run
//! of header lines of which `Origin`, `X-MA-Token` and `Content-Length` are read, and a
//! status-only reply. Reading lines off the socket is the caller's; what they mean is decided
//! here.

use crate::chunk_manifest::append_str;
use crate::command::{opt_chars, u64_parse};
use crate::ext_server::Response;
use crate::process_tree::{process_tree_root, tree_root_spec, ProcessRecord};
use crate::rollback::ascii_lower;
use crate::text::{chars_of, decimal, decimal_text, string_of};
use vstd::prelude::*;

verus! {

/// Bytes a request body may hold.
pub const MAX_BODY: usize = 4096;

/// Bytes one header line may hold, its line break not counted.
pub const MAX_HEADER_LINE: usize = 1024;

/// Lines read after the request line, the blank one included.
pub const MAX_HEADERS: usize = 32;

/// Unicode white space, as `char::is_whitespace` reads it.
pub open spec fn is_white(c: char) -> bool {
    ||| '\u{9}' <= c && c <= '\u{d}'
    ||| c == ' '
    ||| c == '\u{85}'
    ||| c == '\u{a0}'
    ||| c == '\u{1680}'
    ||| '\u{2000}' <= c && c <= '\u{200a}'
    ||| c == '\u{2028}'
    ||| c == '\u{2029}'
    ||| c == '\u{202f}'
    ||| c == '\u{205f}'
    ||| c == '\u{3000}'
}

fn white(c: char) -> (r: bool)
    ensures
        r == is_white(c),
{
    ('\u{9}' <= c && c <= '\u{d}') || c == ' ' || c == '\u{85}' || c == '\u{a0}' || c
        == '\u{1680}' || ('\u{2000}' <= c && c <= '\u{200a}') || c == '\u{2028}' || c
        == '\u{2029}' || c == '\u{202f}' || c == '\u{205f}' || c == '\u{3000}'
}

/// The first index from `i` on that holds no white space, or the length.
pub open spec fn skip_white(s: Seq<char>, i: int) -> int
    decreases s.len() - i,
{
    if 0 <= i < s.len() && is_white(s[i]) {
        skip_white(s, i + 1)
    } else {
        i
    }
}

/// The first index from `i` on that holds white space, or the length.
pub open spec fn word_end(s: Seq<char>, i: int) -> int
    decreases s.len() - i,
{
    if 0 <= i < s.len() && !is_white(s[i]) {
        word_end(s, i + 1)
    } else {
        i
    }
}

/// The length of `s` without its trailing white space, looking at the first `n` characters.
pub open spec fn kept_len(s: Seq<char>, n: int) -> int
    decreases n,
{
    if 0 < n <= s.len() && is_white(s[n - 1]) {
        kept_len(s, n - 1)
    } else {
        n
    }
}

/// `str::trim_end`.
pub open spec fn trim_end(s: Seq<char>) -> Seq<char> {
    s.take(kept_len(s, s.len() as int))
}

/// `str::trim`.
pub open spec fn trim(s: Seq<char>) -> Seq<char> {
    let t = trim_end(s);
    t.skip(skip_white(t, 0))
}

proof fn lemma_skip_white(s: Seq<char>, i: int)
    requires
        0 <= i <= s.len(),
    ensures
        i <= skip_white(s, i) <= s.len(),
    decreases s.len() - i,
{
    if i < s.len() && is_white(s[i]) {
        lemma_skip_white(s, i + 1);
    }
}

proof fn lemma_word_end(s: Seq<char>, i: int)
    requires
        0 <= i <= s.len(),
    ensures
        i <= word_end(s, i) <= s.len(),
    decreases s.len() - i,
{
    if i < s.len() && !is_white(s[i]) {
        lemma_word_end(s, i + 1);
    }
}

proof fn lemma_kept_len(s: Seq<char>, n: int)
    requires
        0 <= n <= s.len(),
    ensures
        0 <= kept_len(s, n) <= n,
    decreases n,
{
    if 0 < n && is_white(s[n - 1]) {
        lemma_kept_len(s, n - 1);
    }
}

fn skip_white_from(cs: &Vec<char>, start: usize) -> (r: usize)
    requires
        start <= cs@.len(),
    ensures
        r == skip_white(cs@, start as int),
        start <= r <= cs@.len(),
{
    let mut i = start;
    while i < cs.len() && white(cs[i])
        invariant
            start <= i <= cs@.len(),
            skip_white(cs@, start as int) == skip_white(cs@, i as int),
        decreases cs@.len() - i,
    {
        i += 1;
    }
    i
}

fn word_end_from(cs: &Vec<char>, start: usize) -> (r: usize)
    requires
        start <= cs@.len(),
    ensures
        r == word_end(cs@, start as int),
        start <= r <= cs@.len(),
{
    let mut i = start;
    while i < cs.len() && !white(cs[i])
        invariant
            start <= i <= cs@.len(),
            word_end(cs@, start as int) == word_end(cs@, i as int),
        decreases cs@.len() - i,
    {
        i += 1;
    }
    i
}

fn kept_len_of(cs: &Vec<char>) -> (r: usize)
    ensures
        r == kept_len(cs@, cs@.len() as int),
        r <= cs@.len(),
{
    let mut n = cs.len();
    while n > 0 && white(cs[n - 1])
        invariant
            n <= cs@.len(),
            kept_len(cs@, cs@.len() as int) == kept_len(cs@, n as int),
        decreases n,
    {
        n -= 1;
    }
    n
}

/// Whether a request line names `POST /report`: its first two words, split on white space.
pub open spec fn is_report_line(line: Seq<char>) -> bool {
    let a = skip_white(line, 0);
    let b = word_end(line, a);
    let c = skip_white(line, b);
    let d = word_end(line, c);
    line.subrange(a, b) == "POST"@ && line.subrange(c, d) == "/report"@
}

fn slice_is(cs: &Vec<char>, from: usize, to: usize, word: &str) -> (r: bool)
    requires
        from <= to <= cs@.len(),
    ensures
        r == (cs@.subrange(from as int, to as int) == word@),
{
    let w = chars_of(word);
    if to - from != w.len() {
        return false;
    }
    let mut k: usize = 0;
    while k < w.len()
        invariant
            k <= w@.len(),
            w@ == word@,
            to - from == w@.len(),
            from <= to <= cs@.len(),
            forall|j: int| 0 <= j < k ==> cs@[from + j] == w@[j],
        decreases w@.len() - k,
    {
        if cs[from + k] != w[k] {
            assert(cs@.subrange(from as int, to as int)[k as int] != word@[k as int]);
            return false;
        }
        k += 1;
    }
    assert(cs@.subrange(from as int, to as int) =~= w@);
    true
}

/// Whether the request line asks for `POST /report`.
pub fn is_report_request(line: &str) -> (r: bool)
    ensures
        r == is_report_line(line@),
{
    let cs = chars_of(line);
    let a = skip_white_from(&cs, 0);
    let b = word_end_from(&cs, a);
    let c = skip_white_from(&cs, b);
    let d = word_end_from(&cs, c);
    slice_is(&cs, a, b, "POST") && slice_is(&cs, c, d, "/report")
}

/// The characters of `v` from `from` up to `to`.
fn sub_vec(v: &Vec<char>, from: usize, to: usize) -> (r: Vec<char>)
    requires
        from <= to <= v@.len(),
    ensures
        r@ == v@.subrange(from as int, to as int),
{
    let mut r: Vec<char> = Vec::new();
    let mut i = from;
    while i < to
        invariant
            from <= i <= to <= v@.len(),
            r@ == v@.subrange(from as int, i as int),
        decreases to - i,
    {
        r.push(v[i]);
        assert(v@.subrange(from as int, i + 1) =~= v@.subrange(from as int, i as int).push(v@[i as int]));
        i += 1;
    }
    r
}

fn trim_end_vec(v: &Vec<char>) -> (r: Vec<char>)
    ensures
        r@ == trim_end(v@),
{
    let n = kept_len_of(v);
    let r = sub_vec(v, 0, n);
    assert(r@ =~= trim_end(v@));
    r
}

fn trim_vec(v: &Vec<char>) -> (r: Vec<char>)
    ensures
        r@ == trim(v@),
{
    let t = trim_end_vec(v);
    let a = skip_white_from(&t, 0);
    let r = sub_vec(&t, a, t.len());
    assert(r@ =~= trim(v@));
    r
}

fn lower_vec(v: &Vec<char>) -> (r: Vec<char>)
    ensures
        r@ == ascii_lower(v@),
{
    let mut r: Vec<char> = Vec::new();
    let mut i: usize = 0;
    while i < v.len()
        invariant
            i <= v@.len(),
            r@ == ascii_lower(v@).take(i as int),
        decreases v@.len() - i,
    {
        let c = v[i];
        let l = if 'A' <= c && c <= 'Z' {
            let code: u32 = c as u32;
            let lower: u8 = (code + 32) as u8;
            proof {
                assert(lower as u32 == code + 32);
            }
            lower as char
        } else {
            c
        };
        r.push(l);
        assert(ascii_lower(v@).take(i + 1) =~= ascii_lower(v@).take(i as int).push(l));
        i += 1;
    }
    assert(ascii_lower(v@).take(v@.len() as int) =~= ascii_lower(v@));
    r
}

/// The first index of `c` in `s` from `i` on, or the length.
pub open spec fn index_from(s: Seq<char>, c: char, i: int) -> int
    decreases s.len() - i,
{
    if 0 <= i < s.len() && s[i] != c {
        index_from(s, c, i + 1)
    } else {
        i
    }
}

fn index_of(cs: &Vec<char>, c: char) -> (r: usize)
    ensures
        r == index_from(cs@, c, 0),
        r <= cs@.len(),
{
    let mut i: usize = 0;
    while i < cs.len() && cs[i] != c
        invariant
            i <= cs@.len(),
            index_from(cs@, c, 0) == index_from(cs@, c, i as int),
        decreases cs@.len() - i,
    {
        i += 1;
    }
    i
}

/// What one header line means to the request.
#[derive(Debug, Clone, PartialEq, Eq)]
pub enum HeaderLine {
    /// The blank line that ends the head.
    End,
    Origin(String),
    Token(String),
    ContentLength(usize),
    /// A header this listener does not read.
    Other,
    /// No colon, or a length that is not a decimal `usize`.
    Malformed,
}

/// A header line as a value.
pub enum HeaderView {
    End,
    Origin(Seq<char>),
    Token(Seq<char>),
    ContentLength(usize),
    Other,
    Malformed,
}

pub open spec fn header_view(h: HeaderLine) -> HeaderView {
    match h {
        HeaderLine::End => HeaderView::End,
        HeaderLine::Origin(v) => HeaderView::Origin(v@),
        HeaderLine::Token(v) => HeaderView::Token(v@),
        HeaderLine::ContentLength(n) => HeaderView::ContentLength(n),
        HeaderLine::Other => HeaderView::Other,
        HeaderLine::Malformed => HeaderView::Malformed,
    }
}

/// A header line with its trailing white space dropped: blank ends the head; otherwise the name
/// before the first colon, compared without regard to ASCII case, and the value after it,
/// trimmed.
pub open spec fn header_spec(line: Seq<char>) -> HeaderView {
    let t = trim_end(line);
    let k = index_from(t, ':', 0);
    if t.len() == 0 {
        HeaderView::End
    } else if k >= t.len() {
        HeaderView::Malformed
    } else {
        let name = ascii_lower(t.take(k));
        let value = trim(t.skip(k + 1));
        if name == "origin"@ {
            HeaderView::Origin(value)
        } else if name == "x-ma-token"@ {
            HeaderView::Token(value)
        } else if name == "content-length"@ {
            match u64_parse(value) {
                Ok(n) => if n <= usize::MAX {
                    HeaderView::ContentLength(n as usize)
                } else {
                    HeaderView::Malformed
                },
                Err(_) => HeaderView::Malformed,
            }
        } else {
            HeaderView::Other
        }
    }
}

/// Read one header line.
pub fn classify_header(line: &str) -> (r: HeaderLine)
    ensures
        header_view(r) == header_spec(line@),
{
    let cs = chars_of(line);
    let t = trim_end_vec(&cs);
    if t.len() == 0 {
        return HeaderLine::End;
    }
    let k = index_of(&t, ':');
    if k >= t.len() {
        return HeaderLine::Malformed;
    }
    let raw_name = sub_vec(&t, 0, k);
    let raw_value = sub_vec(&t, k + 1, t.len());
    let name = lower_vec(&raw_name);
    let value = trim_vec(&raw_value);
    proof {
        assert(raw_name@ =~= t@.take(k as int));
        assert(raw_value@ =~= t@.skip(k + 1));
    }
    let n = name.len();
    assert(name@.subrange(0, n as int) =~= name@);
    if slice_is(&name, 0, n, "origin") {
        HeaderLine::Origin(string_of(value.as_slice()))
    } else if slice_is(&name, 0, n, "x-ma-token") {
        HeaderLine::Token(string_of(value.as_slice()))
    } else if slice_is(&name, 0, n, "content-length") {
        match crate::command::parse_u64_chars(&value) {
            Ok(v) => {
                if v <= usize::MAX as u64 {
                    HeaderLine::ContentLength(v as usize)
                } else {
                    HeaderLine::Malformed
                }
            },
            Err(_) => HeaderLine::Malformed,
        }
    } else {
        HeaderLine::Other
    }
}

/// What to do after a header line.
#[derive(Debug, Clone, Copy, PartialEq, Eq, Structural)]
pub enum HeadStep {
    /// Read another header line.
    More,
    /// The head is complete: read a body of this many bytes.
    Body(usize),
    /// The request is malformed; nothing more is read.
    Malformed,
}

/// The head of a request as its header lines are read, later lines overriding earlier ones.
#[derive(Debug, Clone, PartialEq, Eq)]
pub struct RequestHead {
    pub origin: Option<String>,
    pub token: Option<String>,
    pub length: usize,
    pub lines_read: usize,
}

/// The step after a line, once `lines_read` lines including it have been read.
pub open spec fn step_after(lines_read: int) -> HeadStep {
    if lines_read >= MAX_HEADERS {
        HeadStep::Malformed
    } else {
        HeadStep::More
    }
}

impl RequestHead {
    pub fn new() -> (h: RequestHead)
        ensures
            h.origin is None,
            h.token is None,
            h.length == 0,
            h.lines_read == 0,
    {
        RequestHead { origin: None, token: None, length: 0, lines_read: 0 }
    }

    /// Take one header line. Once `MAX_HEADERS` lines have been read without the blank one
    /// the request is malformed; at the blank line a length over `MAX_BODY` is too.
    pub fn accept(&mut self, line: &str) -> (step: HeadStep)
        ensures
            old(self).lines_read >= MAX_HEADERS ==> step == HeadStep::Malformed && *final(self)
                == *old(self),
            old(self).lines_read < MAX_HEADERS ==> final(self).lines_read == old(self).lines_read
                + 1 && match header_spec(line@) {
                HeaderView::End => {
                    &&& step == (if old(self).length > MAX_BODY {
                        HeadStep::Malformed
                    } else {
                        HeadStep::Body(old(self).length)
                    })
                    &&& final(self).origin == old(self).origin
                    &&& final(self).token == old(self).token
                    &&& final(self).length == old(self).length
                },
                HeaderView::Malformed => step == HeadStep::Malformed,
                HeaderView::Origin(v) => {
                    &&& step == step_after(final(self).lines_read as int)
                    &&& opt_chars(final(self).origin) == Some(v)
                    &&& final(self).token == old(self).token
                    &&& final(self).length == old(self).length
                },
                HeaderView::Token(v) => {
                    &&& step == step_after(final(self).lines_read as int)
                    &&& final(self).origin == old(self).origin
                    &&& opt_chars(final(self).token) == Some(v)
                    &&& final(self).length == old(self).length
                },
                HeaderView::ContentLength(n) => {
                    &&& step == step_after(final(self).lines_read as int)
                    &&& final(self).origin == old(self).origin
                    &&& final(self).token == old(self).token
                    &&& final(self).length == n
                },
                HeaderView::Other => {
                    &&& step == step_after(final(self).lines_read as int)
                    &&& final(self).origin == old(self).origin
                    &&& final(self).token == old(self).token
                    &&& final(self).length == old(self).length
                },
            },
    {
        if self.lines_read >= MAX_HEADERS {
            return HeadStep::Malformed;
        }
        self.lines_read = self.lines_read + 1;
        let header = classify_header(line);
        let more = if self.lines_read >= MAX_HEADERS {
            HeadStep::Malformed
        } else {
            HeadStep::More
        };
        match header {
            HeaderLine::End => {
                if self.length > MAX_BODY {
                    HeadStep::Malformed
                } else {
                    HeadStep::Body(self.length)
                }
            },
            HeaderLine::Malformed => HeadStep::Malformed,
            HeaderLine::Origin(v) => {
                self.origin = Some(v);
                more
            },
            HeaderLine::Token(v) => {
                self.token = Some(v);
                more
            },
            HeaderLine::ContentLength(n) => {
                self.length = n;
                more
            },
            HeaderLine::Other => more,
        }
    }
}

/// The process-tree root of a resolved peer, or the peer itself when the snapshot cannot place
/// it; nothing when the peer was not resolved.
pub open spec fn peer_root_spec(resolved: Option<u32>, snapshot: Seq<ProcessRecord>) -> Option<u32> {
    match resolved {
        None => None,
        Some(pid) => match tree_root_spec(snapshot, pid) {
            Some(root) => Some(root),
            None => Some(pid),
        },
    }
}

pub fn peer_root(resolved: Option<u32>, snapshot: &[ProcessRecord]) -> (r: Option<u32>)
    ensures
        r == peer_root_spec(resolved, snapshot@),
{
    match resolved {
        None => None,
        Some(pid) => match process_tree_root(snapshot, pid) {
            Some(root) => Some(root),
            None => Some(pid),
        },
    }
}

/// Resolves the process that owns the peer end of a loopback connection. A resolver that
/// cannot attribute the peer returns `None`, and the tab signals then carry no process-tree
/// root, which the detector treats as inconclusive rather than as a match.
pub trait PeerResolver {
    fn peer_pid(&mut self, peer_port: u16) -> Option<u32>;
}

/// Never attributes a peer.
#[derive(Debug, Default)]
pub struct NoPeerResolver;

impl PeerResolver for NoPeerResolver {
    fn peer_pid(&mut self, peer_port: u16) -> (r: Option<u32>)
        ensures
            r is None,
    {
        None
    }
}

/// The process-tree root of the peer on `peer_port`: the resolver is asked once, and its answer
/// placed in the snapshot as `peer_root` does.
pub fn resolve_peer_root<R: PeerResolver>(
    resolver: &mut R,
    peer_port: u16,
    snapshot: &[ProcessRecord],
) -> (r: Option<u32>)
    ensures
        exists|asked: Option<u32>| r == peer_root_spec(asked, snapshot@),
{
    let asked = resolver.peer_pid(peer_port);
    peer_root(asked, snapshot)
}

/// The reason phrase sent with each status.
pub open spec fn reason_phrase(status: u16) -> Seq<char> {
    match status {
        204 => "No Content"@,
        400 => "Bad Request"@,
        401 => "Unauthorized"@,
        403 => "Forbidden"@,
        409 => "Conflict"@,
        429 => "Too Many Requests"@,
        _ => "Status"@,
    }
}

/// The whole reply: a status line, an empty body, and the connection closed.
pub open spec fn reply_text(status: u16) -> Seq<char> {
    "HTTP/1.1 "@ + decimal_text(status as nat) + " "@ + reason_phrase(status)
        + "\r\nContent-Length: 0\r\nConnection: close\r\n\r\n"@
}

pub fn reply(response: Response) -> (s: String)
    ensures
        s@ == reply_text(response.status),
{
    let status = response.status;
    let reason: &str = match status {
        204 => "No Content",
        400 => "Bad Request",
        401 => "Unauthorized",
        403 => "Forbidden",
        409 => "Conflict",
        429 => "Too Many Requests",
        _ => "Status",
    };
    assert(reason@ == reason_phrase(status));
    let mut s = String::new();
    append_str(&mut s, "HTTP/1.1 ");
    let code = decimal(status as u64);
    append_str(&mut s, code.as_str());
    append_str(&mut s, " ");
    append_str(&mut s, reason);
    append_str(&mut s, "\r\nContent-Length: 0\r\nConnection: close\r\n\r\n");
    s
}

} // verus!
