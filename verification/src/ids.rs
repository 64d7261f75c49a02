//! UUIDv7 identifiers, reproduced verbatim on every surface: database row, filesystem path
//! segment and export payload all carry the same lowercase hyphenated text.
//!
//! An identifier holds the 128-bit value of its UUID (most significant byte first, as
//! `Uuid::as_u128` gives it); the text form is `uuid_text` of that value.

use crate::error::CoreError;
use crate::text::{push_char, string_of};
use vstd::prelude::*;

verus! {

/// The version nibble of a UUID value (bits 76..80).
pub open spec fn uuid_version(v: u128) -> u128 {
    (v >> 76u128) & 0xfu128
}

/// The lowercase hexadecimal digit for `d < 16`.
pub open spec fn hex_char(d: nat) -> char {
    if d < 10 {
        ((48 + d) as u8) as char
    } else {
        ((87 + d) as u8) as char
    }
}

/// The last `count` hexadecimal digits of `v`, most significant first.
pub open spec fn hex_fixed(v: nat, count: nat) -> Seq<char>
    decreases count,
{
    if count == 0 {
        Seq::empty()
    } else {
        hex_fixed(v / 16, (count - 1) as nat).push(hex_char(v % 16))
    }
}

/// The hyphenated lowercase form `xxxxxxxx-xxxx-xxxx-xxxx-xxxxxxxxxxxx` of a UUID value.
pub open spec fn uuid_text(v: u128) -> Seq<char> {
    let h = hex_fixed(v as nat, 32);
    h.subrange(0, 8) + seq!['-'] + h.subrange(8, 12) + seq!['-'] + h.subrange(12, 16) + seq!['-']
        + h.subrange(16, 20) + seq!['-'] + h.subrange(20, 32)
}

/// What `Uuid::parse_str` makes of a text: the value of the UUID, or `None` when it rejects it.
pub uninterp spec fn parsed_uuid(text: Seq<char>) -> Option<u128>;

/// What `Uuid::new_v5` returns for a namespace value and a name.
pub uninterp spec fn uuid_v5(namespace: u128, name: Seq<u8>) -> u128;

/// `Uuid::now_v7`: a fresh time-ordered UUID. Only its version nibble (7) is stated; the value
/// depends on the clock and on randomness.
#[verifier::external_body]
pub(crate) fn uuid_now_v7() -> (v: u128)
    ensures
        uuid_version(v) == 7,
{
    uuid::Uuid::now_v7().as_u128()
}

/// `Uuid::parse_str`: the parsed value, or `None` when the text is not a UUID.
#[verifier::external_body]
pub(crate) fn uuid_parse(text: &str) -> (r: Option<u128>)
    ensures
        r == parsed_uuid(text@),
{
    uuid::Uuid::parse_str(text).ok().map(|u| u.as_u128())
}

/// `Uuid::new_v5`: the name-based identifier of `name` in the namespace `namespace`.
#[verifier::external_body]
pub(crate) fn uuid_new_v5(namespace: u128, name: &[u8]) -> (v: u128)
    ensures
        v == uuid_v5(namespace, name@),
{
    uuid::Uuid::new_v5(&uuid::Uuid::from_u128(namespace), name).as_u128()
}

fn hex_digit(d: u128) -> (c: char)
    requires
        d < 16,
    ensures
        c == hex_char(d as nat),
{
    if d < 10 {
        ((48 + d) as u8) as char
    } else {
        ((87 + d) as u8) as char
    }
}

/// Appends `src[from..to]` to `out`.
fn append_range(out: &mut Vec<char>, src: &Vec<char>, from: usize, to: usize)
    requires
        from <= to <= src@.len(),
    ensures
        final(out)@ == old(out)@ + src@.subrange(from as int, to as int),
{
    let ghost start = old(out)@;
    let mut i = from;
    while i < to
        invariant
            from <= i <= to <= src@.len(),
            out@ == start + src@.subrange(from as int, i as int),
        decreases to - i,
    {
        out.push(src[i]);
        assert(src@.subrange(from as int, i + 1) == src@.subrange(from as int, i as int).push(src@[i as int]));
        i += 1;
    }
}

/// The hyphenated lowercase text of a UUID value.
pub fn uuid_string(v: u128) -> (s: String)
    ensures
        s@ == uuid_text(v),
{
    let ghost h = hex_fixed(v as nat, 32);
    proof {
        lemma_hex_fixed_len(v as nat, 32);
        assert(pow16(0) == 1);
        assert((v as nat) / 1 == v as nat);
    }
    let mut digits: Vec<char> = Vec::new();
    let mut rest: u128 = v;
    let mut k: usize = 0;
    while k < 32
        invariant
            k <= 32,
            h.len() == 32,
            h == hex_fixed(v as nat, 32),
            digits@.len() == k,
            forall|i: int| 0 <= i < k ==> #[trigger] digits@[i] == h[31 - i],
            rest as nat == (v as nat) / pow16(k as nat),
        decreases 32 - k,
    {
        proof {
            lemma_hex_fixed_digit(v as nat, 32, k as nat);
            lemma_pow16_step(k as nat);
            vstd::arithmetic::div_mod::lemma_div_denominator(v as int, pow16(k as nat) as int, 16);
        }
        digits.push(hex_digit(rest % 16));
        rest = rest / 16;
        k += 1;
    }
    let mut hv: Vec<char> = Vec::new();
    let mut i: usize = 0;
    while i < 32
        invariant
            i <= 32,
            h.len() == 32,
            digits@.len() == 32,
            forall|j: int| 0 <= j < 32 ==> #[trigger] digits@[j] == h[31 - j],
            hv@ == h.take(i as int),
        decreases 32 - i,
    {
        hv.push(digits[31 - i]);
        assert(h.take(i + 1) == h.take(i as int).push(h[i as int]));
        i += 1;
    }
    assert(hv@ == h);
    let mut out: Vec<char> = Vec::new();
    append_range(&mut out, &hv, 0, 8);
    out.push('-');
    append_range(&mut out, &hv, 8, 12);
    out.push('-');
    append_range(&mut out, &hv, 12, 16);
    out.push('-');
    append_range(&mut out, &hv, 16, 20);
    out.push('-');
    append_range(&mut out, &hv, 20, 32);
    assert(out@ =~= uuid_text(v));
    string_of(out.as_slice())
}

/// `16^k`.
pub open spec fn pow16(k: nat) -> nat
    decreases k,
{
    if k == 0 {
        1
    } else {
        16 * pow16((k - 1) as nat)
    }
}

proof fn lemma_pow16_step(k: nat)
    ensures
        pow16(k + 1) == pow16(k) * 16,
        pow16(k) > 0,
    decreases k,
{
    if k > 0 {
        lemma_pow16_step((k - 1) as nat);
    }
}

proof fn lemma_hex_fixed_len(v: nat, count: nat)
    ensures
        hex_fixed(v, count).len() == count,
    decreases count,
{
    if count > 0 {
        lemma_hex_fixed_len(v / 16, (count - 1) as nat);
    }
}

/// Digit `count - 1 - k` of `hex_fixed(v, count)` is `(v / 16^k) % 16`.
proof fn lemma_hex_fixed_digit(v: nat, count: nat, k: nat)
    requires
        k < count,
    ensures
        hex_fixed(v, count).len() == count,
        hex_fixed(v, count)[count - 1 - k] == hex_char((v / pow16(k)) % 16),
    decreases count,
{
    lemma_hex_fixed_len(v, count);
    lemma_hex_fixed_len(v / 16, (count - 1) as nat);
    if k == 0 {
        assert(pow16(0) == 1);
        assert(v / 1 == v);
    } else {
        lemma_hex_fixed_digit(v / 16, (count - 1) as nat, (k - 1) as nat);
        lemma_pow16_step((k - 1) as nat);
        vstd::arithmetic::div_mod::lemma_div_denominator(v as int, 16, pow16((k - 1) as nat) as int);
        assert(pow16(k) == 16 * pow16((k - 1) as nat));
    }
}

/// A meeting as the user perceives it; may span several sessions.
#[derive(Debug, Clone, Copy, PartialEq, Eq, Structural, PartialOrd, Ord, Hash)]
pub struct MeetingId(pub u128);

impl MeetingId {
    /// Mint a fresh time-ordered identifier.
    pub fn new() -> (id: Self)
        ensures
            uuid_version(id.0) == 7,
    {
        MeetingId(uuid_now_v7())
    }

    /// Wrap an existing UUID value (for example one read back from disk during recovery).
    pub fn from_u128(value: u128) -> (id: Self)
        ensures
            id.0 == value,
    {
        MeetingId(value)
    }

    /// The UUID value.
    pub fn as_u128(&self) -> (v: u128)
        ensures
            v == self.0,
    {
        self.0
    }

    /// The lowercase hyphenated text, identical on every surface.
    pub fn to_string(&self) -> (s: String)
        ensures
            s@ == uuid_text(self.0),
    {
        uuid_string(self.0)
    }

    /// The identifier as a filesystem path segment; identical to `to_string`.
    pub fn as_path_segment(&self) -> (s: String)
        ensures
            s@ == uuid_text(self.0),
    {
        uuid_string(self.0)
    }

    /// Parse the text of an identifier.
    pub fn parse(text: &str) -> (r: Result<Self, CoreError>)
        ensures
            match parsed_uuid(text@) {
                Some(v) => r == Ok::<Self, CoreError>(MeetingId(v)),
                None => r matches Err(CoreError::InvalidId(t)) && t@ == text@,
            },
    {
        match uuid_parse(text) {
            Some(v) => Ok(MeetingId(v)),
            None => Err(CoreError::InvalidId(text.to_owned())),
        }
    }
}

impl std::str::FromStr for MeetingId {
    type Err = CoreError;

    fn from_str(text: &str) -> (r: Result<Self, CoreError>)
        ensures
            match parsed_uuid(text@) {
                Some(v) => r == Ok::<Self, CoreError>(MeetingId(v)),
                None => r matches Err(CoreError::InvalidId(t)) && t@ == text@,
            },
    {
        MeetingId::parse(text)
    }
}

/// One continuous recording; never changes across recovery.
#[derive(Debug, Clone, Copy, PartialEq, Eq, Structural, PartialOrd, Ord, Hash)]
pub struct SessionId(pub u128);

impl SessionId {
    /// Mint a fresh time-ordered identifier.
    pub fn new() -> (id: Self)
        ensures
            uuid_version(id.0) == 7,
    {
        SessionId(uuid_now_v7())
    }

    /// Wrap an existing UUID value (for example one read back from disk during recovery).
    pub fn from_u128(value: u128) -> (id: Self)
        ensures
            id.0 == value,
    {
        SessionId(value)
    }

    /// The UUID value.
    pub fn as_u128(&self) -> (v: u128)
        ensures
            v == self.0,
    {
        self.0
    }

    /// The lowercase hyphenated text, identical on every surface.
    pub fn to_string(&self) -> (s: String)
        ensures
            s@ == uuid_text(self.0),
    {
        uuid_string(self.0)
    }

    /// The identifier as a filesystem path segment; identical to `to_string`.
    pub fn as_path_segment(&self) -> (s: String)
        ensures
            s@ == uuid_text(self.0),
    {
        uuid_string(self.0)
    }

    /// Parse the text of an identifier.
    pub fn parse(text: &str) -> (r: Result<Self, CoreError>)
        ensures
            match parsed_uuid(text@) {
                Some(v) => r == Ok::<Self, CoreError>(SessionId(v)),
                None => r matches Err(CoreError::InvalidId(t)) && t@ == text@,
            },
    {
        match uuid_parse(text) {
            Some(v) => Ok(SessionId(v)),
            None => Err(CoreError::InvalidId(text.to_owned())),
        }
    }
}

impl std::str::FromStr for SessionId {
    type Err = CoreError;

    fn from_str(text: &str) -> (r: Result<Self, CoreError>)
        ensures
            match parsed_uuid(text@) {
                Some(v) => r == Ok::<Self, CoreError>(SessionId(v)),
                None => r matches Err(CoreError::InvalidId(t)) && t@ == text@,
            },
    {
        SessionId::parse(text)
    }
}

/// One audio track segment (microphone, loopback) with its own origin.
#[derive(Debug, Clone, Copy, PartialEq, Eq, Structural, PartialOrd, Ord, Hash)]
pub struct TrackId(pub u128);

impl TrackId {
    /// Mint a fresh time-ordered identifier.
    pub fn new() -> (id: Self)
        ensures
            uuid_version(id.0) == 7,
    {
        TrackId(uuid_now_v7())
    }

    /// Wrap an existing UUID value (for example one read back from disk during recovery).
    pub fn from_u128(value: u128) -> (id: Self)
        ensures
            id.0 == value,
    {
        TrackId(value)
    }

    /// The UUID value.
    pub fn as_u128(&self) -> (v: u128)
        ensures
            v == self.0,
    {
        self.0
    }

    /// The lowercase hyphenated text, identical on every surface.
    pub fn to_string(&self) -> (s: String)
        ensures
            s@ == uuid_text(self.0),
    {
        uuid_string(self.0)
    }

    /// The identifier as a filesystem path segment; identical to `to_string`.
    pub fn as_path_segment(&self) -> (s: String)
        ensures
            s@ == uuid_text(self.0),
    {
        uuid_string(self.0)
    }

    /// Parse the text of an identifier.
    pub fn parse(text: &str) -> (r: Result<Self, CoreError>)
        ensures
            match parsed_uuid(text@) {
                Some(v) => r == Ok::<Self, CoreError>(TrackId(v)),
                None => r matches Err(CoreError::InvalidId(t)) && t@ == text@,
            },
    {
        match uuid_parse(text) {
            Some(v) => Ok(TrackId(v)),
            None => Err(CoreError::InvalidId(text.to_owned())),
        }
    }
}

impl std::str::FromStr for TrackId {
    type Err = CoreError;

    fn from_str(text: &str) -> (r: Result<Self, CoreError>)
        ensures
            match parsed_uuid(text@) {
                Some(v) => r == Ok::<Self, CoreError>(TrackId(v)),
                None => r matches Err(CoreError::InvalidId(t)) && t@ == text@,
            },
    {
        TrackId::parse(text)
    }
}

/// One durable chunk file on a track.
#[derive(Debug, Clone, Copy, PartialEq, Eq, Structural, PartialOrd, Ord, Hash)]
pub struct ChunkId(pub u128);

impl ChunkId {
    /// Mint a fresh time-ordered identifier.
    pub fn new() -> (id: Self)
        ensures
            uuid_version(id.0) == 7,
    {
        ChunkId(uuid_now_v7())
    }

    /// Wrap an existing UUID value (for example one read back from disk during recovery).
    pub fn from_u128(value: u128) -> (id: Self)
        ensures
            id.0 == value,
    {
        ChunkId(value)
    }

    /// The UUID value.
    pub fn as_u128(&self) -> (v: u128)
        ensures
            v == self.0,
    {
        self.0
    }

    /// The lowercase hyphenated text, identical on every surface.
    pub fn to_string(&self) -> (s: String)
        ensures
            s@ == uuid_text(self.0),
    {
        uuid_string(self.0)
    }

    /// The identifier as a filesystem path segment; identical to `to_string`.
    pub fn as_path_segment(&self) -> (s: String)
        ensures
            s@ == uuid_text(self.0),
    {
        uuid_string(self.0)
    }

    /// Parse the text of an identifier.
    pub fn parse(text: &str) -> (r: Result<Self, CoreError>)
        ensures
            match parsed_uuid(text@) {
                Some(v) => r == Ok::<Self, CoreError>(ChunkId(v)),
                None => r matches Err(CoreError::InvalidId(t)) && t@ == text@,
            },
    {
        match uuid_parse(text) {
            Some(v) => Ok(ChunkId(v)),
            None => Err(CoreError::InvalidId(text.to_owned())),
        }
    }
}

impl std::str::FromStr for ChunkId {
    type Err = CoreError;

    fn from_str(text: &str) -> (r: Result<Self, CoreError>)
        ensures
            match parsed_uuid(text@) {
                Some(v) => r == Ok::<Self, CoreError>(ChunkId(v)),
                None => r matches Err(CoreError::InvalidId(t)) && t@ == text@,
            },
    {
        ChunkId::parse(text)
    }
}

/// A stored artifact (transcript, summary, consolidated audio, export payload).
#[derive(Debug, Clone, Copy, PartialEq, Eq, Structural, PartialOrd, Ord, Hash)]
pub struct ArtifactId(pub u128);

impl ArtifactId {
    /// Mint a fresh time-ordered identifier.
    pub fn new() -> (id: Self)
        ensures
            uuid_version(id.0) == 7,
    {
        ArtifactId(uuid_now_v7())
    }

    /// Wrap an existing UUID value (for example one read back from disk during recovery).
    pub fn from_u128(value: u128) -> (id: Self)
        ensures
            id.0 == value,
    {
        ArtifactId(value)
    }

    /// The UUID value.
    pub fn as_u128(&self) -> (v: u128)
        ensures
            v == self.0,
    {
        self.0
    }

    /// The lowercase hyphenated text, identical on every surface.
    pub fn to_string(&self) -> (s: String)
        ensures
            s@ == uuid_text(self.0),
    {
        uuid_string(self.0)
    }

    /// The identifier as a filesystem path segment; identical to `to_string`.
    pub fn as_path_segment(&self) -> (s: String)
        ensures
            s@ == uuid_text(self.0),
    {
        uuid_string(self.0)
    }

    /// Parse the text of an identifier.
    pub fn parse(text: &str) -> (r: Result<Self, CoreError>)
        ensures
            match parsed_uuid(text@) {
                Some(v) => r == Ok::<Self, CoreError>(ArtifactId(v)),
                None => r matches Err(CoreError::InvalidId(t)) && t@ == text@,
            },
    {
        match uuid_parse(text) {
            Some(v) => Ok(ArtifactId(v)),
            None => Err(CoreError::InvalidId(text.to_owned())),
        }
    }
}

impl std::str::FromStr for ArtifactId {
    type Err = CoreError;

    fn from_str(text: &str) -> (r: Result<Self, CoreError>)
        ensures
            match parsed_uuid(text@) {
                Some(v) => r == Ok::<Self, CoreError>(ArtifactId(v)),
                None => r matches Err(CoreError::InvalidId(t)) && t@ == text@,
            },
    {
        ArtifactId::parse(text)
    }
}

/// One observed operating-system or extension signal.
#[derive(Debug, Clone, Copy, PartialEq, Eq, Structural, PartialOrd, Ord, Hash)]
pub struct SignalId(pub u128);

impl SignalId {
    /// Mint a fresh time-ordered identifier.
    pub fn new() -> (id: Self)
        ensures
            uuid_version(id.0) == 7,
    {
        SignalId(uuid_now_v7())
    }

    /// Wrap an existing UUID value (for example one read back from disk during recovery).
    pub fn from_u128(value: u128) -> (id: Self)
        ensures
            id.0 == value,
    {
        SignalId(value)
    }

    /// The UUID value.
    pub fn as_u128(&self) -> (v: u128)
        ensures
            v == self.0,
    {
        self.0
    }

    /// The lowercase hyphenated text, identical on every surface.
    pub fn to_string(&self) -> (s: String)
        ensures
            s@ == uuid_text(self.0),
    {
        uuid_string(self.0)
    }

    /// The identifier as a filesystem path segment; identical to `to_string`.
    pub fn as_path_segment(&self) -> (s: String)
        ensures
            s@ == uuid_text(self.0),
    {
        uuid_string(self.0)
    }

    /// Parse the text of an identifier.
    pub fn parse(text: &str) -> (r: Result<Self, CoreError>)
        ensures
            match parsed_uuid(text@) {
                Some(v) => r == Ok::<Self, CoreError>(SignalId(v)),
                None => r matches Err(CoreError::InvalidId(t)) && t@ == text@,
            },
    {
        match uuid_parse(text) {
            Some(v) => Ok(SignalId(v)),
            None => Err(CoreError::InvalidId(text.to_owned())),
        }
    }
}

impl std::str::FromStr for SignalId {
    type Err = CoreError;

    fn from_str(text: &str) -> (r: Result<Self, CoreError>)
        ensures
            match parsed_uuid(text@) {
                Some(v) => r == Ok::<Self, CoreError>(SignalId(v)),
                None => r matches Err(CoreError::InvalidId(t)) && t@ == text@,
            },
    {
        SignalId::parse(text)
    }
}

/// One detector decision, citing the signals it used.
#[derive(Debug, Clone, Copy, PartialEq, Eq, Structural, PartialOrd, Ord, Hash)]
pub struct DecisionId(pub u128);

impl DecisionId {
    /// Mint a fresh time-ordered identifier.
    pub fn new() -> (id: Self)
        ensures
            uuid_version(id.0) == 7,
    {
        DecisionId(uuid_now_v7())
    }

    /// Wrap an existing UUID value (for example one read back from disk during recovery).
    pub fn from_u128(value: u128) -> (id: Self)
        ensures
            id.0 == value,
    {
        DecisionId(value)
    }

    /// The UUID value.
    pub fn as_u128(&self) -> (v: u128)
        ensures
            v == self.0,
    {
        self.0
    }

    /// The lowercase hyphenated text, identical on every surface.
    pub fn to_string(&self) -> (s: String)
        ensures
            s@ == uuid_text(self.0),
    {
        uuid_string(self.0)
    }

    /// The identifier as a filesystem path segment; identical to `to_string`.
    pub fn as_path_segment(&self) -> (s: String)
        ensures
            s@ == uuid_text(self.0),
    {
        uuid_string(self.0)
    }

    /// Parse the text of an identifier.
    pub fn parse(text: &str) -> (r: Result<Self, CoreError>)
        ensures
            match parsed_uuid(text@) {
                Some(v) => r == Ok::<Self, CoreError>(DecisionId(v)),
                None => r matches Err(CoreError::InvalidId(t)) && t@ == text@,
            },
    {
        match uuid_parse(text) {
            Some(v) => Ok(DecisionId(v)),
            None => Err(CoreError::InvalidId(text.to_owned())),
        }
    }
}

impl std::str::FromStr for DecisionId {
    type Err = CoreError;

    fn from_str(text: &str) -> (r: Result<Self, CoreError>)
        ensures
            match parsed_uuid(text@) {
                Some(v) => r == Ok::<Self, CoreError>(DecisionId(v)),
                None => r matches Err(CoreError::InvalidId(t)) && t@ == text@,
            },
    {
        DecisionId::parse(text)
    }
}

/// A configurable artifact root; relocating the root keeps every reference valid.
#[derive(Debug, Clone, Copy, PartialEq, Eq, Structural, PartialOrd, Ord, Hash)]
pub struct RootId(pub u128);

impl RootId {
    /// Mint a fresh time-ordered identifier.
    pub fn new() -> (id: Self)
        ensures
            uuid_version(id.0) == 7,
    {
        RootId(uuid_now_v7())
    }

    /// Wrap an existing UUID value (for example one read back from disk during recovery).
    pub fn from_u128(value: u128) -> (id: Self)
        ensures
            id.0 == value,
    {
        RootId(value)
    }

    /// The UUID value.
    pub fn as_u128(&self) -> (v: u128)
        ensures
            v == self.0,
    {
        self.0
    }

    /// The lowercase hyphenated text, identical on every surface.
    pub fn to_string(&self) -> (s: String)
        ensures
            s@ == uuid_text(self.0),
    {
        uuid_string(self.0)
    }

    /// The identifier as a filesystem path segment; identical to `to_string`.
    pub fn as_path_segment(&self) -> (s: String)
        ensures
            s@ == uuid_text(self.0),
    {
        uuid_string(self.0)
    }

    /// Parse the text of an identifier.
    pub fn parse(text: &str) -> (r: Result<Self, CoreError>)
        ensures
            match parsed_uuid(text@) {
                Some(v) => r == Ok::<Self, CoreError>(RootId(v)),
                None => r matches Err(CoreError::InvalidId(t)) && t@ == text@,
            },
    {
        match uuid_parse(text) {
            Some(v) => Ok(RootId(v)),
            None => Err(CoreError::InvalidId(text.to_owned())),
        }
    }
}

impl std::str::FromStr for RootId {
    type Err = CoreError;

    fn from_str(text: &str) -> (r: Result<Self, CoreError>)
        ensures
            match parsed_uuid(text@) {
                Some(v) => r == Ok::<Self, CoreError>(RootId(v)),
                None => r matches Err(CoreError::InvalidId(t)) && t@ == text@,
            },
    {
        RootId::parse(text)
    }
}

/// Dense per-track chunk sequence number, starting at zero.
#[derive(Debug, Clone, Copy, PartialEq, Eq, Structural, PartialOrd, Ord, Hash)]
pub struct ChunkSeq(pub u32);

impl ChunkSeq {
    /// The next sequence number.
    pub fn next(self) -> (r: Self)
        requires
            self.0 < u32::MAX,
        ensures
            r.0 == self.0 + 1,
    {
        ChunkSeq(self.0 + 1)
    }

    /// The six-digit zero-padded form used in chunk file names.
    pub fn to_string(&self) -> (s: String)
        ensures
            s@ == crate::text::zero_padded_text(self.0 as nat, 6),
    {
        crate::text::zero_padded(self.0 as u64, 6)
    }
}

} // verus!
