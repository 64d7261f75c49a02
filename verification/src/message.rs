//! The message an extension may post. Unknown fields are rejected, so a URL or a page title
//! cannot ride along.

use crate::command::{digits_from, parse_digits, IntError};
use vstd::prelude::*;

verus! {

pub const MAX_HOST_LEN: usize = 253;

pub const MAX_TAB_KEY_LEN: usize = 64;

/// A top-level value of a JSON object, as far as a message reads it.
pub enum JsonField {
    Null,
    Bool(bool),
    /// A number, in the JSON parser's text form.
    Number(String),
    Text(String),
    /// An array or an object.
    Nested,
}

pub enum JsonFieldView {
    Null,
    Bool(bool),
    Number(Seq<char>),
    Text(Seq<char>),
    Nested,
}

impl View for JsonField {
    type V = JsonFieldView;

    open spec fn view(&self) -> JsonFieldView {
        match self {
            JsonField::Null => JsonFieldView::Null,
            JsonField::Bool(b) => JsonFieldView::Bool(*b),
            JsonField::Number(t) => JsonFieldView::Number(t@),
            JsonField::Text(t) => JsonFieldView::Text(t@),
            JsonField::Nested => JsonFieldView::Nested,
        }
    }
}

pub open spec fn fields_view(fields: Seq<(String, JsonField)>) -> Seq<(Seq<char>, JsonFieldView)> {
    fields.map_values(|f: (String, JsonField)| (f.0@, f.1@))
}

/// What `serde_json` reads from `body` as a `Value`: `None` unless the body is one JSON object;
/// else its members (keys distinct) with each value's kind, numbers in their text form.
pub uninterp spec fn json_object_fields(body: Seq<u8>) -> Option<Seq<(Seq<char>, JsonFieldView)>>;

/// `serde_json::from_slice` into a `Value`, keeping only a top-level object's members.
#[verifier::external_body]
fn parse_json_object(body: &[u8]) -> (r: Option<Vec<(String, JsonField)>>)
    ensures
        match r {
            Some(fields) => json_object_fields(body@) == Some(fields_view(fields@)),
            None => json_object_fields(body@) is None,
        },
{
    match serde_json::from_slice::<serde_json::Value>(body) {
        Ok(serde_json::Value::Object(map)) => Some(
            map.into_iter().map(|(k, v)| (k, match v {
                serde_json::Value::Null => JsonField::Null,
                serde_json::Value::Bool(b) => JsonField::Bool(b),
                serde_json::Value::Number(n) => JsonField::Number(n.to_string()),
                serde_json::Value::String(t) => JsonField::Text(t),
                _ => JsonField::Nested,
            })).collect(),
        ),
        _ => None,
    }
}

/// The message as posted.
#[derive(Debug, Clone, PartialEq, Eq)]
pub struct ExtensionMessage {
    /// The extension instance (a browser session); `seq` is strictly increasing per instance.
    pub instance_id: String,
    /// Per-instance strictly increasing sequence.
    pub seq: u64,
    /// The extension's observation time, Unix milliseconds; older than the freshness window is dropped.
    pub observed_at_ms: i64,
    /// Hostname only. Never a full URL.
    pub host: String,
    /// Opaque per-tab key chosen by the extension; never a title.
    pub tab_key: String,
    pub audible: bool,
    pub meeting_present: bool,
}

/// Why a body is not a message.
#[derive(Debug, Clone, Copy, PartialEq, Eq, Structural)]
pub enum MessageError {
    NotJson,
    HostNotAHostname,
    TabKeyTooLong,
    InstanceIdInvalid,
}

pub struct MessageView {
    pub instance_id: Seq<char>,
    pub seq: u64,
    pub observed_at_ms: i64,
    pub host: Seq<char>,
    pub tab_key: Seq<char>,
    pub audible: bool,
    pub meeting_present: bool,
}

impl View for ExtensionMessage {
    type V = MessageView;

    open spec fn view(&self) -> MessageView {
        MessageView {
            instance_id: self.instance_id@,
            seq: self.seq,
            observed_at_ms: self.observed_at_ms,
            host: self.host@,
            tab_key: self.tab_key@,
            audible: self.audible,
            meeting_present: self.meeting_present,
        }
    }
}

/// The seven member names of a message.
pub open spec fn is_message_key(k: Seq<char>) -> bool {
    ||| k == "instance_id"@
    ||| k == "seq"@
    ||| k == "observed_at_ms"@
    ||| k == "host"@
    ||| k == "tab_key"@
    ||| k == "audible"@
    ||| k == "meeting_present"@
}

/// The value of member `k`, if present (the first, though keys are distinct).
pub open spec fn member(fields: Seq<(Seq<char>, JsonFieldView)>, k: Seq<char>, i: int) -> Option<
    JsonFieldView,
>
    decreases fields.len() - i,
{
    if i < 0 || i >= fields.len() {
        None
    } else if fields[i].0 == k {
        Some(fields[i].1)
    } else {
        member(fields, k, i + 1)
    }
}

pub open spec fn text_member(fields: Seq<(Seq<char>, JsonFieldView)>, k: Seq<char>) -> Option<Seq<char>> {
    match member(fields, k, 0) {
        Some(JsonFieldView::Text(t)) => Some(t),
        _ => None,
    }
}

pub open spec fn bool_member(fields: Seq<(Seq<char>, JsonFieldView)>, k: Seq<char>) -> Option<bool> {
    match member(fields, k, 0) {
        Some(JsonFieldView::Bool(b)) => Some(b),
        _ => None,
    }
}

/// A JSON number read as a `u64`: a non-negative integer in range.
pub open spec fn u64_of_number(t: Seq<char>) -> Option<u64> {
    if t.len() == 0 {
        None
    } else {
        match digits_from(t, 0, 0) {
            Ok(n) => Some(n),
            Err(_) => None,
        }
    }
}

/// A JSON number read as an `i64`: an integer in range.
pub open spec fn i64_of_number(t: Seq<char>) -> Option<i64> {
    if t.len() > 1 && t[0] == '-' {
        match digits_from(t, 1, 0) {
            Ok(m) => if m <= 0x8000_0000_0000_0000u64 {
                Some((0 - m) as i64)
            } else {
                None
            },
            Err(_) => None,
        }
    } else if t.len() > 0 {
        match digits_from(t, 0, 0) {
            Ok(m) => if m <= i64::MAX {
                Some(m as i64)
            } else {
                None
            },
            Err(_) => None,
        }
    } else {
        None
    }
}

pub open spec fn u64_member(fields: Seq<(Seq<char>, JsonFieldView)>, k: Seq<char>) -> Option<u64> {
    match member(fields, k, 0) {
        Some(JsonFieldView::Number(t)) => u64_of_number(t),
        _ => None,
    }
}

pub open spec fn i64_member(fields: Seq<(Seq<char>, JsonFieldView)>, k: Seq<char>) -> Option<i64> {
    match member(fields, k, 0) {
        Some(JsonFieldView::Number(t)) => i64_of_number(t),
        _ => None,
    }
}

/// The message a body holds, if it is exactly one JSON object with the seven members of the
/// right types and no other.
pub open spec fn decoded_message(body: Seq<u8>) -> Option<MessageView> {
    match json_object_fields(body) {
        None => None,
        Some(fs) => if (forall|i: int| 0 <= i < fs.len() ==> is_message_key(#[trigger] fs[i].0))
            && text_member(fs, "instance_id"@) is Some && u64_member(fs, "seq"@) is Some
            && i64_member(fs, "observed_at_ms"@) is Some && text_member(fs, "host"@) is Some
            && text_member(fs, "tab_key"@) is Some && bool_member(fs, "audible"@) is Some
            && bool_member(fs, "meeting_present"@) is Some {
            Some(
                MessageView {
                    instance_id: text_member(fs, "instance_id"@)->0,
                    seq: u64_member(fs, "seq"@)->0,
                    observed_at_ms: i64_member(fs, "observed_at_ms"@)->0,
                    host: text_member(fs, "host"@)->0,
                    tab_key: text_member(fs, "tab_key"@)->0,
                    audible: bool_member(fs, "audible"@)->0,
                    meeting_present: bool_member(fs, "meeting_present"@)->0,
                },
            )
        } else {
            None
        },
    }
}

pub open spec fn is_host_char(c: char) -> bool {
    ('a' <= c && c <= 'z') || ('A' <= c && c <= 'Z') || ('0' <= c && c <= '9') || c == '-'
}

/// A hostname: 1 to 253 bytes of dot-separated labels, each non-empty and made of ASCII letters,
/// digits and hyphens (so bytes and characters agree, and no scheme, path, query or fragment can
/// appear).
pub open spec fn is_hostname_spec(h: Seq<char>) -> bool {
    &&& 0 < h.len() <= MAX_HOST_LEN
    &&& forall|i: int| 0 <= i < h.len() ==> is_host_char(#[trigger] h[i]) || h[i] == '.'
    &&& h[0] != '.'
    &&& h[h.len() - 1] != '.'
    &&& forall|i: int| 0 <= i < h.len() - 1 ==> (#[trigger] h[i] == '.' ==> h[i + 1] != '.')
}

/// How many bytes UTF-8 takes for `c`.
pub open spec fn utf8_width(c: char) -> nat {
    if (c as u32) < 0x80 {
        1
    } else if (c as u32) < 0x800 {
        2
    } else if (c as u32) < 0x10000 {
        3
    } else {
        4
    }
}

/// How many bytes UTF-8 takes for the first `n` characters of `s`.
pub open spec fn utf8_len(s: Seq<char>, n: int) -> nat
    decreases n,
{
    if n <= 0 || n > s.len() {
        0
    } else {
        utf8_len(s, n - 1) + utf8_width(s[n - 1])
    }
}

/// A tab key: 1 to 64 bytes.
pub open spec fn is_tab_key_spec(t: Seq<char>) -> bool {
    0 < utf8_len(t, t.len() as int) <= MAX_TAB_KEY_LEN
}

pub open spec fn is_instance_char(c: char) -> bool {
    ('a' <= c && c <= 'z') || ('A' <= c && c <= 'Z') || ('0' <= c && c <= '9') || c == '-' || c
        == '_'
}

/// An instance id: 1 to 64 bytes of ASCII letters, digits, `-` and `_` (bytes and characters
/// agree).
pub open spec fn is_instance_id_spec(t: Seq<char>) -> bool {
    &&& 0 < t.len() <= MAX_TAB_KEY_LEN
    &&& forall|i: int| 0 <= i < t.len() ==> is_instance_char(#[trigger] t[i])
}

/// The outcome of parsing `body`: the first failed check in order (JSON shape, host, tab key,
/// instance id), else the message.
pub open spec fn message_spec(body: Seq<u8>) -> Result<MessageView, MessageError> {
    match decoded_message(body) {
        None => Err(MessageError::NotJson),
        Some(m) => if !is_hostname_spec(m.host) {
            Err(MessageError::HostNotAHostname)
        } else if !is_tab_key_spec(m.tab_key) {
            Err(MessageError::TabKeyTooLong)
        } else if !is_instance_id_spec(m.instance_id) {
            Err(MessageError::InstanceIdInvalid)
        } else {
            Ok(m)
        },
    }
}

proof fn lemma_member_step(fs: Seq<(Seq<char>, JsonFieldView)>, k: Seq<char>, i: int)
    requires
        0 <= i < fs.len(),
        fs[i].0 != k,
    ensures
        member(fs, k, i) == member(fs, k, i + 1),
{
}

/// The value of member `key`.
fn find_member<'a>(fields: &'a Vec<(String, JsonField)>, key: &str) -> (r: Option<&'a JsonField>)
    ensures
        match r {
            Some(v) => member(fields_view(fields@), key@, 0) == Some(v@),
            None => member(fields_view(fields@), key@, 0) is None,
        },
{
    let ghost fs = fields_view(fields@);
    let mut i: usize = 0;
    while i < fields.len()
        invariant
            i <= fields@.len(),
            fs == fields_view(fields@),
            member(fs, key@, 0) == member(fs, key@, i as int),
        decreases fields@.len() - i,
    {
        if crate::text::same_text(fields[i].0.as_str(), key) {
            return Some(&fields[i].1);
        }
        proof {
            lemma_member_step(fs, key@, i as int);
        }
        i += 1;
    }
    None
}

fn text_value(fields: &Vec<(String, JsonField)>, key: &str) -> (r: Option<String>)
    ensures
        match r {
            Some(t) => text_member(fields_view(fields@), key@) == Some(t@),
            None => text_member(fields_view(fields@), key@) is None,
        },
{
    match find_member(fields, key) {
        Some(JsonField::Text(t)) => Some(t.clone()),
        _ => None,
    }
}

fn bool_value(fields: &Vec<(String, JsonField)>, key: &str) -> (r: Option<bool>)
    ensures
        r == bool_member(fields_view(fields@), key@),
{
    match find_member(fields, key) {
        Some(JsonField::Bool(b)) => Some(*b),
        _ => None,
    }
}

fn u64_value(fields: &Vec<(String, JsonField)>, key: &str) -> (r: Option<u64>)
    ensures
        r == u64_member(fields_view(fields@), key@),
{
    match find_member(fields, key) {
        Some(JsonField::Number(t)) => {
            let cs = crate::text::chars_of(t.as_str());
            if cs.len() == 0 {
                return None;
            }
            match parse_digits(&cs, 0) {
                Ok(n) => Some(n),
                Err(_) => None,
            }
        },
        _ => None,
    }
}

fn i64_value(fields: &Vec<(String, JsonField)>, key: &str) -> (r: Option<i64>)
    ensures
        r == i64_member(fields_view(fields@), key@),
{
    match find_member(fields, key) {
        Some(JsonField::Number(t)) => {
            let cs = crate::text::chars_of(t.as_str());
            if cs.len() > 1 && cs[0] == '-' {
                match parse_digits(&cs, 1) {
                    Ok(m) => if m <= 0x8000_0000_0000_0000u64 {
                        if m == 0x8000_0000_0000_0000u64 {
                            Some(i64::MIN)
                        } else {
                            Some(0 - (m as i64))
                        }
                    } else {
                        None
                    },
                    Err(_) => None,
                }
            } else if cs.len() > 0 {
                match parse_digits(&cs, 0) {
                    Ok(m) => if m <= 0x7fff_ffff_ffff_ffffu64 {
                        Some(m as i64)
                    } else {
                        None
                    },
                    Err(_) => None,
                }
            } else {
                None
            }
        },
        _ => None,
    }
}

/// Whether every member name is one of the seven.
fn only_message_keys(fields: &Vec<(String, JsonField)>) -> (r: bool)
    ensures
        r == (forall|i: int|
            0 <= i < fields_view(fields@).len() ==> is_message_key(#[trigger] fields_view(fields@)[i].0)),
{
    let ghost fs = fields_view(fields@);
    let mut i: usize = 0;
    while i < fields.len()
        invariant
            i <= fields@.len(),
            fs == fields_view(fields@),
            forall|j: int| 0 <= j < i ==> is_message_key(#[trigger] fs[j].0),
        decreases fields@.len() - i,
    {
        let k = fields[i].0.as_str();
        let known = crate::text::same_text(k, "instance_id") || crate::text::same_text(k, "seq")
            || crate::text::same_text(k, "observed_at_ms") || crate::text::same_text(k, "host")
            || crate::text::same_text(k, "tab_key") || crate::text::same_text(k, "audible")
            || crate::text::same_text(k, "meeting_present");
        if !known {
            assert(!is_message_key(fs[i as int].0));
            return false;
        }
        i += 1;
    }
    true
}

/// Whether `host` is a bare hostname.
pub fn is_hostname(host: &str) -> (r: bool)
    ensures
        r == is_hostname_spec(host@),
{
    let cs = crate::text::chars_of(host);
    if cs.len() == 0 || cs.len() > MAX_HOST_LEN {
        return false;
    }
    if cs[0] == '.' || cs[cs.len() - 1] == '.' {
        return false;
    }
    let mut i: usize = 0;
    while i < cs.len()
        invariant
            i <= cs@.len(),
            cs@ == host@,
            cs@.len() > 0,
            forall|j: int| 0 <= j < i ==> is_host_char(#[trigger] cs@[j]) || cs@[j] == '.',
            forall|j: int| 0 <= j < i && j < cs@.len() - 1 ==> (#[trigger] cs@[j] == '.' ==> cs@[j + 1] != '.'),
        decreases cs@.len() - i,
    {
        let c = cs[i];
        let ok = ('a' <= c && c <= 'z') || ('A' <= c && c <= 'Z') || ('0' <= c && c <= '9') || c
            == '-' || c == '.';
        if !ok {
            return false;
        }
        if c == '.' && i + 1 < cs.len() && cs[i + 1] == '.' {
            return false;
        }
        i += 1;
    }
    true
}

fn is_instance_id(id: &str) -> (r: bool)
    ensures
        r == is_instance_id_spec(id@),
{
    let cs = crate::text::chars_of(id);
    if cs.len() == 0 || cs.len() > MAX_TAB_KEY_LEN {
        return false;
    }
    let mut i: usize = 0;
    while i < cs.len()
        invariant
            i <= cs@.len(),
            cs@ == id@,
            forall|j: int| 0 <= j < i ==> is_instance_char(#[trigger] cs@[j]),
        decreases cs@.len() - i,
    {
        let c = cs[i];
        if !(('a' <= c && c <= 'z') || ('A' <= c && c <= 'Z') || ('0' <= c && c <= '9') || c == '-'
            || c == '_') {
            return false;
        }
        i += 1;
    }
    true
}

proof fn lemma_utf8_len_grows(s: Seq<char>, i: int, j: int)
    requires
        0 <= i <= j <= s.len(),
    ensures
        utf8_len(s, i) <= utf8_len(s, j),
    decreases j - i,
{
    if i < j {
        lemma_utf8_len_grows(s, i, j - 1);
    }
}

/// Whether `text` is a tab key: 1 to 64 bytes of UTF-8.
fn is_tab_key(text: &str) -> (r: bool)
    ensures
        r == is_tab_key_spec(text@),
{
    let cs = crate::text::chars_of(text);
    let mut n: u64 = 0;
    let mut i: usize = 0;
    while i < cs.len()
        invariant
            i <= cs@.len(),
            cs@ == text@,
            n == utf8_len(cs@, i as int),
            n <= MAX_TAB_KEY_LEN,
        decreases cs@.len() - i,
    {
        let c = cs[i] as u32;
        let w: u64 = if c < 0x80 {
            1
        } else if c < 0x800 {
            2
        } else if c < 0x10000 {
            3
        } else {
            4
        };
        n = n + w;
        i += 1;
        if n > MAX_TAB_KEY_LEN as u64 {
            proof {
                lemma_utf8_len_grows(cs@, i as int, cs@.len() as int);
            }
            return false;
        }
    }
    n > 0
}

pub open spec fn message_result_view(r: Result<ExtensionMessage, MessageError>) -> Result<
    MessageView,
    MessageError,
> {
    match r {
        Ok(m) => Ok(m@),
        Err(e) => Err(e),
    }
}

impl ExtensionMessage {
    /// Parse and validate a request body. The parse error payload is never retained.
    pub fn parse(body: &[u8]) -> (r: Result<ExtensionMessage, MessageError>)
        ensures
            message_result_view(r) == message_spec(body@),
    {
        let fields = match parse_json_object(body) {
            Some(f) => f,
            None => return Err(MessageError::NotJson),
        };
        if !only_message_keys(&fields) {
            return Err(MessageError::NotJson);
        }
        let instance_id = match text_value(&fields, "instance_id") {
            Some(v) => v,
            None => return Err(MessageError::NotJson),
        };
        let seq = match u64_value(&fields, "seq") {
            Some(v) => v,
            None => return Err(MessageError::NotJson),
        };
        let observed_at_ms = match i64_value(&fields, "observed_at_ms") {
            Some(v) => v,
            None => return Err(MessageError::NotJson),
        };
        let host = match text_value(&fields, "host") {
            Some(v) => v,
            None => return Err(MessageError::NotJson),
        };
        let tab_key = match text_value(&fields, "tab_key") {
            Some(v) => v,
            None => return Err(MessageError::NotJson),
        };
        let audible = match bool_value(&fields, "audible") {
            Some(v) => v,
            None => return Err(MessageError::NotJson),
        };
        let meeting_present = match bool_value(&fields, "meeting_present") {
            Some(v) => v,
            None => return Err(MessageError::NotJson),
        };
        let message = ExtensionMessage {
            instance_id,
            seq,
            observed_at_ms,
            host,
            tab_key,
            audible,
            meeting_present,
        };
        if !is_hostname(message.host.as_str()) {
            return Err(MessageError::HostNotAHostname);
        }
        if !is_tab_key(message.tab_key.as_str()) {
            return Err(MessageError::TabKeyTooLong);
        }
        if !is_instance_id(message.instance_id.as_str()) {
            return Err(MessageError::InstanceIdInvalid);
        }
        Ok(message)
    }
}

} // verus!
