//! Verify first, parse second. The wire form is a one-line header followed by the payload bytes:
//! `ma-manifest-v1 <key_id> <signature-hex>\n<payload>`. The header is not JSON, so a
//! captive-portal page fails as `NotAManifest` before anything else happens, and the key id is
//! used for nothing but the key-set lookup.

use crate::chunk_manifest::append_str;
use crate::export_identity::{hex_encode, hex_lower};
use crate::ids::hex_char;
use crate::keys::hex_digit_value;
use crate::text::{lemma_split_append_plain, lemma_split_append_sep};
use crate::keys::{hex_decode, hex_decoded, KeySet};
use crate::text::{push_char, same_text, split_chars, split_on, string_of};
use vstd::prelude::*;
use vstd::utf8::{decode_utf8, encode_scalar, encode_utf8, valid_utf8};

verus! {

/// The first word of every manifest header.
pub const HEADER_PREFIX: &'static str = "ma-manifest-v1";

/// Typed, distinct rejection codes. None of them carries a manifest-declared value.
#[derive(Debug, Clone, Copy, PartialEq, Eq, Structural)]
pub enum RejectCode {
    /// Not our header at all (captive portal, HTML, truncated).
    NotAManifest,
    /// The key id is not in the trusted set: the manifest is signed only by an unknown key.
    UnknownKey,
    /// The signature does not verify: tampered or corrupted.
    Tampered,
    /// Verified but the payload is not a well-formed manifest (schema, hosts, digests).
    Malformed,
    /// The manifest version is not strictly greater than the installed one.
    Downgrade,
    /// A declared artifact digest does not match the file on disk.
    DigestMismatch,
}

/// A payload whose signature verified under a known key: the only input the payload checks take.
#[derive(Debug, Clone, PartialEq, Eq)]
pub struct Verified {
    key_id: String,
    payload: Vec<u8>,
}

impl View for Verified {
    type V = (Seq<char>, Seq<u8>);

    closed spec fn view(&self) -> (Seq<char>, Seq<u8>) {
        (self.key_id@, self.payload@)
    }
}

impl Verified {
    /// The id of the key that verified the payload.
    pub fn key_id(&self) -> (r: &str)
        ensures
            r@ == self@.0,
    {
        self.key_id.as_str()
    }

    /// The verified payload bytes.
    pub fn payload(&self) -> (r: &[u8])
        ensures
            r@ == self@.1,
    {
        self.payload.as_slice()
    }
}

/// `std::str::from_utf8`: the text the bytes encode, when they are valid UTF-8.
#[verifier::external_body]
fn utf8_text(bytes: &[u8]) -> (r: Option<String>)
    ensures
        r is Some <==> valid_utf8(bytes@),
        r matches Some(s) ==> s@ == decode_utf8(bytes@),
{
    std::str::from_utf8(bytes).ok().map(|s| s.to_string())
}

/// Whether an Ed25519 signature verifies a message under a public key, as
/// `VerifyingKey::from_bytes` followed by `Verifier::verify` decides.
pub uninterp spec fn ed25519_accepts(public_key: Seq<u8>, message: Seq<u8>, signature: Seq<u8>) -> bool;

/// `ed25519_dalek::Verifier::verify` of a 64-byte signature under a 32-byte public key.
#[verifier::external_body]
fn ed25519_verify(public_key: &[u8; 32], message: &[u8], signature: &[u8]) -> (ok: bool)
    requires
        signature@.len() == 64,
    ensures
        ok == ed25519_accepts(public_key@, message@, signature@),
{
    match (
        ed25519_dalek::VerifyingKey::from_bytes(public_key),
        ed25519_dalek::Signature::from_slice(signature),
    ) {
        (Ok(key), Ok(sig)) => ed25519_dalek::Verifier::verify(&key, message, &sig).is_ok(),
        _ => false,
    }
}

/// The Ed25519 signature a 32-byte secret key makes over a message.
pub uninterp spec fn ed25519_signature(secret_key: Seq<u8>, message: Seq<u8>) -> Seq<u8>;

/// `ed25519_dalek::Signer::sign` with the signing key of a 32-byte secret: a 64-byte signature.
#[verifier::external_body]
fn ed25519_sign(secret_key: &[u8; 32], message: &[u8]) -> (sig: Vec<u8>)
    ensures
        sig@ == ed25519_signature(secret_key@, message@),
        sig@.len() == 64,
{
    ed25519_dalek::Signer::sign(&ed25519_dalek::SigningKey::from_bytes(secret_key), message).to_bytes().to_vec()
}

/// The first index of byte `x` in `b`, or `b.len()` where it does not occur.
pub open spec fn byte_index(b: Seq<u8>, x: u8) -> int
    decreases b.len(),
{
    if b.len() == 0 {
        0
    } else if b[0] == x {
        0
    } else {
        1 + byte_index(b.drop_first(), x)
    }
}

proof fn lemma_byte_index(b: Seq<u8>, x: u8)
    ensures
        0 <= byte_index(b, x) <= b.len(),
        byte_index(b, x) < b.len() ==> b[byte_index(b, x)] == x,
        forall|k: int| 0 <= k < byte_index(b, x) ==> #[trigger] b[k] != x,
    decreases b.len(),
{
    if b.len() > 0 && b[0] != x {
        lemma_byte_index(b.drop_first(), x);
        assert forall|k: int| 0 <= k < byte_index(b, x) implies #[trigger] b[k] != x by {
            if k > 0 {
                assert(b[k] == b.drop_first()[k - 1]);
            }
        }
    }
}

/// The header's pieces: key id, signature bytes and payload, when the bytes carry our header.
/// The header is the text before the first newline; it must be UTF-8 and read, split on
/// spaces, exactly `ma-manifest-v1`, a non-empty key id and 64 bytes of hexadecimal signature.
pub open spec fn split_spec(bytes: Seq<u8>) -> Option<(Seq<char>, Seq<u8>, Seq<u8>)> {
    let nl = byte_index(bytes, 10u8);
    if nl >= bytes.len() || !valid_utf8(bytes.take(nl)) {
        None
    } else {
        let parts = split_on(decode_utf8(bytes.take(nl)), ' ');
        if parts.len() == 3 && parts[0] == HEADER_PREFIX@ && parts[1].len() > 0 && hex_decoded(
            parts[2],
        ) is Some && hex_decoded(parts[2])->0.len() == 64 {
            Some((parts[1], hex_decoded(parts[2])->0, bytes.skip(nl + 1)))
        } else {
            None
        }
    }
}

/// What verification gives: the header must split, the key id must be trusted and the signature
/// must verify the payload under that key.
pub open spec fn verify_spec(bytes: Seq<u8>, keys: Map<Seq<char>, Seq<u8>>) -> Result<
    (Seq<char>, Seq<u8>),
    RejectCode,
> {
    match split_spec(bytes) {
        None => Err(RejectCode::NotAManifest),
        Some((key_id, signature, payload)) => if !keys.dom().contains(key_id) {
            Err(RejectCode::UnknownKey)
        } else if !ed25519_accepts(keys[key_id], payload, signature) {
            Err(RejectCode::Tampered)
        } else {
            Ok((key_id, payload))
        },
    }
}

fn copy_range(bytes: &[u8], from: usize, to: usize) -> (v: Vec<u8>)
    requires
        from <= to <= bytes@.len(),
    ensures
        v@ == bytes@.subrange(from as int, to as int),
{
    let mut v: Vec<u8> = Vec::new();
    let mut i: usize = from;
    while i < to
        invariant
            from <= i <= to <= bytes@.len(),
            v@ == bytes@.subrange(from as int, i as int),
        decreases to - i,
    {
        v.push(bytes[i]);
        proof {
            assert(bytes@.subrange(from as int, i + 1) =~= bytes@.subrange(from as int, i as int).push(
                bytes@[i as int],
            ));
        }
        i += 1;
    }
    v
}

/// Split the header. Returns the key id, the signature bytes and the payload, without
/// interpreting the payload.
fn split(bytes: &[u8]) -> (r: Result<(String, Vec<u8>, Vec<u8>), RejectCode>)
    ensures
        match split_spec(bytes@) {
            Some((k, s, p)) => r matches Ok((key_id, sig, payload)) && key_id@ == k && sig@ == s
                && payload@ == p,
            None => r == Err::<(String, Vec<u8>, Vec<u8>), RejectCode>(RejectCode::NotAManifest),
        },
{
    let mut nl: usize = 0;
    proof {
        lemma_byte_index(bytes@, 10u8);
    }
    while nl < bytes.len() && bytes[nl] != 10u8
        invariant
            nl <= bytes@.len(),
            nl <= byte_index(bytes@, 10u8),
            0 <= byte_index(bytes@, 10u8) <= bytes@.len(),
            byte_index(bytes@, 10u8) < bytes@.len() ==> bytes@[byte_index(bytes@, 10u8)] == 10u8,
            forall|k: int| 0 <= k < byte_index(bytes@, 10u8) ==> #[trigger] bytes@[k] != 10u8,
        decreases bytes@.len() - nl,
    {
        nl += 1;
    }
    if nl >= bytes.len() {
        return Err(RejectCode::NotAManifest);
    }
    let header_bytes = copy_range(bytes, 0, nl);
    proof {
        assert(header_bytes@ =~= bytes@.take(nl as int));
    }
    let header = match utf8_text(header_bytes.as_slice()) {
        Some(h) => h,
        None => return Err(RejectCode::NotAManifest),
    };
    let cs = crate::text::chars_of(header.as_str());
    let parts = split_chars(&cs, ' ');
    if parts.len() != 3 {
        return Err(RejectCode::NotAManifest);
    }
    let first = string_of(parts[0].as_slice());
    if !same_text(first.as_str(), HEADER_PREFIX) {
        return Err(RejectCode::NotAManifest);
    }
    if parts[1].len() == 0 {
        return Err(RejectCode::NotAManifest);
    }
    let key_id = string_of(parts[1].as_slice());
    let signature_hex = string_of(parts[2].as_slice());
    let signature = match hex_decode(signature_hex.as_str()) {
        Some(s) => s,
        None => return Err(RejectCode::NotAManifest),
    };
    if signature.len() != 64 {
        return Err(RejectCode::NotAManifest);
    }
    let payload = copy_range(bytes, nl + 1, bytes.len());
    proof {
        assert(payload@ =~= bytes@.skip(nl + 1));
    }
    Ok((key_id, signature, payload))
}

/// Verify `bytes` against `keys`. Nothing in the payload is read before the signature verifies.
pub fn verify(bytes: &[u8], keys: &KeySet) -> (r: Result<Verified, RejectCode>)
    requires
        keys.wf(),
    ensures
        match verify_spec(bytes@, keys@) {
            Ok(v) => r matches Ok(ok) && ok@ == v,
            Err(e) => r == Err::<Verified, RejectCode>(e),
        },
{
    let (key_id, signature, payload) = match split(bytes) {
        Ok(parts) => parts,
        Err(e) => return Err(e),
    };
    let key = match keys.get(key_id.as_str()) {
        Some(k) => k,
        None => return Err(RejectCode::UnknownKey),
    };
    if !ed25519_verify(&key, payload.as_slice(), signature.as_slice()) {
        return Err(RejectCode::Tampered);
    }
    Ok(Verified { key_id, payload })
}

/// The header text of a signed manifest.
pub open spec fn header_text(key_id: Seq<char>, signature: Seq<u8>) -> Seq<char> {
    ((HEADER_PREFIX@.push(' ') + key_id).push(' ') + hex_lower(signature))
}

/// The wire form: the header's UTF-8, a newline, then the payload unchanged.
pub open spec fn signed_bytes(payload: Seq<u8>, key_id: Seq<char>, signature: Seq<u8>) -> Seq<u8> {
    encode_utf8(header_text(key_id, signature)).push(10u8) + payload
}

/// Produce the wire form, signing `payload` with the secret key.
pub fn sign(payload: &[u8], key_id: &str, secret_key: &[u8; 32]) -> (out: Vec<u8>)
    ensures
        out@ == signed_bytes(payload@, key_id@, ed25519_signature(secret_key@, payload@)),
{
    let signature = ed25519_sign(secret_key, payload);
    let mut header = String::new();
    append_str(&mut header, HEADER_PREFIX);
    push_char(&mut header, ' ');
    append_str(&mut header, key_id);
    push_char(&mut header, ' ');
    let hex = hex_encode(signature.as_slice());
    append_str(&mut header, hex.as_str());
    proof {
        assert(header@ =~= header_text(key_id@, signature@));
    }
    let header_bytes = header.as_str().as_bytes();
    let mut out: Vec<u8> = Vec::new();
    let mut i: usize = 0;
    while i < header_bytes.len()
        invariant
            i <= header_bytes@.len(),
            header_bytes@ == encode_utf8(header@),
            out@ == header_bytes@.take(i as int),
        decreases header_bytes@.len() - i,
    {
        out.push(header_bytes[i]);
        proof {
            assert(header_bytes@.take(i + 1) =~= header_bytes@.take(i as int).push(header_bytes@[i as int]));
        }
        i += 1;
    }
    proof {
        assert(header_bytes@.take(header_bytes@.len() as int) =~= header_bytes@);
    }
    out.push(10u8);
    let ghost head = out@;
    let mut j: usize = 0;
    while j < payload.len()
        invariant
            j <= payload@.len(),
            out@ == head + payload@.take(j as int),
        decreases payload@.len() - j,
    {
        out.push(payload[j]);
        proof {
            assert(payload@.take(j + 1) =~= payload@.take(j as int).push(payload@[j as int]));
        }
        j += 1;
    }
    proof {
        assert(payload@.take(payload@.len() as int) =~= payload@);
    }
    out
}


proof fn lemma_scalar_no_newline(v: u32)
    requires
        vstd::utf8::is_scalar(v),
        v != 10,
    ensures
        forall|k: int| 0 <= k < encode_scalar(v).len() ==> #[trigger] encode_scalar(v)[k] != 10u8,
{
    if vstd::utf8::has_width_1_encoding(v) {
        assert(((v & 0x7F) as u8) != 10u8) by (bit_vector)
            requires
                v <= 0x7f,
                v != 10,
        ;
    } else {
        assert(forall|y: u8| #![trigger (0x80u8 | y)] (0x80u8 | y) != 10u8) by (bit_vector);
        assert(forall|y: u8| #![trigger (0xC0u8 | y)] (0xC0u8 | y) != 10u8) by (bit_vector);
        assert(forall|y: u8| #![trigger (0xE0u8 | y)] (0xE0u8 | y) != 10u8) by (bit_vector);
        assert(forall|y: u8| #![trigger (0xF0u8 | y)] (0xF0u8 | y) != 10u8) by (bit_vector);
    }
}

proof fn lemma_encode_no_newline(chars: Seq<char>)
    requires
        !chars.contains('\n'),
    ensures
        forall|k: int| 0 <= k < encode_utf8(chars).len() ==> #[trigger] encode_utf8(chars)[k] != 10u8,
    decreases chars.len(),
{
    if chars.len() > 0 {
        let rest = chars.drop_first();
        assert(!rest.contains('\n')) by {
            if rest.contains('\n') {
                let k = choose|k: int| 0 <= k < rest.len() && rest[k] == '\n';
                assert(chars[k + 1] == '\n');
            }
        }
        lemma_encode_no_newline(rest);
        vstd::utf8::char_is_scalar(chars[0]);
        assert(chars[0] != '\n') by {
            assert(chars[0] == chars[0]);
            if chars[0] == '\n' {
                assert(chars.contains('\n'));
            }
        }
        assert((chars[0] as u32) != 10u32) by {
            vstd::utf8::char_u32_cast(chars[0], chars[0] as u32);
        }
        lemma_scalar_no_newline(chars[0] as u32);
        let e = encode_scalar(chars[0] as u32);
        assert forall|k: int| 0 <= k < encode_utf8(chars).len() implies #[trigger] encode_utf8(chars)[k]
            != 10u8 by {
            if k < e.len() {
                assert(encode_utf8(chars)[k] == e[k]);
            } else {
                assert(encode_utf8(chars)[k] == encode_utf8(rest)[k - e.len()]);
            }
        }
    }
}

proof fn lemma_byte_index_at(b: Seq<u8>, x: u8, n: int)
    requires
        0 <= n < b.len(),
        b[n] == x,
        forall|k: int| 0 <= k < n ==> #[trigger] b[k] != x,
    ensures
        byte_index(b, x) == n,
    decreases n,
{
    if n > 0 {
        assert(b[0] != x);
        assert forall|k: int| 0 <= k < n - 1 implies #[trigger] b.drop_first()[k] != x by {
            assert(b.drop_first()[k] == b[k + 1]);
        }
        lemma_byte_index_at(b.drop_first(), x, n - 1);
    }
}

proof fn lemma_hex_char(d: nat)
    requires
        d < 16,
    ensures
        hex_digit_value(hex_char(d)) == Some(d),
        hex_char(d) != ' ',
        hex_char(d) != '\n',
{
    if d < 10 {
        assert(((48 + d) as u8) as nat == 48 + d);
    } else {
        assert(((87 + d) as u8) as nat == 87 + d);
    }
}

proof fn lemma_hex_lower(b: Seq<u8>)
    ensures
        hex_lower(b).len() == 2 * b.len(),
        forall|i: int| 0 <= i < b.len() ==> #[trigger] hex_lower(b)[2 * i] == hex_char((b[i] / 16) as nat)
            && hex_lower(b)[2 * i + 1] == hex_char((b[i] % 16) as nat),
    decreases b.len(),
{
    if b.len() > 0 {
        lemma_hex_lower(b.drop_last());
        let h = hex_lower(b.drop_last());
        assert forall|i: int| 0 <= i < b.len() implies #[trigger] hex_lower(b)[2 * i] == hex_char(
            (b[i] / 16) as nat,
        ) && hex_lower(b)[2 * i + 1] == hex_char((b[i] % 16) as nat) by {
            if i < b.len() - 1 {
                assert(b.drop_last()[i] == b[i]);
                assert(hex_lower(b)[2 * i] == h[2 * i]);
                assert(hex_lower(b)[2 * i + 1] == h[2 * i + 1]);
            }
        }
    }
}

proof fn lemma_hex_roundtrip(b: Seq<u8>)
    ensures
        hex_decoded(hex_lower(b)) == Some(b),
        !hex_lower(b).contains(' '),
        !hex_lower(b).contains('\n'),
{
    lemma_hex_lower(b);
    let h = hex_lower(b);
    assert forall|k: int| 0 <= k < h.len() implies (#[trigger] hex_digit_value(h[k])) is Some && h[k]
        != ' ' && h[k] != '\n' by {
        let i = k / 2;
        assert(0 <= i < b.len());
        assert(h[2 * i] == hex_char((b[i] / 16) as nat));
        lemma_hex_char((b[i] / 16) as nat);
        lemma_hex_char((b[i] % 16) as nat);
        if k % 2 == 0 {
            assert(k == 2 * i);
        } else {
            assert(k == 2 * i + 1);
        }
    }
    let d = Seq::new(
        h.len() / 2,
        |i: int| (hex_digit_value(h[2 * i])->0 * 16 + hex_digit_value(h[2 * i + 1])->0) as u8,
    );
    assert forall|i: int| 0 <= i < b.len() implies d[i] == b[i] by {
        assert(h[2 * i] == hex_char((b[i] / 16) as nat));
        lemma_hex_char((b[i] / 16) as nat);
        lemma_hex_char((b[i] % 16) as nat);
    }
    assert(d =~= b);
    assert(!h.contains(' ')) by {
        if h.contains(' ') {
            let k = choose|k: int| 0 <= k < h.len() && h[k] == ' ';
            assert(hex_digit_value(h[k]) is Some);
        }
    }
    assert(!h.contains('\n')) by {
        if h.contains('\n') {
            let k = choose|k: int| 0 <= k < h.len() && h[k] == '\n';
            assert(hex_digit_value(h[k]) is Some);
        }
    }
}

/// The signed wire form carries exactly its parts: the header reads back the key id and the
/// signature, and the payload follows the first newline unchanged. So what `sign` writes,
/// `verify` splits back, for any key id that is not empty and holds no space or newline.
pub proof fn law_signed_bytes_split_back(payload: Seq<u8>, key_id: Seq<char>, signature: Seq<u8>)
    requires
        key_id.len() > 0,
        !key_id.contains(' '),
        !key_id.contains('\n'),
        signature.len() == 64,
    ensures
        split_spec(signed_bytes(payload, key_id, signature)) == Some((key_id, signature, payload)),
{
    reveal_strlit("ma-manifest-v1");
    let prefix = HEADER_PREFIX@;
    let hexs = hex_lower(signature);
    lemma_hex_roundtrip(signature);
    let h = header_text(key_id, signature);
    assert(!prefix.contains(' ') && !prefix.contains('\n')) by {
        assert forall|k: int| 0 <= k < prefix.len() implies prefix[k] != ' ' && prefix[k] != '\n' by {}
    }
    assert(!h.contains('\n')) by {
        if h.contains('\n') {
            let k = choose|k: int| 0 <= k < h.len() && h[k] == '\n';
            if k < prefix.len() {
                assert(prefix[k] == h[k]);
            } else if k == prefix.len() {
            } else if k < prefix.len() + 1 + key_id.len() {
                assert(key_id[k - prefix.len() - 1] == h[k]);
            } else if k == prefix.len() + 1 + key_id.len() {
            } else {
                assert(hexs[k - prefix.len() - 2 - key_id.len()] == h[k]);
            }
        }
    }
    let e = encode_utf8(h);
    lemma_encode_no_newline(h);
    let bytes = signed_bytes(payload, key_id, signature);
    assert(bytes[e.len() as int] == 10u8);
    assert forall|k: int| 0 <= k < e.len() implies #[trigger] bytes[k] != 10u8 by {
        assert(bytes[k] == e[k]);
    }
    lemma_byte_index_at(bytes, 10u8, e.len() as int);
    assert(bytes.take(e.len() as int) =~= e);
    assert(bytes.skip(e.len() as int + 1) =~= payload);
    vstd::utf8::encode_utf8_valid_utf8(h);
    vstd::utf8::encode_utf8_decode_utf8(h);
    let empty = Seq::<char>::empty();
    lemma_split_append_plain(empty, prefix, ' ');
    assert(empty + prefix =~= prefix);
    assert(split_on(empty, ' ') =~= seq![empty]);
    assert(split_on(prefix, ' ') =~= seq![prefix]);
    lemma_split_append_sep(prefix, ' ');
    lemma_split_append_plain(prefix.push(' '), key_id, ' ');
    assert(split_on(prefix.push(' ') + key_id, ' ') =~= seq![prefix, key_id]);
    lemma_split_append_sep(prefix.push(' ') + key_id, ' ');
    lemma_split_append_plain((prefix.push(' ') + key_id).push(' '), hexs, ' ');
    assert(split_on(h, ' ') =~= seq![prefix, key_id, hexs]);
}

} // verus!
