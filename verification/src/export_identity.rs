//! Export identity: the key every remote object is stamped with, and the recorded identity.

use crate::ids::{hex_char, uuid_text, ArtifactId, SessionId};
use crate::text::decimal_text;
use sha2::Digest;
use vstd::prelude::*;
use vstd::utf8::encode_utf8;

verus! {

/// What SHA-256 gives for a message.
pub uninterp spec fn sha256_of(message: Seq<u8>) -> Seq<u8>;

/// `Sha256::digest`: the 32-byte SHA-256 digest of the message.
#[verifier::external_body]
pub(crate) fn sha256(message: &[u8]) -> (d: Vec<u8>)
    ensures
        d@ == sha256_of(message@),
        d@.len() == 32,
{
    sha2::Sha256::digest(message).to_vec()
}

/// Lowercase hexadecimal, two digits per byte, most significant digit first.
pub open spec fn hex_lower(bytes: Seq<u8>) -> Seq<char>
    decreases bytes.len(),
{
    if bytes.len() == 0 {
        Seq::empty()
    } else {
        hex_lower(bytes.drop_last()) + seq![
            hex_char((bytes.last() / 16) as nat),
            hex_char((bytes.last() % 16) as nat),
        ]
    }
}

/// `hex::encode`: each byte as two lowercase hexadecimal digits, in order.
#[verifier::external_body]
pub(crate) fn hex_encode(bytes: &[u8]) -> (s: String)
    ensures
        s@ == hex_lower(bytes@),
{
    hex::encode(bytes)
}

/// `hash(session_id, artifact_id, artifact_version, destination_id, destination_config_hash)`.
#[derive(Debug, Clone, PartialEq, Eq, Hash, PartialOrd, Ord)]
pub struct ExportKey(pub String);

/// The message the key hashes: each part's UTF-8 text followed by a zero byte.
pub open spec fn key_material(
    session_id: u128,
    artifact_id: u128,
    artifact_version: u32,
    destination_id: Seq<char>,
    config_hash: Seq<char>,
) -> Seq<u8> {
    encode_utf8(uuid_text(session_id)) + seq![0u8] + encode_utf8(uuid_text(artifact_id)) + seq![0u8]
        + encode_utf8(decimal_text(artifact_version as nat)) + seq![0u8] + encode_utf8(destination_id)
        + seq![0u8] + encode_utf8(config_hash) + seq![0u8]
}

/// The export key: the lowercase hex SHA-256 of the key material.
pub open spec fn export_key_text(
    session_id: u128,
    artifact_id: u128,
    artifact_version: u32,
    destination_id: Seq<char>,
    config_hash: Seq<char>,
) -> Seq<char> {
    hex_lower(sha256_of(key_material(session_id, artifact_id, artifact_version, destination_id, config_hash)))
}

/// Append the UTF-8 bytes of `text` and a zero byte.
fn append_part(message: &mut Vec<u8>, text: &str)
    ensures
        final(message)@ == old(message)@ + encode_utf8(text@) + seq![0u8],
{
    let bytes = text.as_bytes();
    let mut i: usize = 0;
    let ghost start = message@;
    while i < bytes.len()
        invariant
            i <= bytes@.len(),
            bytes@ == encode_utf8(text@),
            message@ == start + bytes@.take(i as int),
        decreases bytes@.len() - i,
    {
        message.push(bytes[i]);
        assert(bytes@.take(i + 1) =~= bytes@.take(i as int).push(bytes@[i as int]));
        i += 1;
    }
    assert(bytes@.take(bytes@.len() as int) =~= bytes@);
    message.push(0);
}

impl ExportKey {
    /// The key of an export: a function of the session, the artifact and its version, the
    /// destination and the destination's configuration, and of nothing else.
    pub fn compute(
        session_id: SessionId,
        artifact_id: ArtifactId,
        artifact_version: u32,
        destination_id: &str,
        config_hash: &str,
    ) -> (k: ExportKey)
        ensures
            k.0@ == export_key_text(session_id.0, artifact_id.0, artifact_version, destination_id@, config_hash@),
    {
        let mut message: Vec<u8> = Vec::new();
        let s = session_id.to_string();
        append_part(&mut message, s.as_str());
        let a = artifact_id.to_string();
        append_part(&mut message, a.as_str());
        let v = crate::text::decimal(artifact_version as u64);
        append_part(&mut message, v.as_str());
        append_part(&mut message, destination_id);
        append_part(&mut message, config_hash);
        assert(message@ =~= key_material(session_id.0, artifact_id.0, artifact_version, destination_id@, config_hash@));
        let digest = sha256(message.as_slice());
        ExportKey(hex_encode(digest.as_slice()))
    }

    /// An equal key.
    pub fn duplicate(&self) -> (k: ExportKey)
        ensures
            k == *self,
    {
        ExportKey(self.0.clone())
    }
}

/// What the destination gave back and what a post-crash lookup must be able to find again.
#[derive(Debug, Clone, PartialEq, Eq)]
pub struct RemoteIdentity {
    pub destination_id: String,
    pub remote_id: String,
    /// The export key as stamped on the remote object (app property / external id).
    pub external_id: String,
    /// A resumable upload session, persisted before the upload completes.
    pub resumable_session: Option<String>,
}

impl RemoteIdentity {
    /// An equal identity.
    pub fn duplicate(&self) -> (r: RemoteIdentity)
        ensures
            r == *self,
    {
        RemoteIdentity {
            destination_id: self.destination_id.clone(),
            remote_id: self.remote_id.clone(),
            external_id: self.external_id.clone(),
            resumable_session: match &self.resumable_session {
                Some(s) => Some(s.clone()),
                None => None,
            },
        }
    }
}

/// One export to one destination.
#[derive(Debug, Clone, PartialEq, Eq)]
pub struct ExportRequest {
    pub key: ExportKey,
    pub session_id: SessionId,
    pub artifact_id: ArtifactId,
    pub artifact_version: u32,
    pub destination_id: String,
    pub bytes: u64,
}

impl ExportRequest {
    /// The request, stamped with its export key.
    pub fn new(
        session_id: SessionId,
        artifact_id: ArtifactId,
        artifact_version: u32,
        destination_id: &str,
        config_hash: &str,
        bytes: u64,
    ) -> (r: ExportRequest)
        ensures
            r.key.0@ == export_key_text(session_id.0, artifact_id.0, artifact_version, destination_id@, config_hash@),
            r.session_id == session_id,
            r.artifact_id == artifact_id,
            r.artifact_version == artifact_version,
            r.destination_id@ == destination_id@,
            r.bytes == bytes,
    {
        ExportRequest {
            key: ExportKey::compute(session_id, artifact_id, artifact_version, destination_id, config_hash),
            session_id,
            artifact_id,
            artifact_version,
            destination_id: destination_id.to_owned(),
            bytes,
        }
    }
}

} // verus!
