//! Rollback protection, key rollover, digest-gated adapter activation and update deferral: every
//! decision is made on this machine.

use crate::export_identity::{hex_encode, hex_lower, sha256, sha256_of};
use crate::keys::{hex_key_spec, parse_hex_key, KeySet};
use crate::manifest::{AdapterManifest, UpdateManifest};
use crate::manifest_verify::RejectCode;
use crate::text::{chars_of, push_char, same_text};
use vstd::prelude::*;

verus! {

/// Strictly greater than installed, unless the user explicitly confirmed a downgrade.
pub fn check_version(manifest_version: u64, installed: u64, downgrade_confirmed: bool) -> (r: Result<
    (),
    RejectCode,
>)
    ensures
        r == (if manifest_version > installed || downgrade_confirmed {
            Ok::<(), RejectCode>(())
        } else {
            Err(RejectCode::Downgrade)
        }),
{
    if manifest_version > installed || downgrade_confirmed {
        Ok(())
    } else {
        Err(RejectCode::Downgrade)
    }
}

/// What to do with a verified, newer update.
#[derive(Debug, Clone, PartialEq, Eq)]
pub enum UpdateDecision {
    /// Verified, newer, and safe to apply now.
    Apply(UpdateManifest),
    /// Verified and newer, but it replaces the engine while a session is non-terminal.
    Deferred(UpdateManifest),
}

/// The client-side updater. Holds the key set so a rollover can extend it.
pub struct Updater {
    pub keys: KeySet,
    /// 0 when no installed manifest is known: a full verification is still required.
    pub installed_manifest_version: u64,
}

impl Updater {
    /// An updater trusting `keys`, with the given manifest version installed.
    pub fn new(keys: KeySet, installed_manifest_version: u64) -> (u: Updater)
        ensures
            u.keys == keys,
            u.installed_manifest_version == installed_manifest_version,
    {
        Updater { keys, installed_manifest_version }
    }

    /// Decide on a verified, well-formed update payload: refuse a downgrade, take in the key a
    /// rollover introduces, and defer an engine replacement while a session is non-terminal.
    /// Nothing is installed here, so the installed version does not change.
    pub fn decide(
        &mut self,
        manifest: UpdateManifest,
        session_non_terminal: bool,
        downgrade_confirmed: bool,
    ) -> (r: Result<UpdateDecision, RejectCode>)
        requires
            old(self).keys.wf(),
        ensures
            final(self).keys.wf(),
            final(self).installed_manifest_version == old(self).installed_manifest_version,
            !(manifest.manifest_version > old(self).installed_manifest_version || downgrade_confirmed)
                ==> r == Err::<UpdateDecision, RejectCode>(RejectCode::Downgrade) && final(self).keys@
                == old(self).keys@,
            (manifest.manifest_version > old(self).installed_manifest_version || downgrade_confirmed)
                ==> match manifest.key_rollover {
                None => final(self).keys@ == old(self).keys@,
                Some(rollover) => match hex_key_spec(rollover.next_public_key@) {
                    None => r == Err::<UpdateDecision, RejectCode>(RejectCode::Malformed)
                        && final(self).keys@ == old(self).keys@,
                    Some(k) => final(self).keys@ == old(self).keys@.insert(rollover.next_key_id@, k),
                },
            },
            r is Ok ==> r == Ok::<UpdateDecision, RejectCode>(
                if manifest.engine_replacement && session_non_terminal {
                    UpdateDecision::Deferred(manifest)
                } else {
                    UpdateDecision::Apply(manifest)
                },
            ),
            (manifest.manifest_version > old(self).installed_manifest_version || downgrade_confirmed)
                && (manifest.key_rollover matches Some(rollover) ==> hex_key_spec(
                rollover.next_public_key@,
            ) is Some) ==> r is Ok,
    {
        match check_version(manifest.manifest_version, self.installed_manifest_version, downgrade_confirmed) {
            Ok(()) => {},
            Err(e) => return Err(e),
        }
        if let Some(rollover) = &manifest.key_rollover {
            let next = match parse_hex_key(rollover.next_public_key.as_str()) {
                Some(k) => k,
                None => return Err(RejectCode::Malformed),
            };
            self.keys.insert(rollover.next_key_id.as_str(), &next);
        }
        if manifest.engine_replacement && session_non_terminal {
            return Ok(UpdateDecision::Deferred(manifest));
        }
        Ok(UpdateDecision::Apply(manifest))
    }
}

/// ASCII upper case folded to lower case, everything else unchanged.
pub open spec fn ascii_lower(s: Seq<char>) -> Seq<char> {
    Seq::new(
        s.len(),
        |i: int|
            if 'A' <= s[i] && s[i] <= 'Z' {
                ((s[i] as u32) + 32) as char
            } else {
                s[i]
            },
    )
}

fn ascii_lowercase(s: &str) -> (r: String)
    ensures
        r@ == ascii_lower(s@),
{
    let cs = chars_of(s);
    let mut r = String::new();
    let mut i: usize = 0;
    while i < cs.len()
        invariant
            i <= cs@.len(),
            cs@ == s@,
            r@ == ascii_lower(s@).take(i as int),
        decreases cs@.len() - i,
    {
        let c = cs[i];
        let l = if 'A' <= c && c <= 'Z' {
            let code: u32 = c as u32;
            let lower: u8 = (code + 32) as u8;
            proof {
                assert(lower as u32 == code + 32);
            }
            lower as char
        } else {
            c
        };
        push_char(&mut r, l);
        proof {
            assert(ascii_lower(s@).take(i + 1) =~= ascii_lower(s@).take(i as int).push(l));
        }
        i += 1;
    }
    proof {
        assert(ascii_lower(s@).take(cs@.len() as int) =~= ascii_lower(s@));
    }
    r
}

/// Whether file content matches a declared digest: its SHA-256 in lowercase hexadecimal equals
/// the declared digest folded to lower case.
pub open spec fn digest_matches(content: Seq<u8>, declared: Seq<char>) -> bool {
    hex_lower(sha256_of(content)) == ascii_lower(declared)
}

/// Every declared digest must match the file before an adapter is activated; a mismatch, or a
/// file that could not be read (`None`), is reported, never repaired. `contents[i]` is what was
/// read for the manifest's `i`-th artifact. On success the artifacts' names come back in order.
pub fn activate_adapter(manifest: &AdapterManifest, contents: &[Option<Vec<u8>>]) -> (r: Result<
    Vec<String>,
    RejectCode,
>)
    requires
        contents@.len() == manifest.artifacts@.len(),
    ensures
        r is Ok <==> forall|i: int|
            0 <= i < contents@.len() ==> (#[trigger] contents@[i]) is Some && digest_matches(
                contents@[i]->0@,
                manifest.artifacts@[i].sha256@,
            ),
        r is Err ==> r == Err::<Vec<String>, RejectCode>(RejectCode::DigestMismatch),
        r matches Ok(names) ==> names@.len() == manifest.artifacts@.len() && forall|i: int|
            0 <= i < names@.len() ==> (#[trigger] names@[i])@ == manifest.artifacts@[i].name@,
{
    let mut activated: Vec<String> = Vec::new();
    let mut i: usize = 0;
    while i < contents.len()
        invariant
            i <= contents@.len(),
            contents@.len() == manifest.artifacts@.len(),
            activated@.len() == i,
            forall|k: int|
                0 <= k < i ==> (#[trigger] contents@[k]) is Some && digest_matches(
                    contents@[k]->0@,
                    manifest.artifacts@[k].sha256@,
                ),
            forall|k: int| 0 <= k < i ==> (#[trigger] activated@[k])@ == manifest.artifacts@[k].name@,
        decreases contents@.len() - i,
    {
        let artifact = &manifest.artifacts[i];
        let ok = match &contents[i] {
            Some(bytes) => {
                let digest = hex_encode(sha256(bytes.as_slice()).as_slice());
                let declared = ascii_lowercase(artifact.sha256.as_str());
                same_text(digest.as_str(), declared.as_str())
            },
            None => false,
        };
        if !ok {
            return Err(RejectCode::DigestMismatch);
        }
        activated.push(artifact.name.clone());
        i += 1;
    }
    Ok(activated)
}

} // verus!
