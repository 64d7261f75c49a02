use ed25519_dalek::SigningKey;
use meeting_assistant::keys::KeySet;
use meeting_assistant::manifest::{check_adapter, check_update, AdapterManifest, Artifact, KeyRollover, UpdateManifest};
use meeting_assistant::manifest_verify::{sign, verify, RejectCode, Verified};
use meeting_assistant::rollback::{activate_adapter, check_version, UpdateDecision, Updater};
use sha2::Digest;

fn secret(seed: u8) -> [u8; 32] {
    [seed; 32]
}
fn public(seed: u8) -> [u8; 32] {
    SigningKey::from_bytes(&secret(seed)).verifying_key().to_bytes()
}
fn keys_with(id: &str, seed: u8) -> KeySet {
    let mut set = KeySet::empty();
    set.insert(id, &public(seed));
    set
}
fn update_payload(manifest_version: u64, rollover: Option<(&str, u8)>) -> Vec<u8> {
    let rollover_field = match rollover {
        Some((next_id, next)) => format!(
            r#","key_rollover":{{"next_key_id":"{next_id}","next_public_key":"{}"}}"#,
            hex::encode(public(next))
        ),
        None => String::new(),
    };
    format!(
        r#"{{"manifest_version":{manifest_version},"version":"0.{manifest_version}.0","channel":"release","artifacts":[{{"name":"MeetingAssistant-setup.exe","url":"https://objects.githubusercontent.com/example/MeetingAssistant-setup.exe","sha256":"{}","size":12345}}],"engine_replacement":true{rollover_field}}}"#,
        "ab".repeat(32)
    )
    .into_bytes()
}

fn artifacts(value: &serde_json::Value) -> Vec<Artifact> {
    value["artifacts"]
        .as_array()
        .unwrap()
        .iter()
        .map(|a| Artifact {
            name: a["name"].as_str().unwrap().into(),
            url: a["url"].as_str().unwrap().into(),
            sha256: a["sha256"].as_str().unwrap().into(),
            size: a["size"].as_u64().unwrap(),
        })
        .collect()
}

/// The payload read as an update manifest, then judged.
fn parse_update(verified: &Verified) -> Result<UpdateManifest, RejectCode> {
    let value: serde_json::Value = serde_json::from_slice(verified.payload()).map_err(|_| RejectCode::Malformed)?;
    let manifest = UpdateManifest {
        manifest_version: value["manifest_version"].as_u64().ok_or(RejectCode::Malformed)?,
        version: value["version"].as_str().ok_or(RejectCode::Malformed)?.into(),
        channel: value["channel"].as_str().ok_or(RejectCode::Malformed)?.into(),
        artifacts: artifacts(&value),
        engine_replacement: value["engine_replacement"].as_bool().ok_or(RejectCode::Malformed)?,
        key_rollover: value.get("key_rollover").map(|r| KeyRollover {
            next_key_id: r["next_key_id"].as_str().unwrap().into(),
            next_public_key: r["next_public_key"].as_str().unwrap().into(),
        }),
    };
    check_update(&manifest)?;
    Ok(manifest)
}

fn parse_adapter(verified: &Verified) -> Result<AdapterManifest, RejectCode> {
    let value: serde_json::Value = serde_json::from_slice(verified.payload()).map_err(|_| RejectCode::Malformed)?;
    let manifest = AdapterManifest {
        manifest_version: value["manifest_version"].as_u64().ok_or(RejectCode::Malformed)?,
        adapter_id: value["adapter_id"].as_str().ok_or(RejectCode::Malformed)?.into(),
        version: value["version"].as_str().ok_or(RejectCode::Malformed)?.into(),
        artifacts: artifacts(&value),
        pinned_extension_id: value.get("pinned_extension_id").and_then(|v| v.as_str()).map(String::from),
    };
    check_adapter(&manifest)?;
    Ok(manifest)
}

/// Verify bytes, read the payload, reject downgrades, apply a rollover, and decide.
fn consider(updater: &mut Updater, bytes: &[u8], session_non_terminal: bool, downgrade_confirmed: bool) -> Result<UpdateDecision, RejectCode> {
    let verified = verify(bytes, &updater.keys)?;
    let manifest = parse_update(&verified)?;
    updater.decide(manifest, session_non_terminal, downgrade_confirmed)
}

#[test]
fn tampered_manifest_rejected() {
    let keys = keys_with("release-2026", 1);
    let good = sign(&update_payload(8, None), "release-2026", &secret(1));
    assert!(verify(&good, &keys).is_ok());
    // flip one payload byte after the header
    let mut tampered = good.clone();
    let header_end = tampered.iter().position(|b| *b == b'\n').unwrap();
    let idx = header_end + 20;
    tampered[idx] ^= 0x01;
    let err = verify(&tampered, &keys).unwrap_err();
    assert_eq!(err, RejectCode::Tampered);
    // a marker in a tampered payload never reaches the error or a debug line
    let mut marked = update_payload(8, None);
    marked.extend_from_slice(b" ZZ-UNVERIFIED-URL-ZZ");
    let forged = sign(&marked, "release-2026", &secret(2));
    let err = verify(&forged, &keys).unwrap_err();
    assert_eq!(err, RejectCode::Tampered);
    assert!(!format!("{err:?}").contains("ZZ-UNVERIFIED"));
    // captive portal, HTML, truncated
    for junk in [
        &b"<html><body>Sign in to the network</body></html>"[..],
        b"",
        b"ma-manifest-v1 release-2026",
        b"ma-manifest-v1 release-2026 zz\n{}",
    ] {
        assert_eq!(verify(junk, &keys).unwrap_err(), RejectCode::NotAManifest, "{junk:?}");
    }
    // the codes are distinct
    let codes = [
        RejectCode::Tampered,
        RejectCode::Downgrade,
        RejectCode::UnknownKey,
        RejectCode::DigestMismatch,
        RejectCode::NotAManifest,
        RejectCode::Malformed,
    ];
    for (i, a) in codes.iter().enumerate() {
        for (j, b) in codes.iter().enumerate() {
            assert_eq!(i == j, a == b);
        }
    }
}

#[test]
fn replayed_older_manifest_rejected() {
    let mut updater = Updater::new(keys_with("release-2026", 1), 9);
    let replayed = sign(&update_payload(7, None), "release-2026", &secret(1));
    assert_eq!(
        consider(&mut updater, &replayed, false, false).unwrap_err(),
        RejectCode::Downgrade,
        "signature validity alone is not sufficient"
    );
    let same = sign(&update_payload(9, None), "release-2026", &secret(1));
    assert_eq!(consider(&mut updater, &same, false, false).unwrap_err(), RejectCode::Downgrade);
    let newer = sign(&update_payload(10, None), "release-2026", &secret(1));
    assert!(matches!(consider(&mut updater, &newer, false, false), Ok(UpdateDecision::Apply(m)) if m.manifest_version == 10));
    // explicit confirmation is the only way down
    assert!(matches!(consider(&mut updater, &replayed, false, true), Ok(UpdateDecision::Apply(_))));
    assert_eq!(check_version(1, 0, false), Ok(()), "unknown installed version is 0 and still verifies");
    // an engine replacement waits for a terminal session
    let mut updater = Updater::new(keys_with("release-2026", 1), 9);
    assert!(matches!(consider(&mut updater, &newer, true, false), Ok(UpdateDecision::Deferred(_))));
    assert_eq!(updater.installed_manifest_version, 9, "nothing was applied");
}

#[test]
fn unknown_key_rejected_rollover_accepted() {
    let mut updater = Updater::new(keys_with("release-2026", 1), 1);
    let only_next = sign(&update_payload(2, None), "release-2027", &secret(3));
    assert_eq!(consider(&mut updater, &only_next, false, false).unwrap_err(), RejectCode::UnknownKey);
    // a known key id but the wrong private key is tampering, not an unknown key
    let wrong = sign(&update_payload(2, None), "release-2026", &secret(3));
    assert_eq!(consider(&mut updater, &wrong, false, false).unwrap_err(), RejectCode::Tampered);
    // rollover signed by the current key introduces the next key
    let rollover = sign(&update_payload(2, Some(("release-2027", 3))), "release-2026", &secret(1));
    assert!(matches!(consider(&mut updater, &rollover, false, false), Ok(UpdateDecision::Apply(_))));
    assert!(updater.keys.contains("release-2027"));
    updater.installed_manifest_version = 2;
    let signed_by_next = sign(&update_payload(3, None), "release-2027", &secret(3));
    assert!(matches!(consider(&mut updater, &signed_by_next, false, false), Ok(UpdateDecision::Apply(_))));
    assert_eq!(updater.keys.ids(), ["release-2026", "release-2027"]);
}

#[test]
fn digest_mismatch_blocks_adapter_activation() {
    let keys = keys_with("release-2026", 1);
    let content = b"{\"adapter\":\"meet\"}".to_vec();
    let real = hex::encode(sha2::Sha256::digest(&content));
    let payload = |sha: &str| {
        format!(
            r#"{{"manifest_version":4,"adapter_id":"meet","version":"1.2.0","artifacts":[{{"name":"adapter-meet.json","url":"https://objects.githubusercontent.com/example/adapter-meet.json","sha256":"{sha}","size":18}}],"pinned_extension_id":"abcdefghijklmnopabcdefghijklmnop"}}"#
        )
        .into_bytes()
    };
    let bad = sign(&payload(&"cd".repeat(32)), "release-2026", &secret(1));
    let manifest = parse_adapter(&verify(&bad, &keys).unwrap()).unwrap();
    assert_eq!(activate_adapter(&manifest, &[Some(content.clone())]).unwrap_err(), RejectCode::DigestMismatch);
    assert_eq!(activate_adapter(&manifest, &[None]).unwrap_err(), RejectCode::DigestMismatch);
    let good = sign(&payload(&real), "release-2026", &secret(1));
    let manifest = parse_adapter(&verify(&good, &keys).unwrap()).unwrap();
    assert_eq!(activate_adapter(&manifest, &[Some(content.clone())]).unwrap(), ["adapter-meet.json"]);
    // a declared digest in upper case still matches
    let upper = sign(&payload(&real.to_uppercase()), "release-2026", &secret(1));
    let manifest = parse_adapter(&verify(&upper, &keys).unwrap()).unwrap();
    assert_eq!(activate_adapter(&manifest, &[Some(content)]).unwrap(), ["adapter-meet.json"]);
    // a manifest pointing outside the distribution hosts, or with a path-like name, is malformed
    let elsewhere = format!(
        r#"{{"manifest_version":4,"adapter_id":"meet","version":"1.2.0","artifacts":[{{"name":"../adapter.json","url":"https://cdn.example-vendor.test/adapter.json","sha256":"{real}","size":18}}]}}"#
    )
    .into_bytes();
    assert_eq!(
        parse_adapter(&verify(&sign(&elsewhere, "release-2026", &secret(1)), &keys).unwrap()).unwrap_err(),
        RejectCode::Malformed
    );
}

#[test]
fn signed_bytes_carry_header_then_payload() {
    let out = sign(b"{}", "k1", &secret(5));
    let header_end = out.iter().position(|b| *b == b'\n').unwrap();
    let header = std::str::from_utf8(&out[..header_end]).unwrap();
    let parts: Vec<&str> = header.split(' ').collect();
    assert_eq!(parts.len(), 3);
    assert_eq!(parts[0], "ma-manifest-v1");
    assert_eq!(parts[1], "k1");
    assert_eq!(parts[2].len(), 128);
    assert_eq!(&out[header_end + 1..], b"{}");
    let verified = verify(&out, &keys_with("k1", 5)).unwrap();
    assert_eq!(verified.key_id(), "k1");
    assert_eq!(verified.payload(), b"{}");
}
