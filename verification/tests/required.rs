use meeting_assistant::command::Command;
use meeting_assistant::handoff::{persist_batch, service_capture_once, CaptureHandoff, CaptureWriteEvent};
use meeting_assistant::ids::SessionId;
use meeting_assistant::message::{ExtensionMessage, MessageError};
use meeting_assistant::source::SyntheticSource;
use std::sync::mpsc;

#[test]
fn recovery_reuses_the_id_found_on_disk() {
    let on_disk = "018f4d2e-7b1a-7c3d-9a1e-0123456789ab";
    let recovered: SessionId = on_disk.parse().unwrap();
    assert_eq!(recovered.to_string(), on_disk);
    assert!("not-a-uuid".parse::<SessionId>().is_err());
}

#[test]
fn stalled_writer_does_not_stop_source_reads_and_becomes_a_gap() {
    let (tx, rx) = mpsc::sync_channel(1);
    let mut handoff = CaptureHandoff::new(tx);
    let mut source = SyntheticSource::new(16_000, 800, 160);

    for _ in 0..5 {
        assert!(service_capture_once(&mut source, &mut handoff, 3_200));
    }
    assert_eq!(
        source.produced(),
        800,
        "capture reads continue while the durability queue is full"
    );

    assert!(matches!(
        rx.recv().unwrap(),
        CaptureWriteEvent::Samples(samples) if samples.len() == 160
    ));
    handoff.flush_pending();
    assert!(matches!(rx.recv().unwrap(), CaptureWriteEvent::Gap(640)));
}

#[test]
fn persistence_failure_stops_before_the_next_item() {
    let mut attempted = Vec::new();
    let result = persist_batch(vec![1, 2, 3], |value: &i32| {
        attempted.push(*value);
        if *value == 2 {
            Err("disk")
        } else {
            Ok(())
        }
    });

    assert_eq!(result, Err("disk"));
    assert_eq!(attempted, vec![1, 2]);
}

#[test]
fn command_parsing_defaults_to_usage() {
    assert_eq!(Command::parse(&[]).unwrap(), Command::Usage);
    assert_eq!(Command::parse(&["list".into()]).unwrap(), Command::List);
    assert!(Command::parse(&["record".into()]).is_err());
    assert!(Command::parse(&["explode".into()]).is_err());
    let replay = Command::parse(&[
        "replay".into(),
        "--timeline".into(),
        "t.jsonl".into(),
        "--synthetic-tables".into(),
    ])
    .unwrap();
    assert!(matches!(
        replay,
        Command::Replay {
            synthetic_tables: true,
            ..
        }
    ));
    assert!(Command::parse(&["measure-leak".into()]).is_err());
}

#[test]
fn a_url_or_a_title_is_not_a_message() {
    let with_url = br#"{"instance_id":"i1","seq":1,"observed_at_ms":1,"host":"https://meet.example.test/abc-defg","tab_key":"t1","audible":true,"meeting_present":true}"#;
    assert_eq!(
        ExtensionMessage::parse(with_url),
        Err(MessageError::HostNotAHostname)
    );
    let with_title = br#"{"instance_id":"i1","seq":1,"observed_at_ms":1,"host":"meet.example.test","tab_key":"t1","audible":true,"meeting_present":true,"title":"Budget review"}"#;
    assert_eq!(
        ExtensionMessage::parse(with_title),
        Err(MessageError::NotJson)
    );
}
