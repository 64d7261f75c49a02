use meeting_assistant::session_setup::{
    civil_from_days, iso_date, valid_extension_id, valid_owner_sid, RecordLoop, RoundAction,
};

#[test]
fn dates_come_from_days_since_the_epoch() {
    assert_eq!(iso_date(0), "1970-01-01");
    assert_eq!(iso_date(86_399_999), "1970-01-01");
    assert_eq!(iso_date(86_400_000), "1970-01-02");
    assert_eq!(iso_date(951_782_400_000), "2000-02-29");
    assert_eq!(iso_date(951_868_800_000), "2000-03-01");
    assert_eq!(iso_date(1_756_857_600_000), "2025-09-03");
    assert_eq!(iso_date(4_102_444_799_999), "2099-12-31");
    assert_eq!(iso_date(4_102_444_800_000), "2100-01-01");
    assert_eq!(iso_date(u64::MAX), "584556019-04-03");
}

#[test]
fn century_years_leap_only_every_four_hundred() {
    // 2100-02-28 is followed by 2100-03-01; 2000-02-28 by 2000-02-29.
    let feb_28_2100 = 47_540;
    assert_eq!(civil_from_days(feb_28_2100), (2100, 2, 28));
    assert_eq!(civil_from_days(feb_28_2100 + 1), (2100, 3, 1));
    let feb_28_2000 = 11_015;
    assert_eq!(civil_from_days(feb_28_2000), (2000, 2, 28));
    assert_eq!(civil_from_days(feb_28_2000 + 1), (2000, 2, 29));
    assert_eq!(civil_from_days(146_097), (2370, 1, 1));
}

#[test]
fn record_inputs_are_checked_before_anything_starts() {
    assert!(valid_extension_id("abcdefghijklmnopabcdefghijklmnop"));
    assert!(!valid_extension_id("abcdefghijklmnopabcdefghijklmno"));
    assert!(!valid_extension_id("Abcdefghijklmnopabcdefghijklmnop"));
    assert!(!valid_extension_id("abcdefghijklmnopabcdefghijklmn0p"));
    assert!(!valid_extension_id(""));
    assert!(valid_owner_sid("S-1-5-21-1004336348-1177238915-682003330-512"));
    assert!(valid_owner_sid("S-1-"));
    assert!(!valid_owner_sid("S-2-5"));
    assert!(!valid_owner_sid("s-1-5"));
    assert!(!valid_owner_sid("S-1"));
}

#[test]
fn the_record_loop_opens_capture_once_and_stops_on_failure_or_the_round_limit() {
    let mut l = RecordLoop::new();
    l.begin_round();
    assert_eq!(l.after_persist(true, None), RoundAction::Continue);
    assert!(!l.end_round(false, Some(3)));
    l.begin_round();
    assert_eq!(l.after_persist(true, Some(4120)), RoundAction::OpenCapture { pid: 4120 });
    assert!(l.capture_open);
    assert!(!l.end_round(false, Some(3)));
    l.begin_round();
    assert_eq!(l.after_persist(true, Some(4120)), RoundAction::Continue, "capture opens once");
    assert!(l.end_round(false, Some(3)), "the round limit stops the session");
    l.finished(true);
    assert_eq!(l.exit_code(true), 0);
    assert_eq!(l.exit_code(false), 1, "a failed stop fails the run");

    let mut failing = RecordLoop::new();
    failing.begin_round();
    assert_eq!(failing.after_persist(false, Some(1)), RoundAction::Stop);
    assert_eq!(failing.exit_code(true), 1);
    let mut worker = RecordLoop::new();
    worker.begin_round();
    assert!(worker.end_round(true, None));
    assert_eq!(worker.exit_code(true), 1);
    let mut unclean = RecordLoop::new();
    unclean.finished(false);
    assert_eq!(unclean.exit_code(true), 1);
}
