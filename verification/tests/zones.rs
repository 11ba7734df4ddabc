use pintail_exec::session::{session_time_zone_key, session_zone_change, SessionChange, SessionZone};
use pintail_exec::zone::{timezone_spec, ZoneSpec};

#[test]
fn set_time_zone_installs_offsets_and_names() {
    match session_zone_change(Some(" +05:30 ")) {
        SessionChange::Install { zone: SessionZone::Fixed(seconds), timestamp_zone } => {
            assert_eq!(seconds, 19_800);
            assert_eq!(timestamp_zone.as_deref(), Some("+05:30"));
        },
        _ => panic!("offset installs"),
    }
    match session_zone_change(Some("+00:00")) {
        SessionChange::Install { zone: SessionZone::Fixed(0), timestamp_zone: None } => {},
        _ => panic!("zero offset installs without converting timestamps"),
    }
    match session_zone_change(Some("asia/kolkata")) {
        SessionChange::Install { zone: SessionZone::Named(name), timestamp_zone } => {
            assert_eq!(name, "Asia/Kolkata");
            assert_eq!(timestamp_zone.as_deref(), Some("Asia/Kolkata"));
        },
        _ => panic!("name installs"),
    }
}

#[test]
fn set_time_zone_resets_and_rejects() {
    assert!(matches!(session_zone_change(None), SessionChange::Reset));
    assert!(matches!(session_zone_change(Some("System")), SessionChange::Reset));
    assert!(matches!(session_zone_change(Some("+14:01")), SessionChange::Reject));
    assert!(matches!(session_zone_change(Some("-14:00")), SessionChange::Reject));
    assert!(matches!(session_zone_change(Some("-13:59")), SessionChange::Install { .. }));
    assert!(matches!(session_zone_change(Some("+05:60")), SessionChange::Reject));
    assert!(matches!(session_zone_change(Some("Bad/Zone")), SessionChange::Reject));
}

#[test]
fn session_keys_tell_zones_apart() {
    assert_eq!(session_time_zone_key(None), None);
    assert_eq!(session_time_zone_key(Some(&SessionZone::Fixed(-3600))).as_deref(), Some("f-3600"));
    assert_eq!(session_time_zone_key(Some(&SessionZone::Named("UTC".to_owned()))).as_deref(), Some("nUTC"));
}

#[test]
fn zone_arguments_read_offsets_and_names() {
    assert!(matches!(timezone_spec("+05:30"), Some(ZoneSpec::Fixed(19_800))));
    assert!(matches!(timezone_spec("-13:59"), Some(ZoneSpec::Fixed(-50_340))));
    assert!(matches!(timezone_spec("+14:01"), None));
    assert!(matches!(timezone_spec("5:30"), None));
    match timezone_spec(" europe/paris ") {
        Some(ZoneSpec::Named(name)) => assert_eq!(name, "Europe/Paris"),
        _ => panic!("named zone"),
    }
}
