use cima::json::Json;
use cima::models::residency::{
    default_window, next_recovery, KeepAlive, Recovery, Residency, Tried,
};

const SECOND: u128 = 1_000_000_000;

fn text(s: &str) -> KeepAlive {
    KeepAlive::parse(Some(&Json::Str(s.to_string())))
}

fn num(n: f64) -> KeepAlive {
    KeepAlive::parse(Some(&Json::Num(n.to_bits())))
}

#[test]
fn keep_alive_values() {
    assert_eq!(KeepAlive::parse(None), KeepAlive::Default);
    assert_eq!(KeepAlive::parse(Some(&Json::Null)), KeepAlive::Default);
    assert_eq!(num(0.0), KeepAlive::Now);
    assert_eq!(num(-1.0), KeepAlive::Forever);
    assert_eq!(num(90.9), KeepAlive::Seconds(90));
    assert_eq!(text("0"), KeepAlive::Now);
    assert_eq!(text("-1"), KeepAlive::Forever);
    assert_eq!(text(" 5m "), KeepAlive::Seconds(300));
    assert_eq!(text("1.5h"), KeepAlive::Seconds(5400));
    assert_eq!(text("45"), KeepAlive::Seconds(45));
    assert_eq!(text("45 s"), KeepAlive::Seconds(45));
    assert_eq!(text("0s"), KeepAlive::Now);
    assert_eq!(text("soon"), KeepAlive::Default);
    assert_eq!(text("5d"), KeepAlive::Default);
}

#[test]
fn the_default_window_is_set_from_outside() {
    assert_eq!(default_window(None), Some(300));
    assert_eq!(default_window(Some(" Forever ")), None);
    assert_eq!(default_window(Some("10m")), Some(600));
    assert_eq!(default_window(Some("0")), Some(0));
    assert_eq!(default_window(Some("nonsense")), Some(300));
}

#[test]
fn windows_run_from_the_last_request() {
    let mut r = Residency { resident: None, expires_at: None, default_secs: Some(300) };
    assert!(r.ensure("a"));
    r.resident = Some("a".to_string());
    assert!(!r.ensure("a"));
    r.touch(KeepAlive::Default, 10 * SECOND);
    assert_eq!(r.expires_at, Some(310 * SECOND));
    assert_eq!(r.expires_in_secs(10 * SECOND + 1), Some(299));
    assert!(!r.sweep(310 * SECOND - 1));
    r.touch(KeepAlive::Seconds(5), 100 * SECOND);
    assert!(!r.sweep(105 * SECOND - 1));
    assert_eq!(r.expires_in_secs(200 * SECOND), Some(0));
    assert!(r.sweep(105 * SECOND));
    assert_eq!(r.resident, None);
    assert_eq!(r.expires_in_secs(105 * SECOND), None);
}

#[test]
fn some_models_stay_and_some_go_at_once() {
    let mut r = Residency {
        resident: Some("a".to_string()),
        expires_at: None,
        default_secs: Some(300),
    };
    r.touch(KeepAlive::Forever, SECOND);
    assert!(!r.sweep(u64::MAX as u128));
    assert_eq!(r.expires_in_secs(SECOND), None);
    r.touch(KeepAlive::Now, 7 * SECOND);
    assert_eq!(r.resident, None);
}

#[test]
fn nothing_expires_where_nothing_is_resident() {
    let mut r = Residency {
        resident: Some("a".to_string()),
        expires_at: None,
        default_secs: Some(300),
    };
    r.touch(KeepAlive::Seconds(300), SECOND);
    assert_eq!(r.expires_in_secs(SECOND), Some(300));
    r.evict();
    assert_eq!((r.resident.as_ref(), r.expires_in_secs(SECOND)), (None, None));
}

#[test]
fn another_model_takes_the_place() {
    let mut r = Residency {
        resident: Some("a".to_string()),
        expires_at: Some(1),
        default_secs: None,
    };
    assert!(r.ensure("b"));
    assert_eq!(r.resident, None);
    r.resident = Some("b".to_string());
    r.recover();
    assert_eq!(r.resident, None);
    assert_eq!(r.expires_at, None);
}

#[test]
fn the_device_is_set_up_in_five_attempts() {
    assert_eq!(next_recovery(Tried::Reset, true), Recovery::Setup { attempt: 1, wait_ms: 0 });
    assert_eq!(next_recovery(Tried::Reset, false), Recovery::Exit { wait_ms: 0, code: 86 });
    let tried = |attempt: usize, ok: bool| next_recovery(Tried::Setup { attempt }, ok);
    assert_eq!(tried(1, true), Recovery::Serve);
    for attempt in 1..5 {
        let next = Recovery::Setup { attempt: attempt + 1, wait_ms: 300 };
        assert_eq!(tried(attempt, false), next);
    }
    assert_eq!(tried(5, false), Recovery::Exit { wait_ms: 300, code: 86 });
    assert_eq!(tried(5, true), Recovery::Serve);
}

#[test]
fn clocks_may_run_out_where_no_window_does() {
    let mut r = Residency { resident: None, expires_at: Some(u128::MAX), default_secs: None };
    assert_eq!(r.expires_in_secs(0), None);
    r.resident = Some("a".to_string());
    r.touch(KeepAlive::Default, u128::MAX);
    assert_eq!(r.expires_in_secs(0), None);
    r.touch(KeepAlive::Now, u128::MAX);
    assert_eq!(r.resident, None);
}
