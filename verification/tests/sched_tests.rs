use remind4f::date::Date;
use remind4f::sched::{
    parse_notice_time, read_clock, validate_config, ConfigError, NoticeTime, Scheduler,
};

fn date(y: u16, m: u8, d: u8) -> Date {
    Date::new(y, m, d).unwrap()
}

#[test]
fn parses_notice_times() {
    assert_eq!(parse_notice_time("09:00"), Some(NoticeTime { hour: 9, minute: 0 }));
    assert_eq!(parse_notice_time("23:59"), Some(NoticeTime { hour: 23, minute: 59 }));
    assert_eq!(parse_notice_time("00:00"), Some(NoticeTime { hour: 0, minute: 0 }));
}

#[test]
fn rejects_bad_notice_times() {
    assert_eq!(parse_notice_time("24:00"), None);
    assert_eq!(parse_notice_time("09:60"), None);
    assert_eq!(parse_notice_time("9:00"), None);
    assert_eq!(parse_notice_time("09-00"), None);
    assert_eq!(parse_notice_time("0900"), None);
    assert_eq!(parse_notice_time(""), None);
}

#[test]
fn fires_exactly_once_per_matching_minute() {
    let mut s = Scheduler::new(NoticeTime { hour: 9, minute: 0 });
    let today = date(2030, 6, 15);
    // sub-minute ticks inside 09:00: the first fires, the rest stay idle
    assert!(s.tick(today, 9, 0));
    assert!(!s.tick(today, 9, 0));
    assert!(!s.tick(today, 9, 0));
    // the next minute does not match the notice time
    assert!(!s.tick(today, 9, 1));
    // the next day's 09:00 fires again
    assert!(s.tick(date(2030, 6, 16), 9, 0));
    assert!(!s.tick(date(2030, 6, 16), 9, 0));
}

#[test]
fn stays_idle_outside_the_notice_minute() {
    let mut s = Scheduler::new(NoticeTime { hour: 9, minute: 0 });
    let today = date(2030, 6, 15);
    assert!(!s.tick(today, 8, 59));
    assert!(!s.tick(today, 9, 1));
    assert!(!s.tick(today, 21, 0));
    // still fires when the minute finally matches
    assert!(s.tick(today, 9, 0));
}

#[test]
fn validates_startup_configuration() {
    assert_eq!(
        validate_config("token", "123", "09:00"),
        Ok(NoticeTime { hour: 9, minute: 0 })
    );
    assert_eq!(validate_config("", "123", "09:00"), Err(ConfigError::EmptyToken));
    assert_eq!(validate_config("token", "", "09:00"), Err(ConfigError::EmptyChannel));
    assert_eq!(validate_config("token", "123", "morning"), Err(ConfigError::BadNoticeTime));
}

#[test]
fn clock_readings_are_well_formed() {
    // the sandbox clock is somewhere in the store's four-digit range
    let (d, h, m) = read_clock().unwrap();
    assert!(d.month >= 1 && d.month <= 12);
    assert!(d.day >= 1 && d.day <= 31);
    assert!(h < 24 && m < 60);
    assert!(remind4f::date::parse_date(&remind4f::date::render_date(&d)) == Some(d));
}
