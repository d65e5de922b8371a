//! The scheduler: compares the current time of day, taken in a fixed
//! UTC+9 offset, against the configured notice time, and fires at most
//! once per matching calendar minute.

use vstd::prelude::*;

use chrono::{Datelike, Timelike};

use crate::date::Date;
use crate::text::{digit_val, is_digit, is_digit_exec};

verus! {

/// A configured notice time of day.
#[derive(Clone, Copy, Debug, PartialEq, Eq, Structural)]
pub struct NoticeTime {
    pub hour: u8,
    pub minute: u8,
}

impl NoticeTime {
    /// The pair names a real time of day.
    pub open spec fn wf(self) -> bool {
        self.hour < 24 && self.minute < 60
    }
}

/// The time a configuration string names, when it has the exact shape
/// `HH:MM` and is within range; `None` otherwise.
pub open spec fn spec_parse_notice(s: Seq<char>) -> Option<NoticeTime> {
    if s.len() == 5 && is_digit(s[0]) && is_digit(s[1]) && s[2] == ':' && is_digit(s[3])
        && is_digit(s[4]) {
        let h = digit_val(s[0]) * 10 + digit_val(s[1]);
        let m = digit_val(s[3]) * 10 + digit_val(s[4]);
        if h < 24 && m < 60 {
            Some(NoticeTime { hour: h as u8, minute: m as u8 })
        } else {
            None
        }
    } else {
        None
    }
}

/// Parses `HH:MM`. A failure here is a fatal configuration error: the
/// caller must not start with the notification feature silently dead.
pub fn parse_notice_time(s: &str) -> (r: Option<NoticeTime>)
    ensures
        r == spec_parse_notice(s@),
        r is Some ==> r->Some_0.wf(),
{
    if s.unicode_len() != 5 {
        return None;
    }
    let c0 = s.get_char(0);
    let c1 = s.get_char(1);
    let c3 = s.get_char(3);
    let c4 = s.get_char(4);
    if !(is_digit_exec(c0) && is_digit_exec(c1) && is_digit_exec(c3) && is_digit_exec(c4)) {
        return None;
    }
    if s.get_char(2) != ':' {
        return None;
    }
    let zero = '0' as u32;
    let h = (c0 as u32 - zero) * 10 + (c1 as u32 - zero);
    let m = (c3 as u32 - zero) * 10 + (c4 as u32 - zero);
    if h < 24 && m < 60 {
        Some(NoticeTime { hour: h as u8, minute: m as u8 })
    } else {
        None
    }
}

/// A calendar minute, numbered from the day-number epoch: distinct
/// (date, hour, minute) triples get distinct numbers.
pub open spec fn minute_id(d: Date, hour: u8, minute: u8) -> int {
    d.day_number() * 1440 + hour as int * 60 + minute as int
}

/// The recurring-notification state machine. Between ticks it is idle;
/// a tick whose clock minute equals the notice time moves it to firing
/// (the tick's result says so) and records that minute, so any further
/// tick inside the same calendar minute stays idle. The outcome of the
/// dispatch the caller then attempts does not feed back: success or
/// failure, the next transition is governed by the clock alone, so a
/// failed dispatch is retried at the next matching minute.
pub struct Scheduler {
    pub notice: NoticeTime,
    pub last_fired: Option<u64>,
}

impl Scheduler {
    /// The configured time is a real time of day.
    pub open spec fn wf(self) -> bool {
        self.notice.wf()
    }

    /// Whether a tick at this instant must fire: the clock matches the
    /// notice time and this calendar minute has not fired yet.
    pub open spec fn should_fire(self, today: Date, hour: u8, minute: u8) -> bool {
        hour == self.notice.hour && minute == self.notice.minute && self.last_fired != Some(
            minute_id(today, hour, minute) as u64,
        )
    }

    /// A fresh scheduler that has not fired yet.
    pub fn new(notice: NoticeTime) -> (r: Scheduler)
        requires
            notice.wf(),
        ensures
            r.notice == notice,
            r.last_fired is None,
            r.wf(),
    {
        Scheduler { notice, last_fired: None }
    }

    /// One tick of the recurring check: reports whether to fire now,
    /// and records the minute when it does.
    pub fn tick(&mut self, today: Date, hour: u8, minute: u8) -> (fire: bool)
        requires
            old(self).wf(),
            today.wf(),
            hour < 24,
            minute < 60,
        ensures
            final(self).wf(),
            final(self).notice == old(self).notice,
            fire == old(self).should_fire(today, hour, minute),
            fire ==> final(self).last_fired == Some(minute_id(today, hour, minute) as u64),
            !fire ==> final(self).last_fired == old(self).last_fired,
    {
        let mid: u64 = today.day_number_exec() as u64 * 1440 + hour as u64 * 60 + minute as u64;
        proof {
            assert(mid as int == minute_id(today, hour, minute));
        }
        let matches = hour == self.notice.hour && minute == self.notice.minute;
        let already = match self.last_fired {
            Some(x) => x == mid,
            None => false,
        };
        if matches && !already {
            self.last_fired = Some(mid);
            true
        } else {
            false
        }
    }
}

/// Law: at most once per minute. After a tick fires, every further tick
/// inside the same calendar minute stays idle, however short the tick
/// interval; the tick's own contract gives the other half, that a
/// matching, not-yet-fired minute does fire.
pub proof fn lemma_fires_at_most_once(s: Scheduler, today: Date, hour: u8, minute: u8)
    requires
        s.should_fire(today, hour, minute),
    ensures
        !(Scheduler {
            notice: s.notice,
            last_fired: Some(minute_id(today, hour, minute) as u64),
        }).should_fire(today, hour, minute),
{
}

/// Law: the guard blocks only its own minute. A matching tick in any
/// other calendar minute (the next day's notice time, say) fires again.
pub proof fn lemma_other_minute_fires(
    s: Scheduler,
    d1: Date,
    h1: u8,
    m1: u8,
    d2: Date,
    h2: u8,
    m2: u8,
)
    requires
        s.wf(),
        d1.wf(),
        h1 < 24,
        m1 < 60,
        d2.wf(),
        h2 < 24,
        m2 < 60,
        minute_id(d1, h1, m1) != minute_id(d2, h2, m2),
        h2 == s.notice.hour,
        m2 == s.notice.minute,
    ensures
        (Scheduler {
            notice: s.notice,
            last_fired: Some(minute_id(d1, h1, m1) as u64),
        }).should_fire(d2, h2, m2),
{
    assert(0 <= minute_id(d1, h1, m1) < 0x8000_0000_0000_0000);
    assert(0 <= minute_id(d2, h2, m2) < 0x8000_0000_0000_0000);
}

/// Why the configuration is rejected at startup. Any of these is fatal:
/// the process must not start with notification silently dead.
#[derive(Clone, Copy, Debug, PartialEq, Eq, Structural)]
pub enum ConfigError {
    EmptyToken,
    EmptyChannel,
    BadNoticeTime,
}

/// Validates what the process starts with: non-empty credentials and a
/// parsable `HH:MM` notice time.
pub fn validate_config(token: &str, channel_id: &str, notice_time: &str) -> (r: Result<
    NoticeTime,
    ConfigError,
>)
    ensures
        ({
            match r {
                Ok(nt) => token@.len() > 0 && channel_id@.len() > 0 && spec_parse_notice(
                    notice_time@,
                ) == Some(nt),
                Err(ConfigError::EmptyToken) => token@.len() == 0,
                Err(ConfigError::EmptyChannel) => token@.len() > 0 && channel_id@.len() == 0,
                Err(ConfigError::BadNoticeTime) => token@.len() > 0 && channel_id@.len() > 0
                    && spec_parse_notice(notice_time@) is None,
            }
        }),
{
    if token.unicode_len() == 0 {
        return Err(ConfigError::EmptyToken);
    }
    if channel_id.unicode_len() == 0 {
        return Err(ConfigError::EmptyChannel);
    }
    match parse_notice_time(notice_time) {
        Some(nt) => Ok(nt),
        None => Err(ConfigError::BadNoticeTime),
    }
}

/// Relies on chrono: `Utc::now` combined through `with_timezone` with
/// `FixedOffset::east_opt(32400)` gives the current civil date and time
/// of day in UTC+9. chrono documents `Datelike::month` and
/// `Datelike::day` to lie in 1..=12 and 1..=31, and `Timelike::hour`
/// and `Timelike::minute` in 0..24 and 0..60; the year is passed on as
/// is.
#[verifier::external_body]
fn now_jst() -> (r: (i64, u8, u8, u8, u8))
    ensures
        1 <= r.1 <= 12,
        1 <= r.2 <= 31,
        r.3 < 24,
        r.4 < 60,
{
    let now = chrono::Utc::now().with_timezone(&chrono::FixedOffset::east_opt(32400).unwrap());
    (now.year() as i64, now.month() as u8, now.day() as u8, now.hour() as u8, now.minute() as u8)
}

/// Reads the clock once: the current date, hour and minute in the fixed
/// UTC+9 offset. `None` when the clock's year does not fit the store's
/// four-digit dates. Two calls may of course disagree; every successful
/// reading is a well-formed date and a real time of day.
pub fn read_clock() -> (r: Option<(Date, u8, u8)>)
    ensures
        ({
            match r {
                Some((d, h, m)) => d.wf() && h < 24 && m < 60,
                None => true,
            }
        }),
{
    let (y, mo, da, h, mi) = now_jst();
    if y < 0 || y > 9999 {
        return None;
    }
    match Date::new(y as u16, mo, da) {
        Some(d) => Some((d, h, mi)),
        None => None,
    }
}

} // verus!
