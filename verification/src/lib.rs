//! Reminder-service core: a durable store of dated events, a pure
//! notification-payload builder, and a once-per-minute scheduler.
//!
//! The store holds events (title + calendar date) in a structured text
//! file; reads drop entries with unparsable dates and return the rest
//! sorted ascending by date. The builder turns the event list and a
//! reference date into a display payload, filtering overdue events and
//! rendering the remaining day count. The scheduler compares the current
//! time of day (in a fixed UTC+9 offset) against a configured notice
//! time and fires at most once per matching minute.

pub mod date;
pub mod embed;
pub mod sched;
pub mod store;
pub mod text;

pub use date::Date;
