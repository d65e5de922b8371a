use remind4f::date::Date;
use remind4f::store::{
    add, add_reply, parse_events, read_events_from_str, AddError, AddOutcome, Event,
    EventFileEntry, EventsFile, ReadError,
};
use remind4f::store::events_to_text;

fn date(y: u16, m: u8, d: u8) -> Date {
    Date::new(y, m, d).unwrap()
}

#[test]
fn renders_one_entry_exactly() {
    let f = EventsFile {
        events: vec![EventFileEntry {
            title: String::from("EventTitle"),
            date: String::from("2024-01-01"),
        }],
    };
    assert_eq!(
        f.to_string(),
        "[[events]]\ntitle = \"EventTitle\"\ndate = \"2024-01-01\"\n"
    );
}

#[test]
fn parses_what_it_renders() {
    let f = EventsFile {
        events: vec![
            EventFileEntry {
                title: String::from("Launch"),
                date: String::from("2030-01-01"),
            },
            EventFileEntry {
                title: String::from("Old"),
                date: String::from("2000-01-01"),
            },
        ],
    };
    let text = f.to_string();
    let back = parse_events(&text).unwrap();
    assert_eq!(back.events.len(), 2);
    assert_eq!(back.events[0].title, "Launch");
    assert_eq!(back.events[0].date, "2030-01-01");
    assert_eq!(back.events[1].title, "Old");
    assert_eq!(back.events[1].date, "2000-01-01");
}

#[test]
fn write_read_round_trip_sorts_by_date() {
    let events = vec![
        Event { title: String::from("Launch"), date: date(2030, 1, 1) },
        Event { title: String::from("Old"), date: date(2000, 1, 1) },
        Event { title: String::from("Mid"), date: date(2024, 6, 15) },
    ];
    let text = events_to_text(&events);
    let back = read_events_from_str(&text).unwrap();
    assert_eq!(back.len(), 3);
    assert_eq!(back[0].title, "Old");
    assert_eq!(back[0].date, date(2000, 1, 1));
    assert_eq!(back[1].title, "Mid");
    assert_eq!(back[1].date, date(2024, 6, 15));
    assert_eq!(back[2].title, "Launch");
    assert_eq!(back[2].date, date(2030, 1, 1));
}

#[test]
fn round_trip_keeps_quotes_and_backslashes() {
    let tricky = "a\"b\\c \"\" \\\\ d";
    let events = vec![Event { title: String::from(tricky), date: date(2031, 12, 31) }];
    let text = events_to_text(&events);
    let back = read_events_from_str(&text).unwrap();
    assert_eq!(back.len(), 1);
    assert_eq!(back[0].title, tricky);
    assert_eq!(back[0].date, date(2031, 12, 31));
}

#[test]
fn reads_hand_written_file_with_comments_and_spacing() {
    let text = "# events kept here\n\n[[events]]\n  title = \"X\"\r\n  date  =  \"2030-01-01\"\n";
    let back = read_events_from_str(text).unwrap();
    assert_eq!(back.len(), 1);
    assert_eq!(back[0].title, "X");
    assert_eq!(back[0].date, date(2030, 1, 1));
}

#[test]
fn keeps_entries_in_either_key_order() {
    let text = "[[events]]\ndate = \"2030-01-01\"\ntitle = \"X\"\n";
    let back = read_events_from_str(text).unwrap();
    assert_eq!(back.len(), 1);
    assert_eq!(back[0].title, "X");
}

#[test]
fn empty_file_reads_as_no_events() {
    let back = read_events_from_str("").unwrap();
    assert!(back.is_empty());
    let back = read_events_from_str("# only a comment\n").unwrap();
    assert!(back.is_empty());
}

#[test]
fn drops_entries_with_unparsable_dates() {
    let text = "[[events]]\ntitle = \"Bad\"\ndate = \"2024-13-40\"\n\
                [[events]]\ntitle = \"Good\"\ndate = \"2030-01-01\"\n";
    let back = read_events_from_str(text).unwrap();
    assert_eq!(back.len(), 1);
    assert_eq!(back[0].title, "Good");
}

#[test]
fn malformed_files_are_rejected() {
    // a key before any [[events]] header
    assert_eq!(
        read_events_from_str("title = \"X\"\n").unwrap_err(),
        ReadError::Malformed
    );
    // an entry missing its date
    assert_eq!(
        read_events_from_str("[[events]]\ntitle = \"X\"\n").unwrap_err(),
        ReadError::Malformed
    );
    // an unquoted value
    assert_eq!(
        read_events_from_str("[[events]]\ntitle = X\ndate = \"2030-01-01\"\n").unwrap_err(),
        ReadError::Malformed
    );
    // a repeated key
    assert_eq!(
        read_events_from_str("[[events]]\ntitle = \"X\"\ntitle = \"Y\"\ndate = \"2030-01-01\"\n")
            .unwrap_err(),
        ReadError::Malformed
    );
    // an unknown key
    assert_eq!(
        read_events_from_str("[[events]]\nname = \"X\"\ndate = \"2030-01-01\"\n").unwrap_err(),
        ReadError::Malformed
    );
}

#[test]
fn add_inserts_sorted() {
    let events = vec![
        Event { title: String::from("A"), date: date(2024, 1, 1) },
        Event { title: String::from("C"), date: date(2026, 1, 1) },
    ];
    let out = add(events, "B", "2025-06-30").unwrap();
    assert_eq!(out.len(), 3);
    assert_eq!(out[0].title, "A");
    assert_eq!(out[1].title, "B");
    assert_eq!(out[1].date, date(2025, 6, 30));
    assert_eq!(out[2].title, "C");
}

#[test]
fn sort_is_stable_for_equal_dates() {
    let text = "[[events]]\ntitle = \"First\"\ndate = \"2030-01-01\"\n\
                [[events]]\ntitle = \"Earlier\"\ndate = \"2029-01-01\"\n\
                [[events]]\ntitle = \"Second\"\ndate = \"2030-01-01\"\n";
    let back = read_events_from_str(text).unwrap();
    assert_eq!(back[0].title, "Earlier");
    assert_eq!(back[1].title, "First");
    assert_eq!(back[2].title, "Second");
}

#[test]
fn add_goes_behind_its_date_peers() {
    let events = vec![
        Event { title: String::from("Old"), date: date(2030, 1, 1) },
    ];
    let out = add(events, "New", "2030-01-01").unwrap();
    assert_eq!(out[0].title, "Old");
    assert_eq!(out[1].title, "New");
}

#[test]
fn add_rejects_unparsable_date() {
    let events = vec![Event { title: String::from("A"), date: date(2024, 1, 1) }];
    let r = add(events, "B", "2024-13-40");
    assert!(matches!(r, Err(AddError::InvalidDate)));
}

#[test]
fn add_rejects_bad_titles() {
    assert!(matches!(add(vec![], "", "2030-01-01"), Err(AddError::InvalidTitle)));
    assert!(matches!(add(vec![], "a\nb", "2030-01-01"), Err(AddError::InvalidTitle)));
}

#[test]
fn add_replies_use_fixed_wording() {
    assert_eq!(add_reply(&AddOutcome::Created), "Created!");
    assert_eq!(
        add_reply(&AddOutcome::BadDate),
        "Failed to parse date; please enter ISO 8601-formatted date (YYYY-MM-DD)"
    );
    assert_eq!(add_reply(&AddOutcome::ReadFailed), "Failed to read events");
    assert_eq!(add_reply(&AddOutcome::WriteFailed), "Failed to write events to file");
    assert_eq!(add_reply(&AddOutcome::BadTitle), "Invalid argument: 'title'");
}
