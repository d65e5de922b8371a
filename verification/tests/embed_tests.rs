use remind4f::date::Date;
use remind4f::embed::build_embed;
use remind4f::store::{read_events_from_str, Event};

fn date(y: u16, m: u8, d: u8) -> Date {
    Date::new(y, m, d).unwrap()
}

#[test]
fn end_to_end_filters_overdue_and_counts_days() {
    // the store holds a future launch and a long-gone event
    let text = "[[events]]\ntitle = \"Launch\"\ndate = \"2030-01-01\"\n\
                [[events]]\ntitle = \"Old\"\ndate = \"2000-01-01\"\n";
    let events = read_events_from_str(text).unwrap();
    let today = date(2029, 12, 30);
    let embed = build_embed(&events, today);
    assert_eq!(embed.title, "Events");
    assert_eq!(embed.color, 0x98c379);
    assert_eq!(embed.fields.len(), 1);
    assert_eq!(embed.fields[0].name, "Launch");
    assert_eq!(embed.fields[0].value, "Due: 2 days");
}

#[test]
fn excludes_events_strictly_before_today() {
    let events = vec![
        Event { title: String::from("Yesterday"), date: date(2030, 6, 14) },
        Event { title: String::from("Today"), date: date(2030, 6, 15) },
    ];
    let embed = build_embed(&events, date(2030, 6, 15));
    assert_eq!(embed.fields.len(), 1);
    assert_eq!(embed.fields[0].name, "Today");
}

#[test]
fn event_due_today_renders_zero_days() {
    let events = vec![Event { title: String::from("Now"), date: date(2030, 6, 15) }];
    let embed = build_embed(&events, date(2030, 6, 15));
    assert_eq!(embed.fields.len(), 1);
    assert_eq!(embed.fields[0].value, "Due: 0 days");
}

#[test]
fn one_remaining_day_is_singular() {
    let events = vec![
        Event { title: String::from("Tomorrow"), date: date(2030, 6, 16) },
        Event { title: String::from("Later"), date: date(2030, 6, 17) },
    ];
    let embed = build_embed(&events, date(2030, 6, 15));
    assert_eq!(embed.fields[0].value, "Due: 1 day");
    assert_eq!(embed.fields[1].value, "Due: 2 days");
}

#[test]
fn keeps_input_order_of_fields() {
    let events = vec![
        Event { title: String::from("A"), date: date(2030, 1, 1) },
        Event { title: String::from("B"), date: date(2030, 1, 1) },
        Event { title: String::from("C"), date: date(2030, 2, 1) },
    ];
    let embed = build_embed(&events, date(2029, 1, 1));
    let names: Vec<&str> = embed.fields.iter().map(|f| f.name.as_str()).collect();
    assert_eq!(names, vec!["A", "B", "C"]);
}

#[test]
fn empty_list_gives_empty_payload() {
    let embed = build_embed(&vec![], date(2030, 1, 1));
    assert!(embed.fields.is_empty());
    assert_eq!(embed.title, "Events");
}

#[test]
fn far_future_counts_large_day_spans() {
    let events = vec![Event { title: String::from("Far"), date: date(9999, 12, 31) }];
    let embed = build_embed(&events, date(9999, 12, 1));
    assert_eq!(embed.fields[0].value, "Due: 30 days");
}
