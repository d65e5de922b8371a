//! The notification payload builder: a pure, total function from the
//! event list and a reference date to the display payload.

use vstd::prelude::*;

use crate::date::Date;
use crate::store::{eview, events_ok, Event, EventV};
use crate::text::{dec_rep, u64_to_dec};

verus! {

/// One payload field: an event's title and its rendered due line.
pub struct Field {
    pub name: String,
    pub value: String,
}

/// Ghost image of a field.
#[verifier::ext_equal]
pub struct FieldV {
    pub name: Seq<char>,
    pub value: Seq<char>,
}

impl View for Field {
    type V = FieldV;

    open spec fn view(&self) -> FieldV {
        FieldV { name: self.name@, value: self.value@ }
    }
}

/// Ghost image of a field list.
pub open spec fn fview(s: Seq<Field>) -> Seq<FieldV> {
    s.map_values(|f: Field| f@)
}

/// The notification payload: a fixed heading and color hint, one field
/// per non-overdue event.
pub struct Embed {
    pub title: String,
    pub color: u32,
    pub fields: Vec<Field>,
}

/// The rendered due line for `days` remaining: singular `day` for
/// exactly one, plural `days` otherwise (also for zero).
pub open spec fn spec_body(days: int) -> Seq<char> {
    "Due: "@ + dec_rep(days) + (if days == 1 {
        " day"@
    } else {
        " days"@
    })
}

/// The payload fields for the events, in input order: an event dated
/// strictly before `today` is overdue and dropped; any other event
/// contributes its title and its due line.
pub open spec fn spec_fields(es: Seq<EventV>, today: Date) -> Seq<FieldV>
    decreases es.len(),
{
    if es.len() == 0 {
        Seq::empty()
    } else {
        let front = spec_fields(es.drop_last(), today);
        let e = es.last();
        if e.date.day_number() < today.day_number() {
            front
        } else {
            front.push(
                FieldV {
                    name: e.title,
                    value: spec_body(e.date.day_number() - today.day_number()),
                },
            )
        }
    }
}

/// Builds the payload. Total: an empty or all-overdue list yields an
/// empty-fields payload, and the caller decides whether that suppresses
/// the notification.
pub fn build_embed(events: &Vec<Event>, today: Date) -> (r: Embed)
    requires
        events_ok(eview(events@)),
        today.wf(),
    ensures
        r.title@ == "Events"@,
        r.color == 0x98c379,
        fview(r.fields@) == spec_fields(eview(events@), today),
{
    let mut fields: Vec<Field> = Vec::new();
    let tnum = today.day_number_exec();
    let n = events.len();
    let mut i: usize = 0;
    proof {
        assert(fview(fields@) =~= Seq::<FieldV>::empty());
        assert(eview(events@.take(0)) =~= Seq::<EventV>::empty());
    }
    while i < n
        invariant
            0 <= i <= n,
            n == events@.len(),
            events_ok(eview(events@)),
            today.wf(),
            tnum as int == today.day_number(),
            fview(fields@) == spec_fields(eview(events@.take(i as int)), today),
        decreases n - i,
    {
        proof {
            assert(eview(events@)[i as int] == events@[i as int]@);
            assert(eview(events@.take(i as int + 1)).drop_last() =~= eview(
                events@.take(i as int),
            ));
            assert(eview(events@.take(i as int + 1)).last() == events@[i as int]@);
        }
        let e = &events[i];
        let enumber = e.date.day_number_exec();
        if enumber >= tnum {
            let days: u64 = (enumber - tnum) as u64;
            let mut value = String::from_str("Due: ");
            let ds = u64_to_dec(days);
            value.append(ds.as_str());
            if days == 1 {
                value.append(" day");
            } else {
                value.append(" days");
            }
            let field = Field { name: e.title.clone(), value };
            proof {
                assert(field@.value =~= spec_body(days as int));
                assert(fview(fields@.push(field)) =~= fview(fields@).push(field@));
                assert(field@ =~= (FieldV {
                    name: events@[i as int]@.title,
                    value: spec_body(
                        events@[i as int]@.date.day_number() - today.day_number(),
                    ),
                }));
            }
            fields.push(field);
        }
        i += 1;
    }
    proof {
        assert(events@.take(n as int) =~= events@);
    }
    Embed { title: String::from_str("Events"), color: 0x98c379, fields }
}

/// Law: the overdue filter. Appending one event leaves the payload
/// fields unchanged when the event is dated strictly before `today`,
/// and appends exactly its field otherwise.
pub proof fn lemma_overdue_filter(es: Seq<EventV>, e: EventV, today: Date)
    ensures
        e.date.day_number() < today.day_number() ==> spec_fields(es.push(e), today)
            == spec_fields(es, today),
        e.date.day_number() >= today.day_number() ==> spec_fields(es.push(e), today)
            == spec_fields(es, today).push(
            FieldV { name: e.title, value: spec_body(e.date.day_number() - today.day_number()) },
        ),
{
    assert(es.push(e).drop_last() =~= es);
    assert(es.push(e).last() == e);
}

/// Law: an event dated exactly `today` is included, with zero remaining
/// days, rendered `Due: 0 days`.
pub proof fn lemma_due_today(es: Seq<EventV>, e: EventV, today: Date)
    requires
        e.date == today,
    ensures
        spec_fields(es.push(e), today) == spec_fields(es, today).push(
            FieldV { name: e.title, value: "Due: 0 days"@ },
        ),
{
    lemma_overdue_filter(es, e, today);
    reveal_strlit("Due: ");
    reveal_strlit(" days");
    reveal_strlit("Due: 0 days");
    assert(dec_rep(0) =~= seq!['0']);
    assert(spec_body(0) =~= "Due: 0 days"@);
}

/// Law: pluralization. Exactly one remaining day is rendered with the
/// singular `day`; any other count (zero included) with `days`.
pub proof fn lemma_day_plural(days: int)
    ensures
        days == 1 ==> spec_body(days) == "Due: 1 day"@,
        days != 1 ==> spec_body(days) == "Due: "@ + dec_rep(days) + " days"@,
{
    reveal_strlit("Due: ");
    reveal_strlit(" day");
    reveal_strlit("Due: 1 day");
    if days == 1 {
        assert(dec_rep(1) =~= seq!['1']);
        assert(spec_body(1) =~= "Due: 1 day"@);
    }
}

} // verus!

