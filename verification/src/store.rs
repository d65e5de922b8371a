//! The durable event store: the structured text format that holds the
//! event list, its parser and renderer, and the add operation.
//!
//! A store file is a sequence of lines. Blank lines and lines starting
//! with `#` are ignored; `[[events]]` opens an entry; `title = "..."`
//! and `date = "..."` fill it. String values are quoted, with `\\` and
//! `\"` as the two escapes; control characters cannot be stored.

use vstd::prelude::*;

use crate::date::{
    lemma_date_render_parse, parse_date, render_date, spec_parse_date, spec_render_date, Date,
};
use crate::text::str_eq;

verus! {

/// Whitespace that may surround tokens on a line.
pub open spec fn is_line_ws(c: char) -> bool {
    c == ' ' || c == '\t' || c == '\r'
}

/// Control characters; the store's text format cannot hold them inside
/// a string value.
pub open spec fn is_ctl(c: char) -> bool {
    (c as int) < 32 || c as int == 127
}

/// Whether every character of `s` can be stored in a string value.
pub open spec fn text_ok(s: Seq<char>) -> bool {
    forall|i: int| 0 <= i < s.len() ==> !is_ctl(#[trigger] s[i])
}

/// Executable twin of `is_line_ws`.
pub(crate) fn is_ws_exec(c: char) -> (r: bool)
    ensures
        r == is_line_ws(c),
{
    c == ' ' || c == '\t' || c == '\r'
}

/// Executable twin of `is_ctl`.
pub(crate) fn is_ctl_exec(c: char) -> (r: bool)
    ensures
        r == is_ctl(c),
{
    (c as u32) < 32 || (c as u32) == 127
}

/// How one character is written inside a quoted value.
pub open spec fn esc_char(c: char) -> Seq<char> {
    if c == '"' || c == '\\' {
        seq!['\\', c]
    } else {
        seq![c]
    }
}

/// How a whole string is written inside quotes.
pub open spec fn esc(s: Seq<char>) -> Seq<char>
    decreases s.len(),
{
    if s.len() == 0 {
        Seq::empty()
    } else {
        esc_char(s[0]) + esc(s.skip(1))
    }
}

/// Reading a quoted value back: `None` on a stray quote, a bad escape,
/// or a control character.
pub open spec fn unesc(s: Seq<char>) -> Option<Seq<char>>
    decreases s.len(),
{
    if s.len() == 0 {
        Some(Seq::empty())
    } else if s[0] == '\\' {
        if s.len() >= 2 && (s[1] == '\\' || s[1] == '"') {
            match unesc(s.skip(2)) {
                Some(r) => Some(seq![s[1]] + r),
                None => None,
            }
        } else {
            None
        }
    } else if s[0] == '"' || is_ctl(s[0]) {
        None
    } else {
        match unesc(s.skip(1)) {
            Some(r) => Some(seq![s[0]] + r),
            None => None,
        }
    }
}

/// Law: escaping loses nothing — a value free of control characters
/// reads back exactly as it was written.
pub proof fn lemma_unesc_esc(s: Seq<char>)
    requires
        text_ok(s),
    ensures
        unesc(esc(s)) == Some(s),
    decreases s.len(),
{
    if s.len() == 0 {
    } else {
        assert(text_ok(s.skip(1)));
        lemma_unesc_esc(s.skip(1));
        let rest = esc(s.skip(1));
        if s[0] == '"' || s[0] == '\\' {
            assert(esc(s) == seq!['\\', s[0]] + rest);
            assert((seq!['\\', s[0]] + rest).skip(2) =~= rest);
            assert(unesc(esc(s)) == Some(seq![s[0]] + s.skip(1)));
            assert(seq![s[0]] + s.skip(1) =~= s);
        } else {
            assert(esc(s) == seq![s[0]] + rest);
            assert(!is_ctl(s[0]));
            assert((seq![s[0]] + rest).skip(1) =~= rest);
            assert(unesc(esc(s)) == Some(seq![s[0]] + s.skip(1)));
            assert(seq![s[0]] + s.skip(1) =~= s);
        }
    }
}

/// An escaped value stays free of control characters (in particular it
/// contains no newline, so it stays on its line).
pub proof fn lemma_esc_no_ctl(s: Seq<char>)
    requires
        text_ok(s),
    ensures
        text_ok(esc(s)),
    decreases s.len(),
{
    if s.len() == 0 {
    } else {
        assert(text_ok(s.skip(1)));
        lemma_esc_no_ctl(s.skip(1));
        assert(!is_ctl('\\'));
        assert(forall|i: int|
            0 <= i < esc(s).len() ==> !is_ctl(#[trigger] esc(s)[i]));
    }
}

/// Dropping leading line whitespace.
pub open spec fn trim_front(s: Seq<char>) -> Seq<char>
    decreases s.len(),
{
    if s.len() > 0 && is_line_ws(s[0]) {
        trim_front(s.skip(1))
    } else {
        s
    }
}

/// Dropping trailing line whitespace.
pub open spec fn trim_back(s: Seq<char>) -> Seq<char>
    decreases s.len(),
{
    if s.len() > 0 && is_line_ws(s[s.len() - 1]) {
        trim_back(s.drop_last())
    } else {
        s
    }
}

/// A line with surrounding whitespace dropped.
pub open spec fn trim(s: Seq<char>) -> Seq<char> {
    trim_back(trim_front(s))
}

/// Returns the slice of `s` with surrounding line whitespace dropped.
pub(crate) fn trim_exec<'a>(s: &'a str) -> (r: &'a str)
    ensures
        r@ == trim(s@),
{
    let n = s.unicode_len();
    let mut a: usize = 0;
    proof {
        assert(s@.skip(0) =~= s@);
    }
    while a < n && is_ws_exec(s.get_char(a))
        invariant
            0 <= a <= n,
            n == s@.len(),
            trim_front(s@) == trim_front(s@.skip(a as int)),
        decreases n - a,
    {
        proof {
            assert(s@.skip(a as int)[0] == s@[a as int]);
            assert(s@.skip(a as int).skip(1) =~= s@.skip(a as int + 1));
        }
        a += 1;
    }
    proof {
        if a < n {
            assert(s@.skip(a as int)[0] == s@[a as int]);
        }
        assert(trim_front(s@) == s@.skip(a as int));
        assert(s@.skip(a as int) =~= s@.subrange(a as int, n as int));
    }
    let mut b: usize = n;
    while b > a && is_ws_exec(s.get_char(b - 1))
        invariant
            a <= b <= n,
            n == s@.len(),
            trim_back(s@.subrange(a as int, n as int)) == trim_back(
                s@.subrange(a as int, b as int),
            ),
        decreases b,
    {
        proof {
            let cur = s@.subrange(a as int, b as int);
            assert(cur[cur.len() - 1] == s@[b as int - 1]);
            assert(cur.drop_last() =~= s@.subrange(a as int, b as int - 1));
        }
        b -= 1;
    }
    proof {
        let cur = s@.subrange(a as int, b as int);
        if b > a {
            assert(cur[cur.len() - 1] == s@[b as int - 1]);
        }
        assert(trim_back(cur) == cur);
        assert(trim(s@) == s@.subrange(a as int, b as int));
    }
    s.substring_char(a, b)
}

/// One stored entry as raw text: a title and a date string.
pub struct EventFileEntry {
    pub title: String,
    pub date: String,
}

/// Ghost image of an entry.
#[verifier::ext_equal]
pub struct EntryV {
    pub title: Seq<char>,
    pub date: Seq<char>,
}

impl View for EventFileEntry {
    type V = EntryV;

    open spec fn view(&self) -> EntryV {
        EntryV { title: self.title@, date: self.date@ }
    }
}

/// The whole store file as entries, in file order.
pub struct EventsFile {
    pub events: Vec<EventFileEntry>,
}

impl View for EventsFile {
    type V = Seq<EntryV>;

    open spec fn view(&self) -> Seq<EntryV> {
        self.events@.map_values(|e: EventFileEntry| e@)
    }
}

/// What one line of the store file says.
pub enum LineV {
    Blank,
    Header,
    TitleKv(Seq<char>),
    DateKv(Seq<char>),
    Bad,
}

/// Executable image of `LineV`.
pub enum Line {
    Blank,
    Header,
    TitleKv(String),
    DateKv(String),
    Bad,
}

impl View for Line {
    type V = LineV;

    open spec fn view(&self) -> LineV {
        match self {
            Line::Blank => LineV::Blank,
            Line::Header => LineV::Header,
            Line::TitleKv(s) => LineV::TitleKv(s@),
            Line::DateKv(s) => LineV::DateKv(s@),
            Line::Bad => LineV::Bad,
        }
    }
}

/// Index of the first `=` in `s` (or `s.len()` when there is none).
pub open spec fn first_eq(s: Seq<char>) -> int
    decreases s.len(),
{
    if s.len() == 0 {
        0
    } else if s[0] == '=' {
        0
    } else {
        1 + first_eq(s.skip(1))
    }
}

/// `first_eq` is exactly the index of the first `=`.
proof fn lemma_first_eq_at(s: Seq<char>, i: int)
    requires
        0 <= i <= s.len(),
        forall|j: int| 0 <= j < i ==> s[j] != '=',
        i < s.len() ==> s[i] == '=',
    ensures
        first_eq(s) == i,
    decreases i,
{
    if i == 0 {
    } else {
        assert(s[0] != '=');
        lemma_first_eq_at(s.skip(1), i - 1);
    }
}

/// A quoted value: surrounding quotes, escaped interior.
pub open spec fn unquote(v: Seq<char>) -> Option<Seq<char>> {
    if v.len() >= 2 && v[0] == '"' && v[v.len() - 1] == '"' {
        unesc(v.subrange(1, v.len() - 1))
    } else {
        None
    }
}

/// Classifies one line (without its newline) of the store file.
pub open spec fn classify(l: Seq<char>) -> LineV {
    let t = trim(l);
    if t.len() == 0 || t[0] == '#' {
        LineV::Blank
    } else if t == "[[events]]"@ {
        LineV::Header
    } else {
        let e = first_eq(t);
        if e >= t.len() {
            LineV::Bad
        } else {
            let key = trim(t.take(e));
            let val = trim(t.skip(e + 1));
            if key == "title"@ {
                match unquote(val) {
                    Some(s) => LineV::TitleKv(s),
                    None => LineV::Bad,
                }
            } else if key == "date"@ {
                match unquote(val) {
                    Some(s) => LineV::DateKv(s),
                    None => LineV::Bad,
                }
            } else {
                LineV::Bad
            }
        }
    }
}

/// Reads a quoted value back into a plain string.
pub(crate) fn unesc_exec(v: &str) -> (r: Option<String>)
    ensures
        r is Some <==> unesc(v@) is Some,
        r is Some ==> r->Some_0@ == unesc(v@)->Some_0,
    decreases v@.len(),
{
    let n = v.unicode_len();
    if n == 0 {
        return Some(String::new());
    }
    let c = v.get_char(0);
    if c == '\\' {
        if n < 2 {
            return None;
        }
        let c2 = v.get_char(1);
        if c2 == '\\' || c2 == '"' {
            proof {
                assert(v@.subrange(2, n as int) =~= v@.skip(2));
            }
            match unesc_exec(v.substring_char(2, n)) {
                None => None,
                Some(rest) => {
                    let mut out = String::from_str(v.substring_char(1, 2));
                    out.append(rest.as_str());
                    proof {
                        assert(v@.subrange(1, 2) =~= seq![v@[1]]);
                    }
                    Some(out)
                },
            }
        } else {
            None
        }
    } else if c == '"' {
        None
    } else if is_ctl_exec(c) {
        None
    } else {
        proof {
            assert(v@.subrange(1, n as int) =~= v@.skip(1));
        }
        match unesc_exec(v.substring_char(1, n)) {
            None => None,
            Some(rest) => {
                let mut out = String::from_str(v.substring_char(0, 1));
                out.append(rest.as_str());
                proof {
                    assert(v@.subrange(0, 1) =~= seq![v@[0]]);
                }
                Some(out)
            },
        }
    }
}

/// Executable twin of `unquote`.
pub(crate) fn unquote_exec(v: &str) -> (r: Option<String>)
    ensures
        r is Some <==> unquote(v@) is Some,
        r is Some ==> r->Some_0@ == unquote(v@)->Some_0,
{
    let n = v.unicode_len();
    if n < 2 {
        return None;
    }
    if v.get_char(0) != '"' || v.get_char(n - 1) != '"' {
        return None;
    }
    unesc_exec(v.substring_char(1, n - 1))
}

/// Executable twin of `classify`.
pub(crate) fn classify_exec(l: &str) -> (r: Line)
    ensures
        r@ == classify(l@),
{
    let t = trim_exec(l);
    let n = t.unicode_len();
    if n == 0 {
        return Line::Blank;
    }
    if t.get_char(0) == '#' {
        return Line::Blank;
    }
    if str_eq(t, "[[events]]") {
        return Line::Header;
    }
    let mut e: usize = 0;
    while e < n && t.get_char(e) != '='
        invariant
            0 <= e <= n,
            n == t@.len(),
            forall|j: int| 0 <= j < e ==> t@[j] != '=',
        decreases n - e,
    {
        e += 1;
    }
    proof {
        lemma_first_eq_at(t@, e as int);
    }
    if e == n {
        return Line::Bad;
    }
    let key = trim_exec(t.substring_char(0, e));
    let val = trim_exec(t.substring_char(e + 1, n));
    proof {
        assert(t@.subrange(0, e as int) =~= t@.take(e as int));
        assert(t@.subrange(e as int + 1, n as int) =~= t@.skip(e as int + 1));
    }
    let is_title = str_eq(key, "title");
    let is_date = str_eq(key, "date");
    if !is_title && !is_date {
        return Line::Bad;
    }
    match unquote_exec(val) {
        None => Line::Bad,
        Some(s) => if is_title {
            Line::TitleKv(s)
        } else {
            Line::DateKv(s)
        },
    }
}

/// The header line that opens an entry.
pub open spec fn header_line() -> Seq<char> {
    "[[events]]"@
}

/// The line that writes an entry's title.
pub open spec fn title_line(t: Seq<char>) -> Seq<char> {
    "title = \""@ + esc(t) + "\""@
}

/// The line that writes an entry's date string.
pub open spec fn date_line(d: Seq<char>) -> Seq<char> {
    "date = \""@ + esc(d) + "\""@
}

/// A line break.
pub open spec fn nl() -> Seq<char> {
    seq!['\n']
}

/// How one entry is written: three lines.
pub open spec fn render_entry(e: EntryV) -> Seq<char> {
    header_line() + nl() + title_line(e.title) + nl() + date_line(e.date) + nl()
}

/// How a whole entry list is written.
pub open spec fn spec_render(es: Seq<EntryV>) -> Seq<char>
    decreases es.len(),
{
    if es.len() == 0 {
        Seq::empty()
    } else {
        render_entry(es[0]) + spec_render(es.skip(1))
    }
}

/// A partially read entry: the keys seen so far under the last
/// `[[events]]` header.
#[verifier::ext_equal]
pub struct PartialV {
    pub title: Option<Seq<char>>,
    pub date: Option<Seq<char>>,
}

/// Both keys of the entry have been seen.
pub open spec fn partial_done(p: PartialV) -> bool {
    p.title is Some && p.date is Some
}

/// The finished entry.
pub open spec fn entry_of(p: PartialV) -> EntryV {
    EntryV { title: p.title->Some_0, date: p.date->Some_0 }
}

/// Applies one line to the parse state (`None`: the file is malformed).
/// `cur` is `None` before the first `[[events]]` header.
pub open spec fn step(line: Seq<char>, cur: Option<PartialV>, acc: Seq<EntryV>) -> Option<
    (Option<PartialV>, Seq<EntryV>),
> {
    match classify(line) {
        LineV::Blank => Some((cur, acc)),
        LineV::Header => match cur {
            None => Some((Some(PartialV { title: None, date: None }), acc)),
            Some(p) => if partial_done(p) {
                Some((Some(PartialV { title: None, date: None }), acc.push(entry_of(p))))
            } else {
                None
            },
        },
        LineV::TitleKv(s) => match cur {
            None => None,
            Some(p) => if p.title is None {
                Some((Some(PartialV { title: Some(s), date: p.date }), acc))
            } else {
                None
            },
        },
        LineV::DateKv(s) => match cur {
            None => None,
            Some(p) => if p.date is None {
                Some((Some(PartialV { title: p.title, date: Some(s) }), acc))
            } else {
                None
            },
        },
        LineV::Bad => None,
    }
}

/// Closes the state at end of input.
pub open spec fn finish(cur: Option<PartialV>, acc: Seq<EntryV>) -> Option<Seq<EntryV>> {
    match cur {
        None => Some(acc),
        Some(p) => if partial_done(p) {
            Some(acc.push(entry_of(p)))
        } else {
            None
        },
    }
}

/// Parses `t` character by character; `line` is the current line read
/// so far.
pub open spec fn parse_rec(
    t: Seq<char>,
    line: Seq<char>,
    cur: Option<PartialV>,
    acc: Seq<EntryV>,
) -> Option<Seq<EntryV>>
    decreases t.len(),
{
    if t.len() == 0 {
        match step(line, cur, acc) {
            None => None,
            Some((c, a)) => finish(c, a),
        }
    } else if t[0] == '\n' {
        match step(line, cur, acc) {
            None => None,
            Some((c, a)) => parse_rec(t.skip(1), Seq::empty(), c, a),
        }
    } else {
        parse_rec(t.skip(1), line.push(t[0]), cur, acc)
    }
}

/// The entries a store file text holds; `None` when it is malformed.
pub open spec fn spec_parse(t: Seq<char>) -> Option<Seq<EntryV>> {
    parse_rec(t, Seq::empty(), None, Seq::empty())
}

/// Consuming one whole line at once agrees with the character-wise
/// definition: `k` is the position of the first newline (or the end).
proof fn lemma_consume_line(
    t: Seq<char>,
    k: int,
    line0: Seq<char>,
    cur: Option<PartialV>,
    acc: Seq<EntryV>,
)
    requires
        0 <= k <= t.len(),
        forall|j: int| 0 <= j < k ==> t[j] != '\n',
        k < t.len() ==> t[k] == '\n',
    ensures
        parse_rec(t, line0, cur, acc) == (match step(line0 + t.take(k), cur, acc) {
            None => None,
            Some((c, a)) => if k < t.len() {
                parse_rec(t.skip(k + 1), Seq::empty(), c, a)
            } else {
                finish(c, a)
            },
        }),
    decreases k,
{
    if k == 0 {
        assert(line0 + t.take(0) =~= line0);
    } else {
        assert(t[0] != '\n');
        assert(parse_rec(t, line0, cur, acc) == parse_rec(t.skip(1), line0.push(t[0]), cur, acc));
        lemma_consume_line(t.skip(1), k - 1, line0.push(t[0]), cur, acc);
        assert(line0.push(t[0]) + t.skip(1).take(k - 1) =~= line0 + t.take(k));
        if k < t.len() {
            assert(t.skip(1).skip(k) =~= t.skip(k + 1));
        }
    }
}

/// Executable image of `PartialV`.
pub struct Partial {
    pub title: Option<String>,
    pub date: Option<String>,
}

/// Ghost image of an optional string.
pub open spec fn oview(o: Option<String>) -> Option<Seq<char>> {
    match o {
        Some(s) => Some(s@),
        None => None,
    }
}

/// Ghost image of the executable parse state.
pub open spec fn cview(c: Option<Partial>) -> Option<PartialV> {
    match c {
        Some(p) => Some(PartialV { title: oview(p.title), date: oview(p.date) }),
        None => None,
    }
}

/// Ghost image of collected entries.
pub open spec fn aview(a: Seq<EventFileEntry>) -> Seq<EntryV> {
    a.map_values(|e: EventFileEntry| e@)
}

/// Parses the remaining text one line per call.
fn parse_rec_exec(s: &str, cur: Option<Partial>, acc: Vec<EventFileEntry>) -> (r: Option<
    Vec<EventFileEntry>,
>)
    ensures
        ({
            let sp = parse_rec(s@, Seq::empty(), cview(cur), aview(acc@));
            match r {
                None => sp is None,
                Some(v) => sp == Some(aview(v@)),
            }
        }),
    decreases s@.len(),
{
    let ghost cur0 = cview(cur);
    let ghost acc0 = aview(acc@);
    let n = s.unicode_len();
    let mut k: usize = 0;
    while k < n && s.get_char(k) != '\n'
        invariant
            0 <= k <= n,
            n == s@.len(),
            forall|j: int| 0 <= j < k ==> s@[j] != '\n',
        decreases n - k,
    {
        k += 1;
    }
    let line = s.substring_char(0, k);
    proof {
        lemma_consume_line(s@, k as int, Seq::empty(), cur0, acc0);
        assert(Seq::<char>::empty() + s@.take(k as int) =~= s@.take(k as int));
        assert(line@ == s@.take(k as int));
    }
    let cls = classify_exec(line);
    let stepped: Option<(Option<Partial>, Vec<EventFileEntry>)> = match cls {
        Line::Blank => Some((cur, acc)),
        Line::Header => match cur {
            None => Some((Some(Partial { title: None, date: None }), acc)),
            Some(p) => match (p.title, p.date) {
                (Some(tt), Some(dd)) => {
                    let mut acc2 = acc;
                    let entry = EventFileEntry { title: tt, date: dd };
                    proof {
                        assert(aview(acc2@.push(entry)) =~= aview(acc2@).push(entry@));
                    }
                    acc2.push(entry);
                    Some((Some(Partial { title: None, date: None }), acc2))
                },
                _ => None,
            },
        },
        Line::TitleKv(sv) => match cur {
            None => None,
            Some(p) => match p.title {
                None => Some((Some(Partial { title: Some(sv), date: p.date }), acc)),
                Some(_) => None,
            },
        },
        Line::DateKv(sv) => match cur {
            None => None,
            Some(p) => match p.date {
                None => Some((Some(Partial { title: p.title, date: Some(sv) }), acc)),
                Some(_) => None,
            },
        },
        Line::Bad => None,
    };
    match stepped {
        None => None,
        Some((c2, a2)) => {
            proof {
                assert(step(s@.take(k as int), cur0, acc0) == Some((cview(c2), aview(a2@))));
            }
            if k == n {
                match c2 {
                    None => Some(a2),
                    Some(p) => match (p.title, p.date) {
                        (Some(tt), Some(dd)) => {
                            let mut a3 = a2;
                            let entry = EventFileEntry { title: tt, date: dd };
                            proof {
                                assert(aview(a3@.push(entry)) =~= aview(a3@).push(entry@));
                            }
                            a3.push(entry);
                            Some(a3)
                        },
                        _ => None,
                    },
                }
            } else {
                parse_rec_exec(s.substring_char(k + 1, n), c2, a2)
            }
        },
    }
}

/// Parses a whole store file text into its entries, in file order.
pub fn parse_events(text: &str) -> (r: Option<EventsFile>)
    ensures
        r is Some <==> spec_parse(text@) is Some,
        r is Some ==> Some(r->Some_0@) == spec_parse(text@),
{
    let empty_acc: Vec<EventFileEntry> = Vec::new();
    proof {
        assert(aview(empty_acc@) =~= Seq::<EntryV>::empty());
    }
    match parse_rec_exec(text, None, empty_acc) {
        None => None,
        Some(v) => Some(EventsFile { events: v }),
    }
}

/// Writes a value as it stands inside quotes.
pub(crate) fn esc_exec(s: &str) -> (r: String)
    ensures
        r@ == esc(s@),
    decreases s@.len(),
{
    let n = s.unicode_len();
    if n == 0 {
        String::new()
    } else {
        let c = s.get_char(0);
        proof {
            assert(s@.subrange(1, n as int) =~= s@.skip(1));
        }
        let rest = esc_exec(s.substring_char(1, n));
        let mut out: String = if c == '"' {
            String::from_str("\\\"")
        } else if c == '\\' {
            String::from_str("\\\\")
        } else {
            String::from_str(s.substring_char(0, 1))
        };
        out.append(rest.as_str());
        proof {
            reveal_strlit("\\\"");
            reveal_strlit("\\\\");
            assert(s@.subrange(0, 1) =~= seq![s@[0]]);
            assert(out@ =~= esc_char(s@[0]) + esc(s@.skip(1)));
        }
        out
    }
}

/// Writes one entry as its three lines.
pub(crate) fn render_entry_exec(e: &EventFileEntry) -> (r: String)
    ensures
        r@ == render_entry(e@),
{
    let mut s = String::from_str("[[events]]");
    s.append("\n");
    s.append("title = \"");
    let et = esc_exec(e.title.as_str());
    s.append(et.as_str());
    s.append("\"");
    s.append("\n");
    s.append("date = \"");
    let ed = esc_exec(e.date.as_str());
    s.append(ed.as_str());
    s.append("\"");
    s.append("\n");
    proof {
        reveal_strlit("\n");
        reveal_strlit("\"");
        assert("\n"@ =~= nl());
        assert(s@ =~= render_entry(e@));
    }
    s
}

/// Writes the entries from index `i` on.
fn render_from(v: &Vec<EventFileEntry>, i: usize) -> (r: String)
    requires
        i <= v@.len(),
    ensures
        r@ == spec_render(aview(v@).skip(i as int)),
    decreases v@.len() - i,
{
    if i == v.len() {
        proof {
            assert(aview(v@).skip(i as int) =~= Seq::<EntryV>::empty());
        }
        String::new()
    } else {
        let mut s = render_entry_exec(&v[i]);
        let rest = render_from(v, i + 1);
        s.append(rest.as_str());
        proof {
            let a = aview(v@);
            assert(a.skip(i as int)[0] == a[i as int]);
            assert(a.skip(i as int).skip(1) =~= a.skip(i as int + 1));
        }
        s
    }
}

impl EventsFile {
    /// Writes the whole store file.
    pub fn to_string(&self) -> (r: String)
        ensures
            r@ == spec_render(self@),
    {
        let r = render_from(&self.events, 0);
        proof {
            assert(aview(self.events@).skip(0) =~= self@);
        }
        r
    }
}

/// No newline among the characters of `s`.
pub open spec fn no_nl(s: Seq<char>) -> bool {
    forall|j: int| 0 <= j < s.len() ==> s[j] != '\n'
}

/// Both string values of the entry can be stored.
pub open spec fn entry_ok(e: EntryV) -> bool {
    text_ok(e.title) && text_ok(e.date)
}

/// All entries can be stored.
pub open spec fn entries_ok(es: Seq<EntryV>) -> bool {
    forall|i: int| 0 <= i < es.len() ==> entry_ok(#[trigger] es[i])
}

proof fn lemma_no_nl_header()
    ensures
        no_nl(header_line()),
{
    reveal_strlit("[[events]]");
}

proof fn lemma_no_nl_title(t: Seq<char>)
    requires
        text_ok(t),
    ensures
        no_nl(title_line(t)),
{
    reveal_strlit("title = \"");
    reveal_strlit("\"");
    lemma_esc_no_ctl(t);
    assert(is_ctl('\n'));
    let l = title_line(t);
    assert forall|j: int| 0 <= j < l.len() implies l[j] != '\n' by {
        if 9 <= j < 9 + esc(t).len() {
            assert(l[j] == esc(t)[j - 9]);
            assert(!is_ctl(esc(t)[j - 9]));
        }
    };
}

proof fn lemma_no_nl_date(d: Seq<char>)
    requires
        text_ok(d),
    ensures
        no_nl(date_line(d)),
{
    reveal_strlit("date = \"");
    reveal_strlit("\"");
    lemma_esc_no_ctl(d);
    assert(is_ctl('\n'));
    let l = date_line(d);
    assert forall|j: int| 0 <= j < l.len() implies l[j] != '\n' by {
        if 8 <= j < 8 + esc(d).len() {
            assert(l[j] == esc(d)[j - 8]);
            assert(!is_ctl(esc(d)[j - 8]));
        }
    };
}

/// Consuming a rendered line: the text starts with a newline-free line,
/// then a break, then the rest.
proof fn lemma_consume_rendered_line(
    l: Seq<char>,
    rest: Seq<char>,
    cur: Option<PartialV>,
    acc: Seq<EntryV>,
)
    requires
        no_nl(l),
    ensures
        parse_rec(l + nl() + rest, Seq::empty(), cur, acc) == (match step(l, cur, acc) {
            None => None,
            Some((c, a)) => parse_rec(rest, Seq::empty(), c, a),
        }),
{
    let t = l + nl() + rest;
    let k = l.len() as int;
    assert(forall|j: int| 0 <= j < k ==> t[j] == l[j]);
    assert(t[k] == '\n');
    lemma_consume_line(t, k, Seq::empty(), cur, acc);
    assert(Seq::<char>::empty() + t.take(k) =~= l);
    assert(t.skip(k + 1) =~= rest);
}

proof fn lemma_classify_header()
    ensures
        classify(header_line()) == LineV::Header,
{
    reveal_strlit("[[events]]");
    let h = header_line();
    assert(!is_line_ws(h[0]));
    assert(trim_front(h) == h);
    assert(!is_line_ws(h[h.len() - 1]));
    assert(trim_back(h) == h);
    assert(trim(h) == h);
}

proof fn lemma_classify_title(t: Seq<char>)
    requires
        text_ok(t),
    ensures
        classify(title_line(t)) == LineV::TitleKv(t),
{
    reveal_strlit("title = \"");
    reveal_strlit("title");
    reveal_strlit("[[events]]");
    reveal_strlit("\"");
    let l = title_line(t);
    let pre = "title = \""@;
    assert(pre.len() == 9);
    assert(forall|j: int| 0 <= j < 9 ==> l[j] == pre[j]);
    assert(l[l.len() - 1] == '"');
    // the line is already trimmed
    assert(!is_line_ws(l[0]));
    assert(trim_front(l) == l);
    assert(!is_line_ws(l[l.len() - 1]));
    assert(trim_back(l) == l);
    assert(trim(l) == l);
    // not blank, not a header
    assert(l[0] != '#');
    assert(l != header_line());
    // the first `=` is at index 6
    assert forall|j: int| 0 <= j < 6 implies l[j] != '=' by {
        assert(l[j] == pre[j]);
    };
    assert(l[6] == '=');
    lemma_first_eq_at(l, 6);
    // the key is `title`
    let key0 = l.take(6);
    assert(trim_front(key0) == key0);
    assert(is_line_ws(key0[key0.len() - 1]));
    assert(key0.drop_last() =~= "title"@);
    assert(trim_back(key0) == trim_back("title"@));
    assert(trim_back("title"@) == "title"@);
    assert(trim(key0) == "title"@);
    // the value is the quoted title
    let val0 = l.skip(7);
    let qt = seq!['"'] + esc(t) + seq!['"'];
    assert(val0 =~= seq![' '] + qt);
    assert(is_line_ws(val0[0]));
    assert(val0.skip(1) =~= qt);
    assert(!is_line_ws(qt[0]));
    assert(trim_front(qt) == qt);
    assert(trim_front(val0) == trim_front(val0.skip(1)));
    assert(trim_front(val0) == qt);
    assert(!is_line_ws(qt[qt.len() - 1]));
    assert(trim_back(qt) == qt);
    assert(trim(val0) == qt);
    // unquoting gives the title back
    assert(qt[0] == '"' && qt[qt.len() - 1] == '"' && qt.len() >= 2);
    assert(qt.subrange(1, qt.len() - 1) =~= esc(t));
    lemma_unesc_esc(t);
    assert(unquote(qt) == Some(t));
}

proof fn lemma_classify_date(d: Seq<char>)
    requires
        text_ok(d),
    ensures
        classify(date_line(d)) == LineV::DateKv(d),
{
    reveal_strlit("date = \"");
    reveal_strlit("date");
    reveal_strlit("title");
    reveal_strlit("[[events]]");
    reveal_strlit("\"");
    let l = date_line(d);
    let pre = "date = \""@;
    assert(pre.len() == 8);
    assert(forall|j: int| 0 <= j < 8 ==> l[j] == pre[j]);
    assert(l[l.len() - 1] == '"');
    assert(!is_line_ws(l[0]));
    assert(trim_front(l) == l);
    assert(!is_line_ws(l[l.len() - 1]));
    assert(trim_back(l) == l);
    assert(trim(l) == l);
    assert(l[0] != '#');
    assert(l != header_line());
    assert forall|j: int| 0 <= j < 5 implies l[j] != '=' by {
        assert(l[j] == pre[j]);
    };
    assert(l[5] == '=');
    lemma_first_eq_at(l, 5);
    let key0 = l.take(5);
    assert(trim_front(key0) == key0);
    assert(is_line_ws(key0[key0.len() - 1]));
    assert(key0.drop_last() =~= "date"@);
    assert(trim_back(key0) == trim_back("date"@));
    assert(trim_back("date"@) == "date"@);
    assert(trim(key0) == "date"@);
    assert("date"@ != "title"@);
    let val0 = l.skip(6);
    let qt = seq!['"'] + esc(d) + seq!['"'];
    assert(val0 =~= seq![' '] + qt);
    assert(is_line_ws(val0[0]));
    assert(val0.skip(1) =~= qt);
    assert(!is_line_ws(qt[0]));
    assert(trim_front(qt) == qt);
    assert(trim_front(val0) == trim_front(val0.skip(1)));
    assert(trim_front(val0) == qt);
    assert(!is_line_ws(qt[qt.len() - 1]));
    assert(trim_back(qt) == qt);
    assert(trim(val0) == qt);
    assert(qt[0] == '"' && qt[qt.len() - 1] == '"' && qt.len() >= 2);
    assert(qt.subrange(1, qt.len() - 1) =~= esc(d));
    lemma_unesc_esc(d);
    assert(unquote(qt) == Some(d));
}

/// What `unesc` accepts is storable: it rejects control characters.
proof fn lemma_unesc_text_ok(s: Seq<char>)
    requires
        unesc(s) is Some,
    ensures
        text_ok(unesc(s)->Some_0),
    decreases s.len(),
{
    if s.len() == 0 {
    } else if s[0] == '\\' {
        lemma_unesc_text_ok(s.skip(2));
        assert(!is_ctl(s[1]));
        let r = unesc(s)->Some_0;
        assert forall|i: int| 0 <= i < r.len() implies !is_ctl(#[trigger] r[i]) by {
            if i > 0 {
                assert(r[i] == unesc(s.skip(2))->Some_0[i - 1]);
            }
        };
    } else {
        lemma_unesc_text_ok(s.skip(1));
        assert(!is_ctl(s[0]));
        let r = unesc(s)->Some_0;
        assert forall|i: int| 0 <= i < r.len() implies !is_ctl(#[trigger] r[i]) by {
            if i > 0 {
                assert(r[i] == unesc(s.skip(1))->Some_0[i - 1]);
            }
        };
    }
}

/// A value a line carries is storable.
proof fn lemma_classify_text_ok(l: Seq<char>)
    ensures
        classify(l) is TitleKv ==> text_ok(classify(l)->TitleKv_0),
        classify(l) is DateKv ==> text_ok(classify(l)->DateKv_0),
{
    let t = trim(l);
    if classify(l) is TitleKv || classify(l) is DateKv {
        let e = first_eq(t);
        let val = trim(t.skip(e + 1));
        assert(unquote(val) is Some);
        lemma_unesc_text_ok(val.subrange(1, val.len() - 1));
    }
}

/// The texts a partial entry holds are storable.
pub open spec fn partial_texts_ok(p: PartialV) -> bool {
    &&& (p.title matches Some(t) ==> text_ok(t))
    &&& (p.date matches Some(d) ==> text_ok(d))
}

/// The texts the parse state holds are storable.
pub open spec fn cur_texts_ok(cur: Option<PartialV>) -> bool {
    match cur {
        None => true,
        Some(p) => partial_texts_ok(p),
    }
}

/// One parse step keeps every held text storable.
proof fn lemma_step_ok(line: Seq<char>, cur: Option<PartialV>, acc: Seq<EntryV>)
    requires
        cur_texts_ok(cur),
        entries_ok(acc),
    ensures
        ({
            match step(line, cur, acc) {
                Some((c, a)) => cur_texts_ok(c) && entries_ok(a),
                None => true,
            }
        }),
{
    lemma_classify_text_ok(line);
    match step(line, cur, acc) {
        Some((c, a)) => {
            assert forall|i: int| 0 <= i < a.len() implies entry_ok(#[trigger] a[i]) by {
                if i < acc.len() {
                    assert(a[i] == acc[i]);
                }
            };
        },
        None => {},
    }
}

/// Whatever a parse returns consists of storable entries.
proof fn lemma_parse_rec_entries_ok(
    t: Seq<char>,
    line: Seq<char>,
    cur: Option<PartialV>,
    acc: Seq<EntryV>,
)
    requires
        cur_texts_ok(cur),
        entries_ok(acc),
    ensures
        ({
            match parse_rec(t, line, cur, acc) {
                Some(es) => entries_ok(es),
                None => true,
            }
        }),
    decreases t.len(),
{
    if t.len() == 0 {
        lemma_step_ok(line, cur, acc);
        match step(line, cur, acc) {
            Some((c, a)) => {
                match finish(c, a) {
                    Some(es) => {
                        assert forall|i: int| 0 <= i < es.len() implies entry_ok(
                            #[trigger] es[i],
                        ) by {
                            if i < a.len() {
                                assert(es[i] == a[i]);
                            }
                        };
                    },
                    None => {},
                }
            },
            None => {},
        }
    } else if t[0] == '\n' {
        lemma_step_ok(line, cur, acc);
        match step(line, cur, acc) {
            Some((c, a)) => {
                lemma_parse_rec_entries_ok(t.skip(1), Seq::empty(), c, a);
            },
            None => {},
        }
    } else {
        lemma_parse_rec_entries_ok(t.skip(1), line.push(t[0]), cur, acc);
    }
}

/// Law: whatever a store file parse accepts, it holds storable entries,
/// so the events read out of it carry storable titles.
pub proof fn lemma_parse_entries_ok(t: Seq<char>)
    ensures
        spec_parse(t) is Some ==> entries_ok(spec_parse(t)->Some_0),
{
    lemma_parse_rec_entries_ok(t, Seq::empty(), None, Seq::empty());
}

/// The events of storable entries carry storable titles.
proof fn lemma_events_of_entries_storable(es: Seq<EntryV>)
    requires
        entries_ok(es),
    ensures
        events_storable(events_of_entries(es)),
    decreases es.len(),
{
    if es.len() > 0 {
        assert(entries_ok(es.drop_last()));
        lemma_events_of_entries_storable(es.drop_last());
        let r = events_of_entries(es);
        let front = events_of_entries(es.drop_last());
        assert forall|i: int| 0 <= i < r.len() implies text_ok((#[trigger] r[i]).title) by {
            if i < front.len() {
                assert(r[i] == front[i]);
            }
        };
    }
}

/// Storable titles survive any reordering: the property only depends on
/// which events are there.
proof fn lemma_storable_from_multiset(a: Seq<EventV>, b: Seq<EventV>)
    requires
        a.to_multiset() == b.to_multiset(),
        events_storable(a),
    ensures
        events_storable(b),
{
    broadcast use vstd::seq_lib::group_to_multiset_ensures;

    assert forall|i: int| 0 <= i < b.len() implies text_ok((#[trigger] b[i]).title) by {
        assert(b.contains(b[i]));
        assert(b.to_multiset().count(b[i]) > 0);
        assert(a.contains(b[i]));
        let j = choose|j: int| 0 <= j < a.len() && a[j] == b[i];
        assert(text_ok(a[j].title));
    };
}

/// The entry a done parse state holds, as a sequence.
pub open spec fn closed(cur: Option<PartialV>) -> Seq<EntryV> {
    match cur {
        None => Seq::empty(),
        Some(p) => seq![entry_of(p)],
    }
}

/// The parse state is between entries: nothing half-read.
pub open spec fn cur_done(cur: Option<PartialV>) -> bool {
    match cur {
        None => true,
        Some(p) => partial_done(p),
    }
}

proof fn lemma_parse_render_rec(es: Seq<EntryV>, cur: Option<PartialV>, acc: Seq<EntryV>)
    requires
        entries_ok(es),
        cur_done(cur),
    ensures
        parse_rec(spec_render(es), Seq::empty(), cur, acc) == Some(acc + closed(cur) + es),
    decreases es.len(),
{
    if es.len() == 0 {
        assert(classify(Seq::empty()) == LineV::Blank);
        match cur {
            None => {
                assert(acc + closed(cur) + es =~= acc);
            },
            Some(p) => {
                assert(acc + closed(cur) + es =~= acc.push(entry_of(p)));
            },
        }
    } else {
        let e = es[0];
        let rest_entries = es.skip(1);
        let tail = spec_render(rest_entries);
        assert(entry_ok(e));
        assert(entries_ok(rest_entries)) by {
            assert(forall|i: int|
                0 <= i < rest_entries.len() ==> rest_entries[i] == es[i + 1]);
        };
        let t2 = date_line(e.date) + nl() + tail;
        let t1 = title_line(e.title) + nl() + t2;
        assert(spec_render(es) =~= header_line() + nl() + t1);
        // header line
        lemma_no_nl_header();
        lemma_classify_header();
        lemma_consume_rendered_line(header_line(), t1, cur, acc);
        let p00 = PartialV { title: None, date: None };
        let acc2 = acc + closed(cur);
        assert(step(header_line(), cur, acc) == Some((Some(p00), acc2))) by {
            match cur {
                None => {
                    assert(acc =~= acc2);
                },
                Some(p) => {
                    assert(acc.push(entry_of(p)) =~= acc2);
                },
            }
        };
        // title line
        lemma_no_nl_title(e.title);
        lemma_classify_title(e.title);
        lemma_consume_rendered_line(title_line(e.title), t2, Some(p00), acc2);
        let p1 = PartialV { title: Some(e.title), date: None };
        assert(step(title_line(e.title), Some(p00), acc2) == Some((Some(p1), acc2)));
        // date line
        lemma_no_nl_date(e.date);
        lemma_classify_date(e.date);
        lemma_consume_rendered_line(date_line(e.date), tail, Some(p1), acc2);
        let p2 = PartialV { title: Some(e.title), date: Some(e.date) };
        assert(step(date_line(e.date), Some(p1), acc2) == Some((Some(p2), acc2)));
        // the remaining entries
        lemma_parse_render_rec(rest_entries, Some(p2), acc2);
        assert(entry_of(p2) =~= e);
        assert(closed(Some(p2)) =~= seq![e]);
        assert(acc2 + closed(Some(p2)) + rest_entries =~= acc + closed(cur) + es);
    }
}

/// Law: a written entry list reads back exactly, in order — the store
/// file format loses nothing.
pub proof fn lemma_render_then_parse(es: Seq<EntryV>)
    requires
        entries_ok(es),
    ensures
        spec_parse(spec_render(es)) == Some(es),
{
    lemma_parse_render_rec(es, None, Seq::empty());
    assert(Seq::<EntryV>::empty() + closed(None) + es =~= es);
}

/// An event: a title and a real calendar date. Dates are validated at
/// the boundary (on add, and entry-wise on read), so an `Event` in
/// memory always carries a well-formed date.
#[derive(Debug)]
pub struct Event {
    pub title: String,
    pub date: Date,
}

/// Ghost image of an event.
#[verifier::ext_equal]
pub struct EventV {
    pub title: Seq<char>,
    pub date: Date,
}

impl View for Event {
    type V = EventV;

    open spec fn view(&self) -> EventV {
        EventV { title: self.title@, date: self.date }
    }
}

/// Ghost image of an event list.
pub open spec fn eview(s: Seq<Event>) -> Seq<EventV> {
    s.map_values(|e: Event| e@)
}

/// Every date in the list names a real calendar day.
pub open spec fn events_ok(es: Seq<EventV>) -> bool {
    forall|i: int| 0 <= i < es.len() ==> (#[trigger] es[i]).date.wf()
}

/// Every title in the list is free of control characters, so the text
/// format can hold it.
pub open spec fn events_storable(es: Seq<EventV>) -> bool {
    forall|i: int| 0 <= i < es.len() ==> text_ok((#[trigger] es[i]).title)
}

/// The events an entry list holds, in entry order: an entry whose date
/// string does not parse as `YYYY-MM-DD` is dropped.
pub open spec fn events_of_entries(es: Seq<EntryV>) -> Seq<EventV>
    decreases es.len(),
{
    if es.len() == 0 {
        Seq::empty()
    } else {
        let rest = events_of_entries(es.drop_last());
        match spec_parse_date(es.last().date) {
            Some(d) => rest.push(EventV { title: es.last().title, date: d }),
            None => rest,
        }
    }
}

/// How one event is written as an entry.
pub open spec fn entry_of_event(e: EventV) -> EntryV {
    EntryV { title: e.title, date: spec_render_date(e.date) }
}

/// How an event list is written as entries.
pub open spec fn entries_of_events(es: Seq<EventV>) -> Seq<EntryV> {
    es.map_values(|e: EventV| entry_of_event(e))
}

/// Turns parsed entries into events, dropping entries whose date string
/// does not parse.
fn entries_to_events(f: &EventsFile) -> (r: Vec<Event>)
    ensures
        eview(r@) == events_of_entries(f@),
        events_ok(eview(r@)),
{
    let mut out: Vec<Event> = Vec::new();
    let mut i: usize = 0;
    let n = f.events.len();
    proof {
        assert(f@.take(0) =~= Seq::<EntryV>::empty());
        assert(eview(out@) =~= Seq::<EventV>::empty());
    }
    while i < n
        invariant
            0 <= i <= n,
            n == f.events@.len(),
            n == f@.len(),
            eview(out@) == events_of_entries(f@.take(i as int)),
            events_ok(eview(out@)),
        decreases n - i,
    {
        proof {
            assert(f@.take(i as int + 1).drop_last() =~= f@.take(i as int));
            assert(f@.take(i as int + 1).last() == f@[i as int]);
            assert(f@[i as int] == f.events@[i as int]@);
        }
        let entry = &f.events[i];
        match parse_date(entry.date.as_str()) {
            Some(d) => {
                let ev = Event { title: entry.title.clone(), date: d };
                proof {
                    assert(d.wf());
                    assert(eview(out@.push(ev)) =~= eview(out@).push(ev@));
                }
                out.push(ev);
            },
            None => {},
        }
        i += 1;
    }
    proof {
        assert(f@.take(n as int) =~= f@);
    }
    out
}

/// Renders the whole store file text for an event list.
pub fn events_to_text(events: &Vec<Event>) -> (r: String)
    requires
        events_ok(eview(events@)),
    ensures
        r@ == spec_render(entries_of_events(eview(events@))),
{
    let mut entries: Vec<EventFileEntry> = Vec::new();
    let mut i: usize = 0;
    let n = events.len();
    proof {
        assert(aview(entries@) =~= entries_of_events(eview(events@.take(0))));
    }
    while i < n
        invariant
            0 <= i <= n,
            n == events@.len(),
            events_ok(eview(events@)),
            aview(entries@) == entries_of_events(eview(events@.take(i as int))),
        decreases n - i,
    {
        proof {
            assert(eview(events@)[i as int] == events@[i as int]@);
        }
        let e = &events[i];
        let fe = EventFileEntry { title: e.title.clone(), date: render_date(&e.date) };
        proof {
            assert(aview(entries@.push(fe)) =~= aview(entries@).push(fe@));
            assert(entries_of_events(eview(events@.take(i as int + 1))) =~= entries_of_events(
                eview(events@.take(i as int)),
            ).push(entry_of_event(events@[i as int]@)));
        }
        entries.push(fe);
        i += 1;
    }
    proof {
        assert(events@.take(n as int) =~= events@);
    }
    let f = EventsFile { events: entries };
    f.to_string()
}

/// A rendered date consists of digits and dashes only.
proof fn lemma_render_date_text_ok(d: Date)
    ensures
        text_ok(spec_render_date(d)),
{
    assert(forall|n: int| !is_ctl(#[trigger] crate::text::digit_of(n)));
    assert(!is_ctl('-'));
    let s = spec_render_date(d);
    assert forall|i: int| 0 <= i < s.len() implies !is_ctl(#[trigger] s[i]) by {
        assert(s.len() == 10);
    };
}

/// Rendering events as entries and reading the entries back yields the
/// events: every rendered date parses to the date it came from.
proof fn lemma_events_entries_round_trip(evs: Seq<EventV>)
    requires
        events_ok(evs),
    ensures
        events_of_entries(entries_of_events(evs)) == evs,
    decreases evs.len(),
{
    let es = entries_of_events(evs);
    if evs.len() == 0 {
        assert(es.len() == 0);
        assert(events_of_entries(es) =~= evs);
    } else {
        let front = evs.drop_last();
        assert(events_ok(front));
        lemma_events_entries_round_trip(front);
        assert(es.drop_last() =~= entries_of_events(front));
        assert(es.last() == entry_of_event(evs.last()));
        lemma_date_render_parse(evs.last().date);
        assert(events_of_entries(es) == events_of_entries(es.drop_last()).push(
            EventV { title: evs.last().title, date: evs.last().date },
        ));
        assert(EventV { title: evs.last().title, date: evs.last().date } =~= evs.last());
        assert(events_of_entries(es) =~= evs);
    }
}

/// Entries written for well-formed, storable events can be stored.
proof fn lemma_entries_of_events_ok(evs: Seq<EventV>)
    requires
        events_ok(evs),
        events_storable(evs),
    ensures
        entries_ok(entries_of_events(evs)),
{
    let es = entries_of_events(evs);
    assert forall|i: int| 0 <= i < es.len() implies entry_ok(#[trigger] es[i]) by {
        assert(es[i] == entry_of_event(evs[i]));
        assert(text_ok(evs[i].title));
        lemma_render_date_text_ok(evs[i].date);
    };
}

/// Law: the store round trip. Writing a list of well-formed, storable
/// events and parsing the text back yields exactly the written entries,
/// and reading dates out of those entries yields exactly the events.
pub proof fn lemma_write_then_read(evs: Seq<EventV>)
    requires
        events_ok(evs),
        events_storable(evs),
    ensures
        spec_parse(spec_render(entries_of_events(evs))) == Some(entries_of_events(evs)),
        events_of_entries(entries_of_events(evs)) == evs,
{
    lemma_entries_of_events_ok(evs);
    lemma_render_then_parse(entries_of_events(evs));
    lemma_events_entries_round_trip(evs);
}

/// Ascending by date; events of equal date may stand in any order.
pub open spec fn sorted_by_date(es: Seq<EventV>) -> bool {
    forall|i: int, j: int|
        0 <= i <= j < es.len() ==> (#[trigger] es[i]).date.day_number() <= (
        #[trigger] es[j]).date.day_number()
}

/// The events that fall on day number `k`.
pub open spec fn same_day(k: int) -> spec_fn(EventV) -> bool {
    |x: EventV| x.date.day_number() == k
}

/// Filtering away everything leaves nothing.
proof fn lemma_filter_none(s: Seq<EventV>, p: spec_fn(EventV) -> bool)
    requires
        forall|i: int| 0 <= i < s.len() ==> !p(#[trigger] s[i]),
    ensures
        s.filter(p) == Seq::<EventV>::empty(),
    decreases s.len(),
{
    reveal_with_fuel(Seq::<EventV>::filter, 1);
    if s.len() > 0 {
        lemma_filter_none(s.drop_last(), p);
    } else {
        assert(s =~= Seq::<EventV>::empty());
    }
}

/// One appended element lands at the end of the filtered view, or
/// nowhere.
proof fn lemma_filter_push(s: Seq<EventV>, x: EventV, p: spec_fn(EventV) -> bool)
    ensures
        s.push(x).filter(p) == (if p(x) {
            s.filter(p).push(x)
        } else {
            s.filter(p)
        }),
{
    reveal_with_fuel(Seq::<EventV>::filter, 1);
    assert(s.push(x).drop_last() =~= s);
    assert(s.push(x).last() == x);
}

/// Inserting anywhere in a sequence adds one occurrence to its multiset.
proof fn lemma_to_multiset_insert<A>(s: Seq<A>, i: int, a: A)
    requires
        0 <= i <= s.len(),
    ensures
        s.insert(i, a).to_multiset() == s.to_multiset().insert(a),
{
    broadcast use vstd::seq_lib::group_to_multiset_ensures;
    broadcast use vstd::multiset::group_multiset_axioms;

    let l = s.take(i);
    let r = s.skip(i);
    vstd::seq_lib::lemma_multiset_commutative(l.push(a), r);
    vstd::seq_lib::lemma_multiset_commutative(l, r);
    assert(s.insert(i, a) =~= l.push(a) + r);
    assert(l + r =~= s);
    assert(s.insert(i, a).to_multiset() =~= s.to_multiset().insert(a));
}

/// Inserts `e` into a date-sorted list, behind any events of the same
/// date already there.
fn insert_by_date(v: &mut Vec<Event>, e: Event)
    requires
        sorted_by_date(eview(old(v)@)),
        events_ok(eview(old(v)@)),
        e@.date.wf(),
    ensures
        sorted_by_date(eview(final(v)@)),
        events_ok(eview(final(v)@)),
        eview(final(v)@).to_multiset() == eview(old(v)@).to_multiset().insert(e@),
        // stability: the new event goes behind its date peers, and no
        // date group is reordered
        forall|k: int| #[trigger] eview(final(v)@).filter(same_day(k)) == (if k
            == e@.date.day_number() {
            eview(old(v)@).filter(same_day(k)).push(e@)
        } else {
            eview(old(v)@).filter(same_day(k))
        }),
{
    let key = e.date.day_number_exec();
    let n = v.len();
    let mut pos: usize = 0;
    proof {
        assert forall|i: int| 0 <= i < n implies (#[trigger] v@[i])@.date.wf() by {
            assert(eview(v@)[i] == v@[i]@);
        };
    }
    while pos < n && v[pos].date.day_number_exec() <= key
        invariant
            0 <= pos <= n,
            n == v@.len(),
            v@ == old(v)@,
            e@.date.wf(),
            events_ok(eview(v@)),
            forall|i: int| 0 <= i < n ==> (#[trigger] v@[i])@.date.wf(),
            sorted_by_date(eview(v@)),
            key as int == e@.date.day_number(),
            forall|i: int|
                0 <= i < pos ==> (#[trigger] eview(v@)[i]).date.day_number()
                    <= e@.date.day_number(),
        decreases n - pos,
    {
        proof {
            assert(eview(v@)[pos as int] == v@[pos as int]@);
        }
        pos += 1;
    }
    let ghost w = eview(v@);
    proof {
        if pos < n {
            assert(w[pos as int] == v@[pos as int]@);
            assert(w[pos as int].date.day_number() > e@.date.day_number());
        }
    }
    v.insert(pos, e);
    proof {
        assert(eview(v@) =~= w.insert(pos as int, e@));
        lemma_to_multiset_insert(w, pos as int, e@);
        let u = w.insert(pos as int, e@);
        assert forall|i: int, j: int| 0 <= i <= j < u.len() implies (#[trigger] u[i]).date.day_number()
            <= (#[trigger] u[j]).date.day_number() by {
            if i < pos && j > pos {
                assert(u[i] == w[i] && u[j] == w[j - 1]);
            } else if i == pos && j > pos {
                assert(u[j] == w[j - 1]);
                assert(w[pos as int].date.day_number() <= w[j - 1].date.day_number());
            }
        };
        assert forall|i: int| 0 <= i < u.len() implies (#[trigger] u[i]).date.wf() by {
            if i > pos {
                assert(u[i] == w[i - 1]);
            }
        };
        // stability
        broadcast use vstd::prelude::Seq::filter_distributes_over_add;

        let le = w.take(pos as int);
        let ri = w.skip(pos as int);
        assert(u =~= (le + seq![e@]) + ri);
        assert(w =~= le + ri);
        assert forall|k: int| #[trigger] u.filter(same_day(k)) == (if k == e@.date.day_number() {
            w.filter(same_day(k)).push(e@)
        } else {
            w.filter(same_day(k))
        }) by {
            reveal_with_fuel(Seq::<EventV>::filter, 1);
            let p = same_day(k);
            assert(seq![e@].drop_last() =~= Seq::<EventV>::empty());
            assert(Seq::<EventV>::empty().filter(p) == Seq::<EventV>::empty());
            assert(seq![e@].filter(p) == (if p(e@) {
                Seq::<EventV>::empty().push(e@)
            } else {
                Seq::<EventV>::empty()
            }));
            assert(u.filter(p) == le.filter(p) + seq![e@].filter(p) + ri.filter(p));
            assert(w.filter(p) == le.filter(p) + ri.filter(p));
            if k == e@.date.day_number() {
                assert forall|i: int| 0 <= i < ri.len() implies !p(#[trigger] ri[i]) by {
                    assert(ri[i] == w[pos + i]);
                    assert(w[pos + i].date.day_number() >= w[pos as int].date.day_number());
                };
                lemma_filter_none(ri, p);
                assert(u.filter(p) =~= w.filter(p).push(e@));
            } else {
                assert(!p(e@));
                assert(u.filter(p) =~= w.filter(p));
            }
        };
    }
}

/// Sorts a list of events ascending by date.
pub fn sort_events(events: &Vec<Event>) -> (r: Vec<Event>)
    requires
        events_ok(eview(events@)),
    ensures
        sorted_by_date(eview(r@)),
        events_ok(eview(r@)),
        eview(r@).to_multiset() == eview(events@).to_multiset(),
        // stability: within each date, the input order is kept
        forall|k: int| #[trigger] eview(r@).filter(same_day(k)) == eview(events@).filter(
            same_day(k),
        ),
{
    broadcast use vstd::seq_lib::group_to_multiset_ensures;

    let mut out: Vec<Event> = Vec::new();
    let mut i: usize = 0;
    let n = events.len();
    proof {
        assert(eview(out@) =~= Seq::<EventV>::empty());
        assert(eview(events@.take(0)) =~= Seq::<EventV>::empty());
        assert forall|k: int| #[trigger] eview(out@).filter(same_day(k)) == eview(
            events@.take(0),
        ).filter(same_day(k)) by {
            lemma_filter_none(eview(out@), same_day(k));
            lemma_filter_none(eview(events@.take(0)), same_day(k));
        };
    }
    while i < n
        invariant
            0 <= i <= n,
            n == events@.len(),
            events_ok(eview(events@)),
            sorted_by_date(eview(out@)),
            events_ok(eview(out@)),
            eview(out@).to_multiset() == eview(events@.take(i as int)).to_multiset(),
            forall|k: int| #[trigger] eview(out@).filter(same_day(k)) == eview(
                events@.take(i as int),
            ).filter(same_day(k)),
        decreases n - i,
    {
        let ghost out0 = eview(out@);
        broadcast use vstd::seq_lib::group_to_multiset_ensures;

        proof {
            assert(eview(events@)[i as int] == events@[i as int]@);
        }
        let e = &events[i];
        let ev = Event { title: e.title.clone(), date: e.date };
        proof {
            assert(ev@ == events@[i as int]@);
            assert(eview(events@.take(i as int + 1)) =~= eview(events@.take(i as int)).push(
                events@[i as int]@,
            ));
        }
        insert_by_date(&mut out, ev);
        proof {
            let el = events@[i as int]@;
            assert forall|k: int| #[trigger] eview(out@).filter(same_day(k)) == eview(
                events@.take(i as int + 1),
            ).filter(same_day(k)) by {
                lemma_filter_push(eview(events@.take(i as int)), el, same_day(k));
                assert(eview(events@.take(i as int + 1)) =~= eview(
                    events@.take(i as int),
                ).push(el));
                assert(eview(out@).filter(same_day(k)) == (if k == el.date.day_number() {
                    out0.filter(same_day(k)).push(el)
                } else {
                    out0.filter(same_day(k))
                }));
            };
        }
        i += 1;
    }
    proof {
        assert(events@.take(n as int) =~= events@);
    }
    out
}

/// Why a store file could not be read. `NotFound` is for the caller
/// that looks for the file on disk; parsing itself reports `Malformed`.
#[derive(Clone, Copy, Debug, PartialEq, Eq, Structural)]
pub enum ReadError {
    NotFound,
    Malformed,
}

/// Why an event could not be added.
#[derive(Clone, Copy, Debug, PartialEq, Eq, Structural)]
pub enum AddError {
    InvalidTitle,
    InvalidDate,
}

/// A title the store can hold: non-empty and free of control
/// characters.
pub open spec fn title_ok(t: Seq<char>) -> bool {
    t.len() > 0 && text_ok(t)
}

/// Executable twin of `title_ok`.
pub fn check_title(title: &str) -> (r: bool)
    ensures
        r == title_ok(title@),
{
    let n = title.unicode_len();
    if n == 0 {
        return false;
    }
    let mut i: usize = 0;
    while i < n
        invariant
            0 <= i <= n,
            n == title@.len(),
            forall|j: int| 0 <= j < i ==> !is_ctl(#[trigger] title@[j]),
        decreases n - i,
    {
        if is_ctl_exec(title.get_char(i)) {
            return false;
        }
        i += 1;
    }
    true
}

/// Reads the events a store file text holds. `Malformed` when the text
/// does not parse; otherwise the events of the entries whose date
/// strings parse (the rest are dropped), sorted ascending by date.
pub fn read_events_from_str(text: &str) -> (r: Result<Vec<Event>, ReadError>)
    ensures
        ({
            match r {
                Ok(v) => spec_parse(text@) is Some && sorted_by_date(eview(v@)) && events_ok(
                    eview(v@),
                ) && events_storable(eview(v@)) && eview(v@).to_multiset() == events_of_entries(
                    spec_parse(text@)->Some_0,
                ).to_multiset() && (forall|k: int|
                    #[trigger] eview(v@).filter(same_day(k)) == events_of_entries(
                        spec_parse(text@)->Some_0,
                    ).filter(same_day(k))),
                Err(e) => spec_parse(text@) is None && e == ReadError::Malformed,
            }
        }),
{
    match parse_events(text) {
        None => Err(ReadError::Malformed),
        Some(f) => {
            let evs = entries_to_events(&f);
            let r = sort_events(&evs);
            proof {
                lemma_parse_entries_ok(text@);
                lemma_events_of_entries_storable(f@);
                lemma_storable_from_multiset(eview(evs@), eview(r@));
            }
            Ok(r)
        },
    }
}

/// Parses the user-entered date, inserts the new event, and returns the
/// full list re-sorted ascending by date. On a rejected title or date
/// nothing is inserted and the error says which input was at fault, so
/// the caller leaves the store as it was.
pub fn add(events: Vec<Event>, title: &str, date_text: &str) -> (r: Result<Vec<Event>, AddError>)
    requires
        events_ok(eview(events@)),
    ensures
        ({
            match r {
                Ok(v) => title_ok(title@) && spec_parse_date(date_text@) is Some && sorted_by_date(
                    eview(v@),
                ) && events_ok(eview(v@)) && eview(v@).to_multiset() == eview(
                    events@,
                ).to_multiset().insert(
                    EventV { title: title@, date: spec_parse_date(date_text@)->Some_0 },
                ) && (forall|k: int|
                    #[trigger] eview(v@).filter(same_day(k)) == (if k == spec_parse_date(
                        date_text@,
                    )->Some_0.day_number() {
                        eview(events@).filter(same_day(k)).push(
                            EventV { title: title@, date: spec_parse_date(date_text@)->Some_0 },
                        )
                    } else {
                        eview(events@).filter(same_day(k))
                    })),
                Err(AddError::InvalidTitle) => !title_ok(title@),
                Err(AddError::InvalidDate) => title_ok(title@) && spec_parse_date(
                    date_text@,
                ) is None,
            }
        }),
{
    if !check_title(title) {
        return Err(AddError::InvalidTitle);
    }
    match parse_date(date_text) {
        None => Err(AddError::InvalidDate),
        Some(d) => {
            let mut sorted = sort_events(&events);
            let ev = Event { title: String::from_str(title), date: d };
            proof {
                assert(d.wf());
            }
            insert_by_date(&mut sorted, ev);
            Ok(sorted)
        },
    }
}

/// How an add command ended, once reading, adding and writing are done.
#[derive(Clone, Copy, Debug, PartialEq, Eq, Structural)]
pub enum AddOutcome {
    Created,
    BadTitle,
    BadDate,
    ReadFailed,
    WriteFailed,
}

/// The user-facing reply for each add outcome; fixed wording.
pub fn add_reply(o: &AddOutcome) -> (r: String)
    ensures
        ({
            match o {
                AddOutcome::Created => r@ == "Created!"@,
                AddOutcome::BadTitle => r@ == "Invalid argument: 'title'"@,
                AddOutcome::BadDate => r@
                    == "Failed to parse date; please enter ISO 8601-formatted date (YYYY-MM-DD)"@,
                AddOutcome::ReadFailed => r@ == "Failed to read events"@,
                AddOutcome::WriteFailed => r@ == "Failed to write events to file"@,
            }
        }),
{
    match o {
        AddOutcome::Created => String::from_str("Created!"),
        AddOutcome::BadTitle => String::from_str("Invalid argument: 'title'"),
        AddOutcome::BadDate => String::from_str(
            "Failed to parse date; please enter ISO 8601-formatted date (YYYY-MM-DD)",
        ),
        AddOutcome::ReadFailed => String::from_str("Failed to read events"),
        AddOutcome::WriteFailed => String::from_str("Failed to write events to file"),
    }
}

} // verus!
