//! The listing of a database's events.

use vstd::prelude::*;

use crate::kpep::{
    keep_events, models_of, pair_texts, CpuInfo, CpuModel, DatabaseModel, EventModel, KpepDatabase, KpepEvent,
};
use crate::numerals::{
    align_left, align_right, decimal, hexadecimal, set_left, set_right, to_decimal,
    to_hexadecimal,
};
use crate::text::{contains_text, holds_text, lowercase, lowercase_of, texts};

verus! {

/// Whether an event's lowercase name or description holds a lowercase keyword.
pub fn mentions(name: &str, description: &str, keyword: &str) -> (r: bool)
    ensures
        r == (holds_text(name@, keyword@) || holds_text(description@, keyword@)),
{
    contains_text(name, keyword) || contains_text(description, keyword)
}

/// Whether an event passes a filter: its name or description holds the keyword, in whatever
/// case.
pub open spec fn passes(event: EventModel, filter: Option<Seq<char>>) -> bool {
    match filter {
        Some(keyword) => holds_text(lowercase_of(event.name), lowercase_of(keyword)) || holds_text(
            lowercase_of(event.description),
            lowercase_of(keyword),
        ),
        None => true,
    }
}

/// The text of an optional filter.
pub open spec fn filter_text(filter: Option<&str>) -> Option<Seq<char>> {
    match filter {
        Some(keyword) => Some(keyword@),
        None => None,
    }
}

/// Whether an event passes a filter.
pub fn passes_filter(event: &KpepEvent, filter: Option<&str>) -> (r: bool)
    ensures
        r == passes(event@, filter_text(filter)),
{
    match filter {
        Some(keyword) => {
            let keyword = lowercase(keyword);
            let name = lowercase(event.name.as_str());
            let description = lowercase(event.description.as_str());
            mentions(name.as_str(), description.as_str(), keyword.as_str())
        },
        None => true,
    }
}

/// The events that a listing shows: those that can be programmed and pass the filter.
pub open spec fn shown(events: Seq<EventModel>, filter: Option<Seq<char>>) -> Seq<EventModel> {
    events.filter(|e: EventModel| e.configurable()).filter(|e: EventModel| passes(e, filter))
}

/// The row of an alias.
pub open spec fn alias_row(alias: (Seq<char>, Seq<char>)) -> Seq<char> {
    "  "@ + alias.0 + " -> "@ + alias.1
}

/// The row of a fixed event.
pub open spec fn fixed_row(event: EventModel) -> Seq<char> {
    "  [fixed "@ + decimal(
        match event.fixed_counter {
            Some(n) => n as nat,
            None => 0,
        },
    ) + "] "@ + set_left(event.name, 35) + " "@ + event.description
}

/// Which slots an event can be counted in.
pub open spec fn slots_text(mask: Option<u64>) -> Seq<char> {
    match mask {
        Some(m) => "mask=0x"@ + hexadecimal(m as nat),
        None => "any slot"@,
    }
}

/// The row of an event that can be programmed.
pub open spec fn event_row(event: EventModel) -> Seq<char> {
    "  ["@ + set_right(
        decimal(
            match event.number {
                Some(n) => n as nat,
                None => 0,
            },
        ),
        3,
    ) + "] "@ + set_left(event.name, 35) + " ("@ + slots_text(event.counters_mask) + ") "@
        + event.description
}

/// The lines about the CPU.
pub open spec fn cpu_lines(cpu: CpuModel) -> Seq<Seq<char>> {
    seq![
        "CPU: "@ + cpu.marketing_name + " ("@ + cpu.architecture + ")"@,
        "Fixed counters: "@ + decimal(cpu.fixed_counters as nat) + ", Configurable counters: "@
            + decimal(cpu.config_counters as nat),
    ]
}

/// Rows under a heading with a blank line before it.
pub open spec fn section(heading: Seq<char>, rows: Seq<Seq<char>>) -> Seq<Seq<char>> {
    seq![Seq::empty(), heading] + rows
}

/// A section, or nothing if it has no rows.
pub open spec fn section_if_any(heading: Seq<char>, rows: Seq<Seq<char>>) -> Seq<Seq<char>> {
    if rows.len() == 0 {
        Seq::empty()
    } else {
        section(heading, rows)
    }
}

/// The rows of fixed events.
pub open spec fn fixed_rows(events: Seq<EventModel>) -> Seq<Seq<char>> {
    events.map_values(|e: EventModel| fixed_row(e))
}

/// The rows of events that can be programmed.
pub open spec fn event_rows(events: Seq<EventModel>) -> Seq<Seq<char>> {
    events.map_values(|e: EventModel| event_row(e))
}

/// The rows of aliases.
pub open spec fn alias_rows(aliases: Seq<(Seq<char>, Seq<char>)>) -> Seq<Seq<char>> {
    aliases.map_values(|a: (Seq<char>, Seq<char>)| alias_row(a))
}

/// The lines of a listing.
pub open spec fn listing(db: DatabaseModel, filter: Option<Seq<char>>) -> Seq<Seq<char>> {
    let events = shown(db.events, filter);
    cpu_lines(db.cpu) + section_if_any("Aliases:"@, alias_rows(db.cpu.aliases)) + section_if_any(
        "Fixed counters:"@,
        fixed_rows(db.events.filter(|e: EventModel| e.fixed())),
    ) + section("Configurable events:"@, event_rows(events)) + seq![
        Seq::empty(),
        decimal(events.len()) + " events listed."@,
    ]
}

fn push_line(lines: &mut Vec<String>, line: String)
    ensures
        texts(final(lines)@) == texts(old(lines)@).push(line@),
{
    let ghost before = lines@;
    lines.push(line);
    assert(texts(lines@) =~= texts(before).push(line@));
}

fn write_alias_row(alias: &(String, String)) -> (r: String)
    ensures
        r@ == alias_row((alias.0@, alias.1@)),
{
    let mut r = "  ".to_owned();
    r.append(alias.0.as_str());
    r.append(" -> ");
    r.append(alias.1.as_str());
    r
}

fn write_fixed_row(event: &KpepEvent) -> (r: String)
    ensures
        r@ == fixed_row(event@),
{
    let index: u64 = match event.fixed_counter {
        Some(n) => n,
        None => 0,
    };
    let mut r = "  [fixed ".to_owned();
    r.append(to_decimal(index).as_str());
    r.append("] ");
    r.append(align_left(event.name.as_str(), 35).as_str());
    r.append(" ");
    r.append(event.description.as_str());
    r
}

fn write_slots(mask: Option<u64>) -> (r: String)
    ensures
        r@ == slots_text(mask),
{
    match mask {
        Some(m) => {
            let mut r = "mask=0x".to_owned();
            r.append(to_hexadecimal(m).as_str());
            r
        },
        None => "any slot".to_owned(),
    }
}

fn write_event_row(event: &KpepEvent) -> (r: String)
    ensures
        r@ == event_row(event@),
{
    let number: u64 = match event.number {
        Some(n) => n,
        None => 0,
    };
    let mut r = "  [".to_owned();
    r.append(align_right(to_decimal(number).as_str(), 3).as_str());
    r.append("] ");
    r.append(align_left(event.name.as_str(), 35).as_str());
    r.append(" (");
    r.append(write_slots(event.counters_mask).as_str());
    r.append(") ");
    r.append(event.description.as_str());
    r
}

fn push_cpu_lines(lines: &mut Vec<String>, cpu: &CpuInfo)
    ensures
        texts(final(lines)@) == texts(old(lines)@) + cpu_lines(cpu@),
{
    let ghost head = texts(lines@);
    let mut line = "CPU: ".to_owned();
    line.append(cpu.marketing_name.as_str());
    line.append(" (");
    line.append(cpu.architecture.as_str());
    line.append(")");
    push_line(lines, line);
    let mut line = "Fixed counters: ".to_owned();
    line.append(to_decimal(cpu.fixed_counters).as_str());
    line.append(", Configurable counters: ");
    line.append(to_decimal(cpu.config_counters).as_str());
    push_line(lines, line);
    assert(texts(lines@) =~= head + cpu_lines(cpu@));
}

fn push_aliases(lines: &mut Vec<String>, cpu: &CpuInfo)
    ensures
        texts(final(lines)@) == texts(old(lines)@) + section_if_any(
            "Aliases:"@,
            alias_rows(cpu@.aliases),
        ),
{
    let ghost head = texts(lines@);
    let ghost rows = alias_rows(cpu@.aliases);
    if cpu.aliases.len() > 0 {
        push_line(lines, String::new());
        push_line(lines, "Aliases:".to_owned());
        assert(texts(lines@) =~= head + section("Aliases:"@, rows.take(0)));
        for i in 0..cpu.aliases.len()
            invariant
                rows == alias_rows(pair_texts(cpu.aliases@)),
                texts(lines@) == head + section("Aliases:"@, rows.take(i as int)),
        {
            push_line(lines, write_alias_row(&cpu.aliases[i]));
            assert(pair_texts(cpu.aliases@)[i as int] == (
                cpu.aliases@[i as int].0@,
                cpu.aliases@[i as int].1@,
            ));
            assert(texts(lines@) =~= head + section("Aliases:"@, rows.take(i + 1)));
        }
        assert(rows.take(rows.len() as int) =~= rows);
    } else {
        assert(texts(lines@) =~= head + section_if_any("Aliases:"@, rows));
    }
}

fn push_fixed_events(lines: &mut Vec<String>, events: &Vec<&KpepEvent>)
    ensures
        texts(final(lines)@) == texts(old(lines)@) + section_if_any(
            "Fixed counters:"@,
            fixed_rows(models_of(events@)),
        ),
{
    let ghost head = texts(lines@);
    let ghost rows = fixed_rows(models_of(events@));
    if events.len() > 0 {
        push_line(lines, String::new());
        push_line(lines, "Fixed counters:".to_owned());
        assert(texts(lines@) =~= head + section("Fixed counters:"@, rows.take(0)));
        for i in 0..events.len()
            invariant
                rows == fixed_rows(models_of(events@)),
                texts(lines@) == head + section("Fixed counters:"@, rows.take(i as int)),
        {
            push_line(lines, write_fixed_row(events[i]));
            assert(models_of(events@)[i as int] == events@[i as int]@);
            assert(texts(lines@) =~= head + section("Fixed counters:"@, rows.take(i + 1)));
        }
        assert(rows.take(rows.len() as int) =~= rows);
    } else {
        assert(texts(lines@) =~= head + section_if_any("Fixed counters:"@, rows));
    }
}

fn push_events(lines: &mut Vec<String>, events: &Vec<&KpepEvent>)
    ensures
        texts(final(lines)@) == texts(old(lines)@) + section(
            "Configurable events:"@,
            event_rows(models_of(events@)),
        ),
{
    let ghost head = texts(lines@);
    let ghost rows = event_rows(models_of(events@));
    push_line(lines, String::new());
    push_line(lines, "Configurable events:".to_owned());
    assert(texts(lines@) =~= head + section("Configurable events:"@, rows.take(0)));
    for i in 0..events.len()
        invariant
            rows == event_rows(models_of(events@)),
            texts(lines@) == head + section("Configurable events:"@, rows.take(i as int)),
    {
        push_line(lines, write_event_row(events[i]));
        assert(models_of(events@)[i as int] == events@[i as int]@);
        assert(texts(lines@) =~= head + section("Configurable events:"@, rows.take(i + 1)));
    }
    assert(rows.take(rows.len() as int) =~= rows);
}

/// Lists a database's CPU, aliases and events, as lines of text.
///
/// Of the events that can be programmed only those that pass the filter are listed.
pub fn list_events(db: &KpepDatabase, filter: Option<&str>) -> (r: Vec<String>)
    ensures
        texts(r@) == listing(db@, filter_text(filter)),
{
    let configurable = db.configurable_events();
    let test = |e: &KpepEvent| -> (kept: bool)
        ensures
            kept == passes(e@, filter_text(filter)),
    {
        passes_filter(e, filter)
    };
    let events = keep_events(
        configurable.as_slice(),
        test,
        Ghost(|e: EventModel| passes(e, filter_text(filter))),
    );
    let mut lines: Vec<String> = Vec::new();
    push_cpu_lines(&mut lines, db.cpu_info());
    push_aliases(&mut lines, db.cpu_info());
    push_fixed_events(&mut lines, &db.fixed_events());
    push_events(&mut lines, &events);
    let mut line = to_decimal(events.len() as u64);
    line.append(" events listed.");
    push_line(&mut lines, String::new());
    push_line(&mut lines, line);
    assert(texts(lines@) =~= listing(db@, filter_text(filter)));
    lines
}

proof fn lemma_filtered_twice(
    events: Seq<EventModel>,
    first: spec_fn(EventModel) -> bool,
    second: spec_fn(EventModel) -> bool,
)
    ensures
        events.filter(first).filter(second) == events.filter(
            |e: EventModel| first(e) && second(e),
        ),
    decreases events.len(),
{
    reveal(Seq::filter);
    if events.len() > 0 {
        let init = events.drop_last();
        lemma_filtered_twice(init, first, second);
        let before = init.filter(first);
        if first(events.last()) {
            assert(before.push(events.last()).drop_last() =~= before);
        }
    }
}

/// The events that a listing shows are those with a number that no fixed counter counts and that
/// pass the filter. Without a filter all pass it; with one those do whose name or description
/// holds it, all in small letters.
pub proof fn lemma_shown_events(events: Seq<EventModel>, filter: Option<Seq<char>>, event: EventModel)
    ensures
        shown(events, filter) == events.filter(
            |e: EventModel| e.number is Some && e.fixed_counter is None && passes(e, filter),
        ),
        passes(event, None),
        filter matches Some(keyword) ==> (passes(event, filter) <==> holds_text(
            lowercase_of(event.name),
            lowercase_of(keyword),
        ) || holds_text(lowercase_of(event.description), lowercase_of(keyword))),
{
    let first = |e: EventModel| e.configurable();
    let second = |e: EventModel| passes(e, filter);
    let both = |e: EventModel| e.number is Some && e.fixed_counter is None && passes(e, filter);
    lemma_filtered_twice(events, first, second);
    assert((|e: EventModel| first(e) && second(e)) =~= both);
}

/// What stands in each line of a listing: the CPU and its counters, then the aliases, then the
/// fixed events, each under their heading if there are any, then the events that are shown, and
/// last how many these are. Each event stands with its own index or number, name, slots and
/// description.
pub proof fn lemma_listing_line_by_line(db: DatabaseModel, filter: Option<Seq<char>>, i: int)
    ensures
        ({
            let lines = listing(db, filter);
            let aliases = db.cpu.aliases;
            let fixed = db.events.filter(|e: EventModel| e.fixed_counter is Some);
            let events = shown(db.events, filter);
            let a = if aliases.len() == 0 {
                2int
            } else {
                4int + aliases.len()
            };
            let b = if fixed.len() == 0 {
                a
            } else {
                a + 2 + fixed.len()
            };
            let c = b + 2 + events.len();
            &&& lines.len() == c + 2
            &&& lines[0] == "CPU: "@ + db.cpu.marketing_name + " ("@ + db.cpu.architecture + ")"@
            &&& lines[1] == "Fixed counters: "@ + decimal(db.cpu.fixed_counters as nat)
                + ", Configurable counters: "@ + decimal(db.cpu.config_counters as nat)
            &&& aliases.len() > 0 ==> lines[2].len() == 0 && lines[3] == "Aliases:"@
            &&& 0 <= i < aliases.len() ==> lines[4 + i] == "  "@ + aliases[i].0 + " -> "@
                + aliases[i].1
            &&& fixed.len() > 0 ==> lines[a].len() == 0 && lines[a + 1] == "Fixed counters:"@
            &&& 0 <= i < fixed.len() ==> (fixed[i].fixed_counter matches Some(n) && lines[a + 2 + i]
                == "  [fixed "@ + decimal(n as nat) + "] "@ + set_left(fixed[i].name, 35) + " "@
                + fixed[i].description)
            &&& lines[b].len() == 0 && lines[b + 1] == "Configurable events:"@
            &&& 0 <= i < events.len() ==> (events[i].number matches Some(n) && lines[b + 2 + i]
                == "  ["@ + set_right(decimal(n as nat), 3) + "] "@ + set_left(events[i].name, 35)
                + " ("@ + (match events[i].counters_mask {
                Some(m) => "mask=0x"@ + hexadecimal(m as nat),
                None => "any slot"@,
            }) + ") "@ + events[i].description)
            &&& lines[c].len() == 0
            &&& lines[c + 1] == decimal(events.len()) + " events listed."@
        }),
{
    let fixed_now = |e: EventModel| e.fixed();
    let fixed_raw = |e: EventModel| e.fixed_counter is Some;
    assert(fixed_now =~= fixed_raw);
    let fixed = db.events.filter(fixed_raw);
    let events = shown(db.events, filter);
    let wanted = |e: EventModel|
        e.number is Some && e.fixed_counter is None && passes(e, filter);
    lemma_shown_events(db.events, filter, arbitrary());
    if 0 <= i < fixed.len() {
        db.events.lemma_filter_pred(fixed_raw, i);
    }
    if 0 <= i < events.len() {
        db.events.lemma_filter_pred(wanted, i);
    }
}

} // verus!
