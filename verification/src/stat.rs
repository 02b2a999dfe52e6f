//! Measuring a command: what is asked for, which events are counted, and the report.

use vstd::prelude::*;

use crate::kpc::{named_values, CounterDelta, KpcManager};
use crate::kpep::{
    first_named, lemma_first_named, lemma_first_named_is, models_of, DatabaseModel, EventModel,
    KpepDatabase, KpepEvent,
};
use crate::numerals::{
    align_left, align_right, decimal, fmt_comma, in_threes, lemma_in_threes_fits, read_unsigned,
    set_left, set_right, signed_decimal, to_decimal, to_signed_decimal, unsigned_in,
};
use crate::text::{comma_parts, lemma_comma_parts, same_text, split_at_commas, texts};

verus! {

/// What the program is asked to do.
#[derive(Debug, Clone, Copy, PartialEq, Eq, Structural)]
pub enum Task {
    /// List the events.
    List,
    /// Measure a command.
    Stat,
    /// Say how it is used.
    Help,
    /// Nothing that it knows.
    Unknown,
}

/// The task that the program's arguments, its own name first, name.
pub open spec fn task_in(args: Seq<Seq<char>>) -> Task {
    if args.len() < 2 {
        Task::Unknown
    } else if args[1] == "list"@ {
        Task::List
    } else if args[1] == "stat"@ {
        Task::Stat
    } else if args[1] == "help"@ || args[1] == "--help"@ || args[1] == "-h"@ {
        Task::Help
    } else {
        Task::Unknown
    }
}

/// Finds the task that the program's arguments name.
pub fn parse_task(args: &[String]) -> (r: Task)
    ensures
        r == task_in(texts(args@)),
        r == Task::List <==> args@.len() >= 2 && args@[1]@ == "list"@,
        r == Task::Stat <==> args@.len() >= 2 && args@[1]@ == "stat"@,
        r == Task::Help <==> args@.len() >= 2 && (args@[1]@ == "help"@ || args@[1]@ == "--help"@
            || args@[1]@ == "-h"@),
{
    proof {
        reveal_strlit("list");
        reveal_strlit("stat");
        reveal_strlit("help");
        reveal_strlit("--help");
        reveal_strlit("-h");
        assert("list"@[0] == 'l' && "stat"@[0] == 's' && "help"@[0] == 'h');
        assert("--help"@[0] == '-' && "-h"@[0] == '-');
        assert("list"@.len() == 4 && "stat"@.len() == 4 && "help"@.len() == 4);
    }
    if args.len() < 2 {
        return Task::Unknown;
    }
    assert(texts(args@)[1] == args@[1]@);
    let word = args[1].as_str();
    if same_text(word, "list") {
        Task::List
    } else if same_text(word, "stat") {
        Task::Stat
    } else if same_text(word, "help") || same_text(word, "--help") || same_text(word, "-h") {
        Task::Help
    } else {
        Task::Unknown
    }
}

/// How a command is to be measured.
#[derive(Debug)]
pub struct StatOptions {
    /// The names of the events to count; none if the default events are to be counted.
    pub events: Vec<String>,
    /// Whether all of the system is to be measured, not the command alone.
    pub system_wide: bool,
    /// Whether the report is to be without colors.
    pub no_color: bool,
    /// Whether only marked regions of the command are to be measured.
    pub region: bool,
    /// Where among the arguments the command starts.
    pub cmd_start: usize,
}

/// How a command is to be measured, in the terms that contracts speak of.
pub struct OptionsModel {
    pub events: Seq<Seq<char>>,
    pub system_wide: bool,
    pub no_color: bool,
    pub region: bool,
    pub cmd_start: int,
}

impl View for StatOptions {
    type V = OptionsModel;

    open spec fn view(&self) -> OptionsModel {
        OptionsModel {
            events: texts(self.events@),
            system_wide: self.system_wide,
            no_color: self.no_color,
            region: self.region,
            cmd_start: self.cmd_start as int,
        }
    }
}

/// The options before any argument was read.
pub open spec fn no_options() -> OptionsModel {
    OptionsModel {
        events: Seq::empty(),
        system_wide: false,
        no_color: false,
        region: false,
        cmd_start: 0,
    }
}

/// The options once the arguments from `i` on have been read.
///
/// Options come first; `--`, or the first argument that is no option, ends them. Where nothing
/// ends them, the command would start behind the last argument.
pub open spec fn read_options(args: Seq<Seq<char>>, i: int, so_far: OptionsModel) -> OptionsModel
    decreases args.len() - i,
{
    if i < 0 || i >= args.len() {
        OptionsModel { cmd_start: args.len() as int, ..so_far }
    } else if args[i] == "--events"@ || args[i] == "-e"@ {
        if i + 1 < args.len() {
            read_options(
                args,
                i + 2,
                OptionsModel { events: comma_parts(args[i + 1]), ..so_far },
            )
        } else {
            OptionsModel { cmd_start: args.len() as int, ..so_far }
        }
    } else if args[i] == "-s"@ {
        read_options(args, i + 1, OptionsModel { system_wide: true, ..so_far })
    } else if args[i] == "--no-color"@ {
        read_options(args, i + 1, OptionsModel { no_color: true, ..so_far })
    } else if args[i] == "--region"@ {
        read_options(args, i + 1, OptionsModel { region: true, ..so_far })
    } else if args[i] == "--"@ {
        OptionsModel { cmd_start: i + 1, ..so_far }
    } else {
        OptionsModel { cmd_start: i, ..so_far }
    }
}

/// The options in the arguments of a measurement.
pub open spec fn options_in(args: Seq<Seq<char>>) -> OptionsModel {
    read_options(args, 0, no_options())
}

proof fn lemma_options_end_alike(
    args: Seq<Seq<char>>,
    more: Seq<Seq<char>>,
    i: int,
    so_far: OptionsModel,
)
    requires
        0 <= i,
        read_options(args, i, so_far).cmd_start < args.len(),
    ensures
        read_options(args + more, i, so_far) == read_options(args, i, so_far),
    decreases args.len() - i,
{
    if i < args.len() {
        assert((args + more)[i] == args[i]);
        if args[i] == "--events"@ || args[i] == "-e"@ {
            if i + 1 < args.len() {
                assert((args + more)[i + 1] == args[i + 1]);
                let next = OptionsModel { events: comma_parts(args[i + 1]), ..so_far };
                lemma_options_end_alike(args, more, i + 2, next);
            }
        } else if args[i] == "-s"@ {
            let next = OptionsModel { system_wide: true, ..so_far };
            lemma_options_end_alike(args, more, i + 1, next);
        } else if args[i] == "--no-color"@ {
            let next = OptionsModel { no_color: true, ..so_far };
            lemma_options_end_alike(args, more, i + 1, next);
        } else if args[i] == "--region"@ {
            let next = OptionsModel { region: true, ..so_far };
            lemma_options_end_alike(args, more, i + 1, next);
        }
    }
}

/// The command's own arguments are never taken for options: once a command is named, whatever
/// follows changes nothing about the options.
pub proof fn lemma_command_arguments_are_no_options(
    args: Seq<Seq<char>>,
    more: Seq<Seq<char>>,
)
    requires
        options_in(args).cmd_start < args.len(),
    ensures
        options_in(args + more) == options_in(args),
{
    lemma_options_end_alike(args, more, 0, no_options());
}

/// Whether the arguments from `i` on are options only, `--` at their end among them.
pub open spec fn options_only(args: Seq<Seq<char>>, i: int) -> bool
    decreases args.len() - i,
{
    if i < 0 || i >= args.len() {
        true
    } else if args[i] == "--events"@ || args[i] == "-e"@ {
        i + 1 == args.len() || options_only(args, i + 2)
    } else if args[i] == "-s"@ || args[i] == "--no-color"@ || args[i] == "--region"@ {
        options_only(args, i + 1)
    } else {
        args[i] == "--"@ && i + 1 == args.len()
    }
}

proof fn lemma_no_command_behind(args: Seq<Seq<char>>, i: int, so_far: OptionsModel)
    requires
        0 <= i,
    ensures
        read_options(args, i, so_far).cmd_start <= args.len(),
        read_options(args, i, so_far).cmd_start == args.len() <==> options_only(args, i),
    decreases args.len() - i,
{
    lemma_option_words_differ();
    if i < args.len() {
        if args[i] == "--events"@ || args[i] == "-e"@ {
            if i + 1 < args.len() {
                let next = OptionsModel { events: comma_parts(args[i + 1]), ..so_far };
                lemma_no_command_behind(args, i + 2, next);
            }
        } else if args[i] == "-s"@ {
            lemma_no_command_behind(args, i + 1, OptionsModel { system_wide: true, ..so_far });
        } else if args[i] == "--no-color"@ {
            lemma_no_command_behind(args, i + 1, OptionsModel { no_color: true, ..so_far });
        } else if args[i] == "--region"@ {
            lemma_no_command_behind(args, i + 1, OptionsModel { region: true, ..so_far });
        }
    }
}

/// Arguments that are options only name no command, and all others do.
pub proof fn lemma_options_only_name_no_command(args: Seq<Seq<char>>)
    ensures
        options_in(args).cmd_start >= args.len() <==> options_only(args, 0),
{
    lemma_no_command_behind(args, 0, no_options());
}

proof fn lemma_option_words_differ()
    ensures
        "-e"@ != "--events"@,
        "-s"@ != "--events"@ && "-s"@ != "-e"@,
        "--no-color"@ != "--events"@ && "--no-color"@ != "-e"@ && "--no-color"@ != "-s"@,
        "--region"@ != "--events"@ && "--region"@ != "-e"@ && "--region"@ != "-s"@ && "--region"@
            != "--no-color"@,
        "--"@ != "--events"@ && "--"@ != "-e"@ && "--"@ != "-s"@ && "--"@ != "--no-color"@ && "--"@
            != "--region"@,
{
    reveal_strlit("--events");
    reveal_strlit("-e");
    reveal_strlit("-s");
    reveal_strlit("--no-color");
    reveal_strlit("--region");
    reveal_strlit("--");
    assert("--events"@[2] == 'e' && "--region"@[2] == 'r');
    assert("--events"@.len() == 8 && "--region"@.len() == 8 && "--no-color"@.len() == 10);
    assert("-e"@.len() == 2 && "-s"@.len() == 2 && "--"@.len() == 2);
    assert("-e"@[1] == 'e' && "-s"@[1] == 's' && "--"@[1] == '-');
}

/// Each option has its effect, and the command is what follows `--`.
pub proof fn lemma_options_before_dashes(list: Seq<char>, command: Seq<Seq<char>>)
    ensures
        options_in(seq!["--"@] + command) == (OptionsModel { cmd_start: 1, ..no_options() }),
        options_in(seq!["-e"@, list, "--"@] + command) == (OptionsModel {
            events: comma_parts(list),
            cmd_start: 3,
            ..no_options()
        }),
        options_in(seq!["-s"@, "--"@] + command) == (OptionsModel {
            system_wide: true,
            cmd_start: 2,
            ..no_options()
        }),
        options_in(seq!["--no-color"@, "--"@] + command) == (OptionsModel {
            no_color: true,
            cmd_start: 2,
            ..no_options()
        }),
        options_in(seq!["--region"@, "--"@] + command) == (OptionsModel {
            region: true,
            cmd_start: 2,
            ..no_options()
        }),
{
    lemma_option_words_differ();
    reveal_with_fuel(read_options, 3);
}

/// Reads the arguments of a measurement. `None` if they name no command.
pub fn parse_stat_args(args: &[String]) -> (r: Option<StatOptions>)
    ensures
        r is Some <==> options_in(texts(args@)).cmd_start < args@.len(),
        r matches Some(options) ==> options@ == options_in(texts(args@)),
{
    let ghost all = texts(args@);
    let len: usize = args.len();
    let mut options = StatOptions {
        events: Vec::new(),
        system_wide: false,
        no_color: false,
        region: false,
        cmd_start: 0,
    };
    let mut i: usize = 0;
    let mut open: bool = true;
    assert(options@.events =~= Seq::empty());
    while open && i < len
        invariant
            len == args@.len(),
            all == texts(args@),
            i <= len,
            options@.cmd_start <= len,
            options_in(all) == (if open {
                read_options(all, i as int, options@)
            } else {
                options@
            }),
        decreases len - i, if open { 1int } else { 0int },
    {
        assert(all[i as int] == args@[i as int]@);
        let word = args[i].as_str();
        if same_text(word, "--events") || same_text(word, "-e") {
            if i + 1 < len {
                assert(all[i + 1] == args@[i + 1]@);
                options.events = split_at_commas(args[i + 1].as_str());
                i += 2;
            } else {
                options.cmd_start = len;
                open = false;
            }
        } else if same_text(word, "-s") {
            options.system_wide = true;
            i += 1;
        } else if same_text(word, "--no-color") {
            options.no_color = true;
            i += 1;
        } else if same_text(word, "--region") {
            options.region = true;
            i += 1;
        } else if same_text(word, "--") {
            options.cmd_start = i + 1;
            open = false;
        } else {
            options.cmd_start = i;
            open = false;
        }
    }
    if open || options.cmd_start >= len {
        return None;
    }
    Some(options)
}

/// Whether a report has colors, given the option and whether `NO_COLOR` is set.
pub fn colored(no_color: bool, no_color_is_set: bool) -> (r: bool)
    ensures
        r == !(no_color || no_color_is_set),
{
    !(no_color || no_color_is_set)
}

/// Whether the command is measured by a library injected into it: unless there is no library, or
/// all of the system is to be measured and no regions of the command are.
pub fn uses_injection(system_wide: bool, region: bool, library_is_there: bool) -> (r: bool)
    ensures
        r == (library_is_there && (region || !system_wide)),
{
    library_is_there && (region || !system_wide)
}

/// The number that an optional text holds.
pub open spec fn id_in(text: Option<&str>) -> Option<u32> {
    match text {
        Some(s) => unsigned_in(s@),
        None => None,
    }
}

fn read_id(text: Option<&str>) -> (r: Option<u32>)
    ensures
        r == id_in(text),
{
    match text {
        Some(s) => read_unsigned(s),
        None => None,
    }
}

/// The user and group that the command runs as, if not those of the program, given the texts of
/// `SUDO_UID` and `SUDO_GID`.
///
/// With the injected library the command stays root, so that it can read its own counters.
/// Otherwise it runs as the user who called `sudo`, if both ids are known.
pub fn command_user(injected: bool, uid: Option<&str>, gid: Option<&str>) -> (r: Option<(u32, u32)>)
    ensures
        r == (match (id_in(uid), id_in(gid)) {
            (Some(u), Some(g)) => if injected {
                None
            } else {
                Some((u, g))
            },
            _ => None,
        }),
{
    if injected {
        return None;
    }
    match (read_id(uid), read_id(gid)) {
        (Some(u), Some(g)) => Some((u, g)),
        _ => None,
    }
}

/// The events that are counted when none are named.
pub open spec fn default_names() -> Seq<Seq<char>> {
    seq![
        "L1D_CACHE_MISS_LD"@,
        "L1D_CACHE_MISS_ST"@,
        "ATOMIC_OR_EXCLUSIVE_FAIL"@,
        "MAP_STALL"@,
        "LDST_X64_UOP"@,
        "BRANCH_MISPRED_NONSPEC"@,
        "MAP_SIMD_UOP"@,
        "SCHEDULE_EMPTY"@,
    ]
}

/// The events that are counted when none are named.
pub fn default_events() -> (r: Vec<String>)
    ensures
        texts(r@) == default_names(),
        r@.len() == 8,
        r@[0]@ == "L1D_CACHE_MISS_LD"@,
        r@[1]@ == "L1D_CACHE_MISS_ST"@,
        r@[2]@ == "ATOMIC_OR_EXCLUSIVE_FAIL"@,
        r@[3]@ == "MAP_STALL"@,
        r@[4]@ == "LDST_X64_UOP"@,
        r@[5]@ == "BRANCH_MISPRED_NONSPEC"@,
        r@[6]@ == "MAP_SIMD_UOP"@,
        r@[7]@ == "SCHEDULE_EMPTY"@,
{
    let r: Vec<String> = vec![
        "L1D_CACHE_MISS_LD".to_owned(),
        "L1D_CACHE_MISS_ST".to_owned(),
        "ATOMIC_OR_EXCLUSIVE_FAIL".to_owned(),
        "MAP_STALL".to_owned(),
        "LDST_X64_UOP".to_owned(),
        "BRANCH_MISPRED_NONSPEC".to_owned(),
        "MAP_SIMD_UOP".to_owned(),
        "SCHEDULE_EMPTY".to_owned(),
    ];
    assert(texts(r@) =~= default_names());
    r
}

/// The names of the events to count.
pub open spec fn names_to_count(named: Seq<Seq<char>>) -> Seq<Seq<char>> {
    if named.len() == 0 {
        default_names()
    } else {
        named
    }
}

/// The names of the events to count: those that were named, or the default.
pub fn events_to_count(named: Vec<String>) -> (r: Vec<String>)
    ensures
        texts(r@) == names_to_count(texts(named@)),
        named@.len() > 0 ==> r@ == named@,
        named@.len() == 0 ==> texts(r@) == default_names(),
{
    if named.len() == 0 {
        default_events()
    } else {
        named
    }
}

/// The events with the given names, in their order; names that are unknown are passed over.
pub open spec fn known_events(db: DatabaseModel, names: Seq<Seq<char>>) -> Seq<EventModel>
    decreases names.len(),
{
    if names.len() == 0 {
        Seq::empty()
    } else {
        let before = known_events(db, names.drop_last());
        match db.named(names.last()) {
            Some(event) => before.push(event),
            None => before,
        }
    }
}

/// The names that are unknown, in their order.
pub open spec fn unknown_names(db: DatabaseModel, names: Seq<Seq<char>>) -> Seq<Seq<char>> {
    names.filter(|name: Seq<char>| db.named(name) is None)
}

/// Looks up the events to count, and lists the names that are unknown.
pub fn select_events<'a>(db: &'a KpepDatabase, names: &Vec<String>) -> (r: (
    Vec<&'a KpepEvent>,
    Vec<String>,
))
    ensures
        models_of(r.0@) == known_events(db@, texts(names@)),
        texts(r.1@) == unknown_names(db@, texts(names@)),
{
    let ghost all = texts(names@);
    let ghost lost = |name: Seq<char>| db@.named(name) is None;
    let mut events: Vec<&'a KpepEvent> = Vec::new();
    let mut unknown: Vec<String> = Vec::new();
    assert(models_of(events@) =~= known_events(db@, all.take(0)));
    assert(texts(unknown@) =~= all.take(0).filter(lost)) by {
        reveal(Seq::filter);
    }
    for i in 0..names.len()
        invariant
            all == texts(names@),
            lost == (|name: Seq<char>| db@.named(name) is None),
            models_of(events@) == known_events(db@, all.take(i as int)),
            texts(unknown@) == all.take(i as int).filter(lost),
    {
        proof {
            reveal(Seq::filter);
            assert(all.take(i + 1).drop_last() =~= all.take(i as int));
            assert(all.take(i + 1).last() == names@[i as int]@);
        }
        match db.event_by_name(names[i].as_str()) {
            Some(event) => {
                let ghost before = events@;
                events.push(event);
                assert(models_of(events@) =~= models_of(before).push(event@));
            },
            None => {
                let ghost before = unknown@;
                unknown.push(names[i].clone());
                assert(texts(unknown@) =~= texts(before).push(names@[i as int]@));
            },
        }
    }
    assert(all.take(all.len() as int) =~= all);
    (events, unknown)
}

/// Every name is either that of an event to count or reported as unknown.
pub proof fn lemma_selection_loses_nothing(db: DatabaseModel, names: Seq<Seq<char>>)
    ensures
        known_events(db, names).len() + unknown_names(db, names).len() == names.len(),
    decreases names.len(),
{
    reveal(Seq::filter);
    if names.len() > 0 {
        lemma_selection_loses_nothing(db, names.drop_last());
    }
}

fn quoted(before: &str, name: &str, after: &str) -> (r: String)
    ensures
        r@ == before@ + name@ + after@,
{
    let mut r = before.to_owned();
    r.append(name);
    r.append(after);
    r
}

/// What is said of a name that no event has.
pub fn unknown_event_warning(name: &str) -> (r: String)
    ensures
        r@ == "Warning: unknown event '"@ + name@ + "', skipping"@,
{
    quoted("Warning: unknown event '", name, "', skipping")
}

/// What is said of an event that found no slot.
pub fn unassigned_event_warning(name: &str) -> (r: String)
    ensures
        r@ == "Warning: could not assign '"@ + name@ + "' to any counter slot, skipping"@,
{
    quoted("Warning: could not assign '", name, "' to any counter slot, skipping")
}

/// What is said of the machine before a measurement.
pub fn machine_line(marketing_name: &str, mgr: &KpcManager) -> (r: String)
    ensures
        r@ == "CPU: "@ + marketing_name@ + " ("@ + decimal(mgr@.n_fixed as nat) + " fixed + "@
            + decimal(mgr@.n_config as nat) + " configurable counters, "@ + decimal(
            mgr@.ncpu as nat,
        ) + " CPUs)"@,
{
    let mut r = "CPU: ".to_owned();
    r.append(marketing_name);
    r.append(" (");
    r.append(to_decimal(mgr.n_fixed() as u64).as_str());
    r.append(" fixed + ");
    r.append(to_decimal(mgr.n_configurable() as u64).as_str());
    r.append(" configurable counters, ");
    r.append(to_decimal(mgr.ncpu() as u64).as_str());
    r.append(" CPUs)");
    r
}

/// What is said of a command that failed, given the code that it ended with, if any.
pub fn exit_line(code: Option<i32>) -> (r: String)
    ensures
        r@ == "  (exit status "@ + (match code {
            Some(n) => "Some("@ + signed_decimal(n as int) + ")"@,
            None => "None"@,
        }) + ")"@,
{
    let status = match code {
        Some(n) => quoted("Some(", to_signed_decimal(n).as_str(), ")"),
        None => "None".to_owned(),
    };
    quoted("  (exit status ", status.as_str(), ")")
}

/// A line of a report: what it counts, and a comment on it that may be set off by color.
#[derive(Debug)]
pub struct StatLine {
    pub head: String,
    pub comment: String,
}

/// A line of a report, in the terms that contracts speak of.
pub struct LineModel {
    pub head: Seq<char>,
    pub comment: Seq<char>,
}

impl View for StatLine {
    type V = LineModel;

    open spec fn view(&self) -> LineModel {
        LineModel { head: self.head@, comment: self.comment@ }
    }
}

/// The models of lines.
pub open spec fn line_models(lines: Seq<StatLine>) -> Seq<LineModel> {
    lines.map_values(|l: StatLine| l@)
}

/// A line without a comment.
pub open spec fn plain_line(text: Seq<char>) -> LineModel {
    LineModel { head: text, comment: Seq::empty() }
}

/// The row of a counter: its value to the right, its label, and in a column of its own a
/// comment if there is one.
pub open spec fn counter_row(
    value: u64,
    label: Seq<char>,
    comment: Seq<char>,
    width: int,
) -> LineModel {
    let count = "  "@ + set_right(in_threes(decimal(value as nat)), 20) + "  "@;
    if comment.len() == 0 {
        plain_line(count + label)
    } else {
        LineModel { head: count + set_left(label, width), comment: "  # "@ + comment }
    }
}

fn write_counter_row(value: u64, label: &str, comment: &str, width: usize) -> (r: StatLine)
    ensures
        r@ == counter_row(value, label@, comment@, width as int),
{
    let mut head = "  ".to_owned();
    head.append(align_right(fmt_comma(value).as_str(), 20).as_str());
    head.append("  ");
    let mut tail = String::new();
    if comment.unicode_len() == 0 {
        head.append(label);
    } else {
        head.append(align_left(label, width).as_str());
        tail.append("  # ");
        tail.append(comment);
    }
    let r = StatLine { head, comment: tail };
    assert(r@.comment =~= counter_row(value, label@, comment@, width as int).comment);
    r
}

/// The width of the longest label, those of the fixed counters among them.
pub open spec fn label_width(counters: Seq<(Seq<char>, u64)>) -> nat
    decreases counters.len(),
{
    if counters.len() == 0 {
        "instructions"@.len()
    } else {
        let before = label_width(counters.drop_last());
        if counters.last().0.len() > before {
            counters.last().0.len()
        } else {
            before
        }
    }
}

fn measure_labels(counters: &Vec<(&str, u64)>) -> (r: usize)
    ensures
        r == label_width(named_values(counters@)),
{
    let ghost all = named_values(counters@);
    let mut r: usize = "instructions".unicode_len();
    for i in 0..counters.len()
        invariant
            all == named_values(counters@),
            r == label_width(all.take(i as int)),
    {
        assert(all.take(i + 1).drop_last() =~= all.take(i as int));
        assert(all.take(i + 1).last() == (counters@[i as int].0@, counters@[i as int].1));
        let len: usize = counters[i].0.unicode_len();
        if len > r {
            r = len;
        }
    }
    assert(all.take(all.len() as int) =~= all);
    r
}

/// The description of the event with a name, if it is among the given ones.
pub open spec fn description_of(events: Seq<EventModel>, name: Seq<char>) -> Seq<char> {
    match first_named(events, name) {
        Some(event) => event.description,
        None => Seq::empty(),
    }
}

fn describe<'a>(events: &[&'a KpepEvent], name: &str) -> (r: Option<&'a str>)
    ensures
        description_of(models_of(events@), name@) == (match r {
            Some(s) => s@,
            None => Seq::empty(),
        }),
{
    let ghost all = models_of(events@);
    assert(all.skip(0) =~= all);
    for i in 0..events.len()
        invariant
            all == models_of(events@),
            first_named(all, name@) == first_named(all.skip(i as int), name@),
    {
        assert(all.skip(i as int).drop_first() =~= all.skip(i + 1));
        assert(all.skip(i as int)[0] == events@[i as int]@);
        if same_text(events[i].name.as_str(), name) {
            return Some(events[i].description.as_str());
        }
    }
    None
}

/// Words with a blank between each two.
pub open spec fn spaced(words: Seq<Seq<char>>) -> Seq<char>
    decreases words.len(),
{
    if words.len() == 0 {
        Seq::empty()
    } else if words.len() == 1 {
        words[0]
    } else {
        spaced(words.drop_last()) + " "@ + words.last()
    }
}

fn write_spaced(words: &[String]) -> (r: String)
    ensures
        r@ == spaced(texts(words@)),
{
    let ghost all = texts(words@);
    let mut r = String::new();
    assert(r@ =~= spaced(all.take(0)));
    for i in 0..words.len()
        invariant
            all == texts(words@),
            r@ == spaced(all.take(i as int)),
    {
        proof {
            assert(all.take(i + 1).drop_last() =~= all.take(i as int));
            assert(all.take(i + 1).last() == words@[i as int]@);
        }
        if i > 0 {
            r.append(" ");
        }
        r.append(words[i].as_str());
        assert(r@ =~= spaced(all.take(i + 1)));
    }
    assert(all.take(all.len() as int) =~= all);
    r
}

/// The rows of the configured events, each with its description.
pub open spec fn event_counter_rows(
    counters: Seq<(Seq<char>, u64)>,
    events: Seq<EventModel>,
    width: int,
) -> Seq<LineModel> {
    counters.map_values(
        |c: (Seq<char>, u64)| counter_row(c.1, c.0, description_of(events, c.0), width),
    )
}

/// The lines of a report on a command. `ipc` is how many instructions were retired per cycle.
pub open spec fn report(
    command: Seq<Seq<char>>,
    cycles: u64,
    instructions: u64,
    ipc: Seq<char>,
    counters: Seq<(Seq<char>, u64)>,
    events: Seq<EventModel>,
) -> Seq<LineModel> {
    let width = label_width(counters) as int;
    seq![
        plain_line(Seq::empty()),
        plain_line(" Performance counter stats for '"@ + spaced(command) + "':"@),
        plain_line(Seq::empty()),
        counter_row(cycles, "cycles"@, Seq::empty(), width),
        counter_row(instructions, "instructions"@, ipc + " insn per cycle"@, width),
        plain_line(Seq::empty()),
    ] + event_counter_rows(counters, events, width)
}

proof fn lemma_labels_fit(counters: Seq<(Seq<char>, u64)>)
    ensures
        "instructions"@.len() <= label_width(counters),
        forall|i: int|
            0 <= i < counters.len() ==> (#[trigger] counters[i]).0.len() <= label_width(counters),
    decreases counters.len(),
{
    if counters.len() > 0 {
        let init = counters.drop_last();
        lemma_labels_fit(init);
        assert forall|i: int| 0 <= i < counters.len() implies (#[trigger] counters[i]).0.len()
            <= label_width(counters) by {
            if i < init.len() {
                assert(init[i] == counters[i]);
            }
        }
    }
}

proof fn lemma_row_column(value: u64, label: Seq<char>, comment: Seq<char>, width: int)
    requires
        value < 1_000_000_000_000_000,
        label.len() <= width,
        comment.len() > 0,
    ensures
        counter_row(value, label, comment, width).head.len() == 24 + width,
{
    lemma_in_threes_fits(value as nat);
    reveal_strlit("  ");
    assert("  "@.len() == 2);
}

/// All comments of a report start in the same column, if no count has more than 15 digits.
pub proof fn lemma_comments_in_one_column(
    command: Seq<Seq<char>>,
    cycles: u64,
    instructions: u64,
    ipc: Seq<char>,
    counters: Seq<(Seq<char>, u64)>,
    events: Seq<EventModel>,
    k: int,
)
    requires
        instructions < 1_000_000_000_000_000,
        forall|i: int|
            0 <= i < counters.len() ==> (#[trigger] counters[i]).1 < 1_000_000_000_000_000,
        0 <= k < report(command, cycles, instructions, ipc, counters, events).len(),
        report(command, cycles, instructions, ipc, counters, events)[k].comment.len() > 0,
    ensures
        report(command, cycles, instructions, ipc, counters, events)[k].head.len() == 24
            + label_width(counters),
{
    let width = label_width(counters) as int;
    lemma_labels_fit(counters);
    reveal_strlit(" insn per cycle");
    assert(" insn per cycle"@.len() == 15);
    lemma_row_column(instructions, "instructions"@, ipc + " insn per cycle"@, width);
    if k >= 6 {
        let (name, value) = counters[k - 6];
        let comment = description_of(events, name);
        assert(report(command, cycles, instructions, ipc, counters, events)[k] == counter_row(
            value,
            name,
            comment,
            width,
        ));
        if comment.len() > 0 {
            lemma_row_column(value, name, comment, width);
        }
    }
}

fn push_stat_line(lines: &mut Vec<StatLine>, line: StatLine)
    ensures
        line_models(final(lines)@) == line_models(old(lines)@).push(line@),
{
    let ghost before = lines@;
    lines.push(line);
    assert(line_models(lines@) =~= line_models(before).push(line@));
}

fn plain(text: String) -> (r: StatLine)
    ensures
        r@ == plain_line(text@),
{
    let r = StatLine { head: text, comment: String::new() };
    assert(r@.comment =~= Seq::empty());
    r
}

/// Reports what a command was measured to do.
pub fn stat_report(
    command: &[String],
    delta: &CounterDelta,
    ipc: &str,
    counters: &Vec<(&str, u64)>,
    events: &[&KpepEvent],
) -> (r: Vec<StatLine>)
    ensures
        line_models(r@) == report(
            texts(command@),
            delta.cycles,
            delta.instructions,
            ipc@,
            named_values(counters@),
            models_of(events@),
        ),
        r@.len() == 6 + counters@.len(),
        forall|k: int, i: int|
            0 <= k < counters@.len() && 0 <= i < events@.len() && (#[trigger] events@[i]).name@ == (
            #[trigger] counters@[k]).0@ && (forall|j: int|
                0 <= j < i ==> (#[trigger] events@[j]).name@ != counters@[k].0@) ==> (
            if events@[i].description@.len() > 0 {
                r@[6 + k].comment@ == "  # "@ + events@[i].description@
            } else {
                r@[6 + k].comment@.len() == 0
            }),
{
    let ghost values = named_values(counters@);
    let ghost models = models_of(events@);
    let width: usize = measure_labels(counters);
    let title = quoted(
        " Performance counter stats for '",
        write_spaced(command).as_str(),
        "':",
    );
    let mut rate = ipc.to_owned();
    rate.append(" insn per cycle");
    let mut lines: Vec<StatLine> = Vec::new();
    push_stat_line(&mut lines, plain(String::new()));
    push_stat_line(&mut lines, plain(title));
    push_stat_line(&mut lines, plain(String::new()));
    push_stat_line(&mut lines, write_counter_row(delta.cycles, "cycles", "", width));
    push_stat_line(
        &mut lines,
        write_counter_row(delta.instructions, "instructions", rate.as_str(), width),
    );
    push_stat_line(&mut lines, plain(String::new()));
    let ghost head = line_models(lines@);
    let ghost rows = event_counter_rows(values, models, width as int);
    proof {
        reveal_strlit("");
        assert(""@ =~= Seq::empty());
        assert(head + rows =~= report(
            texts(command@),
            delta.cycles,
            delta.instructions,
            ipc@,
            values,
            models,
        ));
        assert(head =~= head + rows.take(0));
    }
    for i in 0..counters.len()
        invariant
            values == named_values(counters@),
            models == models_of(events@),
            rows == event_counter_rows(values, models, width as int),
            line_models(lines@) == head + rows.take(i as int),
    {
        let (name, value) = counters[i];
        assert(values[i as int] == (name@, value));
        let line = match describe(events, name) {
            Some(description) => write_counter_row(value, name, description, width),
            None => write_counter_row(value, name, "", width),
        };
        proof {
            reveal_strlit("");
            assert(""@ =~= Seq::empty());
            assert(line@ == rows[i as int]);
        }
        push_stat_line(&mut lines, line);
        assert(line_models(lines@) =~= head + rows.take(i + 1));
    }
    proof {
        assert(rows.take(rows.len() as int) =~= rows);
        let models_of_lines = line_models(lines@);
        assert forall|k: int, i: int|
            0 <= k < counters@.len() && 0 <= i < events@.len() && (#[trigger] events@[i]).name@ == (
            #[trigger] counters@[k]).0@ && (forall|j: int|
                0 <= j < i ==> (#[trigger] events@[j]).name@ != counters@[k].0@) implies (
        if events@[i].description@.len() > 0 {
            lines@[6 + k].comment@ == "  # "@ + events@[i].description@
        } else {
            lines@[6 + k].comment@.len() == 0
        }) by {
            lemma_lines_carry_their_events_descriptions(
                texts(command@),
                delta.cycles,
                delta.instructions,
                ipc@,
                values,
                models,
                k,
            );
            assert(values[k].0 == counters@[k].0@);
            assert(models_of_lines[6 + k] == lines@[6 + k]@);
            assert(models[i] == events@[i]@);
            assert forall|j: int| 0 <= j < i implies (#[trigger] models[j]).name != values[k].0 by {
                assert(models[j] == events@[j]@);
            }
        }
    }
    lines
}

/// The line of each counter carries the description of the event with the counter's name, the first
/// of them if there are several, wherever that event stands among the events. A counter whose
/// event has no description, or that no event has the name of, has no comment.
pub proof fn lemma_lines_carry_their_events_descriptions(
    command: Seq<Seq<char>>,
    cycles: u64,
    instructions: u64,
    ipc: Seq<char>,
    counters: Seq<(Seq<char>, u64)>,
    events: Seq<EventModel>,
    k: int,
)
    requires
        0 <= k < counters.len(),
    ensures
        ({
            let lines = report(command, cycles, instructions, ipc, counters, events);
            &&& lines.len() == 6 + counters.len()
            &&& forall|i: int|
                0 <= i < events.len() && (#[trigger] events[i]).name == counters[k].0 && (
                forall|j: int| 0 <= j < i ==> (#[trigger] events[j]).name != counters[k].0) ==> (
                if events[i].description.len() > 0 {
                    lines[6 + k].comment == "  # "@ + events[i].description
                } else {
                    lines[6 + k].comment.len() == 0
                })
            &&& (forall|i: int| 0 <= i < events.len() ==> (#[trigger] events[i]).name
                != counters[k].0) ==> lines[6 + k].comment.len() == 0
        }),
{
    let lines = report(command, cycles, instructions, ipc, counters, events);
    let name = counters[k].0;
    let width = label_width(counters) as int;
    assert(lines[6 + k] == counter_row(
        counters[k].1,
        name,
        description_of(events, name),
        width,
    ));
    assert forall|i: int|
        0 <= i < events.len() && (#[trigger] events[i]).name == name && (forall|j: int|
            0 <= j < i ==> (#[trigger] events[j]).name != name) implies (
    if events[i].description.len() > 0 {
        lines[6 + k].comment == "  # "@ + events[i].description
    } else {
        lines[6 + k].comment.len() == 0
    }) by {
        lemma_first_named_is(events, i);
    }
    lemma_first_named(events, name);
}

proof fn lemma_row_head(value: u64, label: Seq<char>, comment: Seq<char>, width: int)
    requires
        label.len() <= width,
    ensures
        ({
            let head = counter_row(value, label, comment, width).head;
            let count = in_threes(decimal(value as nat));
            let at = if count.len() < 20 {
                22 - count.len()
            } else {
                2
            };
            let name = at + count.len() + 2;
            &&& head.len() == name + (if comment.len() == 0 {
                label.len() as int
            } else {
                width
            })
            &&& head.subrange(at, at + count.len()) == count
            &&& head.subrange(name, name + label.len()) == label
            &&& forall|q: int|
                0 <= q < head.len() && !(at <= q < at + count.len()) && !(name <= q < name
                    + label.len()) ==> #[trigger] head[q] == ' '
        }),
{
    reveal_strlit("  ");
    let head = counter_row(value, label, comment, width).head;
    let count = in_threes(decimal(value as nat));
    let at = if count.len() < 20 {
        22 - count.len()
    } else {
        2
    };
    let name = at + count.len() + 2;
    assert(head.subrange(at, at + count.len()) =~= count);
    assert(head.subrange(name, name + label.len()) =~= label);
}

/// The line of each counter says how often it counted, right-aligned to 20 columns behind two
/// blanks, and two blanks further its name; nothing else but blanks stands there.
pub proof fn lemma_lines_say_counts_and_names(
    command: Seq<Seq<char>>,
    cycles: u64,
    instructions: u64,
    ipc: Seq<char>,
    counters: Seq<(Seq<char>, u64)>,
    events: Seq<EventModel>,
    k: int,
)
    requires
        0 <= k < counters.len(),
    ensures
        ({
            let line = report(command, cycles, instructions, ipc, counters, events)[6 + k];
            let (label, value) = counters[k];
            let count = in_threes(decimal(value as nat));
            let at = if count.len() < 20 {
                22 - count.len()
            } else {
                2
            };
            let name = at + count.len() + 2;
            &&& line.head.len() == name + (if line.comment.len() == 0 {
                label.len() as int
            } else {
                label_width(counters) as int
            })
            &&& line.head.subrange(at, at + count.len()) == count
            &&& line.head.subrange(name, name + label.len()) == label
            &&& forall|q: int|
                0 <= q < line.head.len() && !(at <= q < at + count.len()) && !(name <= q < name
                    + label.len()) ==> #[trigger] line.head[q] == ' '
        }),
{
    let (label, value) = counters[k];
    let comment = description_of(events, label);
    let width = label_width(counters) as int;
    lemma_labels_fit(counters);
    lemma_row_head(value, label, comment, width);
    reveal_strlit("  # ");
    assert(report(command, cycles, instructions, ipc, counters, events)[6 + k] == counter_row(
        value,
        label,
        comment,
        width,
    ));
}

/// Before the counters a report names the command, and says how many cycles went by and how many
/// instructions were retired, in all and per cycle.
pub proof fn lemma_report_opens_with_fixed_counters(
    command: Seq<Seq<char>>,
    cycles: u64,
    instructions: u64,
    ipc: Seq<char>,
    counters: Seq<(Seq<char>, u64)>,
    events: Seq<EventModel>,
)
    ensures
        ({
            let lines = report(command, cycles, instructions, ipc, counters, events);
            let count = in_threes(decimal(cycles as nat));
            let done = in_threes(decimal(instructions as nat));
            let at = if count.len() < 20 {
                22 - count.len()
            } else {
                2
            };
            let done_at = if done.len() < 20 {
                22 - done.len()
            } else {
                2
            };
            &&& lines.len() >= 6
            &&& lines[0].head.len() == 0 && lines[0].comment.len() == 0
            &&& lines[1].head == " Performance counter stats for '"@ + spaced(command) + "':"@
            &&& lines[1].comment.len() == 0
            &&& lines[2].head.len() == 0 && lines[2].comment.len() == 0
            &&& lines[3].comment.len() == 0
            &&& lines[3].head.len() == at + count.len() + 2 + "cycles"@.len()
            &&& lines[3].head.subrange(at, at + count.len()) == count
            &&& lines[3].head.subrange(at + count.len() + 2, lines[3].head.len() as int)
                == "cycles"@
            &&& forall|q: int|
                0 <= q < at || at + count.len() <= q < at + count.len() + 2
                    ==> #[trigger] lines[3].head[q] == ' '
            &&& lines[4].comment == "  # "@ + ipc + " insn per cycle"@
            &&& lines[4].head.len() == done_at + done.len() + 2 + label_width(counters)
            &&& lines[4].head.subrange(done_at, done_at + done.len()) == done
            &&& lines[4].head.subrange(
                done_at + done.len() + 2,
                done_at + done.len() + 2 + "instructions"@.len(),
            ) == "instructions"@
            &&& forall|q: int|
                0 <= q < done_at || done_at + done.len() <= q < done_at + done.len() + 2 || done_at
                    + done.len() + 2 + "instructions"@.len() <= q < lines[4].head.len()
                    ==> #[trigger] lines[4].head[q] == ' '
            &&& lines[5].head.len() == 0 && lines[5].comment.len() == 0
        }),
{
    let width = label_width(counters) as int;
    let lines = report(command, cycles, instructions, ipc, counters, events);
    lemma_labels_fit(counters);
    reveal_strlit("cycles");
    reveal_strlit("instructions");
    reveal_strlit(" insn per cycle");
    lemma_row_head(cycles, "cycles"@, Seq::empty(), width);
    lemma_row_head(instructions, "instructions"@, ipc + " insn per cycle"@, width);
    assert(lines[4].comment =~= "  # "@ + ipc + " insn per cycle"@);
}

/// The column of the names is as wide as the longest of them, `instructions` being one.
pub proof fn lemma_label_width_is_the_longest(counters: Seq<(Seq<char>, u64)>)
    ensures
        label_width(counters) >= 12,
        forall|k: int|
            0 <= k < counters.len() ==> (#[trigger] counters[k]).0.len() <= label_width(counters),
        label_width(counters) == 12 || exists|k: int|
            0 <= k < counters.len() && (#[trigger] counters[k]).0.len() == label_width(counters),
    decreases counters.len(),
{
    reveal_strlit("instructions");
    lemma_labels_fit(counters);
    if counters.len() > 0 {
        let init = counters.drop_last();
        lemma_label_width_is_the_longest(init);
        if counters.last().0.len() > label_width(init) {
            assert(counters[counters.len() - 1].0.len() == label_width(counters));
        } else if label_width(init) != 12 {
            let k = choose|k: int|
                0 <= k < init.len() && (#[trigger] init[k]).0.len() == label_width(init);
            assert(counters[k].0.len() == label_width(counters));
        }
    }
}

/// Words are set one after another, with one blank between each two.
pub proof fn lemma_spaced_words(a: Seq<Seq<char>>, b: Seq<Seq<char>>, word: Seq<char>)
    ensures
        spaced(Seq::empty()) == Seq::<char>::empty(),
        spaced(seq![word]) == word,
        a.len() > 0 && b.len() > 0 ==> spaced(a + b) == spaced(a) + seq![' '] + spaced(b),
    decreases b.len(),
{
    reveal_strlit(" ");
    assert(" "@ =~= seq![' ']);
    if a.len() > 0 && b.len() > 0 {
        let init = b.drop_last();
        assert((a + b).drop_last() =~= a + init);
        assert((a + b).last() == b.last());
        if init.len() == 0 {
            assert(a + init =~= a);
            assert(spaced(b) =~= b.last());
        } else {
            lemma_spaced_words(a, init, word);
        }
        assert(spaced(a + b) =~= spaced(a) + seq![' '] + spaced(b));
    }
}

/// The names of a list are looked up one by one: what two lists give together is what they give
/// one after the other, and one name gives the event it stands for or is reported as unknown.
pub proof fn lemma_selection_by_name(
    db: DatabaseModel,
    a: Seq<Seq<char>>,
    b: Seq<Seq<char>>,
    name: Seq<char>,
)
    ensures
        known_events(db, Seq::empty()) == Seq::<EventModel>::empty(),
        unknown_names(db, Seq::empty()) == Seq::<Seq<char>>::empty(),
        known_events(db, a + b) == known_events(db, a) + known_events(db, b),
        unknown_names(db, a + b) == unknown_names(db, a) + unknown_names(db, b),
        match db.named(name) {
            Some(event) => known_events(db, seq![name]) == seq![event] && unknown_names(
                db,
                seq![name],
            ) == Seq::<Seq<char>>::empty(),
            None => known_events(db, seq![name]) == Seq::<EventModel>::empty() && unknown_names(
                db,
                seq![name],
            ) == seq![name],
        },
    decreases b.len(),
{
    let lost = |name: Seq<char>| db.named(name) is None;
    Seq::filter_distributes_over_add(a, b, lost);
    reveal_with_fuel(known_events, 2);
    reveal_with_fuel(Seq::filter, 2);
    assert(seq![name].drop_last() =~= Seq::empty());
    assert(unknown_names(db, seq![name]) =~= (if db.named(name) is None {
        seq![name]
    } else {
        Seq::empty()
    }));
    assert(known_events(db, seq![name]) =~= (match db.named(name) {
        Some(event) => seq![event],
        None => Seq::empty(),
    }));
    if b.len() == 0 {
        assert(a + b =~= a);
        assert(known_events(db, a + b) =~= known_events(db, a) + known_events(db, b));
    } else {
        let init = b.drop_last();
        lemma_selection_by_name(db, a, init, name);
        assert((a + b).drop_last() =~= a + init);
        assert((a + b).last() == b.last());
        assert(known_events(db, a + b) =~= known_events(db, a) + known_events(db, b));
    }
}

proof fn lemma_options_shift(args: Seq<Seq<char>>, j: int, i: int, so_far: OptionsModel)
    requires
        0 <= j <= args.len(),
        0 <= i,
    ensures
        ({
            let there = read_options(args.skip(j), i, so_far);
            read_options(args, i + j, so_far) == (OptionsModel {
                cmd_start: there.cmd_start + j,
                ..there
            })
        }),
    decreases args.len() - i,
{
    let rest = args.skip(j);
    if i < rest.len() {
        assert(rest[i] == args[i + j]);
        if args[i + j] == "--events"@ || args[i + j] == "-e"@ {
            if i + 1 < rest.len() {
                assert(rest[i + 1] == args[i + j + 1]);
                lemma_options_shift(
                    args,
                    j,
                    i + 2,
                    OptionsModel { events: comma_parts(rest[i + 1]), ..so_far },
                );
            }
        } else if args[i + j] == "-s"@ {
            lemma_options_shift(args, j, i + 1, OptionsModel { system_wide: true, ..so_far });
        } else if args[i + j] == "--no-color"@ {
            lemma_options_shift(args, j, i + 1, OptionsModel { no_color: true, ..so_far });
        } else if args[i + j] == "--region"@ {
            lemma_options_shift(args, j, i + 1, OptionsModel { region: true, ..so_far });
        }
    }
}

proof fn lemma_options_pile_up(args: Seq<Seq<char>>, i: int, so_far: OptionsModel)
    requires
        0 <= i,
    ensures
        ({
            let own = read_options(args, i, no_options());
            read_options(args, i, so_far) == (OptionsModel {
                events: if own.events.len() > 0 {
                    own.events
                } else {
                    so_far.events
                },
                system_wide: so_far.system_wide || own.system_wide,
                no_color: so_far.no_color || own.no_color,
                region: so_far.region || own.region,
                cmd_start: own.cmd_start,
            })
        }),
    decreases args.len() - i,
{
    if i < args.len() {
        let none = no_options();
        if args[i] == "--events"@ || args[i] == "-e"@ {
            if i + 1 < args.len() {
                let parts = comma_parts(args[i + 1]);
                lemma_comma_parts(args[i + 1]);
                lemma_options_pile_up(args, i + 2, OptionsModel { events: parts, ..so_far });
                lemma_options_pile_up(args, i + 2, OptionsModel { events: parts, ..none });
            }
        } else if args[i] == "-s"@ {
            lemma_options_pile_up(args, i + 1, OptionsModel { system_wide: true, ..so_far });
            lemma_options_pile_up(args, i + 1, OptionsModel { system_wide: true, ..none });
        } else if args[i] == "--no-color"@ {
            lemma_options_pile_up(args, i + 1, OptionsModel { no_color: true, ..so_far });
            lemma_options_pile_up(args, i + 1, OptionsModel { no_color: true, ..none });
        } else if args[i] == "--region"@ {
            lemma_options_pile_up(args, i + 1, OptionsModel { region: true, ..so_far });
            lemma_options_pile_up(args, i + 1, OptionsModel { region: true, ..none });
        }
    }
}

/// What each argument in front of others means. An option sets what it stands for and leaves the
/// rest as they are; of several lists of events the last counts. `--` ends the options, and the
/// command starts behind it; any other word starts the command.
pub proof fn lemma_options_one_by_one(word: Seq<char>, list: Seq<char>, rest: Seq<Seq<char>>)
    ensures
        ({
            let others = options_in(rest);
            let with = options_in(seq![word] + rest);
            let with_list = options_in(seq![word, list] + rest);
            let further = OptionsModel { cmd_start: others.cmd_start + 1, ..others };
            &&& word == "-s"@ ==> with == (OptionsModel { system_wide: true, ..further })
            &&& word == "--no-color"@ ==> with == (OptionsModel { no_color: true, ..further })
            &&& word == "--region"@ ==> with == (OptionsModel { region: true, ..further })
            &&& word == "-e"@ || word == "--events"@ ==> with_list == (OptionsModel {
                events: if others.events.len() > 0 {
                    others.events
                } else {
                    comma_parts(list)
                },
                cmd_start: others.cmd_start + 2,
                ..others
            })
            &&& (word == "-e"@ || word == "--events"@) && rest.len() == 0 ==> with == (OptionsModel {
                events: Seq::empty(),
                system_wide: false,
                no_color: false,
                region: false,
                cmd_start: 1,
            })
            &&& word == "--"@ ==> with == (OptionsModel {
                events: Seq::empty(),
                system_wide: false,
                no_color: false,
                region: false,
                cmd_start: 1,
            })
            &&& word != "-s"@ && word != "--no-color"@ && word != "--region"@ && word != "-e"@
                && word != "--events"@ && word != "--"@ ==> with == (OptionsModel {
                events: Seq::empty(),
                system_wide: false,
                no_color: false,
                region: false,
                cmd_start: 0,
            })
        }),
        options_in(Seq::empty()) == (OptionsModel {
            events: Seq::empty(),
            system_wide: false,
            no_color: false,
            region: false,
            cmd_start: 0,
        }),
{
    lemma_option_words_differ();
    let none = no_options();
    let one = seq![word] + rest;
    let two = seq![word, list] + rest;
    assert(one[0] == word && two[0] == word && two[1] == list);
    assert(one.skip(1) =~= rest);
    assert(two.skip(2) =~= rest);
    if options_in(rest).events.len() == 0 {
        assert(options_in(rest).events =~= Seq::empty());
    }
    if word == "-s"@ {
        let now = OptionsModel { system_wide: true, ..none };
        lemma_options_shift(one, 1, 0, now);
        lemma_options_pile_up(rest, 0, now);
    } else if word == "--no-color"@ {
        let now = OptionsModel { no_color: true, ..none };
        lemma_options_shift(one, 1, 0, now);
        lemma_options_pile_up(rest, 0, now);
    } else if word == "--region"@ {
        let now = OptionsModel { region: true, ..none };
        lemma_options_shift(one, 1, 0, now);
        lemma_options_pile_up(rest, 0, now);
    } else if word == "-e"@ || word == "--events"@ {
        let now = OptionsModel { events: comma_parts(list), ..none };
        lemma_options_shift(two, 2, 0, now);
        lemma_options_pile_up(rest, 0, now);
    }
}

/// Contracts speak of options by their own fields.
pub proof fn lemma_option_models_show_fields(options: StatOptions, i: int)
    ensures
        options@.events.len() == options.events@.len(),
        0 <= i < options.events@.len() ==> options@.events[i] == options.events@[i]@,
        options@.system_wide == options.system_wide,
        options@.no_color == options.no_color,
        options@.region == options.region,
        options@.cmd_start == options.cmd_start,
{
}

/// Contracts speak of lines by their head and comment, in their order.
pub proof fn lemma_line_models_show_texts(lines: Seq<StatLine>, i: int)
    ensures
        line_models(lines).len() == lines.len(),
        0 <= i < lines.len() ==> line_models(lines)[i].head == lines[i].head@ && line_models(
            lines,
        )[i].comment == lines[i].comment@,
{
}

/// An id is the number that its text stands for, and none without a text.
pub proof fn lemma_ids(text: &str)
    ensures
        id_in(None) is None,
        id_in(Some(text)) == unsigned_in(text@),
{
}

} // verus!
