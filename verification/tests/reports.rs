use apmc::kpc::{CounterCounts, CounterDelta, KpcManager};
use apmc::kpep::KpepEvent;
use apmc::numerals::{
    align_left, align_right, fmt_comma, read_unsigned, to_decimal, to_hexadecimal,
    to_signed_decimal,
};
use apmc::stat::{
    colored, command_user, default_events, events_to_count, exit_line, machine_line,
    parse_stat_args, parse_task, stat_report, unassigned_event_warning, unknown_event_warning, uses_injection,
    Task,
};
use apmc::text::{
    begins_with, comes_before, contains_text, ends_in, same_text, split_at_commas,
};

fn words(args: &[&str]) -> Vec<String> {
    args.iter().map(|s| s.to_string()).collect()
}

#[test]
fn counts_are_written_in_threes() {
    assert_eq!(fmt_comma(0), "0");
    assert_eq!(fmt_comma(999), "999");
    assert_eq!(fmt_comma(1000), "1,000");
    assert_eq!(fmt_comma(1_049_886), "1,049,886");
    assert_eq!(fmt_comma(12_345), "12,345");
    assert_eq!(fmt_comma(u64::MAX), "18,446,744,073,709,551,615");
    assert_eq!(fmt_comma(u64::MAX).replace(",", ""), u64::MAX.to_string());
}

#[test]
fn numbers_are_written_as_usual() {
    for n in [0u64, 7, 9, 10, 15, 16, 255, 4096, 0xda33d83d, u64::MAX] {
        assert_eq!(to_decimal(n), format!("{n}"));
        assert_eq!(to_hexadecimal(n), format!("{n:x}"));
    }
}

#[test]
fn texts_are_set_in_columns() {
    assert_eq!(align_left("ab", 5), "ab   ");
    assert_eq!(align_right("ab", 5), "   ab");
    assert_eq!(align_left("abcdef", 5), "abcdef");
    assert_eq!(align_right("", 2), "  ");
    assert_eq!(align_left("\u{e9}", 3), "\u{e9}  ");
}

#[test]
fn texts_are_compared_and_searched() {
    assert!(comes_before("a", "b") && !comes_before("b", "a") && !comes_before("a", "a"));
    assert!(comes_before("", "a") && comes_before("a", "ab") && comes_before("Z", "a"));
    assert!(contains_text("aaab", "aab") && !contains_text("aaab", "aabb"));
    assert!(begins_with("cpu_1", "cpu_") && !begins_with("cpu", "cpu_"));
    assert!(ends_in("a.plist", ".plist") && !ends_in("a.plist~", ".plist"));
    assert!(same_text("x", "x") && !same_text("x", "X"));
}

#[test]
fn lists_are_split_at_commas() {
    assert_eq!(split_at_commas("A,B"), vec!["A", "B"]);
    assert_eq!(split_at_commas(""), vec![""]);
    assert_eq!(split_at_commas(",a,,"), vec!["", "a", "", ""]);
    assert_eq!(split_at_commas("a b,c").join(","), "a b,c");
}

#[test]
fn the_first_word_names_the_task() {
    assert_eq!(parse_task(&words(&["apmc", "list", "cache"])), Task::List);
    assert_eq!(parse_task(&words(&["apmc", "stat"])), Task::Stat);
    for word in ["help", "--help", "-h"] {
        assert_eq!(parse_task(&words(&["apmc", word])), Task::Help);
    }
    assert_eq!(parse_task(&words(&["apmc"])), Task::Unknown);
    assert_eq!(parse_task(&words(&["apmc", "List"])), Task::Unknown);
    assert_eq!(parse_task(&[]), Task::Unknown);
}

#[test]
fn options_come_before_the_command() {
    let read = |args: &[&str]| parse_stat_args(&words(args));
    let o = read(&["--", "sleep", "1"]).unwrap();
    assert_eq!((o.cmd_start, o.events.len(), o.system_wide, o.no_color), (1, 0, false, false));
    let o = read(&["-e", "L1D_CACHE_MISS_LD,BRANCH_MISPRED_NONSPEC", "--", "./my_program"]).unwrap();
    assert_eq!(o.cmd_start, 3);
    assert_eq!(o.events, vec!["L1D_CACHE_MISS_LD", "BRANCH_MISPRED_NONSPEC"]);
    let o = read(&["-s", "--", "./my_program"]).unwrap();
    assert_eq!((o.system_wide, o.no_color, o.cmd_start), (true, false, 2));
    let o = read(&["--no-color", "--", "./my_program"]).unwrap();
    assert_eq!((o.system_wide, o.no_color, o.cmd_start), (false, true, 2));
    let o = read(&["--region", "--", "./my_program"]).unwrap();
    assert_eq!((o.region, o.system_wide, o.no_color, o.cmd_start), (true, false, false, 2));
    let o = read(&["--events", "A", "-e", "B", "ls", "-s"]).unwrap();
    assert_eq!((o.events, o.system_wide, o.cmd_start), (words(&["B"]), false, 4));
}

#[test]
fn a_measurement_needs_a_command() {
    let read = |args: &[&str]| parse_stat_args(&words(args));
    assert!(read(&[]).is_none());
    assert!(read(&["--"]).is_none());
    assert!(read(&["-s", "--"]).is_none());
    assert!(read(&["-e", "A"]).is_none());
    assert!(read(&["-e"]).is_none());
    assert!(read(&["-s"]).is_none());
    assert!(read(&["-e", "A", "--events", "B", "--"]).is_none());
    assert!(read(&["--no-color", "--region", "-s", "-e", "A"]).is_none());
    assert_eq!(read(&["-e", "A", "ls"]).unwrap().cmd_start, 2);
}

#[test]
fn eight_events_are_counted_by_default() {
    let names = default_events();
    assert_eq!(names.len(), 8);
    assert_eq!(names[0], "L1D_CACHE_MISS_LD");
    assert_eq!(names[7], "SCHEDULE_EMPTY");
    assert_eq!(events_to_count(vec![]), names);
    assert_eq!(events_to_count(words(&["X"])), words(&["X"]));
}

#[test]
fn the_command_is_measured_alone_unless_asked_otherwise() {
    assert!(uses_injection(false, false, true));
    assert!(!uses_injection(true, false, true) && !uses_injection(false, false, false));
    assert!(uses_injection(true, true, true) && !uses_injection(false, true, false));
    assert_eq!(command_user(true, Some("501"), Some("20")), None);
    assert_eq!(command_user(false, Some("501"), Some("20")), Some((501, 20)));
    assert_eq!(command_user(false, Some("501"), None), None);
    assert_eq!(command_user(false, None, Some("20")), None);
    assert_eq!(command_user(false, Some("501"), Some("staff")), None);
    assert!(colored(false, false) && !colored(true, false) && !colored(false, true));
}

#[test]
fn warnings_name_the_event() {
    assert_eq!(unknown_event_warning("X"), "Warning: unknown event 'X', skipping");
    assert_eq!(
        unassigned_event_warning("X"),
        "Warning: could not assign 'X' to any counter slot, skipping"
    );
}

fn described(name: &str, description: &str) -> KpepEvent {
    KpepEvent {
        name: name.to_string(),
        description: description.to_string(),
        number: Some(1),
        counters_mask: None,
        pc_capture_counters_mask: None,
        fixed_counter: None,
        fallback: None,
    }
}

#[test]
fn a_report_shows_each_counter_with_its_description() {
    let delta = CounterDelta { cycles: 1_049_886, instructions: 2_379_442, configurable: vec![] };
    let a = described(
        "BRANCH_MISPRED_NONSPEC",
        "Instruction architecturally executed, mispredicted branch",
    );
    let b = described(
        "ATOMIC_OR_EXCLUSIVE_FAIL",
        "Atomic or exclusive instruction failed due to contention",
    );
    let c = described("MAP_STALL", "");
    let counters = vec![
        ("BRANCH_MISPRED_NONSPEC", 1553u64),
        ("ATOMIC_OR_EXCLUSIVE_FAIL", 0),
        ("MAP_STALL", 54_808),
        ("OTHER", 1),
    ];
    let lines: Vec<String> =
        stat_report(&words(&["sleep", "0.1"]), &delta, "2.27", &counters, &[&a, &b, &c])
            .iter()
            .map(|l| format!("{}{}", l.head, l.comment))
            .collect();
    assert_eq!(
        lines,
        vec![
            "",
            " Performance counter stats for 'sleep 0.1':",
            "",
            "             1,049,886  cycles",
            "             2,379,442  instructions              # 2.27 insn per cycle",
            "",
            "                 1,553  BRANCH_MISPRED_NONSPEC    # Instruction architecturally executed, mispredicted branch",
            "                     0  ATOMIC_OR_EXCLUSIVE_FAIL  # Atomic or exclusive instruction failed due to contention",
            "                54,808  MAP_STALL",
            "                     1  OTHER",
        ]
    );
}

#[test]
fn arguments_of_the_command_are_no_options() {
    let o = parse_stat_args(&words(&["-s", "ls", "-e", "X", "--no-color", "--"])).unwrap();
    assert_eq!((o.cmd_start, o.events.len(), o.system_wide, o.no_color), (1, 0, true, false));
    let o = parse_stat_args(&words(&["ls", "-s"])).unwrap();
    assert_eq!((o.cmd_start, o.system_wide), (0, false));
}

#[test]
fn comments_stand_in_one_column() {
    let delta = CounterDelta { cycles: 1, instructions: 999_999_999_999_999, configurable: vec![] };
    let a = described("A_RATHER_LONG_NAME", "x");
    let b = described("B", "y");
    let counters = vec![("A_RATHER_LONG_NAME", 1u64), ("B", 999_999_999_999_999)];
    for line in stat_report(&words(&["x"]), &delta, "1.00", &counters, &[&a, &b]) {
        if !line.comment.is_empty() {
            assert_eq!(line.head.chars().count(), 24 + "A_RATHER_LONG_NAME".len());
        }
    }
}

#[test]
fn numbers_are_read_as_usual() {
    for s in ["0", "007", "+5", "4294967295", "4294967296", "99999999999999999999", "", "+", "++1",
        "-1", "-0", " 1", "1 ", "1a", "\u{661}", "12345"] {
        assert_eq!(read_unsigned(s), s.parse::<u32>().ok(), "{s}");
    }
    for n in [0u32, 9, 10, 501, u32::MAX] {
        assert_eq!(read_unsigned(&to_decimal(n as u64)), Some(n));
    }
}

#[test]
fn signed_numbers_are_written_as_usual() {
    for n in [0i32, 7, -1, i32::MAX, i32::MIN] {
        assert_eq!(to_signed_decimal(n), n.to_string());
    }
}

#[test]
fn the_machine_and_a_failed_command_are_described() {
    let counts = CounterCounts { fixed: 2, configurable: 8 };
    let mgr = KpcManager::new(0, Ok(counts), 10).unwrap();
    assert_eq!(
        machine_line("Apple M2", &mgr),
        "CPU: Apple M2 (2 fixed + 8 configurable counters, 10 CPUs)"
    );
    assert_eq!(exit_line(Some(1)), format!("  (exit status {:?})", Some(1)));
    assert_eq!(exit_line(Some(-9)), "  (exit status Some(-9))");
    assert_eq!(exit_line(None), "  (exit status None)");
}
