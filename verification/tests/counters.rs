use apmc::inject::{payload_len, read_inject_results, ByteOrder};
use apmc::kpc::{
    check_kperf, errno, kperf_symbols, ncpu, ConfigurePhase, ConfigureStep, CounterCounts,
    CounterDelta, CounterSnapshot, KpcCall, KpcError, KpcManager, KPC_ALL, KPC_CLASS_CONFIGURABLE_MASK,
};
use apmc::kpep::KpepEvent;
use apmc::slots::place_events;

fn make_event(name: &str, number: u64, mask: Option<u64>) -> KpepEvent {
    KpepEvent {
        name: name.to_string(),
        description: String::new(),
        number: Some(number),
        counters_mask: mask,
        pc_capture_counters_mask: None,
        fixed_counter: None,
        fallback: None,
    }
}

fn manager(fixed: i32, configurable: i32, cpus: usize) -> KpcManager {
    KpcManager::new(0, Ok(CounterCounts { fixed, configurable }), cpus).unwrap()
}

fn native() -> ByteOrder {
    if 1u16.to_ne_bytes()[0] == 1 {
        ByteOrder::Little
    } else {
        ByteOrder::Big
    }
}

#[test]
fn test_assign_slots_unconstrained() {
    let events = [
        make_event("A", 1, None),
        make_event("B", 2, None),
        make_event("C", 3, None),
    ];
    let refs: Vec<&KpepEvent> = events.iter().collect();
    let result = KpcManager::assign_slots(&refs, 8);

    assert_eq!(result.len(), 3);
    let mut slots: Vec<usize> = result.iter().map(|&(_, s)| s).collect();
    slots.sort();
    slots.dedup();
    assert_eq!(slots.len(), 3, "all slots should be unique");
}

#[test]
fn test_assign_slots_constrained() {
    // Event A can only go in slot 7 (mask=0x80)
    // Event B can go in slots 5,6,7 (mask=0xe0)
    // Event C can go anywhere
    let events = [
        make_event("A", 1, Some(0x80)),
        make_event("B", 2, Some(0xe0)),
        make_event("C", 3, None),
    ];
    let refs: Vec<&KpepEvent> = events.iter().collect();
    let result = KpcManager::assign_slots(&refs, 8);

    assert_eq!(result.len(), 3);
    // Find which slot A got, must be 7
    let a_slot = result.iter().find(|&&(i, _)| i == 0).unwrap().1;
    assert_eq!(a_slot, 7, "A (mask=0x80) must go in slot 7");
    // B should be in 5 or 6
    let b_slot = result.iter().find(|&&(i, _)| i == 1).unwrap().1;
    assert!(
        b_slot == 5 || b_slot == 6,
        "B (mask=0xe0) should be in 5 or 6"
    );
}

#[test]
fn test_assign_slots_conflict() {
    // Both events can only go in slot 7
    let events = [
        make_event("A", 1, Some(0x80)),
        make_event("B", 2, Some(0x80)),
    ];
    let refs: Vec<&KpepEvent> = events.iter().collect();
    let result = KpcManager::assign_slots(&refs, 8);

    // Only one can be assigned
    assert_eq!(result.len(), 1);
}

#[test]
fn test_assign_slots_overflow() {
    let events: Vec<KpepEvent> = (0..10)
        .map(|i| make_event(&format!("E{i}"), i as u64, None))
        .collect();
    let refs: Vec<&KpepEvent> = events.iter().collect();
    let result = KpcManager::assign_slots(&refs, 8);

    // Only 8 slots available
    assert_eq!(result.len(), 8);
}

#[test]
fn test_delta_basic() {
    let mgr_n_fixed = 2;
    let mgr_n_config = 3;
    let mgr = manager(mgr_n_fixed as i32, mgr_n_config, 4);

    let before = CounterSnapshot {
        values: vec![100, 200, 10, 20, 30],
        n_fixed: mgr_n_fixed,
    };
    let after = CounterSnapshot {
        values: vec![500, 1200, 15, 25, 130],
        n_fixed: mgr_n_fixed,
    };

    let delta = mgr.delta(&before, &after);
    assert_eq!(delta.cycles, 400);
    assert_eq!(delta.instructions, 1000);
    assert_eq!(delta.configurable, vec![5, 5, 100]);
}

#[test]
fn test_delta_wrapping() {
    // Counter overflow: after < before due to hardware wrap
    let before = CounterSnapshot {
        values: vec![u64::MAX - 10, 500],
        n_fixed: 2,
    };
    let after = CounterSnapshot {
        values: vec![5, 600],
        n_fixed: 2,
    };

    let cycles = manager(2, 0, 1).delta(&before, &after).cycles;
    assert_eq!(cycles, 16); // 5 - (MAX-10) wraps to 16
}

#[test]
fn test_delta_short_snapshot_does_not_panic() {
    // Snapshots with fewer values than expected must not panic.
    let before = CounterSnapshot {
        values: vec![],
        n_fixed: 2,
    };
    let after = CounterSnapshot {
        values: vec![100],
        n_fixed: 2,
    };

    let delta = manager(2, 3, 1).delta(&before, &after);
    // Missing values are treated as 0
    assert_eq!(delta.cycles, 100);
    assert_eq!(delta.instructions, 0);
    assert_eq!(delta.configurable, vec![0, 0, 0]);
}

#[test]
fn test_inject_protocol_roundtrip() {
    // Verify the wire protocol: u32 count, then count x u64 values.
    let n: u32 = 4;
    let values: Vec<u64> = vec![100, 200, 300, 400];

    let mut buf = Vec::new();
    buf.extend_from_slice(&n.to_ne_bytes());
    for v in &values {
        buf.extend_from_slice(&v.to_ne_bytes());
    }

    // Parse back
    let parsed_n = payload_len(&buf[0..4], native()).unwrap() / 8;
    assert_eq!(parsed_n, 4);

    let snap = read_inject_results(&buf, 2, native()).unwrap();
    assert_eq!(snap.values, values);
    assert_eq!(snap.n_fixed, 2);
}

#[test]
fn inject_results_follow_the_byte_order() {
    let little = [1u8, 0, 0, 0, 2, 1, 0, 0, 0, 0, 0, 0];
    let big = [0u8, 0, 0, 1, 0, 0, 0, 0, 0, 0, 1, 2];
    assert_eq!(read_inject_results(&little, 2, ByteOrder::Little).unwrap().values, vec![258]);
    assert_eq!(read_inject_results(&big, 2, ByteOrder::Big).unwrap().values, vec![258]);
    let all = [[1u8, 0, 0, 0].as_slice(), [255u8; 8].as_slice()].concat();
    assert_eq!(read_inject_results(&all, 2, ByteOrder::Little).unwrap().values, vec![u64::MAX]);
}

#[test]
fn inject_results_of_odd_counts_are_refused() {
    for n in [0u32, 17, 1 << 24, u32::MAX] {
        let mut message = n.to_le_bytes().to_vec();
        message.extend_from_slice(&[0u8; 200]);
        assert!(read_inject_results(&message, 2, ByteOrder::Little).is_none());
        assert!(payload_len(&message, ByteOrder::Little).is_none());
    }
    let mut message = 16u32.to_le_bytes().to_vec();
    message.extend_from_slice(&[7u8; 128]);
    assert_eq!(read_inject_results(&message, 2, ByteOrder::Little).unwrap().values.len(), 16);
    assert_eq!(payload_len(&message, ByteOrder::Little), Some(128));
}

#[test]
fn inject_results_that_break_off_are_refused() {
    let mut message = 2u32.to_le_bytes().to_vec();
    message.extend_from_slice(&5u64.to_le_bytes());
    message.extend_from_slice(&6u64.to_le_bytes());
    for k in 0..message.len() {
        assert!(read_inject_results(&message[..k], 2, ByteOrder::Little).is_none());
    }
    message.push(9);
    assert_eq!(read_inject_results(&message, 2, ByteOrder::Little).unwrap().values, vec![5, 6]);
}

#[test]
fn most_constrained_events_are_served_first() {
    let events = [
        make_event("any", 1, None),
        make_event("three", 2, Some(0xe0)),
        make_event("also any", 3, None),
        make_event("one", 4, Some(0x80)),
        make_event("also three", 5, Some(0xe0)),
    ];
    let refs: Vec<&KpepEvent> = events.iter().collect();
    let result = KpcManager::assign_slots(&refs, 8);
    assert_eq!(result, vec![(3, 7), (1, 5), (4, 6), (0, 0), (2, 1)]);
}

#[test]
fn events_without_a_slot_are_listed() {
    let events = [
        make_event("A", 1, Some(0x80)),
        make_event("B", 2, Some(0)),
        make_event("C", 3, Some(0x80)),
        make_event("D", 4, Some(0x100)),
    ];
    let refs: Vec<&KpepEvent> = events.iter().collect();
    let (placed, missed) = place_events(&refs, 8);
    assert_eq!(placed, vec![(0, 7)]);
    assert_eq!(missed, vec![1, 3, 2]);
}

#[test]
fn unconstrained_events_fill_the_slots_in_order() {
    let events: Vec<KpepEvent> = (0..3).map(|i| make_event("E", i, None)).collect();
    let refs: Vec<&KpepEvent> = events.iter().collect();
    assert_eq!(KpcManager::assign_slots(&refs, 2), vec![(0, 0), (1, 1)]);
    assert_eq!(KpcManager::assign_slots(&refs, 0), vec![]);
    assert_eq!(KpcManager::assign_slots(&[], 8), vec![]);
}

#[test]
fn slots_beyond_the_mask_are_in_no_mask() {
    let events = [make_event("A", 1, Some(1 << 63)), make_event("B", 2, Some(1 << 63))];
    let refs: Vec<&KpepEvent> = events.iter().collect();
    assert_eq!(KpcManager::assign_slots(&refs, 70), vec![(0, 63)]);
}

#[test]
fn a_manager_needs_root() {
    let counts = CounterCounts { fixed: 2, configurable: 8 };
    assert!(matches!(KpcManager::new(501, Ok(counts), 8), Err(KpcError::NotRoot)));
    let failed = Err(KpcError::MissingSymbol("x".to_string()));
    assert!(matches!(KpcManager::new(0, failed, 8), Err(KpcError::MissingSymbol(s)) if s == "x"));
    let mgr = KpcManager::new(0, Ok(counts), 10).unwrap();
    assert_eq!((mgr.n_fixed(), mgr.n_configurable(), mgr.ncpu()), (2, 8, 10));
}

#[test]
fn cpus_are_counted_from_one() {
    assert_eq!(ncpu(0, 8), 8);
    assert_eq!(ncpu(-1, 8), 1);
    assert_eq!(ncpu(0, 0), 1);
    assert_eq!(ncpu(0, -3), 1);
}

#[test]
fn error_numbers_default_to_minus_one() {
    assert_eq!(errno(Some(22)), 22);
    assert_eq!(errno(None), -1);
}

#[test]
fn kperf_must_be_whole() {
    let names = kperf_symbols();
    assert_eq!(names.len(), 6);
    assert_eq!(names[0], "kpc_get_counter_count");
    assert_eq!(names[5], "kpc_get_cpu_counters");
    assert!(check_kperf(false, &vec![false; 6]).is_ok());
    assert!(matches!(
        check_kperf(true, &vec![true; 6]),
        Err(KpcError::LoadError(s)) if s == "dlopen kperf.framework failed"
    ));
    let mut missing = vec![false; 6];
    missing[2] = true;
    missing[4] = true;
    assert!(matches!(
        check_kperf(false, &missing),
        Err(KpcError::MissingSymbol(s)) if s == "kpc_set_counting"
    ));
}

#[test]
fn system_wide_counters_are_summed_over_cpus() {
    let mgr = manager(2, 1, 3);
    assert_eq!(mgr.buffer_len(), Some(9));
    let buf = vec![1, 10, 100, 2, 20, u64::MAX, 3, 30, 7];
    let snap = mgr.read_system_wide(0, 0, &buf).unwrap();
    assert_eq!(snap.values, vec![6, 60, 106]);
    assert_eq!(snap.n_fixed, 2);
    assert!(matches!(
        mgr.read_system_wide(-1, 13, &buf),
        Err(KpcError::ApiError("get_cpu_counters", 13))
    ));
    assert_eq!(manager(-1, 8, 3).buffer_len(), None);
}

#[test]
fn a_snapshot_from_zero_is_its_own_delta() {
    let snap = CounterSnapshot { values: vec![5, 6, 7], n_fixed: 2 };
    let delta = manager(2, 2, 1).delta_from_zero(&snap.clone());
    assert_eq!((delta.cycles, delta.instructions), (5, 6));
    assert_eq!(delta.configurable, vec![7, 0]);
}

#[test]
fn deltas_add_up() {
    let mgr = manager(0, 1, 1);
    let snap = |v: u64| CounterSnapshot { values: vec![v], n_fixed: 0 };
    let (a, b, c) = (u64::MAX - 3, 2, 11);
    let first = mgr.delta(&snap(a), &snap(b)).configurable[0];
    let second = mgr.delta(&snap(b), &snap(c)).configurable[0];
    let both = mgr.delta(&snap(a), &snap(c)).configurable[0];
    assert_eq!((first, second, both), (6, 9, 15));
}

fn replies(phase: ConfigurePhase, acquire: i32, program: i32) -> (i32, i32) {
    match phase {
        ConfigurePhase::Acquire => (acquire, 11),
        ConfigurePhase::Program => (program, 12),
        ConfigurePhase::Abandon => (0, 13),
        _ => (-7, 99),
    }
}

fn configure(
    mgr: &mut KpcManager,
    events: &[&KpepEvent],
    acquire: i32,
    program: i32,
) -> (Vec<String>, Vec<String>, Result<(), KpcError>) {
    let mut run = match mgr.configure(events) {
        Ok(run) => run,
        Err(e) => return (vec![], vec![], Err(e)),
    };
    let mut calls = vec![];
    loop {
        calls.push(match run.call() {
            KpcCall::ForceAllCtrsSet(on) => format!("force {on}"),
            KpcCall::SleepMillis(ms) => format!("sleep {ms}"),
            KpcCall::SetCounting(c) => format!("counting {c}"),
            KpcCall::SetThreadCounting(c) => format!("thread {c}"),
            KpcCall::SetConfig(class, config) => format!("config {class} {config:?}"),
        });
        let (ret, errno) = replies(run.phase, acquire, program);
        let skipped = run.skipped.clone();
        match mgr.configure_step(run, ret, errno) {
            ConfigureStep::Next(next) => run = next,
            ConfigureStep::Done(result) => return (calls, skipped, result),
        }
    }
}

fn labels(mgr: &KpcManager, values: Vec<u64>) -> Vec<(String, u64)> {
    let snap = CounterSnapshot { values, n_fixed: 0 };
    let delta = mgr.delta_from_zero(&snap);
    mgr.labeled_counters(&delta).iter().map(|&(n, v)| (n.to_string(), v)).collect()
}

#[test]
fn events_are_programmed_and_counted() {
    let mut mgr = manager(0, 3, 1);
    let mut fixed = make_event("CYCLES", 2, None);
    fixed.fixed_counter = Some(0);
    let mut bare = make_event("BARE", 0, None);
    bare.number = None;
    let a = make_event("A", 41, None);
    let b = make_event("B", 42, Some(0x4));
    let c = make_event("C", 43, Some(0x4));
    let (calls, skipped, result) = configure(&mut mgr, &[&fixed, &a, &bare, &b, &c], 0, 0);
    assert!(result.is_ok());
    assert_eq!(skipped, vec!["C".to_string()]);
    assert_eq!(
        calls,
        vec![
            "force 0",
            "sleep 50",
            "force 1",
            "counting 0",
            "thread 0",
            "config 2 [0, 0, 0]",
            "config 2 [41, 0, 42]",
            "counting 3",
            "thread 3",
        ]
    );
    assert_eq!((KPC_ALL, KPC_CLASS_CONFIGURABLE_MASK), (3, 2));
    assert_eq!(
        labels(&mgr, vec![7, 8, 9]),
        vec![("B".to_string(), 9), ("A".to_string(), 7)]
    );
}

#[test]
fn counters_that_cannot_be_taken_end_the_programming() {
    let mut mgr = manager(0, 2, 1);
    let a = make_event("A", 41, None);
    let (calls, _, result) = configure(&mut mgr, &[&a], 1, 0);
    assert_eq!(calls, vec!["force 0", "sleep 50", "force 1"]);
    assert!(matches!(result, Err(KpcError::ApiError("force_all_ctrs_set", 11))));
    assert_eq!(labels(&mgr, vec![7, 8]), vec![]);
}

#[test]
fn counters_that_cannot_be_programmed_are_let_go() {
    let mut mgr = manager(0, 2, 1);
    let a = make_event("A", 41, None);
    let (calls, _, result) = configure(&mut mgr, &[&a], 0, -1);
    assert_eq!(calls.last().unwrap(), "force 0");
    assert_eq!(calls.len(), 8);
    assert!(matches!(result, Err(KpcError::ApiError("set_config", 12))));
    assert_eq!(labels(&mgr, vec![7, 8]), vec![("A".to_string(), 7)]);
}

#[test]
fn more_events_than_counters_are_refused() {
    let mut mgr = manager(2, 1, 1);
    let a = make_event("A", 41, None);
    let b = make_event("B", 42, None);
    let (calls, _, result) = configure(&mut mgr, &[&a, &b], 0, 0);
    assert!(calls.is_empty());
    assert!(matches!(result, Err(KpcError::TooManyEvents { requested: 2, max: 1 })));
    assert!(matches!(mgr.release(), KpcCall::ForceAllCtrsSet(0)));
}

#[test]
fn a_new_programming_replaces_the_old_one() {
    let mut mgr = manager(0, 2, 1);
    let a = make_event("A", 41, None);
    let b = make_event("B", 42, Some(0x2));
    assert!(configure(&mut mgr, &[&a], 0, 0).2.is_ok());
    assert!(configure(&mut mgr, &[&b], 0, 0).2.is_ok());
    assert_eq!(labels(&mgr, vec![7, 8]), vec![("B".to_string(), 8)]);
    assert!(configure(&mut mgr, &[&a], 1, 0).2.is_err());
    assert_eq!(labels(&mgr, vec![7, 8]), vec![("B".to_string(), 8)]);
}

#[test]
fn a_measurement_reports_each_event() {
    let mut mgr = manager(2, 3, 1);
    let a = make_event("A", 41, None);
    let b = make_event("B", 42, Some(0x1));
    assert!(configure(&mut mgr, &[&a, &b], 0, 0).2.is_ok());
    let before = CounterSnapshot { values: vec![0, 0, u64::MAX, 20, 30], n_fixed: 2 };
    let after = CounterSnapshot { values: vec![9, 9, 4, 23, 30], n_fixed: 2 };
    let delta = mgr.delta(&before, &after);
    assert_eq!(mgr.labeled_counters(&delta), vec![("B", 5), ("A", 3)]);
}

#[test]
fn slots_that_the_machine_lacks_do_not_count() {
    let events = [make_event("A", 1, Some(0xf1)), make_event("B", 2, None)];
    let refs: Vec<&KpepEvent> = events.iter().collect();
    assert_eq!(KpcManager::assign_slots(&refs, 4), vec![(0, 0), (1, 1)]);
    let refs: Vec<&KpepEvent> = events.iter().rev().collect();
    assert_eq!(KpcManager::assign_slots(&refs, 4), vec![(1, 0), (0, 1)]);
    let events = [make_event("A", 1, None), make_event("B", 2, Some(u64::MAX))];
    let refs: Vec<&KpepEvent> = events.iter().collect();
    assert_eq!(KpcManager::assign_slots(&refs, 65), vec![(1, 0), (0, 1)]);
}

#[test]
fn a_short_delta_leaves_out_lacking_slots() {
    let mut mgr = manager(0, 3, 1);
    let a = make_event("A", 41, Some(0x4));
    let b = make_event("B", 42, Some(0x1));
    let c = make_event("C", 43, Some(0x2));
    assert!(configure(&mut mgr, &[&a, &b, &c], 0, 0).2.is_ok());
    let delta = |configurable: Vec<u64>| CounterDelta { cycles: 0, instructions: 0, configurable };
    assert_eq!(
        mgr.labeled_counters(&delta(vec![7, 8, 0])),
        vec![("A", 0), ("B", 7), ("C", 8)]
    );
    assert_eq!(mgr.labeled_counters(&delta(vec![7, 8])), vec![("B", 7), ("C", 8)]);
    assert_eq!(mgr.labeled_counters(&delta(vec![7])), vec![("B", 7)]);
    assert_eq!(mgr.labeled_counters(&delta(vec![])), vec![]);
}

#[test]
fn received_counters_are_preferred() {
    let mgr = manager(2, 1, 1);
    let before = CounterSnapshot { values: vec![1, 2, 3], n_fixed: 2 };
    let after = CounterSnapshot { values: vec![11, 22, 33], n_fixed: 2 };
    let own = CounterSnapshot { values: vec![5, 6, 7], n_fixed: 2 };
    let delta = mgr.measured(Some(&own), &before, &after);
    assert_eq!((delta.cycles, delta.instructions, delta.configurable), (5, 6, vec![7]));
    let delta = mgr.measured(None, &before, &after);
    assert_eq!((delta.cycles, delta.instructions, delta.configurable), (10, 20, vec![30]));
}
