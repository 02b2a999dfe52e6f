//! Counting with the kpc (kernel performance counter) API.
//!
//! The kernel is reached through the calls of Apple's kperf framework. Which calls are made,
//! with which arguments, and what their replies mean is decided here; making them is left to
//! the program.

use vstd::arithmetic::div_mod::lemma_add_mod_noop;
use vstd::prelude::*;

use crate::kpep::{keep_events, models_of, EventModel, KpepEvent};
use crate::slots::{
    as_ints, as_numbers, assignment, lemma_assignment_fits,
    lemma_assignment_leaves_out_only_crowded, lemma_assignment_rules, masks_of, place_events, taken, unassigned,
    well_placed,
};
use crate::text::texts;

verus! {

/// Why the counters could not be used.
#[derive(Debug)]
pub enum KpcError {
    /// The kperf framework could not be loaded.
    LoadError(String),
    /// The kperf framework lacks a function.
    MissingSymbol(String),
    /// A kpc call failed: its name without the prefix, and the error number.
    ApiError(&'static str, i32),
    /// There are more events than counters to count them.
    TooManyEvents { requested: usize, max: usize },
    /// The counters are open to root only.
    NotRoot,
}

/// The class of the fixed counters.
pub const KPC_CLASS_FIXED_MASK: u32 = 1;

/// The class of the configurable counters.
pub const KPC_CLASS_CONFIGURABLE_MASK: u32 = 2;

/// Both classes.
pub const KPC_ALL: u32 = 3;

/// Counter values from a single snapshot.
#[derive(Debug)]
pub struct CounterSnapshot {
    /// Raw counter values. Layout: `[fixed0, fixed1, ..., config0, config1, ...]`.
    pub values: Vec<u64>,
    /// Number of fixed counters (first N values).
    pub n_fixed: usize,
}

/// Result of subtracting two snapshots.
#[derive(Debug)]
pub struct CounterDelta {
    /// Fixed counter 0 delta (typically CPU cycles).
    pub cycles: u64,
    /// Fixed counter 1 delta (typically retired instructions).
    pub instructions: u64,
    /// Configurable counter deltas, in the order they were configured.
    pub configurable: Vec<u64>,
}

impl Clone for CounterSnapshot {
    fn clone(&self) -> (r: Self)
        ensures
            r.values@ == self.values@,
            r.n_fixed == self.n_fixed,
    {
        CounterSnapshot { values: copy_of(&self.values), n_fixed: self.n_fixed }
    }
}

fn copy_of(v: &Vec<u64>) -> (r: Vec<u64>)
    ensures
        r@ == v@,
{
    let mut r: Vec<u64> = Vec::new();
    for i in 0..v.len()
        invariant
            r@ == v@.take(i as int),
    {
        r.push(v[i]);
        assert(v@.take(i + 1) =~= v@.take(i as int).push(v@[i as int]));
    }
    assert(v@.take(v@.len() as int) =~= v@);
    r
}

/// An event that is programmed into a configurable counter.
#[derive(Debug)]
pub struct ConfiguredEvent {
    pub name: String,
    /// Which hardware counter slot this event was assigned to.
    pub slot: usize,
}

/// The names and slots of programmed events.
pub open spec fn labels(events: Seq<ConfiguredEvent>) -> Seq<(Seq<char>, nat)> {
    events.map_values(|e: ConfiguredEvent| (e.name@, e.slot as nat))
}

/// High-level manager for kpc hardware performance counters.
///
/// It knows the machine's counters and the events programmed into them.
#[derive(Debug)]
pub struct KpcManager {
    n_fixed: usize,
    n_config: usize,
    ncpu: usize,
    /// Events currently programmed into the configurable counters.
    configured_events: Vec<ConfiguredEvent>,
}

impl KpcManager {
    #[verifier::type_invariant]
    spec fn labels_fit(self) -> bool {
        slots_below(labels(self.configured_events@), self.n_config as nat)
    }
}

/// A manager, in the terms that contracts speak of.
pub struct ManagerModel {
    pub n_fixed: usize,
    pub n_config: usize,
    pub ncpu: usize,
    pub labels: Seq<(Seq<char>, nat)>,
}

impl ManagerModel {
    /// What holds of every manager: each label's slot is one of the machine's.
    pub open spec fn well_formed(self) -> bool {
        slots_below(self.labels, self.n_config as nat)
    }
}

/// Whether each label's slot is below `n`.
pub open spec fn slots_below(labels: Seq<(Seq<char>, nat)>, n: nat) -> bool {
    forall|k: int| 0 <= k < labels.len() ==> (#[trigger] labels[k]).1 < n
}

impl View for KpcManager {
    type V = ManagerModel;

    closed spec fn view(&self) -> ManagerModel {
        ManagerModel {
            n_fixed: self.n_fixed,
            n_config: self.n_config,
            ncpu: self.ncpu,
            labels: labels(self.configured_events@),
        }
    }
}

/// The number of an OS error, or -1 if it has none.
pub fn errno(raw_os_error: Option<i32>) -> (r: i32)
    ensures
        r == (match raw_os_error {
            Some(n) => n as int,
            None => -1int,
        }),
{
    match raw_os_error {
        Some(n) => n,
        None => -1,
    }
}

/// The number of CPUs, given what the query for it returned and wrote: at least one.
pub fn ncpu(ret: i32, count: i32) -> (r: usize)
    ensures
        r == (if ret != 0 || count <= 0 {
            1int
        } else {
            count as int
        }),
{
    if ret != 0 || count <= 0 {
        return 1;
    }
    count as usize
}

/// The functions of kperf that are called, in the order in which they are looked for.
pub open spec fn kperf_functions() -> Seq<Seq<char>> {
    seq![
        "kpc_get_counter_count"@,
        "kpc_force_all_ctrs_set"@,
        "kpc_set_counting"@,
        "kpc_set_thread_counting"@,
        "kpc_set_config"@,
        "kpc_get_cpu_counters"@,
    ]
}

/// Lists the functions of kperf that are called.
pub fn kperf_symbols() -> (r: Vec<&'static str>)
    ensures
        r@.map_values(|s: &'static str| s@) == kperf_functions(),
        r@.len() == 6,
        r@[0]@ == "kpc_get_counter_count"@,
        r@[1]@ == "kpc_force_all_ctrs_set"@,
        r@[2]@ == "kpc_set_counting"@,
        r@[3]@ == "kpc_set_thread_counting"@,
        r@[4]@ == "kpc_set_config"@,
        r@[5]@ == "kpc_get_cpu_counters"@,
{
    let r: Vec<&'static str> = vec![
        "kpc_get_counter_count",
        "kpc_force_all_ctrs_set",
        "kpc_set_counting",
        "kpc_set_thread_counting",
        "kpc_set_config",
        "kpc_get_cpu_counters",
    ];
    assert(r@.map_values(|s: &'static str| s@) =~= kperf_functions());
    r
}

/// Judges whether kperf was loaded, given whether the framework and each of its functions were
/// missing.
///
/// The first function that is missing is reported.
pub fn check_kperf(handle_is_null: bool, symbol_is_null: &Vec<bool>) -> (r: Result<(), KpcError>)
    requires
        symbol_is_null@.len() == kperf_functions().len(),
    ensures
        r is Ok <==> !handle_is_null && (forall|i: int|
            0 <= i < symbol_is_null@.len() ==> !#[trigger] symbol_is_null@[i]),
        handle_is_null ==> (r matches Err(KpcError::LoadError(s)) && s@
            == "dlopen kperf.framework failed"@),
        forall|i: int|
            !handle_is_null && 0 <= i < symbol_is_null@.len() && #[trigger] symbol_is_null@[i] && (
            forall|j: int| 0 <= j < i ==> !#[trigger] symbol_is_null@[j]) ==> (r matches Err(
                KpcError::MissingSymbol(s),
            ) && s@ == kperf_functions()[i]),
{
    if handle_is_null {
        return Err(KpcError::LoadError("dlopen kperf.framework failed".to_owned()));
    }
    let names = kperf_symbols();
    for i in 0..symbol_is_null.len()
        invariant
            !handle_is_null,
            symbol_is_null@.len() == kperf_functions().len(),
            names@.map_values(|s: &'static str| s@) == kperf_functions(),
            forall|j: int| 0 <= j < i ==> !#[trigger] symbol_is_null@[j],
    {
        if symbol_is_null[i] {
            assert(names@.map_values(|s: &'static str| s@)[i as int] == names@[i as int]@);
            return Err(KpcError::MissingSymbol(names[i].to_owned()));
        }
    }
    Ok(())
}

/// The value of a counter in a snapshot; a counter that is missing reads as 0.
pub open spec fn counter(values: Seq<u64>, i: int) -> u64 {
    if 0 <= i < values.len() {
        values[i]
    } else {
        0
    }
}

/// How far a counter went on from `from` to `to`, if it wraps around after 64 bits.
pub open spec fn advance(from: u64, to: u64) -> u64 {
    if to >= from {
        (to - from) as u64
    } else {
        (to - from + 0x1_0000_0000_0000_0000) as u64
    }
}

/// How far each of the `n_config` configurable counters, which come after `n_fixed` others, went
/// on between two snapshots.
pub open spec fn advances(
    before: Seq<u64>,
    after: Seq<u64>,
    n_fixed: int,
    n_config: nat,
) -> Seq<u64> {
    Seq::new(n_config, |i: int| advance(counter(before, n_fixed + i), counter(after, n_fixed + i)))
}

fn read_counter(snap: &CounterSnapshot, i: usize) -> (r: u64)
    ensures
        r == counter(snap.values@, i as int),
{
    if i < snap.values.len() {
        snap.values[i]
    } else {
        0
    }
}

/// The sum of one counter over the first `cpus` CPUs, in a buffer that holds `n` counters of
/// each CPU in turn.
pub open spec fn sum_over_cpus(buf: Seq<u64>, n: int, counter: int, cpus: nat) -> nat
    decreases cpus,
{
    if cpus == 0 {
        0
    } else {
        sum_over_cpus(buf, n, counter, (cpus - 1) as nat) + buf[(cpus - 1) * n + counter] as nat
    }
}

/// The counters of a machine: each summed over all its CPUs, wrapping around after 64 bits.
pub open spec fn system_wide(buf: Seq<u64>, cpus: nat, n: int) -> Seq<u64> {
    Seq::new(
        n as nat,
        |c: int| (sum_over_cpus(buf, n, c, cpus) % 0x1_0000_0000_0000_0000) as u64,
    )
}

/// The names and values of the labels whose slot has a value.
pub open spec fn labeled(labels: Seq<(Seq<char>, nat)>, values: Seq<u64>) -> Seq<(Seq<char>, u64)>
    decreases labels.len(),
{
    if labels.len() == 0 {
        Seq::empty()
    } else {
        let before = labeled(labels.drop_last(), values);
        if labels.last().1 < values.len() {
            before.push((labels.last().0, values[labels.last().1 as int]))
        } else {
            before
        }
    }
}

/// The texts and numbers of pairs in a row.
pub open spec fn named_values(pairs: Seq<(&str, u64)>) -> Seq<(Seq<char>, u64)> {
    pairs.map_values(|p: (&str, u64)| (p.0@, p.1))
}

/// How many counters of each class the kernel says there are.
#[derive(Debug, Clone, Copy)]
pub struct CounterCounts {
    pub fixed: i32,
    pub configurable: i32,
}

impl KpcManager {
    /// Create a new KpcManager, given the user, what came of loading kperf and asking it for
    /// its counter counts, and the number of CPUs.
    ///
    /// Does NOT acquire the counters yet - call `configure` for that.
    pub fn new(euid: u32, kperf: Result<CounterCounts, KpcError>, ncpu: usize) -> (r: Result<
        KpcManager,
        KpcError,
    >)
        ensures
            euid != 0 ==> r matches Err(KpcError::NotRoot),
            euid == 0 ==> match kperf {
                Ok(counts) => r matches Ok(m) && m@ == (ManagerModel {
                    n_fixed: counts.fixed as usize,
                    n_config: counts.configurable as usize,
                    ncpu,
                    labels: Seq::empty(),
                }) && m@.well_formed(),
                Err(e) => r == Err::<KpcManager, KpcError>(e),
            },
    {
        if euid != 0 {
            return Err(KpcError::NotRoot);
        }
        match kperf {
            Ok(counts) => {
                let m = KpcManager {
                    n_fixed: #[verifier::truncate] (counts.fixed as usize),
                    n_config: #[verifier::truncate] (counts.configurable as usize),
                    ncpu,
                    configured_events: Vec::new(),
                };
                assert(m@.labels =~= Seq::empty());
                Ok(m)
            },
            Err(e) => Err(e),
        }
    }

    /// Number of fixed counters (typically 2: cycles + instructions).
    pub fn n_fixed(&self) -> (r: usize)
        ensures
            r == self@.n_fixed,
    {
        self.n_fixed
    }

    /// Number of configurable counter slots (typically 8 on Apple Silicon).
    pub fn n_configurable(&self) -> (r: usize)
        ensures
            r == self@.n_config,
    {
        self.n_config
    }

    /// Number of logical CPUs.
    pub fn ncpu(&self) -> (r: usize)
        ensures
            r == self@.ncpu,
    {
        self.ncpu
    }

    /// Assign events to counter slots respecting `counters_mask` constraints.
    ///
    /// Most constrained events (fewest valid slots) are assigned first to avoid conflicts.
    /// Returns `(index, slot)` pairs, the index being that of the event in `events`.
    pub fn assign_slots(events: &[&KpepEvent], n_slots: usize) -> (r: Vec<(usize, usize)>)
        ensures
            as_numbers(r@) == assignment(masks_of(models_of(events@)), n_slots),
    {
        place_events(events, n_slots).0
    }

    /// How many values a buffer for a reading of all CPUs holds, if that many can be counted.
    pub fn buffer_len(&self) -> (r: Option<usize>)
        ensures
            r == (if self@.ncpu * (self@.n_fixed + self@.n_config) <= usize::MAX && self@.n_fixed
                + self@.n_config <= usize::MAX {
                Some((self@.ncpu * (self@.n_fixed + self@.n_config)) as usize)
            } else {
                None
            }),
    {
        match self.n_fixed.checked_add(self.n_config) {
            Some(n) => self.ncpu.checked_mul(n),
            None => None,
        }
    }

    /// Read system-wide counters summed across all CPUs, given the call's reply and the buffer
    /// that it filled.
    pub fn read_system_wide(&self, ret: i32, errno: i32, buf: &Vec<u64>) -> (r: Result<
        CounterSnapshot,
        KpcError,
    >)
        requires
            self@.n_fixed + self@.n_config <= usize::MAX,
            buf@.len() == self@.ncpu * (self@.n_fixed + self@.n_config),
        ensures
            ret != 0 ==> r == Err::<CounterSnapshot, KpcError>(
                KpcError::ApiError("get_cpu_counters", errno),
            ),
            ret == 0 ==> (r matches Ok(snap) && snap.n_fixed == self@.n_fixed && snap.values@
                == system_wide(buf@, self@.ncpu as nat, self@.n_fixed + self@.n_config)),
    {
        if ret != 0 {
            return Err(KpcError::ApiError("get_cpu_counters", errno));
        }
        let n: usize = self.n_fixed + self.n_config;
        let cpus: usize = self.ncpu;
        let mut sums: Vec<u64> = vec![0u64; n];
        for cpu in 0..cpus
            invariant
                buf@.len() == cpus * n,
                sums@.len() == n,
                forall|c: int|
                    0 <= c < n ==> #[trigger] sums@[c] == sum_over_cpus(
                        buf@,
                        n as int,
                        c,
                        cpu as nat,
                    ) % 0x1_0000_0000_0000_0000,
        {
            for c in 0..n
                invariant
                    buf@.len() == cpus * n,
                    cpu < cpus,
                    sums@.len() == n,
                    forall|d: int|
                        0 <= d < c ==> #[trigger] sums@[d] == sum_over_cpus(
                            buf@,
                            n as int,
                            d,
                            (cpu + 1) as nat,
                        ) % 0x1_0000_0000_0000_0000,
                    forall|d: int|
                        c <= d < n ==> #[trigger] sums@[d] == sum_over_cpus(
                            buf@,
                            n as int,
                            d,
                            cpu as nat,
                        ) % 0x1_0000_0000_0000_0000,
            {
                assert(cpu * n + c < cpus * n && cpu * n >= 0) by (nonlinear_arith)
                    requires
                        0 <= cpu < cpus,
                        0 <= c < n,
                ;
                assert(buf.len() <= usize::MAX);
                let sum: u64 = sums[c].wrapping_add(buf[cpu * n + c]);
                proof {
                    let old_sum = sum_over_cpus(buf@, n as int, c as int, cpu as nat);
                    let x = buf@[cpu * n + c] as nat;
                    assert(sum_over_cpus(buf@, n as int, c as int, (cpu + 1) as nat) == old_sum + x);
                    assert(sum as nat == (old_sum + x) % 0x1_0000_0000_0000_0000);
                }
                sums.set(c, sum);
            }
        }
        assert(sums@ =~= system_wide(buf@, self@.ncpu as nat, self@.n_fixed + self@.n_config));
        Ok(CounterSnapshot { values: sums, n_fixed: self.n_fixed })
    }

    /// Compute the delta between two snapshots.
    ///
    /// Uses bounds-checked access so this never panics, even if snapshots
    /// have fewer values than expected (missing counters read as 0).
    pub fn delta(&self, before: &CounterSnapshot, after: &CounterSnapshot) -> (r: CounterDelta)
        ensures
            r.cycles == advance(counter(before.values@, 0), counter(after.values@, 0)),
            r.instructions == advance(counter(before.values@, 1), counter(after.values@, 1)),
            r.configurable@ == advances(
                before.values@,
                after.values@,
                self@.n_fixed as int,
                self@.n_config as nat,
            ),
            before.values@.len() > 0 && after.values@.len() > 0 ==> (before.values@[0] + r.cycles)
                % 0x1_0000_0000_0000_0000 == after.values@[0],
            before.values@.len() > 1 && after.values@.len() > 1 ==> (before.values@[1]
                + r.instructions) % 0x1_0000_0000_0000_0000 == after.values@[1],
            r.configurable@.len() == self@.n_config,
            before.values@.len() <= 0 < after.values@.len() ==> r.cycles == after.values@[0],
            after.values@.len() <= 0 < before.values@.len() ==> (before.values@[0] + r.cycles)
                % 0x1_0000_0000_0000_0000 == 0,
            before.values@.len() <= 0 && after.values@.len() <= 0 ==> r.cycles == 0,
            before.values@.len() <= 1 < after.values@.len() ==> r.instructions == after.values@[1],
            after.values@.len() <= 1 < before.values@.len() ==> (before.values@[1] + r.instructions)
                % 0x1_0000_0000_0000_0000 == 0,
            before.values@.len() <= 1 && after.values@.len() <= 1 ==> r.instructions == 0,
            forall|i: int|
                0 <= i < self@.n_config ==> {
                    let at = self@.n_fixed + i;
                    let moved = #[trigger] r.configurable@[i];
                    &&& at < before.values@.len() && at < after.values@.len() ==> (
                    before.values@[at] + moved) % 0x1_0000_0000_0000_0000 == after.values@[at]
                    &&& before.values@.len() <= at < after.values@.len() ==> moved
                        == after.values@[at]
                    &&& after.values@.len() <= at < before.values@.len() ==> (before.values@[at]
                        + moved) % 0x1_0000_0000_0000_0000 == 0
                    &&& before.values@.len() <= at && after.values@.len() <= at ==> moved == 0
                },
    {
        let cycles: u64 = read_counter(after, 0).wrapping_sub(read_counter(before, 0));
        let instructions: u64 = read_counter(after, 1).wrapping_sub(read_counter(before, 1));
        let ghost want = advances(
            before.values@,
            after.values@,
            self@.n_fixed as int,
            self@.n_config as nat,
        );
        let mut configurable: Vec<u64> = Vec::new();
        for i in 0..self.n_config
            invariant
                want == advances(
                    before.values@,
                    after.values@,
                    self@.n_fixed as int,
                    self@.n_config as nat,
                ),
                configurable@ == want.take(i as int),
        {
            let moved: u64 = match self.n_fixed.checked_add(i) {
                Some(idx) => read_counter(after, idx).wrapping_sub(read_counter(before, idx)),
                None => {
                    assert(before.values.len() <= usize::MAX && after.values.len() <= usize::MAX);
                    0
                },
            };
            configurable.push(moved);
            assert(moved == want[i as int]);
            assert(want.take(i + 1) =~= want.take(i as int).push(moved));
        }
        assert(want.take(want.len() as int) =~= want);
        CounterDelta { cycles, instructions, configurable }
    }

    /// The delta of counters that started from zero: the counters themselves, missing ones
    /// being 0.
    pub fn delta_from_zero(&self, snap: &CounterSnapshot) -> (r: CounterDelta)
        ensures
            r.cycles == counter(snap.values@, 0),
            r.instructions == counter(snap.values@, 1),
            r.configurable@ == Seq::new(
                self@.n_config as nat,
                |i: int| counter(snap.values@, self@.n_fixed + i),
            ),
            r.cycles == (if snap.values@.len() > 0 {
                snap.values@[0]
            } else {
                0
            }),
            r.instructions == (if snap.values@.len() > 1 {
                snap.values@[1]
            } else {
                0
            }),
            r.configurable@.len() == self@.n_config,
            forall|i: int|
                0 <= i < self@.n_config ==> #[trigger] r.configurable@[i] == (if self@.n_fixed + i
                    < snap.values@.len() {
                    snap.values@[self@.n_fixed + i]
                } else {
                    0
                }),
    {
        let zero = CounterSnapshot {
            values: vec![0u64; snap.values.len()],
            n_fixed: snap.n_fixed,
        };
        let r = self.delta(&zero, snap);
        assert(r.configurable@ =~= Seq::new(
            self@.n_config as nat,
            |i: int| counter(snap.values@, self@.n_fixed + i),
        ));
        r
    }

    /// What a command was measured to do: what it handed over of its own counters, which started
    /// from zero, or else what all of the system did between two snapshots.
    pub fn measured(
        &self,
        received: Option<&CounterSnapshot>,
        before: &CounterSnapshot,
        after: &CounterSnapshot,
    ) -> (r: CounterDelta)
        ensures
            ({
                let from = match received {
                    Some(_) => Seq::empty(),
                    None => before.values@,
                };
                let to = match received {
                    Some(snap) => snap.values@,
                    None => after.values@,
                };
                &&& r.cycles == advance(counter(from, 0), counter(to, 0))
                &&& r.instructions == advance(counter(from, 1), counter(to, 1))
                &&& r.configurable@ == advances(
                    from,
                    to,
                    self@.n_fixed as int,
                    self@.n_config as nat,
                )
            }),
            r.configurable@.len() == self@.n_config,
            received matches Some(snap) ==> {
                &&& snap.values@.len() > 0 ==> r.cycles == snap.values@[0]
                &&& snap.values@.len() > 1 ==> r.instructions == snap.values@[1]
                &&& forall|i: int|
                    0 <= i < self@.n_config && self@.n_fixed + i < snap.values@.len()
                        ==> #[trigger] r.configurable@[i] == snap.values@[self@.n_fixed + i]
            },
            received is None ==> {
                &&& before.values@.len() > 0 && after.values@.len() > 0 ==> (before.values@[0]
                    + r.cycles) % 0x1_0000_0000_0000_0000 == after.values@[0]
                &&& before.values@.len() > 1 && after.values@.len() > 1 ==> (before.values@[1]
                    + r.instructions) % 0x1_0000_0000_0000_0000 == after.values@[1]
                &&& forall|i: int|
                    0 <= i < self@.n_config && self@.n_fixed + i < before.values@.len()
                        && self@.n_fixed + i < after.values@.len() ==> (before.values@[self@.n_fixed
                        + i] + #[trigger] r.configurable@[i]) % 0x1_0000_0000_0000_0000
                        == after.values@[self@.n_fixed + i]
            },
    {
        match received {
            Some(snap) => {
                let r = self.delta_from_zero(snap);
                assert(r.configurable@ =~= advances(
                    Seq::empty(),
                    snap.values@,
                    self@.n_fixed as int,
                    self@.n_config as nat,
                ));
                r
            },
            None => self.delta(before, after),
        }
    }

    /// Get the names and values of configured events from a delta.
    ///
    /// Returns `(event_name, counter_value)` pairs for each configured event
    /// that was successfully assigned to a counter slot.
    pub fn labeled_counters<'a>(&'a self, delta: &'a CounterDelta) -> (r: Vec<(&'a str, u64)>)
        ensures
            named_values(r@) == labeled(self@.labels, delta.configurable@),
            self@.well_formed(),
            delta.configurable@.len() >= self@.n_config ==> r@.len() == self@.labels.len()
                && forall|k: int|
                0 <= k < r@.len() ==> (#[trigger] r@[k]).0@ == self@.labels[k].0 && r@[k].1
                    == delta.configurable@[self@.labels[k].1 as int],
    {
        proof {
            use_type_invariant(self);
        }
        let ghost all = self@.labels;
        let mut r: Vec<(&'a str, u64)> = Vec::new();
        assert(named_values(r@) =~= labeled(all.take(0), delta.configurable@));
        for i in 0..self.configured_events.len()
            invariant
                all == labels(self.configured_events@),
                named_values(r@) == labeled(all.take(i as int), delta.configurable@),
        {
            let ev = &self.configured_events[i];
            assert(all.take(i + 1).drop_last() =~= all.take(i as int));
            assert(all.take(i + 1).last() == (ev.name@, ev.slot as nat));
            if ev.slot < delta.configurable.len() {
                let ghost was = r@;
                r.push((ev.name.as_str(), delta.configurable[ev.slot]));
                assert(named_values(r@) =~= named_values(was).push(
                    (ev.name@, delta.configurable@[ev.slot as int]),
                ));
            }
        }
        proof {
            assert(all.take(all.len() as int) =~= all);
            if delta.configurable@.len() >= self@.n_config {
                lemma_labels_get_their_slots_values(all, delta.configurable@);
                assert forall|k: int| 0 <= k < r@.len() implies (#[trigger] r@[k]).0@
                    == self@.labels[k].0 && r@[k].1
                    == delta.configurable@[self@.labels[k].1 as int] by {
                    assert(named_values(r@)[k] == (r@[k].0@, r@[k].1));
                }
            }
        }
        r
    }
}

/// A call that is made to have events counted, or a pause.
#[derive(Debug)]
pub enum KpcCall {
    /// `kpc_force_all_ctrs_set`: take the counters (1) or let go of them (0).
    ForceAllCtrsSet(i32),
    /// Wait for so many milliseconds.
    SleepMillis(u64),
    /// `kpc_set_counting`: count with the counters of these classes.
    SetCounting(u32),
    /// `kpc_set_thread_counting`: count per thread with the counters of these classes.
    SetThreadCounting(u32),
    /// `kpc_set_config`: program the counters of a class.
    SetConfig(u32, Vec<u64>),
}

/// A call, in the terms that contracts speak of.
pub enum CallModel {
    ForceAllCtrsSet(i32),
    SleepMillis(u64),
    SetCounting(u32),
    SetThreadCounting(u32),
    SetConfig(u32, Seq<u64>),
}

impl View for KpcCall {
    type V = CallModel;

    open spec fn view(&self) -> CallModel {
        match self {
            KpcCall::ForceAllCtrsSet(on) => CallModel::ForceAllCtrsSet(*on),
            KpcCall::SleepMillis(ms) => CallModel::SleepMillis(*ms),
            KpcCall::SetCounting(classes) => CallModel::SetCounting(*classes),
            KpcCall::SetThreadCounting(classes) => CallModel::SetThreadCounting(*classes),
            KpcCall::SetConfig(class, config) => CallModel::SetConfig(*class, config@),
        }
    }
}

/// How far the programming of counters has come: the call that is to be made next.
#[derive(Debug, Clone, Copy, PartialEq, Eq, Structural)]
pub enum ConfigurePhase {
    /// Let go of the counters.
    Release,
    /// Give the kernel time to let them go.
    Settle,
    /// Take the counters.
    Acquire,
    /// Stop counting while the counters are programmed.
    StopCounting,
    /// Stop counting per thread.
    StopThreadCounting,
    /// Program nothing into any slot.
    ClearConfig,
    /// Program the events into their slots.
    Program,
    /// Let go of the counters that could not be programmed.
    Abandon,
    /// Count.
    StartCounting,
    /// Count per thread.
    StartThreadCounting,
}

/// The programming of counters, as far as it has come.
#[derive(Debug)]
pub struct ConfigureRun {
    /// The call that is to be made next.
    pub phase: ConfigurePhase,
    /// What is programmed into each slot.
    pub config: Vec<u64>,
    /// The events and the slots they are programmed into.
    pub programmed: Vec<ConfiguredEvent>,
    /// The events that found no slot.
    pub skipped: Vec<String>,
    /// The error number that programming the events left, once that failed.
    pub errno: i32,
}

/// The programming of counters, in the terms that contracts speak of.
pub struct RunModel {
    pub phase: ConfigurePhase,
    pub config: Seq<u64>,
    pub labels: Seq<(Seq<char>, nat)>,
    pub skipped: Seq<Seq<char>>,
    pub errno: i32,
}

impl View for ConfigureRun {
    type V = RunModel;

    open spec fn view(&self) -> RunModel {
        RunModel {
            phase: self.phase,
            config: self.config@,
            labels: labels(self.programmed@),
            skipped: texts(self.skipped@),
            errno: self.errno,
        }
    }
}

/// What comes of a call's reply.
#[derive(Debug)]
pub enum ConfigureStep {
    /// There is a further call to make.
    Next(ConfigureRun),
    /// The programming is over.
    Done(Result<(), KpcError>),
}

/// Slots with nothing programmed into them.
pub open spec fn cleared(n: nat) -> Seq<u64> {
    Seq::new(n, |i: int| 0u64)
}

/// The number that is programmed to count an event.
pub open spec fn selector(event: EventModel) -> u64 {
    match event.number {
        Some(n) => n,
        None => 0,
    }
}

/// What is programmed into each of `n` slots when events are assigned as `pairs` says.
pub open spec fn config_of(events: Seq<EventModel>, pairs: Seq<(int, int)>, n: nat) -> Seq<u64>
    decreases pairs.len(),
{
    if pairs.len() == 0 {
        cleared(n)
    } else {
        config_of(events, pairs.drop_last(), n).update(
            pairs.last().1,
            selector(events[pairs.last().0]),
        )
    }
}

/// The names and slots of events that are assigned as `pairs` says.
pub open spec fn labels_of(events: Seq<EventModel>, pairs: Seq<(int, int)>) -> Seq<
    (Seq<char>, nat),
> {
    pairs.map_values(|p: (int, int)| (events[p.0].name, p.1 as nat))
}

/// The names of events.
pub open spec fn names_at(events: Seq<EventModel>, indices: Seq<int>) -> Seq<Seq<char>> {
    indices.map_values(|i: int| events[i].name)
}

/// The events among `events` that can be programmed.
pub open spec fn programmable(events: Seq<EventModel>) -> Seq<EventModel> {
    events.filter(|e: EventModel| e.configurable())
}

/// The programming of events into `n_slots` slots, before its first call.
pub open spec fn planned(events: Seq<EventModel>, n_slots: usize) -> RunModel {
    let pairs = assignment(masks_of(events), n_slots);
    RunModel {
        phase: ConfigurePhase::Release,
        config: config_of(events, pairs, n_slots as nat),
        labels: labels_of(events, pairs),
        skipped: names_at(events, unassigned(masks_of(events), n_slots)),
        errno: 0,
    }
}

impl RunModel {
    /// Whether this is a programming of `n` slots: each event's slot is one of them.
    pub open spec fn fits(self, n: nat) -> bool {
        self.config.len() == n && slots_below(self.labels, n)
    }

    /// The call that is to be made next.
    pub open spec fn call(self) -> CallModel {
        match self.phase {
            ConfigurePhase::Release => CallModel::ForceAllCtrsSet(0),
            ConfigurePhase::Settle => CallModel::SleepMillis(50),
            ConfigurePhase::Acquire => CallModel::ForceAllCtrsSet(1),
            ConfigurePhase::StopCounting => CallModel::SetCounting(0),
            ConfigurePhase::StopThreadCounting => CallModel::SetThreadCounting(0),
            ConfigurePhase::ClearConfig => CallModel::SetConfig(
                KPC_CLASS_CONFIGURABLE_MASK,
                cleared(self.config.len()),
            ),
            ConfigurePhase::Program => CallModel::SetConfig(
                KPC_CLASS_CONFIGURABLE_MASK,
                self.config,
            ),
            ConfigurePhase::Abandon => CallModel::ForceAllCtrsSet(0),
            ConfigurePhase::StartCounting => CallModel::SetCounting(KPC_ALL),
            ConfigurePhase::StartThreadCounting => CallModel::SetThreadCounting(KPC_ALL),
        }
    }
}

impl RunModel {
    /// The programming when it has come to a further phase, a reply having left an error number.
    /// The labels go to the manager when the slots are cleared, and the error number of the call
    /// that programs the events is kept.
    pub open spec fn moved_to(self, phase: ConfigurePhase, errno: i32) -> RunModel {
        RunModel {
            phase,
            labels: if self.phase == ConfigurePhase::ClearConfig {
                Seq::empty()
            } else {
                self.labels
            },
            errno: if self.phase == ConfigurePhase::Program {
                errno
            } else {
                self.errno
            },
            ..self
        }
    }
}

/// The phase that follows a reply, or `None` if the programming is over.
pub open spec fn next_phase(phase: ConfigurePhase, ret: i32) -> Option<ConfigurePhase> {
    match phase {
        ConfigurePhase::Release => Some(ConfigurePhase::Settle),
        ConfigurePhase::Settle => Some(ConfigurePhase::Acquire),
        ConfigurePhase::Acquire => if ret != 0 {
            None
        } else {
            Some(ConfigurePhase::StopCounting)
        },
        ConfigurePhase::StopCounting => Some(ConfigurePhase::StopThreadCounting),
        ConfigurePhase::StopThreadCounting => Some(ConfigurePhase::ClearConfig),
        ConfigurePhase::ClearConfig => Some(ConfigurePhase::Program),
        ConfigurePhase::Program => if ret != 0 {
            Some(ConfigurePhase::Abandon)
        } else {
            Some(ConfigurePhase::StartCounting)
        },
        ConfigurePhase::Abandon => None,
        ConfigurePhase::StartCounting => Some(ConfigurePhase::StartThreadCounting),
        ConfigurePhase::StartThreadCounting => None,
    }
}

/// What a programming that ends comes to, the last reply having left an error number.
pub open spec fn outcome(run: RunModel, errno: i32) -> Result<(), KpcError> {
    match run.phase {
        ConfigurePhase::Acquire => Err(KpcError::ApiError("force_all_ctrs_set", errno)),
        ConfigurePhase::Abandon => Err(KpcError::ApiError("set_config", run.errno)),
        _ => Ok(()),
    }
}

/// The labels of a manager after a reply: once the slots are cleared, those of the events that
/// are about to be programmed.
pub open spec fn labels_after(run: RunModel, before: ManagerModel) -> Seq<(Seq<char>, nat)> {
    if run.phase == ConfigurePhase::ClearConfig {
        run.labels
    } else {
        before.labels
    }
}

impl ConfigureRun {
    /// The call that is to be made next.
    pub fn call(&self) -> (r: KpcCall)
        ensures
            r@ == self@.call(),
    {
        match self.phase {
            ConfigurePhase::Release => KpcCall::ForceAllCtrsSet(0),
            ConfigurePhase::Settle => KpcCall::SleepMillis(50),
            ConfigurePhase::Acquire => KpcCall::ForceAllCtrsSet(1),
            ConfigurePhase::StopCounting => KpcCall::SetCounting(0),
            ConfigurePhase::StopThreadCounting => KpcCall::SetThreadCounting(0),
            ConfigurePhase::ClearConfig => {
                let zero: Vec<u64> = vec![0u64; self.config.len()];
                assert(zero@ =~= cleared(self.config@.len()));
                KpcCall::SetConfig(KPC_CLASS_CONFIGURABLE_MASK, zero)
            },
            ConfigurePhase::Program => KpcCall::SetConfig(
                KPC_CLASS_CONFIGURABLE_MASK,
                copy_of(&self.config),
            ),
            ConfigurePhase::Abandon => KpcCall::ForceAllCtrsSet(0),
            ConfigurePhase::StartCounting => KpcCall::SetCounting(KPC_ALL),
            ConfigurePhase::StartThreadCounting => KpcCall::SetThreadCounting(KPC_ALL),
        }
    }
}

fn plan(events: &[&KpepEvent], n_slots: usize) -> (r: ConfigureRun)
    requires
        forall|i: int| 0 <= i < events@.len() ==> (#[trigger] events@[i])@.configurable(),
    ensures
        r@ == planned(models_of(events@), n_slots),
{
    let ghost models = models_of(events@);
    let (placed, missed) = place_events(events, n_slots);
    let ghost pairs = as_numbers(placed@);
    proof {
        lemma_assignment_fits(masks_of(models), n_slots);
        lemma_unassigned_in_range(masks_of(models), n_slots);
        assert(well_placed(masks_of(models), n_slots, pairs));
    }
    let mut config: Vec<u64> = vec![0u64; n_slots];
    let mut programmed: Vec<ConfiguredEvent> = Vec::new();
    proof {
        assert(config@ =~= config_of(models, pairs.take(0), n_slots as nat));
        assert(labels(programmed@) =~= labels_of(models, pairs.take(0)));
    }
    for k in 0..placed.len()
        invariant
            models == models_of(events@),
            pairs == as_numbers(placed@),
            well_placed(masks_of(models), n_slots, pairs),
            forall|i: int| 0 <= i < events@.len() ==> (#[trigger] events@[i])@.configurable(),
            config@.len() == n_slots,
            config@ == config_of(models, pairs.take(k as int), n_slots as nat),
            labels(programmed@) == labels_of(models, pairs.take(k as int)),
    {
        let (i, slot) = placed[k];
        proof {
            assert(pairs[k as int] == (i as int, slot as int));
            assert(pairs.take(k + 1).drop_last() =~= pairs.take(k as int));
            assert(models[i as int] == events@[i as int]@);
        }
        let number: u64 = match events[i].number {
            Some(n) => n,
            None => 0,
        };
        config.set(slot, number);
        let ghost was = programmed@;
        programmed.push(ConfiguredEvent { name: events[i].name.clone(), slot });
        assert(labels(programmed@) =~= labels_of(models, pairs.take(k + 1))) by {
            assert(labels(programmed@) =~= labels(was).push((models[i as int].name, slot as nat)));
            assert(labels_of(models, pairs.take(k + 1)) =~= labels_of(
                models,
                pairs.take(k as int),
            ).push((models[i as int].name, slot as nat)));
        }
    }
    let mut skipped: Vec<String> = Vec::new();
    let ghost gone = as_ints(missed@);
    assert(texts(skipped@) =~= names_at(models, gone.take(0)));
    for k in 0..missed.len()
        invariant
            models == models_of(events@),
            gone == as_ints(missed@),
            forall|m: int| 0 <= m < gone.len() ==> 0 <= #[trigger] gone[m] < models.len(),
            texts(skipped@) == names_at(models, gone.take(k as int)),
    {
        assert(gone[k as int] == missed@[k as int]);
        let ghost was = skipped@;
        skipped.push(events[missed[k]].name.clone());
        assert(texts(skipped@) =~= names_at(models, gone.take(k + 1))) by {
            let name = models[gone[k as int]].name;
            assert(texts(skipped@) =~= texts(was).push(name));
            assert(names_at(models, gone.take(k + 1)) =~= names_at(
                models,
                gone.take(k as int),
            ).push(name));
        }
    }
    proof {
        assert(pairs.take(pairs.len() as int) =~= pairs);
        assert(gone.take(gone.len() as int) =~= gone);
    }
    ConfigureRun { phase: ConfigurePhase::Release, config, programmed, skipped, errno: 0 }
}

proof fn lemma_unassigned_in_range(masks: Seq<Option<u64>>, n_slots: usize)
    ensures
        forall|m: int|
            0 <= m < unassigned(masks, n_slots).len() ==> 0 <= #[trigger] unassigned(
                masks,
                n_slots,
            )[m] < masks.len(),
{
    lemma_assignment_leaves_out_only_crowded(masks, n_slots);
    assert forall|m: int| 0 <= m < unassigned(masks, n_slots).len() implies 0
        <= #[trigger] unassigned(masks, n_slots)[m] < masks.len() by {
        assert(unassigned(masks, n_slots).contains(unassigned(masks, n_slots)[m]));
    }
}

proof fn lemma_programmable(events: Seq<EventModel>)
    ensures
        forall|i: int|
            0 <= i < programmable(events).len() ==> (#[trigger] programmable(
                events,
            )[i]).configurable(),
{
    let wanted = |e: EventModel| e.configurable();
    assert forall|i: int| 0 <= i < programmable(events).len() implies (#[trigger] programmable(
        events,
    )[i]).configurable() by {
        events.lemma_filter_pred(wanted, i);
    }
}

proof fn lemma_run_programs_numbers(run: ConfigureRun, events: Seq<&KpepEvent>, n_slots: usize)
    requires
        run@ == planned(programmable(models_of(events)), n_slots),
    ensures
        run.config@.len() == n_slots,
        forall|k: int|
            0 <= k < run.programmed@.len() ==> (#[trigger] run.programmed@[k]).slot < n_slots
                && exists|i: int|
                {
                    &&& 0 <= i < events.len()
                    &&& (#[trigger] events[i]).name@ == run.programmed@[k].name@
                    &&& events[i].fixed_counter is None
                    &&& events[i].number == Some(run.config@[run.programmed@[k].slot as int])
                    &&& events[i].counters_mask matches Some(m) ==> run.programmed@[k].slot < 64
                        && m & (1u64 << (run.programmed@[k].slot as u64)) != 0
                },
{
    let models = models_of(events);
    let wanted = programmable(models);
    let pairs = assignment(masks_of(wanted), n_slots);
    lemma_programmable(models);
    lemma_slots_hold_event_numbers(wanted, n_slots);
    lemma_assignment_rules(masks_of(wanted), n_slots);
    assert forall|k: int| 0 <= k < run.programmed@.len() implies (#[trigger] run.programmed@[k]).slot
        < n_slots && exists|i: int|
        {
            &&& 0 <= i < events.len()
            &&& (#[trigger] events[i]).name@ == run.programmed@[k].name@
            &&& events[i].fixed_counter is None
            &&& events[i].number == Some(run.config@[run.programmed@[k].slot as int])
            &&& events[i].counters_mask matches Some(m) ==> run.programmed@[k].slot < 64 && m & (
            1u64 << (run.programmed@[k].slot as u64)) != 0
        } by {
        let entry = run.programmed@[k];
        let (i, slot) = pairs[k];
        let e = wanted[i];
        assert(run@.labels[k] == (entry.name@, entry.slot as nat));
        assert(e.configurable());
        assert(wanted.contains(e));
        models.lemma_filter_contains_rev(|e: EventModel| e.configurable(), e);
        let j = choose|j: int| 0 <= j < models.len() && models[j] == e;
        assert(models[j] == events[j]@);
        assert(masks_of(wanted)[i] == e.counters_mask);
        assert(events[j].name@ == entry.name@);
    }
}

impl KpcManager {
    /// Configure which events to count.
    ///
    /// Decides what is programmed into which slot; the calls that acquire exclusive counter
    /// access, program the events and enable counting are then made one by one, each reply
    /// being handed to `configure_step`.
    ///
    /// Only configurable (non-fixed) events can be programmed. Fixed counters
    /// (cycles, instructions) are always available.
    pub fn configure(&self, events: &[&KpepEvent]) -> (r: Result<ConfigureRun, KpcError>)
        ensures
            ({
                let wanted = programmable(models_of(events@));
                if wanted.len() > self@.n_config {
                    r == Err::<ConfigureRun, KpcError>(
                        KpcError::TooManyEvents {
                            requested: wanted.len() as usize,
                            max: self@.n_config,
                        },
                    )
                } else {
                    r matches Ok(run) && run@ == planned(wanted, self@.n_config) && run@.fits(
                        self@.n_config as nat,
                    )
                }
            }),
            r matches Ok(run) ==> {
                &&& run.config@.len() == self@.n_config
                &&& forall|k: int|
                    0 <= k < run.programmed@.len() ==> (#[trigger] run.programmed@[k]).slot
                        < self@.n_config && exists|i: int|
                        {
                            &&& 0 <= i < events@.len()
                            &&& (#[trigger] events@[i]).name@ == run.programmed@[k].name@
                            &&& events@[i].fixed_counter is None
                            &&& events@[i].number == Some(
                                run.config@[run.programmed@[k].slot as int],
                            )
                            &&& events@[i].counters_mask matches Some(m)
                                ==> run.programmed@[k].slot < 64 && m & (1u64
                                << (run.programmed@[k].slot as u64)) != 0
                        }
            },
    {
        let test = |e: &KpepEvent| -> (kept: bool)
            ensures
                kept == e@.configurable(),
        {
            e.is_configurable()
        };
        let configurable = keep_events(
            events,
            test,
            Ghost(|e: EventModel| e.configurable()),
        );
        if configurable.len() > self.n_config {
            return Err(
                KpcError::TooManyEvents { requested: configurable.len(), max: self.n_config },
            );
        }
        proof {
            lemma_planned_fits(programmable(models_of(events@)), self.n_config);
            lemma_programmable(models_of(events@));
            assert forall|i: int| 0 <= i < configurable@.len() implies (
            #[trigger] configurable@[i])@.configurable() by {
                assert(models_of(configurable@)[i] == configurable@[i]@);
            }
        }
        let run = plan(configurable.as_slice(), self.n_config);
        proof {
            lemma_run_programs_numbers(run, events@, self.n_config);
        }
        Ok(run)
    }

    /// Goes on with a programming of the manager's counters, given the reply to the call of its
    /// phase: what it returned, and the error number after it.
    pub fn configure_step(&mut self, run: ConfigureRun, ret: i32, errno: i32) -> (r: ConfigureStep)
        requires
            run@.fits(old(self)@.n_config as nat),
        ensures
            final(self)@.well_formed(),
            r matches ConfigureStep::Next(next) ==> next@.fits(final(self)@.n_config as nat),
            final(self)@ == (ManagerModel {
                labels: labels_after(run@, old(self)@),
                ..old(self)@
            }),
            match next_phase(run@.phase, ret) {
                Some(phase) => r matches ConfigureStep::Next(next) && next@
                    == run@.moved_to(phase, errno),
                None => r == ConfigureStep::Done(outcome(run@, errno)),
            },
    {
        proof {
            use_type_invariant(&*self);
        }
        let mut run = run;
        match run.phase {
            ConfigurePhase::Release => {
                run.phase = ConfigurePhase::Settle;
            },
            ConfigurePhase::Settle => {
                run.phase = ConfigurePhase::Acquire;
            },
            ConfigurePhase::Acquire => {
                if ret != 0 {
                    return ConfigureStep::Done(
                        Err(KpcError::ApiError("force_all_ctrs_set", errno)),
                    );
                }
                run.phase = ConfigurePhase::StopCounting;
            },
            ConfigurePhase::StopCounting => {
                run.phase = ConfigurePhase::StopThreadCounting;
            },
            ConfigurePhase::StopThreadCounting => {
                run.phase = ConfigurePhase::ClearConfig;
            },
            ConfigurePhase::ClearConfig => {
                run.phase = ConfigurePhase::Program;
                self.configured_events = run.programmed;
                run.programmed = Vec::new();
                assert(labels(run.programmed@) =~= Seq::empty());
            },
            ConfigurePhase::Program => {
                run.errno = errno;
                if ret != 0 {
                    run.phase = ConfigurePhase::Abandon;
                } else {
                    run.phase = ConfigurePhase::StartCounting;
                }
            },
            ConfigurePhase::Abandon => {
                return ConfigureStep::Done(Err(KpcError::ApiError("set_config", run.errno)));
            },
            ConfigurePhase::StartCounting => {
                run.phase = ConfigurePhase::StartThreadCounting;
            },
            ConfigurePhase::StartThreadCounting => {
                return ConfigureStep::Done(Ok(()));
            },
        }
        ConfigureStep::Next(run)
    }

    /// Release counter access: the call that does it.
    pub fn release(&self) -> (r: KpcCall)
        ensures
            r@ == CallModel::ForceAllCtrsSet(0),
    {
        KpcCall::ForceAllCtrsSet(0)
    }
}

/// How many calls can still follow the call of a phase.
pub open spec fn calls_left(phase: ConfigurePhase) -> nat {
    match phase {
        ConfigurePhase::Release => 8,
        ConfigurePhase::Settle => 7,
        ConfigurePhase::Acquire => 6,
        ConfigurePhase::StopCounting => 5,
        ConfigurePhase::StopThreadCounting => 4,
        ConfigurePhase::ClearConfig => 3,
        ConfigurePhase::Program => 2,
        ConfigurePhase::StartCounting => 1,
        ConfigurePhase::StartThreadCounting => 0,
        ConfigurePhase::Abandon => 0,
    }
}

/// All the calls that are made from a phase on, if the call of each phase is answered by
/// `replies` (what it returns, and the error number after it), and what comes of them.
pub open spec fn all_calls(
    run: RunModel,
    replies: spec_fn(ConfigurePhase) -> (i32, i32),
) -> (Seq<CallModel>, Result<(), KpcError>)
    decreases calls_left(run.phase),
{
    let (ret, errno) = replies(run.phase);
    match next_phase(run.phase, ret) {
        Some(phase) => {
            let (calls, result) = all_calls(run.moved_to(phase, errno), replies);
            (seq![run.call()] + calls, result)
        },
        None => (seq![run.call()], outcome(run, errno)),
    }
}

/// The calls by which the counters are taken.
pub open spec fn taking_calls() -> Seq<CallModel> {
    seq![
        CallModel::ForceAllCtrsSet(0),
        CallModel::SleepMillis(50),
        CallModel::ForceAllCtrsSet(1),
    ]
}

/// The calls by which the slots are programmed while nothing is counted.
pub open spec fn programming_calls(config: Seq<u64>) -> Seq<CallModel> {
    seq![
        CallModel::SetCounting(0),
        CallModel::SetThreadCounting(0),
        CallModel::SetConfig(KPC_CLASS_CONFIGURABLE_MASK, cleared(config.len())),
        CallModel::SetConfig(KPC_CLASS_CONFIGURABLE_MASK, config),
    ]
}

/// Counting starts only after the counters were taken and the events programmed. Where they
/// cannot be taken nothing more is called, and where they cannot be programmed they are let go
/// of again; either way the error names the call that failed, with the error number it left.
pub proof fn lemma_configure_calls(
    run: RunModel,
    replies: spec_fn(ConfigurePhase) -> (i32, i32),
)
    requires
        run.phase == ConfigurePhase::Release,
    ensures
        all_calls(run, replies) == (if replies(ConfigurePhase::Acquire).0 != 0 {
            (
                taking_calls(),
                Err::<(), KpcError>(
                    KpcError::ApiError(
                        "force_all_ctrs_set",
                        replies(ConfigurePhase::Acquire).1,
                    ),
                ),
            )
        } else if replies(ConfigurePhase::Program).0 != 0 {
            (
                taking_calls() + programming_calls(run.config) + seq![
                    CallModel::ForceAllCtrsSet(0),
                ],
                Err::<(), KpcError>(
                    KpcError::ApiError("set_config", replies(ConfigurePhase::Program).1),
                ),
            )
        } else {
            (
                taking_calls() + programming_calls(run.config) + seq![
                    CallModel::SetCounting(KPC_ALL),
                    CallModel::SetThreadCounting(KPC_ALL),
                ],
                Ok::<(), KpcError>(()),
            )
        }),
{
    reveal_with_fuel(all_calls, 10);
    let calls = all_calls(run, replies).0;
    if replies(ConfigurePhase::Acquire).0 != 0 {
        assert(calls =~= taking_calls());
    } else if replies(ConfigurePhase::Program).0 != 0 {
        assert(calls =~= taking_calls() + programming_calls(run.config) + seq![
            CallModel::ForceAllCtrsSet(0),
        ]);
    } else {
        assert(calls =~= taking_calls() + programming_calls(run.config) + seq![
            CallModel::SetCounting(KPC_ALL),
            CallModel::SetThreadCounting(KPC_ALL),
        ]);
    }
}

/// The labels of a manager once all calls were made, if the call of each phase is answered by
/// `replies`.
pub open spec fn labels_in_the_end(
    run: RunModel,
    manager: ManagerModel,
    replies: spec_fn(ConfigurePhase) -> (i32, i32),
) -> Seq<(Seq<char>, nat)>
    decreases calls_left(run.phase),
{
    let after = ManagerModel { labels: labels_after(run, manager), ..manager };
    let (ret, errno) = replies(run.phase);
    match next_phase(run.phase, ret) {
        Some(phase) => labels_in_the_end(run.moved_to(phase, errno), after, replies),
        None => after.labels,
    }
}

/// Once the counters were taken, the events of the new programming replace those of any earlier
/// one; where they cannot be taken, the earlier ones stay.
pub proof fn lemma_configure_labels(
    run: RunModel,
    manager: ManagerModel,
    replies: spec_fn(ConfigurePhase) -> (i32, i32),
)
    requires
        run.phase == ConfigurePhase::Release,
    ensures
        labels_in_the_end(run, manager, replies) == (if replies(ConfigurePhase::Acquire).0 != 0 {
            manager.labels
        } else {
            run.labels
        }),
{
    reveal_with_fuel(labels_in_the_end, 10);
}

proof fn lemma_config_of(events: Seq<EventModel>, pairs: Seq<(int, int)>, n: nat)
    requires
        forall|k: int| 0 <= k < pairs.len() ==> 0 <= (#[trigger] pairs[k]).1 < n,
        forall|j: int, k: int|
            0 <= j < k < pairs.len() ==> (#[trigger] pairs[j]).1 != (#[trigger] pairs[k]).1,
    ensures
        config_of(events, pairs, n).len() == n,
        forall|k: int|
            0 <= k < pairs.len() ==> config_of(events, pairs, n)[(#[trigger] pairs[k]).1]
                == selector(events[pairs[k].0]),
        forall|s: int|
            0 <= s < n && !taken(pairs, s) ==> #[trigger] config_of(events, pairs, n)[s] == 0,
    decreases pairs.len(),
{
    if pairs.len() > 0 {
        let init = pairs.drop_last();
        let end = pairs.len() - 1;
        assert forall|k: int| 0 <= k < init.len() implies 0 <= (#[trigger] init[k]).1 < n by {
            assert(init[k] == pairs[k]);
        }
        assert forall|j: int, k: int| 0 <= j < k < init.len() implies (#[trigger] init[j]).1 != (
        #[trigger] init[k]).1 by {
            assert(pairs[j].1 != pairs[k].1);
        }
        lemma_config_of(events, init, n);
        assert forall|k: int| 0 <= k < pairs.len() implies config_of(events, pairs, n)[(
        #[trigger] pairs[k]).1] == selector(events[pairs[k].0]) by {
            assert(0 <= pairs[end].1 < n);
            if k < end {
                assert(init[k] == pairs[k]);
                assert(pairs[k].1 != pairs[end].1);
            }
        }
        assert forall|s: int| 0 <= s < n && !taken(pairs, s) implies #[trigger] config_of(
            events,
            pairs,
            n,
        )[s] == 0 by {
            assert(pairs[end].1 != s);
            if taken(init, s) {
                let k = choose|k: int| 0 <= k < init.len() && (#[trigger] init[k]).1 == s;
                assert(pairs[k].1 == s);
            }
        }
    }
}

/// Each assigned event is programmed into its slot, and nothing into the other slots.
pub proof fn lemma_config_programs_events(events: Seq<EventModel>, n_slots: usize)
    ensures
        ({
            let pairs = assignment(masks_of(events), n_slots);
            let config = planned(events, n_slots).config;
            &&& config.len() == n_slots
            &&& forall|k: int|
                0 <= k < pairs.len() ==> config[(#[trigger] pairs[k]).1] == selector(
                    events[pairs[k].0],
                )
            &&& forall|s: int|
                0 <= s < n_slots && !taken(pairs, s) ==> #[trigger] config[s] == 0
        }),
{
    let pairs = assignment(masks_of(events), n_slots);
    lemma_assignment_fits(masks_of(events), n_slots);
    lemma_config_of(events, pairs, n_slots as nat);
}

proof fn lemma_planned_fits(events: Seq<EventModel>, n_slots: usize)
    ensures
        planned(events, n_slots).fits(n_slots as nat),
{
    let pairs = assignment(masks_of(events), n_slots);
    let names = labels_of(events, pairs);
    lemma_assignment_fits(masks_of(events), n_slots);
    lemma_config_of(events, pairs, n_slots as nat);
    assert forall|k: int| 0 <= k < names.len() implies (#[trigger] names[k]).1 < n_slots by {
        assert(pairs[k].1 < n_slots);
    }
}

proof fn lemma_labeled(labels: Seq<(Seq<char>, nat)>, values: Seq<u64>)
    requires
        forall|k: int| 0 <= k < labels.len() ==> (#[trigger] labels[k]).1 < values.len(),
    ensures
        labeled(labels, values) == labels.map_values(
            |l: (Seq<char>, nat)| (l.0, values[l.1 as int]),
        ),
    decreases labels.len(),
{
    let want = labels.map_values(|l: (Seq<char>, nat)| (l.0, values[l.1 as int]));
    if labels.len() > 0 {
        let init = labels.drop_last();
        assert forall|k: int| 0 <= k < init.len() implies (#[trigger] init[k]).1 < values.len() by {
            assert(init[k] == labels[k]);
        }
        assert(labels[labels.len() - 1].1 < values.len());
        lemma_labeled(init, values);
    }
    assert(labeled(labels, values) =~= want);
}

/// Every event that was programmed is reported, under its name and with the value of its own
/// slot, in the order in which slots were given.
pub proof fn lemma_programmed_events_are_labeled(
    events: Seq<EventModel>,
    n_slots: usize,
    values: Seq<u64>,
)
    requires
        values.len() >= n_slots,
    ensures
        labeled(planned(events, n_slots).labels, values) == assignment(
            masks_of(events),
            n_slots,
        ).map_values(|p: (int, int)| (events[p.0].name, values[p.1])),
{
    let pairs = assignment(masks_of(events), n_slots);
    let names = labels_of(events, pairs);
    lemma_assignment_fits(masks_of(events), n_slots);
    assert forall|k: int| 0 <= k < names.len() implies (#[trigger] names[k]).1 < values.len() by {
        assert(pairs[k].1 < n_slots);
    }
    lemma_labeled(names, values);
    assert(labeled(names, values) =~= pairs.map_values(
        |p: (int, int)| (events[p.0].name, values[p.1]),
    ));
}

proof fn lemma_labeled_keeps(labels: Seq<(Seq<char>, nat)>, values: Seq<u64>, more: Seq<u64>)
    ensures
        labeled(labels, values) == labels.filter(
            |l: (Seq<char>, nat)| l.1 < values.len(),
        ).map_values(|l: (Seq<char>, nat)| (l.0, (values + more)[l.1 as int])),
    decreases labels.len(),
{
    reveal(Seq::filter);
    let has = |l: (Seq<char>, nat)| l.1 < values.len();
    let value = |l: (Seq<char>, nat)| (l.0, (values + more)[l.1 as int]);
    if labels.len() > 0 {
        lemma_labeled_keeps(labels.drop_last(), values, more);
    }
    assert(labeled(labels, values) =~= labels.filter(has).map_values(value));
}

/// A delta that lacks some of the machine's slots leaves out exactly the events in those slots:
/// were it filled up with zeros, every event would be reported, and without those in the lacking
/// slots that is what is reported. A delta of no slots reports nothing.
pub proof fn lemma_short_delta_leaves_out_lacking_slots(manager: ManagerModel, values: Seq<u64>)
    requires
        manager.well_formed(),
        values.len() <= manager.n_config,
    ensures
        ({
            let full = values + cleared((manager.n_config - values.len()) as nat);
            let value = |l: (Seq<char>, nat)| (l.0, full[l.1 as int]);
            &&& labeled(manager.labels, full) == manager.labels.map_values(value)
            &&& labeled(manager.labels, values) == manager.labels.filter(
                |l: (Seq<char>, nat)| l.1 < values.len(),
            ).map_values(value)
            &&& values.len() == 0 ==> labeled(manager.labels, values) == Seq::<
                (Seq<char>, u64),
            >::empty()
        }),
{
    let more = cleared((manager.n_config - values.len()) as nat);
    lemma_labeled(manager.labels, values + more);
    lemma_labeled_keeps(manager.labels, values, more);
    if values.len() == 0 {
        lemma_nothing_labeled(manager.labels, values);
    }
}

proof fn lemma_nothing_labeled(labels: Seq<(Seq<char>, nat)>, values: Seq<u64>)
    requires
        values.len() == 0,
    ensures
        labeled(labels, values) == Seq::<(Seq<char>, u64)>::empty(),
    decreases labels.len(),
{
    if labels.len() > 0 {
        lemma_nothing_labeled(labels.drop_last(), values);
    }
}

/// A measurement reports, for every event that found a slot, how far the counter of that slot
/// went on between the two snapshots.
pub proof fn lemma_measurement_reports_events(
    manager: ManagerModel,
    events: Seq<EventModel>,
    replies: spec_fn(ConfigurePhase) -> (i32, i32),
    before: Seq<u64>,
    after: Seq<u64>,
)
    requires
        replies(ConfigurePhase::Acquire).0 == 0,
    ensures
        ({
            let wanted = programmable(events);
            let n_fixed = manager.n_fixed as int;
            let reported = labeled(
                labels_in_the_end(planned(wanted, manager.n_config), manager, replies),
                advances(before, after, n_fixed, manager.n_config as nat),
            );
            reported == assignment(masks_of(wanted), manager.n_config).map_values(
                |p: (int, int)|
                    (
                        wanted[p.0].name,
                        advance(counter(before, n_fixed + p.1), counter(after, n_fixed + p.1)),
                    ),
            )
        }),
{
    let wanted = programmable(events);
    let n_fixed = manager.n_fixed as int;
    let values = advances(before, after, n_fixed, manager.n_config as nat);
    let pairs = assignment(masks_of(wanted), manager.n_config);
    lemma_configure_labels(planned(wanted, manager.n_config), manager, replies);
    lemma_programmed_events_are_labeled(wanted, manager.n_config, values);
    lemma_assignment_fits(masks_of(wanted), manager.n_config);
    assert forall|k: int| 0 <= k < pairs.len() implies values[(#[trigger] pairs[k]).1] == advance(
        counter(before, n_fixed + pairs[k].1),
        counter(after, n_fixed + pairs[k].1),
    ) by {
        assert(0 <= pairs[k].1 < manager.n_config);
    }
    assert(pairs.map_values(|p: (int, int)| (wanted[p.0].name, values[p.1])) =~= pairs.map_values(
        |p: (int, int)|
            (
                wanted[p.0].name,
                advance(counter(before, n_fixed + p.1), counter(after, n_fixed + p.1)),
            ),
    ));
}

/// A counter that goes on by `d` is seen to go on by `d`, also where it wraps around.
pub proof fn lemma_advance_sees_wrapping(from: u64, d: u64)
    ensures
        advance(from, ((from + d) % 0x1_0000_0000_0000_0000) as u64) == d,
{
}

/// Two readings in a row add up to the reading over both.
pub proof fn lemma_advance_adds_up(a: u64, b: u64, c: u64)
    ensures
        (advance(a, b) + advance(b, c)) % 0x1_0000_0000_0000_0000 == advance(a, c),
{
}

/// Every event that gets a slot has its own number programmed into that slot and is remembered
/// under its own name with that slot; a slot that no event gets is programmed with zero.
pub proof fn lemma_slots_hold_event_numbers(events: Seq<EventModel>, n_slots: usize)
    requires
        forall|i: int| 0 <= i < events.len() ==> (#[trigger] events[i]).number is Some,
    ensures
        ({
            let run = planned(events, n_slots);
            let pairs = assignment(masks_of(events), n_slots);
            &&& run.config.len() == n_slots
            &&& run.labels.len() == pairs.len()
            &&& forall|k: int|
                0 <= k < pairs.len() ==> {
                    let (i, slot) = #[trigger] pairs[k];
                    &&& 0 <= i < events.len()
                    &&& 0 <= slot < n_slots
                    &&& events[i].number == Some(run.config[slot])
                    &&& run.labels[k].0 == events[i].name
                    &&& run.labels[k].1 == slot
                }
            &&& forall|s: int|
                0 <= s < n_slots && (forall|k: int|
                    0 <= k < pairs.len() ==> (#[trigger] pairs[k]).1 != s)
                    ==> #[trigger] run.config[s] == 0
        }),
{
    let run = planned(events, n_slots);
    let pairs = assignment(masks_of(events), n_slots);
    lemma_config_programs_events(events, n_slots);
    lemma_assignment_fits(masks_of(events), n_slots);
    assert forall|k: int| 0 <= k < pairs.len() implies {
        let (i, slot) = #[trigger] pairs[k];
        &&& 0 <= i < events.len()
        &&& 0 <= slot < n_slots
        &&& events[i].number == Some(run.config[slot])
        &&& run.labels[k].0 == events[i].name
        &&& run.labels[k].1 == slot
    } by {
        assert(events[pairs[k].0].number is Some);
    }
}

/// The events that find no slot are those reported as skipped, each under its own name; together
/// with the programmed ones they are as many as the events.
pub proof fn lemma_skipped_events_are_named(events: Seq<EventModel>, n_slots: usize)
    ensures
        ({
            let run = planned(events, n_slots);
            let missed = unassigned(masks_of(events), n_slots);
            &&& run.labels.len() + run.skipped.len() == events.len()
            &&& run.skipped.len() == missed.len()
            &&& forall|m: int|
                0 <= m < missed.len() ==> 0 <= #[trigger] missed[m] < events.len()
                    && run.skipped[m] == events[missed[m]].name
        }),
{
    lemma_assignment_leaves_out_only_crowded(masks_of(events), n_slots);
    lemma_unassigned_in_range(masks_of(events), n_slots);
}

/// The calls that program the counters, in full: the counters are let go of, after 50
/// milliseconds taken, and if that succeeds counting is stopped, every slot is cleared, and each
/// event's own number is written into its slot. Then counting starts with both classes, or the
/// counters are let go of again if the events could not be programmed.
pub proof fn lemma_calls_program_events(
    events: Seq<EventModel>,
    n_slots: usize,
    replies: spec_fn(ConfigurePhase) -> (i32, i32),
)
    requires
        forall|i: int| 0 <= i < events.len() ==> (#[trigger] events[i]).number is Some,
    ensures
        ({
            let calls = all_calls(planned(events, n_slots), replies).0;
            let pairs = assignment(masks_of(events), n_slots);
            let taken = replies(ConfigurePhase::Acquire).0 == 0;
            let programmed = replies(ConfigurePhase::Program).0 == 0;
            &&& calls.len() == (if !taken {
                3int
            } else if !programmed {
                8
            } else {
                9
            })
            &&& calls[0] == CallModel::ForceAllCtrsSet(0)
            &&& calls[1] == CallModel::SleepMillis(50)
            &&& calls[2] == CallModel::ForceAllCtrsSet(1)
            &&& taken ==> {
                &&& calls[3] == CallModel::SetCounting(0)
                &&& calls[4] == CallModel::SetThreadCounting(0)
                &&& calls[5] matches CallModel::SetConfig(class, config) && class == 2
                    && config.len() == n_slots && (forall|s: int|
                    0 <= s < n_slots ==> #[trigger] config[s] == 0)
                &&& calls[6] matches CallModel::SetConfig(class, config) && class == 2
                    && config.len() == n_slots && (forall|k: int|
                    0 <= k < pairs.len() ==> events[(#[trigger] pairs[k]).0].number == Some(
                        config[pairs[k].1],
                    )) && (forall|s: int|
                    0 <= s < n_slots && (forall|k: int|
                        0 <= k < pairs.len() ==> (#[trigger] pairs[k]).1 != s)
                        ==> #[trigger] config[s] == 0)
            }
            &&& taken && !programmed ==> calls[7] == CallModel::ForceAllCtrsSet(0)
            &&& taken && programmed ==> calls[7] == CallModel::SetCounting(3) && calls[8]
                == CallModel::SetThreadCounting(3)
        }),
{
    lemma_configure_calls(planned(events, n_slots), replies);
    lemma_slots_hold_event_numbers(events, n_slots);
}

/// What comes of programming the counters: the error of the call that took or programmed them, if
/// one failed, with the number that it left, and success otherwise, whatever the other calls
/// return.
pub proof fn lemma_configure_result(run: RunModel, replies: spec_fn(ConfigurePhase) -> (i32, i32))
    requires
        run.phase == ConfigurePhase::Release,
    ensures
        ({
            let result = all_calls(run, replies).1;
            let (taking, taking_errno) = replies(ConfigurePhase::Acquire);
            let (programming, programming_errno) = replies(ConfigurePhase::Program);
            &&& taking != 0 ==> (result matches Err(KpcError::ApiError(call, errno)) && call@
                == "force_all_ctrs_set"@ && errno == taking_errno)
            &&& taking == 0 && programming != 0 ==> (result matches Err(
                KpcError::ApiError(call, errno),
            ) && call@ == "set_config"@ && errno == programming_errno)
            &&& taking == 0 && programming == 0 ==> result is Ok
        }),
{
    lemma_configure_calls(run, replies);
}

/// Of two snapshots that hold all the machine's counters, the first and the delta add up to the
/// second, counter by counter and wrapping around after 64 bits.
pub proof fn lemma_delta_leads_from_before_to_after(
    before: Seq<u64>,
    after: Seq<u64>,
    n_fixed: usize,
    n_config: usize,
)
    requires
        before.len() >= n_fixed + n_config,
        after.len() >= n_fixed + n_config,
    ensures
        ({
            let moved = advances(before, after, n_fixed as int, n_config as nat);
            &&& moved.len() == n_config
            &&& forall|i: int|
                0 <= i < n_config ==> (before[n_fixed + i] + #[trigger] moved[i])
                    % 0x1_0000_0000_0000_0000 == after[n_fixed + i]
        }),
{
    let moved = advances(before, after, n_fixed as int, n_config as nat);
    assert forall|i: int| 0 <= i < n_config implies (before[n_fixed + i] + #[trigger] moved[i])
        % 0x1_0000_0000_0000_0000 == after[n_fixed + i] by {
        assert(moved[i] == advance(before[n_fixed + i], after[n_fixed + i]));
    }
}

/// A counter that one snapshot lacks reads as zero there: a counter that only the later one holds
/// went on by its value, one that only the earlier one holds went back to zero, and one that both
/// lack did not move.
pub proof fn lemma_lacking_counters_read_as_zero(
    before: Seq<u64>,
    after: Seq<u64>,
    n_fixed: usize,
    n_config: usize,
    i: int,
)
    requires
        0 <= i < n_config,
    ensures
        ({
            let moved = advances(before, after, n_fixed as int, n_config as nat)[i];
            let at = n_fixed + i;
            &&& before.len() <= at < after.len() ==> moved == after[at]
            &&& after.len() <= at < before.len() ==> (before[at] + moved)
                % 0x1_0000_0000_0000_0000 == 0
            &&& before.len() <= at && after.len() <= at ==> moved == 0
        }),
{
}

proof fn lemma_sum_over_one_row(buf: Seq<u64>, n: int, c: int, cpus: nat, k: nat, m: nat)
    requires
        0 <= c < n,
        k < cpus,
        m <= cpus,
        buf.len() == cpus * n,
        forall|p: int|
            0 <= p < buf.len() && !(k * n <= p < (k + 1) * n) ==> #[trigger] buf[p] == 0,
    ensures
        sum_over_cpus(buf, n, c, m) == (if m > k {
            buf[k * n + c] as nat
        } else {
            0
        }),
    decreases m,
{
    if m > 0 {
        let l = (m - 1) as nat;
        lemma_sum_over_one_row(buf, n, c, cpus, k, l);
        let p = l * n + c;
        assert(0 <= p < cpus * n) by (nonlinear_arith)
            requires
                0 <= c < n,
                l + 1 <= cpus,
                p == l * n + c,
        ;
        if l < k {
            assert(p < k * n) by (nonlinear_arith)
                requires
                    0 <= c < n,
                    l + 1 <= k,
                    p == l * n + c,
            ;
            assert(buf[p] == 0);
        } else if l > k {
            assert(p >= (k + 1) * n) by (nonlinear_arith)
                requires
                    0 <= c < n,
                    k + 1 <= l,
                    p == l * n + c,
            ;
            assert(buf[p] == 0);
        }
    }
}

/// If only one CPU counted anything, a reading of all CPUs is that CPU's row of the buffer: the
/// values at `k * n` up to `(k + 1) * n`, `k` being the CPU and `n` the number of its counters.
pub proof fn lemma_one_cpu_is_read_as_it_is(buf: Seq<u64>, cpus: nat, n: nat, k: nat)
    requires
        buf.len() == cpus * n,
        k < cpus,
        forall|p: int|
            0 <= p < buf.len() && !(k * n <= p < (k + 1) * n) ==> #[trigger] buf[p] == 0,
    ensures
        0 <= k * n <= (k + 1) * n <= buf.len(),
        system_wide(buf, cpus, n as int) == buf.subrange(k * n as int, (k + 1) * n as int),
{
    assert(0 <= k * n <= (k + 1) * n <= cpus * n && (k + 1) * n - k * n == n) by (nonlinear_arith)
        requires
            k + 1 <= cpus,
            0 <= n,
            0 <= k,
    ;
    let row = buf.subrange(k * n as int, (k + 1) * n as int);
    let sums = system_wide(buf, cpus, n as int);
    assert(sums.len() == n && row.len() == n);
    assert forall|c: int| 0 <= c < n implies #[trigger] sums[c] == row[c] by {
        lemma_sum_over_one_row(buf, n as int, c, cpus, k, cpus);
    }
    assert(sums =~= row);
}

proof fn lemma_wrapped_sums(x: int, y: int, a: int, b: int)
    requires
        x % 0x1_0000_0000_0000_0000 == a % 0x1_0000_0000_0000_0000,
        y % 0x1_0000_0000_0000_0000 == b % 0x1_0000_0000_0000_0000,
    ensures
        (x + y) % 0x1_0000_0000_0000_0000 == (a + b) % 0x1_0000_0000_0000_0000,
{
    lemma_add_mod_noop(x, y, 0x1_0000_0000_0000_0000);
    lemma_add_mod_noop(a, b, 0x1_0000_0000_0000_0000);
}

proof fn lemma_sum_over_both(
    a: Seq<u64>,
    b: Seq<u64>,
    both: Seq<u64>,
    n: int,
    c: int,
    cpus: nat,
    m: nat,
)
    requires
        0 <= c < n,
        m <= cpus,
        a.len() == cpus * n,
        b.len() == cpus * n,
        both.len() == cpus * n,
        forall|p: int|
            0 <= p < both.len() ==> #[trigger] both[p] == (a[p] + b[p]) % 0x1_0000_0000_0000_0000,
    ensures
        (sum_over_cpus(both, n, c, m) as int) % 0x1_0000_0000_0000_0000 == ((sum_over_cpus(
            a,
            n,
            c,
            m,
        ) + sum_over_cpus(b, n, c, m)) as int) % 0x1_0000_0000_0000_0000,
    decreases m,
{
    if m > 0 {
        let l = (m - 1) as nat;
        lemma_sum_over_both(a, b, both, n, c, cpus, l);
        let p = l * n + c;
        assert(0 <= p < cpus * n) by (nonlinear_arith)
            requires
                0 <= c < n,
                l + 1 <= cpus,
                p == l * n + c,
        ;
        let (x, y) = (both[p] as int, a[p] + b[p]);
        assert(x == y % 0x1_0000_0000_0000_0000);
        assert(x % 0x1_0000_0000_0000_0000 == y % 0x1_0000_0000_0000_0000);
        lemma_wrapped_sums(
            sum_over_cpus(both, n, c, l) as int,
            x,
            (sum_over_cpus(a, n, c, l) + sum_over_cpus(b, n, c, l)) as int,
            y,
        );
    }
}

/// Readings of all CPUs add up: if each value of a buffer is the sum of the values of two others
/// in its place, each counter of its reading is the sum of that counter in their readings, all
/// sums wrapping around after 64 bits.
pub proof fn lemma_readings_add_up(a: Seq<u64>, b: Seq<u64>, both: Seq<u64>, cpus: nat, n: nat)
    requires
        a.len() == cpus * n,
        b.len() == cpus * n,
        both.len() == cpus * n,
        forall|p: int|
            0 <= p < both.len() ==> #[trigger] both[p] == (a[p] + b[p]) % 0x1_0000_0000_0000_0000,
    ensures
        system_wide(a, cpus, n as int).len() == n,
        system_wide(b, cpus, n as int).len() == n,
        system_wide(both, cpus, n as int).len() == n,
        forall|c: int|
            0 <= c < n ==> #[trigger] system_wide(both, cpus, n as int)[c] == (system_wide(
                a,
                cpus,
                n as int,
            )[c] + system_wide(b, cpus, n as int)[c]) % 0x1_0000_0000_0000_0000,
{
    assert forall|c: int| 0 <= c < n implies #[trigger] system_wide(both, cpus, n as int)[c] == (
    system_wide(a, cpus, n as int)[c] + system_wide(b, cpus, n as int)[c])
        % 0x1_0000_0000_0000_0000 by {
        lemma_sum_over_both(a, b, both, n as int, c, cpus, cpus);
        lemma_add_mod_noop(
            sum_over_cpus(a, n as int, c, cpus) as int,
            sum_over_cpus(b, n as int, c, cpus) as int,
            0x1_0000_0000_0000_0000,
        );
    }
}

/// Each label is reported with the value of its own slot, in the order of the labels, if every
/// label's slot has a value.
pub proof fn lemma_labels_get_their_slots_values(labels: Seq<(Seq<char>, nat)>, values: Seq<u64>)
    requires
        forall|k: int| 0 <= k < labels.len() ==> (#[trigger] labels[k]).1 < values.len(),
    ensures
        labeled(labels, values).len() == labels.len(),
        forall|k: int|
            0 <= k < labels.len() ==> (#[trigger] labeled(labels, values)[k]).0 == labels[k].0
                && labeled(labels, values)[k].1 == values[labels[k].1 as int],
{
    lemma_labeled(labels, values);
}

/// From the events to the report: once the counters were taken, each line of a report is about one
/// of the events that can be programmed, under its name. The number of that event was programmed
/// into a slot, and the value reported is what leads from the first snapshot's value of that
/// slot's counter to the second's.
pub proof fn lemma_reported_values_are_the_events_counts(
    manager: ManagerModel,
    events: Seq<EventModel>,
    replies: spec_fn(ConfigurePhase) -> (i32, i32),
    before: Seq<u64>,
    after: Seq<u64>,
)
    requires
        replies(ConfigurePhase::Acquire).0 == 0,
        before.len() == manager.n_fixed + manager.n_config,
        after.len() == manager.n_fixed + manager.n_config,
    ensures
        ({
            let wanted = programmable(events);
            let run = planned(wanted, manager.n_config);
            let pairs = assignment(masks_of(wanted), manager.n_config);
            let reported = labeled(
                labels_in_the_end(run, manager, replies),
                advances(before, after, manager.n_fixed as int, manager.n_config as nat),
            );
            &&& reported.len() == pairs.len()
            &&& reported.len() + run.skipped.len() == wanted.len()
            &&& forall|k: int|
                0 <= k < reported.len() ==> {
                    let (i, slot) = #[trigger] pairs[k];
                    &&& events.contains(wanted[i])
                    &&& wanted[i].fixed_counter is None
                    &&& wanted[i].name == reported[k].0
                    &&& 0 <= slot < manager.n_config
                    &&& wanted[i].number == Some(run.config[slot])
                    &&& (before[manager.n_fixed + slot] + reported[k].1)
                        % 0x1_0000_0000_0000_0000 == after[manager.n_fixed + slot]
                }
        }),
{
    let wanted = programmable(events);
    let n = manager.n_config;
    let run = planned(wanted, n);
    let pairs = assignment(masks_of(wanted), n);
    let moved = advances(before, after, manager.n_fixed as int, n as nat);
    let reported = labeled(labels_in_the_end(run, manager, replies), moved);
    lemma_programmable(events);
    lemma_configure_labels(run, manager, replies);
    lemma_slots_hold_event_numbers(wanted, n);
    lemma_skipped_events_are_named(wanted, n);
    lemma_delta_leads_from_before_to_after(before, after, manager.n_fixed, n);
    assert forall|k: int| 0 <= k < run.labels.len() implies (#[trigger] run.labels[k]).1
        < moved.len() by {
        assert(0 <= pairs[k].1 < n);
    }
    lemma_labels_get_their_slots_values(run.labels, moved);
    assert forall|k: int| 0 <= k < reported.len() implies {
        let (i, slot) = #[trigger] pairs[k];
        &&& events.contains(wanted[i])
        &&& wanted[i].fixed_counter is None
        &&& wanted[i].name == reported[k].0
        &&& 0 <= slot < manager.n_config
        &&& wanted[i].number == Some(run.config[slot])
        &&& (before[manager.n_fixed + slot] + reported[k].1) % 0x1_0000_0000_0000_0000
            == after[manager.n_fixed + slot]
    } by {
        let (i, slot) = pairs[k];
        let e = wanted[i];
        assert(reported[k].1 == moved[slot]);
        assert(e.configurable());
        assert(wanted.contains(e));
        events.lemma_filter_contains_rev(|e: EventModel| e.configurable(), e);
    }
}

/// The events that can be programmed are those with a number that no fixed counter counts, all of
/// them and in their order.
pub proof fn lemma_programmable_events(a: Seq<EventModel>, b: Seq<EventModel>, e: EventModel)
    ensures
        programmable(a + b) == programmable(a) + programmable(b),
        programmable(seq![e]) == (if e.number is Some && e.fixed_counter is None {
            seq![e]
        } else {
            Seq::empty()
        }),
        programmable(Seq::empty()) == Seq::<EventModel>::empty(),
{
    let test = |e: EventModel| e.configurable();
    Seq::filter_distributes_over_add(a, b, test);
    reveal(Seq::filter);
    assert(seq![e].drop_last() =~= Seq::empty());
    assert(programmable(seq![e]) =~= (if e.number is Some && e.fixed_counter is None {
        seq![e]
    } else {
        Seq::empty()
    })) by {
        reveal_with_fuel(Seq::filter, 2);
    }
}

/// Each step of a programming leaves what is to be programmed, and what was skipped, as it is.
pub proof fn lemma_steps_keep_the_plan(run: RunModel, phase: ConfigurePhase, errno: i32)
    ensures
        run.moved_to(phase, errno).phase == phase,
        run.moved_to(phase, errno).config == run.config,
        run.moved_to(phase, errno).skipped == run.skipped,
{
}

/// Contracts speak of programmed events by their names and slots, and of named values by both.
pub proof fn lemma_labels_show_fields(events: Seq<ConfiguredEvent>, pairs: Seq<(&str, u64)>, i: int)
    ensures
        labels(events).len() == events.len(),
        0 <= i < events.len() ==> labels(events)[i].0 == events[i].name@ && labels(events)[i].1
            == events[i].slot,
        named_values(pairs).len() == pairs.len(),
        0 <= i < pairs.len() ==> named_values(pairs)[i].0 == pairs[i].0@ && named_values(pairs)[i].1
            == pairs[i].1,
{
}

/// Contracts speak of a programming by its own fields.
pub proof fn lemma_run_models_show_fields(run: ConfigureRun, i: int)
    ensures
        run@.phase == run.phase,
        run@.config == run.config@,
        run@.errno == run.errno,
        run@.labels == labels(run.programmed@),
        run@.skipped.len() == run.skipped@.len(),
        0 <= i < run.skipped@.len() ==> run@.skipped[i] == run.skipped@[i]@,
{
}

/// Contracts speak of a call by what is called and with what.
pub proof fn lemma_call_models_show_arguments(n: i32, ms: u64, class: u32, config: Vec<u64>)
    ensures
        KpcCall::ForceAllCtrsSet(n)@ == CallModel::ForceAllCtrsSet(n),
        KpcCall::SleepMillis(ms)@ == CallModel::SleepMillis(ms),
        KpcCall::SetCounting(class)@ == CallModel::SetCounting(class),
        KpcCall::SetThreadCounting(class)@ == CallModel::SetThreadCounting(class),
        KpcCall::SetConfig(class, config)@ == CallModel::SetConfig(class, config@),
{
}

} // verus!
