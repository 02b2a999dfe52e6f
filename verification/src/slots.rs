//! Slots: which configurable counter counts which event.
//!
//! An event may be bound to some of the counter slots by its `counters_mask`. Events are given
//! slots one after another, the most bound first, each the lowest slot that is free and that
//! its mask allows.

use vstd::prelude::*;

use crate::kpep::{models_of, EventModel, KpepEvent};
use crate::order::{
    lemma_line_up_exists, lemma_line_up_is, lemma_lined_up_holds_all, lemma_place_next, line_up,
    lined_up, precedes, ranks,
};

verus! {

/// Whether a mask holds a slot. A mask has 64 bits; slots beyond them are in none.
pub open spec fn mask_holds(mask: u64, slot: int) -> bool {
    0 <= slot < 64 && (mask >> (slot as u64)) & 1 == 1
}

/// Whether an event with the given mask may be counted in a slot.
pub open spec fn allowed(mask: Option<u64>, slot: int) -> bool {
    match mask {
        Some(m) => mask_holds(m, slot),
        None => true,
    }
}

/// How many of the slots below `k` a mask holds.
pub open spec fn held_below(mask: u64, k: nat) -> nat
    decreases k,
{
    if k == 0 {
        0
    } else {
        held_below(mask, (k - 1) as nat) + (if mask_holds(mask, k - 1) {
            1nat
        } else {
            0
        })
    }
}

/// How many of the machine's slots an event with the given mask can choose from.
pub open spec fn freedom(mask: Option<u64>, n_slots: usize) -> int {
    match mask {
        Some(m) => held_below(
            m,
            if n_slots < 64 {
                n_slots as nat
            } else {
                64
            },
        ) as int,
        None => n_slots as int,
    }
}

/// How many of the slots below `n` an event with the given mask may be counted in.
pub open spec fn valid_below(mask: Option<u64>, n: nat) -> nat
    decreases n,
{
    if n == 0 {
        0
    } else {
        valid_below(mask, (n - 1) as nat) + (if allowed(mask, n - 1) {
            1nat
        } else {
            0
        })
    }
}

/// The freedom of an event is the number of its valid slots: those of the machine that it may be
/// counted in.
pub proof fn lemma_freedom_counts_valid_slots(mask: Option<u64>, n_slots: usize)
    ensures
        freedom(mask, n_slots) == valid_below(mask, n_slots as nat),
{
    lemma_valid_below(mask, n_slots as nat);
}

proof fn lemma_valid_below(mask: Option<u64>, n: nat)
    ensures
        match mask {
            Some(m) => valid_below(mask, n) == held_below(
                m,
                if n < 64 {
                    n
                } else {
                    64
                },
            ),
            None => valid_below(mask, n) == n,
        },
    decreases n,
{
    if n > 0 {
        lemma_valid_below(mask, (n - 1) as nat);
    }
}

/// The order of events by how few slots they can choose from.
pub open spec fn by_freedom(masks: Seq<Option<u64>>, n_slots: usize) -> spec_fn(int, int) -> bool {
    |a: int, b: int| freedom(masks[a], n_slots) < freedom(masks[b], n_slots)
}

/// The events in the order in which they are given slots: the most bound first, and the
/// earlier first of those that are bound alike.
pub open spec fn service_order(masks: Seq<Option<u64>>, n_slots: usize) -> Seq<int> {
    line_up(masks.len(), by_freedom(masks, n_slots))
}

/// Whether a slot is taken in a row of (event, slot) pairs.
pub open spec fn taken(placed: Seq<(int, int)>, slot: int) -> bool {
    exists|k: int| 0 <= k < placed.len() && (#[trigger] placed[k]).1 == slot
}

/// The lowest slot from `from` on, below `n`, that is free and allowed.
pub open spec fn free_slot(mask: Option<u64>, placed: Seq<(int, int)>, from: int, n: int) -> Option<
    int,
>
    decreases n - from,
{
    if from >= n {
        None
    } else if allowed(mask, from) && !taken(placed, from) {
        Some(from)
    } else {
        free_slot(mask, placed, from + 1, n)
    }
}

/// The (event, slot) pairs once the events in `order` have been given slots, one after another.
/// An event that finds no slot is passed over.
pub open spec fn placements(masks: Seq<Option<u64>>, order: Seq<int>, n: int) -> Seq<(int, int)>
    decreases order.len(),
{
    if order.len() == 0 {
        Seq::empty()
    } else {
        let before = placements(masks, order.drop_last(), n);
        match free_slot(masks[order.last()], before, 0, n) {
            Some(slot) => before.push((order.last(), slot)),
            None => before,
        }
    }
}

/// The events in `order` that were passed over.
pub open spec fn passed_over(masks: Seq<Option<u64>>, order: Seq<int>, n: int) -> Seq<int>
    decreases order.len(),
{
    if order.len() == 0 {
        Seq::empty()
    } else {
        let before = passed_over(masks, order.drop_last(), n);
        match free_slot(masks[order.last()], placements(masks, order.drop_last(), n), 0, n) {
            Some(_) => before,
            None => before.push(order.last()),
        }
    }
}

/// The slots that events with the given masks are assigned to, as (event, slot) pairs.
pub open spec fn assignment(masks: Seq<Option<u64>>, n_slots: usize) -> Seq<(int, int)> {
    placements(masks, service_order(masks, n_slots), n_slots as int)
}

/// The events that are assigned to no slot.
pub open spec fn unassigned(masks: Seq<Option<u64>>, n_slots: usize) -> Seq<int> {
    passed_over(masks, service_order(masks, n_slots), n_slots as int)
}

/// The masks of events in a row.
pub open spec fn masks_of(events: Seq<EventModel>) -> Seq<Option<u64>> {
    events.map_values(|e: EventModel| e.counters_mask)
}

/// Pairs of machine integers as pairs of numbers.
pub open spec fn as_numbers(pairs: Seq<(usize, usize)>) -> Seq<(int, int)> {
    pairs.map_values(|p: (usize, usize)| (p.0 as int, p.1 as int))
}

/// Machine integers as numbers.
pub open spec fn as_ints(v: Seq<usize>) -> Seq<int> {
    v.map_values(|i: usize| i as int)
}

fn holds(mask: u64, slot: usize) -> (r: bool)
    ensures
        r == mask_holds(mask, slot as int),
{
    slot < 64 && (mask >> (slot as u64)) & 1 == 1
}

fn count_held(mask: u64, n: usize) -> (r: usize)
    ensures
        r == held_below(mask, n as nat),
{
    let mut r: usize = 0;
    for k in 0..n
        invariant
            r == held_below(mask, k as nat),
            r <= k,
    {
        if holds(mask, k) {
            r += 1;
        }
    }
    r
}

fn freedom_of(event: &KpepEvent, n_slots: usize) -> (r: usize)
    ensures
        r == freedom(event@.counters_mask, n_slots),
{
    match event.counters_mask {
        Some(mask) => if n_slots < 64 {
            count_held(mask, n_slots)
        } else {
            count_held(mask, 64)
        },
        None => n_slots,
    }
}

/// Events are ordered by freedom as numbers are.
pub proof fn lemma_by_freedom_ranks(masks: Seq<Option<u64>>, n_slots: usize)
    ensures
        ranks(by_freedom(masks, n_slots)),
{
}

/// Lists events in the order in which they are given slots.
fn order_events(events: &[&KpepEvent], n_slots: usize) -> (r: Vec<usize>)
    ensures
        as_ints(r@) == service_order(masks_of(models_of(events@)), n_slots),
{
    let ghost masks = masks_of(models_of(events@));
    let ghost less = by_freedom(masks, n_slots);
    let mut r: Vec<usize> = Vec::new();
    let mut keys: Vec<usize> = Vec::new();
    proof {
        lemma_by_freedom_ranks(masks, n_slots);
    }
    for i in 0..events.len()
        invariant
            masks == masks_of(models_of(events@)),
            less == by_freedom(masks, n_slots),
            ranks(less),
            lined_up(as_ints(r@), i as nat, less),
            keys@.len() == i,
            forall|j: int| 0 <= j < i ==> #[trigger] keys@[j] == freedom(masks[j], n_slots),
    {
        let key: usize = freedom_of(events[i], n_slots);
        assert(key == freedom(masks[i as int], n_slots));
        let mut at: usize = r.len();
        let ghost p = as_ints(r@);
        while at > 0 && key < keys[r[at - 1]]
            invariant
                at <= r@.len(),
                p == as_ints(r@),
                less == by_freedom(masks, n_slots),
                lined_up(p, i as nat, less),
                keys@.len() == i,
                forall|j: int| 0 <= j < i ==> #[trigger] keys@[j] == freedom(masks[j], n_slots),
                key == freedom(masks[i as int], n_slots),
                at > 0 ==> 0 <= p[at - 1] < i,
                forall|j: int| at <= j < i ==> less(i as int, #[trigger] p[j]),
            decreases at,
        {
            at -= 1;
            assert(p[at as int] == r@[at as int]);
        }
        assert(at > 0 ==> p[at - 1] == r@[at - 1]);
        proof {
            lemma_place_next(p, i as nat, less, at as int);
        }
        r.insert(at, i);
        assert(as_ints(r@) =~= p.insert(at as int, i as int));
        keys.push(key);
    }
    proof {
        lemma_line_up_is(as_ints(r@), masks.len(), less);
    }
    r
}

fn find_slot(event: &KpepEvent, used: &Vec<bool>, Ghost(placed): Ghost<Seq<(int, int)>>) -> (r:
    Option<usize>)
    requires
        forall|s: int| 0 <= s < used@.len() ==> #[trigger] used@[s] == taken(placed, s),
    ensures
        r is Some <==> free_slot(event@.counters_mask, placed, 0, used@.len() as int) is Some,
        r matches Some(s) ==> s < used@.len() && free_slot(
            event@.counters_mask,
            placed,
            0,
            used@.len() as int,
        ) == Some(s as int),
{
    let ghost mask = event@.counters_mask;
    for s in 0..used.len()
        invariant
            mask == event@.counters_mask,
            forall|s: int| 0 <= s < used@.len() ==> #[trigger] used@[s] == taken(placed, s),
            free_slot(mask, placed, 0, used@.len() as int) == free_slot(
                mask,
                placed,
                s as int,
                used@.len() as int,
            ),
    {
        let fits: bool = match event.counters_mask {
            Some(m) => holds(m, s),
            None => true,
        };
        if !used[s] && fits {
            return Some(s);
        }
    }
    None
}

/// Assigns events to slots, and lists the events that find none.
pub fn place_events(events: &[&KpepEvent], n_slots: usize) -> (r: (Vec<(usize, usize)>, Vec<usize>))
    ensures
        as_numbers(r.0@) == assignment(masks_of(models_of(events@)), n_slots),
        as_ints(r.1@) == unassigned(masks_of(models_of(events@)), n_slots),
        r.0@.len() + r.1@.len() == events@.len(),
        forall|k: int|
            0 <= k < r.0@.len() ==> {
                let (i, slot) = #[trigger] r.0@[k];
                &&& i < events@.len()
                &&& slot < n_slots
                &&& events@[i as int].counters_mask matches Some(m) ==> slot < 64 && m & (1u64 << (
                slot as u64)) != 0
            },
        forall|j: int, k: int|
            0 <= j < k < r.0@.len() ==> (#[trigger] r.0@[j]).0 != (#[trigger] r.0@[k]).0
                && r.0@[j].1 != r.0@[k].1,
{
    let ghost masks = masks_of(models_of(events@));
    let order = order_events(events, n_slots);
    let ghost turns = service_order(masks, n_slots);
    proof {
        lemma_by_freedom_ranks(masks, n_slots);
        lemma_line_up_exists(masks.len(), by_freedom(masks, n_slots));
    }
    let mut used: Vec<bool> = vec![false; n_slots];
    let mut placed: Vec<(usize, usize)> = Vec::new();
    let mut missed: Vec<usize> = Vec::new();
    proof {
        assert(as_numbers(placed@) =~= placements(masks, turns.take(0), n_slots as int));
        assert(as_ints(missed@) =~= passed_over(masks, turns.take(0), n_slots as int));
    }
    for k in 0..order.len()
        invariant
            masks == masks_of(models_of(events@)),
            turns == as_ints(order@),
            lined_up(turns, masks.len(), by_freedom(masks, n_slots)),
            used@.len() == n_slots,
            forall|s: int|
                0 <= s < used@.len() ==> #[trigger] used@[s] == taken(as_numbers(placed@), s),
            as_numbers(placed@) == placements(masks, turns.take(k as int), n_slots as int),
            as_ints(missed@) == passed_over(masks, turns.take(k as int), n_slots as int),
    {
        let i: usize = order[k];
        let ghost before = as_numbers(placed@);
        proof {
            assert(turns.take(k + 1).drop_last() =~= turns.take(k as int));
            assert(turns[k as int] == i);
            assert(masks[i as int] == events@[i as int]@.counters_mask);
        }
        match find_slot(events[i], &used, Ghost(before)) {
            Some(s) => {
                used.set(s, true);
                placed.push((i, s));
                let ghost now = as_numbers(placed@);
                assert(now =~= before.push((i as int, s as int)));
                assert forall|t: int| 0 <= t < used@.len() implies #[trigger] used@[t] == taken(
                    now,
                    t,
                ) by {
                    if t == s {
                        assert(now[before.len() as int].1 == t);
                    } else if taken(before, t) {
                        let j = choose|j: int| 0 <= j < before.len() && (#[trigger] before[j]).1 == t;
                        assert(now[j].1 == t);
                    } else if taken(now, t) {
                        let j = choose|j: int| 0 <= j < now.len() && (#[trigger] now[j]).1 == t;
                        assert(before[j].1 == t);
                    }
                }
            },
            None => {
                let ghost was = missed@;
                missed.push(i);
                assert(as_ints(missed@) =~= as_ints(was).push(i as int));
            },
        }
    }
    proof {
        assert(turns.take(turns.len() as int) =~= turns);
        let pairs = as_numbers(placed@);
        lemma_assignment_rules(masks, n_slots);
        lemma_left_out_events(masks, n_slots);
        assert forall|k: int| 0 <= k < placed@.len() implies {
            let (i, slot) = #[trigger] placed@[k];
            &&& i < events@.len()
            &&& slot < n_slots
            &&& events@[i as int].counters_mask matches Some(m) ==> slot < 64 && m & (1u64 << (
            slot as u64)) != 0
        } by {
            let (i, slot) = placed@[k];
            assert(pairs[k] == (i as int, slot as int));
            assert(masks[i as int] == events@[i as int]@.counters_mask);
        }
        assert forall|j: int, k: int| 0 <= j < k < placed@.len() implies (#[trigger] placed@[j]).0
            != (#[trigger] placed@[k]).0 && placed@[j].1 != placed@[k].1 by {
            assert(pairs[j].0 != pairs[k].0 && pairs[j].1 != pairs[k].1);
        }
    }
    (placed, missed)
}

proof fn lemma_free_slot(mask: Option<u64>, placed: Seq<(int, int)>, from: int, n: int)
    ensures
        match free_slot(mask, placed, from, n) {
            Some(s) => {
                &&& from <= s < n
                &&& allowed(mask, s)
                &&& !taken(placed, s)
                &&& forall|t: int| from <= t < s && allowed(mask, t) ==> #[trigger] taken(placed, t)
            },
            None => forall|t: int|
                from <= t < n && allowed(mask, t) ==> #[trigger] taken(placed, t),
        },
    decreases n - from,
{
    if from < n && !(allowed(mask, from) && !taken(placed, from)) {
        lemma_free_slot(mask, placed, from + 1, n);
    }
}

/// Whether the events of a row of pairs were given slots in the order of their freedom.
pub open spec fn in_service_order(
    masks: Seq<Option<u64>>,
    n_slots: usize,
    placed: Seq<(int, int)>,
) -> bool {
    forall|j: int, k: int|
        0 <= j < k < placed.len() ==> precedes(
            by_freedom(masks, n_slots),
            (#[trigger] placed[j]).0,
            (#[trigger] placed[k]).0,
        )
}

/// Whether each event of a row of pairs has a slot of the machine that its mask allows, and no
/// two of them share one.
pub open spec fn well_placed(
    masks: Seq<Option<u64>>,
    n_slots: usize,
    placed: Seq<(int, int)>,
) -> bool {
    &&& forall|k: int|
        0 <= k < placed.len() ==> {
            &&& 0 <= (#[trigger] placed[k]).0 < masks.len()
            &&& 0 <= placed[k].1 < n_slots
            &&& allowed(masks[placed[k].0], placed[k].1)
        }
    &&& forall|j: int, k: int|
        0 <= j < k < placed.len() ==> (#[trigger] placed[j]).1 != (#[trigger] placed[k]).1
            && placed[j].0 != placed[k].0
}

/// Whether every slot that event `i` may be counted in went to an event served before it.
pub open spec fn crowded_out(
    masks: Seq<Option<u64>>,
    n_slots: usize,
    placed: Seq<(int, int)>,
    i: int,
) -> bool {
    forall|s: int|
        0 <= s < n_slots && #[trigger] allowed(masks[i], s) ==> exists|k: int|
            0 <= k < placed.len() && (#[trigger] placed[k]).1 == s && precedes(
                by_freedom(masks, n_slots),
                placed[k].0,
                i,
            )
}

/// Whether an event stands in a row of pairs.
pub open spec fn placed_event(placed: Seq<(int, int)>, i: int) -> bool {
    exists|k: int| 0 <= k < placed.len() && (#[trigger] placed[k]).0 == i
}

proof fn lemma_placements(masks: Seq<Option<u64>>, n_slots: usize, order: Seq<int>)
    requires
        forall|i: int| 0 <= i < order.len() ==> 0 <= #[trigger] order[i] < masks.len(),
        forall|i: int, j: int|
            0 <= i < j < order.len() ==> precedes(
                by_freedom(masks, n_slots),
                #[trigger] order[i],
                #[trigger] order[j],
            ),
    ensures
        ({
            let placed = placements(masks, order, n_slots as int);
            let missed = passed_over(masks, order, n_slots as int);
            &&& well_placed(masks, n_slots, placed)
            &&& in_service_order(masks, n_slots, placed)
            &&& forall|k: int| 0 <= k < placed.len() ==> order.contains((#[trigger] placed[k]).0)
            &&& forall|t: int|
                0 <= t < order.len() ==> placed_event(placed, #[trigger] order[t])
                    || missed.contains(order[t])
            &&& forall|m: int|
                0 <= m < missed.len() ==> {
                    &&& order.contains(#[trigger] missed[m])
                    &&& crowded_out(masks, n_slots, placed, missed[m])
                    &&& !placed_event(placed, missed[m])
                }
            &&& placed.len() + missed.len() == order.len()
        }),
    decreases order.len(),
{
    if order.len() > 0 {
        let n = n_slots as int;
        let less = by_freedom(masks, n_slots);
        let init = order.drop_last();
        let i = order.last();
        let end = order.len() - 1;
        assert forall|a: int, b: int| 0 <= a < b < init.len() implies precedes(
            less,
            #[trigger] init[a],
            #[trigger] init[b],
        ) by {
            assert(precedes(less, order[a], order[b]));
        }
        assert forall|a: int| 0 <= a < init.len() implies 0 <= #[trigger] init[a]
            < masks.len() by {
            assert(init[a] == order[a]);
        }
        lemma_placements(masks, n_slots, init);
        let before = placements(masks, init, n);
        let now = placements(masks, order, n);
        let missed_before = passed_over(masks, init, n);
        let missed = passed_over(masks, order, n);
        lemma_free_slot(masks[i], before, 0, n);
        assert forall|a: int| #[trigger] init.contains(a) implies precedes(less, a, i)
            && order.contains(a) && a != i by {
            let t = choose|t: int| 0 <= t < init.len() && init[t] == a;
            assert(precedes(less, order[t], order[end]));
            assert(order[t] == a);
        }
        assert forall|k: int| 0 <= k < before.len() implies precedes(
            less,
            (#[trigger] before[k]).0,
            i,
        ) && order.contains(before[k].0) && before[k].0 != i by {
            assert(init.contains(before[k].0));
        }
        assert(order[end] == i);
        match free_slot(masks[i], before, 0, n) {
            Some(s) => {
                assert forall|k: int| 0 <= k < before.len() implies (#[trigger] before[k]).1 != s by {
                    assert(!taken(before, s));
                }
                assert(now[before.len() as int] == (i, s));
                assert forall|m: int| 0 <= m < missed.len() implies crowded_out(
                    masks,
                    n_slots,
                    now,
                    #[trigger] missed[m],
                ) && !placed_event(now, missed[m]) && order.contains(missed[m]) by {
                    let e = missed_before[m];
                    assert(crowded_out(masks, n_slots, before, e));
                    assert(init.contains(e));
                    assert forall|t: int| 0 <= t < n_slots && #[trigger] allowed(
                        masks[e],
                        t,
                    ) implies exists|k: int|
                        0 <= k < now.len() && (#[trigger] now[k]).1 == t && precedes(
                            less,
                            now[k].0,
                            e,
                        ) by {
                        let k = choose|k: int|
                            0 <= k < before.len() && (#[trigger] before[k]).1 == t && precedes(
                                less,
                                before[k].0,
                                e,
                            );
                        assert(now[k] == before[k]);
                    }
                    if placed_event(now, e) {
                        let k = choose|k: int| 0 <= k < now.len() && (#[trigger] now[k]).0 == e;
                        assert(before[k].0 == e);
                    }
                }
                assert forall|t: int| 0 <= t < order.len() implies placed_event(
                    now,
                    #[trigger] order[t],
                ) || missed.contains(order[t]) by {
                    if t < end {
                        assert(init[t] == order[t]);
                        if placed_event(before, init[t]) {
                            let k = choose|k: int|
                                0 <= k < before.len() && (#[trigger] before[k]).0 == init[t];
                            assert(now[k].0 == order[t]);
                        }
                    } else {
                        assert(now[before.len() as int].0 == i);
                    }
                }
            },
            None => {
                assert(crowded_out(masks, n_slots, now, i)) by {
                    assert forall|t: int| 0 <= t < n_slots && #[trigger] allowed(
                        masks[i],
                        t,
                    ) implies exists|k: int|
                        0 <= k < now.len() && (#[trigger] now[k]).1 == t && precedes(
                            less,
                            now[k].0,
                            i,
                        ) by {
                        assert(taken(before, t));
                        let k = choose|k: int| 0 <= k < before.len() && (#[trigger] before[k]).1 == t;
                        assert(now[k].1 == t);
                    }
                }
                assert(missed =~= missed_before.push(i));
                assert forall|m: int| 0 <= m < missed.len() implies crowded_out(
                    masks,
                    n_slots,
                    now,
                    #[trigger] missed[m],
                ) && !placed_event(now, missed[m]) && order.contains(missed[m]) by {
                    if m < missed_before.len() {
                        assert(missed[m] == missed_before[m]);
                        assert(init.contains(missed_before[m]));
                    }
                }
                assert forall|t: int| 0 <= t < order.len() implies placed_event(
                    now,
                    #[trigger] order[t],
                ) || missed.contains(order[t]) by {
                    if t < end {
                        assert(init[t] == order[t]);
                        if !placed_event(before, init[t]) {
                            let m = choose|m: int|
                                0 <= m < missed_before.len() && missed_before[m] == init[t];
                            assert(missed[m] == order[t]);
                        }
                    } else {
                        assert(missed[missed_before.len() as int] == i);
                    }
                }
            },
        }
    }
}

/// Every assigned event has a slot of its own that its mask allows, and the most bound events
/// come first.
pub proof fn lemma_assignment_fits(masks: Seq<Option<u64>>, n_slots: usize)
    ensures
        well_placed(masks, n_slots, assignment(masks, n_slots)),
        in_service_order(masks, n_slots, assignment(masks, n_slots)),
{
    lemma_service_order(masks, n_slots);
    lemma_placements(masks, n_slots, service_order(masks, n_slots));
}

proof fn lemma_service_order(masks: Seq<Option<u64>>, n_slots: usize)
    ensures
        lined_up(service_order(masks, n_slots), masks.len(), by_freedom(masks, n_slots)),
        forall|i: int|
            0 <= i < masks.len() ==> #[trigger] service_order(masks, n_slots).contains(i),
{
    let less = by_freedom(masks, n_slots);
    lemma_by_freedom_ranks(masks, n_slots);
    lemma_line_up_exists(masks.len(), less);
    lemma_lined_up_holds_all(service_order(masks, n_slots), masks.len(), less);
}

/// Each event is either assigned or listed as unassigned, and an event is left unassigned only
/// when every slot that it may be counted in has gone to an event served before it.
pub proof fn lemma_assignment_leaves_out_only_crowded(masks: Seq<Option<u64>>, n_slots: usize)
    ensures
        forall|i: int|
            0 <= i < masks.len() ==> (#[trigger] placed_event(assignment(masks, n_slots), i)
                <==> !unassigned(masks, n_slots).contains(i)),
        forall|i: int| #[trigger]
            unassigned(masks, n_slots).contains(i) ==> 0 <= i < masks.len() && crowded_out(
                masks,
                n_slots,
                assignment(masks, n_slots),
                i,
            ),
        assignment(masks, n_slots).len() + unassigned(masks, n_slots).len() == masks.len(),
{
    let order = service_order(masks, n_slots);
    let placed = assignment(masks, n_slots);
    let missed = unassigned(masks, n_slots);
    lemma_service_order(masks, n_slots);
    lemma_placements(masks, n_slots, order);
    assert forall|i: int| 0 <= i < masks.len() implies (#[trigger] placed_event(placed, i)
        <==> !missed.contains(i)) by {
        assert(order.contains(i));
        let t = choose|t: int| 0 <= t < order.len() && order[t] == i;
        assert(placed_event(placed, order[t]) || missed.contains(order[t]));
        if missed.contains(i) {
            let m = choose|m: int| 0 <= m < missed.len() && missed[m] == i;
            assert(!placed_event(placed, missed[m]));
        }
    }
    assert forall|i: int| #[trigger] missed.contains(i) implies 0 <= i < masks.len()
        && crowded_out(masks, n_slots, placed, i) by {
        let m = choose|m: int| 0 <= m < missed.len() && missed[m] == i;
        assert(order.contains(missed[m]));
        assert(crowded_out(masks, n_slots, placed, missed[m]));
    }
}

/// The pairs (0, 0), (1, 1) and so on, `k` of them.
pub open spec fn in_step(k: nat) -> Seq<(int, int)> {
    Seq::new(k, |i: int| (i, i))
}

/// Events that may go anywhere take the slots one by one until none is left.
pub proof fn lemma_unbound_events_fill_slots(masks: Seq<Option<u64>>, n_slots: usize)
    requires
        forall|i: int| 0 <= i < masks.len() ==> #[trigger] masks[i] is None,
    ensures
        assignment(masks, n_slots) == in_step(
            if masks.len() <= n_slots {
                masks.len()
            } else {
                n_slots as nat
            },
        ),
{
    let order = Seq::new(masks.len(), |i: int| i);
    let less = by_freedom(masks, n_slots);
    lemma_by_freedom_ranks(masks, n_slots);
    assert(lined_up(order, masks.len(), less)) by {
        assert forall|i: int, j: int| 0 <= i < j < masks.len() implies precedes(
            less,
            #[trigger] order[i],
            #[trigger] order[j],
        ) by {
            assert(masks[i] is None && masks[j] is None);
        }
    }
    lemma_line_up_is(order, masks.len(), less);
    lemma_fill(masks, n_slots, order, masks.len());
    assert(order.take(masks.len() as int) =~= order);
}

proof fn lemma_fill(masks: Seq<Option<u64>>, n_slots: usize, order: Seq<int>, k: nat)
    requires
        forall|i: int| 0 <= i < masks.len() ==> #[trigger] masks[i] is None,
        order == Seq::new(masks.len(), |i: int| i),
        k <= masks.len(),
    ensures
        placements(masks, order.take(k as int), n_slots as int) == in_step(
            if k <= n_slots {
                k
            } else {
                n_slots as nat
            },
        ),
    decreases k,
{
    let n = n_slots as int;
    if k == 0 {
        assert(placements(masks, order.take(0), n) =~= in_step(0));
    } else {
        let l = (k - 1) as nat;
        lemma_fill(masks, n_slots, order, l);
        assert(order.take(k as int).drop_last() =~= order.take(l as int));
        let before = placements(masks, order.take(l as int), n);
        assert(masks[l as int] is None);
        lemma_free_slot(masks[l as int], before, 0, n);
        let held = if l <= n_slots { l as int } else { n };
        assert forall|s: int| 0 <= s < held implies #[trigger] taken(before, s) by {
            assert(before[s].1 == s);
        }
        assert(forall|s: int| s >= held ==> !#[trigger] taken(before, s));
        if l < n_slots {
            assert(!taken(before, l as int));
            assert(free_slot(masks[l as int], before, 0, n) == Some(l as int)) by {
                let got = free_slot(masks[l as int], before, 0, n);
                if got is None {
                    assert(allowed(masks[l as int], l as int));
                    assert(taken(before, l as int));
                } else if got->Some_0 < l {
                    assert(taken(before, got->Some_0));
                } else if got->Some_0 > l {
                    assert(taken(before, l as int));
                }
            }
            assert(placements(masks, order.take(k as int), n) =~= in_step(k));
        } else {
            let got = free_slot(masks[l as int], before, 0, n);
            if got is Some {
                assert(taken(before, got->Some_0));
            }
        }
    }
}

/// An event without a mask may be counted in every slot, and one with a mask in those whose bit is
/// set in it, slot 0 having the lowest bit.
pub proof fn lemma_allowed_are_the_mask_bits(mask: Option<u64>, slot: int)
    requires
        slot >= 0,
    ensures
        allowed(mask, slot) <==> (match mask {
            Some(m) => slot < 64 && m & (1u64 << (slot as u64)) != 0,
            None => true,
        }),
{
    if let Some(m) = mask {
        if slot < 64 {
            let s = slot as u64;
            assert(((m >> s) & 1 == 1) == (m & (1u64 << s) != 0)) by (bit_vector)
                requires
                    s < 64,
            ;
        }
    }
}

/// The freedom of an event is how many of the machine's slots there are that it may be counted in.
pub proof fn lemma_freedom_is_the_number_of_slots(mask: Option<u64>, n_slots: usize)
    ensures
        ({
            let choices = Set::new(
                |s: int|
                    0 <= s < n_slots && (match mask {
                        Some(m) => s < 64 && m & (1u64 << (s as u64)) != 0,
                        None => true,
                    }),
            );
            choices.finite() && choices.len() == freedom(mask, n_slots)
        }),
{
    let choices = Set::new(
        |s: int|
            0 <= s < n_slots && (match mask {
                Some(m) => s < 64 && m & (1u64 << (s as u64)) != 0,
                None => true,
            }),
    );
    lemma_freedom_counts_valid_slots(mask, n_slots);
    lemma_valid_below_is_len(mask, n_slots as nat);
    let valid = Set::new(|s: int| 0 <= s < n_slots && allowed(mask, s));
    assert forall|s: int| choices.contains(s) <==> valid.contains(s) by {
        if s >= 0 {
            lemma_allowed_are_the_mask_bits(mask, s);
        }
    }
    assert(choices =~= valid);
}

proof fn lemma_valid_below_is_len(mask: Option<u64>, n: nat)
    ensures
        ({
            let valid = Set::new(|s: int| 0 <= s < n && allowed(mask, s));
            valid.finite() && valid.len() == valid_below(mask, n)
        }),
    decreases n,
{
    let valid = Set::new(|s: int| 0 <= s < n && allowed(mask, s));
    if n == 0 {
        assert(valid =~= Set::empty());
    } else {
        let l = (n - 1) as nat;
        lemma_valid_below_is_len(mask, l);
        let before = Set::new(|s: int| 0 <= s < l && allowed(mask, s));
        if allowed(mask, l as int) {
            assert(valid =~= before.insert(l as int));
        } else {
            assert(valid =~= before);
        }
    }
}

proof fn lemma_placements_take_lowest(masks: Seq<Option<u64>>, n: int, order: Seq<int>)
    ensures
        ({
            let placed = placements(masks, order, n);
            forall|k: int, t: int|
                0 <= k < placed.len() && 0 <= t < placed[k].1 && #[trigger] allowed(
                    masks[(#[trigger] placed[k]).0],
                    t,
                ) ==> exists|j: int| 0 <= j < k && (#[trigger] placed[j]).1 == t
        }),
    decreases order.len(),
{
    let placed = placements(masks, order, n);
    if order.len() > 0 {
        let init = order.drop_last();
        let before = placements(masks, init, n);
        lemma_placements_take_lowest(masks, n, init);
        lemma_free_slot(masks[order.last()], before, 0, n);
        assert forall|k: int, t: int|
            0 <= k < placed.len() && 0 <= t < placed[k].1 && #[trigger] allowed(
                masks[(#[trigger] placed[k]).0],
                t,
            ) implies exists|j: int| 0 <= j < k && (#[trigger] placed[j]).1 == t by {
            if k < before.len() {
                assert(placed[k] == before[k]);
                assert(allowed(masks[before[k].0], t));
                let j = choose|j: int| 0 <= j < k && (#[trigger] before[j]).1 == t;
                assert(placed[j].1 == t);
            } else {
                assert(taken(before, t));
                let j = choose|j: int| 0 <= j < before.len() && (#[trigger] before[j]).1 == t;
                assert(placed[j].1 == t);
            }
        }
    }
}

/// How events are given slots. Each assigned event has a slot of the machine that its mask allows,
/// no event is assigned twice, and no slot is given twice. Events that can choose from fewer slots
/// are served first, and of those that can choose from equally many the earlier ones. Each takes
/// the lowest slot that is left to it.
pub proof fn lemma_assignment_rules(masks: Seq<Option<u64>>, n_slots: usize)
    ensures
        ({
            let placed = assignment(masks, n_slots);
            &&& forall|k: int|
                0 <= k < placed.len() ==> {
                    let (i, slot) = #[trigger] placed[k];
                    &&& 0 <= i < masks.len()
                    &&& 0 <= slot < n_slots
                    &&& masks[i] matches Some(m) ==> slot < 64 && m & (1u64 << (slot as u64)) != 0
                }
            &&& forall|j: int, k: int|
                0 <= j < k < placed.len() ==> {
                    let (a, b) = ((#[trigger] placed[j]).0, (#[trigger] placed[k]).0);
                    &&& a != b
                    &&& placed[j].1 != placed[k].1
                    &&& freedom(masks[a], n_slots) < freedom(masks[b], n_slots) || (freedom(
                        masks[a],
                        n_slots,
                    ) == freedom(masks[b], n_slots) && a < b)
                }
            &&& forall|k: int, t: int|
                0 <= k < placed.len() && 0 <= t < placed[k].1 && #[trigger] allowed(
                    masks[(#[trigger] placed[k]).0],
                    t,
                ) ==> exists|j: int| 0 <= j < k && (#[trigger] placed[j]).1 == t
        }),
{
    let placed = assignment(masks, n_slots);
    lemma_assignment_fits(masks, n_slots);
    lemma_placements_take_lowest(masks, n_slots as int, service_order(masks, n_slots));
    assert forall|k: int| 0 <= k < placed.len() implies {
        let (i, slot) = #[trigger] placed[k];
        &&& 0 <= i < masks.len()
        &&& 0 <= slot < n_slots
        &&& masks[i] matches Some(m) ==> slot < 64 && m & (1u64 << (slot as u64)) != 0
    } by {
        lemma_allowed_are_the_mask_bits(masks[placed[k].0], placed[k].1);
    }
    assert forall|j: int, k: int| 0 <= j < k < placed.len() implies {
        let (a, b) = ((#[trigger] placed[j]).0, (#[trigger] placed[k]).0);
        &&& a != b
        &&& placed[j].1 != placed[k].1
        &&& freedom(masks[a], n_slots) < freedom(masks[b], n_slots) || (freedom(masks[a], n_slots)
            == freedom(masks[b], n_slots) && a < b)
    } by {
        assert(precedes(by_freedom(masks, n_slots), placed[j].0, placed[k].0));
    }
}

/// Each event is either assigned or left out, and none is both. One is left out only if every slot
/// that its mask allows has gone to an event that can choose from fewer slots, or from equally
/// many and comes earlier.
pub proof fn lemma_left_out_events(masks: Seq<Option<u64>>, n_slots: usize)
    ensures
        ({
            let placed = assignment(masks, n_slots);
            let missed = unassigned(masks, n_slots);
            &&& placed.len() + missed.len() == masks.len()
            &&& forall|i: int|
                0 <= i < masks.len() ==> ((exists|k: int|
                    0 <= k < placed.len() && (#[trigger] placed[k]).0 == i) <==> !(
                #[trigger] missed.contains(i)))
            &&& forall|m: int| 0 <= m < missed.len() ==> 0 <= #[trigger] missed[m] < masks.len()
            &&& forall|m: int, s: int|
                0 <= m < missed.len() && 0 <= s < n_slots && #[trigger] allowed(
                    masks[#[trigger] missed[m]],
                    s,
                ) ==> exists|k: int|
                    {
                        &&& 0 <= k < placed.len()
                        &&& (#[trigger] placed[k]).1 == s
                        &&& freedom(masks[placed[k].0], n_slots) < freedom(masks[missed[m]], n_slots)
                            || (freedom(masks[placed[k].0], n_slots) == freedom(
                            masks[missed[m]],
                            n_slots,
                        ) && placed[k].0 < missed[m])
                    }
        }),
{
    let placed = assignment(masks, n_slots);
    let missed = unassigned(masks, n_slots);
    lemma_assignment_leaves_out_only_crowded(masks, n_slots);
    assert forall|i: int| 0 <= i < masks.len() implies ((exists|k: int|
        0 <= k < placed.len() && (#[trigger] placed[k]).0 == i) <==> !(#[trigger] missed.contains(
        i,
    ))) by {
        assert(placed_event(placed, i) <==> !missed.contains(i));
    }
    assert forall|m: int| 0 <= m < missed.len() implies 0 <= #[trigger] missed[m] < masks.len() by {
        assert(missed.contains(missed[m]));
    }
    assert forall|m: int, s: int|
        0 <= m < missed.len() && 0 <= s < n_slots && #[trigger] allowed(
            masks[#[trigger] missed[m]],
            s,
        ) implies exists|k: int|
        {
            &&& 0 <= k < placed.len()
            &&& (#[trigger] placed[k]).1 == s
            &&& freedom(masks[placed[k].0], n_slots) < freedom(masks[missed[m]], n_slots) || (
            freedom(masks[placed[k].0], n_slots) == freedom(masks[missed[m]], n_slots)
                && placed[k].0 < missed[m])
        } by {
        assert(missed.contains(missed[m]));
        assert(crowded_out(masks, n_slots, placed, missed[m]));
        let k = choose|k: int|
            0 <= k < placed.len() && (#[trigger] placed[k]).1 == s && precedes(
                by_freedom(masks, n_slots),
                placed[k].0,
                missed[m],
            );
        assert(placed[k].1 == s);
    }
}

/// Contracts speak of machine integers as the numbers they are, and of masks in the order of their
/// events.
pub proof fn lemma_rows_show_numbers(
    pairs: Seq<(usize, usize)>,
    v: Seq<usize>,
    events: Seq<EventModel>,
    i: int,
)
    ensures
        as_numbers(pairs).len() == pairs.len(),
        0 <= i < pairs.len() ==> as_numbers(pairs)[i].0 == pairs[i].0 && as_numbers(pairs)[i].1
            == pairs[i].1,
        as_ints(v).len() == v.len(),
        0 <= i < v.len() ==> as_ints(v)[i] == v[i],
        masks_of(events).len() == events.len(),
        0 <= i < events.len() ==> masks_of(events)[i] == events[i].counters_mask,
{
}

proof fn lemma_passed_over_in_order(masks: Seq<Option<u64>>, n_slots: usize, order: Seq<int>)
    requires
        forall|i: int, j: int|
            0 <= i < j < order.len() ==> precedes(
                by_freedom(masks, n_slots),
                #[trigger] order[i],
                #[trigger] order[j],
            ),
    ensures
        ({
            let missed = passed_over(masks, order, n_slots as int);
            &&& forall|m: int| 0 <= m < missed.len() ==> order.contains(#[trigger] missed[m])
            &&& forall|l: int, m: int|
                0 <= l < m < missed.len() ==> precedes(
                    by_freedom(masks, n_slots),
                    #[trigger] missed[l],
                    #[trigger] missed[m],
                )
        }),
    decreases order.len(),
{
    if order.len() > 0 {
        let n = n_slots as int;
        let less = by_freedom(masks, n_slots);
        let init = order.drop_last();
        let end = order.len() - 1;
        assert forall|i: int, j: int| 0 <= i < j < init.len() implies precedes(
            less,
            #[trigger] init[i],
            #[trigger] init[j],
        ) by {
            assert(precedes(less, order[i], order[j]));
        }
        lemma_passed_over_in_order(masks, n_slots, init);
        let before = passed_over(masks, init, n);
        let missed = passed_over(masks, order, n);
        assert(order[end] == order.last());
        assert forall|m: int| 0 <= m < before.len() implies order.contains(#[trigger] before[m])
            && precedes(less, before[m], order.last()) by {
            assert(init.contains(before[m]));
            let t = choose|t: int| 0 <= t < init.len() && init[t] == before[m];
            assert(order[t] == before[m]);
            assert(precedes(less, order[t], order[end]));
        }
        assert forall|m: int| 0 <= m < missed.len() implies order.contains(#[trigger] missed[m]) by {
            if m < before.len() {
                assert(missed[m] == before[m]);
            }
        }
        assert forall|l: int, m: int| 0 <= l < m < missed.len() implies precedes(
            less,
            #[trigger] missed[l],
            #[trigger] missed[m],
        ) by {
            assert(missed[l] == before[l]);
            if m < before.len() {
                assert(missed[m] == before[m]);
            }
        }
    }
}

/// Events that are left out are listed in the order in which they were served: those that can
/// choose from fewer slots first, and of those that can choose from equally many the earlier ones.
pub proof fn lemma_left_out_events_in_order(masks: Seq<Option<u64>>, n_slots: usize)
    ensures
        ({
            let missed = unassigned(masks, n_slots);
            forall|l: int, m: int|
                0 <= l < m < missed.len() ==> {
                    let (a, b) = (#[trigger] missed[l], #[trigger] missed[m]);
                    freedom(masks[a], n_slots) < freedom(masks[b], n_slots) || (freedom(
                        masks[a],
                        n_slots,
                    ) == freedom(masks[b], n_slots) && a < b)
                }
        }),
{
    let missed = unassigned(masks, n_slots);
    lemma_service_order(masks, n_slots);
    lemma_passed_over_in_order(masks, n_slots, service_order(masks, n_slots));
    assert forall|l: int, m: int| 0 <= l < m < missed.len() implies {
        let (a, b) = (#[trigger] missed[l], #[trigger] missed[m]);
        freedom(masks[a], n_slots) < freedom(masks[b], n_slots) || (freedom(masks[a], n_slots)
            == freedom(masks[b], n_slots) && a < b)
    } by {
        assert(precedes(by_freedom(masks, n_slots), missed[l], missed[m]));
    }
}

} // verus!
