use vstd::prelude::*;
use crate::model::{
    Allocation, Inconsistency, Schedule, SchedulingStrategy, Slot, Task, TimeSegment,
};
use crate::pack::{
    all_valid, apart, check_ranges, honoured, lemma_no_double_booking, lemma_packing_sound, pack,
    packing, sound,
};
use crate::rank::{lemma_ranking_keeps_tasks, rank, ranking};
use crate::stable::{
    lemma_stable_sort_contains, lemma_stable_sort_images, lemma_stable_sort_len,
    lemma_stable_sort_ordered, lemma_stable_sort_stable, ordered, stable_sort, stable_sort_by,
    strict_order, ties_with, weak_order,
};

verus! {

/// One of the segments given has the id `id`.
pub open spec fn knows(grouped: Seq<(TimeSegment, Vec<Task>)>, id: u32) -> bool {
    exists|g: int| 0 <= g < grouped.len() && (#[trigger] grouped[g]).0.id == id
}

/// The task names no segment, or one of those given.
pub open spec fn refers_well(task: Task, grouped: Seq<(TimeSegment, Vec<Task>)>) -> bool {
    task.segment_id matches Some(id) ==> knows(grouped, id)
}

/// Every task of the group names no segment, or one of those given.
pub open spec fn group_consistent(
    tasks: Seq<Task>,
    grouped: Seq<(TimeSegment, Vec<Task>)>,
) -> bool {
    forall|i: int| 0 <= i < tasks.len() ==> refers_well(#[trigger] tasks[i], grouped)
}

/// Every task names no segment, or one of those given.
pub open spec fn consistent(grouped: Seq<(TimeSegment, Vec<Task>)>) -> bool {
    forall|g: int|
        0 <= g < grouped.len() ==> group_consistent((#[trigger] grouped[g]).1@, grouped)
}

/// Every range of every segment ends after it starts.
pub open spec fn ranges_valid(grouped: Seq<(TimeSegment, Vec<Task>)>) -> bool {
    forall|g: int| 0 <= g < grouped.len() ==> all_valid((#[trigger] grouped[g]).0.ranges@)
}

/// The task belongs to a segment.
pub open spec fn is_bound(task: Task) -> bool {
    task.segment_id is Some
}

/// The tasks that belong to a segment, in the order given.
pub open spec fn bound(tasks: Seq<Task>) -> Seq<Task> {
    tasks.filter(|task: Task| is_bound(task))
}

/// The tasks that belong to no segment, in the order given.
pub open spec fn loose(tasks: Seq<Task>) -> Seq<Task> {
    tasks.filter(|task: Task| !is_bound(task))
}

/// What the tasks of one group are offered: those that belong to a segment are ranked
/// and packed into the ranges of the group's segment.
pub open spec fn group_entries(
    strategy: SchedulingStrategy,
    now: i64,
    group: (TimeSegment, Vec<Task>),
) -> Seq<Allocation> {
    packing(ranking(bound(group.1@), strategy, now), group.0.ranges@).entries
}

/// What the tasks of all groups are offered, group after group.
pub open spec fn all_entries(
    strategy: SchedulingStrategy,
    now: i64,
    grouped: Seq<(TimeSegment, Vec<Task>)>,
) -> Seq<Allocation>
    decreases grouped.len(),
{
    if grouped.len() == 0 {
        Seq::empty()
    } else {
        all_entries(strategy, now, grouped.drop_last()) + group_entries(
            strategy,
            now,
            grouped.last(),
        )
    }
}

/// The tasks of all groups that belong to no segment, group after group.
pub open spec fn all_loose(grouped: Seq<(TimeSegment, Vec<Task>)>) -> Seq<Task>
    decreases grouped.len(),
{
    if grouped.len() == 0 {
        Seq::empty()
    } else {
        all_loose(grouped.drop_last()) + loose(grouped.last().1@)
    }
}

/// `a` stands before `b` in a schedule: it has a slot, and `b` has none or one that starts
/// later.
pub open spec fn starts_before(a: Allocation, b: Allocation) -> bool {
    match a.slot {
        Slot::At(first) => match b.slot {
            Slot::At(second) => first.from < second.from,
            Slot::Unscheduled => true,
        },
        Slot::Unscheduled => false,
    }
}

/// `starts_before` as a relation on allocations.
pub open spec fn slot_order() -> spec_fn(Allocation, Allocation) -> bool {
    |a: Allocation, b: Allocation| starts_before(a, b)
}

/// The entries as a schedule lists them: those with a slot by start time, then those
/// without; entries that start together, and those without a slot, in the order given.
pub open spec fn timetable(entries: Seq<Allocation>) -> Seq<Allocation> {
    stable_sort(entries, slot_order())
}

/// What `compose` returns for what it is given.
pub open spec fn composed(
    strategy: SchedulingStrategy,
    now: i64,
    grouped: Seq<(TimeSegment, Vec<Task>)>,
    result: Result<Schedule, Inconsistency>,
) -> bool {
    if !consistent(grouped) {
        result == Err::<Schedule, Inconsistency>(Inconsistency::UnknownSegment)
    } else if !ranges_valid(grouped) {
        result == Err::<Schedule, Inconsistency>(Inconsistency::EmptyRange)
    } else {
        result matches Ok(schedule) && schedule.entries@ == timetable(
            all_entries(strategy, now, grouped),
        ) && schedule.unassigned@ == all_loose(grouped)
    }
}

/// The tasks of the entries, in the order of the entries.
pub open spec fn tasks_of(entries: Seq<Allocation>) -> Seq<Task> {
    entries.map_values(|entry: Allocation| entry.task)
}

/// The tasks of all groups, group after group.
pub open spec fn all_tasks(grouped: Seq<(TimeSegment, Vec<Task>)>) -> Seq<Task>
    decreases grouped.len(),
{
    if grouped.len() == 0 {
        Seq::empty()
    } else {
        all_tasks(grouped.drop_last()) + grouped.last().1@
    }
}

/// The slot honours its task within the ranges of one of the groups.
pub open spec fn honoured_somewhere(
    entry: Allocation,
    grouped: Seq<(TimeSegment, Vec<Task>)>,
) -> bool {
    exists|g: int| 0 <= g < grouped.len() && honoured(entry, (#[trigger] grouped[g]).0.ranges@)
}

/// The order of a schedule is a weak order.
pub proof fn lemma_slot_order_weak()
    ensures
        strict_order(slot_order()),
        weak_order(slot_order()),
{
    let before = slot_order();
    assert forall|a: Allocation| !#[trigger] before(a, a) by {}
    assert forall|a: Allocation, b: Allocation, c: Allocation| #[trigger]
        before(a, b) && #[trigger] before(b, c) implies before(a, c) by {}
    assert forall|a: Allocation, b: Allocation, c: Allocation| #[trigger]
        before(a, b) implies #[trigger] before(a, c) || before(c, b) by {}
}

/// A timetable lists what it was given, entry for entry, and in it the entries with a slot
/// come first, by start time.
pub proof fn lemma_timetable_ordered(entries: Seq<Allocation>)
    ensures
        timetable(entries).len() == entries.len(),
        timetable(entries).to_multiset() == entries.to_multiset(),
        forall|i: int, j: int|
            0 <= i < j < timetable(entries).len() ==> (
            (#[trigger] timetable(entries)[j]).slot matches Slot::At(later) ==> (
            #[trigger] timetable(entries)[i]).slot matches Slot::At(sooner) && sooner.from
                <= later.from),
{
    let listed = timetable(entries);
    lemma_slot_order_weak();
    lemma_stable_sort_len(entries, slot_order());
    crate::stable::lemma_stable_sort_permutes(entries, slot_order());
    lemma_stable_sort_ordered(entries, slot_order());
    assert forall|i: int, j: int| 0 <= i < j < listed.len() implies (
    (#[trigger] listed[j]).slot matches Slot::At(later) ==> (
    #[trigger] listed[i]).slot matches Slot::At(sooner) && sooner.from <= later.from) by {}
}

/// Entries that start at the same instant, and likewise the entries without a slot, stand
/// in a timetable in the order in which they were given.
pub proof fn lemma_timetable_stable(entries: Seq<Allocation>, entry: Allocation)
    ensures
        timetable(entries).filter(ties_with(entry, slot_order())) == entries.filter(
            ties_with(entry, slot_order()),
        ),
{
    lemma_slot_order_weak();
    lemma_stable_sort_stable(entries, slot_order(), entry);
}

/// The parts of a list of tasks hold, between them, every task as often as the list does.
pub proof fn lemma_split_keeps_tasks(tasks: Seq<Task>)
    ensures
        bound(tasks).to_multiset().add(loose(tasks).to_multiset()) == tasks.to_multiset(),
        forall|i: int| 0 <= i < bound(tasks).len() ==> is_bound(#[trigger] bound(tasks)[i]),
        forall|i: int| 0 <= i < loose(tasks).len() ==> !is_bound(#[trigger] loose(tasks)[i]),
    decreases tasks.len(),
{
    broadcast use
        Seq::lemma_filter_push,
        vstd::seq_lib::group_to_multiset_ensures,
        vstd::seq_lib::group_filter_ensures,
    ;

    let with = |task: Task| is_bound(task);
    let without = |task: Task| !is_bound(task);
    if tasks.len() > 0 {
        let init = tasks.drop_last();
        lemma_split_keeps_tasks(init);
        assert(tasks =~= init.push(tasks.last()));
        assert(init.push(tasks.last()).filter(with) == if with(tasks.last()) {
            init.filter(with).push(tasks.last())
        } else {
            init.filter(with)
        });
        assert(init.push(tasks.last()).filter(without) == if without(tasks.last()) {
            init.filter(without).push(tasks.last())
        } else {
            init.filter(without)
        });
    }
    assert forall|i: int| 0 <= i < bound(tasks).len() implies is_bound(
        #[trigger] bound(tasks)[i],
    ) by {}
    assert forall|i: int| 0 <= i < loose(tasks).len() implies !is_bound(
        #[trigger] loose(tasks)[i],
    ) by {}
}

/// What one group is offered: an entry for each of its tasks that belong to a segment, each
/// slot honouring its task within the ranges of the group's segment.
pub proof fn lemma_group_entries(
    strategy: SchedulingStrategy,
    now: i64,
    group: (TimeSegment, Vec<Task>),
)
    ensures
        tasks_of(group_entries(strategy, now, group)) == ranking(bound(group.1@), strategy, now),
        tasks_of(group_entries(strategy, now, group)).to_multiset() == bound(
            group.1@,
        ).to_multiset(),
        forall|i: int|
            0 <= i < group_entries(strategy, now, group).len() ==> {
                &&& is_bound((#[trigger] group_entries(strategy, now, group)[i]).task)
                &&& honoured(group_entries(strategy, now, group)[i], group.0.ranges@)
            },
{
    broadcast use vstd::seq_lib::to_multiset_contains;

    let ranked = ranking(bound(group.1@), strategy, now);
    let entries = group_entries(strategy, now, group);
    lemma_packing_sound(ranked, group.0.ranges@);
    lemma_ranking_keeps_tasks(bound(group.1@), strategy, now);
    lemma_split_keeps_tasks(group.1@);
    assert(tasks_of(entries) =~= ranked);
    assert forall|i: int| 0 <= i < entries.len() implies is_bound((#[trigger] entries[i]).task) by {
        assert(ranked.to_multiset().count(ranked[i]) > 0);
    }
}

/// Within one segment nothing is booked twice: no two slots that the tasks of a group are
/// offered share an instant.
pub proof fn lemma_segment_not_double_booked(
    strategy: SchedulingStrategy,
    now: i64,
    group: (TimeSegment, Vec<Task>),
    i: int,
    j: int,
)
    requires
        0 <= i < group_entries(strategy, now, group).len(),
        0 <= j < group_entries(strategy, now, group).len(),
        i != j,
    ensures
        apart(
            group_entries(strategy, now, group)[i].slot,
            group_entries(strategy, now, group)[j].slot,
        ),
{
    let ranked = ranking(bound(group.1@), strategy, now);
    lemma_packing_sound(ranked, group.0.ranges@);
    lemma_no_double_booking(ranked, group.0.ranges@, i, j);
}

/// Unassigned tasks never get a slot: no entry of a schedule is for a task without a
/// segment, every such task is listed as unassigned, and no other task is.
pub proof fn lemma_unassigned_apart(
    strategy: SchedulingStrategy,
    now: i64,
    grouped: Seq<(TimeSegment, Vec<Task>)>,
)
    ensures
        forall|i: int|
            0 <= i < timetable(all_entries(strategy, now, grouped)).len() ==> is_bound(
                (#[trigger] timetable(all_entries(strategy, now, grouped))[i]).task,
            ),
        forall|i: int|
            0 <= i < all_loose(grouped).len() ==> !is_bound(#[trigger] all_loose(grouped)[i]),
        forall|g: int, i: int|
            0 <= g < grouped.len() && 0 <= i < grouped[g].1@.len() && !is_bound(
                #[trigger] grouped[g].1@[i],
            ) ==> all_loose(grouped).contains(grouped[g].1@[i]),
    decreases grouped.len(),
{
    broadcast use vstd::seq_lib::group_filter_ensures;

    let entries = all_entries(strategy, now, grouped);
    let listed = timetable(entries);
    lemma_stable_sort_contains(entries, slot_order());
    lemma_all_entries(strategy, now, grouped);
    assert forall|i: int| 0 <= i < listed.len() implies is_bound((#[trigger] listed[i]).task) by {
        assert(entries.contains(listed[i]));
    }
    if grouped.len() > 0 {
        let init = grouped.drop_last();
        let tasks = grouped.last().1@;
        lemma_unassigned_apart(strategy, now, init);
        lemma_split_keeps_tasks(tasks);
        assert forall|g: int, i: int|
            0 <= g < grouped.len() && 0 <= i < grouped[g].1@.len() && !is_bound(
                #[trigger] grouped[g].1@[i],
            ) implies all_loose(grouped).contains(grouped[g].1@[i]) by {
            let task = grouped[g].1@[i];
            if g < init.len() {
                assert(init[g] == grouped[g]);
                let at = choose|at: int|
                    0 <= at < all_loose(init).len() && all_loose(init)[at] == task;
                assert(all_loose(grouped)[at] == task);
            } else {
                let without = |task: Task| !is_bound(task);
                assert(tasks.filter(without).contains(tasks[i]));
                let at = choose|at: int| 0 <= at < loose(tasks).len() && loose(tasks)[at] == task;
                assert(all_loose(grouped)[all_loose(init).len() + at] == task);
            }
        }
    }
}

/// What all groups are offered: every entry is for a task that belongs to a segment, and
/// its slot honours the task within the ranges of one of the segments.
pub proof fn lemma_all_entries(
    strategy: SchedulingStrategy,
    now: i64,
    grouped: Seq<(TimeSegment, Vec<Task>)>,
)
    ensures
        forall|entry: Allocation| #[trigger]
            all_entries(strategy, now, grouped).contains(entry) ==> is_bound(entry.task)
                && honoured_somewhere(entry, grouped),
    decreases grouped.len(),
{
    if grouped.len() > 0 {
        let init = grouped.drop_last();
        let last = group_entries(strategy, now, grouped.last());
        lemma_all_entries(strategy, now, init);
        lemma_group_entries(strategy, now, grouped.last());
        assert forall|entry: Allocation| #[trigger]
            all_entries(strategy, now, grouped).contains(entry) implies is_bound(entry.task)
            && honoured_somewhere(entry, grouped) by {
            let entries = all_entries(strategy, now, grouped);
            let at = choose|at: int| 0 <= at < entries.len() && entries[at] == entry;
            if at < all_entries(strategy, now, init).len() {
                assert(all_entries(strategy, now, init).contains(entry));
            }
        }
    }
}

/// Every slot of a schedule is as long as its task, ends by the task's deadline and lies
/// inside a range of one of the segments.
pub proof fn lemma_slots_honoured(
    strategy: SchedulingStrategy,
    now: i64,
    grouped: Seq<(TimeSegment, Vec<Task>)>,
)
    ensures
        forall|i: int|
            0 <= i < timetable(all_entries(strategy, now, grouped)).len() ==> {
                let entry = #[trigger] timetable(all_entries(strategy, now, grouped))[i];
                &&& honoured_somewhere(entry, grouped)
                &&& entry.slot matches Slot::At(span) ==> span.to <= entry.task.deadline
            },
{
    let entries = all_entries(strategy, now, grouped);
    let listed = timetable(entries);
    lemma_stable_sort_contains(entries, slot_order());
    lemma_all_entries(strategy, now, grouped);
    assert forall|i: int| 0 <= i < listed.len() implies {
        let entry = #[trigger] listed[i];
        &&& honoured_somewhere(entry, grouped)
        &&& entry.slot matches Slot::At(span) ==> span.to <= entry.task.deadline
    } by {
        assert(entries.contains(listed[i]));
    }
}

/// No task is lost: the tasks of the entries and the unassigned tasks are, between them,
/// the tasks that were given, each as often as it was given.
pub proof fn lemma_every_task_accounted(
    strategy: SchedulingStrategy,
    now: i64,
    grouped: Seq<(TimeSegment, Vec<Task>)>,
)
    ensures
        tasks_of(timetable(all_entries(strategy, now, grouped))).to_multiset().add(
            all_loose(grouped).to_multiset(),
        ) == all_tasks(grouped).to_multiset(),
{
    let entries = all_entries(strategy, now, grouped);
    lemma_stable_sort_images(entries, slot_order(), |entry: Allocation| entry.task);
    lemma_entries_account(strategy, now, grouped);
}

/// Before the entries are put in order, no task is lost.
pub proof fn lemma_entries_account(
    strategy: SchedulingStrategy,
    now: i64,
    grouped: Seq<(TimeSegment, Vec<Task>)>,
)
    ensures
        tasks_of(all_entries(strategy, now, grouped)).to_multiset().add(
            all_loose(grouped).to_multiset(),
        ) == all_tasks(grouped).to_multiset(),
    decreases grouped.len(),
{
    broadcast use vstd::seq_lib::lemma_multiset_commutative, vstd::seq_lib::to_multiset_len;

    if grouped.len() == 0 {
        assert(tasks_of(all_entries(strategy, now, grouped)) =~= all_tasks(grouped));
        assert(all_tasks(grouped) + all_tasks(grouped) =~= all_tasks(grouped));
    } else {
        let init = grouped.drop_last();
        let group = grouped.last();
        lemma_entries_account(strategy, now, init);
        lemma_group_entries(strategy, now, group);
        lemma_split_keeps_tasks(group.1@);
        let before = all_entries(strategy, now, init);
        let here = group_entries(strategy, now, group);
        assert(tasks_of(before + here) =~= tasks_of(before) + tasks_of(here));
        assert((tasks_of(before) + tasks_of(here)).to_multiset() =~= tasks_of(
            before,
        ).to_multiset().add(tasks_of(here).to_multiset()));
        assert((all_loose(init) + loose(group.1@)).to_multiset() =~= all_loose(
            init,
        ).to_multiset().add(loose(group.1@).to_multiset()));
        assert((all_tasks(init) + group.1@).to_multiset() =~= all_tasks(init).to_multiset().add(
            group.1@.to_multiset(),
        ));
        assert(tasks_of(all_entries(strategy, now, grouped)).to_multiset().add(
            all_loose(grouped).to_multiset(),
        ) =~= all_tasks(grouped).to_multiset());
    }
}

/// Composing is repeatable: two results for the same strategy, instant and groups are the
/// same error, or schedules with the same entries and the same unassigned tasks.
pub proof fn lemma_compose_repeatable(
    strategy: SchedulingStrategy,
    now: i64,
    grouped: Seq<(TimeSegment, Vec<Task>)>,
    first: Result<Schedule, Inconsistency>,
    second: Result<Schedule, Inconsistency>,
)
    requires
        composed(strategy, now, grouped, first),
        composed(strategy, now, grouped, second),
    ensures
        first is Err ==> second == first,
        first matches Ok(one) ==> second matches Ok(other) && other.entries@ == one.entries@
            && other.unassigned@ == one.unassigned@,
{
}

/// Decides `starts_before`.
pub fn is_before(a: &Allocation, b: &Allocation) -> (first: bool)
    ensures
        first == starts_before(*a, *b),
{
    match a.slot {
        Slot::At(first) => match b.slot {
            Slot::At(second) => first.from < second.from,
            Slot::Unscheduled => true,
        },
        Slot::Unscheduled => false,
    }
}

/// Whether one of the segments has the id `id`.
pub fn knows_segment(grouped: &Vec<(TimeSegment, Vec<Task>)>, id: u32) -> (known: bool)
    ensures
        known == knows(grouped@, id),
{
    let mut g: usize = 0;
    while g < grouped.len()
        invariant
            g <= grouped.len(),
            forall|h: int| 0 <= h < g ==> (#[trigger] grouped@[h]).0.id != id,
        decreases grouped.len() - g,
    {
        if grouped[g].0.id == id {
            return true;
        }
        g += 1;
    }
    false
}

/// Whether every task names no segment, or one of those given.
pub fn check_references(grouped: &Vec<(TimeSegment, Vec<Task>)>) -> (sound: bool)
    ensures
        sound == consistent(grouped@),
{
    let mut g: usize = 0;
    while g < grouped.len()
        invariant
            g <= grouped.len(),
            forall|h: int| 0 <= h < g ==> group_consistent((#[trigger] grouped@[h]).1@, grouped@),
        decreases grouped.len() - g,
    {
        let tasks = &grouped[g].1;
        let mut i: usize = 0;
        while i < tasks.len()
            invariant
                i <= tasks.len(),
                g < grouped.len(),
                *tasks == grouped@[g as int].1,
                forall|j: int| 0 <= j < i ==> refers_well(#[trigger] tasks@[j], grouped@),
            decreases tasks.len() - i,
        {
            match tasks[i].segment_id {
                Some(id) => {
                    if !knows_segment(grouped, id) {
                        return false;
                    }
                },
                None => {},
            }
            i += 1;
        }
        g += 1;
    }
    true
}

/// Whether every range of every segment ends after it starts.
pub fn check_all_ranges(grouped: &Vec<(TimeSegment, Vec<Task>)>) -> (valid: bool)
    ensures
        valid == ranges_valid(grouped@),
{
    let mut g: usize = 0;
    while g < grouped.len()
        invariant
            g <= grouped.len(),
            forall|h: int| 0 <= h < g ==> all_valid((#[trigger] grouped@[h]).0.ranges@),
        decreases grouped.len() - g,
    {
        if !check_ranges(&grouped[g].0.ranges) {
            return false;
        }
        g += 1;
    }
    true
}

/// Parts the tasks into those that belong to a segment and those that do not.
pub fn split(tasks: Vec<Task>) -> (parts: (Vec<Task>, Vec<Task>))
    ensures
        parts.0@ == bound(tasks@),
        parts.1@ == loose(tasks@),
{
    let ghost given = tasks@;
    let mut with: Vec<Task> = Vec::new();
    let mut without: Vec<Task> = Vec::new();
    for task in it: tasks
        invariant
            it.seq() == given,
            with@ == bound(given.take(it.index() as int)),
            without@ == loose(given.take(it.index() as int)),
    {
        proof {
            broadcast use Seq::lemma_filter_push;

            assert(given.take(it.index() + 1) =~= given.take(it.index() as int).push(task));
        }
        if task.segment_id.is_some() {
            with.push(task);
        } else {
            without.push(task);
        }
    }
    assert(given.take(given.len() as int) =~= given);
    (with, without)
}

/// Draws up the schedule for the tasks of all segments.
///
/// Each group is handled by itself: its tasks that belong to a segment are ranked and then
/// packed into the ranges of the group's segment. The schedule lists what all of them were
/// offered, and apart from that the tasks that belong to no segment.
pub fn compose(
    strategy: SchedulingStrategy,
    now: i64,
    grouped: Vec<(TimeSegment, Vec<Task>)>,
) -> (result: Result<Schedule, Inconsistency>)
    ensures
        composed(strategy, now, grouped@, result),
        result is Ok <==> consistent(grouped@) && ranges_valid(grouped@),
        result matches Ok(schedule) ==> {
            &&& forall|i: int|
                0 <= i < schedule.entries@.len() ==> is_bound(
                    (#[trigger] schedule.entries@[i]).task,
                )
            &&& forall|i: int|
                0 <= i < schedule.unassigned@.len() ==> !is_bound(
                    #[trigger] schedule.unassigned@[i],
                )
            &&& forall|g: int, i: int|
                0 <= g < grouped@.len() && 0 <= i < grouped@[g].1@.len() && !is_bound(
                    #[trigger] grouped@[g].1@[i],
                ) ==> schedule.unassigned@.contains(grouped@[g].1@[i])
            &&& tasks_of(schedule.entries@).to_multiset().add(schedule.unassigned@.to_multiset())
                == all_tasks(grouped@).to_multiset()
            &&& forall|i: int|
                0 <= i < schedule.entries@.len() ==> (
                (#[trigger] schedule.entries@[i]).slot matches Slot::At(span) ==> span.to
                    <= schedule.entries@[i].task.deadline && honoured_somewhere(
                    schedule.entries@[i],
                    grouped@,
                ))
            &&& forall|i: int, j: int|
                0 <= i < j < schedule.entries@.len() ==> (
                (#[trigger] schedule.entries@[j]).slot matches Slot::At(later) ==> (
                #[trigger] schedule.entries@[i]).slot matches Slot::At(sooner) && sooner.from
                    <= later.from)
        },
{
    proof {
        lemma_unassigned_apart(strategy, now, grouped@);
        lemma_every_task_accounted(strategy, now, grouped@);
        lemma_slots_honoured(strategy, now, grouped@);
        lemma_timetable_ordered(all_entries(strategy, now, grouped@));
    }
    if !check_references(&grouped) {
        return Err(Inconsistency::UnknownSegment);
    }
    if !check_all_ranges(&grouped) {
        return Err(Inconsistency::EmptyRange);
    }
    let ghost given = grouped@;
    let mut entries: Vec<Allocation> = Vec::new();
    let mut unassigned: Vec<Task> = Vec::new();
    for group in it: grouped
        invariant
            it.seq() == given,
            ranges_valid(given),
            entries@ == all_entries(strategy, now, given.take(it.index() as int)),
            unassigned@ == all_loose(given.take(it.index() as int)),
    {
        proof {
            assert(given.take(it.index() + 1).drop_last() =~= given.take(it.index() as int));
        }
        let (segment, tasks) = group;
        let (with, mut without) = split(tasks);
        let ranked = rank(with, strategy, now);
        match pack(ranked, &segment.ranges) {
            Ok(mut packed) => {
                entries.append(&mut packed);
            },
            Err(inconsistency) => {
                return Err(inconsistency);
            },
        }
        unassigned.append(&mut without);
    }
    assert(given.take(given.len() as int) =~= given);
    let first = |a: &Allocation, b: &Allocation| -> (first: bool)
        ensures
            first == starts_before(*a, *b),
        { is_before(a, b) };
    let entries = stable_sort_by(entries, first, Ghost(slot_order()));
    Ok(Schedule { entries, unassigned })
}

} // verus!
