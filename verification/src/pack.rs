use vstd::prelude::*;
use crate::model::{Allocation, Inconsistency, Slot, Task, TimeRange};

verus! {

/// How far a packing has come.
pub struct Packing {
    /// For each range, the instant up to which its time has been handed out.
    pub cursors: Seq<i64>,
    /// What each task was offered, in the order of the tasks.
    pub entries: Seq<Allocation>,
}

/// Every range ends after it starts.
pub open spec fn all_valid(ranges: Seq<TimeRange>) -> bool {
    forall|k: int| 0 <= k < ranges.len() ==> (#[trigger] ranges[k]).valid()
}

/// The slot is a span of time that shares an instant with `span`.
pub open spec fn slot_overlaps(slot: Slot, span: TimeRange) -> bool {
    match slot {
        Slot::At(given) => given.overlaps(span),
        Slot::Unscheduled => false,
    }
}

/// No slot of `entries` shares an instant with `span`.
pub open spec fn free_of(entries: Seq<Allocation>, span: TimeRange) -> bool {
    forall|i: int| 0 <= i < entries.len() ==> !slot_overlaps((#[trigger] entries[i]).slot, span)
}

/// The span that `task` takes where it starts at `cursor`.
pub open spec fn span_at(task: Task, cursor: i64) -> TimeRange {
    TimeRange { from: cursor, to: (cursor + task.duration) as i64 }
}

/// `task` can be served in `range`, whose time is handed out up to `cursor`: what is left of
/// the range is long enough, the task would be done by its deadline, and the span it would
/// take is free. The last guards against ranges that overlap one another.
pub open spec fn fits(task: Task, range: TimeRange, cursor: i64, entries: Seq<Allocation>) -> bool {
    &&& 0 <= task.duration
    &&& cursor + task.duration <= range.to
    &&& cursor + task.duration <= task.deadline
    &&& free_of(entries, span_at(task, cursor))
}

/// The first range from `start` on in which `task` fits.
pub open spec fn first_fit(
    task: Task,
    ranges: Seq<TimeRange>,
    state: Packing,
    start: int,
) -> Option<int>
    decreases ranges.len() - start,
{
    if start < 0 || start >= ranges.len() {
        None
    } else if fits(task, ranges[start], state.cursors[start], state.entries) {
        Some(start)
    } else {
        first_fit(task, ranges, state, start + 1)
    }
}

/// The packing after `task` has been served: it takes the span at the cursor of the first
/// range in which it fits, and that cursor moves to the span's end; where it fits nowhere it
/// goes without a slot and no cursor moves.
pub open spec fn place(state: Packing, task: Task, ranges: Seq<TimeRange>) -> Packing {
    match first_fit(task, ranges, state, 0) {
        Some(k) => {
            let span = span_at(task, state.cursors[k]);
            Packing {
                cursors: state.cursors.update(k, span.to),
                entries: state.entries.push(Allocation { task, slot: Slot::At(span) }),
            }
        },
        None => Packing {
            cursors: state.cursors,
            entries: state.entries.push(Allocation { task, slot: Slot::Unscheduled }),
        },
    }
}

/// The packing before any task is served: every cursor at the start of its range.
pub open spec fn untouched(ranges: Seq<TimeRange>) -> Packing {
    Packing { cursors: Seq::new(ranges.len(), |k: int| ranges[k].from), entries: Seq::empty() }
}

/// The packing after the tasks have been served one by one, in their order.
pub open spec fn packing(tasks: Seq<Task>, ranges: Seq<TimeRange>) -> Packing
    decreases tasks.len(),
{
    if tasks.len() == 0 {
        untouched(ranges)
    } else {
        place(packing(tasks.drop_last(), ranges), tasks.last(), ranges)
    }
}

/// The two slots are not both spans of time with an instant in common.
pub open spec fn apart(a: Slot, b: Slot) -> bool {
    match a {
        Slot::At(span) => !slot_overlaps(b, span),
        Slot::Unscheduled => true,
    }
}

/// A slot that was given is as long as the task, ends by the task's deadline and lies inside
/// one of the ranges.
pub open spec fn honoured(entry: Allocation, ranges: Seq<TimeRange>) -> bool {
    entry.slot matches Slot::At(span) ==> {
        &&& 0 <= entry.task.duration
        &&& span.to - span.from == entry.task.duration
        &&& span.to <= entry.task.deadline
        &&& exists|k: int| 0 <= k < ranges.len() && span.within(#[trigger] ranges[k])
    }
}

/// What holds of every packing of `tasks` into `ranges`.
pub open spec fn sound(state: Packing, tasks: Seq<Task>, ranges: Seq<TimeRange>) -> bool {
    &&& state.cursors.len() == ranges.len()
    &&& state.entries.len() == tasks.len()
    &&& forall|k: int| 0 <= k < ranges.len() ==> ranges[k].from <= #[trigger] state.cursors[k]
    &&& forall|i: int| 0 <= i < tasks.len() ==> (#[trigger] state.entries[i]).task == tasks[i]
    &&& forall|i: int| 0 <= i < tasks.len() ==> honoured(#[trigger] state.entries[i], ranges)
    &&& forall|i: int, j: int|
        0 <= i < j < tasks.len() ==> apart(
            (#[trigger] state.entries[i]).slot,
            (#[trigger] state.entries[j]).slot,
        )
}

/// The range that `first_fit` names is one in which the task fits, and the task fits in
/// none between `start` and it; where it names none the task fits in none from `start` on.
pub proof fn lemma_first_fit(task: Task, ranges: Seq<TimeRange>, state: Packing, start: int)
    requires
        0 <= start,
    ensures
        match first_fit(task, ranges, state, start) {
            Some(k) => {
                &&& start <= k < ranges.len()
                &&& fits(task, ranges[k], state.cursors[k], state.entries)
                &&& forall|j: int|
                    start <= j < k ==> !fits(
                        task,
                        #[trigger] ranges[j],
                        state.cursors[j],
                        state.entries,
                    )
            },
            None => forall|j: int|
                start <= j < ranges.len() ==> !fits(
                    task,
                    #[trigger] ranges[j],
                    state.cursors[j],
                    state.entries,
                ),
        },
    decreases ranges.len() - start,
{
    if start < ranges.len() && !fits(task, ranges[start], state.cursors[start], state.entries) {
        lemma_first_fit(task, ranges, state, start + 1);
    }
}

/// Serving one more task keeps a packing sound.
pub proof fn lemma_place_sound(state: Packing, tasks: Seq<Task>, task: Task, ranges: Seq<TimeRange>)
    requires
        sound(state, tasks, ranges),
    ensures
        sound(place(state, task, ranges), tasks.push(task), ranges),
{
    let next = place(state, task, ranges);
    let more = tasks.push(task);
    lemma_first_fit(task, ranges, state, 0);
    assert forall|i: int| 0 <= i < more.len() implies honoured(
        #[trigger] next.entries[i],
        ranges,
    ) by {}
    assert forall|i: int, j: int| 0 <= i < j < more.len() implies apart(
        (#[trigger] next.entries[i]).slot,
        (#[trigger] next.entries[j]).slot,
    ) by {}
}

/// Every packing is sound.
pub proof fn lemma_packing_sound(tasks: Seq<Task>, ranges: Seq<TimeRange>)
    ensures
        sound(packing(tasks, ranges), tasks, ranges),
    decreases tasks.len(),
{
    if tasks.len() > 0 {
        lemma_packing_sound(tasks.drop_last(), ranges);
        lemma_place_sound(
            packing(tasks.drop_last(), ranges),
            tasks.drop_last(),
            tasks.last(),
            ranges,
        );
    }
}

/// What a task was offered is settled when it is served: the tasks that follow take
/// nothing back and move nothing.
pub proof fn lemma_packing_settled(tasks: Seq<Task>, ranges: Seq<TimeRange>, served: int)
    requires
        0 <= served <= tasks.len(),
    ensures
        packing(tasks.take(served), ranges).entries == packing(tasks, ranges).entries.take(
            served,
        ),
    decreases tasks.len(),
{
    lemma_packing_sound(tasks, ranges);
    if served == tasks.len() {
        assert(tasks.take(served) =~= tasks);
    } else {
        let init = tasks.drop_last();
        lemma_packing_settled(init, ranges, served);
        lemma_packing_sound(init, ranges);
        assert(init.take(served) =~= tasks.take(served));
        assert(packing(init, ranges).entries.take(served) =~= packing(
            tasks,
            ranges,
        ).entries.take(served));
    }
}

/// No two of the ranges share an instant.
pub open spec fn disjoint(ranges: Seq<TimeRange>) -> bool {
    forall|j: int, k: int|
        0 <= j < k < ranges.len() ==> !(#[trigger] ranges[j]).overlaps(#[trigger] ranges[k])
}

/// What is left of `range` behind `cursor` is long enough for `task`, and the task would
/// be done by its deadline.
pub open spec fn has_room(task: Task, range: TimeRange, cursor: i64) -> bool {
    &&& 0 <= task.duration
    &&& cursor + task.duration <= range.to
    &&& cursor + task.duration <= task.deadline
}

/// The slot lies in the part of one of the ranges that has been handed out.
pub open spec fn handed_out(slot: Slot, state: Packing, ranges: Seq<TimeRange>) -> bool {
    slot matches Slot::At(span) ==> exists|k: int|
        0 <= k < ranges.len() && (#[trigger] ranges[k]).from <= span.from && span.to
            <= state.cursors[k]
}

/// Every cursor stands inside its range, and every slot lies in front of a cursor.
pub open spec fn tidy(state: Packing, ranges: Seq<TimeRange>) -> bool {
    &&& state.cursors.len() == ranges.len()
    &&& forall|k: int|
        0 <= k < ranges.len() ==> ranges[k].from <= #[trigger] state.cursors[k] <= ranges[k].to
    &&& forall|i: int|
        0 <= i < state.entries.len() ==> handed_out(
            (#[trigger] state.entries[i]).slot,
            state,
            ranges,
        )
}

/// With ranges that end after they start, every packing is tidy.
pub proof fn lemma_packing_tidy(tasks: Seq<Task>, ranges: Seq<TimeRange>)
    requires
        all_valid(ranges),
    ensures
        tidy(packing(tasks, ranges), ranges),
    decreases tasks.len(),
{
    if tasks.len() > 0 {
        let state = packing(tasks.drop_last(), ranges);
        let task = tasks.last();
        let next = place(state, task, ranges);
        lemma_packing_tidy(tasks.drop_last(), ranges);
        lemma_first_fit(task, ranges, state, 0);
        assert forall|i: int| 0 <= i < next.entries.len() implies handed_out(
            (#[trigger] next.entries[i]).slot,
            next,
            ranges,
        ) by {}
    } else {
        assert forall|k: int| 0 <= k < ranges.len() implies ranges[k].from
            <= #[trigger] untouched(ranges).cursors[k] <= ranges[k].to by {}
    }
}

/// Where the ranges of a segment are as they should be, each ending after it starts and
/// no two sharing an instant, room is all that a task needs: the span that it would take
/// in a range with room is free.
pub proof fn lemma_room_suffices(tasks: Seq<Task>, ranges: Seq<TimeRange>, task: Task, k: int)
    requires
        all_valid(ranges),
        disjoint(ranges),
        0 <= k < ranges.len(),
    ensures
        fits(task, ranges[k], packing(tasks, ranges).cursors[k], packing(tasks, ranges).entries)
            == has_room(task, ranges[k], packing(tasks, ranges).cursors[k]),
{
    let state = packing(tasks, ranges);
    lemma_packing_tidy(tasks, ranges);
    if has_room(task, ranges[k], state.cursors[k]) {
        let wanted = span_at(task, state.cursors[k]);
        assert forall|i: int| 0 <= i < state.entries.len() implies !slot_overlaps(
            (#[trigger] state.entries[i]).slot,
            wanted,
        ) by {}
    }
}

/// No two slots of one packing share an instant.
pub proof fn lemma_no_double_booking(tasks: Seq<Task>, ranges: Seq<TimeRange>, i: int, j: int)
    requires
        0 <= i < tasks.len(),
        0 <= j < tasks.len(),
        i != j,
    ensures
        apart(packing(tasks, ranges).entries[i].slot, packing(tasks, ranges).entries[j].slot),
{
    lemma_packing_sound(tasks, ranges);
}

/// A slot of a packing ends no later than the deadline of the task that holds it.
pub proof fn lemma_deadline_respected(tasks: Seq<Task>, ranges: Seq<TimeRange>, i: int)
    requires
        0 <= i < tasks.len(),
    ensures
        packing(tasks, ranges).entries[i].task == tasks[i],
        packing(tasks, ranges).entries[i].slot matches Slot::At(span) ==> span.to
            <= tasks[i].deadline,
{
    lemma_packing_sound(tasks, ranges);
}

/// Whether every range ends after it starts.
pub fn check_ranges(ranges: &Vec<TimeRange>) -> (valid: bool)
    ensures
        valid == all_valid(ranges@),
{
    let mut k: usize = 0;
    while k < ranges.len()
        invariant
            k <= ranges.len(),
            forall|j: int| 0 <= j < k ==> (#[trigger] ranges@[j]).valid(),
        decreases ranges.len() - k,
    {
        if !ranges[k].is_valid() {
            return false;
        }
        k += 1;
    }
    true
}

/// Whether no two of the ranges share an instant.
pub fn check_disjoint(ranges: &Vec<TimeRange>) -> (clear: bool)
    ensures
        clear == disjoint(ranges@),
{
    let mut k: usize = 0;
    while k < ranges.len()
        invariant
            k <= ranges.len(),
            forall|i: int, j: int|
                0 <= i < j < k ==> !(#[trigger] ranges@[i]).overlaps(#[trigger] ranges@[j]),
        decreases ranges.len() - k,
    {
        let mut j: usize = 0;
        while j < k
            invariant
                j <= k < ranges.len(),
                forall|i: int| 0 <= i < j ==> !(#[trigger] ranges@[i]).overlaps(ranges@[k as int]),
            decreases k - j,
        {
            if ranges[j].intersects(&ranges[k]) {
                return false;
            }
            j += 1;
        }
        k += 1;
    }
    true
}

/// Whether no slot handed out so far shares an instant with `span`.
pub fn is_free(entries: &Vec<Allocation>, span: &TimeRange) -> (free: bool)
    ensures
        free == free_of(entries@, *span),
{
    let mut i: usize = 0;
    while i < entries.len()
        invariant
            i <= entries.len(),
            forall|j: int| 0 <= j < i ==> !slot_overlaps((#[trigger] entries@[j]).slot, *span),
        decreases entries.len() - i,
    {
        match entries[i].slot {
            Slot::At(given) => {
                if given.intersects(span) {
                    return false;
                }
            },
            Slot::Unscheduled => {},
        }
        i += 1;
    }
    true
}

/// The first range in which `task` fits, if there is one. Without a cursor for every range
/// there is none.
pub fn find_fit(
    task: &Task,
    ranges: &Vec<TimeRange>,
    cursors: &Vec<i64>,
    entries: &Vec<Allocation>,
) -> (found: Option<usize>)
    ensures
        cursors.len() != ranges.len() ==> found is None,
        cursors.len() == ranges.len() ==> match found {
            Some(k) => first_fit(
                *task,
                ranges@,
                Packing { cursors: cursors@, entries: entries@ },
                0,
            ) == Some(k as int),
            None => first_fit(*task, ranges@, Packing { cursors: cursors@, entries: entries@ }, 0)
                is None,
        },
{
    if cursors.len() != ranges.len() {
        return None;
    }
    let ghost state = Packing { cursors: cursors@, entries: entries@ };
    let mut k: usize = 0;
    while k < ranges.len()
        invariant
            k <= ranges.len(),
            cursors.len() == ranges.len(),
            state == (Packing { cursors: cursors@, entries: entries@ }),
            first_fit(*task, ranges@, state, 0) == first_fit(*task, ranges@, state, k as int),
        decreases ranges.len() - k,
    {
        if task.duration >= 0 {
            let end: i128 = cursors[k] as i128 + task.duration as i128;
            if end <= ranges[k].to as i128 && end <= task.deadline as i128 {
                let span = TimeRange { from: cursors[k], to: end as i64 };
                if is_free(entries, &span) {
                    return Some(k);
                }
            }
        }
        k += 1;
    }
    None
}

/// The first range in which `task` fits, where room is known to be all that it needs.
fn find_room(
    task: &Task,
    ranges: &Vec<TimeRange>,
    cursors: &Vec<i64>,
    Ghost(entries): Ghost<Seq<Allocation>>,
) -> (found: Option<usize>)
    requires
        cursors.len() == ranges.len(),
        forall|k: int|
            0 <= k < ranges.len() ==> fits(*task, #[trigger] ranges[k], cursors[k], entries)
                == has_room(*task, ranges[k], cursors[k]),
    ensures
        match found {
            Some(k) => first_fit(*task, ranges@, Packing { cursors: cursors@, entries }, 0)
                == Some(k as int),
            None => first_fit(*task, ranges@, Packing { cursors: cursors@, entries }, 0) is None,
        },
{
    let ghost state = Packing { cursors: cursors@, entries };
    let mut k: usize = 0;
    while k < ranges.len()
        invariant
            k <= ranges.len(),
            cursors.len() == ranges.len(),
            state == (Packing { cursors: cursors@, entries }),
            forall|k: int|
                0 <= k < ranges.len() ==> fits(*task, #[trigger] ranges[k], cursors[k], entries)
                    == has_room(*task, ranges[k], cursors[k]),
            first_fit(*task, ranges@, state, 0) == first_fit(*task, ranges@, state, k as int),
        decreases ranges.len() - k,
    {
        if task.duration >= 0 {
            let end: i128 = cursors[k] as i128 + task.duration as i128;
            if end <= ranges[k].to as i128 && end <= task.deadline as i128 {
                return Some(k);
            }
        }
        k += 1;
    }
    None
}

/// Hands out the time of `ranges` to the tasks, in the order in which they are given.
///
/// Each task takes the earliest free time of the first range that can still hold it before
/// its deadline. A task that no range can hold goes without a slot; the tasks behind it are
/// served all the same. Nothing is packed where a range does not end after it starts.
///
/// Where no two ranges share an instant, a span with room is free, and the slots handed
/// out so far need not be searched.
pub fn pack(ranked: Vec<Task>, ranges: &Vec<TimeRange>) -> (result: Result<
    Vec<Allocation>,
    Inconsistency,
>)
    ensures
        all_valid(ranges@) ==> result is Ok,
        !all_valid(ranges@) ==> result == Err::<Vec<Allocation>, Inconsistency>(
            Inconsistency::EmptyRange,
        ),
        result matches Ok(entries) ==> {
            &&& entries@ == packing(ranked@, ranges@).entries
            &&& entries@.len() == ranked@.len()
            &&& forall|i: int|
                0 <= i < entries@.len() ==> (#[trigger] entries@[i]).task == ranked@[i]
            &&& forall|i: int| 0 <= i < entries@.len() ==> honoured(#[trigger] entries@[i], ranges@)
            &&& forall|i: int, j: int|
                0 <= i < j < entries@.len() ==> apart(
                    (#[trigger] entries@[i]).slot,
                    (#[trigger] entries@[j]).slot,
                )
        },
{
    if !check_ranges(ranges) {
        return Err(Inconsistency::EmptyRange);
    }
    let ghost given = ranked@;
    let mut cursors: Vec<i64> = Vec::new();
    let mut k: usize = 0;
    while k < ranges.len()
        invariant
            k <= ranges.len(),
            cursors@.len() == k,
            forall|j: int| 0 <= j < k ==> cursors@[j] == ranges@[j].from,
        decreases ranges.len() - k,
    {
        cursors.push(ranges[k].from);
        k += 1;
    }
    let clear = check_disjoint(ranges);
    let mut entries: Vec<Allocation> = Vec::new();
    for task in it: ranked
        invariant
            it.seq() == given,
            all_valid(ranges@),
            clear == disjoint(ranges@),
            cursors@ == packing(given.take(it.index() as int), ranges@).cursors,
            entries@ == packing(given.take(it.index() as int), ranges@).entries,
    {
        proof {
            lemma_packing_sound(given.take(it.index() as int), ranges@);
            lemma_first_fit(task, ranges@, packing(given.take(it.index() as int), ranges@), 0);
            assert(given.take(it.index() + 1).drop_last() =~= given.take(it.index() as int));
        }
        let found = if clear {
            proof {
                assert forall|k: int| 0 <= k < ranges@.len() implies fits(
                    task,
                    #[trigger] ranges@[k],
                    cursors@[k],
                    entries@,
                ) == has_room(task, ranges@[k], cursors@[k]) by {
                    lemma_room_suffices(given.take(it.index() as int), ranges@, task, k);
                }
            }
            find_room(&task, ranges, &cursors, Ghost(entries@))
        } else {
            find_fit(&task, ranges, &cursors, &entries)
        };
        match found {
            Some(k) => {
                let from = cursors[k];
                let to = (from as i128 + task.duration as i128) as i64;
                cursors.set(k, to);
                entries.push(Allocation { task, slot: Slot::At(TimeRange { from, to }) });
            },
            None => {
                entries.push(Allocation { task, slot: Slot::Unscheduled });
            },
        }
    }
    proof {
        assert(given.take(given.len() as int) =~= given);
        lemma_packing_sound(given, ranges@);
    }
    Ok(entries)
}

} // verus!
