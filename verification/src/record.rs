use vstd::prelude::*;
use vstd::std_specs::convert::FromSpecImpl;
use crate::compose::{consistent, group_consistent, knows, refers_well};
use crate::error::Error;
use crate::model::{Inconsistency, NewTask, NewTimeSegment, Task, TimeRange, TimeSegment};

verus! {

/// A task as the store keeps it: every number in 32 bits, times in seconds.
#[derive(Clone, Debug, PartialEq, Eq)]
pub struct TaskRecord {
    pub id: i32,
    pub content: String,
    pub deadline: i32,
    pub duration: i32,
    pub importance: i32,
    pub time_segment_id: Option<i32>,
}

/// A task as it is handed to the store to be kept.
#[derive(Clone, Debug, PartialEq, Eq)]
pub struct NewTaskRecord {
    pub content: String,
    pub deadline: i32,
    pub duration: i32,
    pub importance: i32,
    pub time_segment_id: Option<i32>,
}

/// What the store is told to put in place of the task with this id.
#[derive(Clone, Debug, PartialEq, Eq)]
pub struct UpdatedTaskRecord {
    pub id: i32,
    pub content: String,
    pub deadline: i32,
    pub duration: i32,
    pub importance: i32,
}

/// A segment as the store keeps it; its ranges are kept apart.
#[derive(Clone, Debug, PartialEq, Eq)]
pub struct TimeSegmentRecord {
    pub id: i32,
    pub name: String,
}

/// A segment as it is handed to the store to be kept.
#[derive(Clone, Debug, PartialEq, Eq)]
pub struct NewTimeSegmentRecord {
    pub name: String,
}

/// A range as the store keeps it, with the segment that it belongs to.
#[derive(Clone, Copy, Debug, PartialEq, Eq, Structural)]
pub struct TimeRangeRecord {
    pub id: i32,
    pub time_segment_id: i32,
    pub from: i32,
    pub to: i32,
}

/// A range as it is handed to the store to be kept.
#[derive(Clone, Copy, Debug, PartialEq, Eq, Structural)]
pub struct NewTimeRangeRecord {
    pub time_segment_id: i32,
    pub from: i32,
    pub to: i32,
}

/// The id of a segment as the store writes it: the low 32 bits.
pub open spec fn stored_segment(segment_id: Option<u32>) -> Option<i32> {
    match segment_id {
        Some(id) => Some(id as i32),
        None => None,
    }
}

/// The id of a segment as the engine reads it: the low 32 bits.
pub open spec fn loaded_segment(segment_id: Option<i32>) -> Option<u32> {
    match segment_id {
        Some(id) => Some(id as u32),
        None => None,
    }
}

/// The new task as the store keeps it.
pub open spec fn new_record_of(task: NewTask) -> NewTaskRecord {
    NewTaskRecord {
        content: task.content,
        deadline: task.deadline as i32,
        duration: task.duration as i32,
        importance: task.importance as i32,
        time_segment_id: stored_segment(task.segment_id),
    }
}

/// The changed task as the store keeps it.
pub open spec fn updated_record_of(task: Task) -> UpdatedTaskRecord {
    UpdatedTaskRecord {
        id: task.id as i32,
        content: task.content,
        deadline: task.deadline as i32,
        duration: task.duration as i32,
        importance: task.importance as i32,
    }
}

/// The number is one that 32 bits with a sign can hold.
pub open spec fn fits_record(number: int) -> bool {
    i32::MIN <= number <= i32::MAX
}

/// Every number of the task is one that the store can hold.
pub open spec fn storable(task: Task) -> bool {
    &&& fits_record(task.id as int)
    &&& fits_record(task.deadline as int)
    &&& fits_record(task.duration as int)
    &&& fits_record(task.importance as int)
    &&& task.segment_id matches Some(id) ==> fits_record(id as int)
}

/// A task that the store can hold is read back as it was written: the row that an update
/// leaves behind, with the segment that the task belongs to, is the task again.
pub proof fn lemma_stored_task_read_back(task: Task)
    requires
        storable(task),
    ensures
        task_of(
            TaskRecord {
                id: updated_record_of(task).id,
                content: updated_record_of(task).content,
                deadline: updated_record_of(task).deadline,
                duration: updated_record_of(task).duration,
                importance: updated_record_of(task).importance,
                time_segment_id: stored_segment(task.segment_id),
            },
        ) == task,
{
}

/// A new task that the store can hold is read back as it was written, under the id that
/// the store gave it.
pub proof fn lemma_new_task_read_back(task: NewTask, id: i32)
    requires
        0 <= id,
        fits_record(task.deadline as int),
        fits_record(task.duration as int),
        fits_record(task.importance as int),
        task.segment_id matches Some(segment) ==> fits_record(segment as int),
    ensures
        task_of(
            TaskRecord {
                id,
                content: new_record_of(task).content,
                deadline: new_record_of(task).deadline,
                duration: new_record_of(task).duration,
                importance: new_record_of(task).importance,
                time_segment_id: new_record_of(task).time_segment_id,
            },
        ) == (Task {
            id: id as u32,
            content: task.content,
            deadline: task.deadline,
            duration: task.duration,
            importance: task.importance,
            segment_id: task.segment_id,
        }),
{
}

/// The task as the engine reads it.
pub open spec fn task_of(record: TaskRecord) -> Task {
    Task {
        id: record.id as u32,
        content: record.content,
        deadline: record.deadline as i64,
        duration: record.duration as i64,
        importance: record.importance as u32,
        segment_id: loaded_segment(record.time_segment_id),
    }
}

impl From<NewTask> for NewTaskRecord {
    fn from(task: NewTask) -> (record: NewTaskRecord) {
        NewTaskRecord {
            content: task.content,
            deadline: #[verifier::truncate] (task.deadline as i32),
            duration: #[verifier::truncate] (task.duration as i32),
            importance: #[verifier::truncate] (task.importance as i32),
            time_segment_id: match task.segment_id {
                Some(id) => Some(#[verifier::truncate] (id as i32)),
                None => None,
            },
        }
    }
}

/// A new task goes to the store with its numbers cut to 32 bits: a number that fits is
/// kept, of any other the low 32 bits are.
impl FromSpecImpl<NewTask> for NewTaskRecord {
    open spec fn obeys_from_spec() -> bool {
        true
    }

    open spec fn from_spec(task: NewTask) -> NewTaskRecord {
        new_record_of(task)
    }
}

impl From<Task> for UpdatedTaskRecord {
    fn from(task: Task) -> (record: UpdatedTaskRecord) {
        UpdatedTaskRecord {
            id: #[verifier::truncate] (task.id as i32),
            content: task.content,
            deadline: #[verifier::truncate] (task.deadline as i32),
            duration: #[verifier::truncate] (task.duration as i32),
            importance: #[verifier::truncate] (task.importance as i32),
        }
    }
}

/// A changed task goes to the store under its id, with its numbers cut to 32 bits.
impl FromSpecImpl<Task> for UpdatedTaskRecord {
    open spec fn obeys_from_spec() -> bool {
        true
    }

    open spec fn from_spec(task: Task) -> UpdatedTaskRecord {
        updated_record_of(task)
    }
}

impl From<TaskRecord> for Task {
    fn from(record: TaskRecord) -> (task: Task) {
        Task {
            id: #[verifier::truncate] (record.id as u32),
            content: record.content,
            deadline: record.deadline as i64,
            duration: record.duration as i64,
            importance: #[verifier::truncate] (record.importance as u32),
            segment_id: match record.time_segment_id {
                Some(id) => Some(#[verifier::truncate] (id as u32)),
                None => None,
            },
        }
    }
}

/// A task comes from the store with its times as they are kept, and its id and
/// importance read as numbers without a sign.
impl FromSpecImpl<TaskRecord> for Task {
    open spec fn obeys_from_spec() -> bool {
        true
    }

    open spec fn from_spec(record: TaskRecord) -> Task {
        task_of(record)
    }
}

impl From<NewTimeSegment> for NewTimeSegmentRecord {
    fn from(segment: NewTimeSegment) -> (record: NewTimeSegmentRecord) {
        NewTimeSegmentRecord { name: segment.name }
    }
}

/// Of a new segment the store keeps the name; its ranges go to the store apart.
impl FromSpecImpl<NewTimeSegment> for NewTimeSegmentRecord {
    open spec fn obeys_from_spec() -> bool {
        true
    }

    open spec fn from_spec(segment: NewTimeSegment) -> NewTimeSegmentRecord {
        NewTimeSegmentRecord { name: segment.name }
    }
}

/// The range as the engine reads it.
pub open spec fn range_of(record: TimeRangeRecord) -> TimeRange {
    TimeRange { from: record.from as i64, to: record.to as i64 }
}

/// The ranges as the engine reads them, in the order given.
pub open spec fn ranges_of(records: Seq<TimeRangeRecord>) -> Seq<TimeRange> {
    records.map_values(|record: TimeRangeRecord| range_of(record))
}

/// The ranges as the store keeps them for the segment with the id `segment_id`, in the
/// order given, each cut to 32 bits.
pub open spec fn stored_ranges(segment_id: i32, ranges: Seq<TimeRange>) -> Seq<NewTimeRangeRecord> {
    ranges.map_values(
        |range: TimeRange|
            NewTimeRangeRecord {
                time_segment_id: segment_id,
                from: range.from as i32,
                to: range.to as i32,
            },
    )
}

impl TimeSegment {
    /// The segment that the store keeps as `record`, with `ranges` as its ranges.
    pub fn from_records(
        record: TimeSegmentRecord,
        ranges: &Vec<TimeRangeRecord>,
    ) -> (segment: TimeSegment)
        ensures
            segment.id == record.id as u32,
            segment.name == record.name,
            segment.ranges@ == ranges_of(ranges@),
    {
        let mut read: Vec<TimeRange> = Vec::new();
        let mut k: usize = 0;
        while k < ranges.len()
            invariant
                k <= ranges.len(),
                read@ == ranges_of(ranges@.take(k as int)),
            decreases ranges.len() - k,
        {
            proof {
                assert(ranges_of(ranges@.take(k + 1)) =~= ranges_of(ranges@.take(k as int)).push(
                    range_of(ranges@[k as int]),
                ));
            }
            read.push(TimeRange { from: ranges[k].from as i64, to: ranges[k].to as i64 });
            k += 1;
        }
        TimeSegment {
            id: #[verifier::truncate] (record.id as u32),
            name: record.name,
            ranges: read,
        }
    }
}

/// The ranges of a new segment as they go to the store, once the store has given the
/// segment its id.
pub fn ranges_to_store(segment_id: i32, ranges: &Vec<TimeRange>) -> (records: Vec<
    NewTimeRangeRecord,
>)
    ensures
        records@ == stored_ranges(segment_id, ranges@),
{
    let mut records: Vec<NewTimeRangeRecord> = Vec::new();
    let mut k: usize = 0;
    while k < ranges.len()
        invariant
            k <= ranges.len(),
            records@ == stored_ranges(segment_id, ranges@.take(k as int)),
        decreases ranges.len() - k,
    {
        proof {
            assert(stored_ranges(segment_id, ranges@.take(k + 1)) =~= stored_ranges(
                segment_id,
                ranges@.take(k as int),
            ).push(
                NewTimeRangeRecord {
                    time_segment_id: segment_id,
                    from: ranges@[k as int].from as i32,
                    to: ranges@[k as int].to as i32,
                },
            ));
        }
        records.push(
            NewTimeRangeRecord {
                time_segment_id: segment_id,
                from: #[verifier::truncate] (ranges[k].from as i32),
                to: #[verifier::truncate] (ranges[k].to as i32),
            },
        );
        k += 1;
    }
    records
}

/// The place of the segment that takes what names `id`: the last of the segments with
/// that id, if there is one.
pub open spec fn home(segments: Seq<TimeSegmentRecord>, id: i32) -> Option<int>
    decreases segments.len(),
{
    if segments.len() == 0 {
        None
    } else if segments.last().id == id {
        Some(segments.len() - 1)
    } else {
        home(segments.drop_last(), id)
    }
}

/// The range belongs to the segment at place `g`.
pub open spec fn range_lives_at(
    segments: Seq<TimeSegmentRecord>,
    range: TimeRangeRecord,
    g: int,
) -> bool {
    home(segments, range.time_segment_id) == Some(g)
}

/// The task belongs to the segment at place `g`.
pub open spec fn task_lives_at(
    segments: Seq<TimeSegmentRecord>,
    task: TaskRecord,
    g: int,
) -> bool {
    task.time_segment_id matches Some(id) && home(segments, id) == Some(g)
}

/// The ranges of the segment at place `g`, in the order in which the store gave them.
pub open spec fn ranges_at(
    segments: Seq<TimeSegmentRecord>,
    ranges: Seq<TimeRangeRecord>,
    g: int,
) -> Seq<TimeRange>
    decreases ranges.len(),
{
    if ranges.len() == 0 {
        Seq::empty()
    } else if range_lives_at(segments, ranges.last(), g) {
        ranges_at(segments, ranges.drop_last(), g).push(range_of(ranges.last()))
    } else {
        ranges_at(segments, ranges.drop_last(), g)
    }
}

/// The tasks of the segment at place `g`, in the order in which the store gave them.
pub open spec fn tasks_at(segments: Seq<TimeSegmentRecord>, tasks: Seq<TaskRecord>, g: int) -> Seq<
    Task,
>
    decreases tasks.len(),
{
    if tasks.len() == 0 {
        Seq::empty()
    } else if task_lives_at(segments, tasks.last(), g) {
        tasks_at(segments, tasks.drop_last(), g).push(task_of(tasks.last()))
    } else {
        tasks_at(segments, tasks.drop_last(), g)
    }
}

/// Every range, and every task that names a segment, names one of the segments.
pub open spec fn homed(
    segments: Seq<TimeSegmentRecord>,
    ranges: Seq<TimeRangeRecord>,
    tasks: Seq<TaskRecord>,
) -> bool {
    &&& forall|k: int|
        0 <= k < ranges.len() ==> home(segments, (#[trigger] ranges[k]).time_segment_id) is Some
    &&& forall|i: int|
        0 <= i < tasks.len() ==> ((#[trigger] tasks[i]).time_segment_id matches Some(id) ==> home(
            segments,
            id,
        ) is Some)
}

/// The groups are the segments, in their order, each with its ranges and its tasks.
pub open spec fn grouped_by(
    groups: Seq<(TimeSegment, Vec<Task>)>,
    segments: Seq<TimeSegmentRecord>,
    ranges: Seq<TimeRangeRecord>,
    tasks: Seq<TaskRecord>,
) -> bool {
    &&& groups.len() == segments.len()
    &&& forall|g: int|
        0 <= g < groups.len() ==> {
            &&& (#[trigger] groups[g]).0.id == segments[g].id as u32
            &&& groups[g].0.name == segments[g].name
            &&& groups[g].0.ranges@ == ranges_at(segments, ranges, g)
            &&& groups[g].1@ == tasks_at(segments, tasks, g)
        }
}

/// The home of an id is a segment with that id, and no segment behind it has the id.
pub proof fn lemma_home(segments: Seq<TimeSegmentRecord>, id: i32)
    ensures
        match home(segments, id) {
            Some(g) => 0 <= g < segments.len() && segments[g].id == id && forall|h: int|
                g < h < segments.len() ==> (#[trigger] segments[h]).id != id,
            None => forall|h: int| 0 <= h < segments.len() ==> (#[trigger] segments[h]).id != id,
        },
    decreases segments.len(),
{
    if segments.len() > 0 && segments.last().id != id {
        let init = segments.drop_last();
        lemma_home(init, id);
        match home(init, id) {
            Some(g) => {
                assert forall|h: int| g < h < segments.len() implies (#[trigger] segments[h]).id
                    != id by {
                    if h < init.len() {
                        assert(init[h] == segments[h]);
                    }
                }
            },
            None => {
                assert forall|h: int| 0 <= h < segments.len() implies (#[trigger] segments[h]).id
                    != id by {
                    if h < init.len() {
                        assert(init[h] == segments[h]);
                    }
                }
            },
        }
    }
}

/// The task is one of the store's that belong to the segment at place `g`.
pub open spec fn task_from(
    task: Task,
    segments: Seq<TimeSegmentRecord>,
    tasks: Seq<TaskRecord>,
    g: int,
) -> bool {
    exists|j: int|
        0 <= j < tasks.len() && task_lives_at(segments, #[trigger] tasks[j], g) && task
            == task_of(tasks[j])
}

/// Every task of a segment is a task of the store that names the segment.
pub proof fn lemma_tasks_at(segments: Seq<TimeSegmentRecord>, tasks: Seq<TaskRecord>, g: int)
    ensures
        forall|i: int|
            0 <= i < tasks_at(segments, tasks, g).len() ==> task_from(
                #[trigger] tasks_at(segments, tasks, g)[i],
                segments,
                tasks,
                g,
            ),
    decreases tasks.len(),
{
    if tasks.len() > 0 {
        let init = tasks.drop_last();
        lemma_tasks_at(segments, init, g);
        assert forall|i: int| 0 <= i < tasks_at(segments, tasks, g).len() implies task_from(
            #[trigger] tasks_at(segments, tasks, g)[i],
            segments,
            tasks,
            g,
        ) by {
            if i < tasks_at(segments, init, g).len() {
                let task = tasks_at(segments, init, g)[i];
                let j = choose|j: int|
                    0 <= j < init.len() && task_lives_at(segments, #[trigger] init[j], g) && task
                        == task_of(init[j]);
                assert(tasks[j] == init[j]);
            }
        }
    }
}

/// No task that names a segment is lost: it is among the tasks of the segment's place.
pub proof fn lemma_task_grouped(
    segments: Seq<TimeSegmentRecord>,
    tasks: Seq<TaskRecord>,
    j: int,
    g: int,
)
    requires
        0 <= j < tasks.len(),
        task_lives_at(segments, tasks[j], g),
    ensures
        tasks_at(segments, tasks, g).contains(task_of(tasks[j])),
    decreases tasks.len(),
{
    let init = tasks.drop_last();
    if j < init.len() {
        lemma_task_grouped(segments, init, j, g);
        let at = choose|at: int|
            0 <= at < tasks_at(segments, init, g).len() && tasks_at(segments, init, g)[at]
                == task_of(tasks[j]);
        assert(tasks_at(segments, tasks, g)[at] == task_of(tasks[j]));
    } else {
        assert(tasks_at(segments, tasks, g).last() == task_of(tasks[j]));
    }
}

/// No range is lost where its segment is there: it is among the ranges of the segment's
/// place.
pub proof fn lemma_range_grouped(
    segments: Seq<TimeSegmentRecord>,
    ranges: Seq<TimeRangeRecord>,
    k: int,
    g: int,
)
    requires
        0 <= k < ranges.len(),
        range_lives_at(segments, ranges[k], g),
    ensures
        ranges_at(segments, ranges, g).contains(range_of(ranges[k])),
    decreases ranges.len(),
{
    let init = ranges.drop_last();
    if k < init.len() {
        lemma_range_grouped(segments, init, k, g);
        let at = choose|at: int|
            0 <= at < ranges_at(segments, init, g).len() && ranges_at(segments, init, g)[at]
                == range_of(ranges[k]);
        assert(ranges_at(segments, ranges, g)[at] == range_of(ranges[k]));
    } else {
        assert(ranges_at(segments, ranges, g).last() == range_of(ranges[k]));
    }
}

/// Groups made from the store's records fit together: every task names the segment of
/// its group, so none names a segment that is missing.
pub proof fn lemma_groups_consistent(
    groups: Seq<(TimeSegment, Vec<Task>)>,
    segments: Seq<TimeSegmentRecord>,
    ranges: Seq<TimeRangeRecord>,
    tasks: Seq<TaskRecord>,
)
    requires
        grouped_by(groups, segments, ranges, tasks),
    ensures
        forall|g: int, i: int|
            0 <= g < groups.len() && 0 <= i < groups[g].1@.len() ==> (
            #[trigger] groups[g].1@[i]).segment_id == Some(groups[g].0.id),
        consistent(groups),
{
    assert forall|g: int, i: int| 0 <= g < groups.len() && 0 <= i < groups[g].1@.len() implies (
    #[trigger] groups[g].1@[i]).segment_id == Some(groups[g].0.id) by {
        lemma_tasks_at(segments, tasks, g);
        let task = tasks_at(segments, tasks, g)[i];
        let j = choose|j: int|
            0 <= j < tasks.len() && task_lives_at(segments, #[trigger] tasks[j], g) && task
                == task_of(tasks[j]);
        lemma_home(segments, tasks[j].time_segment_id->0);
    }
    assert forall|g: int| 0 <= g < groups.len() implies group_consistent(
        (#[trigger] groups[g]).1@,
        groups,
    ) by {
        assert forall|i: int| 0 <= i < groups[g].1@.len() implies refers_well(
            #[trigger] groups[g].1@[i],
            groups,
        ) by {}
    }
}

/// The place of the segment that takes what names `id`.
pub fn find_home(segments: &Vec<TimeSegmentRecord>, id: i32) -> (found: Option<usize>)
    ensures
        match found {
            Some(g) => home(segments@, id) == Some(g as int),
            None => home(segments@, id) is None,
        },
{
    let mut g: usize = segments.len();
    assert(segments@.take(g as int) =~= segments@);
    while g > 0
        invariant
            g <= segments.len(),
            home(segments@, id) == home(segments@.take(g as int), id),
        decreases g,
    {
        proof {
            assert(segments@.take(g as int).drop_last() =~= segments@.take(g - 1));
        }
        g -= 1;
        if segments[g].id == id {
            return Some(g);
        }
    }
    None
}

/// The task as the engine reads it.
pub fn read_task(record: &TaskRecord) -> (task: Task)
    ensures
        task == task_of(*record),
{
    Task {
        id: #[verifier::truncate] (record.id as u32),
        content: record.content.clone(),
        deadline: record.deadline as i64,
        duration: record.duration as i64,
        importance: #[verifier::truncate] (record.importance as u32),
        segment_id: match record.time_segment_id {
            Some(id) => Some(#[verifier::truncate] (id as u32)),
            None => None,
        },
    }
}

/// Whether every range, and every task that names a segment, names one of the segments.
pub fn check_homes(
    segments: &Vec<TimeSegmentRecord>,
    ranges: &Vec<TimeRangeRecord>,
    tasks: &Vec<TaskRecord>,
) -> (all: bool)
    ensures
        all == homed(segments@, ranges@, tasks@),
{
    let mut k: usize = 0;
    while k < ranges.len()
        invariant
            k <= ranges.len(),
            forall|j: int|
                0 <= j < k ==> home(segments@, (#[trigger] ranges@[j]).time_segment_id) is Some,
        decreases ranges.len() - k,
    {
        if find_home(segments, ranges[k].time_segment_id).is_none() {
            return false;
        }
        k += 1;
    }
    let mut i: usize = 0;
    while i < tasks.len()
        invariant
            i <= tasks.len(),
            forall|j: int|
                0 <= j < ranges@.len() ==> home(
                    segments@,
                    (#[trigger] ranges@[j]).time_segment_id,
                ) is Some,
            forall|j: int|
                0 <= j < i ==> ((#[trigger] tasks@[j]).time_segment_id matches Some(id) ==> home(
                    segments@,
                    id,
                ) is Some),
        decreases tasks.len() - i,
    {
        match tasks[i].time_segment_id {
            Some(id) => {
                if find_home(segments, id).is_none() {
                    return false;
                }
            },
            None => {},
        }
        i += 1;
    }
    true
}

/// The ranges of the segment at place `g`.
pub fn collect_ranges(
    segments: &Vec<TimeSegmentRecord>,
    ranges: &Vec<TimeRangeRecord>,
    g: usize,
) -> (found: Vec<TimeRange>)
    ensures
        found@ == ranges_at(segments@, ranges@, g as int),
{
    let mut found: Vec<TimeRange> = Vec::new();
    let mut k: usize = 0;
    while k < ranges.len()
        invariant
            k <= ranges.len(),
            found@ == ranges_at(segments@, ranges@.take(k as int), g as int),
        decreases ranges.len() - k,
    {
        proof {
            assert(ranges@.take(k + 1).drop_last() =~= ranges@.take(k as int));
        }
        match find_home(segments, ranges[k].time_segment_id) {
            Some(at) => {
                if at == g {
                    found.push(TimeRange { from: ranges[k].from as i64, to: ranges[k].to as i64 });
                }
            },
            None => {},
        }
        k += 1;
    }
    assert(ranges@.take(ranges@.len() as int) =~= ranges@);
    found
}

/// The tasks of the segment at place `g`.
pub fn collect_tasks(
    segments: &Vec<TimeSegmentRecord>,
    tasks: &Vec<TaskRecord>,
    g: usize,
) -> (found: Vec<Task>)
    ensures
        found@ == tasks_at(segments@, tasks@, g as int),
{
    let mut found: Vec<Task> = Vec::new();
    let mut i: usize = 0;
    while i < tasks.len()
        invariant
            i <= tasks.len(),
            found@ == tasks_at(segments@, tasks@.take(i as int), g as int),
        decreases tasks.len() - i,
    {
        proof {
            assert(tasks@.take(i + 1).drop_last() =~= tasks@.take(i as int));
        }
        match tasks[i].time_segment_id {
            Some(id) => match find_home(segments, id) {
                Some(at) => {
                    if at == g {
                        found.push(read_task(&tasks[i]));
                    }
                },
                None => {},
            },
            None => {},
        }
        i += 1;
    }
    assert(tasks@.take(tasks@.len() as int) =~= tasks@);
    found
}

/// Puts what the store holds into groups: each segment with its ranges and with the tasks
/// that belong to it. Tasks that belong to no segment are in no group. Where a range or a
/// task names a segment that the store did not hand over, nothing is grouped.
pub fn group(
    segments: &Vec<TimeSegmentRecord>,
    ranges: &Vec<TimeRangeRecord>,
    tasks: &Vec<TaskRecord>,
) -> (result: Result<Vec<(TimeSegment, Vec<Task>)>, Error>)
    ensures
        result is Ok <==> homed(segments@, ranges@, tasks@),
        result matches Err(error) ==> error == Error::Inconsistent(Inconsistency::UnknownSegment),
        result matches Ok(groups) ==> grouped_by(groups@, segments@, ranges@, tasks@)
            && consistent(groups@),
{
    if !check_homes(segments, ranges, tasks) {
        return Err(Error::Inconsistent(Inconsistency::UnknownSegment));
    }
    let mut groups: Vec<(TimeSegment, Vec<Task>)> = Vec::new();
    let mut g: usize = 0;
    while g < segments.len()
        invariant
            g <= segments.len(),
            groups@.len() == g,
            forall|h: int|
                0 <= h < g ==> {
                    &&& (#[trigger] groups@[h]).0.id == segments@[h].id as u32
                    &&& groups@[h].0.name == segments@[h].name
                    &&& groups@[h].0.ranges@ == ranges_at(segments@, ranges@, h)
                    &&& groups@[h].1@ == tasks_at(segments@, tasks@, h)
                },
        decreases segments.len() - g,
    {
        let segment = TimeSegment {
            id: #[verifier::truncate] (segments[g].id as u32),
            name: segments[g].name.clone(),
            ranges: collect_ranges(segments, ranges, g),
        };
        let members = collect_tasks(segments, tasks, g);
        groups.push((segment, members));
        g += 1;
    }
    proof {
        lemma_groups_consistent(groups@, segments@, ranges@, tasks@);
    }
    Ok(groups)
}

/// A change or removal must have touched exactly one row of the store. Where it touched
/// none, or more than one, the row was not found or was modified meanwhile, and that is
/// said together with what the store was doing.
pub fn ensure_one_row(affected: usize, during: &str) -> (checked: Result<(), Error>)
    ensures
        affected == 1 ==> checked is Ok,
        affected != 1 ==> (checked matches Err(Error::NotFound(told)) && told@ == during@),
{
    if affected == 1 {
        Ok(())
    } else {
        Err(Error::NotFound(during.to_owned()))
    }
}

} // verus!
