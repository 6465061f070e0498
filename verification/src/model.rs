use vstd::prelude::*;

verus! {

/// The rule by which tasks are put in order before time is handed out.
#[derive(Clone, Copy, Debug, PartialEq, Eq, Structural)]
pub enum SchedulingStrategy {
    /// The most important task first.
    Importance,
    /// The task with the least time to spare first.
    Urgency,
}

impl SchedulingStrategy {
    /// The strategy that `name` names.
    pub open spec fn named(name: Seq<char>) -> Option<SchedulingStrategy> {
        if name == "importance"@ {
            Some(SchedulingStrategy::Importance)
        } else if name == "urgency"@ {
            Some(SchedulingStrategy::Urgency)
        } else {
            None
        }
    }

    /// The name under which the strategy is chosen on the command line and in the
    /// configuration.
    pub fn as_str(&self) -> (name: &'static str)
        ensures
            *self == SchedulingStrategy::Importance ==> name@ == "importance"@,
            *self == SchedulingStrategy::Urgency ==> name@ == "urgency"@,
            SchedulingStrategy::named(name@) == Some(*self),
    {
        proof {
            reveal_strlit("importance");
            reveal_strlit("urgency");
            assert("importance"@.len() == 10);
            assert("urgency"@.len() == 7);
        }
        match *self {
            SchedulingStrategy::Importance => "importance",
            SchedulingStrategy::Urgency => "urgency",
        }
    }
}

/// What the engine is handed from outside: where the tasks are kept and how to rank them.
#[derive(Clone, Debug, PartialEq, Eq)]
pub struct Configuration {
    pub database_path: String,
    pub scheduling_strategy: SchedulingStrategy,
}

/// The half-open span of time `[from, to)`, both in seconds since the epoch.
#[derive(Clone, Copy, Debug, PartialEq, Eq, Structural)]
pub struct TimeRange {
    pub from: i64,
    pub to: i64,
}

impl TimeRange {
    /// A range holds time only where it ends after it starts.
    pub open spec fn valid(self) -> bool {
        self.from < self.to
    }

    /// Some instant lies in both ranges.
    pub open spec fn overlaps(self, other: TimeRange) -> bool {
        &&& self.from < self.to
        &&& other.from < other.to
        &&& self.from < other.to
        &&& other.from < self.to
    }

    /// `self` lies inside `other`.
    pub open spec fn within(self, other: TimeRange) -> bool {
        other.from <= self.from && self.to <= other.to
    }

    /// Whether the range ends after it starts.
    pub fn is_valid(&self) -> (valid: bool)
        ensures
            valid == self.valid(),
    {
        self.from < self.to
    }

    /// Whether some instant lies in both ranges.
    pub fn intersects(&self, other: &TimeRange) -> (hit: bool)
        ensures
            hit == self.overlaps(*other),
    {
        self.from < self.to && other.from < other.to && self.from < other.to && other.from
            < self.to
    }
}

/// Something to do: by when, for how long, and how much it matters.
#[derive(Clone, Debug, PartialEq, Eq)]
pub struct Task {
    pub id: u32,
    pub content: String,
    /// Seconds since the epoch.
    pub deadline: i64,
    /// Seconds of work; a task with a negative duration is never given a slot.
    pub duration: i64,
    pub importance: u32,
    /// The segment whose time the task may use, if it has one.
    pub segment_id: Option<u32>,
}

/// A task that the store has not yet given an id.
#[derive(Clone, Debug, PartialEq, Eq)]
pub struct NewTask {
    pub content: String,
    pub deadline: i64,
    pub duration: i64,
    pub importance: u32,
    pub segment_id: Option<u32>,
}

/// A named context, such as "work", with the spans of time that belong to it.
#[derive(Clone, Debug, PartialEq, Eq)]
pub struct TimeSegment {
    pub id: u32,
    pub name: String,
    pub ranges: Vec<TimeRange>,
}

/// A segment that the store has not yet given an id.
#[derive(Clone, Debug, PartialEq, Eq)]
pub struct NewTimeSegment {
    pub name: String,
    pub ranges: Vec<TimeRange>,
}

/// What a task was offered.
#[derive(Clone, Copy, Debug, PartialEq, Eq, Structural)]
pub enum Slot {
    /// This span of time.
    At(TimeRange),
    /// Nothing: no range had room for the task before its deadline.
    Unscheduled,
}

/// A task together with what it was offered.
#[derive(Clone, Debug, PartialEq, Eq)]
pub struct Allocation {
    pub task: Task,
    pub slot: Slot,
}

/// The outcome of one scheduling pass.
#[derive(Clone, Debug, PartialEq, Eq)]
pub struct Schedule {
    /// The tasks of all segments: first those with a slot, by start time, then those
    /// without one.
    pub entries: Vec<Allocation>,
    /// The tasks that belong to no segment and so took no part in the packing.
    pub unassigned: Vec<Task>,
}

/// Why the engine refused its input.
#[derive(Clone, Copy, Debug, PartialEq, Eq, Structural)]
pub enum Inconsistency {
    /// A range of a segment does not end after it starts.
    EmptyRange,
    /// A task names a segment that is not among those given.
    UnknownSegment,
}

} // verus!
