use vstd::prelude::*;
use crate::compose::{compose, composed};
use crate::error::Error;
use crate::model::{Configuration, NewTask, Schedule, SchedulingStrategy, Task, TimeSegment};
use crate::parse::{number, parse_number, same_text, Field};

verus! {

/// What the user asks for, as far as the words of the command line say it. Deadline,
/// duration and a property's new value are kept as written.
#[derive(Clone, Debug, PartialEq, Eq)]
pub enum Request {
    /// A task is to be added.
    Add { content: String, deadline: String, duration: String, importance: u32 },
    /// The task with this id is to be removed.
    Remove { id: u32 },
    /// One property of the task with this id is to get a new value.
    Update { field: Field, id: u32, value: String },
    /// A schedule is to be drawn up by this strategy.
    Schedule { strategy: SchedulingStrategy },
}

/// A new value for one property of a task.
#[derive(Clone, Debug, PartialEq, Eq)]
pub enum Change {
    /// What is to be done.
    Content(String),
    /// By when, in seconds since the epoch.
    Deadline(i64),
    /// For how long, in seconds.
    Duration(i64),
    /// How much it matters.
    Importance(u32),
}

/// The segment that a task is put in when it is added.
pub const DEFAULT_SEGMENT: u32 = 0;

/// The id that `text` writes.
pub open spec fn id_in(text: Seq<char>) -> Result<u32, Error> {
    match number(text) {
        Some(id) => Ok(id),
        None => Err(Error::InvalidId),
    }
}

/// The importance that `text` writes.
pub open spec fn importance_in(text: Seq<char>) -> Result<u32, Error> {
    match number(text) {
        Some(importance) => Ok(importance),
        None => Err(Error::InvalidImportance),
    }
}

/// The strategy that `name` names.
pub open spec fn strategy_in(name: Seq<char>) -> Result<SchedulingStrategy, Error> {
    match SchedulingStrategy::named(name) {
        Some(strategy) => Ok(strategy),
        None => Err(Error::Usage),
    }
}

/// The task and the property that a change is for.
pub open spec fn target_in(id: Seq<char>, field: Seq<char>) -> Result<(u32, Field), Error> {
    match Field::named(field) {
        None => Err(Error::Usage),
        Some(field) => match number(id) {
            None => Err(Error::InvalidId),
            Some(id) => Ok((id, field)),
        },
    }
}

/// The task after the change: one property has the new value, the others are as they
/// were.
pub open spec fn changed(task: Task, change: Change) -> Task {
    match change {
        Change::Content(content) => Task { content, ..task },
        Change::Deadline(deadline) => Task { deadline, ..task },
        Change::Duration(duration) => Task { duration, ..task },
        Change::Importance(importance) => Task { importance, ..task },
    }
}

/// What a command and the values that follow it ask for. `add` takes content, deadline,
/// duration and importance; `rm` a task id; `set` a property, a task id and a value;
/// `schedule` a strategy, or none, and then the strategy is `preferred`.
pub open spec fn request_for(
    subcommand: Seq<char>,
    values: Seq<String>,
    preferred: SchedulingStrategy,
) -> Result<Request, Error> {
    if subcommand == "add"@ {
        if values.len() != 4 {
            Err(Error::Usage)
        } else {
            match importance_in(values[3]@) {
                Ok(importance) => Ok(
                    Request::Add {
                        content: values[0],
                        deadline: values[1],
                        duration: values[2],
                        importance,
                    },
                ),
                Err(error) => Err(error),
            }
        }
    } else if subcommand == "rm"@ {
        if values.len() != 1 {
            Err(Error::Usage)
        } else {
            match id_in(values[0]@) {
                Ok(id) => Ok(Request::Remove { id }),
                Err(error) => Err(error),
            }
        }
    } else if subcommand == "set"@ {
        if values.len() != 3 {
            Err(Error::Usage)
        } else {
            match target_in(values[1]@, values[0]@) {
                Ok(target) => Ok(
                    Request::Update { field: target.1, id: target.0, value: values[2] },
                ),
                Err(error) => Err(error),
            }
        }
    } else if subcommand == "schedule"@ {
        if values.len() == 0 {
            Ok(Request::Schedule { strategy: preferred })
        } else if values.len() == 1 {
            match strategy_in(values[0]@) {
                Ok(strategy) => Ok(Request::Schedule { strategy }),
                Err(error) => Err(error),
            }
        } else {
            Err(Error::Usage)
        }
    } else {
        Err(Error::Usage)
    }
}

/// The schedule, or the reason why there is none, for what the store holds.
pub open spec fn scheduled(
    strategy: SchedulingStrategy,
    now: i64,
    grouped: Seq<(TimeSegment, Vec<Task>)>,
    result: Result<Schedule, Error>,
) -> bool {
    match result {
        Ok(schedule) => composed(strategy, now, grouped, Ok(schedule)),
        Err(Error::Inconsistent(inconsistency)) => composed(
            strategy,
            now,
            grouped,
            Err(inconsistency),
        ),
        Err(_) => false,
    }
}

/// Reads the importance of a task.
pub fn importance(text: &str) -> (read: Result<u32, Error>)
    ensures
        read == importance_in(text@),
{
    match parse_number(text) {
        Some(importance) => Ok(importance),
        None => Err(Error::InvalidImportance),
    }
}

/// Makes the task that is to be added. It belongs to the default segment.
pub fn add(content: &str, deadline: i64, duration: i64, importance: u32) -> (made: NewTask)
    ensures
        made.content@ == content@,
        made.deadline == deadline,
        made.duration == duration,
        made.importance == importance,
        made.segment_id == Some(DEFAULT_SEGMENT),
{
    NewTask {
        content: content.to_owned(),
        deadline,
        duration,
        importance,
        segment_id: Some(DEFAULT_SEGMENT),
    }
}

/// Reads the id of the task that is to be removed.
pub fn rm(id: &str) -> (read: Result<u32, Error>)
    ensures
        read == id_in(id@),
{
    match parse_number(id) {
        Some(id) => Ok(id),
        None => Err(Error::InvalidId),
    }
}

/// Reads which property of which task is to be changed.
pub fn set(id: &str, field: &str) -> (read: Result<(u32, Field), Error>)
    ensures
        read == target_in(id@, field@),
{
    match Field::from_name(field) {
        None => Err(Error::Usage),
        Some(field) => match rm(id) {
            Ok(id) => Ok((id, field)),
            Err(error) => Err(error),
        },
    }
}

/// Gives one property of the task its new value.
pub fn set_field(task: Task, change: Change) -> (after: Task)
    ensures
        after == changed(task, change),
{
    let mut task = task;
    match change {
        Change::Content(content) => {
            task.content = content;
        },
        Change::Deadline(deadline) => {
            task.deadline = deadline;
        },
        Change::Duration(duration) => {
            task.duration = duration;
        },
        Change::Importance(importance) => {
            task.importance = importance;
        },
    }
    task
}

/// Draws up the schedule for what the store holds, by the strategy of the given name.
pub fn schedule(
    strategy: &str,
    now: i64,
    grouped: Vec<(TimeSegment, Vec<Task>)>,
) -> (result: Result<Schedule, Error>)
    ensures
        match strategy_in(strategy@) {
            Ok(strategy) => scheduled(strategy, now, grouped@, result),
            Err(error) => result == Err::<Schedule, Error>(error),
        },
{
    match SchedulingStrategy::from_name(strategy) {
        None => Err(Error::Usage),
        Some(strategy) => match compose(strategy, now, grouped) {
            Ok(schedule) => Ok(schedule),
            Err(inconsistency) => Err(Error::Inconsistent(inconsistency)),
        },
    }
}

/// Decides what a command and its values ask for.
pub fn dispatch(
    subcommand: &str,
    values: &Vec<String>,
    configuration: &Configuration,
) -> (result: Result<Request, Error>)
    ensures
        result == request_for(subcommand@, values@, configuration.scheduling_strategy),
{
    if same_text(subcommand, "add") {
        if values.len() != 4 {
            return Err(Error::Usage);
        }
        match self::importance(values[3].as_str()) {
            Ok(importance) => Ok(
                Request::Add {
                    content: values[0].clone(),
                    deadline: values[1].clone(),
                    duration: values[2].clone(),
                    importance,
                },
            ),
            Err(error) => Err(error),
        }
    } else if same_text(subcommand, "rm") {
        if values.len() != 1 {
            return Err(Error::Usage);
        }
        match rm(values[0].as_str()) {
            Ok(id) => Ok(Request::Remove { id }),
            Err(error) => Err(error),
        }
    } else if same_text(subcommand, "set") {
        if values.len() != 3 {
            return Err(Error::Usage);
        }
        match set(values[1].as_str(), values[0].as_str()) {
            Ok(target) => Ok(
                Request::Update { field: target.1, id: target.0, value: values[2].clone() },
            ),
            Err(error) => Err(error),
        }
    } else if same_text(subcommand, "schedule") {
        if values.len() == 0 {
            Ok(Request::Schedule { strategy: configuration.scheduling_strategy })
        } else if values.len() == 1 {
            match SchedulingStrategy::from_name(values[0].as_str()) {
                Some(strategy) => Ok(Request::Schedule { strategy }),
                None => Err(Error::Usage),
            }
        } else {
            Err(Error::Usage)
        }
    } else {
        Err(Error::Usage)
    }
}

/// Handles one invocation up to the point where the store comes in: without a
/// configuration nothing is done, with one the command line is read.
pub fn run(
    configuration: Result<Configuration, Error>,
    subcommand: &str,
    values: &Vec<String>,
) -> (result: Result<Request, Error>)
    ensures
        match configuration {
            Ok(configuration) => result == request_for(
                subcommand@,
                values@,
                configuration.scheduling_strategy,
            ),
            Err(error) => result == Err::<Request, Error>(error),
        },
{
    match configuration {
        Ok(configuration) => dispatch(subcommand, values, &configuration),
        Err(error) => Err(error),
    }
}

} // verus!
