use eva::command::{
    dispatch, importance, rm, run, schedule, set_field, Change, Request, DEFAULT_SEGMENT,
};
use eva::error::Error;
use eva::model::{
    Configuration, Inconsistency, NewTask, SchedulingStrategy, Slot, Task, TimeRange, TimeSegment,
};
use eva::parse::{parse_number, same_text, Field};

fn settings(strategy: SchedulingStrategy) -> Configuration {
    Configuration { database_path: "~/.eva/db.sqlite".to_string(), scheduling_strategy: strategy }
}

fn words(values: &[&str]) -> Vec<String> {
    values.iter().map(|value| value.to_string()).collect()
}

fn sample() -> Task {
    Task {
        id: 3,
        content: "do me".to_string(),
        deadline: 1_500_000_000,
        duration: 6,
        importance: 42,
        segment_id: Some(2),
    }
}

#[test]
fn numbers_are_read_as_std_reads_them() {
    let texts = [
        "0", "7", "42", "+7", "007", "+0", "4294967295", "4294967296", "99999999999999999999999",
        "0000000000000000000000000000000000000004294967295", "", "+", "++1", "-1", "-0", "1 ",
        " 1", "1_000", "12a", "a12", "1.5", "1+", "٣", "١٢", "+٣", "0x10", "１２",
    ];
    for text in texts {
        assert_eq!(parse_number(text), text.parse::<u32>().ok(), "reading {:?}", text);
    }
}

#[test]
fn numbers_have_their_value() {
    assert_eq!(parse_number("0"), Some(0));
    assert_eq!(parse_number("100"), Some(100));
    assert_eq!(parse_number("+4294967295"), Some(u32::MAX));
    assert_eq!(parse_number("4294967296"), None);
    assert_eq!(parse_number("ten"), None);
}

#[test]
fn texts_are_compared_by_their_characters() {
    assert!(same_text("", ""));
    assert!(same_text("urgency", "urgency"));
    assert!(!same_text("urgency", "Urgency"));
    assert!(!same_text("urgency", "urgenc"));
    assert!(!same_text("", " "));
}

#[test]
fn strategies_have_names() {
    assert_eq!(SchedulingStrategy::Importance.as_str(), "importance");
    assert_eq!(SchedulingStrategy::Urgency.as_str(), "urgency");
    assert_eq!(SchedulingStrategy::from_name("importance"), Some(SchedulingStrategy::Importance));
    assert_eq!(SchedulingStrategy::from_name("urgency"), Some(SchedulingStrategy::Urgency));
    assert_eq!(SchedulingStrategy::from_name("Urgency"), None);
    assert_eq!(SchedulingStrategy::from_name(""), None);
    for strategy in [SchedulingStrategy::Importance, SchedulingStrategy::Urgency] {
        assert_eq!(SchedulingStrategy::from_name(strategy.as_str()), Some(strategy));
    }
}

#[test]
fn properties_have_names() {
    for field in [Field::Content, Field::Deadline, Field::Duration, Field::Importance] {
        assert_eq!(Field::from_name(field.as_str()), Some(field));
    }
    assert_eq!(Field::Content.as_str(), "content");
    assert_eq!(Field::Deadline.as_str(), "deadline");
    assert_eq!(Field::Duration.as_str(), "duration");
    assert_eq!(Field::Importance.as_str(), "importance");
    assert_eq!(Field::from_name("id"), None);
    assert_eq!(Field::from_name("Content"), None);
}

#[test]
fn every_error_says_what_went_wrong() {
    assert_eq!(
        Error::InvalidImportance.message(),
        "Please supply a valid integer as importance factor."
    );
    assert_eq!(Error::InvalidId.message(), "Please supply a valid integer as id.");
    assert_eq!(
        Error::Database("while trying to remove a task".to_string()).message(),
        "A database error occurred while trying to remove a task"
    );
    assert_eq!(
        Error::NotFound("while trying to update a task".to_string()).message(),
        "Nothing was found, or it was already modified, while trying to update a task"
    );
    assert_eq!(Error::Configuration("no such file".to_string()).message(), "no such file");
    assert_eq!(
        Error::Inconsistent(Inconsistency::EmptyRange).message(),
        "A time segment has a range that does not end after it starts"
    );
    assert_eq!(
        Error::Inconsistent(Inconsistency::UnknownSegment).message(),
        "A task belongs to a time segment that does not exist"
    );
    assert_eq!(
        Error::Usage.message(),
        "Please supply a known command with the values it needs"
    );
}

#[test]
fn add_makes_a_task_for_the_default_segment() {
    assert_eq!(
        eva::command::add("do me", 1_500_000_000, 6, 42),
        NewTask {
            content: "do me".to_string(),
            deadline: 1_500_000_000,
            duration: 6,
            importance: 42,
            segment_id: Some(DEFAULT_SEGMENT),
        }
    );
    assert_eq!(DEFAULT_SEGMENT, 0);
    assert_eq!(eva::command::add("", -1, -2, 0).segment_id, Some(0));
}

#[test]
fn importance_and_id_are_numbers() {
    assert_eq!(importance("10"), Ok(10));
    assert_eq!(importance("11"), Ok(11));
    assert_eq!(importance("-1"), Err(Error::InvalidImportance));
    assert_eq!(rm("17"), Ok(17));
    assert_eq!(rm("seventeen"), Err(Error::InvalidId));
    assert_eq!(rm("4294967296"), Err(Error::InvalidId));
}

#[test]
fn set_reads_the_task_and_the_property() {
    assert_eq!(eva::command::set("5", "deadline"), Ok((5, Field::Deadline)));
    assert_eq!(eva::command::set("5", "content"), Ok((5, Field::Content)));
    assert_eq!(eva::command::set("five", "content"), Err(Error::InvalidId));
    assert_eq!(eva::command::set("5", "colour"), Err(Error::Usage));
    assert_eq!(eva::command::set("five", "colour"), Err(Error::Usage));
}

#[test]
fn a_change_touches_one_property() {
    let task = sample();
    assert_eq!(
        set_field(task.clone(), Change::Content("stuff".to_string())),
        Task { content: "stuff".to_string(), ..task.clone() }
    );
    assert_eq!(
        set_field(task.clone(), Change::Deadline(1_441_497_364)),
        Task { deadline: 1_441_497_364, ..task.clone() }
    );
    assert_eq!(
        set_field(task.clone(), Change::Duration(7 * 60)),
        Task { duration: 420, ..task.clone() }
    );
    assert_eq!(
        set_field(task.clone(), Change::Importance(100)),
        Task { importance: 100, ..task.clone() }
    );
}

#[test]
fn schedule_reads_the_strategy_and_composes() {
    let segment = TimeSegment {
        id: 2,
        name: "work".to_string(),
        ranges: vec![TimeRange { from: 0, to: 10 }],
    };
    let minor = Task { id: 1, importance: 1, deadline: 20, ..sample() };
    let major = Task { id: 2, importance: 2, deadline: 90, ..sample() };
    let grouped = vec![(segment, vec![minor.clone(), major.clone()])];
    let by_importance = schedule("importance", 0, grouped.clone()).unwrap();
    assert_eq!(by_importance.entries[0].task, major);
    assert_eq!(by_importance.entries[0].slot, Slot::At(TimeRange { from: 0, to: 6 }));
    assert_eq!(by_importance.entries[1].slot, Slot::Unscheduled);
    let by_urgency = schedule("urgency", 0, grouped.clone()).unwrap();
    assert_eq!(by_urgency.entries[0].task, minor);
    assert_eq!(schedule("whim", 0, grouped), Err(Error::Usage));
}

#[test]
fn schedule_passes_inconsistencies_on() {
    let segment = TimeSegment { id: 1, name: "work".to_string(), ranges: vec![] };
    assert_eq!(
        schedule("urgency", 0, vec![(segment.clone(), vec![sample()])]),
        Err(Error::Inconsistent(Inconsistency::UnknownSegment))
    );
    let empty = TimeSegment { ranges: vec![TimeRange { from: 1, to: 1 }], ..segment };
    assert_eq!(
        schedule("urgency", 0, vec![(empty, vec![])]),
        Err(Error::Inconsistent(Inconsistency::EmptyRange))
    );
}

#[test]
fn dispatch_reads_add() {
    let configuration = settings(SchedulingStrategy::Importance);
    assert_eq!(
        dispatch("add", &words(&["do me", "2 Aug 2017 14:03", "1.5", "7"]), &configuration),
        Ok(Request::Add {
            content: "do me".to_string(),
            deadline: "2 Aug 2017 14:03".to_string(),
            duration: "1.5".to_string(),
            importance: 7,
        })
    );
    assert_eq!(
        dispatch("add", &words(&["do me", "2 Aug 2017 14:03", "1.5", "high"]), &configuration),
        Err(Error::InvalidImportance)
    );
    assert_eq!(dispatch("add", &words(&["do me", "now", "1"]), &configuration), Err(Error::Usage));
}

#[test]
fn dispatch_reads_rm() {
    let configuration = settings(SchedulingStrategy::Importance);
    assert_eq!(dispatch("rm", &words(&["12"]), &configuration), Ok(Request::Remove { id: 12 }));
    assert_eq!(dispatch("rm", &words(&["x"]), &configuration), Err(Error::InvalidId));
    assert_eq!(dispatch("rm", &words(&[]), &configuration), Err(Error::Usage));
    assert_eq!(dispatch("rm", &words(&["1", "2"]), &configuration), Err(Error::Usage));
}

#[test]
fn dispatch_reads_set() {
    let configuration = settings(SchedulingStrategy::Importance);
    assert_eq!(
        dispatch("set", &words(&["duration", "4", "2"]), &configuration),
        Ok(Request::Update { field: Field::Duration, id: 4, value: "2".to_string() })
    );
    assert_eq!(
        dispatch("set", &words(&["duration", "four", "2"]), &configuration),
        Err(Error::InvalidId)
    );
    assert_eq!(
        dispatch("set", &words(&["length", "4", "2"]), &configuration),
        Err(Error::Usage)
    );
    assert_eq!(dispatch("set", &words(&["duration", "4"]), &configuration), Err(Error::Usage));
}

#[test]
fn dispatch_reads_schedule() {
    let configuration = settings(SchedulingStrategy::Urgency);
    assert_eq!(
        dispatch("schedule", &words(&[]), &configuration),
        Ok(Request::Schedule { strategy: SchedulingStrategy::Urgency })
    );
    assert_eq!(
        dispatch("schedule", &words(&["importance"]), &configuration),
        Ok(Request::Schedule { strategy: SchedulingStrategy::Importance })
    );
    assert_eq!(dispatch("schedule", &words(&["luck"]), &configuration), Err(Error::Usage));
    assert_eq!(
        dispatch("schedule", &words(&["urgency", "urgency"]), &configuration),
        Err(Error::Usage)
    );
}

#[test]
fn dispatch_refuses_what_it_does_not_know() {
    let configuration = settings(SchedulingStrategy::Urgency);
    assert_eq!(dispatch("remove", &words(&["1"]), &configuration), Err(Error::Usage));
    assert_eq!(dispatch("", &words(&[]), &configuration), Err(Error::Usage));
    assert_eq!(dispatch("ADD", &words(&["a", "b", "c", "1"]), &configuration), Err(Error::Usage));
}

#[test]
fn run_needs_a_configuration() {
    let failed = Err(Error::Configuration("cannot read ~/.config/eva/eva.toml".to_string()));
    assert_eq!(
        run(failed, "rm", &words(&["1"])),
        Err(Error::Configuration("cannot read ~/.config/eva/eva.toml".to_string()))
    );
    assert_eq!(
        run(Ok(settings(SchedulingStrategy::Importance)), "rm", &words(&["1"])),
        Ok(Request::Remove { id: 1 })
    );
    assert_eq!(
        run(Ok(settings(SchedulingStrategy::Importance)), "schedule", &words(&[])),
        Ok(Request::Schedule { strategy: SchedulingStrategy::Importance })
    );
}
