use eva::compose::compose;
use eva::model::{
    Allocation, Inconsistency, SchedulingStrategy, Slot, Task, TimeRange, TimeSegment,
};
use eva::pack::pack;
use eva::rank::rank;

const HOUR: i64 = 3600;

fn task(id: u32, duration: i64, deadline: i64, importance: u32) -> Task {
    Task {
        id,
        content: format!("task {}", id),
        deadline,
        duration,
        importance,
        segment_id: Some(1),
    }
}

fn work(from: i64, to: i64) -> TimeSegment {
    TimeSegment { id: 1, name: "work".to_string(), ranges: vec![TimeRange { from, to }] }
}

fn at(from: i64, to: i64) -> Slot {
    Slot::At(TimeRange { from, to })
}

#[test]
fn importance_first_and_the_rest_goes_without() {
    let t1 = task(1, 2 * HOUR, 18 * HOUR, 5);
    let t2 = task(2, 2 * HOUR, 18 * HOUR, 9);
    let grouped = vec![(work(9 * HOUR, 12 * HOUR), vec![t1.clone(), t2.clone()])];
    let schedule = compose(SchedulingStrategy::Importance, 8 * HOUR, grouped).unwrap();
    assert_eq!(
        schedule.entries,
        vec![
            Allocation { task: t2, slot: at(9 * HOUR, 11 * HOUR) },
            Allocation { task: t1, slot: Slot::Unscheduled },
        ]
    );
    assert!(schedule.unassigned.is_empty());
}

#[test]
fn urgency_serves_the_tighter_deadline_first() {
    let t1 = task(1, HOUR, 10 * HOUR, 5);
    let t2 = task(2, HOUR, 20 * HOUR, 5);
    let grouped = vec![(work(9 * HOUR, 13 * HOUR), vec![t2.clone(), t1.clone()])];
    let schedule = compose(SchedulingStrategy::Urgency, 8 * HOUR, grouped).unwrap();
    assert_eq!(
        schedule.entries,
        vec![
            Allocation { task: t1, slot: at(9 * HOUR, 10 * HOUR) },
            Allocation { task: t2, slot: at(10 * HOUR, 11 * HOUR) },
        ]
    );
}

#[test]
fn overdue_task_is_ranked_first_and_left_unscheduled() {
    let now = 12 * HOUR;
    let late = task(7, HOUR, 11 * HOUR, 1);
    let fine = task(3, HOUR, 20 * HOUR, 10);
    let ranked = rank(vec![fine.clone(), late.clone()], SchedulingStrategy::Urgency, now);
    assert_eq!(ranked, vec![late.clone(), fine.clone()]);
    let packed = pack(ranked, &vec![TimeRange { from: 13 * HOUR, to: 15 * HOUR }]).unwrap();
    assert_eq!(
        packed,
        vec![
            Allocation { task: late, slot: Slot::Unscheduled },
            Allocation { task: fine, slot: at(13 * HOUR, 14 * HOUR) },
        ]
    );
}

#[test]
fn empty_range_is_refused() {
    let ranges = vec![TimeRange { from: 5, to: 9 }, TimeRange { from: 9, to: 9 }];
    assert_eq!(pack(vec![task(1, 1, 100, 1)], &ranges), Err(Inconsistency::EmptyRange));
}
