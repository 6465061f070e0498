use eva::model::{SchedulingStrategy, Task};
use eva::rank::{rank, ranks_before, slack_of};

fn job(id: u32, content: &str, deadline: i64, duration: i64, importance: u32) -> Task {
    Task { id, content: content.to_string(), deadline, duration, importance, segment_id: Some(1) }
}

fn ids(tasks: &Vec<Task>) -> Vec<u32> {
    tasks.iter().map(|task| task.id).collect()
}

#[test]
fn nothing_ranks_to_nothing() {
    assert_eq!(rank(Vec::new(), SchedulingStrategy::Importance, 0), Vec::new());
    assert_eq!(rank(Vec::new(), SchedulingStrategy::Urgency, 0), Vec::new());
}

#[test]
fn more_important_tasks_come_first() {
    let tasks = vec![job(1, "a", 50, 5, 1), job(2, "b", 50, 5, 9), job(3, "c", 50, 5, 5)];
    let ranked = rank(tasks, SchedulingStrategy::Importance, 0);
    assert_eq!(ids(&ranked), vec![2, 3, 1]);
}

#[test]
fn equal_importance_goes_by_deadline_then_id() {
    let tasks = vec![
        job(4, "late", 90, 5, 7),
        job(9, "soon, high id", 10, 5, 7),
        job(2, "soon, low id", 10, 5, 7),
        job(1, "top", 500, 5, 8),
    ];
    let ranked = rank(tasks, SchedulingStrategy::Importance, 0);
    assert_eq!(ids(&ranked), vec![1, 2, 9, 4]);
}

#[test]
fn importance_ranking_ignores_the_clock() {
    let tasks = vec![job(1, "a", 50, 5, 1), job(2, "b", 10, 50, 9), job(3, "c", 70, 5, 5)];
    let early = rank(tasks.clone(), SchedulingStrategy::Importance, -1_000_000);
    let late = rank(tasks, SchedulingStrategy::Importance, 1_000_000);
    assert_eq!(early, late);
}

#[test]
fn full_ties_keep_the_order_given() {
    let tasks = vec![
        job(5, "first", 10, 1, 3),
        job(5, "second", 10, 1, 3),
        job(5, "third", 10, 1, 3),
        job(4, "ahead", 10, 1, 3),
    ];
    let by_importance = rank(tasks.clone(), SchedulingStrategy::Importance, 0);
    let told: Vec<&str> = by_importance.iter().map(|task| task.content.as_str()).collect();
    assert_eq!(told, vec!["ahead", "first", "second", "third"]);
    let by_urgency = rank(tasks, SchedulingStrategy::Urgency, 0);
    let told: Vec<&str> = by_urgency.iter().map(|task| task.content.as_str()).collect();
    assert_eq!(told, vec!["ahead", "first", "second", "third"]);
}

#[test]
fn slack_is_time_to_deadline_less_duration() {
    let task = job(1, "a", 18 * 3600, 2 * 3600, 5);
    assert_eq!(slack_of(&task, 8 * 3600), 8 * 3600);
    assert_eq!(slack_of(&task, 17 * 3600), -3600);
    assert_eq!(slack_of(&job(2, "b", 100, 30, 1), 20), 50);
}

#[test]
fn slack_does_not_overflow() {
    let task = job(1, "a", i64::MAX, i64::MIN, 5);
    assert_eq!(slack_of(&task, i64::MIN), 3 * (1i128 << 63) - 1);
    let task = job(2, "b", i64::MIN, i64::MAX, 5);
    assert_eq!(slack_of(&task, i64::MAX), -3 * (1i128 << 63) + 2);
}

#[test]
fn least_slack_comes_first() {
    let now = 100;
    let tasks = vec![
        job(1, "roomy", 1000, 10, 9),
        job(2, "tight", 200, 90, 1),
        job(3, "middling", 500, 100, 5),
    ];
    let ranked = rank(tasks, SchedulingStrategy::Urgency, now);
    assert_eq!(ids(&ranked), vec![2, 3, 1]);
    assert!(slack_of(&ranked[0], now) <= slack_of(&ranked[1], now));
    assert!(slack_of(&ranked[1], now) <= slack_of(&ranked[2], now));
}

#[test]
fn negative_slack_sorts_before_all_other_slack() {
    let now = 1000;
    let tasks = vec![
        job(1, "fine", 2000, 10, 9),
        job(2, "fits exactly", 1010, 10, 9),
        job(3, "cannot be met", 1005, 10, 1),
        job(4, "long overdue", 0, 10, 1),
    ];
    let ranked = rank(tasks, SchedulingStrategy::Urgency, now);
    assert_eq!(ids(&ranked), vec![4, 3, 2, 1]);
}

#[test]
fn equal_slack_goes_by_importance_then_id() {
    let now = 0;
    let tasks = vec![
        job(8, "a", 110, 10, 2),
        job(3, "b", 120, 20, 2),
        job(5, "c", 150, 50, 6),
        job(1, "d", 99, 0, 1),
    ];
    let ranked = rank(tasks, SchedulingStrategy::Urgency, now);
    assert_eq!(ids(&ranked), vec![1, 5, 3, 8]);
}

#[test]
fn urgency_ranking_follows_the_clock_only_through_slack() {
    let tasks = vec![job(1, "a", 500, 10, 1), job(2, "b", 300, 10, 1)];
    let early = rank(tasks.clone(), SchedulingStrategy::Urgency, 0);
    let late = rank(tasks, SchedulingStrategy::Urgency, 10_000);
    assert_eq!(ids(&early), vec![2, 1]);
    assert_eq!(ids(&late), vec![2, 1]);
}

#[test]
fn ranking_keeps_every_task() {
    let tasks = vec![
        job(3, "x", 10, 1, 1),
        job(1, "y", 20, 2, 2),
        job(3, "x", 10, 1, 1),
        job(2, "z", 30, 3, 3),
    ];
    for strategy in [SchedulingStrategy::Importance, SchedulingStrategy::Urgency] {
        let mut ranked = rank(tasks.clone(), strategy, 5);
        let mut given = tasks.clone();
        ranked.sort_by_key(|task| (task.id, task.content.clone()));
        given.sort_by_key(|task| (task.id, task.content.clone()));
        assert_eq!(ranked, given);
    }
}

#[test]
fn ranks_before_is_strict() {
    let a = job(1, "a", 10, 1, 5);
    let b = job(2, "b", 10, 1, 5);
    for strategy in [SchedulingStrategy::Importance, SchedulingStrategy::Urgency] {
        assert!(ranks_before(&a, &b, strategy, 0));
        assert!(!ranks_before(&b, &a, strategy, 0));
        assert!(!ranks_before(&a, &a, strategy, 0));
    }
}
