use vstd::prelude::*;
use crate::model::{SchedulingStrategy, Task};
use crate::stable::{
    lemma_stable_sort_len, lemma_stable_sort_ordered, lemma_stable_sort_permutes,
    lemma_stable_sort_stable, lemma_stable_sort_unique, ordered, same_ties, stable_sort,
    stable_sort_by, strict_order, ties_with, weak_order,
};

verus! {

/// The time that is left over if work on `task` starts at `now` and ends by its deadline.
/// It is negative where the deadline can no longer be met.
pub open spec fn slack(task: Task, now: i64) -> int {
    (task.deadline - now) - task.duration
}

/// `a` is to be served strictly before `b`.
///
/// By importance: the more important task first, among equally important ones the one
/// that is due sooner, among those the one with the smaller id. By urgency: the task with
/// less slack first, among those with equal slack the more important one, among those the
/// one with the smaller id.
pub open spec fn outranks(a: Task, b: Task, strategy: SchedulingStrategy, now: i64) -> bool {
    match strategy {
        SchedulingStrategy::Importance => {
            ||| a.importance > b.importance
            ||| a.importance == b.importance && a.deadline < b.deadline
            ||| a.importance == b.importance && a.deadline == b.deadline && a.id < b.id
        },
        SchedulingStrategy::Urgency => {
            ||| slack(a, now) < slack(b, now)
            ||| slack(a, now) == slack(b, now) && a.importance > b.importance
            ||| slack(a, now) == slack(b, now) && a.importance == b.importance && a.id < b.id
        },
    }
}

/// `outranks` for a fixed strategy and instant, as a relation on tasks.
pub open spec fn ranking_order(strategy: SchedulingStrategy, now: i64) -> spec_fn(
    Task,
    Task,
) -> bool {
    |a: Task, b: Task| outranks(a, b, strategy, now)
}

/// The tasks in the order in which they are served: sorted by `outranks`, tasks that it
/// does not tell apart staying in the order in which they were given.
pub open spec fn ranking(tasks: Seq<Task>, strategy: SchedulingStrategy, now: i64) -> Seq<Task> {
    stable_sort(tasks, ranking_order(strategy, now))
}

/// The order of service is a strict order, whatever the strategy and the instant.
pub proof fn lemma_ranking_order_strict(strategy: SchedulingStrategy, now: i64)
    ensures
        strict_order(ranking_order(strategy, now)),
{
    let before = ranking_order(strategy, now);
    assert forall|a: Task| !#[trigger] before(a, a) by {}
    assert forall|a: Task, b: Task, c: Task| #[trigger]
        before(a, b) && #[trigger] before(b, c) implies before(a, c) by {}
}

/// Tasks that the order of service does not tell apart form classes: the order is a weak
/// order.
pub proof fn lemma_ranking_order_weak(strategy: SchedulingStrategy, now: i64)
    ensures
        weak_order(ranking_order(strategy, now)),
{
    let before = ranking_order(strategy, now);
    lemma_ranking_order_strict(strategy, now);
    assert forall|a: Task, b: Task, c: Task| #[trigger] before(a, b) implies #[trigger] before(
        a,
        c,
    ) || before(c, b) by {}
}

/// Tasks that tie with one another, which agree in importance, deadline or slack, and id,
/// stand in a ranking in the order in which they were given.
pub proof fn lemma_ranking_stable(
    tasks: Seq<Task>,
    strategy: SchedulingStrategy,
    now: i64,
    task: Task,
)
    ensures
        ranking(tasks, strategy, now).filter(ties_with(task, ranking_order(strategy, now)))
            == tasks.filter(ties_with(task, ranking_order(strategy, now))),
{
    lemma_ranking_order_weak(strategy, now);
    lemma_stable_sort_stable(tasks, ranking_order(strategy, now), task);
}

/// Ranking keeps every task, and each as often as it was given.
pub proof fn lemma_ranking_keeps_tasks(tasks: Seq<Task>, strategy: SchedulingStrategy, now: i64)
    ensures
        ranking(tasks, strategy, now).len() == tasks.len(),
        ranking(tasks, strategy, now).to_multiset() == tasks.to_multiset(),
{
    lemma_stable_sort_len(tasks, ranking_order(strategy, now));
    lemma_stable_sort_permutes(tasks, ranking_order(strategy, now));
}

/// In a ranking no task outranks one that stands before it.
pub proof fn lemma_ranking_ordered(tasks: Seq<Task>, strategy: SchedulingStrategy, now: i64)
    ensures
        forall|i: int, j: int|
            0 <= i < j < ranking(tasks, strategy, now).len() ==> !outranks(
                #[trigger] ranking(tasks, strategy, now)[j],
                #[trigger] ranking(tasks, strategy, now)[i],
                strategy,
                now,
            ),
{
    let before = ranking_order(strategy, now);
    let ranked = ranking(tasks, strategy, now);
    lemma_ranking_order_strict(strategy, now);
    lemma_stable_sort_ordered(tasks, before);
    assert forall|i: int, j: int| 0 <= i < j < ranked.len() implies !outranks(
        #[trigger] ranked[j],
        #[trigger] ranked[i],
        strategy,
        now,
    ) by {}
}

/// A ranking is told by what it achieves: an arrangement of the tasks in which no task
/// outranks one that stands before it, and in which tasks that tie stand in the order
/// given, is the ranking.
pub proof fn lemma_ranking_unique(
    tasks: Seq<Task>,
    arranged: Seq<Task>,
    strategy: SchedulingStrategy,
    now: i64,
)
    requires
        forall|i: int, j: int|
            0 <= i < j < arranged.len() ==> !outranks(
                #[trigger] arranged[j],
                #[trigger] arranged[i],
                strategy,
                now,
            ),
        same_ties(arranged, tasks, ranking_order(strategy, now)),
    ensures
        arranged == ranking(tasks, strategy, now),
{
    let before = ranking_order(strategy, now);
    lemma_ranking_order_weak(strategy, now);
    assert forall|i: int, j: int| 0 <= i < j < arranged.len() implies !before(
        #[trigger] arranged[j],
        #[trigger] arranged[i],
    ) by {}
    lemma_stable_sort_unique(tasks, arranged, before);
}

/// Ranked by importance, a task is more important than a task behind it, or as important
/// and due no later.
pub proof fn lemma_importance_ranking(tasks: Seq<Task>, now: i64, i: int, j: int)
    requires
        0 <= i < j < tasks.len(),
    ensures
        ({
            let ranked = ranking(tasks, SchedulingStrategy::Importance, now);
            ranked[i].importance > ranked[j].importance || (ranked[i].importance
                == ranked[j].importance && ranked[i].deadline <= ranked[j].deadline)
        }),
{
    lemma_ranking_keeps_tasks(tasks, SchedulingStrategy::Importance, now);
    lemma_ranking_ordered(tasks, SchedulingStrategy::Importance, now);
}

/// Ranked by urgency, a task has no more slack than a task behind it.
pub proof fn lemma_urgency_ranking(tasks: Seq<Task>, now: i64, i: int, j: int)
    requires
        0 <= i < j < tasks.len(),
    ensures
        ({
            let ranked = ranking(tasks, SchedulingStrategy::Urgency, now);
            slack(ranked[i], now) <= slack(ranked[j], now)
        }),
{
    lemma_ranking_keeps_tasks(tasks, SchedulingStrategy::Urgency, now);
    lemma_ranking_ordered(tasks, SchedulingStrategy::Urgency, now);
}

/// The slack of `task` at `now`.
pub fn slack_of(task: &Task, now: i64) -> (spare: i128)
    ensures
        spare == slack(*task, now),
{
    (task.deadline as i128 - now as i128) - task.duration as i128
}

/// Decides `outranks`.
pub fn ranks_before(a: &Task, b: &Task, strategy: SchedulingStrategy, now: i64) -> (first: bool)
    ensures
        first == outranks(*a, *b, strategy, now),
{
    match strategy {
        SchedulingStrategy::Importance => {
            a.importance > b.importance || (a.importance == b.importance && (a.deadline
                < b.deadline || (a.deadline == b.deadline && a.id < b.id)))
        },
        SchedulingStrategy::Urgency => {
            let spare_a = slack_of(a, now);
            let spare_b = slack_of(b, now);
            spare_a < spare_b || (spare_a == spare_b && (a.importance > b.importance || (
            a.importance == b.importance && a.id < b.id)))
        },
    }
}

/// Puts the tasks of one segment in the order in which they are to be served.
pub fn rank(tasks: Vec<Task>, strategy: SchedulingStrategy, now: i64) -> (ranked: Vec<Task>)
    ensures
        ranked@ == ranking(tasks@, strategy, now),
        ranked@.len() == tasks@.len(),
        ranked@.to_multiset() == tasks@.to_multiset(),
        forall|i: int, j: int|
            0 <= i < j < ranked@.len() ==> !outranks(
                #[trigger] ranked@[j],
                #[trigger] ranked@[i],
                strategy,
                now,
            ),
        same_ties(ranked@, tasks@, ranking_order(strategy, now)),
        strategy == SchedulingStrategy::Importance ==> forall|i: int, j: int|
            0 <= i < j < ranked@.len() ==> (#[trigger] ranked@[i]).importance
                > (#[trigger] ranked@[j]).importance || (ranked@[i].importance
                == ranked@[j].importance && ranked@[i].deadline <= ranked@[j].deadline),
        strategy == SchedulingStrategy::Urgency ==> forall|i: int, j: int|
            0 <= i < j < ranked@.len() ==> slack(#[trigger] ranked@[i], now) <= slack(
                #[trigger] ranked@[j],
                now,
            ),
{
    proof {
        lemma_ranking_keeps_tasks(tasks@, strategy, now);
        lemma_ranking_ordered(tasks@, strategy, now);
        assert forall|task: Task|
            #![trigger ties_with(task, ranking_order(strategy, now))]
            ranking(tasks@, strategy, now).filter(ties_with(task, ranking_order(strategy, now)))
                == tasks@.filter(ties_with(task, ranking_order(strategy, now))) by {
            lemma_ranking_stable(tasks@, strategy, now, task);
        }
    }
    let precedes = |a: &Task, b: &Task| -> (first: bool)
        ensures
            first == outranks(*a, *b, strategy, now),
        { ranks_before(a, b, strategy, now) };
    stable_sort_by(tasks, precedes, Ghost(ranking_order(strategy, now)))
}

} // verus!
