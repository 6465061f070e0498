use eva::model::{Allocation, Inconsistency, Slot, Task, TimeRange};
use eva::pack::{check_disjoint, check_ranges, find_fit, is_free, pack};

fn chore(id: u32, duration: i64, deadline: i64) -> Task {
    Task {
        id,
        content: format!("chore {}", id),
        deadline,
        duration,
        importance: 1,
        segment_id: Some(1),
    }
}

fn span(from: i64, to: i64) -> TimeRange {
    TimeRange { from, to }
}

fn slots(entries: &Vec<Allocation>) -> Vec<Slot> {
    entries.iter().map(|entry| entry.slot).collect()
}

#[test]
fn no_tasks_no_entries() {
    assert_eq!(pack(Vec::new(), &vec![span(0, 10)]), Ok(Vec::new()));
    assert_eq!(pack(Vec::new(), &Vec::new()), Ok(Vec::new()));
}

#[test]
fn no_ranges_no_slots() {
    let packed = pack(vec![chore(1, 1, 100), chore(2, 0, 100)], &Vec::new()).unwrap();
    assert_eq!(slots(&packed), vec![Slot::Unscheduled, Slot::Unscheduled]);
}

#[test]
fn tasks_follow_one_another_in_a_range() {
    let packed = pack(
        vec![chore(1, 3, 100), chore(2, 4, 100), chore(3, 3, 100)],
        &vec![span(10, 20)],
    ).unwrap();
    assert_eq!(
        slots(&packed),
        vec![Slot::At(span(10, 13)), Slot::At(span(13, 17)), Slot::At(span(17, 20))]
    );
    assert_eq!(packed[0].task, chore(1, 3, 100));
    assert_eq!(packed[1].task, chore(2, 4, 100));
    assert_eq!(packed[2].task, chore(3, 3, 100));
}

#[test]
fn first_range_with_room_is_taken() {
    let packed = pack(
        vec![chore(1, 6, 100), chore(2, 6, 100), chore(3, 4, 100)],
        &vec![span(0, 10), span(20, 30)],
    ).unwrap();
    assert_eq!(
        slots(&packed),
        vec![Slot::At(span(0, 6)), Slot::At(span(20, 26)), Slot::At(span(6, 10))]
    );
}

#[test]
fn a_task_without_room_does_not_block_the_next() {
    let packed = pack(
        vec![chore(1, 8, 100), chore(2, 5, 100), chore(3, 2, 100)],
        &vec![span(0, 10)],
    ).unwrap();
    assert_eq!(
        slots(&packed),
        vec![Slot::At(span(0, 8)), Slot::Unscheduled, Slot::At(span(8, 10))]
    );
}

#[test]
fn a_slot_never_ends_after_the_deadline() {
    let packed = pack(
        vec![chore(1, 5, 4), chore(2, 5, 5), chore(3, 5, 9), chore(4, 5, 10)],
        &vec![span(0, 100)],
    ).unwrap();
    assert_eq!(
        slots(&packed),
        vec![Slot::Unscheduled, Slot::At(span(0, 5)), Slot::Unscheduled, Slot::At(span(5, 10))]
    );
}

#[test]
fn a_later_range_may_still_meet_the_deadline() {
    let packed = pack(vec![chore(1, 5, 20)], &vec![span(50, 60), span(0, 10)]).unwrap();
    assert_eq!(slots(&packed), vec![Slot::At(span(0, 5))]);
}

#[test]
fn overlapping_ranges_are_not_booked_twice() {
    let packed = pack(
        vec![chore(1, 8, 100), chore(2, 8, 100), chore(3, 2, 100)],
        &vec![span(0, 10), span(5, 15)],
    ).unwrap();
    assert_eq!(
        slots(&packed),
        vec![Slot::At(span(0, 8)), Slot::Unscheduled, Slot::At(span(8, 10))]
    );
}

#[test]
fn a_task_of_no_length_takes_an_empty_slot() {
    let packed = pack(vec![chore(1, 0, 5), chore(2, 3, 5)], &vec![span(0, 10)]).unwrap();
    assert_eq!(slots(&packed), vec![Slot::At(span(0, 0)), Slot::At(span(0, 3))]);
}

#[test]
fn a_task_of_negative_length_gets_no_slot() {
    let packed = pack(vec![chore(1, -3, 50), chore(2, 3, 50)], &vec![span(0, 10)]).unwrap();
    assert_eq!(slots(&packed), vec![Slot::Unscheduled, Slot::At(span(0, 3))]);
}

#[test]
fn the_ends_of_time_do_not_overflow() {
    let packed = pack(
        vec![
            chore(1, i64::MAX, i64::MAX),
            chore(2, 1, i64::MAX),
            chore(3, i64::MAX, i64::MAX),
            chore(4, 1, i64::MAX),
        ],
        &vec![span(i64::MIN, 0), span(0, i64::MAX)],
    ).unwrap();
    assert_eq!(
        slots(&packed),
        vec![
            Slot::At(span(i64::MIN, -1)),
            Slot::At(span(-1, 0)),
            Slot::At(span(0, i64::MAX)),
            Slot::Unscheduled,
        ]
    );
}

#[test]
fn a_range_that_does_not_end_after_it_starts_is_refused() {
    let task = chore(1, 1, 100);
    assert_eq!(pack(vec![task.clone()], &vec![span(9, 9)]), Err(Inconsistency::EmptyRange));
    assert_eq!(pack(vec![task.clone()], &vec![span(9, 8)]), Err(Inconsistency::EmptyRange));
    assert_eq!(
        pack(vec![task], &vec![span(0, 5), span(7, 6), span(10, 20)]),
        Err(Inconsistency::EmptyRange)
    );
    assert_eq!(pack(Vec::new(), &vec![span(3, 3)]), Err(Inconsistency::EmptyRange));
}

#[test]
fn ranges_are_checked_one_by_one() {
    assert!(check_ranges(&Vec::new()));
    assert!(check_ranges(&vec![span(0, 1), span(-5, 5)]));
    assert!(!check_ranges(&vec![span(0, 1), span(5, 5)]));
    assert!(span(0, 1).is_valid());
    assert!(!span(1, 1).is_valid());
    assert!(!span(2, 1).is_valid());
}

#[test]
fn spans_that_only_touch_do_not_intersect() {
    assert!(span(0, 5).intersects(&span(4, 9)));
    assert!(span(4, 9).intersects(&span(0, 5)));
    assert!(span(0, 10).intersects(&span(3, 4)));
    assert!(!span(0, 5).intersects(&span(5, 9)));
    assert!(!span(5, 9).intersects(&span(0, 5)));
    assert!(!span(3, 3).intersects(&span(0, 5)));
    assert!(!span(0, 5).intersects(&span(3, 3)));
}

#[test]
fn a_span_is_free_where_no_slot_reaches_into_it() {
    let entries = vec![
        Allocation { task: chore(1, 5, 100), slot: Slot::At(span(0, 5)) },
        Allocation { task: chore(2, 5, 100), slot: Slot::Unscheduled },
    ];
    assert!(is_free(&entries, &span(5, 8)));
    assert!(!is_free(&entries, &span(4, 8)));
    assert!(is_free(&Vec::new(), &span(4, 8)));
}

#[test]
fn the_fit_is_the_first_range_that_can_hold_the_task() {
    let ranges = vec![span(0, 10), span(20, 30), span(40, 50)];
    let cursors = vec![8, 29, 40];
    assert_eq!(find_fit(&chore(1, 2, 100), &ranges, &cursors, &Vec::new()), Some(0));
    assert_eq!(find_fit(&chore(1, 3, 100), &ranges, &cursors, &Vec::new()), Some(2));
    assert_eq!(find_fit(&chore(1, 1, 25), &ranges, &cursors, &Vec::new()), Some(0));
    assert_eq!(find_fit(&chore(1, 3, 42), &ranges, &cursors, &Vec::new()), None);
    assert_eq!(find_fit(&chore(1, 11, 100), &ranges, &cursors, &Vec::new()), None);
    assert_eq!(find_fit(&chore(1, 2, 100), &ranges, &vec![8, 29], &Vec::new()), None);
}

#[test]
fn no_two_slots_share_an_instant() {
    let tasks: Vec<Task> =
        (0..40).map(|n| chore(n, (n as i64 * 7) % 11, 60 + (n as i64 * 13) % 50)).collect();
    let ranges = vec![span(0, 30), span(20, 50), span(45, 70), span(100, 110), span(5, 15)];
    let packed = pack(tasks.clone(), &ranges).unwrap();
    assert_eq!(packed.len(), tasks.len());
    let mut given = 0;
    for (i, entry) in packed.iter().enumerate() {
        assert_eq!(entry.task, tasks[i]);
        if let Slot::At(slot) = entry.slot {
            given += 1;
            assert_eq!(slot.to - slot.from, entry.task.duration);
            assert!(slot.to <= entry.task.deadline);
            assert!(ranges.iter().any(|range| range.from <= slot.from && slot.to <= range.to));
            for other in &packed[..i] {
                if let Slot::At(earlier) = other.slot {
                    assert!(!slot.intersects(&earlier));
                }
            }
        }
    }
    assert!(given > 5);
}

#[test]
fn what_was_offered_stays_when_more_tasks_follow() {
    let tasks: Vec<Task> =
        (0..12).map(|n| chore(n, 3 + (n as i64 * 5) % 7, 40 + (n as i64 * 3) % 20)).collect();
    let ranges = vec![span(0, 25), span(30, 55)];
    let whole = pack(tasks.clone(), &ranges).unwrap();
    for served in 0..tasks.len() {
        let part = pack(tasks[..served].to_vec(), &ranges).unwrap();
        assert_eq!(part[..], whole[..served]);
    }
}

#[test]
fn ranges_that_only_touch_are_disjoint() {
    assert!(check_disjoint(&Vec::new()));
    assert!(check_disjoint(&vec![span(0, 5)]));
    assert!(check_disjoint(&vec![span(5, 9), span(0, 5), span(9, 12)]));
    assert!(!check_disjoint(&vec![span(5, 9), span(0, 5), span(8, 12)]));
    assert!(!check_disjoint(&vec![span(0, 5), span(0, 5)]));
}

#[test]
fn disjoint_ranges_are_packed_as_overlapping_ones_would_be() {
    let tasks: Vec<Task> =
        (0..30).map(|n| chore(n, (n as i64 * 7) % 11, 30 + (n as i64 * 13) % 90)).collect();
    let apart = vec![span(0, 30), span(30, 50), span(60, 70), span(100, 110)];
    let mut crowded = apart.clone();
    crowded.push(span(100, 110));
    let plain = pack(tasks.clone(), &apart).unwrap();
    let checked = pack(tasks, &crowded).unwrap();
    assert_eq!(plain, checked);
}
