use action_filter::{Action, Priority};
use action_filter::{process_actions, process_actions_at};

const SECONDS_PER_DAY: i64 = 86400;

fn action(id: &str, last: i64, next: i64, priority: Priority) -> Action {
    Action {
        entity_id: id.to_string(),
        last_action_time: last,
        next_action_time: next,
        priority,
    }
}

#[test]
fn test_boundaries_one_second_past() {
    let now: i64 = 1_750_000_000;

    // Due one second past the 90-day bound: excluded.
    let output = process_actions_at(
        vec![action(
            "late_due",
            now - 30 * SECONDS_PER_DAY,
            now + 90 * SECONDS_PER_DAY + 1,
            Priority::Urgent,
        )],
        now,
    );
    assert!(
        output.is_empty(),
        "Action due 90 days and 1 second out should be excluded"
    );

    // Performed one second less than 7 days ago: excluded.
    let output = process_actions_at(
        vec![action(
            "too_recent",
            now - 7 * SECONDS_PER_DAY + 1,
            now + SECONDS_PER_DAY,
            Priority::Urgent,
        )],
        now,
    );
    assert!(
        output.is_empty(),
        "Action performed less than 7 days ago should be excluded"
    );
}

#[test]
fn test_exact_output_small_numbers() {
    // Handpicked seconds: now such that the thresholds are easy to read.
    let now: i64 = 10_000_000;
    let due_bound = now + 90 * SECONDS_PER_DAY; // 17_776_000
    let repeat_bound = now - 7 * SECONDS_PER_DAY; // 9_395_200

    let input = vec![
        action("a", repeat_bound, due_bound, Priority::Normal), // both bounds exactly: kept
        action("b", repeat_bound - 1, due_bound - 1, Priority::Urgent), // inside: kept
        action("c", repeat_bound + 1, due_bound, Priority::Urgent), // too recent: dropped
        action("d", repeat_bound, due_bound + 1, Priority::Urgent), // due too far out: dropped
    ];

    let output = process_actions_at(input, now);

    assert_eq!(output.len(), 2);
    // Urgent before normal; within a priority the surviving input order holds.
    assert_eq!(output[0], action("b", 9_395_199, 17_775_999, Priority::Urgent));
    assert_eq!(output[1], action("a", 9_395_200, 17_776_000, Priority::Normal));
}

#[test]
fn test_partition_urgent_before_normal() {
    let now: i64 = 1_750_000_000;
    let last = now - 30 * SECONDS_PER_DAY;
    let next = now + 30 * SECONDS_PER_DAY;
    let input = vec![
        action("n1", last, next, Priority::Normal),
        action("u1", last, next, Priority::Urgent),
        action("n2", last, next, Priority::Normal),
        action("u2", last, next, Priority::Urgent),
    ];

    let output = process_actions_at(input, now);

    assert_eq!(output.len(), 4);
    let mut seen_normal = false;
    for a in &output {
        if a.priority == Priority::Normal {
            seen_normal = true;
        } else {
            assert!(
                !seen_normal,
                "Found urgent priority after normal priority - sorting is incorrect"
            );
        }
    }
    // Equal-priority records keep their surviving order.
    assert_eq!(output[0].entity_id, "u1");
    assert_eq!(output[1].entity_id, "u2");
    assert_eq!(output[2].entity_id, "n1");
    assert_eq!(output[3].entity_id, "n2");
}

#[test]
fn test_dedup_keeps_one_record_per_entity() {
    let now: i64 = 1_750_000_000;
    let last = now - 30 * SECONDS_PER_DAY;
    let next = now + 30 * SECONDS_PER_DAY;
    let input = vec![
        action("x", last, next, Priority::Urgent),
        action("y", last - 100, next, Priority::Normal),
        action("x", last - 200, next + 50, Priority::Normal),
        action("z", last, next, Priority::Normal),
        action("x", last - 300, next + 70, Priority::Normal),
    ];

    let output = process_actions_at(input, now);

    // Three distinct ids pass the windows, so three records come out.
    assert_eq!(output.len(), 3);
    let mut ids: Vec<&str> = output.iter().map(|a| a.entity_id.as_str()).collect();
    ids.sort();
    ids.dedup();
    assert_eq!(ids, vec!["x", "y", "z"]);
    // The record kept for "x" is the one listed last.
    let x = output.iter().find(|a| a.entity_id == "x").unwrap();
    assert_eq!(x.last_action_time, last - 300);
    assert_eq!(x.next_action_time, next + 70);
    assert_eq!(x.priority, Priority::Normal);
}

#[test]
fn test_processing_is_idempotent() {
    let now: i64 = 1_750_000_000;
    let last = now - 30 * SECONDS_PER_DAY;
    let next = now + 30 * SECONDS_PER_DAY;
    let input = vec![
        action("p", last, next, Priority::Normal),
        action("q", last, next, Priority::Urgent),
        action("p", last - 5, next + 5, Priority::Urgent),
        action("r", now - SECONDS_PER_DAY, next, Priority::Normal), // too recent
    ];

    let once = process_actions_at(input, now);
    let twice = process_actions_at(once.clone(), now);
    assert_eq!(twice, once);
}

#[test]
fn test_action_ordering_by_next_time() {
    let earlier = action("a", 0, 100, Priority::Normal);
    let later = action("b", 0, 200, Priority::Urgent);
    assert!(earlier < later);
    assert!(!(later < earlier));
    assert_eq!(
        earlier.partial_cmp(&action("c", 50, 100, Priority::Urgent)),
        Some(std::cmp::Ordering::Equal)
    );
}

#[test]
fn test_clock_independent_records() {
    // Whatever instant the clock reads, a record last performed at the far
    // future end of time is always too recent, and one whose timestamps sit
    // at the far past end of time always passes both windows.
    let always_out = action("never", i64::MAX, i64::MAX, Priority::Urgent);
    let always_in = action("ever", i64::MIN, i64::MIN, Priority::Normal);

    let output = process_actions(vec![always_out.clone()]);
    assert!(output.is_empty());

    let output = process_actions(vec![always_in.clone()]);
    assert_eq!(output, vec![always_in]);
}
