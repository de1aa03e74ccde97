use action_filter::{Action, Priority};
use action_filter::{process_actions, process_actions_at};

/// Parses an RFC 3339 date string into UTC seconds since the Unix epoch.
fn parse_date(s: &str) -> i64 {
    chrono::DateTime::parse_from_rfc3339(s)
        .expect("test dates are well-formed")
        .timestamp()
}

const SECONDS_PER_DAY: i64 = 86400;

#[test]
fn test_filter_and_sort_actions() {
    // An evaluation instant against which the four records below split as the
    // comments say: a week after entity_2 last ran, under a week after
    // entity_4 last ran, and more than 90 days before entity_3 is due.
    let now = parse_date("2025-07-01T00:00:00Z");
    let input = vec![
        Action {
            entity_id: "entity_1".to_string(),
            last_action_time: parse_date("2025-06-20T00:00:00Z"),
            next_action_time: parse_date("2025-07-10T00:00:00Z"),
            priority: Priority::Urgent,
        },
        Action {
            entity_id: "entity_2".to_string(),
            last_action_time: parse_date("2025-06-01T00:00:00Z"),
            next_action_time: parse_date("2025-07-01T00:00:00Z"),
            priority: Priority::Normal,
        },
        Action {
            entity_id: "entity_3".to_string(),
            last_action_time: parse_date("2025-03-01T00:00:00Z"),
            next_action_time: parse_date("2026-01-01T00:00:00Z"),
            priority: Priority::Urgent, // should be excluded (next_action too far)
        },
        Action {
            entity_id: "entity_4".to_string(),
            last_action_time: parse_date("2025-06-25T00:00:00Z"),
            next_action_time: parse_date("2025-07-10T00:00:00Z"),
            priority: Priority::Urgent, // should be excluded (last_action < 7 days ago)
        },
    ];

    let output = process_actions_at(input, now);

    assert!(
        output.len() == 2,
        "Expected 2 actions after filtering, got {}",
        output.len()
    );
    assert!(
        output[0].entity_id == "entity_1",
        "Expected first action to be entity_1, got {}",
        output[0].entity_id
    );
    assert!(
        output[0].priority == Priority::Urgent,
        "Expected first action to have Urgent priority, got {:?}",
        output[0].priority
    );
    assert!(
        output[1].entity_id == "entity_2",
        "Expected second action to be entity_2, got {}",
        output[1].entity_id
    );
    assert!(
        output[1].priority == Priority::Normal,
        "Expected second action to have Normal priority, got {:?}",
        output[1].priority
    );
}

#[test]
fn test_deduplication_with_priority_conflict() {
    let now = parse_date("2025-07-01T00:00:00Z");
    let input = vec![
        Action {
            entity_id: "duplicate".to_string(),
            last_action_time: parse_date("2025-05-01T00:00:00Z"),
            next_action_time: parse_date("2025-07-01T00:00:00Z"),
            priority: Priority::Normal,
        },
        Action {
            entity_id: "duplicate".to_string(),
            last_action_time: parse_date("2025-05-01T00:00:00Z"),
            next_action_time: parse_date("2025-07-01T00:00:00Z"),
            priority: Priority::Urgent,
        },
    ];

    let output = process_actions_at(input, now);

    assert!(
        output[0].entity_id == "duplicate",
        "Expected action to be for entity 'duplicate', got {}",
        output[0].entity_id
    );
    // Keeps the last seen record, so the Urgent one survives.
    assert!(
        output[0].priority == Priority::Urgent,
        "Expected single remaining item to be Urgent"
    );
}

#[test]
fn test_last_action_time_exactly_7_days() {
    let now = chrono::Utc::now().timestamp();
    let input = vec![Action {
        entity_id: "test".into(),
        last_action_time: now - 7 * SECONDS_PER_DAY,
        next_action_time: now + SECONDS_PER_DAY,
        priority: Priority::Normal,
    }];

    let output = process_actions_at(input, now);

    // The 7-day bound is inclusive: an action performed exactly 7 days ago
    // is old enough to resurface.
    assert!(
        output.len() == 1,
        "Expected action exactly 7 days old to be retained"
    );
}

#[test]
fn test_next_action_time_exactly_90_days() {
    let now = chrono::Utc::now().timestamp();
    let input = vec![Action {
        entity_id: "edge_90_days".to_string(),
        last_action_time: now - 10 * SECONDS_PER_DAY,
        next_action_time: now + 90 * SECONDS_PER_DAY,
        priority: Priority::Normal,
    }];

    let output = process_actions_at(input, now);
    assert!(output.len() == 1, "Action 90 days out should be included");
}

#[test]
fn test_time_filtering_integration() {
    let now = chrono::Utc::now().timestamp();
    let input = vec![
        Action {
            entity_id: "entity_1".to_string(),
            last_action_time: now - 20 * SECONDS_PER_DAY,
            next_action_time: now + 30 * SECONDS_PER_DAY,
            priority: Priority::Urgent,
        },
        Action {
            entity_id: "entity_1".to_string(),
            last_action_time: now - 30 * SECONDS_PER_DAY,
            next_action_time: now + 40 * SECONDS_PER_DAY,
            priority: Priority::Normal,
        },
        Action {
            entity_id: "entity_2".to_string(),
            last_action_time: now - 50 * SECONDS_PER_DAY,
            next_action_time: now + 120 * SECONDS_PER_DAY,
            priority: Priority::Normal,
        },
        Action {
            entity_id: "entity_3".to_string(),
            last_action_time: now - 40 * SECONDS_PER_DAY,
            next_action_time: now + 60 * SECONDS_PER_DAY,
            priority: Priority::Normal,
        },
        Action {
            entity_id: "entity_4".to_string(),
            last_action_time: now - 2 * SECONDS_PER_DAY,
            next_action_time: now + 10 * SECONDS_PER_DAY,
            priority: Priority::Urgent,
        },
    ];

    let output = process_actions_at(input, now);

    for action in &output {
        let days_since_last = (now - action.last_action_time) / SECONDS_PER_DAY;
        assert!(
            days_since_last >= 7,
            "Action {} has last_action_time only {} days ago (should be >= 7)",
            action.entity_id,
            days_since_last
        );

        let days_until_next = (action.next_action_time - now) / SECONDS_PER_DAY;
        assert!(
            days_until_next <= 90,
            "Action {} has next_action_time {} days away (should be <= 90)",
            action.entity_id,
            days_until_next
        );
    }
    assert!(
        output.len() == 2,
        "Expected the two in-window entities, got {}",
        output.len()
    );
}

#[test]
fn test_empty_input_array() {
    let output = process_actions(Vec::new());
    assert!(
        output.is_empty(),
        "Expected empty array for empty input, got {} actions",
        output.len()
    );
}
