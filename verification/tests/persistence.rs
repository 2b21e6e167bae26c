use gameserver::persist::{monument_from_line, monument_to_line, parse_u32};
use gameserver::types::{Coordinate, Monument};
use gameserver::world::World;

fn record(id: u32, description: &str, asset: &str, x: i32, y: i32, pending: bool) -> Monument {
    Monument {
        id,
        asset: asset.to_string(),
        description: description.to_string(),
        position: Coordinate { x, y },
        under_construction: pending,
    }
}

#[test]
fn a_record_line_is_canonical_json() {
    let line = monument_to_line(&record(42, "a lighthouse", "lighthouse.png", -3, 17, false));
    assert_eq!(
        line,
        "{\"id\":42,\"asset\":\"lighthouse.png\",\"description\":\"a lighthouse\",\
         \"position\":{\"x\":-3,\"y\":17},\"under_construction\":false}"
    );
}

#[test]
fn a_written_line_reads_back_as_the_record() {
    let m = record(0, "plain", "a.png", 0, 0, true);
    assert_eq!(monument_from_line(monument_to_line(&m).as_str()), Some(m));
    let awkward = record(
        u32::MAX,
        "quotes \" and \\ backslash,\nnewline, tab\t, bell\u{7}, λ — 🗼",
        "under-construction.png",
        i32::MIN,
        i32::MAX,
        true,
    );
    assert_eq!(
        monument_from_line(monument_to_line(&awkward).as_str()),
        Some(awkward)
    );
}

#[test]
fn escapes_appear_in_the_written_line() {
    let line = monument_to_line(&record(1, "say \"hi\"\n", "a\\b.png", 0, 0, true));
    assert_eq!(
        line,
        "{\"id\":1,\"asset\":\"a\\\\b.png\",\"description\":\"say \\\"hi\\\"\\u000a\",\
         \"position\":{\"x\":0,\"y\":0},\"under_construction\":true}"
    );
}

#[test]
fn malformed_lines_read_back_as_nothing() {
    assert_eq!(monument_from_line(""), None);
    assert_eq!(monument_from_line("{\"id\":42}"), None);
    // Trailing characters after the closing brace.
    let mut line = monument_to_line(&record(1, "a", "b", 0, 0, true));
    line.push(' ');
    assert_eq!(monument_from_line(line.as_str()), None);
    // An identity too large for its field.
    assert_eq!(
        monument_from_line(
            "{\"id\":4294967296,\"asset\":\"a\",\"description\":\"b\",\
             \"position\":{\"x\":0,\"y\":0},\"under_construction\":true}"
        ),
        None
    );
    // A raw control character inside a string.
    assert_eq!(
        monument_from_line(
            "{\"id\":1,\"asset\":\"a\nb\",\"description\":\"b\",\
             \"position\":{\"x\":0,\"y\":0},\"under_construction\":true}"
        ),
        None
    );
}

#[test]
fn restore_replays_the_last_written_state_per_identity() {
    // Write a log of five records, two of them overwriting earlier ones.
    let records = vec![
        record(1, "a lighthouse", "under-construction.png", -3, -3, true),
        record(2, "a windmill", "under-construction.png", 4, 4, true),
        record(1, "a lighthouse", "lighthouse.png", -3, -3, false),
        record(3, "a fountain", "under-construction.png", 0, 9, true),
        record(2, "a windmill", "windmill.png", 4, 4, false),
    ];
    let lines: Vec<String> = records.iter().map(monument_to_line).collect();
    // Restart: a fresh world replays the log.
    let mut world = World::new();
    assert!(world.restore_from_log(&lines));
    let mut restored = world.monuments();
    restored.sort_by_key(|m| m.id);
    assert_eq!(
        restored,
        vec![
            record(1, "a lighthouse", "lighthouse.png", -3, -3, false),
            record(2, "a windmill", "windmill.png", 4, 4, false),
            record(3, "a fountain", "under-construction.png", 0, 9, true),
        ]
    );
}

#[test]
fn restore_is_idempotent() {
    let lines = vec![
        monument_to_line(&record(1, "a lighthouse", "lighthouse.png", -3, -3, false)),
        monument_to_line(&record(2, "a windmill", "under-construction.png", 4, 4, true)),
    ];
    let mut world = World::new();
    assert!(world.restore_from_log(&lines));
    let once = world.monuments();
    assert!(world.restore_from_log(&lines));
    let twice = world.monuments();
    assert_eq!(once, twice);
}

#[test]
fn restore_stops_cleanly_at_a_corrupt_line() {
    let lines = vec![
        monument_to_line(&record(1, "a lighthouse", "lighthouse.png", -3, -3, false)),
        "{\"id\":2,\"asset\":\"wind".to_string(),
        monument_to_line(&record(3, "a fountain", "fountain.png", 0, 9, false)),
    ];
    let mut world = World::new();
    assert!(!world.restore_from_log(&lines));
    // What stood before the corrupt line is kept; what follows it is not.
    let restored = world.monuments();
    assert_eq!(restored.len(), 1);
    assert_eq!(restored[0].id, 1);
}

#[test]
fn whole_string_numbers_parse_exactly() {
    assert_eq!(parse_u32("0"), Some(0));
    assert_eq!(parse_u32("42"), Some(42));
    assert_eq!(parse_u32("4294967295"), Some(u32::MAX));
    assert_eq!(parse_u32("4294967296"), None);
    assert_eq!(parse_u32(""), None);
    assert_eq!(parse_u32("12a"), None);
    assert_eq!(parse_u32("-1"), None);
    assert_eq!(parse_u32("007"), Some(7));
}
