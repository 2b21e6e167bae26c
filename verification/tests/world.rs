use gameserver::types::{Coordinate, Monument, PlayerData, PlayerId};
use gameserver::world::World;

fn player(id: u32, balance: u32, x: i32, y: i32) -> PlayerData {
    PlayerData { id: PlayerId(id), balance, position: Coordinate { x, y } }
}

fn pending(id: u32, description: &str, x: i32, y: i32) -> Monument {
    Monument {
        id,
        asset: "under-construction.png".to_string(),
        description: description.to_string(),
        position: Coordinate { x, y },
        under_construction: true,
    }
}

#[test]
fn players_are_stored_and_removed_by_identity() {
    let mut world = World::new();
    assert_eq!(world.get(PlayerId(1)), None);
    world.add(player(1, 0, 0, 0));
    world.add(player(2, 5, 3, -3));
    assert_eq!(world.get(PlayerId(1)), Some(player(1, 0, 0, 0)));
    assert_eq!(world.get(PlayerId(2)), Some(player(2, 5, 3, -3)));
    assert_eq!(world.players().len(), 2);
    // Adding a colliding identity replaces the record.
    world.add(player(1, 9, 1, 1));
    assert_eq!(world.get(PlayerId(1)), Some(player(1, 9, 1, 1)));
    assert_eq!(world.players().len(), 2);
    world.remove(PlayerId(1));
    assert_eq!(world.get(PlayerId(1)), None);
    // Removing an unknown identity is a benign no-op.
    world.remove(PlayerId(1));
    assert_eq!(world.players().len(), 1);
}

#[test]
fn update_coordinate_replaces_the_position() {
    let mut world = World::new();
    world.add(player(1, 0, 0, 0));
    world.update_coordinate(PlayerId(1), Coordinate { x: -7, y: 11 });
    assert_eq!(world.get(PlayerId(1)), Some(player(1, 0, -7, 11)));
    // An unknown identity is a benign no-op.
    world.update_coordinate(PlayerId(2), Coordinate { x: 1, y: 1 });
    assert_eq!(world.players().len(), 1);
}

#[test]
fn increment_balance_adds_exactly_one_token() {
    let mut world = World::new();
    world.add(player(1, 0, 0, 0));
    assert_eq!(world.increment_balance(PlayerId(1)), 1);
    assert_eq!(world.increment_balance(PlayerId(1)), 2);
    assert_eq!(world.increment_balance(PlayerId(1)), 3);
    assert_eq!(world.get(PlayerId(1)).unwrap().balance, 3);
    // An unknown identity yields zero and stores nothing.
    assert_eq!(world.increment_balance(PlayerId(2)), 0);
    assert_eq!(world.players().len(), 1);
}

#[test]
fn decrement_balance_subtracts_exactly_the_amount() {
    let mut world = World::new();
    world.add(player(1, 7, 0, 0));
    assert_eq!(world.decrement_balance_by(PlayerId(1), 5), 2);
    assert_eq!(world.get(PlayerId(1)).unwrap().balance, 2);
    assert_eq!(world.decrement_balance_by(PlayerId(1), 2), 0);
    // An unknown identity yields zero.
    assert_eq!(world.decrement_balance_by(PlayerId(9), 5), 0);
}

#[test]
fn monuments_are_keyed_by_identity_and_overwrite() {
    let mut world = World::new();
    world.add_monument(pending(42, "a lighthouse", -3, -3));
    world.add_monument(pending(43, "a windmill", 4, 4));
    assert_eq!(world.monuments().len(), 2);
    world.add_monument(pending(42, "a taller lighthouse", -3, -3));
    let monuments = world.monuments();
    assert_eq!(monuments.len(), 2);
    let lighthouse = monuments.iter().find(|m| m.id == 42).unwrap();
    assert_eq!(lighthouse.description, "a taller lighthouse");
}

#[test]
fn complete_monument_sets_asset_and_clears_the_flag() {
    let mut world = World::new();
    world.add_monument(pending(42, "a lighthouse", -3, -3));
    let record = world.complete_monument(42, "lighthouse.png").unwrap();
    assert_eq!(record.asset, "lighthouse.png");
    assert!(!record.under_construction);
    assert_eq!(record.description, "a lighthouse");
    let stored = world.monuments();
    assert_eq!(stored.len(), 1);
    assert_eq!(stored[0].asset, "lighthouse.png");
    assert!(!stored[0].under_construction);
}

#[test]
fn complete_monument_twice_is_idempotent() {
    let mut world = World::new();
    world.add_monument(pending(42, "a lighthouse", -3, -3));
    let first = world.complete_monument(42, "lighthouse.png").unwrap();
    let after_once = world.monuments();
    let second = world.complete_monument(42, "lighthouse.png").unwrap();
    let after_twice = world.monuments();
    assert_eq!(first, second);
    assert_eq!(after_once, after_twice);
}

#[test]
fn complete_monument_on_unknown_identity_creates_nothing() {
    let mut world = World::new();
    world.add_monument(pending(42, "a lighthouse", -3, -3));
    assert_eq!(world.complete_monument(77, "spurious.png"), None);
    let stored = world.monuments();
    assert_eq!(stored.len(), 1);
    assert_eq!(stored[0].id, 42);
    assert!(stored[0].under_construction);
}

#[test]
fn drift_by_offsets_both_axes() {
    let c = Coordinate { x: 10, y: -2 }.drift_by(3);
    assert_eq!(c, Coordinate { x: 7, y: -5 });
    let back = c.drift_by(-3);
    assert_eq!(back, Coordinate { x: 10, y: -2 });
}
