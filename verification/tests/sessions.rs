use gameserver::manager::{Manager, ScopedManager};
use gameserver::messages::SystemMessages;
use gameserver::session::{
    handle_connect, handle_disconnect, handle_generation_accepted, handle_generation_webhook,
    handle_player_communication,
};
use gameserver::types::{Coordinate, PlayerData, PlayerId};
use gameserver::world::World;

fn spawn_data(id: u32) -> PlayerData {
    PlayerData { id: PlayerId(id), balance: 0, position: Coordinate { x: 0, y: 0 } }
}

#[test]
fn connecting_player_receives_its_own_spawn() {
    let mut world = World::new();
    let mut manager = Manager::new();
    handle_connect(&mut world, &mut manager, PlayerId(1));
    // The fresh session's first message is its own snapshot: zero balance at
    // the default coordinate. An empty world adds no peer or monument burst.
    assert_eq!(
        manager.take_outbound(PlayerId(1)),
        vec![SystemMessages::MainPlayerSpawn { data: spawn_data(1) }]
    );
}

#[test]
fn onboarding_replays_peers_and_monuments() {
    let mut world = World::new();
    let mut manager = Manager::new();
    handle_connect(&mut world, &mut manager, PlayerId(1));
    manager.take_outbound(PlayerId(1));
    // An existing monument and an existing peer both reach the newcomer.
    let scope1 = ScopedManager::new(PlayerId(1));
    let req = handle_player_communication(
        &scope1,
        &mut world,
        &mut manager,
        SystemMessages::BuildMonumentRequest { prompt: "a fountain".to_string() },
    );
    assert!(req.is_none(), "a fresh player holds no tokens");
    for _ in 0..5 {
        handle_player_communication(
            &scope1,
            &mut world,
            &mut manager,
            SystemMessages::MainPlayerPickedUpToken,
        );
    }
    let req = handle_player_communication(
        &scope1,
        &mut world,
        &mut manager,
        SystemMessages::BuildMonumentRequest { prompt: "a fountain".to_string() },
    );
    let req = req.unwrap();
    handle_generation_accepted(&scope1, &mut world, &mut manager, req, 9);
    manager.take_outbound(PlayerId(1));

    handle_connect(&mut world, &mut manager, PlayerId(2));
    let received = manager.take_outbound(PlayerId(2));
    assert_eq!(received.len(), 3);
    assert_eq!(
        received[0],
        SystemMessages::MainPlayerSpawn { data: spawn_data(2) }
    );
    assert!(matches!(
        &received[1],
        SystemMessages::EnemyPlayerSpawn { data } if data.id == PlayerId(1)
    ));
    assert!(matches!(
        &received[2],
        SystemMessages::BuildMonument { monument } if monument.id == 9
    ));
}

#[test]
fn ping_is_answered_with_pong_to_the_sender_alone() {
    let mut world = World::new();
    let mut manager = Manager::new();
    handle_connect(&mut world, &mut manager, PlayerId(1));
    handle_connect(&mut world, &mut manager, PlayerId(2));
    manager.take_outbound(PlayerId(1));
    manager.take_outbound(PlayerId(2));
    let scope = ScopedManager::new(PlayerId(1));
    handle_player_communication(&scope, &mut world, &mut manager, SystemMessages::Ping);
    assert_eq!(manager.take_outbound(PlayerId(1)), vec![SystemMessages::Pong]);
    assert_eq!(manager.take_outbound(PlayerId(2)), vec![]);
}

#[test]
fn token_pickup_reports_the_new_balance() {
    let mut world = World::new();
    let mut manager = Manager::new();
    handle_connect(&mut world, &mut manager, PlayerId(1));
    manager.take_outbound(PlayerId(1));
    let scope = ScopedManager::new(PlayerId(1));
    handle_player_communication(
        &scope,
        &mut world,
        &mut manager,
        SystemMessages::MainPlayerPickedUpToken,
    );
    assert_eq!(world.get(PlayerId(1)).unwrap().balance, 1);
    assert_eq!(
        manager.take_outbound(PlayerId(1)),
        vec![SystemMessages::MainPlayerCurrentBalance { balance: 1 }]
    );
}

#[test]
fn accepted_build_debits_the_cost_and_announces_to_all() {
    let mut world = World::new();
    let mut manager = Manager::new();
    handle_connect(&mut world, &mut manager, PlayerId(1));
    handle_connect(&mut world, &mut manager, PlayerId(2));
    manager.take_outbound(PlayerId(1));
    manager.take_outbound(PlayerId(2));
    let scope = ScopedManager::new(PlayerId(1));
    for _ in 0..5 {
        handle_player_communication(
            &scope,
            &mut world,
            &mut manager,
            SystemMessages::MainPlayerPickedUpToken,
        );
    }
    manager.take_outbound(PlayerId(1));
    assert_eq!(world.get(PlayerId(1)).unwrap().balance, 5);

    let request = handle_player_communication(
        &scope,
        &mut world,
        &mut manager,
        SystemMessages::BuildMonumentRequest { prompt: "lighthouse".to_string() },
    )
    .expect("five tokens cover the build cost");
    handle_generation_accepted(&scope, &mut world, &mut manager, request, 42);

    assert_eq!(world.get(PlayerId(1)).unwrap().balance, 0);
    let stored = world.monuments();
    assert_eq!(stored.len(), 1);
    assert_eq!(stored[0].id, 42);
    assert_eq!(stored[0].description, "lighthouse");
    assert_eq!(stored[0].asset, "under-construction.png");
    assert!(stored[0].under_construction);
    // Placement drifts off the requester's tile.
    assert_eq!(stored[0].position, Coordinate { x: -3, y: -3 });

    // The requester hears its new balance, then the pending monument; the
    // peer hears the pending monument too.
    let to_requester = manager.take_outbound(PlayerId(1));
    assert_eq!(to_requester.len(), 2);
    assert_eq!(
        to_requester[0],
        SystemMessages::MainPlayerCurrentBalance { balance: 0 }
    );
    assert!(matches!(
        &to_requester[1],
        SystemMessages::BuildMonument { monument } if monument.id == 42
    ));
    let to_peer = manager.take_outbound(PlayerId(2));
    assert_eq!(to_peer.len(), 1);
    assert!(matches!(
        &to_peer[0],
        SystemMessages::BuildMonument { monument } if monument.id == 42
    ));
}

#[test]
fn webhook_completes_the_monument_and_announces_to_all() {
    let mut world = World::new();
    let mut manager = Manager::new();
    handle_connect(&mut world, &mut manager, PlayerId(1));
    handle_connect(&mut world, &mut manager, PlayerId(2));
    let scope = ScopedManager::new(PlayerId(1));
    for _ in 0..5 {
        handle_player_communication(
            &scope,
            &mut world,
            &mut manager,
            SystemMessages::MainPlayerPickedUpToken,
        );
    }
    let request = handle_player_communication(
        &scope,
        &mut world,
        &mut manager,
        SystemMessages::BuildMonumentRequest { prompt: "lighthouse".to_string() },
    )
    .unwrap();
    handle_generation_accepted(&scope, &mut world, &mut manager, request, 42);
    manager.take_outbound(PlayerId(1));
    manager.take_outbound(PlayerId(2));

    let record = handle_generation_webhook(&mut world, &mut manager, 42, "lighthouse.png");
    let record = record.expect("the monument was pending");
    assert_eq!(record.asset, "lighthouse.png");
    assert!(!record.under_construction);
    let stored = world.monuments();
    assert_eq!(stored[0].asset, "lighthouse.png");
    assert!(!stored[0].under_construction);
    let completion = SystemMessages::MonumentCompleted {
        id: 42,
        asset: "lighthouse.png".to_string(),
    };
    assert_eq!(manager.take_outbound(PlayerId(1)), vec![completion.clone()]);
    assert_eq!(manager.take_outbound(PlayerId(2)), vec![completion]);
}

#[test]
fn position_update_reaches_every_peer_but_the_mover() {
    let mut world = World::new();
    let mut manager = Manager::new();
    handle_connect(&mut world, &mut manager, PlayerId(1));
    handle_connect(&mut world, &mut manager, PlayerId(2));
    manager.take_outbound(PlayerId(1));
    manager.take_outbound(PlayerId(2));
    let scope = ScopedManager::new(PlayerId(1));
    handle_player_communication(
        &scope,
        &mut world,
        &mut manager,
        SystemMessages::PlayerPosition { coordinate: Coordinate { x: 5, y: 7 } },
    );
    assert_eq!(world.get(PlayerId(1)).unwrap().position, Coordinate { x: 5, y: 7 });
    assert_eq!(
        manager.take_outbound(PlayerId(2)),
        vec![SystemMessages::EnemyPosition {
            id: PlayerId(1),
            coordinate: Coordinate { x: 5, y: 7 },
        }]
    );
    assert_eq!(manager.take_outbound(PlayerId(1)), vec![]);
}

#[test]
fn disconnect_notifies_the_others_and_silences_the_gone() {
    let mut world = World::new();
    let mut manager = Manager::new();
    handle_connect(&mut world, &mut manager, PlayerId(1));
    handle_connect(&mut world, &mut manager, PlayerId(2));
    manager.take_outbound(PlayerId(1));
    manager.take_outbound(PlayerId(2));
    handle_disconnect(&mut world, &mut manager, PlayerId(1));
    assert_eq!(world.get(PlayerId(1)), None);
    assert_eq!(
        manager.take_outbound(PlayerId(2)),
        vec![SystemMessages::EnemyDisconnected { id: PlayerId(1) }]
    );
    // Sends to the departed identity are dropped without a trace.
    manager.broadcast_to(PlayerId(1), SystemMessages::Pong);
    assert_eq!(manager.take_outbound(PlayerId(1)), vec![]);
    assert_eq!(manager.len(), 1);
}

#[test]
fn registry_count_tracks_the_live_sessions() {
    let mut world = World::new();
    let mut manager = Manager::new();
    assert_eq!(manager.len(), 0);
    let ids = [3u32, 14, 15, 92, 65];
    for (k, id) in ids.iter().enumerate() {
        handle_connect(&mut world, &mut manager, PlayerId(*id));
        assert_eq!(manager.len(), k + 1);
        assert_eq!(world.players().len(), k + 1);
    }
    handle_disconnect(&mut world, &mut manager, PlayerId(15));
    assert_eq!(manager.len(), 4);
    assert_eq!(world.players().len(), 4);
    handle_disconnect(&mut world, &mut manager, PlayerId(3));
    assert_eq!(manager.len(), 3);
    assert_eq!(world.players().len(), 3);
    handle_connect(&mut world, &mut manager, PlayerId(15));
    assert_eq!(manager.len(), 4);
    assert_eq!(world.players().len(), 4);
}

#[test]
fn broadcast_except_excludes_exactly_the_named_identity() {
    let mut world = World::new();
    let mut manager = Manager::new();
    for id in [1u32, 2, 3, 4] {
        handle_connect(&mut world, &mut manager, PlayerId(id));
    }
    for id in [1u32, 2, 3, 4] {
        manager.take_outbound(PlayerId(id));
    }
    let scope = ScopedManager::new(PlayerId(3));
    scope.broadcast_except_self(&mut manager, SystemMessages::Pong);
    for id in [1u32, 2, 4] {
        assert_eq!(manager.take_outbound(PlayerId(id)), vec![SystemMessages::Pong]);
    }
    assert_eq!(manager.take_outbound(PlayerId(3)), vec![]);
}

#[test]
fn insufficient_balance_rejects_the_build_request() {
    let mut world = World::new();
    let mut manager = Manager::new();
    handle_connect(&mut world, &mut manager, PlayerId(1));
    manager.take_outbound(PlayerId(1));
    let scope = ScopedManager::new(PlayerId(1));
    for _ in 0..4 {
        handle_player_communication(
            &scope,
            &mut world,
            &mut manager,
            SystemMessages::MainPlayerPickedUpToken,
        );
    }
    manager.take_outbound(PlayerId(1));
    let request = handle_player_communication(
        &scope,
        &mut world,
        &mut manager,
        SystemMessages::BuildMonumentRequest { prompt: "lighthouse".to_string() },
    );
    assert!(request.is_none(), "four tokens fall short of the build cost");
    assert_eq!(world.get(PlayerId(1)).unwrap().balance, 4);
    assert_eq!(world.monuments().len(), 0);
    assert_eq!(manager.take_outbound(PlayerId(1)), vec![]);
}

#[test]
fn irrelevant_frames_are_ignored() {
    let mut world = World::new();
    let mut manager = Manager::new();
    handle_connect(&mut world, &mut manager, PlayerId(1));
    manager.take_outbound(PlayerId(1));
    let scope = ScopedManager::new(PlayerId(1));
    handle_player_communication(&scope, &mut world, &mut manager, SystemMessages::Pong);
    handle_player_communication(
        &scope,
        &mut world,
        &mut manager,
        SystemMessages::MainPlayerCurrentBalance { balance: 99 },
    );
    handle_player_communication(
        &scope,
        &mut world,
        &mut manager,
        SystemMessages::EnemyDisconnected { id: PlayerId(2) },
    );
    assert_eq!(world.get(PlayerId(1)).unwrap().balance, 0);
    assert_eq!(manager.take_outbound(PlayerId(1)), vec![]);
}
