use gameserver::codec::{decode_message, encode_message};
use gameserver::messages::SystemMessages;
use gameserver::types::{Coordinate, Monument, PlayerData, PlayerId};

fn sample_player() -> PlayerData {
    PlayerData { id: PlayerId(7), balance: 3, position: Coordinate { x: -4, y: 9 } }
}

fn sample_monument() -> Monument {
    Monument {
        id: 42,
        asset: "under-construction.png".to_string(),
        description: "a lighthouse at dusk".to_string(),
        position: Coordinate { x: -3, y: -3 },
        under_construction: true,
    }
}

fn assert_round_trip(m: SystemMessages) {
    let bytes = encode_message(&m);
    assert_eq!(decode_message(&bytes), Some(m));
}

#[test]
fn round_trip_ping() {
    assert_round_trip(SystemMessages::Ping);
}

#[test]
fn round_trip_pong() {
    assert_round_trip(SystemMessages::Pong);
}

#[test]
fn round_trip_connected() {
    assert_round_trip(SystemMessages::Connected { id: PlayerId(0xFFFF_FFFF) });
}

#[test]
fn round_trip_welcome() {
    assert_round_trip(SystemMessages::Welcome { data: sample_player() });
}

#[test]
fn round_trip_player_position() {
    assert_round_trip(SystemMessages::PlayerPosition {
        coordinate: Coordinate { x: i32::MIN, y: i32::MAX },
    });
}

#[test]
fn round_trip_enemy_position() {
    assert_round_trip(SystemMessages::EnemyPosition {
        id: PlayerId(1),
        coordinate: Coordinate { x: 0, y: -1 },
    });
}

#[test]
fn round_trip_enemy_disconnected() {
    assert_round_trip(SystemMessages::EnemyDisconnected { id: PlayerId(12345) });
}

#[test]
fn round_trip_build_monument_request() {
    assert_round_trip(SystemMessages::BuildMonumentRequest {
        prompt: "a lighthouse \"tall\", with\nwaves — λ₂ 🗼".to_string(),
    });
}

#[test]
fn round_trip_monument_completed() {
    assert_round_trip(SystemMessages::MonumentCompleted {
        id: 42,
        asset: "lighthouse.png".to_string(),
    });
}

#[test]
fn round_trip_build_monument() {
    assert_round_trip(SystemMessages::BuildMonument { monument: sample_monument() });
}

#[test]
fn round_trip_picked_up_token() {
    assert_round_trip(SystemMessages::MainPlayerPickedUpToken);
}

#[test]
fn round_trip_current_balance() {
    assert_round_trip(SystemMessages::MainPlayerCurrentBalance { balance: 0 });
}

#[test]
fn round_trip_main_player_spawn() {
    assert_round_trip(SystemMessages::MainPlayerSpawn { data: sample_player() });
}

#[test]
fn round_trip_enemy_player_spawn() {
    assert_round_trip(SystemMessages::EnemyPlayerSpawn { data: sample_player() });
}

#[test]
fn encoding_is_the_documented_layout() {
    assert_eq!(encode_message(&SystemMessages::Ping), vec![0u8]);
    assert_eq!(encode_message(&SystemMessages::Pong), vec![1u8]);
    // Tag byte, then the balance in little-endian bytes.
    assert_eq!(
        encode_message(&SystemMessages::MainPlayerCurrentBalance { balance: 0x0403_0201 }),
        vec![11u8, 1, 2, 3, 4]
    );
    // A signed axis is shifted up by 2^31: zero encodes as 0x80000000.
    assert_eq!(
        encode_message(&SystemMessages::PlayerPosition {
            coordinate: Coordinate { x: 0, y: -1 }
        }),
        vec![4u8, 0, 0, 0, 0x80, 0xFF, 0xFF, 0xFF, 0x7F]
    );
    // A string is its character count in eight bytes, then one scalar per
    // character in four.
    assert_eq!(
        encode_message(&SystemMessages::MonumentCompleted { id: 5, asset: "A⊕".to_string() }),
        vec![8u8, 5, 0, 0, 0, 2, 0, 0, 0, 0, 0, 0, 0, 0x41, 0, 0, 0, 0x95, 0x22, 0, 0]
    );
}

#[test]
fn malformed_frames_decode_to_nothing() {
    // Empty frame.
    assert_eq!(decode_message(&vec![]), None);
    // Unknown tag.
    assert_eq!(decode_message(&vec![14u8]), None);
    assert_eq!(decode_message(&vec![255u8]), None);
    // Trailing byte after a complete body.
    assert_eq!(decode_message(&vec![0u8, 0]), None);
    // Truncated body.
    assert_eq!(decode_message(&vec![2u8, 1, 2]), None);
    // String length runs past the end of the frame.
    assert_eq!(decode_message(&vec![7u8, 9, 0, 0, 0, 0, 0, 0, 0]), None);
    // A surrogate is not a Unicode scalar.
    assert_eq!(decode_message(&vec![7u8, 1, 0, 0, 0, 0, 0, 0, 0, 0x00, 0xD8, 0, 0]), None);
    // A boolean byte other than zero or one.
    let mut frame = encode_message(&SystemMessages::BuildMonument {
        monument: sample_monument(),
    });
    let last = frame.len() - 1;
    frame[last] = 2;
    assert_eq!(decode_message(&frame), None);
}
