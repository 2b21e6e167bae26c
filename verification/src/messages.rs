//! The closed wire message set exchanged between the server and its
//! clients, with its mathematical model.

use vstd::prelude::*;

use crate::types::{Coordinate, Monument, MonumentModel, PlayerData, PlayerId};

verus! {

/// One frame of the wire protocol.
#[derive(Debug, Hash, PartialEq, Eq)]
pub enum SystemMessages {
    Ping,
    Pong,
    Connected { id: PlayerId },
    Welcome { data: PlayerData },
    PlayerPosition { coordinate: Coordinate },
    EnemyPosition { id: PlayerId, coordinate: Coordinate },
    EnemyDisconnected { id: PlayerId },
    BuildMonumentRequest { prompt: String },
    MonumentCompleted { id: u32, asset: String },
    BuildMonument { monument: Monument },
    MainPlayerPickedUpToken,
    MainPlayerCurrentBalance { balance: u32 },
    MainPlayerSpawn { data: PlayerData },
    EnemyPlayerSpawn { data: PlayerData },
}

/// The mathematical value of a [`SystemMessages`] frame: its strings as
/// character sequences.
pub ghost enum MessageModel {
    Ping,
    Pong,
    Connected { id: PlayerId },
    Welcome { data: PlayerData },
    PlayerPosition { coordinate: Coordinate },
    EnemyPosition { id: PlayerId, coordinate: Coordinate },
    EnemyDisconnected { id: PlayerId },
    BuildMonumentRequest { prompt: Seq<char> },
    MonumentCompleted { id: u32, asset: Seq<char> },
    BuildMonument { monument: MonumentModel },
    MainPlayerPickedUpToken,
    MainPlayerCurrentBalance { balance: u32 },
    MainPlayerSpawn { data: PlayerData },
    EnemyPlayerSpawn { data: PlayerData },
}

impl View for SystemMessages {
    type V = MessageModel;

    open spec fn view(&self) -> MessageModel {
        match self {
            SystemMessages::Ping => MessageModel::Ping,
            SystemMessages::Pong => MessageModel::Pong,
            SystemMessages::Connected { id } => MessageModel::Connected { id: *id },
            SystemMessages::Welcome { data } => MessageModel::Welcome { data: *data },
            SystemMessages::PlayerPosition { coordinate } => MessageModel::PlayerPosition {
                coordinate: *coordinate,
            },
            SystemMessages::EnemyPosition { id, coordinate } => MessageModel::EnemyPosition {
                id: *id,
                coordinate: *coordinate,
            },
            SystemMessages::EnemyDisconnected { id } => MessageModel::EnemyDisconnected {
                id: *id,
            },
            SystemMessages::BuildMonumentRequest { prompt } => {
                MessageModel::BuildMonumentRequest { prompt: prompt@ }
            },
            SystemMessages::MonumentCompleted { id, asset } => MessageModel::MonumentCompleted {
                id: *id,
                asset: asset@,
            },
            SystemMessages::BuildMonument { monument } => MessageModel::BuildMonument {
                monument: monument@,
            },
            SystemMessages::MainPlayerPickedUpToken => MessageModel::MainPlayerPickedUpToken,
            SystemMessages::MainPlayerCurrentBalance { balance } => {
                MessageModel::MainPlayerCurrentBalance { balance: *balance }
            },
            SystemMessages::MainPlayerSpawn { data } => MessageModel::MainPlayerSpawn {
                data: *data,
            },
            SystemMessages::EnemyPlayerSpawn { data } => MessageModel::EnemyPlayerSpawn {
                data: *data,
            },
        }
    }
}

impl Clone for SystemMessages {
    fn clone(&self) -> (r: SystemMessages)
        ensures
            r@ == self@,
    {
        match self {
            SystemMessages::Ping => SystemMessages::Ping,
            SystemMessages::Pong => SystemMessages::Pong,
            SystemMessages::Connected { id } => SystemMessages::Connected { id: *id },
            SystemMessages::Welcome { data } => SystemMessages::Welcome { data: *data },
            SystemMessages::PlayerPosition { coordinate } => SystemMessages::PlayerPosition {
                coordinate: *coordinate,
            },
            SystemMessages::EnemyPosition { id, coordinate } => SystemMessages::EnemyPosition {
                id: *id,
                coordinate: *coordinate,
            },
            SystemMessages::EnemyDisconnected { id } => SystemMessages::EnemyDisconnected {
                id: *id,
            },
            SystemMessages::BuildMonumentRequest { prompt } => {
                SystemMessages::BuildMonumentRequest { prompt: prompt.clone() }
            },
            SystemMessages::MonumentCompleted { id, asset } => SystemMessages::MonumentCompleted {
                id: *id,
                asset: asset.clone(),
            },
            SystemMessages::BuildMonument { monument } => SystemMessages::BuildMonument {
                monument: monument.clone(),
            },
            SystemMessages::MainPlayerPickedUpToken => SystemMessages::MainPlayerPickedUpToken,
            SystemMessages::MainPlayerCurrentBalance { balance } => {
                SystemMessages::MainPlayerCurrentBalance { balance: *balance }
            },
            SystemMessages::MainPlayerSpawn { data } => SystemMessages::MainPlayerSpawn {
                data: *data,
            },
            SystemMessages::EnemyPlayerSpawn { data } => SystemMessages::EnemyPlayerSpawn {
                data: *data,
            },
        }
    }
}

} // verus!
