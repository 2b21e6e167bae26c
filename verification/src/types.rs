//! Core value types of the world: grid coordinates, player identities,
//! player records and monuments.

use vstd::prelude::*;

verus! {

/// Number of tokens debited when a monument build request is accepted.
pub const BUILD_COST: u32 = 5;

/// Fixed offset applied to the requester's position when placing a new
/// monument, so the monument does not sit exactly on the player's tile.
pub const MONUMENT_DRIFT: i32 = 3;

/// An integer grid position.
#[derive(Clone, Copy, Debug, Hash, PartialEq, Eq, Structural)]
pub struct Coordinate {
    pub x: i32,
    pub y: i32,
}

impl Coordinate {
    /// Offsets both axes by `amount`, towards the origin for a positive
    /// amount; used to place a monument near, but not on, a player.
    pub fn drift_by(self, amount: i32) -> (r: Coordinate)
        requires
            i32::MIN <= self.x - amount <= i32::MAX,
            i32::MIN <= self.y - amount <= i32::MAX,
        ensures
            r.x == self.x - amount,
            r.y == self.y - amount,
    {
        Coordinate { x: self.x - amount, y: self.y - amount }
    }
}

impl Default for Coordinate {
    /// The origin: where every player spawns.
    fn default() -> (r: Coordinate)
        ensures
            r.x == 0,
            r.y == 0,
    {
        Coordinate { x: 0, y: 0 }
    }
}

/// Relies on fastrand::u32 over the full range, which never panics and
/// returns an unpredictable value; nothing is promised of the result.
#[verifier::external_body]
pub(crate) fn random_u32() -> u32 {
    fastrand::u32(..)
}

/// An opaque player identity, minted at connect time.
#[derive(Clone, Copy, Debug, Hash, PartialEq, Eq, Structural)]
pub struct PlayerId(pub u32);

impl PlayerId {
    /// Mints a fresh random identity for a new connection.
    pub fn random() -> PlayerId {
        PlayerId(random_u32())
    }
}

/// The authoritative record of one connected player.
#[derive(Clone, Copy, Debug, Hash, PartialEq, Eq, Structural)]
pub struct PlayerData {
    pub id: PlayerId,
    pub balance: u32,
    pub position: Coordinate,
}

/// A persistent world object requested by a player and produced by the
/// generation gateway; starts under construction and completes at most once.
#[derive(Debug, Hash, PartialEq, Eq)]
pub struct Monument {
    pub id: u32,
    pub asset: String,
    pub description: String,
    pub position: Coordinate,
    pub under_construction: bool,
}

/// The mathematical value of a [`Monument`]: its strings as character
/// sequences.
pub ghost struct MonumentModel {
    pub id: u32,
    pub asset: Seq<char>,
    pub description: Seq<char>,
    pub position: Coordinate,
    pub under_construction: bool,
}

impl View for Monument {
    type V = MonumentModel;

    open spec fn view(&self) -> MonumentModel {
        MonumentModel {
            id: self.id,
            asset: self.asset@,
            description: self.description@,
            position: self.position,
            under_construction: self.under_construction,
        }
    }
}

impl Clone for Monument {
    fn clone(&self) -> (r: Monument)
        ensures
            r@ == self@,
    {
        Monument {
            id: self.id,
            asset: self.asset.clone(),
            description: self.description.clone(),
            position: self.position,
            under_construction: self.under_construction,
        }
    }
}

} // verus!
