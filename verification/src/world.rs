//! The authoritative store of players and monuments: the single source of
//! truth that sessions and the webhook path read and update. Each table is a
//! sequence with pairwise-distinct identities, specified through the map it
//! denotes; callers running sessions concurrently are expected to guard the
//! store with a mutual-exclusion discipline and call one operation at a time.

use vstd::prelude::*;

use crate::kv::{assoc_map, has_key, lemma_assoc_absent, lemma_assoc_at,
    lemma_assoc_push, lemma_assoc_remove, lemma_assoc_update, unique_keys};
use crate::types::{Coordinate, Monument, MonumentModel, PlayerData, PlayerId};

verus! {

pub struct World {
    pub players: Vec<PlayerData>,
    pub monuments: Vec<Monument>,
}

impl World {
    /// The player table as key-value pairs.
    pub open spec fn players_pairs(self) -> Seq<(u32, PlayerData)> {
        self.players@.map_values(|p: PlayerData| (p.id.0, p))
    }

    /// The monument table as key-value pairs.
    pub open spec fn monuments_pairs(self) -> Seq<(u32, MonumentModel)> {
        self.monuments@.map_values(|m: Monument| (m.id, m@))
    }

    /// The players, keyed by identity.
    pub open spec fn players_map(self) -> Map<u32, PlayerData> {
        assoc_map(self.players_pairs())
    }

    /// The monuments, keyed by identity.
    pub open spec fn monuments_map(self) -> Map<u32, MonumentModel> {
        assoc_map(self.monuments_pairs())
    }

    /// Well-formedness: every player and every monument is keyed by exactly
    /// one entry of its table.
    pub open spec fn wf(self) -> bool {
        unique_keys(self.players_pairs()) && unique_keys(self.monuments_pairs())
    }

    /// An empty world.
    pub fn new() -> (r: World)
        ensures
            r.wf(),
            r.players_map() == Map::<u32, PlayerData>::empty(),
            r.monuments_map() == Map::<u32, MonumentModel>::empty(),
    {
        let r = World { players: Vec::new(), monuments: Vec::new() };
        proof {
            assert(r.players_map() =~= Map::<u32, PlayerData>::empty());
            assert(r.monuments_map() =~= Map::<u32, MonumentModel>::empty());
        }
        r
    }

    /// The index of the player with the given identity, if any.
    fn find_player(&self, id: PlayerId) -> (r: Option<usize>)
        ensures
            match r {
                Some(i) => i < self.players@.len() && self.players_pairs()[i as int].0 == id.0,
                None => !has_key(self.players_pairs(), id.0),
            },
    {
        let mut i: usize = 0;
        while i < self.players.len()
            invariant
                i <= self.players@.len(),
                forall|j: int| 0 <= j < i ==> (#[trigger] self.players_pairs()[j]).0 != id.0,
            decreases self.players@.len() - i,
        {
            if self.players[i].id.0 == id.0 {
                return Some(i);
            }
            i = i + 1;
        }
        None
    }

    /// The index of the monument with the given identity, if any.
    fn find_monument(&self, id: u32) -> (r: Option<usize>)
        ensures
            match r {
                Some(i) => i < self.monuments@.len() && self.monuments_pairs()[i as int].0 == id,
                None => !has_key(self.monuments_pairs(), id),
            },
    {
        let mut i: usize = 0;
        while i < self.monuments.len()
            invariant
                i <= self.monuments@.len(),
                forall|j: int| 0 <= j < i ==> (#[trigger] self.monuments_pairs()[j]).0 != id,
            decreases self.monuments@.len() - i,
        {
            if self.monuments[i].id == id {
                return Some(i);
            }
            i = i + 1;
        }
        None
    }

    /// The record of one player, if connected.
    pub fn get(&self, id: PlayerId) -> (r: Option<PlayerData>)
        requires
            self.wf(),
        ensures
            r == (if self.players_map().dom().contains(id.0) {
                Some(self.players_map()[id.0])
            } else {
                None::<PlayerData>
            }),
    {
        match self.find_player(id) {
            Some(i) => {
                proof {
                    lemma_assoc_at(self.players_pairs(), i as int);
                }
                Some(self.players[i])
            },
            None => {
                proof {
                    lemma_assoc_absent(self.players_pairs(), id.0);
                }
                None
            },
        }
    }

    /// Every connected player, in table order.
    pub fn players(&self) -> (r: Vec<PlayerData>)
        ensures
            r@ == self.players@,
    {
        let mut out: Vec<PlayerData> = Vec::new();
        let mut i: usize = 0;
        while i < self.players.len()
            invariant
                i <= self.players@.len(),
                out@ == self.players@.take(i as int),
            decreases self.players@.len() - i,
        {
            out.push(self.players[i]);
            proof {
                assert(self.players@.take(i + 1 as int) =~= self.players@.take(i as int).push(
                    self.players@[i as int],
                ));
            }
            i = i + 1;
        }
        proof {
            assert(self.players@.take(self.players@.len() as int) =~= self.players@);
        }
        out
    }

    /// Every monument, in table order.
    pub fn monuments(&self) -> (r: Vec<Monument>)
        ensures
            r@.len() == self.monuments@.len(),
            forall|i: int| 0 <= i < r@.len() ==> (#[trigger] r@[i])@ == self.monuments@[i]@,
    {
        let mut out: Vec<Monument> = Vec::new();
        let mut i: usize = 0;
        while i < self.monuments.len()
            invariant
                i <= self.monuments@.len(),
                out@.len() == i,
                forall|j: int| 0 <= j < i ==> (#[trigger] out@[j])@ == self.monuments@[j]@,
            decreases self.monuments@.len() - i,
        {
            out.push(self.monuments[i].clone());
            i = i + 1;
        }
        out
    }

    /// Connects or replaces a player record, keyed by its identity.
    pub fn add(&mut self, data: PlayerData)
        requires
            old(self).wf(),
        ensures
            final(self).wf(),
            final(self).players_map() == old(self).players_map().insert(data.id.0, data),
            final(self).monuments == old(self).monuments,
    {
        match self.find_player(data.id) {
            Some(i) => {
                proof {
                    lemma_assoc_update(self.players_pairs(), i as int, data);
                    assert(self.players_pairs()[i as int].0 == data.id.0);
                }
                let ghost pre = self.players_pairs();
                self.players.set(i, data);
                proof {
                    assert(self.players_pairs() =~= pre.update(
                        i as int,
                        (pre[i as int].0, data),
                    ));
                }
            },
            None => {
                proof {
                    lemma_assoc_absent(self.players_pairs(), data.id.0);
                    lemma_assoc_push(self.players_pairs(), data.id.0, data);
                }
                let ghost pre = self.players_pairs();
                self.players.push(data);
                proof {
                    assert(self.players_pairs() =~= pre.push((data.id.0, data)));
                }
            },
        }
    }

    /// Disconnects a player; unknown identities are a benign no-op.
    pub fn remove(&mut self, id: PlayerId)
        requires
            old(self).wf(),
        ensures
            final(self).wf(),
            final(self).players_map() == old(self).players_map().remove(id.0),
            final(self).monuments == old(self).monuments,
    {
        match self.find_player(id) {
            Some(i) => {
                proof {
                    lemma_assoc_remove(self.players_pairs(), i as int);
                }
                let ghost pre = self.players_pairs();
                self.players.remove(i);
                proof {
                    assert(self.players_pairs() =~= pre.remove(i as int));
                }
            },
            None => {
                proof {
                    lemma_assoc_absent(self.players_pairs(), id.0);
                    assert(self.players_map() =~= self.players_map().remove(id.0));
                }
            },
        }
    }

    /// Replaces a player's position; unknown identities are a benign no-op.
    pub fn update_coordinate(&mut self, id: PlayerId, coordinate: Coordinate)
        requires
            old(self).wf(),
        ensures
            final(self).wf(),
            final(self).players_map() == (if old(self).players_map().dom().contains(id.0) {
                old(self).players_map().insert(
                    id.0,
                    PlayerData {
                        position: coordinate,
                        ..old(self).players_map()[id.0]
                    },
                )
            } else {
                old(self).players_map()
            }),
            final(self).monuments == old(self).monuments,
    {
        match self.find_player(id) {
            Some(i) => {
                proof {
                    lemma_assoc_at(self.players_pairs(), i as int);
                }
                let data = PlayerData { position: coordinate, ..self.players[i] };
                proof {
                    lemma_assoc_update(self.players_pairs(), i as int, data);
                }
                let ghost pre = self.players_pairs();
                self.players.set(i, data);
                proof {
                    assert(self.players_pairs() =~= pre.update(
                        i as int,
                        (pre[i as int].0, data),
                    ));
                }
            },
            None => {
                proof {
                    lemma_assoc_absent(self.players_pairs(), id.0);
                }
            },
        }
    }

    /// Adds one token to a player's balance and returns the new balance;
    /// an unknown identity is a benign no-op that returns zero.
    pub fn increment_balance(&mut self, id: PlayerId) -> (r: u32)
        requires
            old(self).wf(),
            old(self).players_map().dom().contains(id.0) ==> old(self).players_map()[id.0].balance
                < u32::MAX,
        ensures
            final(self).wf(),
            final(self).monuments == old(self).monuments,
            old(self).players_map().dom().contains(id.0) ==> {
                &&& r == old(self).players_map()[id.0].balance + 1
                &&& final(self).players_map() == old(self).players_map().insert(
                    id.0,
                    PlayerData { balance: r, ..old(self).players_map()[id.0] },
                )
            },
            !old(self).players_map().dom().contains(id.0) ==> r == 0 && final(self).players_map()
                == old(self).players_map(),
    {
        match self.find_player(id) {
            Some(i) => {
                proof {
                    lemma_assoc_at(self.players_pairs(), i as int);
                }
                let balance = self.players[i].balance + 1;
                let data = PlayerData { balance, ..self.players[i] };
                proof {
                    lemma_assoc_update(self.players_pairs(), i as int, data);
                }
                let ghost pre = self.players_pairs();
                self.players.set(i, data);
                proof {
                    assert(self.players_pairs() =~= pre.update(
                        i as int,
                        (pre[i as int].0, data),
                    ));
                }
                balance
            },
            None => {
                proof {
                    lemma_assoc_absent(self.players_pairs(), id.0);
                }
                0
            },
        }
    }

    /// Subtracts tokens from a player's balance and returns the new balance;
    /// an unknown identity is a benign no-op that returns zero. The caller
    /// must have checked sufficiency: the balance never wraps below zero.
    pub fn decrement_balance_by(&mut self, id: PlayerId, amount: u32) -> (r: u32)
        requires
            old(self).wf(),
            old(self).players_map().dom().contains(id.0) ==> old(self).players_map()[id.0].balance
                >= amount,
        ensures
            final(self).wf(),
            final(self).monuments == old(self).monuments,
            old(self).players_map().dom().contains(id.0) ==> {
                &&& r == old(self).players_map()[id.0].balance - amount
                &&& final(self).players_map() == old(self).players_map().insert(
                    id.0,
                    PlayerData { balance: r, ..old(self).players_map()[id.0] },
                )
            },
            !old(self).players_map().dom().contains(id.0) ==> r == 0 && final(self).players_map()
                == old(self).players_map(),
    {
        match self.find_player(id) {
            Some(i) => {
                proof {
                    lemma_assoc_at(self.players_pairs(), i as int);
                }
                let balance = self.players[i].balance - amount;
                let data = PlayerData { balance, ..self.players[i] };
                proof {
                    lemma_assoc_update(self.players_pairs(), i as int, data);
                }
                let ghost pre = self.players_pairs();
                self.players.set(i, data);
                proof {
                    assert(self.players_pairs() =~= pre.update(
                        i as int,
                        (pre[i as int].0, data),
                    ));
                }
                balance
            },
            None => {
                proof {
                    lemma_assoc_absent(self.players_pairs(), id.0);
                }
                0
            },
        }
    }

    /// Stores a monument, keyed by its identity, overwriting any collision.
    pub fn add_monument(&mut self, monument: Monument)
        requires
            old(self).wf(),
        ensures
            final(self).wf(),
            final(self).monuments_map() == old(self).monuments_map().insert(
                monument.id,
                monument@,
            ),
            final(self).players == old(self).players,
    {
        match self.find_monument(monument.id) {
            Some(i) => {
                proof {
                    lemma_assoc_update(self.monuments_pairs(), i as int, monument@);
                }
                let ghost pre = self.monuments_pairs();
                self.monuments.set(i, monument);
                proof {
                    assert(self.monuments_pairs() =~= pre.update(
                        i as int,
                        (pre[i as int].0, monument@),
                    ));
                }
            },
            None => {
                proof {
                    lemma_assoc_absent(self.monuments_pairs(), monument.id);
                    lemma_assoc_push(self.monuments_pairs(), monument.id, monument@);
                }
                let ghost pre = self.monuments_pairs();
                self.monuments.push(monument);
                proof {
                    let m = self.monuments@.last();
                    assert(self.monuments_pairs() =~= pre.push((m.id, m@)));
                }
            },
        }
    }

    /// The completed form of a monument record.
    pub open spec fn completed_model(m: MonumentModel, asset: Seq<char>) -> MonumentModel {
        MonumentModel { asset, under_construction: false, ..m }
    }

    /// The monument map after one completion: the identified record, if any,
    /// with its asset set and its construction flag cleared.
    pub open spec fn spec_complete(
        m: Map<u32, MonumentModel>,
        id: u32,
        asset: Seq<char>,
    ) -> Map<u32, MonumentModel> {
        if m.dom().contains(id) {
            m.insert(id, World::completed_model(m[id], asset))
        } else {
            m
        }
    }

    /// Completes a monument: sets its asset and clears the construction
    /// flag, returning the updated record for the durable log. A webhook for
    /// an unknown identity — a duplicate, or one that outlived a restart — is
    /// a benign no-op.
    pub fn complete_monument(&mut self, id: u32, asset: &str) -> (r: Option<Monument>)
        requires
            old(self).wf(),
        ensures
            final(self).wf(),
            final(self).players == old(self).players,
            final(self).monuments_map() == World::spec_complete(
                old(self).monuments_map(),
                id,
                asset@,
            ),
            old(self).monuments_map().dom().contains(id) ==> {
                &&& final(self).monuments_map() == old(self).monuments_map().insert(
                    id,
                    World::completed_model(old(self).monuments_map()[id], asset@),
                )
                &&& r matches Some(m) && m@ == World::completed_model(
                    old(self).monuments_map()[id],
                    asset@,
                )
            },
            !old(self).monuments_map().dom().contains(id) ==> r is None
                && final(self).monuments_map() == old(self).monuments_map(),
    {
        match self.find_monument(id) {
            Some(i) => {
                proof {
                    lemma_assoc_at(self.monuments_pairs(), i as int);
                }
                let updated = Monument {
                    id: self.monuments[i].id,
                    asset: asset.to_owned(),
                    description: self.monuments[i].description.clone(),
                    position: self.monuments[i].position,
                    under_construction: false,
                };
                proof {
                    lemma_assoc_update(self.monuments_pairs(), i as int, updated@);
                }
                let ghost pre = self.monuments_pairs();
                let record = updated.clone();
                self.monuments.set(i, updated);
                proof {
                    assert(self.monuments_pairs() =~= pre.update(
                        i as int,
                        (pre[i as int].0, self.monuments@[i as int]@),
                    ));
                }
                Some(record)
            },
            None => {
                proof {
                    lemma_assoc_absent(self.monuments_pairs(), id);
                }
                None
            },
        }
    }
}

/// The idempotency law of completion: completing the same monument with the
/// same asset a second time leaves the map exactly as after the first, and
/// completing an unknown identity changes nothing and creates no record.
pub proof fn lemma_complete_monument_idempotent(
    m: Map<u32, MonumentModel>,
    id: u32,
    asset: Seq<char>,
)
    ensures
        World::spec_complete(World::spec_complete(m, id, asset), id, asset)
            == World::spec_complete(m, id, asset),
        !m.dom().contains(id) ==> World::spec_complete(m, id, asset) == m,
        World::spec_complete(m, id, asset).dom() == m.dom(),
{
    if m.dom().contains(id) {
        let m1 = World::spec_complete(m, id, asset);
        assert(World::completed_model(m1[id], asset) == m1[id]);
        assert(World::spec_complete(m1, id, asset) =~= m1);
    }
    assert(World::spec_complete(m, id, asset).dom() =~= m.dom());
}

impl Default for World {
    /// An empty world.
    fn default() -> (r: World)
        ensures
            r.wf(),
            r.players_map() == Map::<u32, PlayerData>::empty(),
            r.monuments_map() == Map::<u32, MonumentModel>::empty(),
    {
        World::new()
    }
}

} // verus!
