//! Session-level message handling: the connect onboarding burst, the inbound
//! dispatch, the disconnect cleanup, and the two halves of the monument build
//! workflow. The transport owns the sockets and the concurrency; every
//! decision and every state change stands here.
//!
//! A session's life is: connect ([`handle_connect`]) — the only step that
//! registers the player; active, during which each decoded inbound frame goes
//! through [`handle_player_communication`] and an accepted build request
//! returns through [`handle_generation_accepted`]; and disconnect
//! ([`handle_disconnect`]), which removes every trace of the session.
//! Independently of any session, [`handle_generation_webhook`] folds a
//! finished generation back into the store and announces it.

use vstd::prelude::*;

use crate::manager::{Manager, ScopedManager};
use crate::messages::{MessageModel, SystemMessages};
use crate::types::{Coordinate, Monument, MonumentModel, PlayerData, PlayerId, BUILD_COST,
    MONUMENT_DRIFT};
use crate::world::World;

verus! {

/// A build request accepted from a player, holding what the gateway call
/// needs and what the acceptance step reuses: the prompt, and the player's
/// position at request time.
pub struct BuildRequest {
    pub prompt: String,
    pub position: Coordinate,
}

/// The registry after one message is queued for one recipient; a recipient
/// that is not registered receives nothing.
pub open spec fn sent_one(
    m: Map<u32, Seq<MessageModel>>,
    k: u32,
    msg: MessageModel,
) -> Map<u32, Seq<MessageModel>> {
    if m.dom().contains(k) {
        m.insert(k, m[k].push(msg))
    } else {
        m
    }
}

/// The spawn announcements of every listed player but the excluded one, in
/// list order.
pub open spec fn spawn_messages(players: Seq<PlayerData>, exclude: u32) -> Seq<MessageModel>
    decreases players.len(),
{
    if players.len() == 0 {
        Seq::empty()
    } else {
        (if players[0].id.0 == exclude {
            Seq::empty()
        } else {
            seq![MessageModel::EnemyPlayerSpawn { data: players[0] }]
        }) + spawn_messages(players.skip(1), exclude)
    }
}

proof fn lemma_spawn_messages_snoc(players: Seq<PlayerData>, p: PlayerData, exclude: u32)
    ensures
        spawn_messages(players.push(p), exclude) == spawn_messages(players, exclude) + (if p.id.0
            == exclude {
            Seq::<MessageModel>::empty()
        } else {
            seq![MessageModel::EnemyPlayerSpawn { data: p }]
        }),
    decreases players.len(),
{
    let t = players.push(p);
    let tail_msg = if p.id.0 == exclude {
        Seq::<MessageModel>::empty()
    } else {
        seq![MessageModel::EnemyPlayerSpawn { data: p }]
    };
    if players.len() == 0 {
        assert(t[0] == p);
        assert(t.skip(1) =~= Seq::<PlayerData>::empty());
        assert(spawn_messages(t.skip(1), exclude) == Seq::<MessageModel>::empty());
        assert(spawn_messages(t, exclude) =~= tail_msg);
        assert(spawn_messages(players, exclude) + tail_msg =~= tail_msg);
    } else {
        assert(t[0] == players[0]);
        assert(t.skip(1) =~= players.skip(1).push(p));
        lemma_spawn_messages_snoc(players.skip(1), p, exclude);
        let head = if players[0].id.0 == exclude {
            Seq::<MessageModel>::empty()
        } else {
            seq![MessageModel::EnemyPlayerSpawn { data: players[0] }]
        };
        assert(spawn_messages(t, exclude) == head + (spawn_messages(players.skip(1), exclude)
            + tail_msg));
        assert(head + (spawn_messages(players.skip(1), exclude) + tail_msg) =~= (head
            + spawn_messages(players.skip(1), exclude)) + tail_msg);
    }
}

/// The build announcements of the listed monuments, in list order.
pub open spec fn monument_messages(monuments: Seq<MonumentModel>) -> Seq<MessageModel> {
    monuments.map_values(|m: MonumentModel| MessageModel::BuildMonument { monument: m })
}

/// The listed monuments as their models.
pub open spec fn monument_models(monuments: Seq<Monument>) -> Seq<MonumentModel> {
    monuments.map_values(|m: Monument| m@)
}

/// The onboarding burst a fresh session receives: its own spawn snapshot,
/// then every other connected peer's, then every persisted monument, so a
/// late-joining client reconstructs the full world state.
pub open spec fn onboarding_messages(
    d: PlayerData,
    players: Seq<PlayerData>,
    monuments: Seq<MonumentModel>,
) -> Seq<MessageModel> {
    seq![MessageModel::MainPlayerSpawn { data: d }] + spawn_messages(players, d.id.0)
        + monument_messages(monuments)
}

/// The live sessions are exactly the registered connections: every player
/// record has one registry entry and every registry entry one player record,
/// so the registry's live-entry count equals the number of active sessions.
/// Connect establishes it, and every handler preserves it.
pub open spec fn aligned(world: World, manager: Manager) -> bool {
    world.players_map().dom() == manager@.dom()
}

/// Under alignment, the live-entry count of the registry is the number of
/// active sessions.
pub proof fn lemma_aligned_live_count(world: World, manager: Manager)
    requires
        aligned(world, manager),
    ensures
        manager@.dom().len() == world.players_map().dom().len(),
{
}

/// Replays the onboarding burst of one fresh session: the session's own
/// spawn snapshot to itself, a peer-spawn announcement to everyone else,
/// every other connected peer's snapshot to itself, and every persisted
/// monument to itself. A session whose player record is gone — a race with
/// its own disconnect — receives nothing.
pub fn on_player_connect(scoped: &ScopedManager, world: &World, manager: &mut Manager)
    requires
        world.wf(),
        old(manager).wf(),
    ensures
        final(manager).wf(),
        final(manager)@.dom() == old(manager)@.dom(),
        !world.players_map().dom().contains(scoped.id.0) ==> final(manager)@ == old(manager)@,
        world.players_map().dom().contains(scoped.id.0) ==> {
            let d = world.players_map()[scoped.id.0];
            &&& forall|k: u32|
                old(manager)@.dom().contains(k) && k != scoped.id.0
                    ==> #[trigger] final(manager)@[k] == old(manager)@[k].push(
                    MessageModel::EnemyPlayerSpawn { data: d },
                )
            &&& old(manager)@.dom().contains(scoped.id.0) ==> final(manager)@[scoped.id.0]
                == old(manager)@[scoped.id.0] + onboarding_messages(
                d,
                world.players@,
                monument_models(world.monuments@),
            )
        },
{
    let id = scoped.id;
    match world.get(id) {
        Some(data) => {
            scoped.broadcast_to_self(manager, SystemMessages::MainPlayerSpawn { data });
            scoped.broadcast_except_self(manager, SystemMessages::EnemyPlayerSpawn { data });
            let ghost m2 = manager@;
            let peers = world.players();
            let mut i: usize = 0;
            while i < peers.len()
                invariant
                    manager.wf(),
                    i <= peers@.len(),
                    peers@ == world.players@,
                    id == scoped.id,
                    manager@.dom() == m2.dom(),
                    forall|k: u32|
                        m2.dom().contains(k) && k != id.0 ==> #[trigger] manager@[k] == m2[k],
                    m2.dom().contains(id.0) ==> manager@[id.0] == m2[id.0] + spawn_messages(
                        peers@.take(i as int),
                        id.0,
                    ),
                decreases peers@.len() - i,
            {
                let ghost pre = manager@;
                let p = peers[i];
                if p.id.0 != id.0 {
                    scoped.broadcast_to_self(
                        manager,
                        SystemMessages::EnemyPlayerSpawn { data: p },
                    );
                }
                proof {
                    assert(peers@.take(i + 1 as int) =~= peers@.take(i as int).push(
                        peers@[i as int],
                    ));
                    lemma_spawn_messages_snoc(peers@.take(i as int), peers@[i as int], id.0);
                    if m2.dom().contains(id.0) {
                        if p.id.0 == id.0 {
                            assert(m2[id.0] + spawn_messages(peers@.take(i as int), id.0)
                                + Seq::<MessageModel>::empty() =~= m2[id.0] + spawn_messages(
                                peers@.take(i as int),
                                id.0,
                            ));
                            assert(manager@[id.0] == m2[id.0] + spawn_messages(
                                peers@.take(i + 1 as int),
                                id.0,
                            ));
                        } else {
                            assert((m2[id.0] + spawn_messages(peers@.take(i as int), id.0)).push(
                                MessageModel::EnemyPlayerSpawn { data: p },
                            ) =~= m2[id.0] + spawn_messages(peers@.take(i + 1 as int), id.0));
                        }
                    }
                }
                i = i + 1;
            }
            proof {
                assert(peers@.take(peers@.len() as int) =~= peers@);
            }
            let ghost m3 = manager@;
            let mons = world.monuments();
            let ghost models = monument_models(world.monuments@);
            proof {
                assert(forall|t: int|
                    0 <= t < mons@.len() ==> (#[trigger] mons@[t])@ == models[t]);
            }
            let mut j: usize = 0;
            while j < mons.len()
                invariant
                    manager.wf(),
                    j <= mons@.len(),
                    mons@.len() == models.len(),
                    forall|t: int| 0 <= t < mons@.len() ==> (#[trigger] mons@[t])@ == models[t],
                    id == scoped.id,
                    manager@.dom() == m3.dom(),
                    forall|k: u32|
                        m3.dom().contains(k) && k != id.0 ==> #[trigger] manager@[k] == m3[k],
                    m3.dom().contains(id.0) ==> manager@[id.0] == m3[id.0] + monument_messages(
                        models.take(j as int),
                    ),
                decreases mons@.len() - j,
            {
                let m = mons[j].clone();
                scoped.broadcast_to_self(manager, SystemMessages::BuildMonument { monument: m });
                proof {
                    assert(models.take(j + 1 as int) =~= models.take(j as int).push(
                        models[j as int],
                    ));
                    if m3.dom().contains(id.0) {
                        assert(monument_messages(models.take(j + 1 as int)) =~= monument_messages(
                            models.take(j as int),
                        ).push(MessageModel::BuildMonument { monument: models[j as int] }));
                        assert((m3[id.0] + monument_messages(models.take(j as int))).push(
                            MessageModel::BuildMonument { monument: models[j as int] },
                        ) =~= m3[id.0] + monument_messages(models.take(j + 1 as int)));
                    }
                }
                j = j + 1;
            }
            proof {
                assert(models.take(models.len() as int) =~= models);
                if old(manager)@.dom().contains(id.0) {
                    let d = world.players_map()[id.0];
                    assert(m2[id.0] == old(manager)@[id.0].push(
                        MessageModel::MainPlayerSpawn { data: d },
                    ));
                    assert(manager@[id.0] == old(manager)@[id.0].push(
                        MessageModel::MainPlayerSpawn { data: d },
                    ) + spawn_messages(world.players@, id.0) + monument_messages(models));
                    assert(old(manager)@[id.0].push(MessageModel::MainPlayerSpawn { data: d })
                        + spawn_messages(world.players@, id.0) + monument_messages(models)
                        =~= old(manager)@[id.0] + onboarding_messages(
                        d,
                        world.players@,
                        models,
                    ));
                }
            }
        },
        None => {},
    }
}

/// Connects one session: mints its record with zero balance at the default
/// coordinate, registers its outbound queue, and replays the onboarding
/// burst. Alignment of sessions and registry entries is preserved.
pub fn handle_connect(world: &mut World, manager: &mut Manager, id: PlayerId)
    requires
        old(world).wf(),
        old(manager).wf(),
    ensures
        final(world).wf(),
        final(manager).wf(),
        final(world).players_map() == old(world).players_map().insert(
            id.0,
            PlayerData { id, balance: 0, position: Coordinate { x: 0, y: 0 } },
        ),
        final(world).monuments == old(world).monuments,
        final(manager)@.dom() == old(manager)@.dom().insert(id.0),
        forall|k: u32|
            old(manager)@.dom().contains(k) && k != id.0 ==> #[trigger] final(manager)@[k] == old(manager)@[k].push(
                MessageModel::EnemyPlayerSpawn {
                    data: PlayerData { id, balance: 0, position: Coordinate { x: 0, y: 0 } },
                },
            ),
        final(manager)@[id.0] == Seq::<MessageModel>::empty() + onboarding_messages(
            PlayerData { id, balance: 0, position: Coordinate { x: 0, y: 0 } },
            final(world).players@,
            monument_models(final(world).monuments@),
        ),
        aligned(*old(world), *old(manager)) ==> aligned(*final(world), *final(manager)),
{
    let data = PlayerData { id, balance: 0, position: Coordinate::default() };
    world.add(data);
    manager.add(id);
    let scoped = ScopedManager::new(id);
    on_player_connect(&scoped, world, manager);
    proof {
        assert(final(manager)@.dom() =~= old(manager)@.dom().insert(id.0));
        if aligned(*old(world), *old(manager)) {
            assert(final(world).players_map().dom() =~= final(manager)@.dom());
        }
    }
}

/// Disconnects one session: deregisters it, removes its player record, and
/// announces the departure, tagged with its identity, to everyone left.
/// Alignment of sessions and registry entries is preserved.
pub fn handle_disconnect(world: &mut World, manager: &mut Manager, id: PlayerId)
    requires
        old(world).wf(),
        old(manager).wf(),
    ensures
        final(world).wf(),
        final(manager).wf(),
        final(world).players_map() == old(world).players_map().remove(id.0),
        final(world).monuments == old(world).monuments,
        final(manager)@.dom() == old(manager)@.dom().remove(id.0),
        forall|k: u32|
            old(manager)@.dom().contains(k) && k != id.0 ==> #[trigger] final(manager)@[k] == old(manager)@[k].push(MessageModel::EnemyDisconnected { id }),
        aligned(*old(world), *old(manager)) ==> aligned(*final(world), *final(manager)),
{
    let scoped = ScopedManager::new(id);
    scoped.remove(manager, id);
    world.remove(id);
    scoped.broadcast_except_self(manager, SystemMessages::EnemyDisconnected { id });
    proof {
        assert(final(manager)@.dom() =~= old(manager)@.dom().remove(id.0));
        if aligned(*old(world), *old(manager)) {
            assert(final(world).players_map().dom() =~= final(manager)@.dom());
        }
    }
}

/// Dispatches one decoded inbound frame from one session.
///
/// A ping is answered with a pong to the sender alone. A position update is
/// stored and announced, tagged with the sender's identity, to everyone but
/// the sender. A token pickup adds one token and reports the new balance to
/// the sender alone. A build request is accepted — handed back for the
/// gateway call — exactly when the sender is still connected and holds the
/// build cost; its position at this moment is captured for placement. Every
/// other frame kind is ignored, not an error.
pub fn handle_player_communication(
    scope: &ScopedManager,
    world: &mut World,
    manager: &mut Manager,
    message: SystemMessages,
) -> (r: Option<BuildRequest>)
    requires
        old(world).wf(),
        old(manager).wf(),
        message@ is MainPlayerPickedUpToken && old(world).players_map().dom().contains(scope.id.0)
            ==> old(world).players_map()[scope.id.0].balance < u32::MAX,
    ensures
        final(world).wf(),
        final(manager).wf(),
        final(world).monuments == old(world).monuments,
        final(manager)@.dom() == old(manager)@.dom(),
        aligned(*old(world), *old(manager)) ==> aligned(*final(world), *final(manager)),
        match message@ {
            MessageModel::Ping => {
                &&& final(world).players@ == old(world).players@
                &&& final(manager)@ == sent_one(old(manager)@, scope.id.0, MessageModel::Pong)
                &&& r is None
            },
            MessageModel::PlayerPosition { coordinate } => {
                &&& final(world).players_map() == (if old(world).players_map().dom().contains(
                    scope.id.0,
                ) {
                    old(world).players_map().insert(
                        scope.id.0,
                        PlayerData {
                            position: coordinate,
                            ..old(world).players_map()[scope.id.0]
                        },
                    )
                } else {
                    old(world).players_map()
                })
                &&& forall|k: u32|
                    old(manager)@.dom().contains(k) && k != scope.id.0 ==> #[trigger] final(manager)@[k] == old(manager)@[k].push(
                        MessageModel::EnemyPosition { id: scope.id, coordinate },
                    )
                &&& old(manager)@.dom().contains(scope.id.0) ==> final(manager)@[scope.id.0]
                    == old(manager)@[scope.id.0]
                &&& r is None
            },
            MessageModel::MainPlayerPickedUpToken => {
                let present = old(world).players_map().dom().contains(scope.id.0);
                let balance = if present {
                    (old(world).players_map()[scope.id.0].balance + 1) as u32
                } else {
                    0u32
                };
                &&& final(world).players_map() == (if present {
                    old(world).players_map().insert(
                        scope.id.0,
                        PlayerData { balance, ..old(world).players_map()[scope.id.0] },
                    )
                } else {
                    old(world).players_map()
                })
                &&& final(manager)@ == sent_one(
                    old(manager)@,
                    scope.id.0,
                    MessageModel::MainPlayerCurrentBalance { balance },
                )
                &&& r is None
            },
            MessageModel::BuildMonumentRequest { prompt } => {
                let present = old(world).players_map().dom().contains(scope.id.0);
                let accepted = present && old(world).players_map()[scope.id.0].balance
                    >= BUILD_COST;
                &&& final(world).players@ == old(world).players@
                &&& final(manager)@ == old(manager)@
                &&& accepted <==> r is Some
                &&& r matches Some(b) ==> b.prompt@ == prompt && b.position == old(world).players_map()[scope.id.0].position
            },
            _ => {
                &&& final(world).players@ == old(world).players@
                &&& final(manager)@ == old(manager)@
                &&& r is None
            },
        },
{
    let r = match message {
        SystemMessages::Ping => {
            scope.broadcast_to_self(manager, SystemMessages::Pong);
            None
        },
        SystemMessages::PlayerPosition { coordinate } => {
            world.update_coordinate(scope.id, coordinate);
            scope.broadcast_except_self(
                manager,
                SystemMessages::EnemyPosition { id: scope.id, coordinate },
            );
            None
        },
        SystemMessages::MainPlayerPickedUpToken => {
            let balance = world.increment_balance(scope.id);
            scope.broadcast_to_self(
                manager,
                SystemMessages::MainPlayerCurrentBalance { balance },
            );
            None
        },
        SystemMessages::BuildMonumentRequest { prompt } => {
            match world.get(scope.id) {
                Some(data) => if data.balance >= BUILD_COST {
                    Some(BuildRequest { prompt, position: data.position })
                } else {
                    None
                },
                None => None,
            }
        },
        _ => None,
    };
    proof {
        assert(world.players_map().dom() =~= old(world).players_map().dom());
        assert(manager@.dom() =~= old(manager)@.dom());
    }
    r
}

/// Applies an accepted generation: places the monument, drifted off the
/// requester's captured position and marked under construction, debits the
/// build cost, reports the new balance to the requester, and announces the
/// pending monument to every connection, the requester included.
///
/// The requester having disconnected meanwhile does not stop the monument:
/// it is still stored and announced, and the balance report is dropped with
/// the dead connection. A requester whose balance has meanwhile dropped
/// below the cost has the whole acceptance dropped: the balance never wraps.
pub fn handle_generation_accepted(
    scope: &ScopedManager,
    world: &mut World,
    manager: &mut Manager,
    request: BuildRequest,
    monument_id: u32,
)
    requires
        old(world).wf(),
        old(manager).wf(),
        request.position.x - MONUMENT_DRIFT >= i32::MIN,
        request.position.y - MONUMENT_DRIFT >= i32::MIN,
    ensures
        final(world).wf(),
        final(manager).wf(),
        final(manager)@.dom() == old(manager)@.dom(),
        aligned(*old(world), *old(manager)) ==> aligned(*final(world), *final(manager)),
        ({
            let present = old(world).players_map().dom().contains(scope.id.0);
            let balance = if present {
                (old(world).players_map()[scope.id.0].balance - BUILD_COST) as u32
            } else {
                0u32
            };
            let placed = MonumentModel {
                id: monument_id,
                asset: "under-construction.png"@,
                description: request.prompt@,
                position: Coordinate {
                    x: (request.position.x - MONUMENT_DRIFT) as i32,
                    y: (request.position.y - MONUMENT_DRIFT) as i32,
                },
                under_construction: true,
            };
            if present && old(world).players_map()[scope.id.0].balance < BUILD_COST {
                &&& final(world).players@ == old(world).players@
                &&& final(world).monuments == old(world).monuments
                &&& final(manager)@ == old(manager)@
            } else {
                &&& final(world).players_map() == (if present {
                    old(world).players_map().insert(
                        scope.id.0,
                        PlayerData { balance, ..old(world).players_map()[scope.id.0] },
                    )
                } else {
                    old(world).players_map()
                })
                &&& final(world).monuments_map() == old(world).monuments_map().insert(
                    monument_id,
                    placed,
                )
                &&& forall|k: u32|
                    old(manager)@.dom().contains(k) && k != scope.id.0 ==> #[trigger] final(manager)@[k] == old(manager)@[k].push(MessageModel::BuildMonument { monument: placed })
                &&& old(manager)@.dom().contains(scope.id.0) ==> final(manager)@[scope.id.0]
                    == old(manager)@[scope.id.0].push(
                    MessageModel::MainPlayerCurrentBalance { balance },
                ).push(MessageModel::BuildMonument { monument: placed })
            }
        }),
{
    let proceed = match world.get(scope.id) {
        Some(data) => data.balance >= BUILD_COST,
        None => true,
    };
    if proceed {
        let balance = world.decrement_balance_by(scope.id, BUILD_COST);
        let monument = Monument {
            id: monument_id,
            asset: "under-construction.png".to_owned(),
            description: request.prompt,
            position: request.position.drift_by(MONUMENT_DRIFT),
            under_construction: true,
        };
        world.add_monument(monument.clone());
        scope.broadcast_to_self(manager, SystemMessages::MainPlayerCurrentBalance { balance });
        scope.broadcast_to_all(manager, SystemMessages::BuildMonument { monument });
    }
}

/// Folds a finished generation back into the world: completes the monument —
/// a benign no-op for an unknown identity — hands back the completed record
/// for the durable log, and announces the completion to every connection.
pub fn handle_generation_webhook(
    world: &mut World,
    manager: &mut Manager,
    id: u32,
    asset: &str,
) -> (r: Option<Monument>)
    requires
        old(world).wf(),
        old(manager).wf(),
    ensures
        final(world).wf(),
        final(manager).wf(),
        final(world).players == old(world).players,
        final(manager)@.dom() == old(manager)@.dom(),
        aligned(*old(world), *old(manager)) ==> aligned(*final(world), *final(manager)),
        old(world).monuments_map().dom().contains(id) ==> {
            &&& final(world).monuments_map() == old(world).monuments_map().insert(
                id,
                World::completed_model(old(world).monuments_map()[id], asset@),
            )
            &&& r matches Some(m) && m@ == World::completed_model(
                old(world).monuments_map()[id],
                asset@,
            )
        },
        !old(world).monuments_map().dom().contains(id) ==> r is None && final(world).monuments_map() == old(world).monuments_map(),
        forall|k: u32|
            old(manager)@.dom().contains(k) ==> #[trigger] final(manager)@[k] == old(manager)@[
                k
            ].push(MessageModel::MonumentCompleted { id, asset: asset@ }),
{
    let record = world.complete_monument(id, asset);
    manager.broadcast(SystemMessages::MonumentCompleted { id, asset: asset.to_owned() });
    record
}

} // verus!
