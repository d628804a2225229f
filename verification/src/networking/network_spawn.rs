//! Peers must agree on how to refer to one replicated object although each
//! holds it under a local [`Entity`] of its own. A [`NetworkEntity`] is that
//! shared name, and a [`NetworkEntityRegistry`] maps it to the local entity.

use bevy_ecs::entity::Entity;
use bevy_ecs::world::World;
use crate::networking::byte_order::{
    le_bytes,
    le_value,
    lemma_le_bytes_len,
    lemma_le_value_bound,
    lemma_le_value_of_bytes,
    lemma_radix_values,
    radix,
    read_le,
    write_le,
};
use crate::networking::frame_codec::{frame, MAX_BODY_BYTES};
use crate::networking::network_event::NetworkEvent;
use crate::networking::network_payload::{Envelope, NetworkMessage, NetworkMessages, NetworkPayload};
use crate::networking::network_resource::{open_ids, ActorId, Broadcast, NetworkResource};
use std::collections::HashMap;
use std::marker::PhantomData;
use vstd::prelude::*;
use vstd::slice::{slice_subrange, slice_to_vec};

verus! {

/// `bevy_ecs::entity::Entity`, the local handle of an object. The library
/// stores and returns such values and never looks inside one.
#[verifier::external_type_specification]
#[verifier::external_body]
pub struct ExEntity(Entity);

/// `bevy_ecs::world::World`, in which the objects of a peer live. The
/// library hands it to the code that builds an object and never looks
/// inside.
#[verifier::external_type_specification]
#[verifier::external_body]
pub struct ExWorld(World);

/// The name under which every peer knows one replicated object.
#[derive(Clone, Copy, PartialEq, Eq, Hash, Debug, Structural)]
pub struct NetworkEntity(pub u64);

/// Why [`NetworkEntityRegistry::insert`] refused an entry.
#[derive(Clone, Copy, PartialEq, Eq, Debug)]
pub struct DuplicateEntity {
    /// The name that was already taken.
    pub network_entity: NetworkEntity,
    /// The local entity that holds the name.
    pub existing: Entity,
}

/// Maps each [`NetworkEntity`] to the local entity that stands for it, and
/// allocates fresh names on the server.
pub struct NetworkEntityRegistry {
    entities: HashMap<u64, Entity>,
    next_network_entity: NetworkEntity,
}

impl NetworkEntityRegistry {
    /// The entries of the registry.
    pub closed spec fn entities(&self) -> Map<NetworkEntity, Entity> {
        Map::new(
            |k: NetworkEntity| self.entities@.contains_key(k.0),
            |k: NetworkEntity| self.entities@[k.0],
        )
    }

    /// The number that the next generated name will carry.
    pub closed spec fn next(&self) -> u64 {
        self.next_network_entity.0
    }

    /// An empty registry whose first generated name is 0.
    pub fn new() -> (registry: Self)
        ensures
            registry.entities() == Map::<NetworkEntity, Entity>::empty(),
            registry.next() == 0,
    {
        let registry = Self { entities: HashMap::new(), next_network_entity: NetworkEntity(0) };
        assert(registry.entities() =~= Map::<NetworkEntity, Entity>::empty());
        registry
    }

    /// The local entity registered under `network_entity`, if any.
    pub fn get(&self, network_entity: &NetworkEntity) -> (entity: Option<Entity>)
        ensures
            entity == if self.entities().contains_key(*network_entity) {
                Some(self.entities()[*network_entity])
            } else {
                None
            },
    {
        broadcast use vstd::std_specs::hash::group_hash_axioms;

        match self.entities.get(&network_entity.0) {
            Some(entity) => Some(*entity),
            None => None,
        }
    }

    /// The number that the next generated name will carry.
    pub fn peek(&self) -> (next: u64)
        ensures
            next == self.next(),
    {
        self.next_network_entity.0
    }

    /// Allocates a fresh name: the numbers come out as 0, 1, 2, ...
    pub fn generate(&mut self) -> (network_entity: NetworkEntity)
        requires
            old(self).next() < u64::MAX,
        ensures
            network_entity == NetworkEntity(old(self).next()),
            final(self).next() == old(self).next() + 1,
            final(self).entities() == old(self).entities(),
    {
        let entity = self.next_network_entity;
        self.next_network_entity = NetworkEntity(entity.0 + 1);
        entity
    }

    /// Registers `entity` under `network_entity`. A name that is taken keeps
    /// its entity: the call is refused and reports who holds the name.
    pub fn insert(&mut self, network_entity: NetworkEntity, entity: Entity) -> (res: Result<
        (),
        DuplicateEntity,
    >)
        ensures
            final(self).next() == old(self).next(),
            match res {
                Ok(()) => {
                    &&& !old(self).entities().contains_key(network_entity)
                    &&& final(self).entities() == old(self).entities().insert(
                        network_entity,
                        entity,
                    )
                },
                Err(duplicate) => {
                    &&& old(self).entities().contains_key(network_entity)
                    &&& duplicate.network_entity == network_entity
                    &&& duplicate.existing == old(self).entities()[network_entity]
                    &&& final(self).entities() == old(self).entities()
                },
            },
    {
        broadcast use vstd::std_specs::hash::group_hash_axioms;

        match self.entities.get(&network_entity.0) {
            Some(existing) => Err(DuplicateEntity { network_entity, existing: *existing }),
            None => {
                self.entities.insert(network_entity.0, entity);
                assert(self.entities() =~= old(self).entities().insert(network_entity, entity));
                Ok(())
            },
        }
    }

    /// Allocates a fresh name and registers `entity` under it. The name is
    /// spent even when it turns out to be taken.
    pub fn add(&mut self, entity: Entity) -> (res: Result<NetworkEntity, DuplicateEntity>)
        requires
            old(self).next() < u64::MAX,
        ensures
            final(self).next() == old(self).next() + 1,
            match res {
                Ok(network_entity) => {
                    &&& network_entity == NetworkEntity(old(self).next())
                    &&& !old(self).entities().contains_key(network_entity)
                    &&& final(self).entities() == old(self).entities().insert(
                        network_entity,
                        entity,
                    )
                },
                Err(duplicate) => {
                    &&& old(self).entities().contains_key(NetworkEntity(old(self).next()))
                    &&& duplicate.network_entity == NetworkEntity(old(self).next())
                    &&& duplicate.existing == old(self).entities()[duplicate.network_entity]
                    &&& final(self).entities() == old(self).entities()
                },
            },
    {
        let network_entity = self.generate();
        match self.insert(network_entity, entity) {
            Ok(()) => Ok(network_entity),
            Err(e) => Err(e),
        }
    }
}

/// The width of the name that starts the body of a spawn envelope.
pub const NETWORK_ENTITY_BYTES: usize = 8;

/// The longest written form of a spawnable that a spawn envelope can carry
/// behind the name: eight bytes less than the longest body.
pub const MAX_SPAWNABLE_BYTES: usize = 4294967271;

/// What the server announces when it spawns an object: the name that the
/// object has on every peer, and what to build it from.
#[derive(Debug, Clone, PartialEq, Eq)]
pub struct NetworkSpawnEvent<T> {
    pub network_entity: NetworkEntity,
    pub spawnable: T,
}

/// The body of a spawn envelope: the eight bytes of the name, least
/// significant first, and then the written form of the spawnable.
pub open spec fn spawn_body(network_entity: NetworkEntity, spawnable: Seq<u8>) -> Seq<u8> {
    le_bytes(network_entity.0 as nat, NETWORK_ENTITY_BYTES as nat) + spawnable
}

/// The name that starts `body`.
pub open spec fn spawn_name(body: Seq<u8>) -> NetworkEntity {
    NetworkEntity(le_value(body.take(NETWORK_ENTITY_BYTES as int)) as u64)
}

impl NetworkSpawnEvent<Vec<u8>> {
    /// Writes the body of the spawn envelope.
    pub fn to_body(&self) -> (body: Vec<u8>)
        ensures
            body@ == spawn_body(self.network_entity, self.spawnable@),
    {
        let mut body = write_le(self.network_entity.0 as u128, NETWORK_ENTITY_BYTES);
        body.extend_from_slice(self.spawnable.as_slice());
        body
    }

    /// Reads the body of a spawn envelope. A body too short to hold a name
    /// spells nothing; any other spells a name and a spawnable.
    pub fn from_body(body: &Vec<u8>) -> (event: Option<Self>)
        ensures
            body@.len() < NETWORK_ENTITY_BYTES ==> event is None,
            body@.len() >= NETWORK_ENTITY_BYTES ==> event is Some && event->0.network_entity
                == spawn_name(body@) && event->0.spawnable@ == body@.skip(
                NETWORK_ENTITY_BYTES as int,
            ),
    {
        if body.len() < NETWORK_ENTITY_BYTES {
            return None;
        }
        let bytes = body.as_slice();
        let name = read_le(slice_subrange(bytes, 0, NETWORK_ENTITY_BYTES));
        let spawnable = slice_to_vec(slice_subrange(bytes, NETWORK_ENTITY_BYTES, bytes.len()));
        proof {
            assert(body@.subrange(0, NETWORK_ENTITY_BYTES as int) =~= body@.take(
                NETWORK_ENTITY_BYTES as int,
            ));
            assert(body@.subrange(NETWORK_ENTITY_BYTES as int, body@.len() as int) =~= body@.skip(
                NETWORK_ENTITY_BYTES as int,
            ));
            lemma_le_value_bound(body@.take(NETWORK_ENTITY_BYTES as int));
            lemma_radix_values();
        }
        Some(NetworkSpawnEvent { network_entity: NetworkEntity(name as u64), spawnable })
    }
}

/// Reading the body of a spawn envelope gives back the name and the
/// spawnable that were written.
pub proof fn lemma_spawn_body_round_trip(network_entity: NetworkEntity, spawnable: Seq<u8>)
    ensures
        spawn_body(network_entity, spawnable).len() == NETWORK_ENTITY_BYTES + spawnable.len(),
        spawn_name(spawn_body(network_entity, spawnable)) == network_entity,
        spawn_body(network_entity, spawnable).skip(NETWORK_ENTITY_BYTES as int) == spawnable,
{
    let name = le_bytes(network_entity.0 as nat, NETWORK_ENTITY_BYTES as nat);
    lemma_le_bytes_len(network_entity.0 as nat, NETWORK_ENTITY_BYTES as nat);
    lemma_le_value_of_bytes(network_entity.0 as nat, NETWORK_ENTITY_BYTES as nat);
    lemma_radix_values();
    assert(spawn_body(network_entity, spawnable).take(NETWORK_ENTITY_BYTES as int) =~= name);
    assert(spawn_body(network_entity, spawnable).skip(NETWORK_ENTITY_BYTES as int) =~= spawnable);
    assert(radix(8) == 0x1_0000_0000_0000_0000);
    assert(le_value(name) == network_entity.0 as nat % 0x1_0000_0000_0000_0000);
    assert(le_value(name) == network_entity.0);
}

/// A type of which the server can spawn objects on every peer.
pub trait NetworkSpawnable: NetworkEvent {
    /// Builds the object in `world` and returns its local entity.
    fn spawn(&self, world: &mut World) -> Entity;
}

/// Why a spawn envelope was not applied.
#[derive(Debug, Clone, Copy, PartialEq, Eq)]
pub enum SpawnError {
    /// No spawnable type is registered under the tag of the envelope.
    UnknownType,
    /// The body is too short to hold a name.
    Truncated,
    /// The name is taken already.
    Duplicate(DuplicateEntity),
    /// The type could not read the spawnable.
    Unreadable,
    /// The entity that was built is not in the world.
    NoEntity,
}

/// Why a spawn was not taken up.
#[derive(Debug, Clone, Copy, PartialEq, Eq)]
pub enum RequestError {
    /// The value has no written form.
    Unwritable,
    /// The written form is longer than an envelope can carry.
    TooLong,
}

/// What applying `envelope` may do to a registry, from `before` to `after`,
/// with result `res`. The next name to generate stays. A body too short for
/// a name, and a name that is taken, are refused and say so. Otherwise the
/// code of the type decides: the name of the envelope is returned and is
/// registered now, for some entity, or the envelope is refused. A refusal
/// changes no entry.
pub open spec fn applied(
    before: NetworkEntityRegistry,
    after: NetworkEntityRegistry,
    envelope: Envelope,
    res: Result<NetworkEntity, SpawnError>,
) -> bool {
    let name = spawn_name(envelope.body);
    &&& after.next() == before.next()
    &&& res is Err ==> after.entities() == before.entities()
    &&& envelope.body.len() < NETWORK_ENTITY_BYTES <==> res == Err::<NetworkEntity, SpawnError>(
        SpawnError::Truncated,
    )
    &&& envelope.body.len() >= NETWORK_ENTITY_BYTES && before.entities().contains_key(name)
        ==> res == Err::<NetworkEntity, SpawnError>(
        SpawnError::Duplicate(
            DuplicateEntity { network_entity: name, existing: before.entities()[name] },
        ),
    )
    &&& res is Err && res->Err_0 is Duplicate ==> before.entities().contains_key(name)
    &&& res != Err::<NetworkEntity, SpawnError>(SpawnError::UnknownType)
    &&& res is Ok ==> res->Ok_0 == name && !before.entities().contains_key(name)
        && after.entities().contains_key(name) && after.entities() == before.entities().insert(
        name,
        after.entities()[name],
    )
}

/// What the table of entities of a world answers: for the bits of each
/// entity that it knows, the row of the entity in its archetype. An entity
/// that is reserved and has no place yet has the row `usize::MAX`.
pub uninterp spec fn world_rows(world: World) -> Map<u64, usize>;

/// The bits of `entity`, by `Entity::to_bits`. Nothing is claimed of them.
#[verifier::external_body]
fn entity_bits(entity: Entity) -> (bits: u64) {
    entity.to_bits()
}

/// The row that the world's table has for the entity with these bits, by
/// `World::entities` and `Entities::get` on `Entity::from_bits`.
#[verifier::external_body]
fn entity_row(world: &World, bits: u64) -> (row: Option<usize>)
    ensures
        row is Some == world_rows(*world).contains_key(bits),
        row is Some ==> row->0 == world_rows(*world)[bits],
{
    world.entities().get(Entity::from_bits(bits)).map(|location| location.index)
}

/// Marks the entity with these bits with the name that it has on every
/// peer, by `World::entity_mut` and `EntityMut::insert`. The world must know
/// the entity and have a place for it: the first call panics on an entity
/// that the world does not know, the second on one without a place. Of the
/// world after the call nothing is claimed.
#[verifier::external_body]
fn mark_entity(world: &mut World, bits: u64, network_entity: NetworkEntity)
    requires
        world_rows(*old(world)).contains_key(bits),
        world_rows(*old(world))[bits] != usize::MAX,
{
    world.entity_mut(Entity::from_bits(bits)).insert(network_entity);
}

/// Whether an entity for which a world's table gave `row` can be marked:
/// the table knows it and has a place for it.
pub fn is_placed(row: Option<usize>) -> (placed: bool)
    ensures
        placed == (row is Some && row->0 != usize::MAX),
{
    match row {
        Some(index) => index != usize::MAX,
        None => false,
    }
}

/// Marks `entity` with `network_entity` if it has a place in `world`, and
/// says whether it did.
fn mark(world: &mut World, entity: Entity, network_entity: NetworkEntity) -> (marked: bool) {
    let bits = entity_bits(entity);
    let row = entity_row(world, bits);
    if is_placed(row) {
        mark_entity(world, bits, network_entity);
        true
    } else {
        false
    }
}

/// Registers an entity that was built for `network_entity`, or refuses it.
/// An entity that could not be marked is not in the world, and is refused.
/// One that was marked is registered under the name, if the name is free.
pub fn register_spawned(
    registry: &mut NetworkEntityRegistry,
    network_entity: NetworkEntity,
    entity: Entity,
    marked: bool,
) -> (res: Result<NetworkEntity, SpawnError>)
    ensures
        final(registry).next() == old(registry).next(),
        !marked ==> res == Err::<NetworkEntity, SpawnError>(SpawnError::NoEntity),
        !marked ==> final(registry).entities() == old(registry).entities(),
        marked && !old(registry).entities().contains_key(network_entity) ==> res == Ok::<
            NetworkEntity,
            SpawnError,
        >(network_entity) && final(registry).entities() == old(registry).entities().insert(
            network_entity,
            entity,
        ),
        marked && old(registry).entities().contains_key(network_entity) ==> res == Err::<
            NetworkEntity,
            SpawnError,
        >(
            SpawnError::Duplicate(
                DuplicateEntity {
                    network_entity,
                    existing: old(registry).entities()[network_entity],
                },
            ),
        ) && final(registry).entities() == old(registry).entities(),
{
    if !marked {
        return Err(SpawnError::NoEntity);
    }
    match registry.insert(network_entity, entity) {
        Ok(()) => Ok(network_entity),
        Err(duplicate) => Err(SpawnError::Duplicate(duplicate)),
    }
}

/// Applies a spawn envelope of type `T`: reads the name and the spawnable,
/// builds the object in `world`, marks it with the name and registers it.
/// A name that is taken is refused before anything is built.
pub fn spawn<T: NetworkSpawnable>(
    world: &mut World,
    registry: &mut NetworkEntityRegistry,
    payload: &NetworkPayload,
) -> (res: Result<NetworkEntity, SpawnError>)
    ensures
        applied(*old(registry), *final(registry), payload@, res),
        res == Err::<NetworkEntity, SpawnError>(SpawnError::Truncated) || (res is Err
            && res->Err_0 is Duplicate) ==> *final(world) == *old(world),
        res == Err::<NetworkEntity, SpawnError>(SpawnError::Unreadable) ==> *final(world) == *old(
            world,
        ),
        read_as(replay_of::<T>(), payload@, res),
{
    let raw = match NetworkSpawnEvent::from_body(&payload.data) {
        Some(raw) => raw,
        None => {
            return Err(SpawnError::Truncated);
        },
    };
    if let Some(existing) = registry.get(&raw.network_entity) {
        return Err(
            SpawnError::Duplicate(DuplicateEntity { network_entity: raw.network_entity, existing }),
        );
    }
    let spawnable = match T::decode(&raw.spawnable) {
        Some(spawnable) => spawnable,
        None => {
            assert((replay_of::<T>().rejects)(raw.spawnable));
            return Err(SpawnError::Unreadable);
        },
    };
    assert((replay_of::<T>().reads)(raw.spawnable)) by {
        assert(call_ensures(T::decode, (&raw.spawnable,), Some(spawnable)));
    }
    let event = NetworkSpawnEvent { network_entity: raw.network_entity, spawnable };
    let entity = event.spawnable.spawn(world);
    let marked = mark(world, entity, event.network_entity);
    register_spawned(registry, event.network_entity, entity, marked)
}

/// How the envelopes of one registered type are applied.
trait Replay: Send + Sync {
    /// Whether the type reads a spawnable from `rest`.
    spec fn reads(&self, rest: Vec<u8>) -> bool;

    /// Whether the type reads no spawnable from `rest`.
    spec fn rejects(&self, rest: Vec<u8>) -> bool;

    fn replay(
        &self,
        world: &mut World,
        registry: &mut NetworkEntityRegistry,
        payload: &NetworkPayload,
    ) -> (res: Result<NetworkEntity, SpawnError>)
        ensures
            applied(*old(registry), *final(registry), payload@, res),
            read_as(
                ReplayView {
                    reads: |rest: Vec<u8>| self.reads(rest),
                    rejects: |rest: Vec<u8>| self.rejects(rest),
                },
                payload@,
                res,
            ),
    ;
}

/// How a registered type reads spawnables: of which written forms it makes
/// a spawnable, and of which none.
pub struct ReplayView {
    pub reads: spec_fn(Vec<u8>) -> bool,
    pub rejects: spec_fn(Vec<u8>) -> bool,
}

/// How `T` reads spawnables: by its `decode`.
pub open spec fn replay_of<T: NetworkSpawnable>() -> ReplayView {
    ReplayView {
        reads: |rest: Vec<u8>|
            exists|spawnable: T| call_ensures(T::decode, (&rest,), Some(spawnable)),
        rejects: |rest: Vec<u8>| call_ensures(T::decode, (&rest,), None::<T>),
    }
}

/// Whether the result `res` of applying `envelope` fits how the type reads:
/// the envelope is refused as unreadable only where the type read nothing
/// from what follows the name, and an object is built only where it read a
/// spawnable from it.
pub open spec fn read_as(
    replay: ReplayView,
    envelope: Envelope,
    res: Result<NetworkEntity, SpawnError>,
) -> bool {
    &&& res == Err::<NetworkEntity, SpawnError>(SpawnError::Unreadable) ==> exists|rest: Vec<u8>|
        rest@ == envelope.body.skip(NETWORK_ENTITY_BYTES as int) && #[trigger] (replay.rejects)(
            rest,
        )
    &&& res is Ok || res == Err::<NetworkEntity, SpawnError>(SpawnError::NoEntity) ==> exists|
        rest: Vec<u8>,
    |
        rest@ == envelope.body.skip(NETWORK_ENTITY_BYTES as int) && #[trigger] (replay.reads)(rest)
}

/// Applies the envelopes of type `T`.
struct Replayer<T> {
    marker: PhantomData<T>,
}

impl<T: NetworkSpawnable> Replay for Replayer<T> {
    spec fn reads(&self, rest: Vec<u8>) -> bool {
        (replay_of::<T>().reads)(rest)
    }

    spec fn rejects(&self, rest: Vec<u8>) -> bool {
        (replay_of::<T>().rejects)(rest)
    }

    fn replay(
        &self,
        world: &mut World,
        registry: &mut NetworkEntityRegistry,
        payload: &NetworkPayload,
    ) -> (res: Result<NetworkEntity, SpawnError>) {
        proof {
            assert((|rest: Vec<u8>| self.reads(rest)) =~= replay_of::<T>().reads);
            assert((|rest: Vec<u8>| self.rejects(rest)) =~= replay_of::<T>().rejects);
        }
        spawn::<T>(world, registry, payload)
    }
}

/// How the object of one waiting spawn is built.
trait Build: Send + Sync {
    fn build(&self, world: &mut World) -> Entity;
}

/// Builds the object of `spawnable`.
struct Builder<T> {
    spawnable: T,
}

impl<T: NetworkSpawnable> Build for Builder<T> {
    fn build(&self, world: &mut World) -> Entity {
        self.spawnable.spawn(world)
    }
}

/// A spawn that waits for its name: the tag of its type with the written
/// form of the spawnable, and how to build its object.
struct Waiting {
    written: NetworkPayload,
    build: Box<dyn Build>,
}

/// The waiting spawn of `spawnable`, whose written form is `data`.
fn waiting_for<T: NetworkSpawnable>(tag: u128, data: Vec<u8>, spawnable: T) -> (waiting: Waiting)
    ensures
        waiting.written == (NetworkPayload { uuid: tag, data }),
{
    Waiting { written: NetworkPayload { uuid: tag, data }, build: Box::new(Builder { spawnable }) }
}

/// What `spawns` hold in writing, in order.
spec fn written(spawns: Seq<Waiting>) -> Seq<NetworkPayload> {
    spawns.map_values(|waiting: Waiting| waiting.written)
}

/// What a [`NetworkSpawner`] holds.
pub struct SpawnerView {
    /// The tags of the registered types, in the order of registration.
    pub registered: Seq<u128>,
    /// How each registered type reads spawnables, in the same order.
    pub replays: Seq<ReplayView>,
    /// The spawns that wait for a name: each under the tag of its type, with
    /// the written form of the spawnable as its body.
    pub pending: Seq<NetworkPayload>,
}

/// The spawnable types of a peer, and the spawns that the server has asked
/// for since the last tick.
pub struct NetworkSpawner {
    spawnables: HashMap<u128, Registered>,
    order: Vec<u128>,
    spawns: Vec<Waiting>,
}

/// A registered type: how its envelopes are applied.
struct Registered {
    replay: Box<dyn Replay>,
}

/// The entry that registers `T`.
fn registration<T: NetworkSpawnable>() -> (registered: Registered)
    ensures
        shown(registered) == replay_of::<T>(),
{
    let registered = Registered { replay: Box::new(Replayer::<T> { marker: PhantomData }) };
    proof {
        assert(shown(registered).reads =~= replay_of::<T>().reads);
        assert(shown(registered).rejects =~= replay_of::<T>().rejects);
    }
    registered
}

/// How the type of `registered` reads.
spec fn shown(registered: Registered) -> ReplayView {
    ReplayView {
        reads: |rest: Vec<u8>| registered.replay.reads(rest),
        rejects: |rest: Vec<u8>| registered.replay.rejects(rest),
    }
}

/// How the types registered in `spawnables` under the tags `order` read, in
/// that order.
spec fn replays(order: Seq<u128>, spawnables: Map<u128, Registered>) -> Seq<ReplayView> {
    order.map_values(|tag: u128| shown(spawnables[tag]))
}

impl View for NetworkSpawner {
    type V = SpawnerView;

    closed spec fn view(&self) -> SpawnerView {
        SpawnerView {
            registered: self.order@,
            replays: replays(self.order@, self.spawnables@),
            pending: written(self.spawns@),
        }
    }
}

/// What naming one waiting spawn may do to a registry, from `before` to
/// `after`, with result `res`. The spawn gets the next name, which is spent
/// whatever happens. Where the name is taken, the spawn is refused before
/// anything is built, and says so. Otherwise the object is built, and the
/// world decides: the name is registered now, for some entity, and the
/// result is the envelope that announces the spawn, with the tag, the name
/// and the spawnable; or the entity is not in the world and the spawn is
/// refused. A refusal changes no entry.
pub open spec fn begun(
    before: NetworkEntityRegistry,
    after: NetworkEntityRegistry,
    waiting: NetworkPayload,
    res: Result<NetworkPayload, SpawnError>,
) -> bool {
    let name = NetworkEntity(before.next());
    &&& after.next() == before.next() + 1
    &&& res is Err ==> after.entities() == before.entities()
    &&& before.entities().contains_key(name) ==> res == Err::<NetworkPayload, SpawnError>(
        SpawnError::Duplicate(
            DuplicateEntity { network_entity: name, existing: before.entities()[name] },
        ),
    )
    &&& !before.entities().contains_key(name) && res is Err ==> res->Err_0 == SpawnError::NoEntity
    &&& res is Ok ==> !before.entities().contains_key(name) && res->Ok_0@ == (Envelope {
        tag: waiting.uuid,
        body: spawn_body(name, waiting.data@),
    }) && after.entities().contains_key(name) && after.entities() == before.entities().insert(
        name,
        after.entities()[name],
    )
}

/// Whether naming `pending` one after the other, with the results
/// `results`, leads through the registries `steps`, from the first to the
/// last.
pub open spec fn begun_in_turn(
    steps: Seq<NetworkEntityRegistry>,
    pending: Seq<NetworkPayload>,
    results: Seq<Result<NetworkPayload, SpawnError>>,
) -> bool {
    &&& steps.len() == pending.len() + 1
    &&& results.len() == pending.len()
    &&& forall|k: int|
        0 <= k < pending.len() ==> begun(steps[k], steps[k + 1], pending[k], #[trigger] results[k])
}

/// What [`NetworkSpawner::spawn_payload`] may do with `envelope` on a peer
/// where the tags `registered` are registered: it applies an envelope under
/// one of them, and drops any other, which changes nothing.
pub open spec fn replayed(
    registered: Seq<u128>,
    before: NetworkEntityRegistry,
    after: NetworkEntityRegistry,
    envelope: Envelope,
    res: Result<NetworkEntity, SpawnError>,
) -> bool {
    if registered.contains(envelope.tag) {
        applied(before, after, envelope, res)
    } else {
        res == Err::<NetworkEntity, SpawnError>(SpawnError::UnknownType) && after == before
    }
}

/// Whether replaying `envelopes` one after the other, with the results
/// `outcomes`, leads through the registries `steps`, from the first to the
/// last.
pub open spec fn replayed_in_turn(
    registered: Seq<u128>,
    steps: Seq<NetworkEntityRegistry>,
    envelopes: Seq<Envelope>,
    outcomes: Seq<Result<NetworkEntity, SpawnError>>,
) -> bool {
    &&& steps.len() == envelopes.len() + 1
    &&& outcomes.len() == envelopes.len()
    &&& forall|k: int|
        0 <= k < envelopes.len() ==> replayed(
            registered,
            steps[k],
            steps[k + 1],
            envelopes[k],
            #[trigger] outcomes[k],
        )
}

/// The envelopes among `results`, in order: those of the spawns that were
/// not refused.
pub open spec fn announced(results: Seq<Result<NetworkPayload, SpawnError>>) -> Seq<Envelope>
    decreases results.len(),
{
    if results.len() == 0 {
        Seq::empty()
    } else if results.last() is Ok {
        announced(results.drop_last()).push(results.last()->Ok_0@)
    } else {
        announced(results.drop_last())
    }
}

impl NetworkSpawner {
    #[verifier::type_invariant]
    spec fn inv(self) -> bool {
        &&& self.order@.no_duplicates()
        &&& forall|tag: u128| #[trigger]
            self.spawnables@.contains_key(tag) <==> self.order@.contains(tag)
        &&& forall|i: int|
            0 <= i < self.spawns@.len() ==> (#[trigger] self.spawns@[i]).written.data@.len()
                <= MAX_SPAWNABLE_BYTES
    }

    /// No type is registered and no spawn waits.
    pub fn new() -> (spawner: Self)
        ensures
            spawner@ == (SpawnerView {
                registered: Seq::empty(),
                replays: Seq::empty(),
                pending: Seq::empty(),
            }),
    {
        broadcast use vstd::std_specs::hash::group_hash_axioms;

        let spawner = Self { spawnables: HashMap::new(), order: Vec::new(), spawns: Vec::new() };
        assert(spawner@.registered =~= Seq::empty());
        assert(spawner@.replays =~= Seq::empty());
        assert(spawner@.pending =~= Seq::empty());
        spawner
    }

    /// How many spawns wait for a name.
    pub fn waiting(&self) -> (count: usize)
        ensures
            count == self@.pending.len(),
    {
        self.spawns.len()
    }

    /// Whether a type is registered under `tag`.
    pub fn is_registered(&self, tag: u128) -> (registered: bool)
        ensures
            registered == self@.registered.contains(tag),
    {
        broadcast use vstd::std_specs::hash::group_hash_axioms;

        proof {
            use_type_invariant(self);
        }
        self.spawnables.contains_key(&tag)
    }

    /// Registers `T`: from now on the envelopes under its tag are applied as
    /// spawns of `T`. The tag is what `T` gives for it; a tag that is
    /// registered already keeps its place.
    pub fn register_spawnable<T: NetworkSpawnable>(&mut self)
        ensures
            final(self)@.pending == old(self)@.pending,
            final(self)@.replays.len() == final(self)@.registered.len(),
            exists|tag: u128|
                {
                    &&& #[trigger] call_ensures(T::type_tag, (), tag)
                    &&& final(self)@.registered == if old(self)@.registered.contains(tag) {
                        old(self)@.registered
                    } else {
                        old(self)@.registered.push(tag)
                    }
                    &&& final(self)@.replays == if old(self)@.registered.contains(tag) {
                        old(self)@.replays.update(
                            old(self)@.registered.index_of(tag),
                            replay_of::<T>(),
                        )
                    } else {
                        old(self)@.replays.push(replay_of::<T>())
                    }
                },
    {
        broadcast use vstd::std_specs::hash::group_hash_axioms;

        proof {
            use_type_invariant(&*self);
        }
        let tag = T::type_tag();
        let mut taken = NetworkSpawner::new();
        core::mem::swap(self, &mut taken);
        let NetworkSpawner { spawnables, order, spawns } = taken;
        let mut spawnables = spawnables;
        let mut order = order;
        let ghost table = spawnables@;
        let ghost tags = order@;
        let known = spawnables.contains_key(&tag);
        spawnables.insert(tag, registration::<T>());
        if !known {
            order.push(tag);
        }
        proof {
            if known {
                let place = tags.index_of(tag);
                assert(tags[place] == tag);
                assert(replays(order@, spawnables@) =~= replays(tags, table).update(
                    place,
                    replay_of::<T>(),
                ));
            } else {
                assert(replays(order@, spawnables@) =~= replays(tags, table).push(
                    replay_of::<T>(),
                ));
                assert forall|i: int| 0 <= i < tags.len() implies tags[i] != tag by {
                    if tags[i] == tag {
                        assert(tags.contains(tag));
                    }
                }
                assert forall|other: u128| #[trigger]
                    spawnables@.contains_key(other) <==> order@.contains(other) by {
                    if tags.contains(other) {
                        let k = tags.index_of(other);
                        assert(order@[k] == other);
                    }
                    if order@.contains(other) && other != tag {
                        let k = order@.index_of(other);
                        assert(tags[k] == other);
                    }
                    if other == tag {
                        assert(order@[tags.len() as int] == tag);
                    }
                }
            }
        }
        *self = NetworkSpawner { spawnables, order, spawns };
    }

    /// Applies `payload` if a type is registered under its tag. An envelope
    /// under another tag is dropped, and nothing changes: not the registry
    /// and not the world.
    pub fn spawn_payload(
        &self,
        world: &mut World,
        registry: &mut NetworkEntityRegistry,
        payload: &NetworkPayload,
    ) -> (res: Result<NetworkEntity, SpawnError>)
        ensures
            replayed(self@.registered, *old(registry), *final(registry), payload@, res),
            !self@.registered.contains(payload.uuid) ==> *final(world) == *old(world),
            self@.registered.contains(payload.uuid) ==> read_as(
                self@.replays[self@.registered.index_of(payload.uuid)],
                payload@,
                res,
            ),
    {
        broadcast use vstd::std_specs::hash::group_hash_axioms;

        proof {
            use_type_invariant(self);
        }
        match self.spawnables.get(&payload.uuid) {
            Some(registered) => {
                proof {
                    let found = self@.registered.index_of(payload.uuid);
                    assert(self.order@[found] == payload.uuid);
                    assert(replays(self.order@, self.spawnables@)[found] == shown(*registered));
                }
                registered.replay.replay(world, registry, payload)
            },
            None => Err(SpawnError::UnknownType),
        }
    }

    /// Asks for a spawn of `spawnable`, whose type has the tag `tag` and
    /// whose written form is `data`. A form that no envelope can carry
    /// behind the name is refused; any other waits now, behind the spawns
    /// that wait already.
    pub fn spawn_written<T: NetworkSpawnable>(
        &mut self,
        tag: u128,
        data: Vec<u8>,
        spawnable: T,
    ) -> (res: Result<(), RequestError>)
        ensures
            final(self)@.registered == old(self)@.registered,
            final(self)@.replays == old(self)@.replays,
            data@.len() > MAX_SPAWNABLE_BYTES ==> res == Err::<(), RequestError>(
                RequestError::TooLong,
            ) && final(self)@.pending == old(self)@.pending,
            data@.len() <= MAX_SPAWNABLE_BYTES ==> res is Ok,
            data@.len() <= MAX_SPAWNABLE_BYTES ==> final(self)@.pending == old(self)@.pending.push(
                NetworkPayload { uuid: tag, data },
            ),
    {
        proof {
            use_type_invariant(&*self);
        }
        if data.len() > MAX_SPAWNABLE_BYTES {
            return Err(RequestError::TooLong);
        }
        let ghost before = self.spawns@;
        let mut spawns: Vec<Waiting> = Vec::new();
        core::mem::swap(&mut self.spawns, &mut spawns);
        spawns.push(waiting_for::<T>(tag, data, spawnable));
        assert(written(spawns@) =~= written(before).push(NetworkPayload { uuid: tag, data }));
        self.spawns = spawns;
        Ok(())
    }

    /// Asks for a spawn of `spawnable` on every peer. The tag and the
    /// written form are what the type gives for them. The spawn is refused,
    /// and nothing changes, where the type gives no form or one that no
    /// envelope can carry. Nothing is built and no name is given before
    /// [`NetworkSpawner::take_spawns`] runs.
    pub fn spawn<T: NetworkSpawnable>(&mut self, spawnable: T) -> (res: Result<(), RequestError>)
        ensures
            final(self)@.registered == old(self)@.registered,
            final(self)@.replays == old(self)@.replays,
            res is Err ==> final(self)@.pending == old(self)@.pending,
            res is Ok ==> {
                let taken = final(self)@.pending.last();
                &&& final(self)@.pending.len() == old(self)@.pending.len() + 1
                &&& final(self)@.pending.drop_last() == old(self)@.pending
                &&& call_ensures(T::type_tag, (), taken.uuid)
                &&& call_ensures(T::encode, (&spawnable,), Some(taken.data))
                &&& taken.data@.len() <= MAX_SPAWNABLE_BYTES
            },
            res == Err::<(), RequestError>(RequestError::Unwritable) ==> call_ensures(
                T::encode,
                (&spawnable,),
                None::<Vec<u8>>,
            ),
            res == Err::<(), RequestError>(RequestError::TooLong) ==> exists|data: Vec<u8>|
                #[trigger] call_ensures(T::encode, (&spawnable,), Some(data)) && data@.len()
                    > MAX_SPAWNABLE_BYTES,
    {
        let data = match spawnable.encode() {
            Some(data) => data,
            None => {
                return Err(RequestError::Unwritable);
            },
        };
        let tag = T::type_tag();
        let res = self.spawn_written(tag, data, spawnable);
        proof {
            if res is Ok {
                assert(self@.pending.drop_last() =~= old(self)@.pending);
            }
        }
        res
    }

    /// Begins every waiting spawn, in the order in which they were asked
    /// for: gives it the next name, builds its object in `world`, marks the
    /// object with the name, registers it under the name and makes the
    /// envelope that announces it. The result has one entry for each spawn:
    /// its envelope, or why it was refused.
    pub fn take_spawns(
        &mut self,
        world: &mut World,
        registry: &mut NetworkEntityRegistry,
    ) -> (results: Vec<Result<NetworkPayload, SpawnError>>)
        requires
            old(registry).next() + old(self)@.pending.len() <= u64::MAX,
        ensures
            final(self)@ == (SpawnerView {
                registered: old(self)@.registered,
                replays: old(self)@.replays,
                pending: Seq::empty(),
            }),
            final(registry).next() == old(registry).next() + old(self)@.pending.len(),
            exists|steps: Seq<NetworkEntityRegistry>|
                {
                    &&& #[trigger] begun_in_turn(steps, old(self)@.pending, results@)
                    &&& steps[0] == *old(registry)
                    &&& steps.last() == *final(registry)
                },
            forall|i: int|
                0 <= i < results@.len() && (#[trigger] results@[i]) is Ok
                    ==> results@[i]->Ok_0.data@.len() <= MAX_BODY_BYTES,
            old(self)@.pending.len() == 0 ==> *final(world) == *old(world),
    {
        proof {
            use_type_invariant(&*self);
        }
        let mut spawns: Vec<Waiting> = Vec::new();
        core::mem::swap(&mut self.spawns, &mut spawns);
        assert(self@.pending =~= Seq::empty());
        let ghost all = spawns@;
        let ghost first = registry.next();
        let ghost mut steps: Seq<NetworkEntityRegistry> = seq![*registry];
        let mut results: Vec<Result<NetworkPayload, SpawnError>> = Vec::new();
        assert(written(all).take(0) =~= Seq::empty());
        for waiting in it: spawns
            invariant
                it.seq() == all,
                first + all.len() <= u64::MAX,
                forall|i: int|
                    0 <= i < all.len() ==> (#[trigger] all[i]).written.data@.len()
                        <= MAX_SPAWNABLE_BYTES,
                registry.next() == first + it.index(),
                begun_in_turn(steps, written(all).take(it.index() as int), results@),
                steps[0] == *old(registry),
                steps.last() == *registry,
                forall|i: int|
                    0 <= i < results@.len() && (#[trigger] results@[i]) is Ok
                        ==> results@[i]->Ok_0.data@.len() <= MAX_BODY_BYTES,
                all.len() == 0 ==> *world == *old(world),
        {
            let ghost seen = it.index() as int;
            let ghost before = *registry;
            assert(waiting == all[seen]);
            let network_entity = registry.generate();
            let res = match registry.get(&network_entity) {
                Some(existing) => Err(
                    SpawnError::Duplicate(DuplicateEntity { network_entity, existing }),
                ),
                None => {
                    let entity = waiting.build.build(world);
                    let marked = mark(world, entity, network_entity);
                    match register_spawned(registry, network_entity, entity, marked) {
                        Ok(_) => {
                            let event = NetworkSpawnEvent {
                                network_entity,
                                spawnable: waiting.written.data,
                            };
                            let data = event.to_body();
                            proof {
                                lemma_spawn_body_round_trip(network_entity, event.spawnable@);
                            }
                            Ok(NetworkPayload { uuid: waiting.written.uuid, data })
                        },
                        Err(error) => Err(error),
                    }
                },
            };
            proof {
                assert(begun(before, *registry, all[seen].written, res));
                let longer = steps.push(*registry);
                let named = written(all).take(seen + 1);
                assert(named.drop_last() =~= written(all).take(seen));
                assert forall|k: int| 0 <= k < named.len() implies begun(
                    longer[k],
                    longer[k + 1],
                    named[k],
                    #[trigger] results@.push(res)[k],
                ) by {
                    if k < seen {
                        assert(begun(
                            steps[k],
                            steps[k + 1],
                            written(all).take(seen)[k],
                            results@[k],
                        ));
                    }
                }
                steps = longer;
            }
            results.push(res);
        }
        proof {
            assert(written(all).take(all.len() as int) =~= written(all));
        }
        results
    }
}

/// The envelopes of the messages that wait under the tags `registered`: all
/// under the first tag, oldest first, then all under the second, and so on.
pub open spec fn spawn_inbox(registered: Seq<u128>, messages: NetworkMessages) -> Seq<Envelope>
    decreases registered.len(),
{
    if registered.len() == 0 {
        Seq::empty()
    } else {
        spawn_inbox(registered.drop_last(), messages) + messages.queue(
            registered.last(),
        ).map_values(|message: NetworkMessage| message.payload@)
    }
}

/// The senders of those messages, in the same order.
pub open spec fn spawn_senders(registered: Seq<u128>, messages: NetworkMessages) -> Seq<ActorId>
    decreases registered.len(),
{
    if registered.len() == 0 {
        Seq::empty()
    } else {
        spawn_senders(registered.drop_last(), messages) + messages.queue(
            registered.last(),
        ).map_values(|message: NetworkMessage| message.sender)
    }
}

/// Whether an envelope was refused for what it holds: its body is too short
/// for a name, or its type could not read the spawnable. Such an envelope is
/// a malformed frame.
pub open spec fn is_malformed(outcome: Result<NetworkEntity, SpawnError>) -> bool {
    outcome == Err::<NetworkEntity, SpawnError>(SpawnError::Truncated) || outcome == Err::<
        NetworkEntity,
        SpawnError,
    >(SpawnError::Unreadable)
}

/// Those of `senders` whose envelope was refused for what it holds, in
/// order, where `outcomes` has the outcome of the envelope of each.
pub open spec fn faulted(
    senders: Seq<ActorId>,
    outcomes: Seq<Result<NetworkEntity, SpawnError>>,
) -> Seq<ActorId>
    decreases senders.len(),
{
    if senders.len() == 0 {
        Seq::empty()
    } else if is_malformed(outcomes.last()) {
        faulted(senders.drop_last(), outcomes.drop_last()).push(senders.last())
    } else {
        faulted(senders.drop_last(), outcomes.drop_last())
    }
}

/// One more envelope replayed makes a chain of registries one longer.
proof fn lemma_replayed_next(
    registered: Seq<u128>,
    steps: Seq<NetworkEntityRegistry>,
    envelopes: Seq<Envelope>,
    outcomes: Seq<Result<NetworkEntity, SpawnError>>,
    after: NetworkEntityRegistry,
    envelope: Envelope,
    res: Result<NetworkEntity, SpawnError>,
)
    requires
        replayed_in_turn(registered, steps, envelopes, outcomes),
        replayed(registered, steps.last(), after, envelope, res),
    ensures
        replayed_in_turn(
            registered,
            steps.push(after),
            envelopes.push(envelope),
            outcomes.push(res),
        ),
        steps.push(after)[0] == steps[0],
        steps.push(after).last() == after,
{
    let longer = steps.push(after);
    assert forall|k: int| 0 <= k < envelopes.push(envelope).len() implies replayed(
        registered,
        longer[k],
        longer[k + 1],
        envelopes.push(envelope)[k],
        #[trigger] outcomes.push(res)[k],
    ) by {
        if k < envelopes.len() {
            assert(replayed(registered, steps[k], steps[k + 1], envelopes[k], outcomes[k]));
        }
    }
}

/// Whether a spawn phase may have led from the registry `before` to
/// `after`: first through `naming`, as the spawns that waited in `spawner`
/// were begun one after the other with the results `spawned`; then through
/// `applying`, as the envelopes of those that were not refused and then the
/// envelopes `arrived` were replayed one after the other with the results
/// `outcomes`.
pub open spec fn spawn_phase(
    naming: Seq<NetworkEntityRegistry>,
    applying: Seq<NetworkEntityRegistry>,
    before: NetworkEntityRegistry,
    after: NetworkEntityRegistry,
    spawner: SpawnerView,
    arrived: Seq<Envelope>,
    spawned: Seq<Result<NetworkPayload, SpawnError>>,
    outcomes: Seq<Result<NetworkEntity, SpawnError>>,
) -> bool {
    &&& begun_in_turn(naming, spawner.pending, spawned)
    &&& naming[0] == before
    &&& applying[0] == naming.last()
    &&& replayed_in_turn(spawner.registered, applying, announced(spawned) + arrived, outcomes)
    &&& applying.last() == after
}

/// What is registered stays registered while spawns are begun: an entry of
/// an earlier registry of the chain is an entry of every later one.
pub proof fn lemma_begun_keeps(
    steps: Seq<NetworkEntityRegistry>,
    pending: Seq<NetworkPayload>,
    results: Seq<Result<NetworkPayload, SpawnError>>,
    earlier: int,
    later: int,
    name: NetworkEntity,
)
    requires
        begun_in_turn(steps, pending, results),
        0 <= earlier <= later < steps.len(),
        steps[earlier].entities().contains_key(name),
    ensures
        steps[later].entities().contains_key(name),
        steps[later].entities()[name] == steps[earlier].entities()[name],
        steps[later].next() == steps[earlier].next() + (later - earlier),
    decreases later - earlier,
{
    if earlier < later {
        lemma_begun_keeps(steps, pending, results, earlier, later - 1, name);
        assert(begun(steps[later - 1], steps[later], pending[later - 1], results[later - 1]));
    }
}

/// The names go up by one along the chain.
pub proof fn lemma_begun_counts(
    steps: Seq<NetworkEntityRegistry>,
    pending: Seq<NetworkPayload>,
    results: Seq<Result<NetworkPayload, SpawnError>>,
    place: int,
)
    requires
        begun_in_turn(steps, pending, results),
        0 <= place < steps.len(),
    ensures
        steps[place].next() == steps[0].next() + place,
    decreases place,
{
    if place > 0 {
        lemma_begun_counts(steps, pending, results, place - 1);
        assert(begun(steps[place - 1], steps[place], pending[place - 1], results[place - 1]));
    }
}

/// A spawn that was begun and not refused has its name bound when all are
/// begun: the name that counts its place from the first name, which is the
/// name in its envelope.
pub proof fn lemma_begun_binds(
    steps: Seq<NetworkEntityRegistry>,
    pending: Seq<NetworkPayload>,
    results: Seq<Result<NetworkPayload, SpawnError>>,
    place: int,
)
    requires
        begun_in_turn(steps, pending, results),
        0 <= place < results.len(),
        results[place] is Ok,
    ensures
        steps.last().entities().contains_key(NetworkEntity((steps[0].next() + place) as u64)),
        results[place]->Ok_0@ == (Envelope {
            tag: pending[place].uuid,
            body: spawn_body(
                NetworkEntity((steps[0].next() + place) as u64),
                pending[place].data@,
            ),
        }),
{
    lemma_begun_counts(steps, pending, results, place);
    assert(begun(steps[place], steps[place + 1], pending[place], results[place]));
    let name = NetworkEntity(steps[place].next());
    lemma_begun_keeps(steps, pending, results, place + 1, steps.len() - 1, name);
}

/// What is registered stays registered while envelopes are replayed.
pub proof fn lemma_replayed_keeps(
    registered: Seq<u128>,
    steps: Seq<NetworkEntityRegistry>,
    envelopes: Seq<Envelope>,
    outcomes: Seq<Result<NetworkEntity, SpawnError>>,
    earlier: int,
    later: int,
    name: NetworkEntity,
)
    requires
        replayed_in_turn(registered, steps, envelopes, outcomes),
        0 <= earlier <= later < steps.len(),
        steps[earlier].entities().contains_key(name),
    ensures
        steps[later].entities().contains_key(name),
        steps[later].entities()[name] == steps[earlier].entities()[name],
    decreases later - earlier,
{
    if earlier < later {
        lemma_replayed_keeps(registered, steps, envelopes, outcomes, earlier, later - 1, name);
        assert(replayed(
            registered,
            steps[later - 1],
            steps[later],
            envelopes[later - 1],
            outcomes[later - 1],
        ));
    }
}

/// An envelope that was applied has its name bound when all are replayed,
/// and the name is the one that its body starts with.
pub proof fn lemma_replayed_binds(
    registered: Seq<u128>,
    steps: Seq<NetworkEntityRegistry>,
    envelopes: Seq<Envelope>,
    outcomes: Seq<Result<NetworkEntity, SpawnError>>,
    place: int,
)
    requires
        replayed_in_turn(registered, steps, envelopes, outcomes),
        0 <= place < outcomes.len(),
        outcomes[place] is Ok,
    ensures
        outcomes[place]->Ok_0 == spawn_name(envelopes[place].body),
        steps.last().entities().contains_key(outcomes[place]->Ok_0),
{
    assert(replayed(
        registered,
        steps[place],
        steps[place + 1],
        envelopes[place],
        outcomes[place],
    ));
    lemma_replayed_keeps(
        registered,
        steps,
        envelopes,
        outcomes,
        place + 1,
        steps.len() - 1,
        outcomes[place]->Ok_0,
    );
}

/// Whether an envelope was refused for what it holds.
pub fn is_malformed_outcome(outcome: &Result<NetworkEntity, SpawnError>) -> (malformed: bool)
    ensures
        malformed == is_malformed(*outcome),
{
    match outcome {
        Err(SpawnError::Truncated) => true,
        Err(SpawnError::Unreadable) => true,
        _ => false,
    }
}

/// What the spawn phase of a tick did.
#[derive(Debug, PartialEq, Eq)]
pub struct SpawnTick {
    /// What became of each spawn that waited: the envelope that announces
    /// it, or why it was refused.
    pub spawned: Vec<Result<NetworkPayload, SpawnError>>,
    /// The frames of the envelopes in `spawned`, each with the peers that it
    /// goes to, in their order.
    pub broadcasts: Vec<Broadcast>,
    /// What became of each envelope that was applied here: first those in
    /// `spawned`, then those that arrived.
    pub outcomes: Vec<Result<NetworkEntity, SpawnError>>,
    /// The sender of each envelope that arrived and was refused for what it
    /// holds, in order. Such an envelope is a malformed frame, and ends the
    /// connection of its sender ([`NetworkResource::on_unreadable`]).
    pub unreadable: Vec<ActorId>,
}

/// The spawn phase of a tick. Every spawn that waits is begun: it gets its
/// name, its object is built and registered, and its envelope is framed for
/// every peer of `net` and applied here as every peer applies it; here
/// that is refused, since the name is taken by then. After that the spawn
/// envelopes that arrived are applied: those under the first registered tag
/// in their order of arrival, then those under the second, and so on.
pub fn network_spawner_system(
    world: &mut World,
    spawner: &mut NetworkSpawner,
    registry: &mut NetworkEntityRegistry,
    net: &NetworkResource,
    messages: &mut NetworkMessages,
) -> (tick: SpawnTick)
    requires
        old(registry).next() + old(spawner)@.pending.len() <= u64::MAX,
    ensures
        final(spawner)@ == (SpawnerView {
            registered: old(spawner)@.registered,
            replays: old(spawner)@.replays,
            pending: Seq::empty(),
        }),
        final(registry).next() == old(registry).next() + old(spawner)@.pending.len(),
        tick.broadcasts@.len() == announced(tick.spawned@).len(),
        forall|i: int|
            0 <= i < tick.broadcasts@.len() ==> (#[trigger] tick.broadcasts@[i]).frame@ == frame(
                announced(tick.spawned@)[i],
            ) && tick.broadcasts@[i].peers@ == open_ids(net@.links),
        exists|naming: Seq<NetworkEntityRegistry>, applying: Seq<NetworkEntityRegistry>| #[trigger]
            spawn_phase(
                naming,
                applying,
                *old(registry),
                *final(registry),
                old(spawner)@,
                spawn_inbox(old(spawner)@.registered, *old(messages)),
                tick.spawned@,
                tick.outcomes@,
            ),
        tick.unreadable@ == faulted(
            spawn_senders(old(spawner)@.registered, *old(messages)),
            tick.outcomes@.skip(announced(tick.spawned@).len() as int),
        ),
        forall|tag: u128|
            #![trigger final(messages).queue(tag)]
            final(messages).queue(tag) == if old(spawner)@.registered.contains(tag) {
                Seq::<NetworkMessage>::empty()
            } else {
                old(messages).queue(tag)
            },
{
    proof {
        use_type_invariant(&*spawner);
    }
    let ghost pending = spawner@.pending;
    let ghost registered = spawner@.registered;
    let spawned = spawner.take_spawns(world, registry);
    let ghost naming = choose|steps: Seq<NetworkEntityRegistry>|
        {
            &&& #[trigger] begun_in_turn(steps, pending, spawned@)
            &&& steps[0] == *old(registry)
            &&& steps.last() == *registry
        };
    assert(begun_in_turn(naming, pending, spawned@) && naming[0] == *old(registry)
        && naming.last() == *registry);
    let ghost own = announced(spawned@);
    let ghost mut applying: Seq<NetworkEntityRegistry> = seq![*registry];
    let mut broadcasts: Vec<Broadcast> = Vec::new();
    let mut outcomes: Vec<Result<NetworkEntity, SpawnError>> = Vec::new();
    let mut i: usize = 0;
    assert(spawned@.take(0) =~= Seq::empty());
    while i < spawned.len()
        invariant
            i <= spawned@.len(),
            spawner@.registered == registered,
            spawner@.pending == Seq::<NetworkPayload>::empty(),
            registry.next() == old(registry).next() + pending.len(),
            forall|k: int|
                0 <= k < spawned@.len() && (#[trigger] spawned@[k]) is Ok
                    ==> spawned@[k]->Ok_0.data@.len() <= MAX_BODY_BYTES,
            broadcasts@.len() == announced(spawned@.take(i as int)).len(),
            forall|k: int|
                0 <= k < broadcasts@.len() ==> (#[trigger] broadcasts@[k]).frame@ == frame(
                    announced(spawned@.take(i as int))[k],
                ) && broadcasts@[k].peers@ == open_ids(net@.links),
            replayed_in_turn(
                registered,
                applying,
                announced(spawned@.take(i as int)),
                outcomes@,
            ),
            applying[0] == naming.last(),
            applying.last() == *registry,
        decreases spawned@.len() - i,
    {
        proof {
            assert(spawned@.take(i + 1).drop_last() =~= spawned@.take(i as int));
            assert(spawned@.take(i + 1).last() == spawned@[i as int]);
        }
        let entry = &spawned[i];
        match entry {
            Ok(payload) => {
                match net.send(payload) {
                    Ok(broadcast) => {
                        broadcasts.push(broadcast);
                    },
                    Err(_) => {},
                }
                let res = spawner.spawn_payload(world, registry, payload);
                proof {
                    lemma_replayed_next(
                        registered,
                        applying,
                        announced(spawned@.take(i as int)),
                        outcomes@,
                        *registry,
                        payload@,
                        res,
                    );
                    applying = applying.push(*registry);
                }
                outcomes.push(res);
            },
            Err(_) => {},
        }
        i += 1;
    }
    assert(spawned@.take(i as int) =~= spawned@);
    assert(own + spawn_inbox(registered.take(0), *messages) =~= own);
    let ghost inbound = *messages;
    let mut unreadable: Vec<ActorId> = Vec::new();
    let mut j: usize = 0;
    assert(outcomes@.skip(own.len() as int) =~= Seq::empty());
    while j < spawner.order.len()
        invariant
            j <= registered.len(),
            spawn_senders(registered.take(j as int), inbound).len() == spawn_inbox(
                registered.take(j as int),
                inbound,
            ).len(),
            unreadable@ == faulted(
                spawn_senders(registered.take(j as int), inbound),
                outcomes@.skip(own.len() as int),
            ),
            spawner@.registered == registered,
            spawner@.pending == Seq::<NetworkPayload>::empty(),
            registered == spawner.order@,
            registered.no_duplicates(),
            registry.next() == old(registry).next() + pending.len(),
            replayed_in_turn(
                registered,
                applying,
                own + spawn_inbox(registered.take(j as int), inbound),
                outcomes@,
            ),
            applying[0] == naming.last(),
            applying.last() == *registry,
            forall|tag: u128|
                #![trigger messages.queue(tag)]
                messages.queue(tag) == if registered.take(j as int).contains(tag) {
                    Seq::<NetworkMessage>::empty()
                } else {
                    inbound.queue(tag)
                },
        decreases registered.len() - j,
    {
        let tag = spawner.order[j];
        let ghost earlier = own + spawn_inbox(registered.take(j as int), inbound);
        let ghost sent = spawn_senders(registered.take(j as int), inbound);
        let ghost before = *messages;
        proof {
            assert(registered[j as int] == tag);
            assert(registered.take(j + 1).drop_last() =~= registered.take(j as int));
            if registered.take(j as int).contains(tag) {
                let k = registered.take(j as int).index_of(tag);
                assert(registered[k] == registered[j as int]);
            }
        }
        let taken = messages.take_messages(&tag);
        let ghost all = taken@;
        let ghost arrived = all.map_values(|message: NetworkMessage| message.payload@);
        let ghost senders = all.map_values(|message: NetworkMessage| message.sender);
        proof {
            assert(all == inbound.queue(tag));
            assert(earlier + arrived.take(0) =~= earlier);
            assert(sent + senders.take(0) =~= sent);
            assert forall|other: u128|
                #![trigger messages.queue(other)]
                messages.queue(other) == if registered.take(j + 1).contains(other) {
                    Seq::<NetworkMessage>::empty()
                } else {
                    inbound.queue(other)
                } by {
                if other == tag {
                    assert(registered.take(j + 1)[j as int] == tag);
                } else {
                    assert(messages.queue(other) == before.queue(other));
                    if registered.take(j + 1).contains(other) {
                        let k = registered.take(j + 1).index_of(other);
                        assert(registered.take(j as int)[k] == other);
                    }
                    if registered.take(j as int).contains(other) {
                        let k = registered.take(j as int).index_of(other);
                        assert(registered.take(j + 1)[k] == other);
                    }
                }
            }
        }
        for message in it: taken
            invariant
                it.seq() == all,
                arrived == all.map_values(|message: NetworkMessage| message.payload@),
                spawner@.registered == registered,
                spawner@.pending == Seq::<NetworkPayload>::empty(),
                registered == spawner.order@,
                registered.contains(tag),
                forall|i: int| 0 <= i < all.len() ==> (#[trigger] all[i]).payload.uuid == tag,
                registry.next() == old(registry).next() + pending.len(),
                replayed_in_turn(
                    registered,
                    applying,
                    earlier + arrived.take(it.index() as int),
                    outcomes@,
                ),
                applying[0] == naming.last(),
                applying.last() == *registry,
                senders == all.map_values(|message: NetworkMessage| message.sender),
                earlier.len() == own.len() + sent.len(),
                unreadable@ == faulted(
                    sent + senders.take(it.index() as int),
                    outcomes@.skip(own.len() as int),
                ),
        {
            let ghost seen = it.index() as int;
            assert(message == all[seen]);
            let res = spawner.spawn_payload(world, registry, &message.payload);
            let ghost judged = outcomes@.skip(own.len() as int);
            proof {
                assert(outcomes@.push(res).skip(own.len() as int) =~= judged.push(res));
                assert((sent + senders.take(seen + 1)).drop_last() =~= sent + senders.take(seen));
                assert((sent + senders.take(seen + 1)).last() == message.sender);
                assert(judged.push(res).drop_last() =~= judged);
            }
            if is_malformed_outcome(&res) {
                unreadable.push(message.sender);
            }
            proof {
                lemma_replayed_next(
                    registered,
                    applying,
                    earlier + arrived.take(seen),
                    outcomes@,
                    *registry,
                    message.payload@,
                    res,
                );
                assert(earlier + arrived.take(seen + 1) =~= (earlier + arrived.take(seen)).push(
                    message.payload@,
                ));
                applying = applying.push(*registry);
            }
            outcomes.push(res);
        }
        proof {
            assert(arrived.take(all.len() as int) =~= arrived);
            assert(senders.take(all.len() as int) =~= senders);
            assert(own + spawn_inbox(registered.take(j + 1), inbound) =~= earlier + arrived);
            assert(spawn_senders(registered.take(j + 1), inbound) =~= sent + senders);
        }
        j += 1;
    }
    proof {
        assert(registered.take(j as int) =~= registered);
        assert(inbound == *old(messages));
        assert(begun_in_turn(naming, pending, spawned@));
    }
    let tick = SpawnTick { spawned, broadcasts, outcomes, unreadable };
    proof {
        assert(spawn_phase(
            naming,
            applying,
            *old(registry),
            *registry,
            old(spawner)@,
            spawn_inbox(old(spawner)@.registered, *old(messages)),
            tick.spawned@,
            tick.outcomes@,
        ));
        assert(exists|naming: Seq<NetworkEntityRegistry>, applying: Seq<NetworkEntityRegistry>|
            #[trigger] spawn_phase(
                naming,
                applying,
                *old(registry),
                *registry,
                old(spawner)@,
                spawn_inbox(old(spawner)@.registered, *old(messages)),
                tick.spawned@,
                tick.outcomes@,
            ));
    }
    tick
}

/// The names that `count` calls of [`NetworkEntityRegistry::generate`]
/// return, one after the other, when the first returns the name `first`.
pub open spec fn generated(first: u64, count: nat) -> Seq<NetworkEntity> {
    Seq::new(count, |i: int| NetworkEntity((first + i) as u64))
}

/// Generated names go up: of two names that one registry generates, the
/// later is the greater, and so no two are the same.
pub proof fn lemma_names_go_up(first: u64, count: nat, earlier: int, later: int)
    requires
        first + count <= u64::MAX,
        0 <= earlier < later < count,
    ensures
        generated(first, count)[earlier].0 < generated(first, count)[later].0,
        generated(first, count)[earlier] != generated(first, count)[later],
        generated(first, count)[0] == NetworkEntity(first),
{
}

/// What is registered is found, and nothing else. On entries that lack
/// `name`, registering `entity` under it makes a lookup of `name` give
/// `entity` and leaves every other lookup as it was; a lookup in a fresh
/// registry gives nothing.
pub proof fn lemma_lookup(
    entries: Map<NetworkEntity, Entity>,
    name: NetworkEntity,
    entity: Entity,
    other: NetworkEntity,
)
    requires
        !entries.contains_key(name),
    ensures
        entries.insert(name, entity).contains_key(name),
        entries.insert(name, entity)[name] == entity,
        other != name ==> entries.insert(name, entity).contains_key(other) == entries.contains_key(
            other,
        ),
        other != name && entries.contains_key(other) ==> entries.insert(name, entity)[other]
            == entries[other],
        !Map::<NetworkEntity, Entity>::empty().contains_key(other),
{
}

/// The server and a client reach the same name for one spawn. The server
/// begins the spawn: it binds the next name to the object that it built and
/// writes that name into the envelope. A client that applies the envelope
/// binds the object that it built to the name that it reads from the body,
/// and that is the name that the server bound.
pub proof fn lemma_spawn_names_agree(
    waiting: NetworkPayload,
    server_before: NetworkEntityRegistry,
    server_after: NetworkEntityRegistry,
    at_server: Result<NetworkPayload, SpawnError>,
    client_before: NetworkEntityRegistry,
    client_after: NetworkEntityRegistry,
    at_client: Result<NetworkEntity, SpawnError>,
)
    requires
        begun(server_before, server_after, waiting, at_server),
        at_server is Ok,
        applied(client_before, client_after, at_server->Ok_0@, at_client),
        at_client is Ok,
    ensures
        at_client == Ok::<NetworkEntity, SpawnError>(NetworkEntity(server_before.next())),
        server_after.entities().contains_key(NetworkEntity(server_before.next())),
        client_after.entities().contains_key(NetworkEntity(server_before.next())),
{
    lemma_spawn_body_round_trip(NetworkEntity(server_before.next()), waiting.data@);
}

} // verus!
