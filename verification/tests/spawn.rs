use bevy_ecs::entity::Entity;
use bevy_ecs::world::World;
use frame_factor::networking::frame_codec::encode;
use frame_factor::networking::network_spawn::{MAX_SPAWNABLE_BYTES, NETWORK_ENTITY_BYTES};
use frame_factor::networking::{
    is_placed, network_receive_system, network_spawner_system, register_spawned, spawn, ActorId,
    Connection, ConnectionEvent,
    DuplicateEntity, NetworkEntity, NetworkEntityRegistry, NetworkEvent, NetworkMessage,
    NetworkMessages, NetworkPayload, NetworkResource, NetworkSpawnEvent, NetworkSpawnable,
    NetworkSpawner, ReadOutcome, RequestError, ServerGreeting, SpawnError,
};

#[derive(Debug, Clone, PartialEq)]
struct PlayerDescriptor {
    name: String,
    player_id: u32,
}

#[derive(Debug, PartialEq)]
struct PlayerName(String);

impl NetworkEvent for PlayerDescriptor {
    fn type_tag() -> u128 {
        0x053c55fe_dcd8_4746_829f_51760445739e
    }

    fn encode(&self) -> Option<Vec<u8>> {
        if self.name == "unwritable" {
            None
        } else {
            bincode::serialize(&(&self.name, self.player_id)).ok()
        }
    }

    fn decode(bytes: &Vec<u8>) -> Option<Self> {
        bincode::deserialize::<(String, u32)>(bytes)
            .ok()
            .map(|(name, player_id)| PlayerDescriptor { name, player_id })
    }
}

impl NetworkSpawnable for PlayerDescriptor {
    fn spawn(&self, world: &mut World) -> Entity {
        if self.name == "ghost" {
            Entity::new(4_000_000)
        } else if self.name == "reserved" {
            let freed = world.spawn().id();
            world.despawn(freed);
            world.entities().reserve_entity()
        } else {
            world.spawn().insert(PlayerName(self.name.clone())).id()
        }
    }
}

struct Wall;

impl NetworkEvent for Wall {
    fn type_tag() -> u128 {
        0x7d2a65c2_6e1d_4d0a_822a_2ce0c84c5a4c
    }

    fn encode(&self) -> Option<Vec<u8>> {
        Some(Vec::new())
    }

    fn decode(_bytes: &Vec<u8>) -> Option<Self> {
        Some(Wall)
    }
}

impl NetworkSpawnable for Wall {
    fn spawn(&self, world: &mut World) -> Entity {
        world.spawn().id()
    }
}

fn player(name: &str, player_id: u32) -> PlayerDescriptor {
    PlayerDescriptor { name: String::from(name), player_id }
}

fn spawn_payload_for(name: u64, descriptor: &PlayerDescriptor) -> NetworkPayload {
    let event = NetworkSpawnEvent {
        network_entity: NetworkEntity(name),
        spawnable: descriptor.encode().unwrap(),
    };
    NetworkPayload::from_parts(PlayerDescriptor::type_tag(), event.to_body())
}

struct Peer {
    net: NetworkResource,
    messages: NetworkMessages,
    spawner: NetworkSpawner,
    registry: NetworkEntityRegistry,
    world: World,
}

impl Peer {
    fn with(net: NetworkResource) -> Peer {
        let mut spawner = NetworkSpawner::new();
        spawner.register_spawnable::<PlayerDescriptor>();
        Peer {
            net,
            messages: NetworkMessages::new(),
            spawner,
            registry: NetworkEntityRegistry::new(),
            world: World::new(),
        }
    }

    fn name_of(&self, network_entity: u64) -> Option<&PlayerName> {
        let entity = self.registry.get(&NetworkEntity(network_entity))?;
        self.world.get::<PlayerName>(entity)
    }
}

fn join(server: &mut Peer, introduction: &[u8]) -> (ConnectionEvent, Peer) {
    let greeting = server.net.greet().unwrap();
    let read = ServerGreeting::decode(&greeting.encode()).unwrap();
    let client = Peer::with(NetworkResource::client(read, Connection::new()));
    let hello = NetworkPayload::from_parts(1, introduction.to_vec());
    let frame = client.net.send(&hello).unwrap().frame;
    let mut handshake = Connection::new();
    handshake.on_read(ReadOutcome::Data(frame));
    let introduced = handshake.recv_one().unwrap().unwrap();
    let event = server.net.add_client(handshake, introduced).unwrap();
    (event, client)
}

fn shared<T: Send + Sync + 'static>() {}

#[test]
fn the_resources_of_the_layer_can_be_shared() {
    shared::<NetworkSpawner>();
    shared::<NetworkEntityRegistry>();
    shared::<NetworkMessages>();
    shared::<NetworkResource>();
}

#[test]
fn a_spawn_body_is_the_name_and_then_the_spawnable() {
    let event = NetworkSpawnEvent { network_entity: NetworkEntity(0x0102), spawnable: vec![7, 8] };
    assert_eq!(event.to_body(), vec![2, 1, 0, 0, 0, 0, 0, 0, 7, 8]);
    assert_eq!(NETWORK_ENTITY_BYTES, 8);
    assert_eq!(MAX_SPAWNABLE_BYTES, u32::MAX as usize - 16 - 8);
}

#[test]
fn a_spawn_body_is_written_as_bincode_writes_name_and_spawnable() {
    let descriptor = player("katana", 2);
    let body = spawn_payload_for(u64::MAX - 5, &descriptor).data;
    let expected =
        bincode::serialize(&(u64::MAX - 5, (&descriptor.name, descriptor.player_id))).unwrap();
    assert_eq!(body, expected);
}

#[test]
fn a_spawn_body_is_read_back() {
    let event = NetworkSpawnEvent { network_entity: NetworkEntity(u64::MAX), spawnable: vec![1] };
    assert_eq!(NetworkSpawnEvent::from_body(&event.to_body()), Some(event));
    assert_eq!(
        NetworkSpawnEvent::from_body(&vec![5, 0, 0, 0, 0, 0, 0, 0]),
        Some(NetworkSpawnEvent { network_entity: NetworkEntity(5), spawnable: vec![] })
    );
    assert_eq!(NetworkSpawnEvent::from_body(&vec![5, 0, 0, 0, 0, 0, 0]), None);
    assert_eq!(NetworkSpawnEvent::from_body(&vec![]), None);
}

#[test]
fn spawn_builds_marks_and_registers() {
    let mut world = World::new();
    let mut registry = NetworkEntityRegistry::new();
    let payload = spawn_payload_for(12, &player("ada", 1));
    assert_eq!(
        spawn::<PlayerDescriptor>(&mut world, &mut registry, &payload),
        Ok(NetworkEntity(12))
    );
    let entity = registry.get(&NetworkEntity(12)).unwrap();
    assert_eq!(world.get::<PlayerName>(entity), Some(&PlayerName(String::from("ada"))));
    assert_eq!(world.get::<NetworkEntity>(entity), Some(&NetworkEntity(12)));
    assert_eq!(registry.peek(), 0);
}

#[test]
fn spawn_refuses_a_body_without_a_name() {
    let mut world = World::new();
    let mut registry = NetworkEntityRegistry::new();
    let payload = NetworkPayload::from_parts(PlayerDescriptor::type_tag(), vec![1, 2, 3]);
    assert_eq!(
        spawn::<PlayerDescriptor>(&mut world, &mut registry, &payload),
        Err(SpawnError::Truncated)
    );
}

#[test]
fn spawn_refuses_a_name_that_is_taken_and_builds_nothing() {
    let mut world = World::new();
    let mut registry = NetworkEntityRegistry::new();
    let payload = spawn_payload_for(3, &player("first", 1));
    assert!(spawn::<PlayerDescriptor>(&mut world, &mut registry, &payload).is_ok());
    let first = registry.get(&NetworkEntity(3)).unwrap();
    let again = spawn_payload_for(3, &player("second", 2));
    assert_eq!(
        spawn::<PlayerDescriptor>(&mut world, &mut registry, &again),
        Err(SpawnError::Duplicate(DuplicateEntity {
            network_entity: NetworkEntity(3),
            existing: first
        }))
    );
    assert_eq!(registry.get(&NetworkEntity(3)), Some(first));
    assert_eq!(world.entities().len(), 1);
}

#[test]
fn spawn_refuses_a_spawnable_that_its_type_cannot_read() {
    let mut world = World::new();
    let mut registry = NetworkEntityRegistry::new();
    let payload =
        NetworkPayload::from_parts(PlayerDescriptor::type_tag(), vec![9, 0, 0, 0, 0, 0, 0, 0, 0xff]);
    assert_eq!(
        spawn::<PlayerDescriptor>(&mut world, &mut registry, &payload),
        Err(SpawnError::Unreadable)
    );
    assert_eq!(registry.get(&NetworkEntity(9)), None);
}

#[test]
fn spawn_refuses_an_entity_that_is_not_in_the_world() {
    let mut world = World::new();
    let mut registry = NetworkEntityRegistry::new();
    let payload = spawn_payload_for(1, &player("ghost", 1));
    assert_eq!(
        spawn::<PlayerDescriptor>(&mut world, &mut registry, &payload),
        Err(SpawnError::NoEntity)
    );
    assert_eq!(registry.get(&NetworkEntity(1)), None);
}

#[test]
fn a_spawn_of_a_type_that_is_not_registered_here_is_still_begun() {
    let mut server = Peer::with(NetworkResource::empty());
    server.spawner.spawn(Wall).unwrap();
    let tick = network_spawner_system(
        &mut server.world,
        &mut server.spawner,
        &mut server.registry,
        &server.net,
        &mut server.messages,
    );
    assert_eq!(tick.spawned.len(), 1);
    assert!(tick.spawned[0].is_ok());
    assert_eq!(tick.broadcasts.len(), 1);
    assert_eq!(tick.outcomes, vec![Err(SpawnError::UnknownType)]);
    assert!(server.registry.get(&NetworkEntity(0)).is_some());
    assert_eq!(server.world.entities().len(), 1);
}

#[test]
fn an_envelope_of_an_unknown_type_is_dropped() {
    let mut world = World::new();
    let mut registry = NetworkEntityRegistry::new();
    let spawner = NetworkSpawner::new();
    let payload = spawn_payload_for(1, &player("ada", 1));
    assert_eq!(
        spawner.spawn_payload(&mut world, &mut registry, &payload),
        Err(SpawnError::UnknownType)
    );
    assert_eq!(registry.get(&NetworkEntity(1)), None);
    assert_eq!(world.entities().len(), 0);
}

#[test]
fn a_registered_type_is_applied_by_its_tag() {
    let mut world = World::new();
    let mut registry = NetworkEntityRegistry::new();
    let mut spawner = NetworkSpawner::new();
    assert!(!spawner.is_registered(PlayerDescriptor::type_tag()));
    spawner.register_spawnable::<Wall>();
    spawner.register_spawnable::<PlayerDescriptor>();
    spawner.register_spawnable::<PlayerDescriptor>();
    assert!(spawner.is_registered(PlayerDescriptor::type_tag()));
    assert!(spawner.is_registered(Wall::type_tag()));
    let payload = spawn_payload_for(8, &player("bob", 2));
    assert_eq!(spawner.spawn_payload(&mut world, &mut registry, &payload), Ok(NetworkEntity(8)));
    let entity = registry.get(&NetworkEntity(8)).unwrap();
    assert_eq!(world.get::<PlayerName>(entity), Some(&PlayerName(String::from("bob"))));
}

#[test]
fn a_spawn_waits_until_it_is_taken() {
    let mut spawner = NetworkSpawner::new();
    assert_eq!(spawner.waiting(), 0);
    assert_eq!(spawner.spawn(player("ada", 1)), Ok(()));
    assert_eq!(spawner.spawn_written(5, vec![1], Wall), Ok(()));
    assert_eq!(spawner.waiting(), 2);
    let mut world = World::new();
    let mut registry = NetworkEntityRegistry::new();
    assert_eq!(spawner.take_spawns(&mut world, &mut registry).len(), 2);
    assert_eq!(spawner.waiting(), 0);
    assert_eq!(spawner.take_spawns(&mut world, &mut registry), vec![]);
}

#[test]
fn take_spawns_builds_from_the_value_and_binds_the_name() {
    let mut spawner = NetworkSpawner::new();
    let mut world = World::new();
    let mut registry = NetworkEntityRegistry::new();
    spawner.spawn(player("ada", 1)).unwrap();
    let results = spawner.take_spawns(&mut world, &mut registry);
    assert_eq!(results, vec![Ok(spawn_payload_for(0, &player("ada", 1)))]);
    let entity = registry.get(&NetworkEntity(0)).unwrap();
    assert_eq!(world.get::<PlayerName>(entity), Some(&PlayerName(String::from("ada"))));
    assert_eq!(world.get::<NetworkEntity>(entity), Some(&NetworkEntity(0)));
    assert_eq!(world.entities().len(), 1);
}

#[test]
fn take_spawns_refuses_a_name_that_is_taken_and_builds_nothing() {
    let mut spawner = NetworkSpawner::new();
    let mut world = World::new();
    let mut registry = NetworkEntityRegistry::new();
    let holder = world.spawn().id();
    registry.insert(NetworkEntity(0), holder).unwrap();
    spawner.spawn(player("ada", 1)).unwrap();
    spawner.spawn(player("bob", 2)).unwrap();
    assert_eq!(
        spawner.take_spawns(&mut world, &mut registry),
        vec![
            Err(SpawnError::Duplicate(DuplicateEntity {
                network_entity: NetworkEntity(0),
                existing: holder
            })),
            Ok(spawn_payload_for(1, &player("bob", 2))),
        ]
    );
    assert_eq!(registry.get(&NetworkEntity(0)), Some(holder));
    assert_eq!(world.entities().len(), 2);
    assert_eq!(registry.peek(), 2);
}

#[test]
fn take_spawns_refuses_an_entity_that_is_not_in_the_world() {
    let mut spawner = NetworkSpawner::new();
    let mut world = World::new();
    let mut registry = NetworkEntityRegistry::new();
    spawner.spawn(player("ghost", 1)).unwrap();
    assert_eq!(spawner.take_spawns(&mut world, &mut registry), vec![Err(SpawnError::NoEntity)]);
    assert_eq!(registry.get(&NetworkEntity(0)), None);
    assert_eq!(registry.peek(), 1);
}

#[test]
fn an_entity_that_is_only_reserved_is_refused_without_a_panic() {
    let mut world = World::new();
    let mut registry = NetworkEntityRegistry::new();
    let payload = spawn_payload_for(1, &player("reserved", 1));
    assert_eq!(
        spawn::<PlayerDescriptor>(&mut world, &mut registry, &payload),
        Err(SpawnError::NoEntity)
    );
    assert_eq!(registry.get(&NetworkEntity(1)), None);
}

#[test]
fn register_spawned_decides_on_what_the_world_said() {
    let mut registry = NetworkEntityRegistry::new();
    let name = NetworkEntity(3);
    assert_eq!(
        register_spawned(&mut registry, name, Entity::new(1), false),
        Err(SpawnError::NoEntity)
    );
    assert_eq!(registry.get(&name), None);
    assert_eq!(register_spawned(&mut registry, name, Entity::new(1), true), Ok(name));
    assert_eq!(registry.get(&name), Some(Entity::new(1)));
    assert_eq!(
        register_spawned(&mut registry, name, Entity::new(2), true),
        Err(SpawnError::Duplicate(DuplicateEntity {
            network_entity: name,
            existing: Entity::new(1)
        }))
    );
    assert_eq!(registry.get(&name), Some(Entity::new(1)));
}

#[test]
fn an_entity_is_placed_where_the_table_has_a_row_for_it() {
    assert!(is_placed(Some(0)));
    assert!(is_placed(Some(7)));
    assert!(!is_placed(Some(usize::MAX)));
    assert!(!is_placed(None));
}

#[test]
fn a_spawn_without_a_written_form_is_refused() {
    let mut spawner = NetworkSpawner::new();
    spawner.register_spawnable::<PlayerDescriptor>();
    assert_eq!(spawner.spawn(player("unwritable", 1)), Err(RequestError::Unwritable));
}

#[test]
fn take_spawns_names_the_spawns_in_the_order_of_the_requests() {
    let mut spawner = NetworkSpawner::new();
    spawner.register_spawnable::<PlayerDescriptor>();
    let mut registry = NetworkEntityRegistry::new();
    registry.generate();
    registry.generate();
    assert_eq!(spawner.spawn(player("ada", 1)), Ok(()));
    assert_eq!(spawner.spawn(player("bob", 2)), Ok(()));
    let mut world = World::new();
    assert_eq!(
        spawner.take_spawns(&mut world, &mut registry),
        vec![
            Ok(spawn_payload_for(2, &player("ada", 1))),
            Ok(spawn_payload_for(3, &player("bob", 2)))
        ]
    );
    assert_eq!(registry.peek(), 4);
    assert!(registry.get(&NetworkEntity(2)).is_some());
    assert_ne!(registry.get(&NetworkEntity(2)), registry.get(&NetworkEntity(3)));
    assert_eq!(spawner.take_spawns(&mut world, &mut registry), vec![]);
}

#[test]
fn the_spawn_phase_applies_arrivals_tag_by_tag() {
    let mut peer = Peer::with(NetworkResource::empty());
    peer.spawner.register_spawnable::<Wall>();
    let wall = NetworkPayload::from_parts(
        Wall::type_tag(),
        NetworkSpawnEvent { network_entity: NetworkEntity(20), spawnable: vec![] }.to_body(),
    );
    let other = NetworkPayload::from_parts(1234, vec![1]);
    for payload in
        [wall, spawn_payload_for(10, &player("ada", 1)), other, spawn_payload_for(11, &player("bob", 2))]
    {
        peer.messages.add(NetworkMessage { sender: ActorId(0), payload });
    }
    let tick = network_spawner_system(
        &mut peer.world,
        &mut peer.spawner,
        &mut peer.registry,
        &peer.net,
        &mut peer.messages,
    );
    assert_eq!(tick.spawned, vec![]);
    assert_eq!(tick.broadcasts, vec![]);
    assert_eq!(tick.unreadable, vec![]);
    assert_eq!(
        tick.outcomes,
        vec![Ok(NetworkEntity(10)), Ok(NetworkEntity(11)), Ok(NetworkEntity(20))]
    );
    assert!(peer.registry.get(&NetworkEntity(10)).is_some());
    assert!(peer.registry.get(&NetworkEntity(20)).is_some());
    assert_eq!(peer.messages.take_messages(&PlayerDescriptor::type_tag()), vec![]);
    assert_eq!(peer.messages.take_messages(&Wall::type_tag()), vec![]);
    assert_eq!(peer.messages.take_messages(&1234).len(), 1);
}

#[test]
fn the_spawn_phase_names_the_senders_of_malformed_envelopes() {
    let mut peer = Peer::with(NetworkResource::empty());
    let tag = PlayerDescriptor::type_tag();
    let short = NetworkPayload::from_parts(tag, vec![1, 2, 3]);
    let garbled = NetworkPayload::from_parts(tag, vec![9, 0, 0, 0, 0, 0, 0, 0, 0xff]);
    for (sender, payload) in [
        (4, spawn_payload_for(10, &player("ada", 1))),
        (5, short),
        (4, spawn_payload_for(10, &player("twice", 1))),
        (6, garbled),
        (5, spawn_payload_for(11, &player("bob", 2))),
    ] {
        peer.messages.add(NetworkMessage { sender: ActorId(sender), payload });
    }
    let tick = network_spawner_system(
        &mut peer.world,
        &mut peer.spawner,
        &mut peer.registry,
        &peer.net,
        &mut peer.messages,
    );
    assert_eq!(tick.outcomes.len(), 5);
    assert_eq!(tick.outcomes[1], Err(SpawnError::Truncated));
    assert!(matches!(tick.outcomes[2], Err(SpawnError::Duplicate(_))));
    assert_eq!(tick.outcomes[3], Err(SpawnError::Unreadable));
    assert_eq!(tick.unreadable, vec![ActorId(5), ActorId(6)]);
}

#[test]
fn a_malformed_spawn_envelope_ends_the_connection_of_its_sender() {
    let mut server = Peer::with(NetworkResource::empty());
    let (_, _a) = join(&mut server, b"");
    let (_, _b) = join(&mut server, b"");
    let short = NetworkPayload::from_parts(PlayerDescriptor::type_tag(), vec![1]);
    server.net.on_read(ActorId(2), ReadOutcome::Data(encode(&short).unwrap()));
    assert_eq!(network_receive_system(&mut server.net, &mut server.messages), vec![]);
    let tick = network_spawner_system(
        &mut server.world,
        &mut server.spawner,
        &mut server.registry,
        &server.net,
        &mut server.messages,
    );
    assert_eq!(tick.unreadable, vec![ActorId(2)]);
    for sender in tick.unreadable {
        server.net.on_unreadable(sender);
    }
    assert_eq!(
        network_receive_system(&mut server.net, &mut server.messages),
        vec![ConnectionEvent::Disconnected {
            id: ActorId(2),
            error: frame_factor::networking::ConnectionError::MalformedFrame
        }]
    );
    assert_eq!(server.net.connection_ids(), vec![ActorId(1)]);
}

#[test]
fn the_server_and_a_client_agree_on_the_name_of_a_spawn() {
    let mut server = Peer::with(NetworkResource::empty());
    let (_, mut client) = join(&mut server, b"");
    server.registry.generate();
    server.spawner.spawn(player("ada", 1)).unwrap();
    let tick = network_spawner_system(
        &mut server.world,
        &mut server.spawner,
        &mut server.registry,
        &server.net,
        &mut server.messages,
    );
    assert_eq!(tick.spawned, vec![Ok(spawn_payload_for(1, &player("ada", 1)))]);
    let built = server.registry.get(&NetworkEntity(1)).unwrap();
    assert_eq!(
        tick.outcomes,
        vec![Err(SpawnError::Duplicate(DuplicateEntity {
            network_entity: NetworkEntity(1),
            existing: built
        }))]
    );
    assert_eq!(server.world.entities().len(), 1);
    assert_eq!(tick.broadcasts.len(), 1);
    assert_eq!(tick.broadcasts[0].frame, encode(&spawn_payload_for(1, &player("ada", 1))).unwrap());
    client.net.on_read(ActorId(0), ReadOutcome::Data(tick.broadcasts[0].frame.clone()));
    network_receive_system(&mut client.net, &mut client.messages);
    let applied = network_spawner_system(
        &mut client.world,
        &mut client.spawner,
        &mut client.registry,
        &client.net,
        &mut client.messages,
    );
    assert_eq!(applied.outcomes, vec![Ok(NetworkEntity(1))]);
    assert_eq!(server.name_of(1), Some(&PlayerName(String::from("ada"))));
    assert_eq!(client.name_of(1), Some(&PlayerName(String::from("ada"))));
    assert_eq!(client.registry.get(&NetworkEntity(0)), None);
}

#[test]
fn two_clients_join_and_see_two_spawns() {
    let mut server = Peer::with(NetworkResource::empty());
    let (first, mut a) = join(&mut server, b"I am A");
    let (second, mut b) = join(&mut server, b"I am B");
    assert_eq!(
        first,
        ConnectionEvent::Connected {
            id: ActorId(1),
            greeting: NetworkPayload::from_parts(1, b"I am A".to_vec())
        }
    );
    assert_eq!(
        second,
        ConnectionEvent::Connected {
            id: ActorId(2),
            greeting: NetworkPayload::from_parts(1, b"I am B".to_vec())
        }
    );
    assert_eq!(a.net.local_id(), ActorId(1));
    assert_eq!(b.net.local_id(), ActorId(2));
    assert_eq!(server.net.connection_ids(), vec![ActorId(1), ActorId(2)]);

    server.spawner.spawn(player("ada", 1)).unwrap();
    server.spawner.spawn(player("bob", 2)).unwrap();
    let tick = network_spawner_system(
        &mut server.world,
        &mut server.spawner,
        &mut server.registry,
        &server.net,
        &mut server.messages,
    );
    assert_eq!(
        tick.spawned,
        vec![
            Ok(spawn_payload_for(0, &player("ada", 1))),
            Ok(spawn_payload_for(1, &player("bob", 2)))
        ]
    );
    assert_eq!(tick.outcomes.len(), 2);
    assert!(tick.outcomes.iter().all(|outcome| matches!(outcome, Err(SpawnError::Duplicate(_)))));
    assert_eq!(server.world.entities().len(), 2);
    assert_eq!(server.name_of(0), Some(&PlayerName(String::from("ada"))));
    assert_eq!(server.name_of(1), Some(&PlayerName(String::from("bob"))));
    assert_eq!(tick.broadcasts.len(), 2);

    for broadcast in &tick.broadcasts {
        assert_eq!(broadcast.peers, vec![ActorId(1), ActorId(2)]);
        a.net.on_read(ActorId(0), ReadOutcome::Data(broadcast.frame.clone()));
        b.net.on_read(ActorId(0), ReadOutcome::Data(broadcast.frame.clone()));
    }
    for client in [&mut a, &mut b] {
        assert_eq!(client.registry.get(&NetworkEntity(0)), None);
        assert_eq!(network_receive_system(&mut client.net, &mut client.messages), vec![]);
        let applied = network_spawner_system(
            &mut client.world,
            &mut client.spawner,
            &mut client.registry,
            &client.net,
            &mut client.messages,
        );
        assert_eq!(applied.spawned, vec![]);
        assert_eq!(applied.broadcasts, vec![]);
        assert_eq!(applied.outcomes, vec![Ok(NetworkEntity(0)), Ok(NetworkEntity(1))]);
        assert_eq!(client.name_of(0), Some(&PlayerName(String::from("ada"))));
        assert_eq!(client.name_of(1), Some(&PlayerName(String::from("bob"))));
        assert_ne!(
            client.registry.get(&NetworkEntity(0)),
            client.registry.get(&NetworkEntity(1))
        );
    }
}
