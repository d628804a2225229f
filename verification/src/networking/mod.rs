//! The replication layer, one module per component.
//!
//! A tick has three phases. It receives: [`network_receive_system`] sorts
//! what arrived by tag, and [`network_event_system`] reads the events of one
//! type. Then the simulation runs. Then it sends:
//! [`network_event_sender_system`] frames what the simulation enqueued, and
//! [`network_spawner_system`] names, announces and applies the spawns.

pub mod byte_order;
pub mod frame_codec;
pub mod network_event;
pub mod network_payload;
pub mod network_resource;
pub mod network_spawn;

pub use network_event::{
    network_event_sender_system,
    network_event_system,
    NetworkEvent,
    NetworkEventSender,
    NetworkEvents,
    SendError,
};
pub use network_payload::{
    network_receive_system,
    NetworkMessage,
    NetworkMessages,
    NetworkPayload,
};
pub use network_resource::{
    on_accept,
    AcceptOutcome,
    AcceptStep,
    ActorId,
    Broadcast,
    Connection,
    ConnectionError,
    ConnectionEvent,
    DirectoryError,
    NetworkResource,
    ReadOutcome,
    ServerGreeting,
    WriteOutcome,
};
pub use network_spawn::{
    is_placed,
    network_spawner_system,
    register_spawned,
    spawn,
    DuplicateEntity,
    NetworkEntity,
    NetworkEntityRegistry,
    NetworkSpawnEvent,
    NetworkSpawnable,
    NetworkSpawner,
    RequestError,
    SpawnError,
    SpawnTick,
};
