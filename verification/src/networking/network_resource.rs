//! Peers, their connections and the directory of those that are live.
//!
//! Nothing here touches a socket. Whoever owns the sockets reports what each
//! read and write did, and the types of this module decide what follows.
//!
//! A client that the server has accepted is greeted with the id that it is
//! to have ([`NetworkResource::greet`]) and introduces itself with one
//! envelope, which its [`Connection`] receives while it is no part of the
//! directory yet ([`Connection::recv_one`]). With that envelope it becomes
//! live ([`NetworkResource::add_client`]) and is received from in every tick.
//! When its connection fails it leaves the directory for good, and one event
//! says so ([`NetworkResource::recv`]).

use crate::networking::byte_order::{
    le_bytes,
    le_value,
    lemma_le_bytes_len,
    lemma_le_value_bound,
    lemma_le_value_of_bytes,
    lemma_radix_values,
    read_le,
    write_le,
};
use crate::networking::frame_codec::{
    decode,
    decode_stream,
    encode,
    envelopes,
    frame,
    lemma_scan_stream_bound,
    lemma_split_stream,
    scan_frame,
    scan_stream,
    Decoded,
    FrameError,
    Scan,
    MAX_BODY_BYTES,
};
use crate::networking::network_payload::{
    contents,
    Envelope,
    Message,
    NetworkMessage,
    NetworkPayload,
};
use std::collections::{HashMap, HashSet};
use vstd::prelude::*;
use vstd::slice::slice_subrange;

verus! {

/// Identifies one actor of a session: the server, which is 0, or a client.
#[derive(Clone, Copy, PartialEq, Eq, Hash, Debug, Structural)]
pub struct ActorId(pub u32);

/// The width of a [`ServerGreeting`] on the wire.
pub const GREETING_BYTES: usize = 8;

/// What the server tells a client that has just connected: the id that the
/// client now has, and the server's own. It travels once, before any frame
/// and without one: four bytes for each id, least significant byte first.
#[derive(Clone, Copy, PartialEq, Eq, Debug, Structural)]
pub struct ServerGreeting {
    pub client_id: ActorId,
    pub server_id: ActorId,
}

impl ServerGreeting {
    /// The eight bytes of the greeting.
    pub open spec fn wire(self) -> Seq<u8> {
        le_bytes(self.client_id.0 as nat, 4) + le_bytes(self.server_id.0 as nat, 4)
    }

    /// The greeting that eight bytes spell.
    pub open spec fn parse(bytes: Seq<u8>) -> ServerGreeting {
        ServerGreeting {
            client_id: ActorId(le_value(bytes.subrange(0, 4)) as u32),
            server_id: ActorId(le_value(bytes.subrange(4, 8)) as u32),
        }
    }

    /// Writes the greeting.
    pub fn encode(&self) -> (bytes: Vec<u8>)
        ensures
            bytes@ == self.wire(),
            bytes@.len() == GREETING_BYTES,
    {
        let mut bytes = write_le(self.client_id.0 as u128, 4);
        let mut server = write_le(self.server_id.0 as u128, 4);
        bytes.append(&mut server);
        proof {
            lemma_le_bytes_len(self.client_id.0 as nat, 4);
            lemma_le_bytes_len(self.server_id.0 as nat, 4);
        }
        bytes
    }

    /// Reads a greeting: eight bytes spell one, any other number none.
    pub fn decode(bytes: &[u8]) -> (greeting: Option<Self>)
        ensures
            bytes@.len() == GREETING_BYTES ==> greeting == Some(Self::parse(bytes@)),
            bytes@.len() != GREETING_BYTES ==> greeting is None,
    {
        if bytes.len() != GREETING_BYTES {
            return None;
        }
        let client = read_le(slice_subrange(bytes, 0, 4));
        let server = read_le(slice_subrange(bytes, 4, 8));
        proof {
            lemma_le_value_bound(bytes@.subrange(0, 4));
            lemma_le_value_bound(bytes@.subrange(4, 8));
            lemma_radix_values();
        }
        Some(
            ServerGreeting { client_id: ActorId(client as u32), server_id: ActorId(server as u32) },
        )
    }

    /// Reading a written greeting gives the greeting back.
    pub proof fn lemma_round_trip(self)
        ensures
            self.wire().len() == GREETING_BYTES,
            Self::parse(self.wire()) == self,
    {
        lemma_le_bytes_len(self.client_id.0 as nat, 4);
        lemma_le_bytes_len(self.server_id.0 as nat, 4);
        lemma_le_value_of_bytes(self.client_id.0 as nat, 4);
        lemma_le_value_of_bytes(self.server_id.0 as nat, 4);
        lemma_radix_values();
        assert(self.wire().subrange(0, 4) =~= le_bytes(self.client_id.0 as nat, 4));
        assert(self.wire().subrange(4, 8) =~= le_bytes(self.server_id.0 as nat, 4));
    }
}

/// Why a connection ended.
#[derive(Debug, Clone, PartialEq, Eq)]
pub enum ConnectionError {
    /// A whole frame arrived that is too short to hold a tag.
    MalformedFrame,
    /// The peer closed the stream.
    Closed,
    /// A write took less than the whole frame.
    ShortWrite,
    /// The transport failed; the text is its own account of why.
    Transport(String),
}

impl ConnectionError {
    /// A second value that says the same.
    pub fn duplicate(&self) -> (copy: Self)
        ensures
            copy == *self,
    {
        match self {
            ConnectionError::MalformedFrame => ConnectionError::MalformedFrame,
            ConnectionError::Closed => ConnectionError::Closed,
            ConnectionError::ShortWrite => ConnectionError::ShortWrite,
            ConnectionError::Transport(text) => ConnectionError::Transport(text.clone()),
        }
    }
}

/// What one read from a peer's stream did.
#[derive(Debug, Clone, PartialEq, Eq)]
pub enum ReadOutcome {
    /// These bytes arrived.
    Data(Vec<u8>),
    /// Nothing is there now and the read would have had to wait.
    WouldBlock,
    /// The stream is at its end: the peer closed it.
    Closed,
    /// The read failed; the text is the transport's account of why.
    Failed(String),
}

/// What one write of a frame to a peer's stream did.
#[derive(Debug, Clone, PartialEq, Eq)]
pub enum WriteOutcome {
    /// The stream took this many bytes.
    Wrote(usize),
    /// The stream took nothing and the write would have had to wait.
    WouldBlock,
    /// The write failed; the text is the transport's account of why.
    Failed(String),
}

/// What one accept on the listener did.
#[derive(Debug, Clone, PartialEq, Eq)]
pub enum AcceptOutcome {
    /// A client connected.
    Accepted,
    /// Nobody is waiting and the accept would have had to wait.
    WouldBlock,
    /// The accept failed; the text is the transport's account of why.
    Failed(String),
}

/// What to do after an accept.
#[derive(Debug, Clone, PartialEq, Eq)]
pub enum AcceptStep {
    /// Shake hands with the client that connected, and accept again.
    Handshake,
    /// Stop for this tick: nobody else is waiting, and that is no error.
    Stop,
    /// Give up listening with this account of why.
    Fail(String),
}

/// Says what follows from what one accept did. A client that connected is
/// to be greeted; an accept that would wait ends the tick's listening
/// without an error; any other failure is fatal to the listener.
pub fn on_accept(outcome: &AcceptOutcome) -> (step: AcceptStep)
    ensures
        step == (match *outcome {
            AcceptOutcome::Accepted => AcceptStep::Handshake,
            AcceptOutcome::WouldBlock => AcceptStep::Stop,
            AcceptOutcome::Failed(text) => AcceptStep::Fail(text),
        }),
{
    match outcome {
        AcceptOutcome::Accepted => AcceptStep::Handshake,
        AcceptOutcome::WouldBlock => AcceptStep::Stop,
        AcceptOutcome::Failed(text) => AcceptStep::Fail(text.clone()),
    }
}

/// What a [`Connection`] holds.
pub struct ConnectionView {
    /// The bytes that arrived and belong to no frame read so far.
    pub buffered: Seq<u8>,
    /// Why the connection ended, once it has.
    pub failure: Option<ConnectionError>,
}

impl ConnectionView {
    /// Why a receive on this connection fails, if it does: the connection
    /// has ended, or the next frame after the whole ones is malformed.
    pub open spec fn fault(self) -> Option<ConnectionError> {
        if self.failure is Some {
            self.failure
        } else if scan_stream(self.buffered).malformed {
            Some(ConnectionError::MalformedFrame)
        } else {
            None
        }
    }

    /// The connection with `bytes` added to what has arrived.
    pub open spec fn fed(self, bytes: Seq<u8>) -> ConnectionView {
        ConnectionView { buffered: self.buffered + bytes, failure: self.failure }
    }

    /// The connection after one read did `outcome`.
    pub open spec fn after_read(self, outcome: ReadOutcome) -> ConnectionView {
        if self.failure is Some {
            self
        } else {
            match outcome {
                ReadOutcome::Data(bytes) => self.fed(bytes@),
                ReadOutcome::WouldBlock => self,
                ReadOutcome::Closed => ConnectionView {
                    buffered: self.buffered,
                    failure: Some(ConnectionError::Closed),
                },
                ReadOutcome::Failed(text) => ConnectionView {
                    buffered: self.buffered,
                    failure: Some(ConnectionError::Transport(text)),
                },
            }
        }
    }

    /// Whether to read again at once after a read did `outcome`.
    pub open spec fn reads_on(self, outcome: ReadOutcome) -> bool {
        self.failure is None && outcome is Data
    }

    /// The connection after the write of a frame of `frame_len` bytes did
    /// `outcome`.
    pub open spec fn after_write(self, frame_len: usize, outcome: WriteOutcome) -> ConnectionView {
        if self.failure is Some {
            self
        } else {
            ConnectionView {
                buffered: self.buffered,
                failure: match outcome {
                    WriteOutcome::Wrote(taken) => if taken >= frame_len {
                        None
                    } else {
                        Some(ConnectionError::ShortWrite)
                    },
                    WriteOutcome::WouldBlock => Some(ConnectionError::ShortWrite),
                    WriteOutcome::Failed(text) => Some(ConnectionError::Transport(text)),
                },
            }
        }
    }

    /// The connection after a frame of it was found to hold a body that its
    /// type cannot read.
    pub open spec fn rejected(self) -> ConnectionView {
        if self.failure is Some {
            self
        } else {
            ConnectionView {
                buffered: self.buffered,
                failure: Some(ConnectionError::MalformedFrame),
            }
        }
    }

    /// The envelopes that a receive hands out.
    pub open spec fn inbox(self) -> Seq<Envelope> {
        scan_stream(self.buffered).envelopes
    }

    /// The connection after a receive that did not fail.
    pub open spec fn drained(self) -> ConnectionView {
        ConnectionView {
            buffered: self.buffered.skip(scan_stream(self.buffered).consumed as int),
            failure: self.failure,
        }
    }
}

/// One peer's side of the protocol: the bytes that arrived from the peer and
/// are not read as frames yet, and whether the connection has ended.
pub struct Connection {
    inbound: Vec<u8>,
    failure: Option<ConnectionError>,
}

impl View for Connection {
    type V = ConnectionView;

    closed spec fn view(&self) -> ConnectionView {
        ConnectionView { buffered: self.inbound@, failure: self.failure }
    }
}

impl Connection {
    /// A connection on which nothing has arrived.
    pub fn new() -> (connection: Self)
        ensures
            connection@ == (ConnectionView { buffered: Seq::empty(), failure: None }),
    {
        Connection { inbound: Vec::new(), failure: None }
    }

    /// Whether the connection has ended.
    pub fn has_failed(&self) -> (failed: bool)
        ensures
            failed == self@.failure is Some,
    {
        self.failure.is_some()
    }

    /// Takes in what one read did, and says whether to read again now.
    /// Bytes are kept for the next receive and more may follow at once. A
    /// read that would wait is no error: there is no more for now. The end
    /// of the stream and a failed read end the connection. Once it has
    /// ended, nothing changes it.
    pub fn on_read(&mut self, outcome: ReadOutcome) -> (again: bool)
        ensures
            final(self)@ == old(self)@.after_read(outcome),
            again == old(self)@.reads_on(outcome),
    {
        if self.failure.is_some() {
            return false;
        }
        match outcome {
            ReadOutcome::Data(bytes) => {
                let mut bytes = bytes;
                self.inbound.append(&mut bytes);
                true
            },
            ReadOutcome::WouldBlock => false,
            ReadOutcome::Closed => {
                self.failure = Some(ConnectionError::Closed);
                false
            },
            ReadOutcome::Failed(text) => {
                self.failure = Some(ConnectionError::Transport(text));
                false
            },
        }
    }

    /// Takes in what the write of a frame of `frame_len` bytes did. A frame
    /// goes out whole or the connection ends: a write that took fewer bytes,
    /// or would have had to wait, or failed, ends it.
    pub fn on_write(&mut self, frame_len: usize, outcome: WriteOutcome)
        ensures
            final(self)@ == old(self)@.after_write(frame_len, outcome),
    {
        if self.failure.is_some() {
            return ;
        }
        match outcome {
            WriteOutcome::Wrote(taken) => {
                if taken < frame_len {
                    self.failure = Some(ConnectionError::ShortWrite);
                }
            },
            WriteOutcome::WouldBlock => {
                self.failure = Some(ConnectionError::ShortWrite);
            },
            WriteOutcome::Failed(text) => {
                self.failure = Some(ConnectionError::Transport(text));
            },
        }
    }

    /// Takes in that a frame of this connection held a body that its type
    /// could not read. Such a frame is malformed, and ends the connection.
    pub fn on_unreadable(&mut self)
        ensures
            final(self)@ == old(self)@.rejected(),
    {
        if self.failure.is_none() {
            self.failure = Some(ConnectionError::MalformedFrame);
        }
    }

    /// Receives every payload whose frame has arrived whole, in order, and
    /// keeps the beginning of the next frame for later. Fails where the
    /// connection has ended, and where a malformed frame follows the whole
    /// ones: that ends the connection, and nothing is handed out.
    pub fn recv(&mut self) -> (res: Result<Vec<NetworkPayload>, ConnectionError>)
        ensures
            match old(self)@.fault() {
                Some(error) => res == Err::<Vec<NetworkPayload>, ConnectionError>(error)
                    && final(self)@ == (ConnectionView {
                    buffered: old(self)@.buffered,
                    failure: Some(error),
                }),
                None => res is Ok && envelopes(res->Ok_0@) == old(self)@.inbox() && final(self)@
                    == old(self)@.drained(),
            },
    {
        if let Some(error) = &self.failure {
            return Err(error.duplicate());
        }
        let drained = decode_stream(self.inbound.as_slice());
        if drained.malformed {
            self.failure = Some(ConnectionError::MalformedFrame);
            return Err(ConnectionError::MalformedFrame);
        }
        let rest = self.inbound.split_off(drained.consumed);
        self.inbound = rest;
        Ok(drained.payloads)
    }

    /// Receives the first payload if its frame has arrived whole, and `None`
    /// if it has not yet. Fails as [`Connection::recv`] does, where the first
    /// frame is malformed.
    pub fn recv_one(&mut self) -> (res: Result<Option<NetworkPayload>, ConnectionError>)
        ensures
            old(self)@.failure is Some ==> res == Err::<Option<NetworkPayload>, ConnectionError>(
                old(self)@.failure->0,
            ) && final(self)@ == old(self)@,
            old(self)@.failure is None ==> match scan_frame(old(self)@.buffered) {
                Scan::Complete { envelope, consumed } => res is Ok && res->Ok_0 is Some
                    && res->Ok_0->0@ == envelope && final(self)@ == (ConnectionView {
                    buffered: old(self)@.buffered.skip(consumed as int),
                    failure: None,
                }),
                Scan::Incomplete => res == Ok::<Option<NetworkPayload>, ConnectionError>(None)
                    && final(self)@ == old(self)@,
                Scan::Malformed => res == Err::<Option<NetworkPayload>, ConnectionError>(
                    ConnectionError::MalformedFrame,
                ) && final(self)@ == (ConnectionView {
                    buffered: old(self)@.buffered,
                    failure: Some(ConnectionError::MalformedFrame),
                }),
            },
    {
        if let Some(error) = &self.failure {
            return Err(error.duplicate());
        }
        match decode(self.inbound.as_slice()) {
            Decoded::Complete { payload, consumed } => {
                let rest = self.inbound.split_off(consumed);
                self.inbound = rest;
                Ok(Some(payload))
            },
            Decoded::Incomplete => Ok(None),
            Decoded::Malformed => {
                self.failure = Some(ConnectionError::MalformedFrame);
                Err(ConnectionError::MalformedFrame)
            },
        }
    }

    /// The frame to write to the peer for `payload`.
    pub fn send(&self, payload: &NetworkPayload) -> (res: Result<Vec<u8>, FrameError>)
        ensures
            payload.data@.len() <= MAX_BODY_BYTES ==> res is Ok && res->Ok_0@ == frame(payload@),
            payload.data@.len() > MAX_BODY_BYTES ==> res == Err::<Vec<u8>, FrameError>(
                FrameError::BodyTooLong,
            ),
    {
        encode(payload)
    }
}

/// What happened to a peer.
#[derive(Debug, Clone, PartialEq, Eq)]
pub enum ConnectionEvent {
    /// The peer finished its handshake and is polled from now on. `greeting`
    /// is the payload that the peer introduced itself with.
    Connected { id: ActorId, greeting: NetworkPayload },
    /// The peer's connection ended and is polled no more.
    Disconnected { id: ActorId, error: ConnectionError },
}

/// Why the directory refused a connection.
#[derive(Debug, Clone, Copy, PartialEq, Eq)]
pub enum DirectoryError {
    /// Every id has been given out.
    IdsExhausted,
    /// A live connection has the id already.
    IdInUse,
    /// The id was given out to a connection that is gone.
    IdSpent,
}

/// One frame and the peers that it goes to.
#[derive(Debug, Clone, PartialEq, Eq)]
pub struct Broadcast {
    pub frame: Vec<u8>,
    pub peers: Vec<ActorId>,
}

/// A live connection and the id of its peer.
pub struct LinkView {
    pub id: ActorId,
    pub connection: ConnectionView,
}

/// What a [`NetworkResource`] holds.
pub struct DirectoryView {
    /// The live connections, oldest first.
    pub links: Seq<LinkView>,
    /// The number of the id that the next client gets.
    pub next: nat,
    /// The ids that were given out: those of the live connections and those
    /// of the connections that are gone.
    pub given: Set<ActorId>,
    pub server_id: ActorId,
    pub local_id: ActorId,
}

/// The ids of `links`, in order.
pub open spec fn ids(links: Seq<LinkView>) -> Seq<ActorId> {
    links.map_values(|link: LinkView| link.id)
}

/// The ids of those of `links` that have not ended, in order.
pub open spec fn open_ids(links: Seq<LinkView>) -> Seq<ActorId>
    decreases links.len(),
{
    if links.len() == 0 {
        Seq::empty()
    } else if links.last().connection.failure is Some {
        open_ids(links.drop_last())
    } else {
        open_ids(links.drop_last()).push(links.last().id)
    }
}

/// `envelopes` as messages that `sender` sent.
pub open spec fn stamped(envelopes: Seq<Envelope>, sender: ActorId) -> Seq<Message> {
    envelopes.map_values(|envelope: Envelope| Message { sender, envelope })
}

/// The messages that a receive takes from `links`: those of the first
/// connection in their order of arrival, then those of the second, and so
/// on. A connection that fails gives none.
pub open spec fn recv_messages(links: Seq<LinkView>) -> Seq<Message>
    decreases links.len(),
{
    if links.len() == 0 {
        Seq::empty()
    } else {
        let last = links.last();
        let earlier = recv_messages(links.drop_last());
        if last.connection.fault() is Some {
            earlier
        } else {
            earlier + stamped(last.connection.inbox(), last.id)
        }
    }
}

/// The events of a receive on `links`: one for each connection that fails.
pub open spec fn recv_events(links: Seq<LinkView>) -> Seq<ConnectionEvent>
    decreases links.len(),
{
    if links.len() == 0 {
        Seq::empty()
    } else {
        let last = links.last();
        let earlier = recv_events(links.drop_last());
        if last.connection.fault() is Some {
            earlier.push(
                ConnectionEvent::Disconnected { id: last.id, error: last.connection.fault()->0 },
            )
        } else {
            earlier
        }
    }
}

/// The connections that are live after a receive on `links`: those that did
/// not fail, without the frames that were read.
pub open spec fn recv_links(links: Seq<LinkView>) -> Seq<LinkView>
    decreases links.len(),
{
    if links.len() == 0 {
        Seq::empty()
    } else {
        let last = links.last();
        let earlier = recv_links(links.drop_last());
        if last.connection.fault() is Some {
            earlier
        } else {
            earlier.push(LinkView { id: last.id, connection: last.connection.drained() })
        }
    }
}

impl DirectoryView {
    /// Whether a live connection has `id`.
    pub open spec fn has(self, id: ActorId) -> bool {
        ids(self.links).contains(id)
    }

    /// The place of the connection with `id` among the live ones.
    pub open spec fn index_of(self, id: ActorId) -> int {
        ids(self.links).index_of(id)
    }

    /// Whether `self` may come after `earlier`: the next id has not gone
    /// down, every id that was given out is still, and every live connection
    /// was live in `earlier` or has an id that was not given out then.
    pub open spec fn succeeds(self, earlier: DirectoryView) -> bool {
        &&& self.next >= earlier.next
        &&& forall|id: ActorId| #[trigger] earlier.given.contains(id) ==> self.given.contains(id)
        &&& forall|id: ActorId| #[trigger]
            self.has(id) ==> earlier.has(id) || !earlier.given.contains(id)
    }

    /// No two live connections share an id, the id of every live connection
    /// was given out, and every id that was given out is below the next one
    /// to be given out.
    pub open spec fn wf(self) -> bool {
        &&& ids(self.links).no_duplicates()
        &&& forall|i: int| 0 <= i < self.links.len() ==> (#[trigger] self.links[i]).id.0 < self.next
        &&& forall|i: int| 0 <= i < self.links.len() ==> self.given.contains(
            (#[trigger] self.links[i]).id,
        )
        &&& forall|id: ActorId| #[trigger] self.given.contains(id) ==> id.0 < self.next
        &&& self.next <= 0x1_0000_0000
    }
}

/// The directory of live connections, and the ids of the session.
pub struct NetworkResource {
    connections: HashMap<u32, Connection>,
    order: Vec<ActorId>,
    given: HashSet<u32>,
    next_id: u64,
    server_id: ActorId,
    local_id: ActorId,
}

/// The connections that `table` has for the peers `order`, in that order.
spec fn links_of(order: Seq<ActorId>, table: Map<u32, Connection>) -> Seq<LinkView> {
    order.map_values(|id: ActorId| LinkView { id, connection: table[id.0]@ })
}

/// The actors whose ids are the numbers `numbers`.
spec fn actors(numbers: Set<u32>) -> Set<ActorId> {
    Set::new(|id: ActorId| numbers.contains(id.0))
}

/// One more number is one more actor.
proof fn lemma_actors_grow(numbers: Set<u32>, id: ActorId)
    ensures
        actors(numbers.insert(id.0)) == actors(numbers).insert(id),
{
    assert(actors(numbers.insert(id.0)) =~= actors(numbers).insert(id));
}

/// The ids of the links are the peers, in their order.
proof fn lemma_links_ids(order: Seq<ActorId>, table: Map<u32, Connection>)
    ensures
        ids(links_of(order, table)) == order,
{
    assert(ids(links_of(order, table)) =~= order);
}

/// A connection for a peer that is not among `order` changes no link, and
/// with the peer put last it is the last link.
proof fn lemma_links_grow(
    order: Seq<ActorId>,
    table: Map<u32, Connection>,
    id: ActorId,
    connection: Connection,
)
    requires
        !order.contains(id),
    ensures
        links_of(order, table.insert(id.0, connection)) == links_of(order, table),
        links_of(order.push(id), table.insert(id.0, connection)) == links_of(order, table).push(
            LinkView { id, connection: connection@ },
        ),
        order.no_duplicates() ==> order.push(id).no_duplicates(),
{
    assert forall|i: int| 0 <= i < order.len() implies order[i] != id by {
        if order[i] == id {
            assert(order.contains(id));
        }
    }
    assert(links_of(order, table.insert(id.0, connection)) =~= links_of(order, table));
    assert(links_of(order.push(id), table.insert(id.0, connection)) =~= links_of(
        order,
        table,
    ).push(LinkView { id, connection: connection@ }));
}

/// Another connection for the peer at `place` changes that link and no
/// other.
proof fn lemma_links_change(
    order: Seq<ActorId>,
    table: Map<u32, Connection>,
    place: int,
    connection: Connection,
)
    requires
        order.no_duplicates(),
        0 <= place < order.len(),
    ensures
        links_of(order, table.insert(order[place].0, connection)) == links_of(order, table).update(
            place,
            LinkView { id: order[place], connection: connection@ },
        ),
{
    assert(links_of(order, table.insert(order[place].0, connection)) =~= links_of(
        order,
        table,
    ).update(place, LinkView { id: order[place], connection: connection@ }));
}

/// Without the peer at `place` and its connection, the links are those
/// without the link at `place`.
proof fn lemma_links_shrink(order: Seq<ActorId>, table: Map<u32, Connection>, place: int)
    requires
        order.no_duplicates(),
        0 <= place < order.len(),
    ensures
        links_of(order.remove(place), table.remove(order[place].0)) == links_of(
            order,
            table,
        ).remove(place),
        order.remove(place).no_duplicates(),
        !order.remove(place).contains(order[place]),
{
    lemma_remove_keeps_distinct(order, place);
    let shorter = order.remove(place);
    assert forall|i: int| 0 <= i < shorter.len() implies shorter[i] != order[place] by {
        let at = if i < place {
            i
        } else {
            i + 1
        };
        assert(shorter[i] == order[at]);
    }
    assert(links_of(shorter, table.remove(order[place].0)) =~= links_of(order, table).remove(
        place,
    ));
}

impl View for NetworkResource {
    type V = DirectoryView;

    closed spec fn view(&self) -> DirectoryView {
        DirectoryView {
            links: links_of(self.order@, self.connections@),
            next: self.next_id as nat,
            given: actors(self.given@),
            server_id: self.server_id,
            local_id: self.local_id,
        }
    }
}

impl NetworkResource {
    #[verifier::type_invariant]
    spec fn inv(self) -> bool {
        &&& self@.wf()
        &&& forall|key: u32| #[trigger]
            self.connections@.contains_key(key) <==> self.order@.contains(ActorId(key))
    }

    /// A directory without connections, as a server starts with: the server
    /// and the local actor are 0, and the first client will be 1.
    pub fn empty() -> (net: Self)
        ensures
            net@ == (DirectoryView {
                links: Seq::empty(),
                next: 1,
                given: Set::empty(),
                server_id: ActorId(0),
                local_id: ActorId(0),
            }),
            net@.wf(),
    {
        broadcast use vstd::std_specs::hash::group_hash_axioms;

        let net = NetworkResource {
            connections: HashMap::new(),
            order: Vec::new(),
            given: HashSet::new(),
            next_id: 1,
            server_id: ActorId(0),
            local_id: ActorId(0),
        };
        assert(net@.links =~= Seq::empty());
        assert(net@.given =~= Set::empty());
        net
    }

    /// The id of the server.
    pub fn server_id(&self) -> (id: ActorId)
        ensures
            id == self@.server_id,
    {
        self.server_id
    }

    /// The id of this actor.
    pub fn local_id(&self) -> (id: ActorId)
        ensures
            id == self@.local_id,
    {
        self.local_id
    }

    /// The ids of the live connections, oldest first.
    pub fn connection_ids(&self) -> (live: Vec<ActorId>)
        ensures
            live@ == ids(self@.links),
    {
        proof {
            lemma_links_ids(self.order@, self.connections@);
        }
        let mut live: Vec<ActorId> = Vec::new();
        let mut i: usize = 0;
        while i < self.order.len()
            invariant
                i <= self.order@.len(),
                live@ == self.order@.take(i as int),
            decreases self.order@.len() - i,
        {
            live.push(self.order[i]);
            assert(live@ =~= self.order@.take(i + 1));
            i += 1;
        }
        assert(live@ =~= self.order@);
        live
    }

    /// The directory of a client that `greeting` has welcomed: its one
    /// connection is the one to the server.
    pub fn client(greeting: ServerGreeting, connection: Connection) -> (net: Self)
        ensures
            net@ == (DirectoryView {
                links: seq![LinkView { id: greeting.server_id, connection: connection@ }],
                next: greeting.server_id.0 as nat + 1,
                given: set![greeting.server_id],
                server_id: greeting.server_id,
                local_id: greeting.client_id,
            }),
            net@.wf(),
    {
        broadcast use vstd::std_specs::hash::group_hash_axioms;

        let mut connections: HashMap<u32, Connection> = HashMap::new();
        connections.insert(greeting.server_id.0, connection);
        let mut order: Vec<ActorId> = Vec::new();
        order.push(greeting.server_id);
        let mut given: HashSet<u32> = HashSet::new();
        given.insert(greeting.server_id.0);
        proof {
            assert(actors(given@) =~= set![greeting.server_id]);
            let link = LinkView { id: greeting.server_id, connection: connection@ };
            assert(links_of(order@, connections@) =~= seq![link]);
            assert(ids(seq![link]) =~= seq![greeting.server_id]);
            assert forall|key: u32| #[trigger]
                connections@.contains_key(key) <==> order@.contains(ActorId(key)) by {
                if key == greeting.server_id.0 {
                    assert(order@[0] == ActorId(key));
                }
            }
        }
        NetworkResource {
            connections,
            order,
            given,
            next_id: greeting.server_id.0 as u64 + 1,
            server_id: greeting.server_id,
            local_id: greeting.client_id,
        }
    }

    /// The greeting for the client that connects next, which tells it the
    /// id that [`NetworkResource::add_client`] will give it. There is none
    /// once every id has been given out.
    pub fn greet(&self) -> (greeting: Option<ServerGreeting>)
        ensures
            self@.next <= u32::MAX ==> greeting == Some(
                ServerGreeting {
                    client_id: ActorId(self@.next as u32),
                    server_id: self@.server_id,
                },
            ),
            self@.next > u32::MAX ==> greeting is None,
    {
        if self.next_id > u32::MAX as u64 {
            None
        } else {
            Some(
                ServerGreeting {
                    client_id: ActorId(self.next_id as u32),
                    server_id: self.server_id,
                },
            )
        }
    }

    /// Puts `connection` last among the live ones, under `id`, which was
    /// not given out before, and keeps the next id above it.
    fn enrol(&mut self, id: ActorId, connection: Connection)
        requires
            !old(self)@.given.contains(id),
        ensures
            final(self)@.wf(),
            final(self)@.succeeds(old(self)@),
            final(self)@ == (DirectoryView {
                links: old(self)@.links.push(LinkView { id, connection: connection@ }),
                next: if old(self)@.next > id.0 {
                    old(self)@.next
                } else {
                    id.0 as nat + 1
                },
                given: old(self)@.given.insert(id),
                server_id: old(self)@.server_id,
                local_id: old(self)@.local_id,
            }),
    {
        broadcast use vstd::std_specs::hash::group_hash_axioms;

        proof {
            use_type_invariant(&*self);
        }
        let ghost before = self@;
        let mut taken = NetworkResource::empty();
        core::mem::swap(self, &mut taken);
        let NetworkResource { connections, order, given, next_id, server_id, local_id } = taken;
        let mut connections = connections;
        let mut order = order;
        let mut given = given;
        let ghost table = connections@;
        let ghost peers = order@;
        let ghost numbers = given@;
        proof {
            lemma_links_ids(peers, table);
            if peers.contains(id) {
                let k = peers.index_of(id);
                assert(before.links[k].id == id);
            }
            lemma_links_grow(peers, table, id, connection);
            lemma_push_succeeds(before, id, connection@);
            lemma_actors_grow(numbers, id);
        }
        connections.insert(id.0, connection);
        order.push(id);
        given.insert(id.0);
        let next_id = if next_id > id.0 as u64 {
            next_id
        } else {
            id.0 as u64 + 1
        };
        proof {
            lemma_links_ids(order@, connections@);
            assert forall|key: u32| #[trigger]
                connections@.contains_key(key) <==> order@.contains(ActorId(key)) by {
                if peers.contains(ActorId(key)) {
                    let k = peers.index_of(ActorId(key));
                    assert(order@[k] == ActorId(key));
                }
                if order@.contains(ActorId(key)) && key != id.0 {
                    let k = order@.index_of(ActorId(key));
                    assert(peers[k] == ActorId(key));
                }
                if key == id.0 {
                    assert(order@[peers.len() as int] == id);
                }
            }
            let after = links_of(order@, connections@);
            assert forall|i: int| 0 <= i < after.len() implies (#[trigger] after[i]).id.0 < next_id
                && actors(given@).contains(after[i].id) by {
                if i < peers.len() {
                    assert(before.links[i].id.0 < before.next);
                    assert(before.given.contains(before.links[i].id));
                }
            }
        }
        *self = NetworkResource { connections, order, given, next_id, server_id, local_id };
    }

    /// Makes a client live once its handshake is done: it gets the next id,
    /// which no actor had before, and is polled from now on. `greeting` is
    /// what the client introduced itself with.
    pub fn add_client(&mut self, connection: Connection, greeting: NetworkPayload) -> (res: Result<
        ConnectionEvent,
        DirectoryError,
    >)
        ensures
            final(self)@.wf(),
            final(self)@.succeeds(old(self)@),
            old(self)@.next <= u32::MAX ==> res == Ok::<ConnectionEvent, DirectoryError>(
                ConnectionEvent::Connected { id: ActorId(old(self)@.next as u32), greeting },
            ) && final(self)@ == (DirectoryView {
                links: old(self)@.links.push(
                    LinkView { id: ActorId(old(self)@.next as u32), connection: connection@ },
                ),
                next: old(self)@.next + 1,
                given: old(self)@.given.insert(ActorId(old(self)@.next as u32)),
                server_id: old(self)@.server_id,
                local_id: old(self)@.local_id,
            }),
            old(self)@.next > u32::MAX ==> res == Err::<ConnectionEvent, DirectoryError>(
                DirectoryError::IdsExhausted,
            ) && final(self)@ == old(self)@,
    {
        proof {
            use_type_invariant(&*self);
        }
        if self.next_id > u32::MAX as u64 {
            return Err(DirectoryError::IdsExhausted);
        }
        let id = ActorId(self.next_id as u32);
        self.enrol(id, connection);
        Ok(ConnectionEvent::Connected { id, greeting })
    }

    /// Makes `connection` live under an id chosen by the caller, as a client
    /// does with the id of its server. The id must be one that no actor has
    /// or had: the id of a live connection is refused, and so is an id that
    /// was given out to a connection that is gone. The ids that are given
    /// out later are above `actor_id`.
    pub fn insert_connection(&mut self, actor_id: ActorId, connection: Connection) -> (res: Result<
        (),
        DirectoryError,
    >)
        ensures
            final(self)@.wf(),
            final(self)@.succeeds(old(self)@),
            !old(self)@.given.contains(actor_id) ==> res is Ok && final(self)@ == (DirectoryView {
                links: old(self)@.links.push(LinkView { id: actor_id, connection: connection@ }),
                next: if old(self)@.next > actor_id.0 {
                    old(self)@.next
                } else {
                    actor_id.0 as nat + 1
                },
                given: old(self)@.given.insert(actor_id),
                server_id: old(self)@.server_id,
                local_id: old(self)@.local_id,
            }),
            old(self)@.given.contains(actor_id) ==> final(self)@ == old(self)@ && res == Err::<
                (),
                DirectoryError,
            >(
                if old(self)@.has(actor_id) {
                    DirectoryError::IdInUse
                } else {
                    DirectoryError::IdSpent
                },
            ),
    {
        broadcast use vstd::std_specs::hash::group_hash_axioms;

        proof {
            use_type_invariant(&*self);
            lemma_links_ids(self.order@, self.connections@);
            if self@.has(actor_id) {
                let k = self@.index_of(actor_id);
                assert(self@.links[k].id == actor_id);
            }
        }
        if self.connections.contains_key(&actor_id.0) {
            return Err(DirectoryError::IdInUse);
        }
        if self.given.contains(&actor_id.0) {
            return Err(DirectoryError::IdSpent);
        }
        self.enrol(actor_id, connection);
        Ok(())
    }

    /// Where `id` stands among the live connections.
    fn position(&self, id: ActorId) -> (place: Option<usize>)
        ensures
            self@.has(id) ==> place is Some && place->0 as int == self@.index_of(id),
            !self@.has(id) ==> place is None,
            place is Some ==> self@.has(id) && place->0 < self.order@.len(),
            place is Some ==> self.order@[place->0 as int] == id,
    {
        proof {
            use_type_invariant(self);
            lemma_links_ids(self.order@, self.connections@);
        }
        let mut i: usize = 0;
        while i < self.order.len()
            invariant
                i <= self.order@.len(),
                forall|j: int| 0 <= j < i ==> self.order@[j] != id,
                ids(self@.links) == self.order@,
                self.order@.no_duplicates(),
            decreases self.order@.len() - i,
        {
            if self.order[i].0 == id.0 {
                proof {
                    let all = self.order@;
                    assert(all[i as int] == id);
                    assert(all.contains(id));
                    let found = all.index_of(id);
                    assert(all[found] == id && 0 <= found < all.len());
                    assert(found == i);
                }
                return Some(i);
            }
            i += 1;
        }
        None
    }

    /// Takes the connection with `id` out of the directory, if it is live.
    pub fn remove_connection(&mut self, id: &ActorId) -> (removed: Option<Connection>)
        ensures
            final(self)@.wf(),
            final(self)@.succeeds(old(self)@),
            final(self)@.next == old(self)@.next,
            final(self)@.given == old(self)@.given,
            final(self)@.server_id == old(self)@.server_id,
            final(self)@.local_id == old(self)@.local_id,
            old(self)@.has(*id) ==> {
                let place = old(self)@.index_of(*id);
                &&& removed is Some
                &&& removed->0@ == old(self)@.links[place].connection
                &&& final(self)@.links == old(self)@.links.remove(place)
            },
            !old(self)@.has(*id) ==> removed is None && final(self)@ == old(self)@,
    {
        broadcast use vstd::std_specs::hash::group_hash_axioms;

        proof {
            use_type_invariant(&*self);
            lemma_links_ids(self.order@, self.connections@);
        }
        let place = match self.position(*id) {
            Some(place) => place,
            None => {
                return None;
            },
        };
        let ghost before = self@;
        let mut taken = NetworkResource::empty();
        core::mem::swap(self, &mut taken);
        let NetworkResource { connections, order, given, next_id, server_id, local_id } = taken;
        let mut connections = connections;
        let mut order = order;
        let ghost table = connections@;
        let ghost peers = order@;
        proof {
            lemma_links_shrink(peers, table, place as int);
            assert(table.contains_key(id.0));
        }
        let removed = connections.remove(&id.0);
        order.remove(place);
        proof {
            lemma_links_ids(order@, connections@);
            assert forall|key: u32| #[trigger]
                connections@.contains_key(key) <==> order@.contains(ActorId(key)) by {
                if key != id.0 {
                    if peers.contains(ActorId(key)) {
                        let k = peers.index_of(ActorId(key));
                        let at = if k < place {
                            k
                        } else {
                            k - 1
                        };
                        assert(order@[at] == ActorId(key));
                    }
                    if order@.contains(ActorId(key)) {
                        let k = order@.index_of(ActorId(key));
                        let at = if k < place {
                            k
                        } else {
                            k + 1
                        };
                        assert(peers[at] == ActorId(key));
                    }
                }
            }
            let after = links_of(order@, connections@);
            assert forall|i: int| 0 <= i < after.len() implies (#[trigger] after[i]).id.0
                < before.next by {
                let at = if i < place {
                    i
                } else {
                    i + 1
                };
                assert(after[i] == before.links[at]);
            }
            assert forall|other: ActorId| ids(after).contains(other) implies ids(
                before.links,
            ).contains(other) by {
                let k = ids(after).index_of(other);
                let at = if k < place {
                    k
                } else {
                    k + 1
                };
                assert(ids(before.links)[at] == other);
            }
        }
        *self = NetworkResource { connections, order, given, next_id, server_id, local_id };
        removed
    }

    /// Puts `replacement` in the place of the connection of peer `id` and
    /// hands that connection out. A peer that is not live is left alone.
    fn exchange(&mut self, id: ActorId, replacement: Connection) -> (held: Option<Connection>)
        ensures
            final(self)@.wf(),
            final(self)@.succeeds(old(self)@),
            final(self)@.next == old(self)@.next,
            final(self)@.given == old(self)@.given,
            final(self)@.server_id == old(self)@.server_id,
            final(self)@.local_id == old(self)@.local_id,
            ids(final(self)@.links) == ids(old(self)@.links),
            old(self)@.has(id) ==> {
                let place = old(self)@.index_of(id);
                &&& held is Some
                &&& held->0@ == old(self)@.links[place].connection
                &&& final(self)@.links == old(self)@.links.update(
                    place,
                    LinkView { id, connection: replacement@ },
                )
            },
            !old(self)@.has(id) ==> held is None && final(self)@ == old(self)@,
    {
        broadcast use vstd::std_specs::hash::group_hash_axioms;

        proof {
            use_type_invariant(&*self);
            lemma_links_ids(self.order@, self.connections@);
        }
        if !self.connections.contains_key(&id.0) {
            return None;
        }
        let ghost before = self@;
        let mut taken = NetworkResource::empty();
        core::mem::swap(self, &mut taken);
        let NetworkResource { connections, order, given, next_id, server_id, local_id } = taken;
        let mut connections = connections;
        let ghost table = connections@;
        let ghost peers = order@;
        let ghost place = peers.index_of(id);
        let held = connections.remove(&id.0);
        connections.insert(id.0, replacement);
        proof {
            assert(peers[place] == id);
            assert(connections@ =~= table.insert(id.0, replacement));
            lemma_links_change(peers, table, place, replacement);
            lemma_links_ids(peers, connections@);
            let after = links_of(peers, connections@);
            assert forall|i: int| 0 <= i < after.len() implies (#[trigger] after[i]).id.0
                < before.next by {
                assert(after[i].id == before.links[i].id);
            }
        }
        *self = NetworkResource { connections, order, given, next_id, server_id, local_id };
        held
    }

    /// Takes in what one read from the stream of peer `id` did, and says
    /// whether to read from it again now. A peer that is not live is left
    /// alone.
    pub fn on_read(&mut self, id: ActorId, outcome: ReadOutcome) -> (again: bool)
        ensures
            final(self)@.wf(),
            final(self)@.succeeds(old(self)@),
            final(self)@.next == old(self)@.next,
            final(self)@.given == old(self)@.given,
            final(self)@.server_id == old(self)@.server_id,
            final(self)@.local_id == old(self)@.local_id,
            old(self)@.has(id) ==> {
                let place = old(self)@.index_of(id);
                let connection = old(self)@.links[place].connection;
                &&& again == connection.reads_on(outcome)
                &&& final(self)@.links == old(self)@.links.update(
                    place,
                    LinkView { id, connection: connection.after_read(outcome) },
                )
            },
            !old(self)@.has(id) ==> !again && final(self)@ == old(self)@,
    {
        match self.exchange(id, Connection::new()) {
            Some(connection) => {
                let ghost between = self@;
                let mut connection = connection;
                let again = connection.on_read(outcome);
                self.exchange(id, connection);
                proof {
                    lemma_succeeds_in_turn(old(self)@, between, self@);
                    assert(self@.links =~= old(self)@.links.update(
                        old(self)@.index_of(id),
                        LinkView { id, connection: connection@ },
                    ));
                }
                again
            },
            None => false,
        }
    }

    /// Takes in what the write of a frame of `frame_len` bytes to the
    /// stream of peer `id` did. A peer that is not live is left alone.
    pub fn on_write(&mut self, id: ActorId, frame_len: usize, outcome: WriteOutcome)
        ensures
            final(self)@.wf(),
            final(self)@.succeeds(old(self)@),
            final(self)@.next == old(self)@.next,
            final(self)@.given == old(self)@.given,
            final(self)@.server_id == old(self)@.server_id,
            final(self)@.local_id == old(self)@.local_id,
            old(self)@.has(id) ==> {
                let place = old(self)@.index_of(id);
                let connection = old(self)@.links[place].connection;
                final(self)@.links == old(self)@.links.update(
                    place,
                    LinkView { id, connection: connection.after_write(frame_len, outcome) },
                )
            },
            !old(self)@.has(id) ==> final(self)@ == old(self)@,
    {
        match self.exchange(id, Connection::new()) {
            Some(connection) => {
                let ghost between = self@;
                let mut connection = connection;
                connection.on_write(frame_len, outcome);
                self.exchange(id, connection);
                proof {
                    lemma_succeeds_in_turn(old(self)@, between, self@);
                    assert(self@.links =~= old(self)@.links.update(
                        old(self)@.index_of(id),
                        LinkView { id, connection: connection@ },
                    ));
                }
            },
            None => {},
        }
    }

    /// Takes in that peer `id` sent a frame whose body its type could not
    /// read: the connection ends, and the next receive says so. A peer that
    /// is not live is left alone.
    pub fn on_unreadable(&mut self, id: ActorId)
        ensures
            final(self)@.wf(),
            final(self)@.succeeds(old(self)@),
            final(self)@.next == old(self)@.next,
            final(self)@.given == old(self)@.given,
            final(self)@.server_id == old(self)@.server_id,
            final(self)@.local_id == old(self)@.local_id,
            old(self)@.has(id) ==> {
                let place = old(self)@.index_of(id);
                let connection = old(self)@.links[place].connection;
                final(self)@.links == old(self)@.links.update(
                    place,
                    LinkView { id, connection: connection.rejected() },
                )
            },
            !old(self)@.has(id) ==> final(self)@ == old(self)@,
    {
        match self.exchange(id, Connection::new()) {
            Some(connection) => {
                let ghost between = self@;
                let mut connection = connection;
                connection.on_unreadable();
                self.exchange(id, connection);
                proof {
                    lemma_succeeds_in_turn(old(self)@, between, self@);
                    assert(self@.links =~= old(self)@.links.update(
                        old(self)@.index_of(id),
                        LinkView { id, connection: connection@ },
                    ));
                }
            },
            None => {},
        }
    }

    /// The frame of `payload` and the peers that it goes to: every live
    /// connection that has not ended, oldest first.
    pub fn send(&self, payload: &NetworkPayload) -> (res: Result<Broadcast, FrameError>)
        ensures
            payload.data@.len() <= MAX_BODY_BYTES ==> res is Ok && res->Ok_0.frame@ == frame(
                payload@,
            ) && res->Ok_0.peers@ == open_ids(self@.links),
            payload.data@.len() > MAX_BODY_BYTES ==> res == Err::<Broadcast, FrameError>(
                FrameError::BodyTooLong,
            ),
    {
        broadcast use vstd::std_specs::hash::group_hash_axioms;

        proof {
            use_type_invariant(self);
        }
        let frame = match encode(payload) {
            Ok(frame) => frame,
            Err(error) => {
                return Err(error);
            },
        };
        let mut peers: Vec<ActorId> = Vec::new();
        let mut i: usize = 0;
        while i < self.order.len()
            invariant
                i <= self.order@.len(),
                self@.links == links_of(self.order@, self.connections@),
                forall|key: u32| #[trigger]
                    self.connections@.contains_key(key) <==> self.order@.contains(ActorId(key)),
                peers@ == open_ids(self@.links.take(i as int)),
            decreases self.order@.len() - i,
        {
            let id = self.order[i];
            proof {
                assert(self@.links.take(i + 1).drop_last() =~= self@.links.take(i as int));
                assert(self.order@.contains(ActorId(id.0)));
            }
            match self.connections.get(&id.0) {
                Some(connection) => {
                    if !connection.has_failed() {
                        peers.push(id);
                    }
                },
                None => {},
            }
            i += 1;
        }
        assert(self@.links.take(i as int) =~= self@.links);
        Ok(Broadcast { frame, peers })
    }

    /// Receives from every live connection, oldest first. A connection that
    /// fails leaves the directory and gives one event, and no message. The
    /// others give their messages, each marked with its sender.
    pub fn recv(&mut self) -> (res: (Vec<NetworkMessage>, Vec<ConnectionEvent>))
        ensures
            final(self)@.wf(),
            final(self)@.succeeds(old(self)@),
            contents(res.0@) == recv_messages(old(self)@.links),
            res.1@ == recv_events(old(self)@.links),
            final(self)@ == (DirectoryView {
                links: recv_links(old(self)@.links),
                next: old(self)@.next,
                given: old(self)@.given,
                server_id: old(self)@.server_id,
                local_id: old(self)@.local_id,
            }),
    {
        broadcast use vstd::std_specs::hash::group_hash_axioms;

        proof {
            use_type_invariant(&*self);
            lemma_links_ids(self.order@, self.connections@);
        }
        let ghost before = self@;
        let mut taken = NetworkResource::empty();
        core::mem::swap(self, &mut taken);
        let NetworkResource { connections, order, given, next_id, server_id, local_id } = taken;
        let mut table = connections;
        let ghost peers = order@;
        let mut messages: Vec<NetworkMessage> = Vec::new();
        let mut events: Vec<ConnectionEvent> = Vec::new();
        let mut live: HashMap<u32, Connection> = HashMap::new();
        let mut live_order: Vec<ActorId> = Vec::new();
        proof {
            assert(before.links.take(0) =~= Seq::empty());
            assert(links_of(live_order@, live@) =~= Seq::empty());
        }
        for id in it: order
            invariant
                it.seq() == peers,
                peers.no_duplicates(),
                ids(before.links) == peers,
                before.links.len() == peers.len(),
                forall|k: int|
                    it.index() <= k < peers.len() ==> table@.contains_key((#[trigger] peers[k]).0)
                        && table@[peers[k].0]@ == before.links[k].connection,
                forall|k: int| 0 <= k < peers.len() ==> (#[trigger] before.links[k]).id == peers[k],
                contents(messages@) == recv_messages(before.links.take(it.index() as int)),
                events@ == recv_events(before.links.take(it.index() as int)),
                links_of(live_order@, live@) == recv_links(before.links.take(it.index() as int)),
                forall|key: u32| #[trigger]
                    live@.contains_key(key) <==> live_order@.contains(ActorId(key)),
        {
            let ghost seen = it.index() as int;
            proof {
                assert(id == peers[seen]);
                assert(before.links.take(seen + 1).drop_last() =~= before.links.take(seen));
                assert(before.links.take(seen + 1).last() == before.links[seen]);
                lemma_recv_links_wf(before.links.take(seen), 0x1_0000_0000);
                lemma_links_ids(live_order@, live@);
                assert(ids(before.links.take(seen)) =~= peers.take(seen));
                if live_order@.contains(id) {
                    let kept = recv_links(before.links.take(seen));
                    assert(ids(kept) == live_order@);
                    assert(ids(kept).contains(id));
                    assert(ids(before.links.take(seen)).contains(id));
                    assert(peers.take(seen).contains(id));
                    let k = peers.take(seen).index_of(id);
                    assert(peers.take(seen)[k] == id);
                    assert(peers[k] == peers[seen]);
                }
                assert(!live_order@.contains(id));
            }
            let ghost remaining = table@;
            match table.remove(&id.0) {
                Some(connection) => {
                    let mut connection = connection;
                    let ghost inbox = connection@.inbox();
                    proof {
                        assert(connection@ == before.links[seen].connection);
                        assert forall|k: int| seen + 1 <= k < peers.len() implies table@.contains_key(
                            (#[trigger] peers[k]).0,
                        ) && table@[peers[k].0]@ == before.links[k].connection by {
                            assert(peers[k] != peers[seen]);
                        }
                    }
                    match connection.recv() {
                        Ok(payloads) => {
                            let sender = id;
                            let ghost earlier = messages@;
                            let ghost marked = stamped(inbox, sender);
                            let ghost all = payloads@;
                            proof {
                                assert(marked.take(0) =~= Seq::empty());
                                assert(contents(earlier) + marked.take(0) =~= contents(earlier));
                                assert(envelopes(all) == inbox);
                                assert forall|k: int| 0 <= k < all.len() implies (
                                #[trigger] marked[k]) == (Message { sender, envelope: all[k]@ }) by {
                                    assert(envelopes(all)[k] == all[k]@);
                                }
                            }
                            for payload in each: payloads
                                invariant
                                    each.seq() == all,
                                    all.len() == marked.len(),
                                    forall|k: int|
                                        0 <= k < all.len() ==> (#[trigger] marked[k]) == (Message {
                                            sender,
                                            envelope: all[k]@,
                                        }),
                                    contents(messages@) == contents(earlier) + marked.take(
                                        each.index() as int,
                                    ),
                            {
                                let ghost given = each.index() as int;
                                proof {
                                    assert(contents(
                                        messages@.push(NetworkMessage { sender, payload }),
                                    ) =~= contents(messages@).push(marked[given]));
                                    assert(contents(earlier) + marked.take(given + 1) =~= (contents(
                                        earlier,
                                    ) + marked.take(given)).push(marked[given]));
                                }
                                messages.push(NetworkMessage { sender, payload });
                            }
                            proof {
                                assert(marked.take(all.len() as int) =~= marked);
                                lemma_links_grow(live_order@, live@, id, connection);
                                let before_order = live_order@;
                                assert forall|key: u32| #[trigger]
                                    live@.insert(id.0, connection).contains_key(key)
                                        <==> before_order.push(id).contains(ActorId(key)) by {
                                    if before_order.contains(ActorId(key)) {
                                        let k = before_order.index_of(ActorId(key));
                                        assert(before_order.push(id)[k] == ActorId(key));
                                    }
                                    if before_order.push(id).contains(ActorId(key)) && key != id.0 {
                                        let k = before_order.push(id).index_of(ActorId(key));
                                        assert(before_order[k] == ActorId(key));
                                    }
                                    if key == id.0 {
                                        assert(before_order.push(id)[before_order.len() as int]
                                            == id);
                                    }
                                }
                            }
                            live.insert(id.0, connection);
                            live_order.push(id);
                        },
                        Err(error) => {
                            events.push(ConnectionEvent::Disconnected { id, error });
                        },
                    }
                },
                None => {},
            }
        }
        proof {
            assert(before.links.take(peers.len() as int) =~= before.links);
            lemma_recv_links_wf(before.links, before.next);
            let kept = recv_links(before.links);
            assert forall|i: int| 0 <= i < kept.len() implies before.given.contains(
                (#[trigger] kept[i]).id,
            ) by {
                assert(ids(kept)[i] == kept[i].id);
                assert(ids(kept).contains(kept[i].id));
                assert(ids(before.links).contains(kept[i].id));
                let k = ids(before.links).index_of(kept[i].id);
                assert(before.links[k].id == kept[i].id);
            }
        }
        *self = NetworkResource {
            connections: live,
            order: live_order,
            given,
            next_id,
            server_id,
            local_id,
        };
        (messages, events)
    }
}

/// A sequence without duplicates stays so when an element that it does not
/// hold is pushed.
proof fn lemma_push_fresh<A>(items: Seq<A>, item: A)
    requires
        items.no_duplicates(),
        forall|i: int| 0 <= i < items.len() ==> items[i] != item,
    ensures
        items.push(item).no_duplicates(),
{
}

/// A sequence without duplicates stays so when an element is removed.
proof fn lemma_remove_keeps_distinct<A>(items: Seq<A>, place: int)
    requires
        items.no_duplicates(),
        0 <= place < items.len(),
    ensures
        items.remove(place).no_duplicates(),
{
    let shorter = items.remove(place);
    assert forall|i: int, j: int| 0 <= i < shorter.len() && 0 <= j < shorter.len() && i
        != j implies shorter[i] != shorter[j] by {
        let a = if i < place {
            i
        } else {
            i + 1
        };
        let b = if j < place {
            j
        } else {
            j + 1
        };
        assert(shorter[i] == items[a]);
        assert(shorter[j] == items[b]);
    }
}

/// The connections that are live after a receive were live before it: no id
/// appears among them that was not there, and none appears twice.
pub proof fn lemma_recv_links_wf(links: Seq<LinkView>, next: nat)
    requires
        ids(links).no_duplicates(),
        forall|i: int| 0 <= i < links.len() ==> (#[trigger] links[i]).id.0 < next,
    ensures
        ids(recv_links(links)).no_duplicates(),
        forall|i: int|
            0 <= i < recv_links(links).len() ==> (#[trigger] recv_links(links)[i]).id.0 < next,
        forall|id: ActorId| ids(recv_links(links)).contains(id) ==> ids(links).contains(id),
    decreases links.len(),
{
    if links.len() > 0 {
        let shorter = links.drop_last();
        let last = links.last();
        assert(ids(shorter) =~= ids(links).drop_last());
        assert forall|i: int| 0 <= i < shorter.len() implies (#[trigger] shorter[i]).id.0
            < next by {
            assert(shorter[i] == links[i]);
        }
        lemma_recv_links_wf(shorter, next);
        let earlier = recv_links(shorter);
        assert forall|id: ActorId| ids(earlier).contains(id) implies ids(links).contains(id) by {
            assert(ids(recv_links(shorter)).contains(id));
            assert(ids(shorter).contains(id));
            let k = ids(shorter).index_of(id);
            assert(ids(shorter)[k] == id);
            assert(ids(links)[k] == id);
        }
        if last.connection.fault() is None {
            let kept = LinkView { id: last.id, connection: last.connection.drained() };
            assert(ids(earlier.push(kept)) =~= ids(earlier).push(last.id));
            assert forall|i: int| 0 <= i < ids(earlier).len() implies ids(earlier)[i]
                != last.id by {
                if ids(earlier)[i] == last.id {
                    assert(ids(earlier).contains(last.id));
                    assert(ids(recv_links(shorter)).contains(last.id));
                    assert(ids(shorter).contains(last.id));
                    let k = ids(shorter).index_of(last.id);
                    assert(ids(shorter)[k] == last.id);
                    assert(ids(links)[k] == ids(links)[links.len() - 1]);
                }
            }
            lemma_push_fresh(ids(earlier), last.id);
            assert forall|id: ActorId| ids(recv_links(links)).contains(id) implies ids(
                links,
            ).contains(id) by {
                let k = ids(recv_links(links)).index_of(id);
                assert(ids(recv_links(links))[k] == id);
                if k < earlier.len() {
                    assert(ids(earlier)[k] == id);
                    assert(ids(earlier).contains(id));
                } else {
                    assert(ids(links)[links.len() - 1] == id);
                }
            }
        }
    }
}

/// The actor that `event` is about.
pub open spec fn subject(event: ConnectionEvent) -> ActorId {
    match event {
        ConnectionEvent::Connected { id, .. } => id,
        ConnectionEvent::Disconnected { id, .. } => id,
    }
}

/// How many of `events` are about `id`.
pub open spec fn mentions(events: Seq<ConnectionEvent>, id: ActorId) -> nat
    decreases events.len(),
{
    if events.len() == 0 {
        0
    } else if subject(events.last()) == id {
        mentions(events.drop_last(), id) + 1
    } else {
        mentions(events.drop_last(), id)
    }
}

/// A receive gives no event about an actor that has no live connection.
pub proof fn lemma_absent_is_silent(links: Seq<LinkView>, id: ActorId)
    requires
        !ids(links).contains(id),
    ensures
        mentions(recv_events(links), id) == 0,
    decreases links.len(),
{
    if links.len() > 0 {
        let shorter = links.drop_last();
        assert(ids(shorter) =~= ids(links).drop_last());
        assert(ids(links)[links.len() - 1] == links.last().id);
        if ids(shorter).contains(id) {
            let k = ids(shorter).index_of(id);
            assert(ids(links)[k] == id);
        }
        lemma_absent_is_silent(shorter, id);
        if links.last().connection.fault() is Some {
            assert(recv_events(links).drop_last() =~= recv_events(shorter));
        }
    }
}

/// A receive gives one event about a connection that fails and none about
/// one that does not.
pub proof fn lemma_one_event_each(links: Seq<LinkView>, place: int)
    requires
        ids(links).no_duplicates(),
        0 <= place < links.len(),
    ensures
        mentions(recv_events(links), links[place].id) == (if links[place].connection.fault()
            is Some {
            1nat
        } else {
            0nat
        }),
    decreases links.len(),
{
    let shorter = links.drop_last();
    let last = links.last();
    let id = links[place].id;
    assert(ids(shorter) =~= ids(links).drop_last());
    if last.connection.fault() is Some {
        assert(recv_events(links).drop_last() =~= recv_events(shorter));
    }
    if place == links.len() - 1 {
        if ids(shorter).contains(id) {
            let k = ids(shorter).index_of(id);
            assert(ids(links)[k] == ids(links)[place]);
        }
        lemma_absent_is_silent(shorter, id);
    } else {
        assert(ids(links)[place] != ids(links)[links.len() - 1]);
        assert(shorter[place] == links[place]);
        lemma_one_event_each(shorter, place);
    }
}

/// A connection that fails is not live after the receive.
pub proof fn lemma_failed_leaves(links: Seq<LinkView>, place: int)
    requires
        ids(links).no_duplicates(),
        0 <= place < links.len(),
        links[place].connection.fault() is Some,
    ensures
        !ids(recv_links(links)).contains(links[place].id),
    decreases links.len(),
{
    let shorter = links.drop_last();
    let last = links.last();
    let id = links[place].id;
    assert(ids(shorter) =~= ids(links).drop_last());
    let earlier = recv_links(shorter);
    if place == links.len() - 1 {
        lemma_recv_links_wf(shorter, 0x1_0000_0000);
        if ids(earlier).contains(id) {
            assert(ids(recv_links(shorter)).contains(id));
            assert(ids(shorter).contains(id));
            let k = ids(shorter).index_of(id);
            assert(ids(links)[k] == ids(links)[place]);
        }
    } else {
        assert(shorter[place] == links[place]);
        lemma_failed_leaves(shorter, place);
        assert(ids(links)[place] != ids(links)[links.len() - 1]);
        if last.connection.fault() is None {
            let kept = LinkView { id: last.id, connection: last.connection.drained() };
            assert(ids(earlier.push(kept)) =~= ids(earlier).push(last.id));
            if ids(earlier.push(kept)).contains(id) {
                let k = ids(earlier.push(kept)).index_of(id);
                assert(ids(earlier.push(kept))[k] == id);
                if k < earlier.len() {
                    assert(ids(earlier)[k] == id);
                    assert(ids(earlier).contains(id));
                }
            }
        }
    }
}

/// A connection that has failed is reported exactly once. The receive that
/// first meets the failure gives one event about the peer and takes it out
/// of the directory; the next receive gives none, and neither does any later
/// one, since a receive is silent about every actor that is not live and an
/// id that was given out is never given out again.
pub proof fn lemma_disconnect_exactly_once(links: Seq<LinkView>, place: int)
    requires
        ids(links).no_duplicates(),
        0 <= place < links.len(),
        links[place].connection.fault() is Some,
    ensures
        mentions(recv_events(links), links[place].id) == 1,
        !ids(recv_links(links)).contains(links[place].id),
        mentions(recv_events(recv_links(links)), links[place].id) == 0,
{
    lemma_one_event_each(links, place);
    lemma_failed_leaves(links, place);
    lemma_absent_is_silent(recv_links(links), links[place].id);
}

/// The directory after one client was made live for each of `connections`,
/// one after the other.
pub open spec fn admitted(start: DirectoryView, connections: Seq<ConnectionView>) -> DirectoryView
    decreases connections.len(),
{
    if connections.len() == 0 {
        start
    } else {
        let earlier = admitted(start, connections.drop_last());
        DirectoryView {
            links: earlier.links.push(
                LinkView { id: ActorId(earlier.next as u32), connection: connections.last() },
            ),
            next: earlier.next + 1,
            given: earlier.given.insert(ActorId(earlier.next as u32)),
            server_id: earlier.server_id,
            local_id: earlier.local_id,
        }
    }
}

/// Clients that are made live one after the other get ids that count up by
/// one from the directory's next id: on a fresh server the first client is
/// 1, the second 2, and so on, each above all that came before.
pub proof fn lemma_ids_count_up(start: DirectoryView, connections: Seq<ConnectionView>)
    requires
        start.wf(),
        start.next + connections.len() <= 0x1_0000_0000,
    ensures
        admitted(start, connections).wf(),
        admitted(start, connections).next == start.next + connections.len(),
        admitted(start, connections).links.len() == start.links.len() + connections.len(),
        forall|k: int|
            0 <= k < connections.len() ==> (#[trigger] admitted(
                start,
                connections,
            ).links[start.links.len() + k]).id == ActorId((start.next + k) as u32),
        forall|k: int|
            0 <= k < start.links.len() ==> (#[trigger] admitted(start, connections).links[k])
                == start.links[k],
    decreases connections.len(),
{
    if connections.len() > 0 {
        let shorter = connections.drop_last();
        lemma_ids_count_up(start, shorter);
        let earlier = admitted(start, shorter);
        let id = ActorId(earlier.next as u32);
        let link = LinkView { id, connection: connections.last() };
        assert(ids(earlier.links.push(link)) =~= ids(earlier.links).push(id));
        assert forall|i: int| 0 <= i < earlier.links.len() implies ids(earlier.links)[i]
            != id by {
            assert(earlier.links[i].id.0 < earlier.next);
        }
        lemma_push_fresh(ids(earlier.links), id);
    }
}

/// A connection does not care how the stream is cut into reads. Let bytes
/// arrive in two reads, cut at any byte, with a receive after each; or let
/// them arrive in one read, with one receive. Where the one receive does
/// not fail, neither of the two does, the two hand out together what the
/// one hands out, in the same order, and the connection is left the same.
/// Where the one receive fails, one of the two fails.
pub proof fn lemma_partial_frames(start: ConnectionView, first: Seq<u8>, second: Seq<u8>)
    requires
        start.failure is None,
    ensures
        ({
            let whole = start.fed(first + second);
            let early = start.fed(first);
            let late = early.drained().fed(second);
            &&& whole.fault() is None ==> early.fault() is None && late.fault() is None
                && early.inbox() + late.inbox() == whole.inbox() && late.drained()
                == whole.drained()
            &&& whole.fault() is Some ==> early.fault() is Some || late.fault() is Some
        }),
{
    let whole = start.fed(first + second);
    let early = start.fed(first);
    let late = early.drained().fed(second);
    assert(whole.buffered =~= early.buffered + second);
    lemma_split_stream(early.buffered, second);
    lemma_scan_stream_bound(early.buffered);
    lemma_scan_stream_bound(late.buffered);
    if !scan_stream(early.buffered).malformed {
        let used = scan_stream(early.buffered).consumed;
        let more = scan_stream(late.buffered).consumed;
        assert(late.buffered.skip(more as int) =~= whole.buffered.skip((used + more) as int));
    }
}

/// `parts` joined end to end.
pub open spec fn joined(parts: Seq<Seq<u8>>) -> Seq<u8>
    decreases parts.len(),
{
    if parts.len() == 0 {
        Seq::empty()
    } else {
        joined(parts.drop_last()) + parts.last()
    }
}

/// The connection after a receive, and then for each of `parts` a read of
/// it and a receive.
pub open spec fn left_by_parts(start: ConnectionView, parts: Seq<Seq<u8>>) -> ConnectionView
    decreases parts.len(),
{
    if parts.len() == 0 {
        start.drained()
    } else {
        left_by_parts(start, parts.drop_last()).fed(parts.last()).drained()
    }
}

/// What those receives hand out, one after the other.
pub open spec fn received_by_parts(start: ConnectionView, parts: Seq<Seq<u8>>) -> Seq<Envelope>
    decreases parts.len(),
{
    if parts.len() == 0 {
        start.inbox()
    } else {
        received_by_parts(start, parts.drop_last()) + left_by_parts(
            start,
            parts.drop_last(),
        ).fed(parts.last()).inbox()
    }
}

/// However a stream is cut into parts, down to single bytes, receiving
/// after every part hands out what one receive of the whole hands out, in
/// the same order, and leaves the connection the same.
pub proof fn lemma_any_parts(start: ConnectionView, parts: Seq<Seq<u8>>)
    requires
        start.failure is None,
        start.fed(joined(parts)).fault() is None,
    ensures
        received_by_parts(start, parts) == start.fed(joined(parts)).inbox(),
        left_by_parts(start, parts) == start.fed(joined(parts)).drained(),
    decreases parts.len(),
{
    if parts.len() == 0 {
        assert(start.fed(joined(parts)).buffered =~= start.buffered);
    } else {
        let earlier = parts.drop_last();
        lemma_partial_frames(start, joined(earlier), parts.last());
        lemma_any_parts(start, earlier);
    }
}

/// A directory with one more connection, under an id that was not given
/// out, comes after the directory without it.
proof fn lemma_push_succeeds(before: DirectoryView, id: ActorId, connection: ConnectionView)
    requires
        !before.given.contains(id),
    ensures
        (DirectoryView {
            links: before.links.push(LinkView { id, connection }),
            next: if before.next > id.0 {
                before.next
            } else {
                id.0 as nat + 1
            },
            given: before.given.insert(id),
            server_id: before.server_id,
            local_id: before.local_id,
        }).succeeds(before),
{
    let longer = before.links.push(LinkView { id, connection });
    assert(ids(longer) =~= ids(before.links).push(id));
    assert forall|other: ActorId| ids(longer).contains(other) implies ids(before.links).contains(
        other,
    ) || !before.given.contains(other) by {
        let k = ids(longer).index_of(other);
        if k < before.links.len() {
            assert(ids(before.links)[k] == other);
        }
    }
}

/// Coming after is transitive: what comes after a later directory comes
/// after every earlier one.
pub proof fn lemma_succeeds_in_turn(
    first: DirectoryView,
    second: DirectoryView,
    third: DirectoryView,
)
    requires
        second.succeeds(first),
        third.succeeds(second),
    ensures
        third.succeeds(first),
{
    assert forall|id: ActorId| #[trigger] third.has(id) implies first.has(id)
        || !first.given.contains(id) by {
        if second.has(id) {
        } else if first.given.contains(id) {
            assert(second.given.contains(id));
        }
    }
    assert forall|id: ActorId| #[trigger] first.given.contains(id) implies third.given.contains(
        id,
    ) by {
        assert(second.given.contains(id));
    }
}

/// An actor that is gone stays gone. Once an id has been given out and its
/// connection is live no more, it is live in no directory that comes after,
/// whatever was done in between, and no receive there gives an event about
/// it.
pub proof fn lemma_gone_for_good(earlier: DirectoryView, later: DirectoryView, id: ActorId)
    requires
        !earlier.has(id),
        earlier.given.contains(id),
        later.succeeds(earlier),
    ensures
        !later.has(id),
        mentions(recv_events(later.links), id) == 0,
{
    if later.has(id) {
        assert(earlier.has(id) || !earlier.given.contains(id));
    }
    lemma_absent_is_silent(later.links, id);
}

/// Those of `messages` that `sender` sent, in their order.
pub open spec fn sent_by(messages: Seq<Message>, sender: ActorId) -> Seq<Message>
    decreases messages.len(),
{
    if messages.len() == 0 {
        Seq::empty()
    } else if messages.last().sender == sender {
        sent_by(messages.drop_last(), sender).push(messages.last())
    } else {
        sent_by(messages.drop_last(), sender)
    }
}

/// Those of `messages` that carry `tag`, in their order.
pub open spec fn carrying(messages: Seq<Message>, tag: u128) -> Seq<Message>
    decreases messages.len(),
{
    if messages.len() == 0 {
        Seq::empty()
    } else if messages.last().envelope.tag == tag {
        carrying(messages.drop_last(), tag).push(messages.last())
    } else {
        carrying(messages.drop_last(), tag)
    }
}

/// Picking by sender goes through joining.
proof fn lemma_sent_by_joined(first: Seq<Message>, second: Seq<Message>, sender: ActorId)
    ensures
        sent_by(first + second, sender) == sent_by(first, sender) + sent_by(second, sender),
    decreases second.len(),
{
    if second.len() == 0 {
        assert(first + second =~= first);
        assert(sent_by(first, sender) + sent_by(second, sender) =~= sent_by(first, sender));
    } else {
        lemma_sent_by_joined(first, second.drop_last(), sender);
        assert((first + second).drop_last() =~= first + second.drop_last());
        assert(sent_by(first + second, sender) =~= sent_by(first, sender) + sent_by(
            second,
            sender,
        ));
    }
}

/// What one sender sent is all its own and none of another's.
proof fn lemma_sent_by_stamped(envelopes: Seq<Envelope>, sender: ActorId, other: ActorId)
    ensures
        sent_by(stamped(envelopes, sender), sender) == stamped(envelopes, sender),
        other != sender ==> sent_by(stamped(envelopes, sender), other) == Seq::<Message>::empty(),
    decreases envelopes.len(),
{
    if envelopes.len() > 0 {
        lemma_sent_by_stamped(envelopes.drop_last(), sender, other);
        assert(stamped(envelopes, sender).drop_last() =~= stamped(envelopes.drop_last(), sender));
        assert(sent_by(stamped(envelopes, sender), sender) =~= stamped(envelopes, sender));
    } else {
        assert(sent_by(stamped(envelopes, sender), sender) =~= stamped(envelopes, sender));
    }
}

/// A receive gives no message of an actor that has no live connection.
proof fn lemma_absent_sends_nothing(links: Seq<LinkView>, sender: ActorId)
    requires
        !ids(links).contains(sender),
    ensures
        sent_by(recv_messages(links), sender) == Seq::<Message>::empty(),
    decreases links.len(),
{
    if links.len() > 0 {
        let shorter = links.drop_last();
        let last = links.last();
        assert(ids(shorter) =~= ids(links).drop_last());
        assert(ids(links)[links.len() - 1] == last.id);
        if ids(shorter).contains(sender) {
            let k = ids(shorter).index_of(sender);
            assert(ids(links)[k] == sender);
        }
        lemma_absent_sends_nothing(shorter, sender);
        if last.connection.fault() is None {
            lemma_sent_by_joined(
                recv_messages(shorter),
                stamped(last.connection.inbox(), last.id),
                sender,
            );
            lemma_sent_by_stamped(last.connection.inbox(), last.id, sender);
        }
    }
}

/// Picking by sender and picking by tag can be done in either order.
proof fn lemma_picks_commute(messages: Seq<Message>, sender: ActorId, tag: u128)
    ensures
        sent_by(carrying(messages, tag), sender) == carrying(sent_by(messages, sender), tag),
    decreases messages.len(),
{
    if messages.len() > 0 {
        lemma_picks_commute(messages.drop_last(), sender, tag);
        let last = messages.last();
        if last.envelope.tag == tag {
            assert(carrying(messages, tag).drop_last() =~= carrying(messages.drop_last(), tag));
        }
        if last.sender == sender {
            assert(sent_by(messages, sender).drop_last() =~= sent_by(
                messages.drop_last(),
                sender,
            ));
        }
    }
}

/// Messages keep the order of their stream. Of what a receive hands out,
/// the messages of one sender are the envelopes of that sender's
/// connection, in the order in which their frames arrived; and so the
/// messages of one sender under one tag, which is what the queue of the tag
/// holds of that sender, are those envelopes that carry the tag, in that
/// order.
pub proof fn lemma_order_kept(links: Seq<LinkView>, place: int, tag: u128)
    requires
        ids(links).no_duplicates(),
        0 <= place < links.len(),
        links[place].connection.fault() is None,
    ensures
        sent_by(recv_messages(links), links[place].id) == stamped(
            links[place].connection.inbox(),
            links[place].id,
        ),
        sent_by(carrying(recv_messages(links), tag), links[place].id) == carrying(
            stamped(links[place].connection.inbox(), links[place].id),
            tag,
        ),
    decreases links.len(),
{
    lemma_picks_commute(recv_messages(links), links[place].id, tag);
    let shorter = links.drop_last();
    let last = links.last();
    let sender = links[place].id;
    assert(ids(shorter) =~= ids(links).drop_last());
    if last.connection.fault() is None {
        lemma_sent_by_joined(
            recv_messages(shorter),
            stamped(last.connection.inbox(), last.id),
            sender,
        );
        lemma_sent_by_stamped(last.connection.inbox(), last.id, sender);
    }
    if place == links.len() - 1 {
        if ids(shorter).contains(sender) {
            let k = ids(shorter).index_of(sender);
            assert(ids(links)[k] == ids(links)[place]);
        }
        lemma_absent_sends_nothing(shorter, sender);
        assert(Seq::<Message>::empty() + stamped(last.connection.inbox(), last.id) =~= stamped(
            last.connection.inbox(),
            last.id,
        ));
    } else {
        assert(ids(links)[place] != ids(links)[links.len() - 1]);
        assert(shorter[place] == links[place]);
        lemma_order_kept(shorter, place, tag);
        assert(sent_by(recv_messages(shorter), sender) + Seq::<Message>::empty() =~= sent_by(
            recv_messages(shorter),
            sender,
        ));
    }
}

} // verus!
