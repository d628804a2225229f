//! Envelopes, and the inbound messages of one tick sorted by their tag.

use crate::networking::network_event::NetworkEvent;
use crate::networking::network_resource::{
    carrying,
    recv_events,
    recv_links,
    recv_messages,
    ActorId,
    ConnectionEvent,
    DirectoryView,
    NetworkResource,
};
use std::collections::HashMap;
use vstd::prelude::*;

verus! {

/// What a [`NetworkPayload`] holds: the tag that routes it and its body.
pub struct Envelope {
    pub tag: u128,
    pub body: Seq<u8>,
}

/// A payload sent through the network: a body of bytes under the tag of the
/// type that wrote it.
#[derive(Debug, Clone, PartialEq, Eq)]
pub struct NetworkPayload {
    pub uuid: u128,
    pub data: Vec<u8>,
}

impl View for NetworkPayload {
    type V = Envelope;

    open spec fn view(&self) -> Envelope {
        Envelope { tag: self.uuid, body: self.data@ }
    }
}

/// The body of an envelope that may be missing.
pub open spec fn opt_data(envelope: Option<NetworkPayload>) -> Option<Vec<u8>> {
    match envelope {
        Some(envelope) => Some(envelope.data),
        None => None,
    }
}

impl NetworkPayload {
    /// Writes `payload` into an envelope tagged `uuid`. Whether the value
    /// has a written form is for its type to say; the tag is `uuid` always.
    pub fn new<T: NetworkEvent>(payload: &T, uuid: u128) -> (envelope: Option<Self>)
        ensures
            call_ensures(T::encode, (payload,), opt_data(envelope)),
            envelope is Some ==> envelope->0.uuid == uuid,
    {
        match payload.encode() {
            Some(data) => Some(Self::from_parts(uuid, data)),
            None => None,
        }
    }

    /// The envelope with tag `uuid` and body `data`.
    pub fn from_parts(uuid: u128, data: Vec<u8>) -> (envelope: Self)
        ensures
            envelope.uuid == uuid,
            envelope.data == data,
    {
        Self { uuid, data }
    }
}

/// A [`NetworkPayload`] together with the actor that sent it.
#[derive(Debug, Clone, PartialEq, Eq)]
pub struct NetworkMessage {
    pub sender: ActorId,
    pub payload: NetworkPayload,
}

/// What a [`NetworkMessage`] holds.
pub struct Message {
    pub sender: ActorId,
    pub envelope: Envelope,
}

impl View for NetworkMessage {
    type V = Message;

    open spec fn view(&self) -> Message {
        Message { sender: self.sender, envelope: self.payload@ }
    }
}

/// What `messages` hold.
pub open spec fn contents(messages: Seq<NetworkMessage>) -> Seq<Message> {
    messages.map_values(|message: NetworkMessage| message@)
}

/// The messages received in the current tick, one queue per tag, each in
/// the order of arrival.
pub struct NetworkMessages {
    messages: HashMap<u128, Vec<NetworkMessage>>,
}

impl NetworkMessages {
    #[verifier::type_invariant]
    spec fn inv(self) -> bool {
        forall|uuid: u128, i: int|
            self.messages@.contains_key(uuid) && 0 <= i < self.messages@[uuid]@.len() ==> (
            #[trigger] self.messages@[uuid]@[i]).payload.uuid == uuid
    }

    /// The messages waiting under `uuid`, oldest first.
    pub closed spec fn queue(&self, uuid: u128) -> Seq<NetworkMessage> {
        if self.messages@.contains_key(uuid) {
            self.messages@[uuid]@
        } else {
            Seq::empty()
        }
    }

    /// No message under any tag.
    pub fn new() -> (messages: Self)
        ensures
            forall|uuid: u128| #[trigger] messages.queue(uuid) == Seq::<NetworkMessage>::empty(),
    {
        Self { messages: HashMap::new() }
    }

    /// Drops every message.
    pub fn clear(&mut self)
        ensures
            forall|uuid: u128| #[trigger]
                final(self).queue(uuid) == Seq::<NetworkMessage>::empty(),
    {
        self.messages = HashMap::new();
    }

    /// Appends `message` to the queue of its tag.
    pub fn add(&mut self, message: NetworkMessage)
        ensures
            final(self).queue(message.payload.uuid) == old(self).queue(message.payload.uuid).push(
                message,
            ),
            forall|uuid: u128|
                uuid != message.payload.uuid ==> #[trigger] final(self).queue(uuid) == old(
                    self,
                ).queue(uuid),
    {
        broadcast use vstd::std_specs::hash::group_hash_axioms;

        proof {
            use_type_invariant(&*self);
        }
        let uuid = message.payload.uuid;
        let mut sorted: HashMap<u128, Vec<NetworkMessage>> = HashMap::new();
        core::mem::swap(&mut self.messages, &mut sorted);
        let mut queue = match sorted.remove(&uuid) {
            Some(queue) => queue,
            None => Vec::new(),
        };
        queue.push(message);
        sorted.insert(uuid, queue);
        self.messages = sorted;
    }

    /// Takes the messages marked with `uuid` out, oldest first.
    pub fn take_messages(&mut self, uuid: &u128) -> (taken: Vec<NetworkMessage>)
        ensures
            taken@ == old(self).queue(*uuid),
            forall|i: int| 0 <= i < taken@.len() ==> (#[trigger] taken@[i]).payload.uuid == *uuid,
            final(self).queue(*uuid) == Seq::<NetworkMessage>::empty(),
            forall|other: u128|
                other != *uuid ==> #[trigger] final(self).queue(other) == old(self).queue(other),
    {
        broadcast use vstd::std_specs::hash::group_hash_axioms;

        proof {
            use_type_invariant(&*self);
        }
        let mut sorted: HashMap<u128, Vec<NetworkMessage>> = HashMap::new();
        core::mem::swap(&mut self.messages, &mut sorted);
        let taken = match sorted.remove(uuid) {
            Some(queue) => queue,
            None => Vec::new(),
        };
        self.messages = sorted;
        taken
    }
}

/// The receive phase of a tick. What the last tick left in `messages` is
/// dropped; every live connection of `net` is received from; each message
/// joins the queue of its tag, so that a queue holds the messages of its tag
/// in the order in which they were received. The events of the connections
/// that failed are returned, and those connections are live no more.
pub fn network_receive_system(net: &mut NetworkResource, messages: &mut NetworkMessages) -> (events:
    Vec<ConnectionEvent>)
    ensures
        final(net)@.wf(),
        final(net)@.succeeds(old(net)@),
        final(net)@ == (DirectoryView {
            links: recv_links(old(net)@.links),
            next: old(net)@.next,
            given: old(net)@.given,
            server_id: old(net)@.server_id,
            local_id: old(net)@.local_id,
        }),
        events@ == recv_events(old(net)@.links),
        forall|tag: u128|
            contents(#[trigger] final(messages).queue(tag)) == carrying(
                recv_messages(old(net)@.links),
                tag,
            ),
{
    messages.clear();
    let (received, events) = net.recv();
    let ghost all = received@;
    assert(contents(all).take(0) =~= Seq::empty());
    assert forall|tag: u128| contents(#[trigger] messages.queue(tag)) == carrying(
        contents(all).take(0),
        tag,
    ) by {
        assert(contents(messages.queue(tag)) =~= Seq::empty());
    }
    for message in it: received
        invariant
            it.seq() == all,
            forall|tag: u128|
                contents(#[trigger] messages.queue(tag)) == carrying(
                    contents(all).take(it.index() as int),
                    tag,
                ),
    {
        let ghost seen = it.index() as int;
        let ghost before = *messages;
        messages.add(message);
        proof {
            assert(contents(all).take(seen + 1).drop_last() =~= contents(all).take(seen));
            assert(contents(all).take(seen + 1).last() == message@);
            assert forall|tag: u128| contents(#[trigger] messages.queue(tag)) == carrying(
                contents(all).take(seen + 1),
                tag,
            ) by {
                if tag == message.payload.uuid {
                    assert(contents(before.queue(tag).push(message)) =~= contents(
                        before.queue(tag),
                    ).push(message@));
                } else {
                    assert(messages.queue(tag) == before.queue(tag));
                }
            }
        }
    }
    assert(contents(all).take(all.len() as int) =~= contents(all));
    events
}

} // verus!
