//! Typed events. Each type that travels is a [`NetworkEvent`]; what arrives
//! of it in a tick waits in [`NetworkEvents`], and what is to leave waits in
//! the [`NetworkEventSender`] until the tick's flush.

use crate::networking::frame_codec::{frame, MAX_BODY_BYTES};
use crate::networking::network_payload::{NetworkMessage, NetworkMessages, NetworkPayload};
use crate::networking::network_resource::{open_ids, ActorId, Broadcast, NetworkResource};
use vstd::prelude::*;

verus! {

/// A type whose values travel between peers under a tag of their own.
pub trait NetworkEvent: Sized + Send + Sync + 'static {
    /// The tag of this type: the same on every peer, and shared with no
    /// other type.
    fn type_tag() -> u128;

    /// Writes a value as bytes, or `None` where it has no written form.
    fn encode(&self) -> Option<Vec<u8>>;

    /// Reads a value back from bytes, or `None` where they spell none.
    fn decode(bytes: &Vec<u8>) -> Option<Self>;
}

/// Whether `events` and `unread` are what reading `messages` gives: one
/// event for each message whose body its type could read, under the sender
/// of its message, and for each other message its sender in `unread`; both
/// in the order of the messages.
pub open spec fn decoded_from<T: NetworkEvent>(
    messages: Seq<NetworkMessage>,
    events: Seq<(ActorId, T)>,
    unread: Seq<ActorId>,
) -> bool
    decreases messages.len(),
{
    if messages.len() == 0 {
        events.len() == 0 && unread.len() == 0
    } else {
        let message = messages.last();
        ||| {
            &&& call_ensures(T::decode, (&message.payload.data,), None::<T>)
            &&& unread.len() > 0
            &&& unread.last() == message.sender
            &&& decoded_from::<T>(messages.drop_last(), events, unread.drop_last())
        }
        ||| {
            &&& events.len() > 0
            &&& events.last().0 == message.sender
            &&& call_ensures(T::decode, (&message.payload.data,), Some(events.last().1))
            &&& decoded_from::<T>(messages.drop_last(), events.drop_last(), unread)
        }
    }
}

/// The events of one type that arrived in the current tick, each with the
/// actor that sent it, oldest first; and the senders of the messages of the
/// type that could not be read.
pub struct NetworkEvents<T> {
    events: Vec<(ActorId, T)>,
    unread: Vec<ActorId>,
}

impl<T> View for NetworkEvents<T> {
    type V = Seq<(ActorId, T)>;

    closed spec fn view(&self) -> Seq<(ActorId, T)> {
        self.events@
    }
}

impl<T> NetworkEvents<T> {
    /// The senders of the messages that could not be read, oldest first.
    pub closed spec fn unread(&self) -> Seq<ActorId> {
        self.unread@
    }

    /// No events.
    pub fn new() -> (events: Self)
        ensures
            events@ == Seq::<(ActorId, T)>::empty(),
            events.unread() == Seq::<ActorId>::empty(),
    {
        Self { events: Vec::new(), unread: Vec::new() }
    }

    /// Drops every event, and every sender of an unread message.
    pub fn clear(&mut self)
        ensures
            final(self)@ == Seq::<(ActorId, T)>::empty(),
            final(self).unread() == Seq::<ActorId>::empty(),
    {
        self.events.clear();
        self.unread.clear();
    }

    /// Appends `event`, which `sender` sent.
    pub fn push(&mut self, sender: ActorId, event: T)
        ensures
            final(self)@ == old(self)@.push((sender, event)),
            final(self).unread() == old(self).unread(),
    {
        self.events.push((sender, event));
    }

    /// Takes every event out, oldest first.
    pub fn take(&mut self) -> (taken: Vec<(ActorId, T)>)
        ensures
            taken@ == old(self)@,
            final(self)@ == Seq::<(ActorId, T)>::empty(),
            final(self).unread() == old(self).unread(),
    {
        let mut taken: Vec<(ActorId, T)> = Vec::new();
        core::mem::swap(&mut self.events, &mut taken);
        taken
    }

    /// Takes out the senders of the messages that could not be read, oldest
    /// first: one entry for each such message. A body that its type cannot
    /// read is a malformed frame, and ends the connection of its sender
    /// ([`NetworkResource::on_unreadable`]).
    pub fn take_unread(&mut self) -> (senders: Vec<ActorId>)
        ensures
            senders@ == old(self).unread(),
            final(self).unread() == Seq::<ActorId>::empty(),
            final(self)@ == old(self)@,
    {
        let mut senders: Vec<ActorId> = Vec::new();
        core::mem::swap(&mut self.unread, &mut senders);
        senders
    }
}

impl<T: NetworkEvent> NetworkEvents<T> {
    /// Starts the tick for this type: drops what is left of the last tick,
    /// takes the messages under `tag` out of `messages` and reads each. A
    /// message that cannot be read gives no event; its sender is kept for
    /// [`NetworkEvents::take_unread`].
    pub fn refill(&mut self, tag: u128, messages: &mut NetworkMessages)
        ensures
            decoded_from::<T>(old(messages).queue(tag), final(self)@, final(self).unread()),
            final(messages).queue(tag) == Seq::<NetworkMessage>::empty(),
            forall|other: u128|
                other != tag ==> #[trigger] final(messages).queue(other) == old(messages).queue(
                    other,
                ),
    {
        self.clear();
        let taken = messages.take_messages(&tag);
        let ghost all = taken@;
        assert(all.take(0) =~= Seq::empty());
        for message in it: taken
            invariant
                it.seq() == all,
                decoded_from::<T>(all.take(it.index() as int), self@, self.unread()),
        {
            let ghost seen = it.index() as int;
            let ghost before = self@;
            let ghost missed = self.unread();
            proof {
                assert(all.take(seen + 1).drop_last() =~= all.take(seen));
                assert(all.take(seen + 1).last() == message);
            }
            match T::decode(&message.payload.data) {
                Some(event) => {
                    self.push(message.sender, event);
                    assert(self@.drop_last() =~= before);
                },
                None => {
                    self.unread.push(message.sender);
                    assert(self.unread().drop_last() =~= missed);
                },
            }
        }
        assert(all.take(all.len() as int) =~= all);
    }
}

/// Starts the tick for the events of type `T`: the queue holds what arrived
/// of them since the last tick, read from the messages under the tag of `T`,
/// and those messages are taken. The senders of the messages that could not
/// be read wait in the queue too, to have their connections ended.
pub fn network_event_system<T: NetworkEvent>(
    messages: &mut NetworkMessages,
    network_events: &mut NetworkEvents<T>,
)
    ensures
        exists|tag: u128|
            {
                &&& #[trigger] call_ensures(T::type_tag, (), tag)
                &&& decoded_from::<T>(
                    old(messages).queue(tag),
                    final(network_events)@,
                    final(network_events).unread(),
                )
                &&& final(messages).queue(tag) == Seq::<NetworkMessage>::empty()
                &&& forall|other: u128|
                    other != tag ==> #[trigger] final(messages).queue(other) == old(
                        messages,
                    ).queue(other)
            },
{
    let tag = T::type_tag();
    network_events.refill(tag, messages);
}

/// Why a value was not taken up for sending.
#[derive(Debug, Clone, Copy, PartialEq, Eq)]
pub enum SendError {
    /// The value has no written form.
    Unwritable,
    /// The body is longer than a frame can hold.
    BodyTooLong,
}

/// The payloads that wait to be sent to every peer at the end of the tick.
pub struct NetworkEventSender {
    payloads: Vec<NetworkPayload>,
}

impl View for NetworkEventSender {
    type V = Seq<NetworkPayload>;

    closed spec fn view(&self) -> Seq<NetworkPayload> {
        self.payloads@
    }
}

impl NetworkEventSender {
    #[verifier::type_invariant]
    spec fn inv(self) -> bool {
        forall|i: int| 0 <= i < self.payloads@.len() ==> (#[trigger] self.payloads@[i]).data@.len()
            <= MAX_BODY_BYTES
    }

    /// Nothing waits.
    pub fn new() -> (sender: Self)
        ensures
            sender@ == Seq::<NetworkPayload>::empty(),
    {
        Self { payloads: Vec::new() }
    }

    /// Takes every waiting payload out, oldest first. Each fits in a frame.
    pub fn take(&mut self) -> (taken: Vec<NetworkPayload>)
        ensures
            taken@ == old(self)@,
            final(self)@ == Seq::<NetworkPayload>::empty(),
            forall|i: int| 0 <= i < taken@.len() ==> (#[trigger] taken@[i]).data@.len()
                <= MAX_BODY_BYTES,
    {
        proof {
            use_type_invariant(&*self);
        }
        let mut taken: Vec<NetworkPayload> = Vec::new();
        core::mem::swap(&mut self.payloads, &mut taken);
        taken
    }

    /// Lets `payload` wait for the flush, behind those that wait already. A
    /// body that no frame can hold is refused.
    pub fn send_payload(&mut self, payload: NetworkPayload) -> (res: Result<(), SendError>)
        ensures
            payload.data@.len() <= MAX_BODY_BYTES ==> res is Ok && final(self)@ == old(self)@.push(
                payload,
            ),
            payload.data@.len() > MAX_BODY_BYTES ==> res == Err::<(), SendError>(
                SendError::BodyTooLong,
            ) && final(self)@ == old(self)@,
    {
        proof {
            use_type_invariant(&*self);
        }
        if payload.data.len() > MAX_BODY_BYTES {
            return Err(SendError::BodyTooLong);
        }
        let mut payloads: Vec<NetworkPayload> = Vec::new();
        core::mem::swap(&mut self.payloads, &mut payloads);
        payloads.push(payload);
        self.payloads = payloads;
        Ok(())
    }

    /// Writes `event` and lets it wait for the flush under the tag of its
    /// type. The tag and the body are what the type gives for them; where it
    /// gives no body, or one that no frame can hold, nothing changes.
    pub fn send<T: NetworkEvent>(&mut self, event: &T) -> (res: Result<(), SendError>)
        ensures
            res is Err ==> final(self)@ == old(self)@,
            res is Ok ==> {
                let taken = final(self)@.last();
                &&& final(self)@.len() == old(self)@.len() + 1
                &&& final(self)@.drop_last() == old(self)@
                &&& call_ensures(T::type_tag, (), taken.uuid)
                &&& call_ensures(T::encode, (event,), Some(taken.data))
                &&& taken.data@.len() <= MAX_BODY_BYTES
            },
            res == Err::<(), SendError>(SendError::Unwritable) ==> call_ensures(
                T::encode,
                (event,),
                None::<Vec<u8>>,
            ),
            res == Err::<(), SendError>(SendError::BodyTooLong) ==> exists|data: Vec<u8>|
                #[trigger] call_ensures(T::encode, (event,), Some(data)) && data@.len()
                    > MAX_BODY_BYTES,
    {
        let data = match event.encode() {
            Some(data) => data,
            None => {
                return Err(SendError::Unwritable);
            },
        };
        let uuid = T::type_tag();
        let res = self.send_payload(NetworkPayload { uuid, data });
        proof {
            if res is Ok {
                assert(self@.drop_last() =~= old(self)@);
            }
        }
        res
    }
}

/// Flushes what waits in `sender`: every payload, oldest first, becomes one
/// frame that goes to every peer of `net` whose connection has not ended.
pub fn network_event_sender_system(sender: &mut NetworkEventSender, net: &NetworkResource) -> (out:
    Vec<Broadcast>)
    ensures
        final(sender)@ == Seq::<NetworkPayload>::empty(),
        out@.len() == old(sender)@.len(),
        forall|i: int|
            0 <= i < out@.len() ==> (#[trigger] out@[i]).frame@ == frame(old(sender)@[i]@)
                && out@[i].peers@ == open_ids(net@.links),
{
    let payloads = sender.take();
    let ghost all = payloads@;
    let mut out: Vec<Broadcast> = Vec::new();
    for payload in it: payloads
        invariant
            it.seq() == all,
            forall|i: int| 0 <= i < all.len() ==> (#[trigger] all[i]).data@.len() <= MAX_BODY_BYTES,
            out@.len() == it.index(),
            forall|i: int|
                0 <= i < out@.len() ==> (#[trigger] out@[i]).frame@ == frame(all[i]@)
                    && out@[i].peers@ == open_ids(net@.links),
    {
        assert(payload == all[it.index() as int]);
        match net.send(&payload) {
            Ok(broadcast) => {
                out.push(broadcast);
            },
            Err(_) => {},
        }
    }
    out
}

} // verus!
