use frame_factor::networking::frame_codec::encode;
use frame_factor::networking::{
    network_event_sender_system, network_event_system, network_receive_system, ActorId, Broadcast,
    Connection, ConnectionError, ConnectionEvent, NetworkEvent, NetworkEventSender, NetworkEvents,
    NetworkMessage, NetworkMessages, NetworkPayload, NetworkResource, ReadOutcome, SendError,
};

#[derive(Debug, Clone, PartialEq)]
struct Chat {
    line: String,
}

impl NetworkEvent for Chat {
    fn type_tag() -> u128 {
        0x219b96a9_7102_4102_9c5d_ca9e7e6b3dbb
    }

    fn encode(&self) -> Option<Vec<u8>> {
        if self.line.is_empty() {
            None
        } else {
            bincode::serialize(&self.line).ok()
        }
    }

    fn decode(bytes: &Vec<u8>) -> Option<Self> {
        bincode::deserialize::<String>(bytes).ok().map(|line| Chat { line })
    }
}

fn chat(line: &str) -> Chat {
    Chat { line: String::from(line) }
}

fn chat_message(sender: u32, line: &str) -> NetworkMessage {
    NetworkMessage {
        sender: ActorId(sender),
        payload: NetworkPayload::new(&chat(line), Chat::type_tag()).unwrap(),
    }
}

#[test]
fn a_payload_carries_the_tag_it_was_given_and_the_written_value() {
    let payload = NetworkPayload::new(&chat("hi"), 77).unwrap();
    assert_eq!(payload.uuid, 77);
    assert_eq!(payload.data, vec![2, 0, 0, 0, 0, 0, 0, 0, b'h', b'i']);
    assert_eq!(NetworkPayload::new(&chat(""), 77), None);
}

#[test]
fn a_value_comes_back_through_envelope_and_frame() {
    for line in ["a", "hello world", "\u{1F980} crab"] {
        let sent = chat(line);
        let payload = NetworkPayload::new(&sent, Chat::type_tag()).unwrap();
        let frame = encode(&payload).unwrap();
        let mut connection = Connection::new();
        connection.on_read(ReadOutcome::Data(frame));
        let received = connection.recv().unwrap();
        assert_eq!(received.len(), 1);
        assert_eq!(received[0].uuid, Chat::type_tag());
        assert_eq!(Chat::decode(&received[0].data), Some(sent));
    }
}

#[test]
fn events_wait_in_the_order_they_were_pushed() {
    let mut events: NetworkEvents<u8> = NetworkEvents::new();
    assert_eq!(events.take(), vec![]);
    events.push(ActorId(2), 20);
    events.push(ActorId(1), 10);
    events.push(ActorId(2), 21);
    assert_eq!(events.take(), vec![(ActorId(2), 20), (ActorId(1), 10), (ActorId(2), 21)]);
    assert_eq!(events.take(), vec![]);
}

#[test]
fn clear_drops_the_events() {
    let mut events: NetworkEvents<u8> = NetworkEvents::new();
    events.push(ActorId(1), 1);
    events.clear();
    assert_eq!(events.take(), vec![]);
}

#[test]
fn send_enqueues_under_the_tag_of_the_type() {
    let mut sender = NetworkEventSender::new();
    assert_eq!(sender.send(&chat("one")), Ok(()));
    assert_eq!(sender.send(&chat("two")), Ok(()));
    assert_eq!(
        sender.take(),
        vec![
            NetworkPayload::new(&chat("one"), Chat::type_tag()).unwrap(),
            NetworkPayload::new(&chat("two"), Chat::type_tag()).unwrap(),
        ]
    );
    assert_eq!(sender.take(), vec![]);
}

#[test]
fn send_refuses_a_value_without_a_written_form() {
    let mut sender = NetworkEventSender::new();
    assert_eq!(sender.send(&chat("kept")), Ok(()));
    assert_eq!(sender.send(&chat("")), Err(SendError::Unwritable));
    assert_eq!(sender.take().len(), 1);
}

#[test]
fn send_payload_enqueues_as_it_is() {
    let mut sender = NetworkEventSender::new();
    assert_eq!(sender.send_payload(NetworkPayload::from_parts(3, vec![9])), Ok(()));
    assert_eq!(sender.take(), vec![NetworkPayload::from_parts(3, vec![9])]);
}

#[test]
fn the_event_phase_reads_the_messages_of_its_type() {
    let mut messages = NetworkMessages::new();
    messages.add(chat_message(1, "first"));
    messages.add(NetworkMessage {
        sender: ActorId(1),
        payload: NetworkPayload::from_parts(99, vec![1]),
    });
    messages.add(chat_message(2, "second"));
    messages.add(chat_message(1, "third"));
    let mut events: NetworkEvents<Chat> = NetworkEvents::new();
    events.push(ActorId(7), chat("left over"));
    network_event_system(&mut messages, &mut events);
    assert_eq!(
        events.take(),
        vec![
            (ActorId(1), chat("first")),
            (ActorId(2), chat("second")),
            (ActorId(1), chat("third")),
        ]
    );
    assert_eq!(messages.take_messages(&Chat::type_tag()), vec![]);
    assert_eq!(messages.take_messages(&99).len(), 1);
}

#[test]
fn the_event_phase_drops_what_was_not_taken() {
    let mut messages = NetworkMessages::new();
    let mut events: NetworkEvents<Chat> = NetworkEvents::new();
    messages.add(chat_message(1, "tick one"));
    network_event_system(&mut messages, &mut events);
    network_event_system(&mut messages, &mut events);
    assert_eq!(events.take(), vec![]);
}

#[test]
fn the_event_phase_skips_a_body_that_its_type_cannot_read() {
    let mut messages = NetworkMessages::new();
    messages.add(chat_message(1, "good"));
    messages.add(NetworkMessage {
        sender: ActorId(2),
        payload: NetworkPayload::from_parts(Chat::type_tag(), vec![0xff]),
    });
    messages.add(chat_message(3, "also good"));
    let mut events: NetworkEvents<Chat> = NetworkEvents::new();
    events.refill(Chat::type_tag(), &mut messages);
    assert_eq!(events.take(), vec![(ActorId(1), chat("good")), (ActorId(3), chat("also good"))]);
    assert_eq!(events.take_unread(), vec![ActorId(2)]);
    assert_eq!(events.take_unread(), vec![]);
}

#[test]
fn an_unreadable_body_ends_the_connection_of_its_sender_only() {
    let mut net = NetworkResource::empty();
    net.add_client(Connection::new(), NetworkPayload::from_parts(0, vec![])).unwrap();
    net.add_client(Connection::new(), NetworkPayload::from_parts(0, vec![])).unwrap();
    let bad = NetworkPayload::from_parts(Chat::type_tag(), vec![0xff]);
    net.on_read(ActorId(1), ReadOutcome::Data(encode(&bad).unwrap()));
    let good = NetworkPayload::new(&chat("fine"), Chat::type_tag()).unwrap();
    net.on_read(ActorId(2), ReadOutcome::Data(encode(&good).unwrap()));
    let mut messages = NetworkMessages::new();
    let mut events: NetworkEvents<Chat> = NetworkEvents::new();
    assert_eq!(network_receive_system(&mut net, &mut messages), vec![]);
    network_event_system(&mut messages, &mut events);
    assert_eq!(events.take(), vec![(ActorId(2), chat("fine"))]);
    for sender in events.take_unread() {
        net.on_unreadable(sender);
    }
    net.on_unreadable(ActorId(9));
    assert_eq!(
        network_receive_system(&mut net, &mut messages),
        vec![ConnectionEvent::Disconnected {
            id: ActorId(1),
            error: ConnectionError::MalformedFrame
        }]
    );
    assert_eq!(net.connection_ids(), vec![ActorId(2)]);
}

#[test]
fn the_flush_frames_every_payload_for_every_peer() {
    let mut net = NetworkResource::empty();
    net.add_client(Connection::new(), NetworkPayload::from_parts(0, vec![])).unwrap();
    net.add_client(Connection::new(), NetworkPayload::from_parts(0, vec![])).unwrap();
    let mut sender = NetworkEventSender::new();
    sender.send(&chat("one")).unwrap();
    sender.send(&chat("two")).unwrap();
    let out = network_event_sender_system(&mut sender, &net);
    let frame = |line: &str| {
        encode(&NetworkPayload::new(&chat(line), Chat::type_tag()).unwrap()).unwrap()
    };
    assert_eq!(
        out,
        vec![
            Broadcast { frame: frame("one"), peers: vec![ActorId(1), ActorId(2)] },
            Broadcast { frame: frame("two"), peers: vec![ActorId(1), ActorId(2)] },
        ]
    );
    assert_eq!(network_event_sender_system(&mut sender, &net), vec![]);
}
