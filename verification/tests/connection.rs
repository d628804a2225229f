use frame_factor::networking::frame_codec::encode;
use frame_factor::networking::{
    Connection, ConnectionError, NetworkPayload, ReadOutcome, WriteOutcome,
};

fn envelope(uuid: u128, data: &[u8]) -> NetworkPayload {
    NetworkPayload::from_parts(uuid, data.to_vec())
}

fn frame_of(uuid: u128, data: &[u8]) -> Vec<u8> {
    encode(&envelope(uuid, data)).unwrap()
}

#[test]
fn a_new_connection_has_nothing_to_receive() {
    let mut connection = Connection::new();
    assert!(!connection.has_failed());
    assert_eq!(connection.recv(), Ok(vec![]));
    assert_eq!(connection.recv_one(), Ok(None));
}

#[test]
fn data_asks_for_another_read_and_would_block_does_not() {
    let mut connection = Connection::new();
    assert!(connection.on_read(ReadOutcome::Data(vec![0, 0])));
    assert!(connection.on_read(ReadOutcome::Data(vec![])));
    assert!(!connection.on_read(ReadOutcome::WouldBlock));
    assert!(!connection.has_failed());
}

#[test]
fn recv_hands_out_whole_frames_in_order_and_keeps_the_rest() {
    let mut connection = Connection::new();
    let mut bytes = frame_of(1, b"a");
    bytes.extend_from_slice(&frame_of(2, b"b"));
    let third = frame_of(3, b"c");
    bytes.extend_from_slice(&third[..7]);
    connection.on_read(ReadOutcome::Data(bytes));
    assert_eq!(connection.recv(), Ok(vec![envelope(1, b"a"), envelope(2, b"b")]));
    assert_eq!(connection.recv(), Ok(vec![]));
    connection.on_read(ReadOutcome::Data(third[7..].to_vec()));
    assert_eq!(connection.recv(), Ok(vec![envelope(3, b"c")]));
}

#[test]
fn a_stream_fed_byte_by_byte_gives_the_same_payloads() {
    let mut stream = frame_of(1, b"one");
    stream.extend_from_slice(&frame_of(2, b"two"));
    stream.extend_from_slice(&frame_of(3, b""));
    let mut whole = Connection::new();
    whole.on_read(ReadOutcome::Data(stream.clone()));
    let expected = whole.recv().unwrap();
    assert_eq!(expected.len(), 3);
    let mut slow = Connection::new();
    let mut got = Vec::new();
    for byte in stream {
        slow.on_read(ReadOutcome::Data(vec![byte]));
        got.extend(slow.recv().unwrap());
    }
    assert_eq!(got, expected);
}

#[test]
fn a_stream_cut_anywhere_gives_the_same_payloads() {
    let mut stream = frame_of(7, b"seven");
    stream.extend_from_slice(&frame_of(8, b"eight"));
    for cut in 0..=stream.len() {
        let mut connection = Connection::new();
        connection.on_read(ReadOutcome::Data(stream[..cut].to_vec()));
        let mut got = connection.recv().unwrap();
        connection.on_read(ReadOutcome::Data(stream[cut..].to_vec()));
        got.extend(connection.recv().unwrap());
        assert_eq!(got, vec![envelope(7, b"seven"), envelope(8, b"eight")], "cut at {}", cut);
    }
}

#[test]
fn a_malformed_frame_ends_the_connection_and_hands_out_nothing() {
    let mut connection = Connection::new();
    let mut bytes = frame_of(1, b"good");
    bytes.extend_from_slice(&[0, 0, 0, 1, 9]);
    connection.on_read(ReadOutcome::Data(bytes));
    assert_eq!(connection.recv(), Err(ConnectionError::MalformedFrame));
    assert!(connection.has_failed());
    assert_eq!(connection.recv(), Err(ConnectionError::MalformedFrame));
}

#[test]
fn the_end_of_the_stream_ends_the_connection() {
    let mut connection = Connection::new();
    connection.on_read(ReadOutcome::Data(frame_of(1, b"late")));
    assert!(!connection.on_read(ReadOutcome::Closed));
    assert_eq!(connection.recv(), Err(ConnectionError::Closed));
}

#[test]
fn a_failed_read_ends_the_connection_with_the_transports_words() {
    let mut connection = Connection::new();
    assert!(!connection.on_read(ReadOutcome::Failed(String::from("connection reset"))));
    assert_eq!(connection.recv(), Err(ConnectionError::Transport(String::from("connection reset"))));
    assert_eq!(
        connection.recv_one(),
        Err(ConnectionError::Transport(String::from("connection reset")))
    );
}

#[test]
fn nothing_changes_a_connection_that_has_ended() {
    let mut connection = Connection::new();
    connection.on_read(ReadOutcome::Closed);
    assert!(!connection.on_read(ReadOutcome::Data(frame_of(1, b"x"))));
    assert!(!connection.on_read(ReadOutcome::Failed(String::from("later"))));
    connection.on_write(10, WriteOutcome::Failed(String::from("later")));
    assert_eq!(connection.recv(), Err(ConnectionError::Closed));
}

#[test]
fn a_whole_write_keeps_the_connection() {
    let mut connection = Connection::new();
    connection.on_write(25, WriteOutcome::Wrote(25));
    assert!(!connection.has_failed());
}

#[test]
fn a_short_write_ends_the_connection() {
    let mut connection = Connection::new();
    connection.on_write(25, WriteOutcome::Wrote(24));
    assert_eq!(connection.recv(), Err(ConnectionError::ShortWrite));
}

#[test]
fn a_write_that_would_wait_ends_the_connection() {
    let mut connection = Connection::new();
    connection.on_write(25, WriteOutcome::WouldBlock);
    assert_eq!(connection.recv(), Err(ConnectionError::ShortWrite));
}

#[test]
fn a_failed_write_ends_the_connection() {
    let mut connection = Connection::new();
    connection.on_write(25, WriteOutcome::Failed(String::from("broken pipe")));
    assert_eq!(connection.recv(), Err(ConnectionError::Transport(String::from("broken pipe"))));
}

#[test]
fn recv_one_takes_one_frame_at_a_time() {
    let mut connection = Connection::new();
    let greeting = frame_of(42, b"hi");
    connection.on_read(ReadOutcome::Data(greeting[..10].to_vec()));
    assert_eq!(connection.recv_one(), Ok(None));
    let mut rest = greeting[10..].to_vec();
    rest.extend_from_slice(&frame_of(43, b"next"));
    connection.on_read(ReadOutcome::Data(rest));
    assert_eq!(connection.recv_one(), Ok(Some(envelope(42, b"hi"))));
    assert_eq!(connection.recv(), Ok(vec![envelope(43, b"next")]));
}

#[test]
fn recv_one_fails_on_a_malformed_first_frame() {
    let mut connection = Connection::new();
    connection.on_read(ReadOutcome::Data(vec![0, 0, 0, 0]));
    assert_eq!(connection.recv_one(), Err(ConnectionError::MalformedFrame));
    assert!(connection.has_failed());
}

#[test]
fn an_unreadable_body_ends_the_connection() {
    let mut connection = Connection::new();
    connection.on_unreadable();
    assert_eq!(connection.recv(), Err(ConnectionError::MalformedFrame));
    let mut closed = Connection::new();
    closed.on_read(ReadOutcome::Closed);
    closed.on_unreadable();
    assert_eq!(closed.recv(), Err(ConnectionError::Closed));
}

#[test]
fn send_gives_the_frame_to_write() {
    let connection = Connection::new();
    let payload = envelope(3, b"out");
    assert_eq!(connection.send(&payload), encode(&payload));
    assert_eq!(connection.send(&payload).unwrap().len(), 23);
}

#[test]
fn a_connection_error_can_be_copied() {
    let error = ConnectionError::Transport(String::from("why"));
    assert_eq!(error.duplicate(), error);
    assert_eq!(ConnectionError::ShortWrite.duplicate(), ConnectionError::ShortWrite);
}
