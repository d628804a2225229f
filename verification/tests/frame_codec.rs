use frame_factor::networking::frame_codec::{
    decode, decode_stream, encode, Decoded, Drained, LENGTH_BYTES, MAX_BODY_BYTES, TAG_BYTES,
};
use frame_factor::networking::NetworkPayload;

const TAG: u128 = 0x9968f81b_59da_4292_8015_d6d4bbccb5c7;

fn envelope(uuid: u128, data: &[u8]) -> NetworkPayload {
    NetworkPayload::from_parts(uuid, data.to_vec())
}

fn frame_of(uuid: u128, data: &[u8]) -> Vec<u8> {
    encode(&envelope(uuid, data)).unwrap()
}

#[test]
fn encode_lays_out_length_tag_and_body() {
    let frame = frame_of(TAG, &[7, 8, 9]);
    let mut expected = vec![0, 0, 0, 19];
    expected.extend_from_slice(&[
        0x99, 0x68, 0xf8, 0x1b, 0x59, 0xda, 0x42, 0x92, 0x80, 0x15, 0xd6, 0xd4, 0xbb, 0xcc, 0xb5,
        0xc7,
    ]);
    expected.extend_from_slice(&[7, 8, 9]);
    assert_eq!(frame, expected);
}

#[test]
fn encode_of_an_empty_body_is_twenty_bytes() {
    let frame = frame_of(1, &[]);
    assert_eq!(frame.len(), LENGTH_BYTES + TAG_BYTES);
    assert_eq!(&frame[..4], &[0, 0, 0, 16]);
    assert_eq!(frame[19], 1);
}

#[test]
fn encode_writes_a_long_length_in_big_endian() {
    let body = vec![0xabu8; 0x0001_0203 - 16];
    let frame = frame_of(0, &body);
    assert_eq!(&frame[..4], &[0x00, 0x01, 0x02, 0x03]);
    assert_eq!(frame.len(), 4 + 0x0001_0203);
}

#[test]
fn the_longest_body_fills_the_length_field() {
    assert_eq!(MAX_BODY_BYTES, u32::MAX as usize - TAG_BYTES);
}

#[test]
fn decode_gives_back_what_encode_took() {
    let payload = envelope(TAG, b"hello");
    let frame = encode(&payload).unwrap();
    assert_eq!(decode(&frame), Decoded::Complete { payload, consumed: 25 });
}

#[test]
fn decode_consumes_one_frame_and_leaves_what_follows() {
    let mut stream = frame_of(TAG, &[1, 2]);
    let first = stream.len();
    stream.extend_from_slice(&frame_of(5, &[3]));
    assert_eq!(decode(&stream), Decoded::Complete { payload: envelope(TAG, &[1, 2]), consumed: first });
    assert_eq!(
        decode(&stream[first..]),
        Decoded::Complete { payload: envelope(5, &[3]), consumed: 21 }
    );
}

#[test]
fn decode_of_every_strict_prefix_is_incomplete() {
    let frame = frame_of(TAG, b"partial");
    for cut in 0..frame.len() {
        assert_eq!(decode(&frame[..cut]), Decoded::Incomplete, "cut at {}", cut);
    }
}

#[test]
fn decode_calls_a_whole_frame_without_room_for_a_tag_malformed() {
    assert_eq!(decode(&[0, 0, 0, 0]), Decoded::Malformed);
    assert_eq!(decode(&[0, 0, 0, 3, 1, 2, 3]), Decoded::Malformed);
    let mut short = vec![0, 0, 0, 15];
    short.extend_from_slice(&[0u8; 15]);
    assert_eq!(decode(&short), Decoded::Malformed);
}

#[test]
fn decode_waits_for_the_whole_frame_before_it_judges() {
    assert_eq!(decode(&[0, 0, 0, 3, 1, 2]), Decoded::Incomplete);
    assert_eq!(decode(&[0, 0, 0, 3, 1, 2, 3]), Decoded::Malformed);
}

#[test]
fn decode_stream_reads_every_whole_frame() {
    let mut stream = frame_of(1, &[1]);
    stream.extend_from_slice(&frame_of(2, &[]));
    stream.extend_from_slice(&frame_of(3, &[3, 3, 3]));
    let whole = stream.len();
    stream.extend_from_slice(&[0, 0, 0, 40, 9]);
    assert_eq!(
        decode_stream(&stream),
        Drained {
            payloads: vec![envelope(1, &[1]), envelope(2, &[]), envelope(3, &[3, 3, 3])],
            consumed: whole,
            malformed: false,
        }
    );
}

#[test]
fn decode_stream_of_nothing_is_nothing() {
    assert_eq!(decode_stream(&[]), Drained { payloads: vec![], consumed: 0, malformed: false });
}

#[test]
fn decode_stream_stops_at_a_malformed_frame() {
    let mut stream = frame_of(1, &[1]);
    let whole = stream.len();
    stream.extend_from_slice(&[0, 0, 0, 2, 5, 5]);
    stream.extend_from_slice(&frame_of(2, &[2]));
    assert_eq!(
        decode_stream(&stream),
        Drained { payloads: vec![envelope(1, &[1])], consumed: whole, malformed: true }
    );
}

#[test]
fn every_cut_of_a_stream_gives_the_same_envelopes() {
    let mut stream = frame_of(1, b"first");
    stream.extend_from_slice(&frame_of(2, b""));
    stream.extend_from_slice(&frame_of(3, b"third and last"));
    stream.extend_from_slice(&[0, 0]);
    let whole = decode_stream(&stream);
    assert_eq!(whole.payloads.len(), 3);
    for cut in 0..=stream.len() {
        let head = decode_stream(&stream[..cut]);
        assert!(!head.malformed);
        let mut rest = stream[head.consumed..cut].to_vec();
        rest.extend_from_slice(&stream[cut..]);
        let tail = decode_stream(&rest);
        let mut both = head.payloads;
        both.extend(tail.payloads);
        assert_eq!(both, whole.payloads, "cut at {}", cut);
        assert_eq!(head.consumed + tail.consumed, whole.consumed);
        assert_eq!(tail.malformed, whole.malformed);
    }
}
