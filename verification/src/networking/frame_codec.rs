//! The frame: how one envelope is laid out on a byte stream.
//!
//! A frame is a length of four bytes, most significant first, followed by
//! that many bytes: the sixteen bytes of the tag, most significant first,
//! and then the body. A stream is frame after frame with nothing between.

use crate::networking::byte_order::{
    be_bytes,
    be_value,
    lemma_be_bytes_len,
    lemma_be_bytes_of_value,
    lemma_be_value_bound,
    lemma_be_value_of_bytes,
    lemma_radix_values,
    read_be,
    write_be,
};
use crate::networking::network_payload::{Envelope, NetworkPayload};
use vstd::prelude::*;
use vstd::slice::{slice_subrange, slice_to_vec};

verus! {

/// The width of the length field that starts a frame.
pub const LENGTH_BYTES: usize = 4;

/// The width of the tag, which follows the length field.
pub const TAG_BYTES: usize = 16;

/// The longest body whose frame the length field can describe: sixteen
/// bytes less than the greatest number of four bytes.
pub const MAX_BODY_BYTES: usize = 4294967279;

/// Why an envelope has no frame.
#[derive(Clone, Copy, PartialEq, Eq, Debug)]
pub enum FrameError {
    /// The body is longer than [`MAX_BODY_BYTES`].
    BodyTooLong,
}

/// What the start of a byte stream holds.
pub enum Scan {
    /// A whole frame of `consumed` bytes that holds `envelope`.
    Complete { envelope: Envelope, consumed: nat },
    /// The beginning of a frame; the rest has not arrived.
    Incomplete,
    /// A whole frame that is too short to hold a tag.
    Malformed,
}

/// What [`decode`] found at the start of a buffer.
#[derive(Debug, PartialEq, Eq)]
pub enum Decoded {
    /// A whole frame of `consumed` bytes that holds `payload`.
    Complete { payload: NetworkPayload, consumed: usize },
    /// The beginning of a frame; the rest has not arrived.
    Incomplete,
    /// A whole frame that is too short to hold a tag.
    Malformed,
}

impl View for Decoded {
    type V = Scan;

    open spec fn view(&self) -> Scan {
        match self {
            Decoded::Complete { payload, consumed } => Scan::Complete {
                envelope: payload@,
                consumed: *consumed as nat,
            },
            Decoded::Incomplete => Scan::Incomplete,
            Decoded::Malformed => Scan::Malformed,
        }
    }
}

/// The frame of `envelope`.
pub open spec fn frame(envelope: Envelope) -> Seq<u8> {
    be_bytes((TAG_BYTES + envelope.body.len()) as nat, LENGTH_BYTES as nat) + be_bytes(
        envelope.tag as nat,
        TAG_BYTES as nat,
    ) + envelope.body
}

/// The length that the first four bytes of `bytes` announce.
pub open spec fn announced(bytes: Seq<u8>) -> nat {
    be_value(bytes.subrange(0, LENGTH_BYTES as int))
}

/// What stands at the start of `bytes`. The length field is only looked at:
/// until every byte that it announces is there, the frame is incomplete,
/// whatever the length says.
pub open spec fn scan_frame(bytes: Seq<u8>) -> Scan {
    if bytes.len() < LENGTH_BYTES {
        Scan::Incomplete
    } else if bytes.len() < LENGTH_BYTES + announced(bytes) {
        Scan::Incomplete
    } else if announced(bytes) < TAG_BYTES {
        Scan::Malformed
    } else {
        Scan::Complete {
            envelope: Envelope {
                tag: be_value(
                    bytes.subrange(LENGTH_BYTES as int, LENGTH_BYTES + TAG_BYTES),
                ) as u128,
                body: bytes.subrange(LENGTH_BYTES + TAG_BYTES, LENGTH_BYTES + announced(bytes)),
            },
            consumed: (LENGTH_BYTES + announced(bytes)) as nat,
        }
    }
}

/// The frame of `payload`, or the reason why it has none.
pub fn encode(payload: &NetworkPayload) -> (res: Result<Vec<u8>, FrameError>)
    ensures
        payload.data@.len() <= MAX_BODY_BYTES ==> res is Ok && res->Ok_0@ == frame(payload@),
        payload.data@.len() > MAX_BODY_BYTES ==> res == Err::<Vec<u8>, FrameError>(
            FrameError::BodyTooLong,
        ),
{
    if payload.data.len() > MAX_BODY_BYTES {
        return Err(FrameError::BodyTooLong);
    }
    let length: usize = TAG_BYTES + payload.data.len();
    let mut bytes = write_be(length as u128, LENGTH_BYTES);
    let mut tag = write_be(payload.uuid, TAG_BYTES);
    bytes.append(&mut tag);
    bytes.extend_from_slice(payload.data.as_slice());
    Ok(bytes)
}

/// Looks for a frame at the start of `bytes` and reads it if it is whole.
pub fn decode(bytes: &[u8]) -> (decoded: Decoded)
    ensures
        decoded@ == scan_frame(bytes@),
{
    if bytes.len() < LENGTH_BYTES {
        return Decoded::Incomplete;
    }
    let announced_length: u128 = read_be(slice_subrange(bytes, 0, LENGTH_BYTES));
    proof {
        lemma_be_value_bound(bytes@.subrange(0, LENGTH_BYTES as int));
        lemma_radix_values();
    }
    if ((bytes.len() - LENGTH_BYTES) as u128) < announced_length {
        return Decoded::Incomplete;
    }
    if announced_length < TAG_BYTES as u128 {
        return Decoded::Malformed;
    }
    let length: usize = announced_length as usize;
    let uuid: u128 = read_be(slice_subrange(bytes, LENGTH_BYTES, LENGTH_BYTES + TAG_BYTES));
    proof {
        lemma_be_value_bound(bytes@.subrange(LENGTH_BYTES as int, LENGTH_BYTES + TAG_BYTES));
    }
    let data = slice_to_vec(slice_subrange(bytes, LENGTH_BYTES + TAG_BYTES, LENGTH_BYTES + length));
    Decoded::Complete { payload: NetworkPayload { uuid, data }, consumed: LENGTH_BYTES + length }
}

/// A frame is four bytes longer than what it announces.
pub proof fn lemma_frame_len(envelope: Envelope)
    ensures
        frame(envelope).len() == LENGTH_BYTES + TAG_BYTES + envelope.body.len(),
{
    lemma_be_bytes_len((TAG_BYTES + envelope.body.len()) as nat, LENGTH_BYTES as nat);
    lemma_be_bytes_len(envelope.tag as nat, TAG_BYTES as nat);
}

/// Decoding the frame of an envelope gives the envelope back and consumes
/// the frame and nothing more, whatever follows the frame on the stream.
pub proof fn lemma_round_trip(envelope: Envelope, rest: Seq<u8>)
    requires
        envelope.body.len() <= MAX_BODY_BYTES,
    ensures
        scan_frame(frame(envelope) + rest) == (Scan::Complete {
            envelope,
            consumed: frame(envelope).len(),
        }),
{
    let length = (TAG_BYTES + envelope.body.len()) as nat;
    let head = be_bytes(length, LENGTH_BYTES as nat);
    let tag = be_bytes(envelope.tag as nat, TAG_BYTES as nat);
    let bytes = frame(envelope) + rest;
    lemma_frame_len(envelope);
    lemma_be_bytes_len(length, LENGTH_BYTES as nat);
    lemma_be_bytes_len(envelope.tag as nat, TAG_BYTES as nat);
    lemma_radix_values();
    assert(bytes.subrange(0, LENGTH_BYTES as int) =~= head);
    lemma_be_value_of_bytes(length, LENGTH_BYTES as nat);
    assert(announced(bytes) == length);
    assert(bytes.subrange(LENGTH_BYTES as int, LENGTH_BYTES + TAG_BYTES) =~= tag);
    lemma_be_value_of_bytes(envelope.tag as nat, TAG_BYTES as nat);
    assert(bytes.subrange(LENGTH_BYTES + TAG_BYTES, LENGTH_BYTES + length) =~= envelope.body);
}

/// A whole frame is the frame of the envelope that is read from it: no two
/// byte strings are read as the same envelope with the same length.
pub proof fn lemma_scanned_frame(bytes: Seq<u8>)
    requires
        scan_frame(bytes) is Complete,
    ensures
        bytes.take(scan_frame(bytes)->consumed as int) == frame(scan_frame(bytes)->envelope),
{
    let envelope = scan_frame(bytes)->envelope;
    let consumed = scan_frame(bytes)->consumed;
    let head = bytes.subrange(0, LENGTH_BYTES as int);
    let tag = bytes.subrange(LENGTH_BYTES as int, LENGTH_BYTES + TAG_BYTES);
    lemma_be_bytes_of_value(head);
    lemma_be_bytes_of_value(tag);
    lemma_be_value_bound(tag);
    lemma_radix_values();
    assert(bytes.take(consumed as int) =~= head + tag + envelope.body);
}

/// What stands at the start of a stream does not change when more bytes
/// arrive, once it is a whole frame.
pub proof fn lemma_scan_frame_stable(bytes: Seq<u8>, more: Seq<u8>)
    requires
        !(scan_frame(bytes) is Incomplete),
    ensures
        scan_frame(bytes + more) == scan_frame(bytes),
{
    let longer = bytes + more;
    assert(longer.subrange(0, LENGTH_BYTES as int) =~= bytes.subrange(0, LENGTH_BYTES as int));
    if scan_frame(bytes) is Complete {
        assert(longer.subrange(LENGTH_BYTES as int, LENGTH_BYTES + TAG_BYTES) =~= bytes.subrange(
            LENGTH_BYTES as int,
            LENGTH_BYTES + TAG_BYTES,
        ));
        assert(longer.subrange(LENGTH_BYTES + TAG_BYTES, LENGTH_BYTES + announced(bytes))
            =~= bytes.subrange(LENGTH_BYTES + TAG_BYTES, LENGTH_BYTES + announced(bytes)));
    }
}

/// What a byte stream holds: the envelopes of its whole frames in order, the
/// number of bytes that those frames take, and whether the frame after them
/// is malformed.
pub struct StreamScan {
    pub envelopes: Seq<Envelope>,
    pub consumed: nat,
    pub malformed: bool,
}

/// What [`decode_stream`] found in a buffer.
#[derive(Debug, PartialEq, Eq)]
pub struct Drained {
    /// The payloads of the whole frames, in order.
    pub payloads: Vec<NetworkPayload>,
    /// The number of bytes that those frames take.
    pub consumed: usize,
    /// Whether the frame after them is malformed.
    pub malformed: bool,
}

/// The envelopes that `payloads` hold.
pub open spec fn envelopes(payloads: Seq<NetworkPayload>) -> Seq<Envelope> {
    payloads.map_values(|payload: NetworkPayload| payload@)
}

impl View for Drained {
    type V = StreamScan;

    open spec fn view(&self) -> StreamScan {
        StreamScan {
            envelopes: envelopes(self.payloads@),
            consumed: self.consumed as nat,
            malformed: self.malformed,
        }
    }
}

/// Reads frame after frame from `bytes` until one is incomplete or
/// malformed.
pub open spec fn scan_stream(bytes: Seq<u8>) -> StreamScan
    decreases bytes.len(),
{
    match scan_frame(bytes) {
        Scan::Complete { envelope, consumed } => {
            let rest = scan_stream(bytes.skip(consumed as int));
            StreamScan {
                envelopes: seq![envelope] + rest.envelopes,
                consumed: consumed + rest.consumed,
                malformed: rest.malformed,
            }
        },
        Scan::Incomplete => StreamScan {
            envelopes: Seq::empty(),
            consumed: 0,
            malformed: false,
        },
        Scan::Malformed => StreamScan { envelopes: Seq::empty(), consumed: 0, malformed: true },
    }
}

/// Reads every whole frame at the start of `bytes`.
pub fn decode_stream(bytes: &[u8]) -> (drained: Drained)
    ensures
        drained@ == scan_stream(bytes@),
        drained.consumed <= bytes@.len(),
{
    let mut payloads: Vec<NetworkPayload> = Vec::new();
    let mut consumed: usize = 0;
    assert(bytes@.skip(0) =~= bytes@);
    assert(envelopes(payloads@) + scan_stream(bytes@).envelopes =~= scan_stream(bytes@).envelopes);
    loop
        invariant
            consumed <= bytes@.len(),
            scan_stream(bytes@).envelopes == envelopes(payloads@) + scan_stream(
                bytes@.skip(consumed as int),
            ).envelopes,
            scan_stream(bytes@).consumed == consumed + scan_stream(
                bytes@.skip(consumed as int),
            ).consumed,
            scan_stream(bytes@).malformed == scan_stream(bytes@.skip(consumed as int)).malformed,
        decreases bytes@.len() - consumed,
    {
        let rest = slice_subrange(bytes, consumed, bytes.len());
        assert(rest@ =~= bytes@.skip(consumed as int));
        assert(envelopes(payloads@) + Seq::<Envelope>::empty() =~= envelopes(payloads@));
        match decode(rest) {
            Decoded::Complete { payload, consumed: length } => {
                proof {
                    assert(rest@.skip(length as int) =~= bytes@.skip(consumed + length));
                    let after = scan_stream(rest@.skip(length as int));
                    assert(envelopes(payloads@.push(payload)) + after.envelopes =~= envelopes(
                        payloads@,
                    ) + (seq![payload@] + after.envelopes));
                }
                payloads.push(payload);
                consumed = consumed + length;
            },
            Decoded::Incomplete => {
                return Drained { payloads, consumed, malformed: false };
            },
            Decoded::Malformed => {
                return Drained { payloads, consumed, malformed: true };
            },
        }
    }
}

/// The whole frames of a stream lie inside it.
pub proof fn lemma_scan_stream_bound(bytes: Seq<u8>)
    ensures
        scan_stream(bytes).consumed <= bytes.len(),
    decreases bytes.len(),
{
    if scan_frame(bytes) is Complete {
        lemma_scan_stream_bound(bytes.skip(scan_frame(bytes)->consumed as int));
    }
}

/// A stream may arrive in two parts, cut at any byte. Reading the first
/// part, and then what it left over together with the second part, finds the
/// envelopes that reading the whole stream at once finds, in the same order,
/// and the same malformed frame if there is one.
pub proof fn lemma_split_stream(first: Seq<u8>, second: Seq<u8>)
    ensures
        scan_stream(first).malformed ==> scan_stream(first + second) == scan_stream(first),
        !scan_stream(first).malformed ==> scan_stream(first + second) == (StreamScan {
            envelopes: scan_stream(first).envelopes + scan_stream(
                first.skip(scan_stream(first).consumed as int) + second,
            ).envelopes,
            consumed: scan_stream(first).consumed + scan_stream(
                first.skip(scan_stream(first).consumed as int) + second,
            ).consumed,
            malformed: scan_stream(
                first.skip(scan_stream(first).consumed as int) + second,
            ).malformed,
        }),
    decreases first.len(),
{
    match scan_frame(first) {
        Scan::Complete { envelope, consumed } => {
            let rest = first.skip(consumed as int);
            lemma_scan_frame_stable(first, second);
            lemma_split_stream(rest, second);
            lemma_scan_stream_bound(rest);
            assert((first + second).skip(consumed as int) =~= rest + second);
            let used = scan_stream(rest).consumed;
            assert(rest.skip(used as int) =~= first.skip((consumed + used) as int));
            if !scan_stream(first).malformed {
                let tail = scan_stream(rest.skip(used as int) + second);
                assert(seq![envelope] + (scan_stream(rest).envelopes + tail.envelopes) =~= (
                seq![envelope] + scan_stream(rest).envelopes) + tail.envelopes);
            }
        },
        Scan::Incomplete => {
            assert(first.skip(0) + second =~= first + second);
            assert(Seq::<Envelope>::empty() + scan_stream(first + second).envelopes
                =~= scan_stream(first + second).envelopes);
        },
        Scan::Malformed => {
            lemma_scan_frame_stable(first, second);
        },
    }
}

} // verus!
