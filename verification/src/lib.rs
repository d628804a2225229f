//! A network replication layer for a client/server simulation: framing of
//! envelopes over a byte stream, peer identity and lifecycle, typed event
//! queues, and replicated spawning under identifiers shared by every peer.

pub mod networking;
