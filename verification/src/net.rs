//! What goes over a connection.
use crate::bytes::{be_bytes_u32, be_number};
use crate::types::{ClientReply, ClientRequest, Message};
use vstd::prelude::*;

verus! {

/// The longest payload of a frame.
pub const MAX_FRAME_LEN: usize = 16777216;

/// Why a frame was refused.
#[derive(Clone, Copy, Debug, PartialEq, Eq, Structural)]
pub enum NetError {
    /// The payload is longer than a frame may be.
    FrameTooLarge,
}

/// Everything that is sent over a connection.
///
/// Servers receive messages of peers and requests of clients; they send messages
/// to peers and replies to clients. A reply that a server receives is an error.
#[derive(Clone, Debug, PartialEq, Eq)]
pub enum WireMessage {
    Peer(Message),
    ClientRequest(ClientRequest),
    ClientReply(ClientReply),
}

/// The frame around a payload.
pub open spec fn frame_of(payload: Seq<u8>) -> Result<Seq<u8>, NetError> {
    if payload.len() <= MAX_FRAME_LEN {
        Ok(crate::bytes::framed(payload))
    } else {
        Err(NetError::FrameTooLarge)
    }
}

/// The frame around a payload.
pub fn encode_frame(payload: Vec<u8>) -> (bytes: Result<Vec<u8>, NetError>)
    ensures
        frame_of(payload@) == match bytes {
            Ok(bytes) => Ok(bytes@),
            Err(error) => Err(error),
        },
{
    if payload.len() > MAX_FRAME_LEN {
        return Err(NetError::FrameTooLarge);
    }
    let mut bytes = be_bytes_u32(payload.len() as u32);
    let mut payload = payload;
    bytes.append(&mut payload);
    Ok(bytes)
}

/// The length of the payload that follows a frame's first four bytes.
pub open spec fn announced(header: Seq<u8>) -> nat {
    crate::bytes::be_value(header)
}

/// The length of the payload that follows a frame's first four bytes, where it is
/// not longer than a payload may be.
pub open spec fn length_in(header: Seq<u8>) -> Result<nat, NetError> {
    if announced(header) <= MAX_FRAME_LEN {
        Ok(announced(header))
    } else {
        Err(NetError::FrameTooLarge)
    }
}

/// The length of the payload that follows a frame's first four bytes.
pub fn decode_len(header: &[u8]) -> (len: Result<usize, NetError>)
    requires
        header@.len() == 4,
    ensures
        length_in(header@) == match len {
            Ok(len) => Ok(len as nat),
            Err(error) => Err(error),
        },
{
    let len: u64 = be_number(header, 0, 4);
    assert(header@.subrange(0, 4) =~= header@);
    if len > MAX_FRAME_LEN as u64 {
        Err(NetError::FrameTooLarge)
    } else {
        Ok(len as usize)
    }
}

/// A frame announces its payload, which follows.
pub proof fn frame_announces_payload(payload: Seq<u8>)
    requires
        payload.len() <= MAX_FRAME_LEN,
    ensures
        crate::bytes::framed(payload).len() == 4 + payload.len(),
        announced(crate::bytes::framed(payload).take(4)) == payload.len(),
        crate::bytes::framed(payload).skip(4) == payload,
{
    crate::bytes::radix_powers();
    crate::bytes::be_round_trip(payload.len(), 4);
    let bytes = crate::bytes::framed(payload);
    assert(bytes.take(4) =~= crate::bytes::be_bytes(payload.len(), 4));
    assert(bytes.skip(4) =~= payload);
}

} // verus!
