//! Shared types: the library's error taxonomy and the peer-wire message
//! framing (length prefix, id byte, payload).
use vstd::prelude::*;
use vstd::string::StringExecFns;

verus! {

/// The error taxonomy of the library.
#[derive(Debug, Clone, PartialEq, Eq)]
pub enum TorrentError {
    /// Malformed bencode, or a missing or mistyped metadata field.
    Format(String),
    /// A connection-level failure; produced by the I/O shell around the
    /// library, never by the verified core itself.
    Transport(String),
    /// A peer message whose id does not fit the expected protocol state.
    ProtocolSequence(String),
}

/// Builds a [`TorrentError::Format`] carrying the given context.
pub fn format_error(msg: &str) -> (r: TorrentError)
    ensures
        r is Format,
{
    TorrentError::Format(String::from_str(msg))
}

/// Builds a [`TorrentError::ProtocolSequence`] carrying the given context.
pub fn sequence_error(msg: &str) -> (r: TorrentError)
    ensures
        r is ProtocolSequence,
{
    TorrentError::ProtocolSequence(String::from_str(msg))
}

/// The four bytes of `x` in big-endian order.
pub open spec fn u32_be(x: u32) -> Seq<u8> {
    seq![
        (x / 0x1000000) as u8,
        ((x / 0x10000) % 256) as u8,
        ((x / 256) % 256) as u8,
        (x % 256) as u8,
    ]
}

/// The semantic kinds of peer-wire message this client speaks.
#[derive(Debug, Clone, Copy, PartialEq, Eq, Structural)]
pub enum PeerMessageType {
    Bitfield,
    Interested,
    Unchoke,
    Request,
    Piece,
}

/// True when `b` is the wire id of a message kind this client understands.
pub open spec fn is_message_byte(b: u8) -> bool {
    b == 1 || b == 2 || b == 5 || b == 6 || b == 7
}

impl PeerMessageType {
    /// The id byte of this message kind on the wire.
    pub open spec fn wire_byte(self) -> u8 {
        match self {
            PeerMessageType::Unchoke => 1,
            PeerMessageType::Interested => 2,
            PeerMessageType::Bitfield => 5,
            PeerMessageType::Request => 6,
            PeerMessageType::Piece => 7,
        }
    }

    /// Serialises the message kind to its wire id byte.
    pub fn to_byte(&self) -> (r: u8)
        ensures
            r == self.wire_byte(),
    {
        match self {
            PeerMessageType::Unchoke => 1,
            PeerMessageType::Interested => 2,
            PeerMessageType::Bitfield => 5,
            PeerMessageType::Request => 6,
            PeerMessageType::Piece => 7,
        }
    }

    /// Reads a message kind from its wire id byte; an id this client does not
    /// know yields `None` (a protocol violation for the caller to surface).
    pub fn from_byte(b: u8) -> (r: Option<PeerMessageType>)
        ensures
            r is Some <==> is_message_byte(b),
            r matches Some(t) ==> t.wire_byte() == b,
    {
        match b {
            1 => Some(PeerMessageType::Unchoke),
            2 => Some(PeerMessageType::Interested),
            5 => Some(PeerMessageType::Bitfield),
            6 => Some(PeerMessageType::Request),
            7 => Some(PeerMessageType::Piece),
            _ => None,
        }
    }
}

/// One framed peer-wire message. `length` is the length declared on the wire:
/// the payload length plus one for the id byte.
#[derive(Debug, Clone, PartialEq, Eq)]
pub struct PeerMessage {
    pub length: u32,
    pub id: PeerMessageType,
    pub payload: Vec<u8>,
}

impl PeerMessage {
    /// The framing invariant: the declared length counts the id byte and the
    /// payload.
    pub open spec fn wf(self) -> bool {
        self.length == self.payload@.len() + 1
    }

    /// The exact bytes of this message on the wire: big-endian length prefix,
    /// id byte, payload.
    pub open spec fn wire_bytes(self) -> Seq<u8> {
        u32_be(self.length) + seq![self.id.wire_byte()] + self.payload@
    }

    /// Serialises the message for the wire.
    pub fn to_bytes(&self) -> (r: Vec<u8>)
        ensures
            r@ == self.wire_bytes(),
    {
        let mut bytes: Vec<u8> = Vec::new();
        bytes.push((self.length / 0x1000000) as u8);
        bytes.push(((self.length / 0x10000) % 256) as u8);
        bytes.push(((self.length / 256) % 256) as u8);
        bytes.push((self.length % 256) as u8);
        bytes.push(self.id.to_byte());
        let ghost head: Seq<u8> = bytes@;
        let mut k: usize = 0;
        while k < self.payload.len()
            invariant
                k <= self.payload@.len(),
                bytes@ == head + self.payload@.take(k as int),
                head == u32_be(self.length) + seq![self.id.wire_byte()],
            decreases self.payload@.len() - k,
        {
            bytes.push(self.payload[k]);
            assert(bytes@ =~= head + self.payload@.take(k as int + 1));
            k += 1;
        }
        proof {
            assert(self.payload@.take(self.payload@.len() as int) =~= self.payload@);
            assert(bytes@ =~= self.wire_bytes());
        }
        bytes
    }

    /// Reconstructs a message from one wire frame: `length` is the prefix the
    /// caller read, `body` the exactly-`length` bytes that followed it. The
    /// first body byte is the id; an empty frame is malformed, and an id this
    /// client does not know fails the session rather than being skipped.
    pub fn from_frame(length: u32, body: &Vec<u8>) -> (r: Result<PeerMessage, TorrentError>)
        requires
            body@.len() == length as int,
        ensures
            r is Ok <==> body@.len() >= 1 && is_message_byte(body@[0]),
            r matches Ok(m) ==> {
                &&& m.length == length
                &&& m.wf()
                &&& m.id.wire_byte() == body@[0]
                &&& m.payload@ == body@.drop_first()
            },
            r matches Err(e) ==> (e is Format <==> body@.len() == 0) && (e is ProtocolSequence
                <==> body@.len() >= 1),
    {
        if body.len() == 0 {
            return Err(format_error("peer message frame is empty"));
        }
        let id = match PeerMessageType::from_byte(body[0]) {
            Some(t) => t,
            None => {
                return Err(sequence_error("unknown peer message id"));
            },
        };
        let mut payload: Vec<u8> = Vec::new();
        let mut k: usize = 1;
        while k < body.len()
            invariant
                1 <= k <= body@.len(),
                payload@ == body@.subrange(1, k as int),
            decreases body@.len() - k,
        {
            payload.push(body[k]);
            assert(payload@ =~= body@.subrange(1, k as int + 1));
            k += 1;
        }
        proof {
            assert(payload@ =~= body@.drop_first());
        }
        Ok(PeerMessage { length, id, payload })
    }
}

} // verus!
