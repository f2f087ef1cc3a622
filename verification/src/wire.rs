//! The peer-wire protocol: the handshake record and the framed messages.

use vstd::prelude::*;
use vstd::slice::{slice_subrange, slice_to_vec};
use vstd::string::*;
use crate::hash::{hex_encode, hex_lower};
use crate::metainfo::{info_hash, Torrent};

verus! {

/// The length of a handshake record in bytes.
pub const HANDSHAKE_LENGTH: usize = 68;

/// The id of the message `unchoke`.
pub const UNCHOKE: u8 = 1;

/// The id of the message `interested`.
pub const INTERESTED: u8 = 2;

/// The id of the message `bitfield`.
pub const BITFIELD: u8 = 5;

/// The id of the message `request`.
pub const REQUEST: u8 = 6;

/// The id of the message `piece`.
pub const PIECE: u8 = 7;

/// How what a peer sent breaks the protocol.
#[derive(Debug, Clone, Copy, PartialEq, Eq)]
pub enum ProtocolError {
    /// A handshake reply is not 68 bytes long.
    ShortHandshake,
    /// A frame ends within its length prefix, or before the end that the
    /// prefix gives.
    ShortRead,
    /// A message has no id: its frame is empty.
    EmptyMessage,
    /// A message has an id that this client does not know.
    UnexpectedMessage,
    /// A piece message ends within its index and offset.
    TruncatedPiece,
    /// A message of another kind came where a block was due.
    InvalidResponse,
    /// What was reported does not answer what was asked for.
    UnexpectedEvent,
}

/// The fixed handshake record that opens every peer connection.
pub struct HandShake {
    pub length: [u8; 1],
    pub protocol: [u8; 19],
    pub reserved: [u8; 8],
    pub info_hash: [u8; 20],
    pub peer_id: [u8; 20],
}

/// A message from a peer.
#[derive(Debug, PartialEq, Eq)]
pub enum PeerMessage {
    /// The pieces that the peer has. Its bits are not kept.
    BitField,
    /// The peer will serve requests.
    Unchoke,
    /// A block of piece `index`, which begins at offset `begin` of the piece.
    Piece { index: u32, begin: u32, block: Vec<u8> },
}

/// A message from a peer as a mathematical value.
pub enum MessageView {
    BitField,
    Unchoke,
    Piece { index: u32, begin: u32, block: Seq<u8> },
}

impl View for PeerMessage {
    type V = MessageView;

    open spec fn view(&self) -> MessageView {
        match self {
            PeerMessage::BitField => MessageView::BitField,
            PeerMessage::Unchoke => MessageView::Unchoke,
            PeerMessage::Piece { index, begin, block } => MessageView::Piece {
                index: *index,
                begin: *begin,
                block: block@,
            },
        }
    }
}

/// The four bytes of a number, the highest first.
pub open spec fn be32(n: u32) -> Seq<u8> {
    seq![
        (n / 0x100_0000) as u8,
        (n / 0x1_0000 % 0x100) as u8,
        (n / 0x100 % 0x100) as u8,
        (n % 0x100) as u8,
    ]
}

/// The number that four bytes give, the highest first.
pub open spec fn from_be32(bytes: Seq<u8>) -> u32 {
    (bytes[0] * 0x100_0000 + bytes[1] * 0x1_0000 + bytes[2] * 0x100 + bytes[3]) as u32
}

/// The name of the protocol, which every handshake carries.
pub open spec fn protocol_name() -> Seq<u8> {
    "BitTorrent protocol".spec_bytes()
}

/// The peer id under which this client shakes hands.
pub open spec fn handshake_peer_id() -> Seq<u8> {
    seq![0u8, 0, 1, 1, 2, 2, 3, 3, 4, 4, 5, 5, 6, 6, 7, 7, 8, 8, 9, 9]
}

/// The handshake record of the client `peer_id` for the content with info
/// hash `hash`: the length of the protocol's name, the name, eight zero
/// bytes, the hash, the peer id.
pub open spec fn handshake_bytes(hash: Seq<u8>, peer_id: Seq<u8>) -> Seq<u8> {
    seq![19u8] + protocol_name() + seq![0u8, 0, 0, 0, 0, 0, 0, 0] + hash + peer_id
}

/// The peer id in a handshake record: its last 20 bytes.
pub open spec fn peer_id_of(record: Seq<u8>) -> Seq<u8> {
    record.subrange(48, 68)
}

/// The frame of the message `interested`: the length 1, then the id.
pub open spec fn interested_message() -> Seq<u8> {
    be32(1) + seq![INTERESTED]
}

/// The frame of a request for `length` bytes at offset `begin` of piece
/// `index`: the length 13, the id, then the three numbers.
pub open spec fn request_message(index: u32, begin: u32, length: u32) -> Seq<u8> {
    be32(13) + seq![REQUEST] + be32(index) + be32(begin) + be32(length)
}

/// The message that the body of a frame holds, told by its first byte, the
/// id: a bitfield, whose bits are dropped, an unchoke, or a piece, whose
/// payload is its index, its offset and its block. Any other id is an error.
pub open spec fn message_of(body: Seq<u8>) -> Result<MessageView, ProtocolError> {
    if body.len() == 0 {
        Err(ProtocolError::EmptyMessage)
    } else if body[0] == BITFIELD {
        Ok(MessageView::BitField)
    } else if body[0] == UNCHOKE {
        Ok(MessageView::Unchoke)
    } else if body[0] == PIECE {
        if body.len() < 9 {
            Err(ProtocolError::TruncatedPiece)
        } else {
            Ok(
                MessageView::Piece {
                    index: from_be32(body.subrange(1, 5)),
                    begin: from_be32(body.subrange(5, 9)),
                    block: body.skip(9),
                },
            )
        }
    } else {
        Err(ProtocolError::UnexpectedMessage)
    }
}

/// The message at the head of `bytes` and what follows its frame: four bytes
/// that give the length of the body, then the body, of exactly that length.
pub open spec fn frame_of(bytes: Seq<u8>) -> Result<(MessageView, Seq<u8>), ProtocolError> {
    if bytes.len() < 4 {
        Err(ProtocolError::ShortRead)
    } else {
        let length = from_be32(bytes.take(4));
        if bytes.len() - 4 < length {
            Err(ProtocolError::ShortRead)
        } else {
            match message_of(bytes.subrange(4, 4 + length)) {
                Err(e) => Err(e),
                Ok(message) => Ok((message, bytes.skip(4 + length))),
            }
        }
    }
}

/// Appends the four bytes of `n`, the highest first.
fn push_be32(out: &mut Vec<u8>, n: u32)
    ensures
        final(out)@ == old(out)@ + be32(n),
{
    out.push((n / 0x100_0000) as u8);
    out.push((n / 0x1_0000 % 0x100) as u8);
    out.push((n / 0x100 % 0x100) as u8);
    out.push((n % 0x100) as u8);
}

/// Reads the number that the four bytes from `at` give, the highest first.
fn read_be32(bytes: &[u8], at: usize) -> (res: u32)
    requires
        at + 4 <= bytes@.len(),
    ensures
        res == from_be32(bytes@.subrange(at as int, at + 4)),
{
    let b0 = bytes[at] as u32;
    let b1 = bytes[at + 1] as u32;
    let b2 = bytes[at + 2] as u32;
    let b3 = bytes[at + 3] as u32;
    b0 * 0x100_0000 + b1 * 0x1_0000 + b2 * 0x100 + b3
}

/// The length of the body of the frame that begins with `bytes`: the number
/// that its first four bytes give, the highest first. Fewer than four bytes
/// are an error.
pub fn frame_length(bytes: &[u8]) -> (res: Result<u32, ProtocolError>)
    ensures
        bytes@.len() >= 4 ==> res == Ok::<u32, ProtocolError>(from_be32(bytes@.take(4))),
        bytes@.len() < 4 ==> res == Err::<u32, ProtocolError>(ProtocolError::ShortRead),
{
    if bytes.len() < 4 {
        return Err(ProtocolError::ShortRead);
    }
    Ok(read_be32(bytes, 0))
}

/// The frame of the message `interested`, five bytes.
pub fn interested_frame() -> (res: Vec<u8>)
    ensures
        res@ == interested_message(),
        res@.len() == 5,
{
    let mut frame: Vec<u8> = Vec::new();
    push_be32(&mut frame, 1);
    frame.push(INTERESTED);
    frame
}

/// The frame of a request for `length` bytes at offset `begin` of piece
/// `index`, 17 bytes.
pub fn request_frame(index: u32, begin: u32, length: u32) -> (res: Vec<u8>)
    ensures
        res@ == request_message(index, begin, length),
        res@.len() == 17,
{
    let mut frame: Vec<u8> = Vec::new();
    push_be32(&mut frame, 13);
    frame.push(REQUEST);
    push_be32(&mut frame, index);
    push_be32(&mut frame, begin);
    push_be32(&mut frame, length);
    frame
}

impl PeerMessage {
    /// Reads the message at the head of `bytes`: the four bytes of the length
    /// prefix, then exactly that many bytes of body, whose first byte is the
    /// id. Gives the message and what follows its frame. Bytes that end
    /// within the frame are an error, and so is an id that is not known.
    pub fn read_message<'a>(bytes: &'a [u8]) -> (res: Result<
        (PeerMessage, &'a [u8]),
        ProtocolError,
    >)
        ensures
            match frame_of(bytes@) {
                Ok((message, rest)) => res matches Ok((found, left)) && found@ == message
                    && left@ == rest,
                Err(e) => res matches Err(err) && err == e,
            },
    {
        let length = match frame_length(bytes) {
            Err(e) => {
                return Err(e);
            },
            Ok(length) => length as usize,
        };
        if bytes.len() - 4 < length {
            return Err(ProtocolError::ShortRead);
        }
        match PeerMessage::parse(slice_subrange(bytes, 4, 4 + length)) {
            Err(e) => Err(e),
            Ok(message) => Ok((message, slice_subrange(bytes, 4 + length, bytes.len()))),
        }
    }

    /// Reads the message that the body of a frame holds. An id that is not
    /// known is an error, and so is a body without an id.
    pub fn parse(body: &[u8]) -> (res: Result<PeerMessage, ProtocolError>)
        ensures
            match message_of(body@) {
                Ok(message) => res matches Ok(found) && found@ == message,
                Err(e) => res matches Err(err) && err == e,
            },
            !(body@.len() > 0 && (body@[0] == BITFIELD || body@[0] == UNCHOKE || body@[0] == PIECE))
                ==> res is Err,
    {
        if body.len() == 0 {
            return Err(ProtocolError::EmptyMessage);
        }
        let id = body[0];
        if id == BITFIELD {
            Ok(PeerMessage::BitField)
        } else if id == UNCHOKE {
            Ok(PeerMessage::Unchoke)
        } else if id == PIECE {
            if body.len() < 9 {
                return Err(ProtocolError::TruncatedPiece);
            }
            let index = read_be32(body, 1);
            let begin = read_be32(body, 5);
            let block = slice_to_vec(slice_subrange(body, 9, body.len()));
            Ok(PeerMessage::Piece { index, begin, block })
        } else {
            Err(ProtocolError::UnexpectedMessage)
        }
    }
}

/// The bytes of a digest as an array.
fn digest_array(bytes: &[u8]) -> (res: [u8; 20])
    requires
        bytes@.len() == 20,
    ensures
        res@ == bytes@,
{
    let mut array: [u8; 20] = [0u8; 20];
    let mut i: usize = 0;
    while i < 20
        invariant
            i <= 20,
            bytes@.len() == 20,
            forall|j: int| 0 <= j < i ==> array@[j] == bytes@[j],
        decreases 20 - i,
    {
        array[i] = bytes[i];
        i += 1;
    }
    array
}

impl HandShake {
    /// The record as it travels on the wire: the five fields, one after another.
    pub open spec fn wire_bytes(&self) -> Seq<u8> {
        self.length@ + self.protocol@ + self.reserved@ + self.info_hash@ + self.peer_id@
    }

    /// The handshake of the client `peer_id` for the content with info hash
    /// `info_hash`.
    pub fn new(info_hash: [u8; 20], peer_id: [u8; 20]) -> (res: HandShake)
        ensures
            res.wire_bytes() == handshake_bytes(info_hash@, peer_id@),
            res.info_hash == info_hash,
            res.peer_id == peer_id,
    {
        let handshake = HandShake {
            length: [19],
            protocol: [
                0x42,
                0x69,
                0x74,
                0x54,
                0x6f,
                0x72,
                0x72,
                0x65,
                0x6e,
                0x74,
                0x20,
                0x70,
                0x72,
                0x6f,
                0x74,
                0x6f,
                0x63,
                0x6f,
                0x6c,
            ],
            reserved: [0; 8],
            info_hash,
            peer_id,
        };
        proof {
            reveal_strlit("BitTorrent protocol");
            is_ascii_spec_bytes("BitTorrent protocol");
        }
        handshake
    }

    /// Serialises the record into its 68 bytes.
    pub fn as_bytes(&self) -> (res: Vec<u8>)
        ensures
            res@ == self.wire_bytes(),
            res@.len() == 68,
    {
        let mut res: Vec<u8> = Vec::with_capacity(68);
        res.extend_from_slice(&self.length);
        res.extend_from_slice(&self.protocol);
        res.extend_from_slice(&self.reserved);
        res.extend_from_slice(&self.info_hash);
        res.extend_from_slice(&self.peer_id);
        res
    }
}

/// The handshake with which this client opens a connection for `torrent`: it
/// names the content by its info hash and the client by its fixed peer id.
pub fn client_handshake(torrent: &Torrent) -> (res: HandShake)
    ensures
        res.wire_bytes() == handshake_bytes(info_hash(torrent@.info), handshake_peer_id()),
{
    let hash = torrent.info().get_sha1_hash();
    let peer_id: [u8; 20] = [0, 0, 1, 1, 2, 2, 3, 3, 4, 4, 5, 5, 6, 6, 7, 7, 8, 8, 9, 9];
    HandShake::new(digest_array(hash.as_slice()), peer_id)
}

/// The peer id of the remote side in hexadecimal, read from its handshake
/// reply: the last 20 of the 68 bytes. Whether the reply names the same
/// content is not looked at.
pub fn read_peer_id(reply: &[u8]) -> (res: Result<String, ProtocolError>)
    ensures
        reply@.len() == 68 <==> res is Ok,
        res matches Ok(peer_id) ==> peer_id@ == hex_lower(peer_id_of(reply@)),
        res matches Err(e) ==> e == ProtocolError::ShortHandshake,
{
    if reply.len() != HANDSHAKE_LENGTH {
        return Err(ProtocolError::ShortHandshake);
    }
    Ok(hex_encode(slice_subrange(reply, 48, 68)))
}

} // verus!
