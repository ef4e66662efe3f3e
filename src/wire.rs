use vstd::prelude::*;
use crate::bencode::push_bytes;
use crate::error::Error;

verus! {

/// Length of the handshake, in each direction.
pub const HANDSHAKE_LENGTH: usize = 68;
/// Length of the protocol name that the handshake carries.
pub const PROTOCOL_NAME_LENGTH: u8 = 19;
/// Size of a requested block.
pub const BLOCK_SIZE: u32 = 16384;
/// The piece index and offset in front of a block's bytes.
pub const BLOCK_HEADER_LENGTH: usize = 8;
/// Largest payload a frame may carry: a block and its header.
pub const MAX_LENGTH: u32 = 16392;

/// The message kinds of the peer protocol.
#[derive(PartialEq, Eq, Debug, Clone, Copy)]
pub enum MessageType {
    Choke,
    Unchoke,
    Interested,
    NotInterested,
    Have,
    PiecesBitfield,
    Block,
    Piece,
    Cancel,
}

pub open spec fn message_id(t: MessageType) -> u8 {
    match t {
        MessageType::Choke => 0,
        MessageType::Unchoke => 1,
        MessageType::Interested => 2,
        MessageType::NotInterested => 3,
        MessageType::Have => 4,
        MessageType::PiecesBitfield => 5,
        MessageType::Block => 6,
        MessageType::Piece => 7,
        MessageType::Cancel => 8,
    }
}

impl MessageType {
    /// The id byte that stands for this kind on the wire.
    pub fn id(&self) -> (r: u8)
        ensures
            r == message_id(*self),
    {
        match self {
            MessageType::Choke => 0,
            MessageType::Unchoke => 1,
            MessageType::Interested => 2,
            MessageType::NotInterested => 3,
            MessageType::Have => 4,
            MessageType::PiecesBitfield => 5,
            MessageType::Block => 6,
            MessageType::Piece => 7,
            MessageType::Cancel => 8,
        }
    }
}

/// `BitTorrent protocol` in ASCII.
pub open spec fn protocol_name() -> Seq<u8> {
    seq![66u8, 105, 116, 84, 111, 114, 114, 101, 110, 116, 32, 112, 114, 111, 116, 111, 99, 111, 108]
}

/// Four bytes, most significant first.
pub open spec fn be_bytes(x: u32) -> Seq<u8> {
    seq![(x / 0x100_0000) as u8, (x / 0x1_0000 % 256) as u8, (x / 256 % 256) as u8, (x % 256) as u8]
}

/// The number that four bytes hold, most significant first.
pub open spec fn be_value(b: Seq<u8>) -> int {
    b[0] * 0x100_0000 + b[1] * 0x1_0000 + b[2] * 256 + b[3]
}

/// The handshake: name length, protocol name, eight zero bytes, info hash, peer id.
pub open spec fn handshake_spec(info_hash: Seq<u8>, peer_id: Seq<u8>) -> Seq<u8> {
    seq![PROTOCOL_NAME_LENGTH] + protocol_name() + Seq::new(8, |i: int| 0u8) + info_hash + peer_id
}

/// A frame: the length of type and payload, the type id, the payload.
pub open spec fn frame_spec(id: u8, data: Seq<u8>) -> Seq<u8> {
    be_bytes((data.len() + 1) as u32) + seq![id] + data
}

pub fn be_encode(x: u32) -> (r: [u8; 4])
    ensures
        r@ == be_bytes(x),
{
    let r = [(x / 0x100_0000) as u8, (x / 0x1_0000 % 256) as u8, (x / 256 % 256) as u8, (x % 256) as u8];
    proof {
        assert(r@ =~= be_bytes(x));
    }
    r
}

/// Reads four bytes at `at`, most significant first.
pub fn be_decode(b: &[u8], at: usize) -> (r: u32)
    requires
        at + 4 <= b.len(),
    ensures
        r == be_value(b@.subrange(at as int, at + 4)),
{
    let r = (b[at] as u32) * 0x100_0000 + (b[at + 1] as u32) * 0x1_0000 + (b[at + 2] as u32) * 256
        + b[at + 3] as u32;
    r
}

/// The handshake this client sends.
pub fn handshake_message(info_hash: &[u8; 20], peer_id: &[u8; 20]) -> (r: Vec<u8>)
    ensures
        r@ == handshake_spec(info_hash@, peer_id@),
        r@.len() == HANDSHAKE_LENGTH,
{
    let mut r = vec![
        PROTOCOL_NAME_LENGTH, 66u8, 105, 116, 84, 111, 114, 114, 101, 110, 116, 32, 112, 114, 111, 116,
        111, 99, 111, 108, 0, 0, 0, 0, 0, 0, 0, 0,
    ];
    proof {
        assert(r@ =~= seq![PROTOCOL_NAME_LENGTH] + protocol_name() + Seq::new(8, |i: int| 0u8));
    }
    push_bytes(&mut r, info_hash.as_slice());
    push_bytes(&mut r, peer_id.as_slice());
    proof {
        assert(r@ =~= handshake_spec(info_hash@, peer_id@));
    }
    r
}

/// Checks the handshake a peer answered with and gives its peer id.
pub fn validate_handshake(info_hash: &[u8; 20], reply: &[u8]) -> (r: Result<[u8; 20], Error>)
    ensures
        r is Ok <==> (reply@.len() == HANDSHAKE_LENGTH && reply@[0] == PROTOCOL_NAME_LENGTH
            && reply@.subrange(1, 20) == protocol_name() && reply@.subrange(28, 48) == info_hash@),
        r matches Ok(id) ==> id@ == reply@.subrange(48, 68),
        r matches Err(e) ==> e == Error::ProtocolViolation,
{
    if reply.len() != HANDSHAKE_LENGTH || reply[0] != PROTOCOL_NAME_LENGTH {
        return Err(Error::ProtocolViolation);
    }
    let name = [66u8, 105, 116, 84, 111, 114, 114, 101, 110, 116, 32, 112, 114, 111, 116, 111, 99, 111, 108];
    proof {
        assert(name@ =~= protocol_name());
    }
    let mut i: usize = 0;
    while i < 19
        invariant
            i <= 19,
            reply@.len() == HANDSHAKE_LENGTH,
            name@ == protocol_name(),
            forall|j: int| 0 <= j < i ==> reply@[1 + j] == name@[j],
        decreases 19 - i,
    {
        if reply[1 + i] != name[i] {
            proof {
                assert(reply@.subrange(1, 20)[i as int] != protocol_name()[i as int]);
            }
            return Err(Error::ProtocolViolation);
        }
        i = i + 1;
    }
    proof {
        assert(reply@.subrange(1, 20) =~= protocol_name());
    }
    let mut j: usize = 0;
    while j < 20
        invariant
            j <= 20,
            reply@.len() == HANDSHAKE_LENGTH,
            forall|m: int| 0 <= m < j ==> reply@[28 + m] == info_hash@[m],
        decreases 20 - j,
    {
        if reply[28 + j] != info_hash[j] {
            proof {
                assert(reply@.subrange(28, 48)[j as int] != info_hash@[j as int]);
            }
            return Err(Error::ProtocolViolation);
        }
        j = j + 1;
    }
    proof {
        assert(reply@.subrange(28, 48) =~= info_hash@);
    }
    let mut id = [0u8; 20];
    let mut k: usize = 0;
    while k < 20
        invariant
            k <= 20,
            reply@.len() == HANDSHAKE_LENGTH,
            forall|m: int| 0 <= m < k ==> id@[m] == reply@[48 + m],
        decreases 20 - k,
    {
        id[k] = reply[48 + k];
        k = k + 1;
    }
    proof {
        assert(id@ =~= reply@.subrange(48, 68));
    }
    Ok(id)
}

/// Frames a message: length prefix, type id, payload.
pub fn write_message(msg_type: MessageType, data: &[u8]) -> (r: Vec<u8>)
    requires
        data.len() < u32::MAX,
    ensures
        r@ == frame_spec(message_id(msg_type), data@),
{
    let length = (data.len() + 1) as u32;
    let prefix = be_encode(length);
    let mut r: Vec<u8> = Vec::new();
    push_bytes(&mut r, prefix.as_slice());
    r.push(msg_type.id());
    push_bytes(&mut r, data);
    proof {
        assert(r@ =~= frame_spec(message_id(msg_type), data@));
    }
    r
}

/// Reads a frame's length prefix: how many bytes of payload follow the type id. A keep-alive
/// (length zero) and a payload over the block ceiling are refused.
pub fn frame_payload_length(prefix: &[u8; 4]) -> (r: Result<u32, Error>)
    ensures
        match r {
            Ok(n) => be_value(prefix@) > 0 && n == be_value(prefix@) - 1 && n <= MAX_LENGTH,
            Err(e) => e == Error::ProtocolViolation && (be_value(prefix@) == 0 || be_value(prefix@) - 1 > MAX_LENGTH),
        },
{
    let length = be_decode(prefix.as_slice(), 0);
    proof {
        assert(prefix@.subrange(0, 4) =~= prefix@);
    }
    if length == 0 {
        return Err(Error::ProtocolViolation);
    }
    let data_length = length - 1;
    if data_length > MAX_LENGTH {
        return Err(Error::ProtocolViolation);
    }
    Ok(data_length)
}

/// Checks that a received frame is of the expected kind.
pub fn check_message_type(got: u8, expected: MessageType) -> (r: Result<(), Error>)
    ensures
        r is Ok <==> got == message_id(expected),
        r matches Err(e) ==> e == Error::ProtocolViolation,
{
    if got != expected.id() {
        Err(Error::ProtocolViolation)
    } else {
        Ok(())
    }
}

/// A block request, as it goes on the wire.
pub struct BlockRequestRaw {
    pub index: [u8; 4],
    pub begin: [u8; 4],
    pub length: [u8; 4],
}

impl BlockRequestRaw {
    pub fn new(piece_index: u32, begin: u32, length: u32) -> (r: Self)
        ensures
            r.index@ == be_bytes(piece_index),
            r.begin@ == be_bytes(begin),
            r.length@ == be_bytes(length),
    {
        Self { index: be_encode(piece_index), begin: be_encode(begin), length: be_encode(length) }
    }

    /// The twelve bytes of the request.
    pub fn to_bytes(&self) -> (r: Vec<u8>)
        ensures
            r@ == self.index@ + self.begin@ + self.length@,
    {
        let mut r: Vec<u8> = Vec::new();
        push_bytes(&mut r, self.index.as_slice());
        push_bytes(&mut r, self.begin.as_slice());
        push_bytes(&mut r, self.length.as_slice());
        r
    }
}

} // verus!
