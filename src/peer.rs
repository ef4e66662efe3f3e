use vstd::prelude::*;
use crate::digest::{sha1_digest, sha1_of};
use crate::error::Error;
use crate::torrent::PieceInfo;
use crate::wire::{
    be_bytes, be_decode, be_value, frame_spec, handshake_message, handshake_spec, message_id,
    protocol_name, validate_handshake, write_message, BlockRequestRaw, MessageType,
    BLOCK_HEADER_LENGTH, BLOCK_SIZE, HANDSHAKE_LENGTH, PROTOCOL_NAME_LENGTH,
};

verus! {

/// Whether a peer's bitfield marks piece `k`: bit `7 - k mod 8` of byte `k / 8`, so the first
/// piece is the most significant bit of the first byte.
pub open spec fn bit_set(bitfield: Seq<u8>, k: u32) -> bool {
    &&& (k >> 3u32) < bitfield.len()
    &&& (bitfield[(k >> 3u32) as int] >> (7 - (k & 7u32)) as u8) & 1u8 == 1u8
}

/// Tests piece `piece_index` in a bitfield; an index past its end is not there.
pub fn piece_exists(piece_index: u32, pieces_bitmap: &[u8]) -> (r: bool)
    ensures
        r == bit_set(pieces_bitmap@, piece_index),
{
    let byte_key = (piece_index / 8) as usize;
    let bit_no = piece_index % 8;
    proof {
        assert(piece_index / 8 == piece_index >> 3u32) by (bit_vector);
        assert(piece_index % 8 == piece_index & 7u32) by (bit_vector);
    }
    if byte_key >= pieces_bitmap.len() {
        return false;
    }
    let bitmap_byte = pieces_bitmap[byte_key];
    let shift = (7 - bit_no) as u8;
    let bitmask = 1u8 << shift;
    let has_bit = (bitmap_byte & bitmask) > 0;
    proof {
        assert(shift < 8);
        assert(((bitmap_byte & (1u8 << shift)) > 0) == ((bitmap_byte >> shift) & 1u8 == 1u8))
            by (bit_vector)
            requires
                shift < 8,
        ;
    }
    has_bit
}

/// The block of a piece to request as number `block_no`: its offset and length, or `None`
/// past the end of the piece.
pub open spec fn block_params(block_no: int, piece_size: int) -> Option<(int, int)> {
    let start = block_no * BLOCK_SIZE;
    if start >= piece_size {
        None
    } else if piece_size - start < BLOCK_SIZE {
        Some((start, piece_size - start))
    } else {
        Some((start, BLOCK_SIZE as int))
    }
}

/// A peer that completed the setup: its id and the pieces it has.
pub struct Peer {
    pub peer_id: [u8; 20],
    pub has_pieces: Vec<u8>,
}

impl Peer {
    pub fn has_piece(&self, piece_index: u32) -> (r: bool)
        ensures
            r == bit_set(self.has_pieces@, piece_index),
    {
        piece_exists(piece_index, self.has_pieces.as_slice())
    }

    /// Offset and length of block `block_no` of a piece of `piece_size` bytes.
    pub fn next_block_params(block_no: u32, piece_size: u32) -> (r: Option<(u32, u32)>)
        ensures
            match r {
                Some((s, l)) => block_params(block_no as int, piece_size as int) == Some(
                    (s as int, l as int),
                ),
                None => block_params(block_no as int, piece_size as int) is None,
            },
    {
        assert(block_no as u64 * BLOCK_SIZE as u64 <= 0xffff_ffff * 16384) by (nonlinear_arith)
            requires
                block_no <= 0xffff_ffff,
                BLOCK_SIZE == 16384,
        ;
        let start = block_no as u64 * BLOCK_SIZE as u64;
        if start >= piece_size as u64 {
            return None;
        }
        let block_start = start as u32;
        let left_size = piece_size - block_start;
        let length = if left_size < BLOCK_SIZE {
            left_size
        } else {
            BLOCK_SIZE
        };
        Some((block_start, length))
    }

    /// Checks a `piece` message against the block that was requested and gives the block's bytes.
    pub fn extract_block_from_response(
        block_response: &[u8],
        piece_index: u32,
        block_start: u32,
        block_length: u32,
    ) -> (r: Result<Vec<u8>, Error>)
        ensures
            r is Ok <==> (block_response@.len() == BLOCK_HEADER_LENGTH + block_length
                && be_value(block_response@.subrange(0, 4)) == piece_index && be_value(
                block_response@.subrange(4, 8),
            ) == block_start),
            r matches Ok(b) ==> b@ == block_response@.subrange(8, block_response@.len() as int),
            r matches Err(e) ==> e == Error::ProtocolViolation,
    {
        if block_response.len() as u64 != block_length as u64 + BLOCK_HEADER_LENGTH as u64 {
            return Err(Error::ProtocolViolation);
        }
        let res_piece_index = be_decode(block_response, 0);
        if res_piece_index != piece_index {
            return Err(Error::ProtocolViolation);
        }
        let res_block_start = be_decode(block_response, 4);
        if res_block_start != block_start {
            return Err(Error::ProtocolViolation);
        }
        let mut block: Vec<u8> = Vec::new();
        let mut i: usize = BLOCK_HEADER_LENGTH;
        while i < block_response.len()
            invariant
                BLOCK_HEADER_LENGTH <= i <= block_response.len(),
                block@ == block_response@.subrange(8, i as int),
            decreases block_response.len() - i,
        {
            block.push(block_response[i]);
            proof {
                assert(block@ =~= block_response@.subrange(8, i + 1));
            }
            i = i + 1;
        }
        Ok(block)
    }

    /// Starts downloading a piece that this peer has: the returned state names the block to
    /// request next and takes the answers in.
    pub fn download_piece(&self, piece_info: PieceInfo) -> (r: Result<PieceDownload, Error>)
        ensures
            r is Ok <==> bit_set(self.has_pieces@, piece_info.index),
            r matches Ok(d) ==> d.piece == piece_info && d.block_no == 0 && d.data@.len() == 0 && d.wf(),
            r matches Err(e) ==> e == Error::ProtocolViolation,
    {
        if !self.has_piece(piece_info.index) {
            return Err(Error::ProtocolViolation);
        }
        Ok(PieceDownload { piece: piece_info, block_no: 0, data: Vec::new() })
    }
}

/// A piece on its way in: the blocks received so far, in order.
pub struct PieceDownload {
    pub piece: PieceInfo,
    pub block_no: u32,
    pub data: Vec<u8>,
}

impl PieceDownload {
    /// Blocks `0 .. block_no` have arrived and `data` holds them.
    pub open spec fn wf(&self) -> bool {
        &&& self.block_no * BLOCK_SIZE <= self.piece.length + BLOCK_SIZE
        &&& self.data@.len() == if self.block_no * BLOCK_SIZE < self.piece.length {
            self.block_no * BLOCK_SIZE
        } else {
            self.piece.length as int
        }
    }

    /// Every block has arrived.
    pub open spec fn complete(&self) -> bool {
        self.block_no * BLOCK_SIZE >= self.piece.length
    }

    /// The request for the next block, or `None` once the piece is complete.
    pub fn next_request(&self) -> (r: Option<BlockRequestRaw>)
        requires
            self.wf(),
        ensures
            r is None <==> self.complete(),
            r matches Some(q) ==> ({
                let (s, l) = block_params(self.block_no as int, self.piece.length as int)->Some_0;
                &&& q.index@ == be_bytes(self.piece.index)
                &&& q.begin@ == be_bytes(s as u32)
                &&& q.length@ == be_bytes(l as u32)
            }),
    {
        match Peer::next_block_params(self.block_no, self.piece.length) {
            Some((start, length)) => Some(BlockRequestRaw::new(self.piece.index, start, length)),
            None => None,
        }
    }

    /// Takes in the answer to the last request: a `piece` message payload.
    pub fn accept_block(&mut self, response: &[u8]) -> (r: Result<(), Error>)
        requires
            old(self).wf(),
            !old(self).complete(),
        ensures
            final(self).wf(),
            final(self).piece == old(self).piece,
            ({
                let (s, l) = block_params(old(self).block_no as int, old(self).piece.length as int)->Some_0;
                r is Ok <==> (response@.len() == BLOCK_HEADER_LENGTH + l
                    && be_value(response@.subrange(0, 4)) == old(self).piece.index
                    && be_value(response@.subrange(4, 8)) == s)
            }),
            r is Ok ==> final(self).block_no == old(self).block_no + 1 && final(self).data@
                == old(self).data@ + response@.subrange(8, response@.len() as int),
            r matches Err(e) ==> e == Error::ProtocolViolation && *final(self) == *old(self),
    {
        let (start, length) = match Peer::next_block_params(self.block_no, self.piece.length) {
            Some(p) => p,
            None => {
                return Err(Error::ProtocolViolation);
            },
        };
        let block = match Peer::extract_block_from_response(response, self.piece.index, start, length) {
            Ok(b) => b,
            Err(e) => {
                return Err(e);
            },
        };
        crate::bencode::push_bytes(&mut self.data, block.as_slice());
        self.block_no = self.block_no + 1;
        Ok(())
    }

    /// The piece's bytes, once complete, when their SHA-1 is the expected one.
    pub fn finish(self) -> (r: Result<Vec<u8>, Error>)
        requires
            self.wf(),
            self.complete(),
        ensures
            r is Ok <==> sha1_of(self.data@) == self.piece.hash@,
            r matches Ok(d) ==> d@ == self.data@ && d@.len() == self.piece.length,
            r matches Err(e) ==> e == Error::IntegrityFailure,
    {
        let actual = sha1_digest(self.data.as_slice());
        let mut i: usize = 0;
        while i < 20
            invariant
                i <= 20,
                actual@ == sha1_of(self.data@),
                forall|j: int| 0 <= j < i ==> actual@[j] == self.piece.hash@[j],
            decreases 20 - i,
        {
            if actual[i] != self.piece.hash[i] {
                return Err(Error::IntegrityFailure);
            }
            i = i + 1;
        }
        proof {
            assert(actual@ =~= self.piece.hash@);
        }
        Ok(self.data)
    }
}

} // verus!

verus! {

/// Where the setup of a peer connection stands.
#[derive(PartialEq, Eq, Structural, Debug, Clone, Copy)]
pub enum SetupState {
    Init,
    Handshaked,
    HaveBitfield,
    Interested,
    Ready,
    Failed,
}

/// What the connection has to do next for the setup to go on.
pub enum SetupAction {
    /// Send these bytes, then read the peer's handshake.
    ExchangeHandshake(Vec<u8>),
    /// Read one frame, which should be of this kind.
    Receive(MessageType),
    /// Send these bytes.
    Send(Vec<u8>),
    /// The peer takes requests now.
    Done,
    /// The setup failed; close the connection.
    Abort,
}

/// Nothing but zero bytes: a peer with no pieces.
pub open spec fn all_zero(b: Seq<u8>) -> bool {
    forall|i: int| 0 <= i < b.len() ==> b[i] == 0
}

/// The setup of one peer connection: handshake, bitfield, interested, unchoke.
pub struct PeerSession {
    pub state: SetupState,
    pub info_hash: [u8; 20],
    pub my_id: [u8; 20],
    pub peer_id: [u8; 20],
    pub bitfield: Vec<u8>,
}

impl PeerSession {
    pub fn new(info_hash: [u8; 20], my_id: [u8; 20]) -> (r: Self)
        ensures
            r.state == SetupState::Init,
            r.info_hash == info_hash,
            r.my_id == my_id,
    {
        PeerSession { state: SetupState::Init, info_hash, my_id, peer_id: [0u8; 20], bitfield: Vec::new() }
    }

    pub fn next_action(&self) -> (r: SetupAction)
        ensures
            self.state == SetupState::Init ==> (r matches SetupAction::ExchangeHandshake(b) && b@
                == handshake_spec(self.info_hash@, self.my_id@)),
            self.state == SetupState::Handshaked ==> r == SetupAction::Receive(MessageType::PiecesBitfield),
            self.state == SetupState::HaveBitfield ==> (r matches SetupAction::Send(b) && b@
                == frame_spec(message_id(MessageType::Interested), Seq::empty())),
            self.state == SetupState::Interested ==> r == SetupAction::Receive(MessageType::Unchoke),
            self.state == SetupState::Ready ==> r == SetupAction::Done,
            self.state == SetupState::Failed ==> r == SetupAction::Abort,
    {
        match self.state {
            SetupState::Init => SetupAction::ExchangeHandshake(handshake_message(&self.info_hash, &self.my_id)),
            SetupState::Handshaked => SetupAction::Receive(MessageType::PiecesBitfield),
            SetupState::HaveBitfield => {
                let empty: Vec<u8> = Vec::new();
                let b = write_message(MessageType::Interested, empty.as_slice());
                proof {
                    assert(empty@ =~= Seq::<u8>::empty());
                }
                SetupAction::Send(b)
            },
            SetupState::Interested => SetupAction::Receive(MessageType::Unchoke),
            SetupState::Ready => SetupAction::Done,
            SetupState::Failed => SetupAction::Abort,
        }
    }

    /// Takes in the peer's handshake.
    pub fn on_handshake(&mut self, reply: &[u8])
        requires
            old(self).state == SetupState::Init,
        ensures
            final(self).info_hash == old(self).info_hash,
            final(self).my_id == old(self).my_id,
            final(self).bitfield == old(self).bitfield,
            (final(self).state == SetupState::Handshaked) == (reply@.len() == HANDSHAKE_LENGTH
                && reply@[0] == PROTOCOL_NAME_LENGTH && reply@.subrange(1, 20) == protocol_name()
                && reply@.subrange(28, 48) == old(self).info_hash@),
            final(self).state == SetupState::Handshaked || final(self).state == SetupState::Failed,
            final(self).state == SetupState::Handshaked ==> final(self).peer_id@ == reply@.subrange(48, 68),
    {
        match validate_handshake(&self.info_hash, reply) {
            Ok(id) => {
                self.peer_id = id;
                self.state = SetupState::Handshaked;
            },
            Err(_) => {
                self.state = SetupState::Failed;
            },
        }
    }

    /// Takes in a frame that was received: its type id and payload.
    pub fn on_frame(&mut self, msg_type: u8, payload: Vec<u8>)
        requires
            old(self).state == SetupState::Handshaked || old(self).state == SetupState::Interested,
        ensures
            final(self).info_hash == old(self).info_hash,
            final(self).my_id == old(self).my_id,
            final(self).peer_id == old(self).peer_id,
            old(self).state == SetupState::Handshaked ==> if msg_type == message_id(MessageType::PiecesBitfield)
                && !all_zero(payload@) {
                final(self).state == SetupState::HaveBitfield && final(self).bitfield@ == payload@
            } else {
                final(self).state == SetupState::Failed
            },
            old(self).state == SetupState::Interested ==> final(self).bitfield == old(self).bitfield
                && if msg_type == message_id(MessageType::Unchoke) {
                final(self).state == SetupState::Ready
            } else {
                final(self).state == SetupState::Failed
            },
    {
        if self.state == SetupState::Handshaked {
            if msg_type != MessageType::PiecesBitfield.id() {
                self.state = SetupState::Failed;
                return;
            }
            let mut i: usize = 0;
            while i < payload.len()
                invariant
                    i <= payload.len(),
                    forall|j: int| 0 <= j < i ==> payload@[j] == 0,
                ensures
                    i <= payload.len(),
                    forall|j: int| 0 <= j < i ==> payload@[j] == 0,
                    i < payload.len() ==> payload@[i as int] != 0,
                decreases payload.len() - i,
            {
                if payload[i] != 0 {
                    break;
                }
                i = i + 1;
            }
            if i == payload.len() {
                self.state = SetupState::Failed;
            } else {
                self.bitfield = payload;
                self.state = SetupState::HaveBitfield;
            }
        } else {
            if msg_type == MessageType::Unchoke.id() {
                self.state = SetupState::Ready;
            } else {
                self.state = SetupState::Failed;
            }
        }
    }

    /// The `interested` message went out.
    pub fn on_sent(&mut self)
        requires
            old(self).state == SetupState::HaveBitfield,
        ensures
            final(self).state == SetupState::Interested,
            final(self).info_hash == old(self).info_hash,
            final(self).my_id == old(self).my_id,
            final(self).peer_id == old(self).peer_id,
            final(self).bitfield == old(self).bitfield,
    {
        self.state = SetupState::Interested;
    }

    /// The peer, once the setup is done.
    pub fn into_peer(self) -> (r: Option<Peer>)
        ensures
            r is Some <==> self.state == SetupState::Ready,
            r matches Some(p) ==> p.peer_id == self.peer_id && p.has_pieces == self.bitfield,
    {
        if self.state == SetupState::Ready {
            Some(Peer { peer_id: self.peer_id, has_pieces: self.bitfield })
        } else {
            None
        }
    }
}

} // verus!
