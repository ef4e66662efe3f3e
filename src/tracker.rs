use vstd::prelude::*;
use crate::bencode::{decode_term, decode_value, encode_term, entries_view, lemma_dict_view, Term, Value};
use crate::digest::sha1_of;
use crate::error::Error;
use crate::torrent::{field, lookup, valid_info, TorrentInfo};

verus! {

/// Bytes per peer in a compact peers string: an IPv4 address, then a big-endian port.
pub const PEER_LENGTH: usize = 6;
/// The port this client advertises.
pub const MY_PORT: u16 = 6881;

/// A peer's IPv4 address and port.
#[derive(PartialEq, Eq, Debug, Clone, Copy)]
pub struct PeerAddress {
    pub ip: [u8; 4],
    pub port: u16,
}

/// The tracker's answer: the peers, and what it says of the swarm when it says it.
#[derive(PartialEq, Debug)]
pub struct PeersResponse {
    pub complete: Option<i64>,
    pub incomplete: Option<i64>,
    pub interval: Option<i64>,
    pub min_interval: Option<i64>,
    pub peers: Vec<PeerAddress>,
}

/// The query parameters of an announce.
#[derive(PartialEq, Eq, Debug)]
pub struct AnnounceQuery {
    pub info_hash: [u8; 20],
    pub peer_id: [u8; 20],
    pub port: u16,
    pub uploaded: u64,
    pub downloaded: u64,
    pub left: u64,
    pub compact: bool,
}

/// `00112233445566778899` in ASCII: the peer id this client uses.
pub open spec fn my_peer_id_spec() -> Seq<u8> {
    seq![48u8, 48, 49, 49, 50, 50, 51, 51, 52, 52, 53, 53, 54, 54, 55, 55, 56, 56, 57, 57]
}

pub fn my_peer_id() -> (r: [u8; 20])
    ensures
        r@ == my_peer_id_spec(),
{
    let r = [48u8, 48, 49, 49, 50, 50, 51, 51, 52, 52, 53, 53, 54, 54, 55, 55, 56, 56, 57, 57];
    proof {
        assert(r@ =~= my_peer_id_spec());
    }
    r
}

/// `failure reason`
pub open spec fn key_failure_reason() -> Seq<u8> {
    seq![102u8, 97, 105, 108, 117, 114, 101, 32, 114, 101, 97, 115, 111, 110]
}

/// `peers`
pub open spec fn key_peers() -> Seq<u8> {
    seq![112u8, 101, 101, 114, 115]
}

/// `complete`
pub open spec fn key_complete() -> Seq<u8> {
    seq![99u8, 111, 109, 112, 108, 101, 116, 101]
}

/// `incomplete`
pub open spec fn key_incomplete() -> Seq<u8> {
    seq![105u8, 110, 99, 111, 109, 112, 108, 101, 116, 101]
}

/// `interval`
pub open spec fn key_interval() -> Seq<u8> {
    seq![105u8, 110, 116, 101, 114, 118, 97, 108]
}

/// `min interval`
pub open spec fn key_min_interval() -> Seq<u8> {
    seq![109u8, 105, 110, 32, 105, 110, 116, 101, 114, 118, 97, 108]
}

/// Peer `k` of a compact peers string.
pub open spec fn peer_at(b: Seq<u8>, k: int) -> PeerAddress {
    PeerAddress {
        ip: [b[6 * k], b[6 * k + 1], b[6 * k + 2], b[6 * k + 3]],
        port: (b[6 * k + 4] * 256 + b[6 * k + 5]) as u16,
    }
}

/// The integer under `key`, when there is one.
pub open spec fn int_field(t: Term, key: Seq<u8>) -> Option<i64> {
    match field(t, key) {
        Some(Term::Int(n)) => Some(n as i64),
        _ => None,
    }
}

/// The peers a compact peers string lists, in order.
pub fn deserialize_peers(peers: &[u8]) -> (r: Result<Vec<PeerAddress>, Error>)
    ensures
        r is Ok <==> peers@.len() % 6 == 0,
        r matches Ok(v) ==> v@.len() == peers@.len() / 6 && forall|k: int|
            0 <= k < v@.len() ==> #[trigger] v@[k] == peer_at(peers@, k),
        r matches Err(e) ==> e == Error::Malformed,
{
    if peers.len() % PEER_LENGTH != 0 {
        return Err(Error::Malformed);
    }
    let count = peers.len() / PEER_LENGTH;
    let mut v: Vec<PeerAddress> = Vec::new();
    let mut k: usize = 0;
    while k < count
        invariant
            count == peers.len() / 6,
            peers.len() % 6 == 0,
            k <= count,
            v@.len() == k,
            forall|j: int| 0 <= j < k ==> #[trigger] v@[j] == peer_at(peers@, j),
        decreases count - k,
    {
        let at = 6 * k;
        let p = PeerAddress {
            ip: [peers[at], peers[at + 1], peers[at + 2], peers[at + 3]],
            port: peers[at + 4] as u16 * 256 + peers[at + 5] as u16,
        };
        v.push(p);
        k = k + 1;
    }
    Ok(v)
}

fn failure_reason_key() -> (r: Vec<u8>)
    ensures
        r@ == key_failure_reason(),
{
    let r = vec![102u8, 97, 105, 108, 117, 114, 101, 32, 114, 101, 97, 115, 111, 110];
    proof {
        assert(r@ =~= key_failure_reason());
    }
    r
}

fn peers_key() -> (r: Vec<u8>)
    ensures
        r@ == key_peers(),
{
    let r = vec![112u8, 101, 101, 114, 115];
    proof {
        assert(r@ =~= key_peers());
    }
    r
}

fn complete_key() -> (r: Vec<u8>)
    ensures
        r@ == key_complete(),
{
    let r = vec![99u8, 111, 109, 112, 108, 101, 116, 101];
    proof {
        assert(r@ =~= key_complete());
    }
    r
}

fn incomplete_key() -> (r: Vec<u8>)
    ensures
        r@ == key_incomplete(),
{
    let r = vec![105u8, 110, 99, 111, 109, 112, 108, 101, 116, 101];
    proof {
        assert(r@ =~= key_incomplete());
    }
    r
}

fn interval_key() -> (r: Vec<u8>)
    ensures
        r@ == key_interval(),
{
    let r = vec![105u8, 110, 116, 101, 114, 118, 97, 108];
    proof {
        assert(r@ =~= key_interval());
    }
    r
}

fn min_interval_key() -> (r: Vec<u8>)
    ensures
        r@ == key_min_interval(),
{
    let r = vec![109u8, 105, 110, 32, 105, 110, 116, 101, 114, 118, 97, 108];
    proof {
        assert(r@ =~= key_min_interval());
    }
    r
}

/// The integer under `key` of a dictionary's entries, when there is one.
fn get_int(entries: &Vec<(Vec<u8>, Value)>, key: &[u8]) -> (r: Option<i64>)
    ensures
        r == match lookup(entries_view(entries@), key@) {
            Some(Term::Int(n)) => Some(n as i64),
            _ => None::<i64>,
        },
        r matches Some(n) ==> lookup(entries_view(entries@), key@) == Some(Term::Int(n as int)),
{
    match crate::torrent::dict_get(entries, key) {
        Some(Value::Int(n)) => Some(*n),
        _ => None,
    }
}

} // verus!

verus! {

/// What a tracker's answer amounts to.
pub enum ReplyView {
    /// A compact peers string.
    Peers(Seq<u8>),
    /// A failure reason.
    Rejected(Seq<u8>),
    Malformed,
}

pub open spec fn reply_view(s: Seq<u8>) -> ReplyView {
    match decode_term(s) {
        Some(t) => if !(t is Dict) {
            ReplyView::Malformed
        } else {
            match field(t, key_failure_reason()) {
                Some(Term::Bytes(m)) => ReplyView::Rejected(m),
                Some(_) => ReplyView::Malformed,
                None => match field(t, key_peers()) {
                    Some(Term::Bytes(b)) => if b.len() % 6 == 0 {
                        ReplyView::Peers(b)
                    } else {
                        ReplyView::Malformed
                    },
                    _ => ReplyView::Malformed,
                },
            }
        },
        None => ReplyView::Malformed,
    }
}

/// Reads the tracker's bencoded answer.
pub fn parse_peers_response(data: &[u8]) -> (r: Result<PeersResponse, Error>)
    ensures
        (reply_view(data@) == ReplyView::Malformed) == (r matches Err(Error::Malformed)),
        reply_view(data@) matches ReplyView::Rejected(m) ==> (r matches Err(
            Error::TrackerRejected(x),
        ) && x@ == m),
        reply_view(data@) matches ReplyView::Peers(b) ==> (r matches Ok(resp) && ({
            let t = decode_term(data@)->Some_0;
            &&& resp.peers@.len() == b.len() / 6
            &&& forall|k: int| 0 <= k < resp.peers@.len() ==> #[trigger] resp.peers@[k] == peer_at(b, k)
            &&& resp.complete == int_field(t, key_complete())
            &&& resp.incomplete == int_field(t, key_incomplete())
            &&& resp.interval == int_field(t, key_interval())
            &&& resp.min_interval == int_field(t, key_min_interval())
        })),
        r is Ok ==> reply_view(data@) is Peers,
{
    let v = match decode_value(data) {
        Ok(v) => v,
        Err(_) => {
            return Err(Error::Malformed);
        },
    };
    let entries = match &v {
        Value::Dict(e) => e,
        _ => {
            return Err(Error::Malformed);
        },
    };
    proof {
        lemma_dict_view(*entries);
    }
    let failure_k = failure_reason_key();
    match crate::torrent::dict_get(entries, failure_k.as_slice()) {
        Some(Value::Str(m)) => {
            let mut reason: Vec<u8> = Vec::new();
            crate::bencode::push_bytes(&mut reason, m.as_slice());
            proof {
                assert(reason@ =~= m@);
            }
            return Err(Error::TrackerRejected(reason));
        },
        Some(_) => {
            return Err(Error::Malformed);
        },
        None => {},
    }
    let peers_k = peers_key();
    let b = match crate::torrent::dict_get(entries, peers_k.as_slice()) {
        Some(Value::Str(b)) => b,
        _ => {
            return Err(Error::Malformed);
        },
    };
    let peers = match deserialize_peers(b.as_slice()) {
        Ok(p) => p,
        Err(e) => {
            return Err(e);
        },
    };
    let complete_k = complete_key();
    let incomplete_k = incomplete_key();
    let interval_k = interval_key();
    let min_interval_k = min_interval_key();
    Ok(
        PeersResponse {
            complete: get_int(entries, complete_k.as_slice()),
            incomplete: get_int(entries, incomplete_k.as_slice()),
            interval: get_int(entries, interval_k.as_slice()),
            min_interval: get_int(entries, min_interval_k.as_slice()),
            peers,
        },
    )
}

/// The parameters of the first announce for a torrent: nothing sent or received yet, the whole
/// payload left.
pub fn announce_query(info: &TorrentInfo) -> (r: AnnounceQuery)
    requires
        valid_info(info@),
    ensures
        r.info_hash@ == sha1_of(encode_term(info@.dictionary)),
        r.peer_id@ == my_peer_id_spec(),
        r.port == MY_PORT,
        r.uploaded == 0,
        r.downloaded == 0,
        r.left == info@.shape->SingleFile_0,
        r.compact,
{
    AnnounceQuery {
        info_hash: info.get_info_hash(),
        peer_id: my_peer_id(),
        port: MY_PORT,
        uploaded: 0,
        downloaded: 0,
        left: info.get_length() as u64,
        compact: true,
    }
}

} // verus!
