use vstd::prelude::*;
use crate::bencode::{
    bencode_value, copy_value, decode_term, decode_value, encode_term, entries_view,
    lemma_decode_encode, lemma_dict_view, lex_lt, well_formed, Term, Value,
};
use crate::error::Error;
use crate::text::string_from_utf8;
use vstd::utf8::{decode_utf8, valid_utf8};
use crate::digest::{hex_encode, hex_text, sha1_digest, sha1_of};

verus! {

/// Whether the torrent describes one file or several.
#[derive(PartialEq, Debug)]
pub enum TorrentType {
    SingleFile { length: u32 },
    /// The `files` list, kept as it was read.
    MultiFile { files: Value },
}

/// The `info` dictionary of a metainfo file.
#[derive(PartialEq, Debug)]
pub struct TorrentInfo {
    pub name: Vec<u8>,
    pub torrent_type: TorrentType,
    pub piece_length: u32,
    pub pieces: Vec<[u8; 20]>,
    /// The whole dictionary as it was read, keys the model does not use included; the info
    /// hash is taken over its encoding.
    pub dictionary: Value,
}

/// A metainfo file: the tracker to announce to and the payload's description.
#[derive(PartialEq, Debug)]
pub struct Torrent {
    pub announce: String,
    pub info: TorrentInfo,
}

/// One piece of the payload: where it starts in the file, how long it is, its SHA-1.
#[derive(PartialEq, Eq, Debug, Clone, Copy)]
pub struct PieceInfo {
    pub index: u32,
    pub length: u32,
    pub hash: [u8; 20],
    pub file_start_pos: u32,
}

pub enum ShapeView {
    SingleFile(int),
    MultiFile(Term),
}

pub struct InfoView {
    pub name: Seq<u8>,
    pub shape: ShapeView,
    pub piece_length: int,
    pub pieces: Seq<Seq<u8>>,
    pub dictionary: Term,
}

pub struct TorrentView {
    pub announce: Seq<char>,
    pub info: InfoView,
}

impl View for TorrentInfo {
    type V = InfoView;

    open spec fn view(&self) -> InfoView {
        InfoView {
            name: self.name@,
            shape: match self.torrent_type {
                TorrentType::SingleFile { length } => ShapeView::SingleFile(length as int),
                TorrentType::MultiFile { files } => ShapeView::MultiFile(files@),
            },
            piece_length: self.piece_length as int,
            pieces: Seq::new(self.pieces@.len(), |i: int| self.pieces@[i]@),
            dictionary: self.dictionary@,
        }
    }
}

impl View for Torrent {
    type V = TorrentView;

    open spec fn view(&self) -> TorrentView {
        TorrentView { announce: self.announce@, info: self.info@ }
    }
}

// Dictionary keys, as ASCII bytes.

/// `announce`
pub open spec fn key_announce() -> Seq<u8> {
    seq![97u8, 110, 110, 111, 117, 110, 99, 101]
}

/// `info`
pub open spec fn key_info() -> Seq<u8> {
    seq![105u8, 110, 102, 111]
}

/// `files`
pub open spec fn key_files() -> Seq<u8> {
    seq![102u8, 105, 108, 101, 115]
}

/// `length`
pub open spec fn key_length() -> Seq<u8> {
    seq![108u8, 101, 110, 103, 116, 104]
}

/// `name`
pub open spec fn key_name() -> Seq<u8> {
    seq![110u8, 97, 109, 101]
}

/// `piece length`
pub open spec fn key_piece_length() -> Seq<u8> {
    seq![112u8, 105, 101, 99, 101, 32, 108, 101, 110, 103, 116, 104]
}

/// `pieces`
pub open spec fn key_pieces() -> Seq<u8> {
    seq![112u8, 105, 101, 99, 101, 115]
}

fn announce_key() -> (r: Vec<u8>)
    ensures
        r@ == key_announce(),
{
    let r = vec![97u8, 110, 110, 111, 117, 110, 99, 101];
    proof {
        assert(r@ =~= key_announce());
    }
    r
}

fn info_key() -> (r: Vec<u8>)
    ensures
        r@ == key_info(),
{
    let r = vec![105u8, 110, 102, 111];
    proof {
        assert(r@ =~= key_info());
    }
    r
}

fn files_key() -> (r: Vec<u8>)
    ensures
        r@ == key_files(),
{
    let r = vec![102u8, 105, 108, 101, 115];
    proof {
        assert(r@ =~= key_files());
    }
    r
}

fn length_key() -> (r: Vec<u8>)
    ensures
        r@ == key_length(),
{
    let r = vec![108u8, 101, 110, 103, 116, 104];
    proof {
        assert(r@ =~= key_length());
    }
    r
}

fn name_key() -> (r: Vec<u8>)
    ensures
        r@ == key_name(),
{
    let r = vec![110u8, 97, 109, 101];
    proof {
        assert(r@ =~= key_name());
    }
    r
}

fn piece_length_key() -> (r: Vec<u8>)
    ensures
        r@ == key_piece_length(),
{
    let r = vec![112u8, 105, 101, 99, 101, 32, 108, 101, 110, 103, 116, 104];
    proof {
        assert(r@ =~= key_piece_length());
    }
    r
}

fn pieces_key() -> (r: Vec<u8>)
    ensures
        r@ == key_pieces(),
{
    let r = vec![112u8, 105, 101, 99, 101, 115];
    proof {
        assert(r@ =~= key_pieces());
    }
    r
}

/// The value under `key` in a dictionary's entries (the first one, should keys repeat).
pub open spec fn lookup(entries: Seq<(Seq<u8>, Term)>, key: Seq<u8>) -> Option<Term>
    decreases entries.len(),
{
    if entries.len() == 0 {
        None
    } else if entries[0].0 == key {
        Some(entries[0].1)
    } else {
        lookup(entries.drop_first(), key)
    }
}

/// The value under `key` when `t` is a dictionary.
pub open spec fn field(t: Term, key: Seq<u8>) -> Option<Term> {
    match t {
        Term::Dict(entries) => lookup(entries, key),
        _ => None,
    }
}

pub open spec fn ceil_div(a: int, b: int) -> int {
    (a + b - 1) / b
}

/// The 20-byte hashes that a `pieces` string holds, in order.
pub open spec fn split_hashes(b: Seq<u8>) -> Seq<Seq<u8>> {
    Seq::new(b.len() / 20, |i: int| b.subrange(20 * i, 20 * i + 20))
}

/// What an `info` dictionary describes, or why it is refused.
pub open spec fn info_from_term(t: Term) -> Result<InfoView, Error> {
    let name = field(t, key_name());
    let pl = field(t, key_piece_length());
    let pieces = field(t, key_pieces());
    let length = field(t, key_length());
    if !(t is Dict) || !(name matches Some(Term::Bytes(_))) || !(pl matches Some(Term::Int(_)))
        || !(pieces matches Some(Term::Bytes(_))) {
        Err(Error::Malformed)
    } else if length is None {
        if field(t, key_files()) is Some {
            Err(Error::Unsupported)
        } else {
            Err(Error::Malformed)
        }
    } else if !(length matches Some(Term::Int(_))) {
        Err(Error::Malformed)
    } else {
        let n = name->Some_0->Bytes_0;
        let p = pl->Some_0->Int_0;
        let b = pieces->Some_0->Bytes_0;
        let l = length->Some_0->Int_0;
        if !(1 <= p <= l <= u32::MAX) || b.len() % 20 != 0 || b.len() / 20 != ceil_div(l, p) {
            Err(Error::Malformed)
        } else {
            Ok(
                InfoView {
                    name: n,
                    shape: ShapeView::SingleFile(l),
                    piece_length: p,
                    pieces: split_hashes(b),
                    dictionary: t,
                },
            )
        }
    }
}

/// What a bencoded `info` dictionary describes.
pub open spec fn info_from_bytes(s: Seq<u8>) -> Result<InfoView, Error> {
    match decode_term(s) {
        Some(t) => info_from_term(t),
        None => Err(Error::Malformed),
    }
}

/// What a metainfo file describes.
pub open spec fn torrent_from_bytes(s: Seq<u8>) -> Result<TorrentView, Error> {
    match decode_term(s) {
        None => Err(Error::Malformed),
        Some(t) => {
            let announce = field(t, key_announce());
            match (announce, field(t, key_info())) {
                (Some(Term::Bytes(a)), Some(i)) => if !valid_utf8(a) {
                    Err(Error::Malformed)
                } else {
                    match info_from_term(i) {
                        Ok(iv) => Ok(TorrentView { announce: decode_utf8(a), info: iv }),
                        Err(e) => Err(e),
                    }
                },
                _ => Err(Error::Malformed),
            }
        },
    }
}

/// A layout the downloader can work with: one file, and as many hashes as pieces.
pub open spec fn usable_layout(i: InfoView) -> bool {
    &&& i.shape matches ShapeView::SingleFile(l)
    &&& 1 <= i.piece_length <= l <= u32::MAX
    &&& i.pieces.len() == ceil_div(l, i.piece_length)
    &&& forall|k: int| 0 <= k < i.pieces.len() ==> (#[trigger] i.pieces[k]).len() == 20
}

/// A usable layout that is what its dictionary says, the dictionary being well-formed.
pub open spec fn valid_info(i: InfoView) -> bool {
    &&& usable_layout(i)
    &&& well_formed(i.dictionary)
    &&& info_from_term(i.dictionary) == Ok::<InfoView, Error>(i)
}

pub(crate) fn dict_get<'a>(entries: &'a Vec<(Vec<u8>, Value)>, key: &[u8]) -> (r: Option<&'a Value>)
    ensures
        match r {
            Some(v) => lookup(entries_view(entries@), key@) == Some(v@),
            None => lookup(entries_view(entries@), key@) is None,
        },
{
    let ghost ev = entries_view(entries@);
    let mut i: usize = 0;
    proof {
        assert(ev.skip(0) =~= ev);
    }
    while i < entries.len()
        invariant
            i <= entries.len(),
            ev == entries_view(entries@),
            lookup(ev, key@) == lookup(ev.skip(i as int), key@),
        decreases entries.len() - i,
    {
        let c = crate::bencode::compare_bytes(entries[i].0.as_slice(), key);
        proof {
            assert(ev.skip(i as int)[0] == ev[i as int]);
            assert(ev.skip(i as int).drop_first() =~= ev.skip(i + 1));
        }
        if c == 0 {
            return Some(&entries[i].1);
        }
        i = i + 1;
    }
    None
}

/// The hashes of a `pieces` string whose length is a multiple of 20.
fn split_pieces(b: &[u8]) -> (r: Vec<[u8; 20]>)
    requires
        b.len() % 20 == 0,
    ensures
        Seq::new(r@.len(), |i: int| r@[i]@) == split_hashes(b@),
{
    let mut r: Vec<[u8; 20]> = Vec::new();
    let mut k: usize = 0;
    let count = b.len() / 20;
    while k < count
        invariant
            count == b.len() / 20,
            k <= count,
            r@.len() == k,
            forall|i: int| 0 <= i < k ==> #[trigger] r@[i]@ == b@.subrange(20 * i, 20 * i + 20),
        decreases count - k,
    {
        let mut h = [0u8; 20];
        let mut j: usize = 0;
        while j < 20
            invariant
                j <= 20,
                k < count,
                count == b.len() / 20,
                forall|m: int| 0 <= m < j ==> h@[m] == b@[20 * k + m],
            decreases 20 - j,
        {
            h[j] = b[20 * k + j];
            j = j + 1;
        }
        proof {
            assert(h@ =~= b@.subrange(20 * k, 20 * k + 20));
        }
        r.push(h);
        k = k + 1;
    }
    proof {
        assert(Seq::new(r@.len(), |i: int| r@[i]@) =~= split_hashes(b@));
    }
    r
}

} // verus!

verus! {

fn copy_bytes(b: &[u8]) -> (r: Vec<u8>)
    ensures
        r@ == b@,
{
    let mut r: Vec<u8> = Vec::new();
    crate::bencode::push_bytes(&mut r, b);
    proof {
        assert(r@ =~= b@);
    }
    r
}

/// Reads the typed description out of a decoded `info` dictionary.
fn parse_info_value(v: &Value) -> (r: Result<TorrentInfo, Error>)
    ensures
        match r {
            Ok(i) => info_from_term(v@) == Ok::<InfoView, Error>(i@),
            Err(e) => info_from_term(v@) == Err::<InfoView, Error>(e),
        },
{
    let entries = match v {
        Value::Dict(e) => e,
        _ => {
            return Err(Error::Malformed);
        },
    };
    proof {
        lemma_dict_view(*entries);
    }
    let name_k = name_key();
    let pl_k = piece_length_key();
    let pieces_k = pieces_key();
    let length_k = length_key();
    let name = dict_get(entries, name_k.as_slice());
    let pl = dict_get(entries, pl_k.as_slice());
    let pieces = dict_get(entries, pieces_k.as_slice());
    let length = dict_get(entries, length_k.as_slice());
    let (name_b, p, b) = match (name, pl, pieces) {
        (Some(Value::Str(n)), Some(Value::Int(p)), Some(Value::Str(b))) => (n, *p, b),
        _ => {
            return Err(Error::Malformed);
        },
    };
    let l = match length {
        None => {
            let files_k = files_key();
            if dict_get(entries, files_k.as_slice()).is_some() {
                return Err(Error::Unsupported);
            } else {
                return Err(Error::Malformed);
            }
        },
        Some(Value::Int(l)) => *l,
        Some(_) => {
            return Err(Error::Malformed);
        },
    };
    if !(1 <= p && p <= l && l <= 0xffff_ffff) || b.len() % 20 != 0 {
        return Err(Error::Malformed);
    }
    let pl32 = p as u32;
    let l32 = l as u32;
    let expected: u64 = (l32 as u64 + pl32 as u64 - 1) / pl32 as u64;
    if b.len() as u64 / 20 != expected {
        return Err(Error::Malformed);
    }
    let info = TorrentInfo {
        name: copy_bytes(name_b.as_slice()),
        torrent_type: TorrentType::SingleFile { length: l32 },
        piece_length: pl32,
        pieces: split_pieces(b.as_slice()),
        dictionary: copy_value(v),
    };
    Ok(info)
}

/// Parses a bencoded `info` dictionary on its own.
pub fn parse_info(data: &[u8]) -> (r: Result<TorrentInfo, Error>)
    ensures
        match r {
            Ok(i) => info_from_bytes(data@) == Ok::<InfoView, Error>(i@) && valid_info(i@),
            Err(e) => info_from_bytes(data@) == Err::<InfoView, Error>(e),
        },
{
    match decode_value(data) {
        Ok(v) => {
            let r = parse_info_value(&v);
            proof {
                if r is Ok {
                    lemma_parsed_info_valid(data@);
                }
            }
            r
        },
        Err(e) => Err(e),
    }
}

/// Parses a metainfo file: a dictionary with `announce` and a single-file `info`.
pub fn parse_torrent(data: &[u8]) -> (r: Result<Torrent, Error>)
    ensures
        match r {
            Ok(t) => torrent_from_bytes(data@) == Ok::<TorrentView, Error>(t@) && valid_info(t.info@),
            Err(e) => torrent_from_bytes(data@) == Err::<TorrentView, Error>(e),
        },
{
    let v = match decode_value(data) {
        Ok(v) => v,
        Err(e) => {
            return Err(e);
        },
    };
    let entries = match &v {
        Value::Dict(e) => e,
        _ => {
            return Err(Error::Malformed);
        },
    };
    proof {
        lemma_dict_view(*entries);
    }
    let announce_k = announce_key();
    let info_k = info_key();
    let announce = match dict_get(entries, announce_k.as_slice()) {
        Some(Value::Str(a)) => a,
        _ => {
            return Err(Error::Malformed);
        },
    };
    let info_v = match dict_get(entries, info_k.as_slice()) {
        Some(i) => i,
        None => {
            return Err(Error::Malformed);
        },
    };
    let announce = match string_from_utf8(copy_bytes(announce.as_slice())) {
        Some(a) => a,
        None => {
            return Err(Error::Malformed);
        },
    };
    match parse_info_value(info_v) {
        Ok(info) => {
            let t = Torrent { announce, info };
            proof {
                lemma_parsed_torrent_valid(data@);
            }
            Ok(t)
        },
        Err(e) => Err(e),
    }
}

} // verus!

verus! {

/// Where piece `k` starts in the payload.
pub open spec fn piece_start(i: InfoView, k: int) -> int {
    k * i.piece_length
}

/// How long piece `k` is: a full piece, or what is left of the payload for the last one.
pub open spec fn piece_size(i: InfoView, k: int) -> int {
    let rest = i.shape->SingleFile_0 - piece_start(i, k);
    if rest < i.piece_length {
        rest
    } else {
        i.piece_length
    }
}

/// `p` is piece `k` of the payload that `i` describes.
pub open spec fn describes_piece(i: InfoView, k: int, p: PieceInfo) -> bool {
    &&& p.index == k
    &&& p.file_start_pos == piece_start(i, k)
    &&& p.length == piece_size(i, k)
    &&& p.hash@ == i.pieces[k]
}

pub proof fn lemma_piece_bounds(l: int, p: int, k: int)
    requires
        1 <= p <= l,
        0 <= k,
    ensures
        0 <= k * p,
        k < ceil_div(l, p) ==> k * p < l,
        1 <= ceil_div(l, p) <= l,
{
    assert(0 <= k * p) by (nonlinear_arith)
        requires
            0 <= k,
            1 <= p,
    ;
    if k < ceil_div(l, p) {
        assert(k * p < l) by (nonlinear_arith)
            requires
                1 <= p <= l,
                0 <= k < (l + p - 1) / p,
        ;
    }
    assert((l + p - 1) / p <= l) by (nonlinear_arith)
        requires
            1 <= p <= l,
    ;
    assert((l + p - 1) / p >= 1) by (nonlinear_arith)
        requires
            1 <= p <= l,
    ;
}

impl TorrentInfo {
    pub fn is_single_file(&self) -> (r: bool)
        ensures
            r == (self.torrent_type is SingleFile),
    {
        match self.torrent_type {
            TorrentType::SingleFile { .. } => true,
            _ => false,
        }
    }

    /// Total payload length of a single-file torrent.
    pub fn get_length(&self) -> (r: u32)
        requires
            self.torrent_type is SingleFile,
        ensures
            r == self.torrent_type->length,
            self@.shape == ShapeView::SingleFile(r as int),
    {
        match self.torrent_type {
            TorrentType::SingleFile { length } => length,
            _ => 0,
        }
    }

    /// Piece `index`: its place and size in the payload, and its hash.
    pub fn get_piece_info(&self, index: u32) -> (r: Result<PieceInfo, Error>)
        requires
            valid_info(self@),
        ensures
            index >= self.pieces.len() <==> r is Err,
            r matches Err(e) ==> e == Error::OutOfRange,
            r matches Ok(p) ==> describes_piece(self@, index as int, p),
    {
        if index as usize >= self.pieces.len() {
            return Err(Error::OutOfRange);
        }
        let length = self.get_length();
        proof {
            lemma_piece_bounds(length as int, self.piece_length as int, index as int);
        }
        let start = index * self.piece_length;
        let rest = length - start;
        let size = if rest < self.piece_length {
            rest
        } else {
            self.piece_length
        };
        Ok(PieceInfo { index, length: size, hash: self.pieces[index as usize], file_start_pos: start })
    }

    /// Every piece, in order.
    pub fn get_all_pieces_info(&self) -> (r: Vec<PieceInfo>)
        requires
            valid_info(self@),
        ensures
            r@.len() == self.pieces@.len(),
            forall|k: int| 0 <= k < r@.len() ==> describes_piece(self@, k, #[trigger] r@[k]),
    {
        let ghost l = self@.shape->SingleFile_0;
        proof {
            lemma_piece_bounds(l, self.piece_length as int, 0);
        }
        let count = self.pieces.len();
        let mut r: Vec<PieceInfo> = Vec::new();
        let mut k: usize = 0;
        while k < count
            invariant
                valid_info(self@),
                l == self@.shape->SingleFile_0,
                count == self.pieces.len(),
                count <= l,
                k <= count,
                r@.len() == k,
                forall|j: int| 0 <= j < k ==> describes_piece(self@, j, #[trigger] r@[j]),
            decreases count - k,
        {
            match self.get_piece_info(k as u32) {
                Ok(p) => {
                    r.push(p);
                },
                Err(_) => {},
            }
            k = k + 1;
        }
        r
    }

    /// The hexadecimal text of each piece hash.
    pub fn get_encoded_piece_hashes(&self) -> (r: Vec<String>)
        ensures
            r@.len() == self.pieces@.len(),
            forall|k: int| 0 <= k < r@.len() ==> (#[trigger] r@[k])@ == hex_text(self@.pieces[k]),
    {
        let mut r: Vec<String> = Vec::new();
        let mut k: usize = 0;
        while k < self.pieces.len()
            invariant
                k <= self.pieces.len(),
                r@.len() == k,
                forall|j: int| 0 <= j < k ==> (#[trigger] r@[j])@ == hex_text(self@.pieces[j]),
            decreases self.pieces.len() - k,
        {
            r.push(hex_encode(self.pieces[k].as_slice()));
            k = k + 1;
        }
        r
    }
}

} // verus!

verus! {

/// The piece hashes back to back.
pub open spec fn concat_hashes(p: Seq<Seq<u8>>) -> Seq<u8>
    decreases p.len(),
{
    if p.len() == 0 {
        Seq::empty()
    } else {
        concat_hashes(p.drop_last()) + p.last()
    }
}

/// The `info` dictionary that a description is encoded as, keys in ascending order.
pub open spec fn info_term(i: InfoView) -> Term {
    let first = match i.shape {
        ShapeView::SingleFile(l) => (key_length(), Term::Int(l)),
        ShapeView::MultiFile(f) => (key_files(), f),
    };
    Term::Dict(
        seq![
            first,
            (key_name(), Term::Bytes(i.name)),
            (key_piece_length(), Term::Int(i.piece_length)),
            (key_pieces(), Term::Bytes(concat_hashes(i.pieces))),
        ],
    )
}

fn join_pieces(pieces: &Vec<[u8; 20]>) -> (r: Vec<u8>)
    ensures
        r@ == concat_hashes(Seq::new(pieces@.len(), |i: int| pieces@[i]@)),
{
    let ghost pv = Seq::new(pieces@.len(), |i: int| pieces@[i]@);
    let mut r: Vec<u8> = Vec::new();
    let mut k: usize = 0;
    proof {
        assert(pv.take(0) =~= Seq::<Seq<u8>>::empty());
    }
    while k < pieces.len()
        invariant
            k <= pieces.len(),
            pv == Seq::new(pieces@.len(), |i: int| pieces@[i]@),
            r@ == concat_hashes(pv.take(k as int)),
        decreases pieces.len() - k,
    {
        crate::bencode::push_bytes(&mut r, pieces[k].as_slice());
        proof {
            assert(pv.take(k + 1).drop_last() =~= pv.take(k as int));
        }
        k = k + 1;
    }
    proof {
        assert(pv.take(k as int) =~= pv);
    }
    r
}

impl TorrentInfo {
    /// A description built from its parts; its dictionary holds exactly those parts.
    pub fn new(name: Vec<u8>, torrent_type: TorrentType, piece_length: u32, pieces: Vec<[u8; 20]>) -> (r: Self)
        ensures
            r.name@ == name@,
            r.torrent_type == torrent_type,
            r.piece_length == piece_length,
            r.pieces@ == pieces@,
            r@.dictionary == info_term(r@),
            usable_layout(r@) ==> valid_info(r@),
    {
        let first = match &torrent_type {
            TorrentType::SingleFile { length } => (length_key(), Value::Int(*length as i64)),
            TorrentType::MultiFile { files } => (files_key(), copy_value(files)),
        };
        let name_copy = copy_bytes(name.as_slice());
        let joined = join_pieces(&pieces);
        let mut entries: Vec<(Vec<u8>, Value)> = Vec::new();
        entries.push(first);
        entries.push((name_key(), Value::Str(name_copy)));
        entries.push((piece_length_key(), Value::Int(piece_length as i64)));
        entries.push((pieces_key(), Value::Str(joined)));
        let ghost ev = entries_view(entries@);
        proof {
            lemma_dict_view(entries);
        }
        let r = TorrentInfo { name, torrent_type, piece_length, pieces, dictionary: Value::Dict(entries) };
        proof {
            assert(ev =~= info_term(r@)->Dict_0);
            if usable_layout(r@) {
                lemma_info_term_valid(r@);
            }
        }
        r
    }

    /// The canonical bencoding of the `info` dictionary.
    pub fn encode_info(&self) -> (r: Vec<u8>)
        requires
            well_formed(self@.dictionary),
        ensures
            r@ == encode_term(self@.dictionary),
            decode_term(r@) == Some(self@.dictionary),
    {
        bencode_value(&self.dictionary)
    }

    /// The info hash: SHA-1 of the canonical bencoding of the `info` dictionary.
    pub fn get_info_hash(&self) -> (r: [u8; 20])
        requires
            well_formed(self@.dictionary),
        ensures
            r@ == sha1_of(encode_term(self@.dictionary)),
    {
        let encoded = self.encode_info();
        sha1_digest(encoded.as_slice())
    }
}

} // verus!

verus! {

proof fn lemma_concat_hashes(p: Seq<Seq<u8>>)
    requires
        forall|k: int| 0 <= k < p.len() ==> (#[trigger] p[k]).len() == 20,
    ensures
        concat_hashes(p).len() == 20 * p.len(),
        forall|k: int|
            0 <= k < p.len() ==> #[trigger] concat_hashes(p).subrange(20 * k, 20 * k + 20) == p[k],
    decreases p.len(),
{
    if p.len() > 0 {
        let q = p.drop_last();
        lemma_concat_hashes(q);
        let c = concat_hashes(p);
        assert forall|k: int| 0 <= k < p.len() implies #[trigger] c.subrange(20 * k, 20 * k + 20)
            == p[k] by {
            if k < q.len() {
                assert(c.subrange(20 * k, 20 * k + 20) =~= concat_hashes(q).subrange(
                    20 * k,
                    20 * k + 20,
                ));
            } else {
                assert(c.subrange(20 * k, 20 * k + 20) =~= p.last());
            }
        }
    }
}

proof fn lemma_info_keys_ascending()
    ensures
        lex_lt(key_length(), key_name()),
        lex_lt(key_length(), key_piece_length()),
        lex_lt(key_length(), key_pieces()),
        lex_lt(key_name(), key_piece_length()),
        lex_lt(key_name(), key_pieces()),
        lex_lt(key_piece_length(), key_pieces()),
{
    // `piece length` and `pieces` share the five bytes `piece`, then a space sorts before `s`
    let a = key_piece_length();
    let b = key_pieces();
    reveal_with_fuel(lex_lt, 7);
    assert(a.drop_first() =~= seq![105u8, 101, 99, 101, 32, 108, 101, 110, 103, 116, 104]);
    assert(b.drop_first() =~= seq![105u8, 101, 99, 101, 115]);
    assert(a.drop_first().drop_first() =~= seq![101u8, 99, 101, 32, 108, 101, 110, 103, 116, 104]);
    assert(b.drop_first().drop_first() =~= seq![101u8, 99, 101, 115]);
    assert(a.drop_first().drop_first().drop_first() =~= seq![99u8, 101, 32, 108, 101, 110, 103, 116, 104]);
    assert(b.drop_first().drop_first().drop_first() =~= seq![99u8, 101, 115]);
    assert(a.drop_first().drop_first().drop_first().drop_first() =~= seq![101u8, 32, 108, 101, 110, 103, 116, 104]);
    assert(b.drop_first().drop_first().drop_first().drop_first() =~= seq![101u8, 115]);
    assert(a.drop_first().drop_first().drop_first().drop_first().drop_first() =~= seq![32u8, 108, 101, 110, 103, 116, 104]);
    assert(b.drop_first().drop_first().drop_first().drop_first().drop_first() =~= seq![115u8]);
}

/// The canonical form of a usable layout is a well-formed value.
proof fn lemma_info_term_well_formed(i: InfoView)
    requires
        usable_layout(i),
    ensures
        well_formed(info_term(i)),
{
    lemma_info_keys_ascending();
    let es = info_term(i)->Dict_0;
    assert(crate::bencode::keys_ascending(es));
    assert(well_formed(es[0].1));
    assert(well_formed(es[1].1));
    assert(well_formed(es[2].1));
    assert(well_formed(es[3].1));
    assert forall|k: int| 0 <= k < es.len() implies well_formed(#[trigger] es[k].1) by {
        assert(k == 0 || k == 1 || k == 2 || k == 3);
    }
}

/// A usable layout whose dictionary is built from its parts is valid.
proof fn lemma_info_term_valid(i: InfoView)
    requires
        usable_layout(i),
        i.dictionary == info_term(i),
    ensures
        valid_info(i),
{
    let t = info_term(i);
    lemma_info_term_well_formed(i);
    lemma_concat_hashes(i.pieces);
    reveal_with_fuel(lookup, 5);
    assert(key_length() != key_name());
    assert(key_length() != key_piece_length());
    assert(key_name() != key_piece_length());
    assert(key_length()[0] != key_pieces()[0]);
    assert(key_length() != key_pieces());
    assert(key_name() != key_pieces());
    assert(key_piece_length() != key_pieces());
    assert(field(t, key_name()) == Some(Term::Bytes(i.name)));
    assert(field(t, key_piece_length()) == Some(Term::Int(i.piece_length)));
    assert(field(t, key_pieces()) == Some(Term::Bytes(concat_hashes(i.pieces))));
    assert(field(t, key_length()) == Some(Term::Int(i.shape->SingleFile_0)));
    let b = concat_hashes(i.pieces);
    assert(b.len() / 20 == i.pieces.len());
    assert(split_hashes(b) =~= i.pieces);
}

proof fn lemma_lookup_well_formed(entries: Seq<(Seq<u8>, Term)>, key: Seq<u8>)
    requires
        forall|i: int| 0 <= i < entries.len() ==> well_formed(#[trigger] entries[i].1),
        lookup(entries, key) is Some,
    ensures
        well_formed(lookup(entries, key)->Some_0),
    decreases entries.len(),
{
    if entries[0].0 != key {
        let rest = entries.drop_first();
        assert forall|i: int| 0 <= i < rest.len() implies well_formed(#[trigger] rest[i].1) by {
            assert(rest[i] == entries[i + 1]);
        }
        lemma_lookup_well_formed(rest, key);
    } else {
        assert(well_formed(entries[0].1));
    }
}

proof fn lemma_dict_values_well_formed(t: Term)
    requires
        well_formed(t),
        t is Dict,
    ensures
        forall|i: int| 0 <= i < t->Dict_0.len() ==> well_formed(#[trigger] t->Dict_0[i].1),
{
    assert forall|i: int| 0 <= i < t->Dict_0.len() implies well_formed(#[trigger] t->Dict_0[i].1) by {
        assert(decreases_to!(t => t->Dict_0));
        assert(decreases_to!(t->Dict_0 => t->Dict_0[i]));
        assert(decreases_to!(t->Dict_0[i] => t->Dict_0[i].1));
    }
}

/// A decoded `info` dictionary that the model accepts gives a valid description.
pub proof fn lemma_parsed_info_valid(s: Seq<u8>)
    requires
        info_from_bytes(s) is Ok,
    ensures
        valid_info(info_from_bytes(s)->Ok_0),
{
    crate::bencode::lemma_decoded_well_formed(s);
}

/// Parsing accepts only usable descriptions: a single file, at least one piece, and exactly
/// as many piece hashes as the length needs pieces.
pub proof fn lemma_parsed_torrent_valid(s: Seq<u8>)
    requires
        torrent_from_bytes(s) is Ok,
    ensures
        valid_info(torrent_from_bytes(s)->Ok_0.info),
        ({
            let i = torrent_from_bytes(s)->Ok_0.info;
            &&& i.pieces.len() == ceil_div(i.shape->SingleFile_0, i.piece_length)
            &&& i.pieces.len() >= 1
        }),
{
    let t = decode_term(s)->Some_0;
    crate::bencode::lemma_decoded_well_formed(s);
    lemma_dict_values_well_formed(t);
    lemma_lookup_well_formed(t->Dict_0, key_info());
    let i = torrent_from_bytes(s)->Ok_0.info;
    lemma_piece_bounds(i.shape->SingleFile_0, i.piece_length, 0);
}

/// Parsing the encoding of a valid `info` dictionary gives the same description back, with
/// the same dictionary; the recovered description therefore hashes to the same info hash.
pub proof fn lemma_info_round_trip(i: InfoView)
    requires
        valid_info(i),
    ensures
        info_from_bytes(encode_term(i.dictionary)) == Ok::<InfoView, Error>(i),
        sha1_of(encode_term(info_from_bytes(encode_term(i.dictionary))->Ok_0.dictionary)) == sha1_of(
            encode_term(i.dictionary),
        ),
{
    lemma_decode_encode(i.dictionary);
}

} // verus!
