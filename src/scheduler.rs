use vstd::prelude::*;
use crate::digest::sha1_of;
use crate::torrent::{
    describes_piece, lemma_piece_bounds, piece_size, piece_start, valid_info, InfoView,
    PieceInfo, TorrentInfo,
};

verus! {

/// The pieces still to download, shared by the workers; a worker takes one by popping it.
pub struct PieceQueue {
    /// The pieces not handed out yet; the last one goes first.
    pub pending: Vec<PieceInfo>,
    /// Every piece of the payload, in order.
    pub plan: Ghost<Seq<PieceInfo>>,
    /// The pieces handed out so far, in the order they were taken.
    pub issued: Ghost<Seq<PieceInfo>>,
}

impl PieceQueue {
    /// What was handed out, then what is pending in the order it will be handed out, is the plan.
    pub open spec fn wf(&self) -> bool {
        &&& self.issued@ + self.pending@.reverse() == self.plan@
        &&& forall|k: int| 0 <= k < self.plan@.len() ==> (#[trigger] self.plan@[k]).index == k
    }

    /// A queue of every piece of a torrent, none handed out yet.
    pub fn new(info: &TorrentInfo) -> (r: Self)
        requires
            valid_info(info@),
        ensures
            r.wf(),
            r.issued@.len() == 0,
            r.plan@.len() == info.pieces@.len(),
            forall|k: int| 0 <= k < r.plan@.len() ==> describes_piece(info@, k, #[trigger] r.plan@[k]),
    {
        let all = info.get_all_pieces_info();
        let ghost plan = all@;
        let mut pending: Vec<PieceInfo> = Vec::new();
        let mut i: usize = all.len();
        while i > 0
            invariant
                i <= all.len(),
                all@ == plan,
                pending@.len() == all.len() - i,
                forall|j: int| 0 <= j < pending@.len() ==> #[trigger] pending@[j] == plan[all.len() - 1 - j],
            decreases i,
        {
            i = i - 1;
            pending.push(all[i]);
        }
        proof {
            assert(pending@.reverse() =~= plan);
            assert(Seq::<PieceInfo>::empty() + pending@.reverse() =~= plan);
        }
        PieceQueue { pending, plan: Ghost(plan), issued: Ghost(Seq::empty()) }
    }

    pub fn len(&self) -> (r: usize)
        ensures
            r == self.pending@.len(),
    {
        self.pending.len()
    }

    /// Takes the next piece, or `None` when every piece has been handed out.
    pub fn pop(&mut self) -> (r: Option<PieceInfo>)
        requires
            old(self).wf(),
        ensures
            final(self).wf(),
            final(self).plan == old(self).plan,
            old(self).pending@.len() == 0 ==> r is None && final(self).pending@ == old(self).pending@
                && final(self).issued == old(self).issued,
            old(self).pending@.len() > 0 ==> (r matches Some(p) && p == old(self).plan@[old(
                self,
            ).issued@.len() as int] && final(self).issued@ == old(self).issued@.push(p)
                && final(self).pending@.len() == old(self).pending@.len() - 1),
    {
        let r = self.pending.pop();
        match r {
            Some(p) => {
                proof {
                    let old_pending = old(self).pending@;
                    assert(old_pending.reverse() =~= seq![p] + self.pending@.reverse());
                    assert(old(self).issued@.push(p) + self.pending@.reverse() =~= old(self).issued@
                        + old_pending.reverse());
                }
                self.issued = Ghost(self.issued@.push(p));
            },
            None => {},
        }
        r
    }
}

/// Each piece is handed out to one worker at most, and once the queue is empty each piece of
/// the payload has been handed out exactly once.
pub proof fn lemma_dispatch_exactly_once(q: PieceQueue)
    requires
        q.wf(),
    ensures
        forall|i: int, j: int|
            0 <= i < j < q.issued@.len() ==> (#[trigger] q.issued@[i]).index != (#[trigger] q.issued@[j]).index,
        q.pending@.len() == 0 ==> q.issued@ == q.plan@,
        q.pending@.len() == 0 ==> forall|k: int|
            0 <= k < q.plan@.len() ==> #[trigger] q.issued@[k] == q.plan@[k],
{
    assert forall|i: int, j: int| 0 <= i < j < q.issued@.len() implies (#[trigger] q.issued@[i]).index
        != (#[trigger] q.issued@[j]).index by {
        assert(q.issued@[i] == q.plan@[i]);
        assert(q.issued@[j] == q.plan@[j]);
    }
    if q.pending@.len() == 0 {
        assert(q.pending@.reverse() =~= Seq::<PieceInfo>::empty());
        assert(q.issued@ =~= q.plan@);
    }
}

/// How many workers to start: one per peer, but no more than there are pieces.
pub fn worker_count(piece_count: usize, peer_count: usize) -> (r: usize)
    ensures
        r == if piece_count < peer_count {
            piece_count
        } else {
            peer_count
        },
{
    if piece_count < peer_count {
        piece_count
    } else {
        peer_count
    }
}

} // verus!

verus! {

/// `data` written over `f` from position `pos` on.
pub open spec fn write_at(f: Seq<u8>, pos: int, data: Seq<u8>) -> Seq<u8> {
    f.subrange(0, pos) + data + f.subrange(pos + data.len(), f.len() as int)
}

/// The output file after the pieces numbered in `order` were written, one after another, each
/// at its place; `pieces[k]` holds the bytes downloaded for piece `k`.
pub open spec fn write_pieces(f: Seq<u8>, i: InfoView, pieces: Seq<Seq<u8>>, order: Seq<int>) -> Seq<u8>
    decreases order.len(),
{
    if order.len() == 0 {
        f
    } else {
        let k = order.last();
        write_at(write_pieces(f, i, pieces, order.drop_last()), piece_start(i, k), pieces[k])
    }
}

/// Downloaded pieces as the workers hand them over: one per hash, each as long as its piece
/// and matching its hash.
pub open spec fn verified_pieces(i: InfoView, pieces: Seq<Seq<u8>>) -> bool {
    &&& pieces.len() == i.pieces.len()
    &&& forall|k: int|
        0 <= k < pieces.len() ==> (#[trigger] pieces[k]).len() == piece_size(i, k) && sha1_of(
            pieces[k],
        ) == i.pieces[k]
}

/// Every entry of `order` is a piece number below `n`, and every such number occurs.
pub open spec fn covers(order: Seq<int>, n: int) -> bool {
    &&& forall|j: int| 0 <= j < order.len() ==> 0 <= #[trigger] order[j] < n
    &&& forall|k: int| 0 <= k < n ==> #[trigger] order.contains(k)
}

/// The bytes of piece `k` in a file.
pub open spec fn segment(f: Seq<u8>, i: InfoView, k: int) -> Seq<u8> {
    f.subrange(piece_start(i, k), piece_start(i, k) + piece_size(i, k))
}

proof fn lemma_piece_span(i: InfoView, k: int)
    requires
        valid_info(i),
        0 <= k < i.pieces.len(),
    ensures
        0 <= piece_start(i, k),
        piece_start(i, k) + piece_size(i, k) <= i.shape->SingleFile_0,
        0 < piece_size(i, k) <= i.piece_length,
        piece_start(i, k) + piece_size(i, k) == if (k + 1) * i.piece_length < i.shape->SingleFile_0 {
            (k + 1) * i.piece_length
        } else {
            i.shape->SingleFile_0
        },
{
    lemma_piece_bounds(i.shape->SingleFile_0, i.piece_length, k);
    assert((k + 1) * i.piece_length == k * i.piece_length + i.piece_length) by (nonlinear_arith);
}

proof fn lemma_pieces_disjoint(i: InfoView, a: int, b: int)
    requires
        valid_info(i),
        0 <= a < b < i.pieces.len(),
    ensures
        piece_start(i, a) + piece_size(i, a) <= piece_start(i, b),
{
    lemma_piece_span(i, a);
    let p = i.piece_length;
    assert(a * p + p <= b * p) by (nonlinear_arith)
        requires
            a < b,
            p >= 1,
    ;
}

/// Byte `x` of the payload lies in piece `x / piece_length`.
proof fn lemma_pieces_tile(i: InfoView, x: int)
    requires
        valid_info(i),
        0 <= x < i.shape->SingleFile_0,
    ensures
        0 <= x / i.piece_length < i.pieces.len(),
        piece_start(i, x / i.piece_length) <= x < piece_start(i, x / i.piece_length) + piece_size(
            i,
            x / i.piece_length,
        ),
{
    let p = i.piece_length;
    let l = i.shape->SingleFile_0;
    let k = x / p;
    assert(0 <= k && k * p <= x && x < k * p + p) by (nonlinear_arith)
        requires
            p >= 1,
            x >= 0,
            k == x / p,
    ;
    assert(k < (l + p - 1) / p) by (nonlinear_arith)
        requires
            p >= 1,
            0 <= x < l,
            k == x / p,
    ;
}

proof fn lemma_write_length(f: Seq<u8>, i: InfoView, pieces: Seq<Seq<u8>>, order: Seq<int>)
    requires
        valid_info(i),
        verified_pieces(i, pieces),
        f.len() == i.shape->SingleFile_0,
        forall|j: int| 0 <= j < order.len() ==> 0 <= #[trigger] order[j] < i.pieces.len(),
    ensures
        write_pieces(f, i, pieces, order).len() == f.len(),
    decreases order.len(),
{
    if order.len() > 0 {
        lemma_write_length(f, i, pieces, order.drop_last());
        lemma_piece_span(i, order.last());
    }
}

proof fn lemma_write_segment(f: Seq<u8>, i: InfoView, pieces: Seq<Seq<u8>>, order: Seq<int>, k: int)
    requires
        valid_info(i),
        verified_pieces(i, pieces),
        f.len() == i.shape->SingleFile_0,
        forall|j: int| 0 <= j < order.len() ==> 0 <= #[trigger] order[j] < i.pieces.len(),
        0 <= k < i.pieces.len(),
        order.contains(k),
    ensures
        segment(write_pieces(f, i, pieces, order), i, k) == pieces[k],
    decreases order.len(),
{
    let last = order.last();
    let prev = order.drop_last();
    let g = write_pieces(f, i, pieces, prev);
    lemma_write_length(f, i, pieces, prev);
    lemma_piece_span(i, last);
    lemma_piece_span(i, k);
    let out = write_at(g, piece_start(i, last), pieces[last]);
    if last == k {
        assert(segment(out, i, k) =~= pieces[k]);
    } else {
        let j = choose|j: int| 0 <= j < order.len() && order[j] == k;
        assert(prev[j] == k);
        assert(prev.contains(k));
        lemma_write_segment(f, i, pieces, prev, k);
        if k < last {
            lemma_pieces_disjoint(i, k, last);
        } else {
            lemma_pieces_disjoint(i, last, k);
        }
        assert(segment(out, i, k) =~= segment(g, i, k));
    }
}

/// The assembled output is exactly as long as the payload, and each piece's span of it hashes
/// to that piece's hash, whatever the file held before and in whatever order the pieces came.
pub proof fn lemma_download_output(f: Seq<u8>, i: InfoView, pieces: Seq<Seq<u8>>, order: Seq<int>)
    requires
        valid_info(i),
        verified_pieces(i, pieces),
        f.len() == i.shape->SingleFile_0,
        covers(order, i.pieces.len() as int),
    ensures
        write_pieces(f, i, pieces, order).len() == i.shape->SingleFile_0,
        forall|k: int|
            0 <= k < i.pieces.len() ==> sha1_of(#[trigger] segment(write_pieces(f, i, pieces, order), i, k))
                == i.pieces[k],
{
    lemma_write_length(f, i, pieces, order);
    assert forall|k: int| 0 <= k < i.pieces.len() implies sha1_of(
        #[trigger] segment(write_pieces(f, i, pieces, order), i, k),
    ) == i.pieces[k] by {
        lemma_write_segment(f, i, pieces, order, k);
    }
}

/// Downloading again over a complete file, with the same pieces coming in, leaves the same
/// bytes: the output depends on the pieces alone, not on what the file held nor on the order.
pub proof fn lemma_rerun_identical(
    f1: Seq<u8>,
    f2: Seq<u8>,
    i: InfoView,
    pieces: Seq<Seq<u8>>,
    order1: Seq<int>,
    order2: Seq<int>,
)
    requires
        valid_info(i),
        verified_pieces(i, pieces),
        f1.len() == i.shape->SingleFile_0,
        f2.len() == i.shape->SingleFile_0,
        covers(order1, i.pieces.len() as int),
        covers(order2, i.pieces.len() as int),
    ensures
        write_pieces(f1, i, pieces, order1) == write_pieces(f2, i, pieces, order2),
{
    let a = write_pieces(f1, i, pieces, order1);
    let b = write_pieces(f2, i, pieces, order2);
    lemma_write_length(f1, i, pieces, order1);
    lemma_write_length(f2, i, pieces, order2);
    assert forall|x: int| 0 <= x < a.len() implies a[x] == b[x] by {
        lemma_pieces_tile(i, x);
        let k = x / i.piece_length;
        lemma_write_segment(f1, i, pieces, order1, k);
        lemma_write_segment(f2, i, pieces, order2, k);
        assert(a[x] == segment(a, i, k)[x - piece_start(i, k)]);
        assert(b[x] == segment(b, i, k)[x - piece_start(i, k)]);
    }
    assert(a =~= b);
}

} // verus!

verus! {

/// How a download ended, once every worker has returned.
#[derive(PartialEq, Eq, Structural, Debug, Clone, Copy)]
pub enum DownloadOutcome {
    /// Every worker succeeded and no piece is left.
    Complete,
    /// The worker result at this position, the first failure, decides.
    WorkerFailed(usize),
    /// Every worker succeeded, yet pieces were never handed out.
    PiecesLeft,
}

/// The end of a download: success when every worker succeeded and the queue is empty,
/// otherwise the first failure in the order the results came in.
pub fn download_outcome(worker_ok: &Vec<bool>, pending: usize) -> (r: DownloadOutcome)
    ensures
        (r == DownloadOutcome::Complete) <==> ((forall|i: int| 0 <= i < worker_ok@.len() ==> #[trigger] worker_ok@[i]) && pending == 0),
        (r == DownloadOutcome::PiecesLeft) <==> ((forall|i: int| 0 <= i < worker_ok@.len() ==> #[trigger] worker_ok@[i]) && pending > 0),
        r matches DownloadOutcome::WorkerFailed(k) ==> k < worker_ok@.len() && !worker_ok@[k as int]
            && forall|j: int| 0 <= j < k ==> #[trigger] worker_ok@[j],
{
    let mut i: usize = 0;
    while i < worker_ok.len()
        invariant
            i <= worker_ok.len(),
            forall|j: int| 0 <= j < i ==> #[trigger] worker_ok@[j],
        decreases worker_ok.len() - i,
    {
        if !worker_ok[i] {
            return DownloadOutcome::WorkerFailed(i);
        }
        i = i + 1;
    }
    if pending == 0 {
        DownloadOutcome::Complete
    } else {
        DownloadOutcome::PiecesLeft
    }
}

} // verus!
