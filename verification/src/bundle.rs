//! Assembling a piece from the blocks a peer sent for it: enough bytes, put in order, and
//! the SHA-1 digest the torrent gives for the piece.
use vstd::prelude::*;
use vstd::relations::{sorted_by, total_ordering};
use vstd::seq_lib::{
    lemma_sorted_unique, to_multiset_build, to_multiset_contains, to_multiset_insert,
    to_multiset_len, to_multiset_remove,
};
use crate::bencode_model::{
    bytes_lt, lemma_bytes_lt_asymmetric, lemma_bytes_lt_irreflexive, lemma_bytes_lt_total,
    lemma_bytes_lt_transitive,
};
use crate::bencoding_parser::slice_lt;
use crate::digest::{sha1, sha1_digest};
use crate::peer::{
    block_count, block_end, block_request, distinct_blocks, lemma_blocks_tile_piece,
    lemma_listener_keeps_blocks_distinct, listener_step, owed_haves, with_pieces, PeerModel,
    PeerState, BLOCK_SIZE,
};
use crate::torrent_tcp_message::Message;
use crate::pieces::{
    blocks_view, without_piece, Block, PieceDownloaded, PieceReq, PieceResponse, TaskModel,
};

verus! {

/// The blocks of piece `index`, in the order they were caught.
pub open spec fn blocks_of_piece(caught: Seq<Block>, index: u32) -> Seq<Block>
    decreases caught.len(),
{
    if caught.len() == 0 {
        seq![]
    } else {
        blocks_of_piece(caught.drop_last(), index) + if caught.last().index == index {
            seq![caught.last()]
        } else {
            seq![]
        }
    }
}

/// The blocks of every other piece, in the order they were caught.
pub open spec fn blocks_of_other_pieces(caught: Seq<Block>, index: u32) -> Seq<Block>
    decreases caught.len(),
{
    if caught.len() == 0 {
        seq![]
    } else {
        blocks_of_other_pieces(caught.drop_last(), index) + if caught.last().index != index {
            seq![caught.last()]
        } else {
            seq![]
        }
    }
}

/// How many bytes the blocks hold together.
pub open spec fn blocks_length(bs: Seq<Block>) -> int
    decreases bs.len(),
{
    if bs.len() == 0 {
        0
    } else {
        blocks_length(bs.drop_last()) + bs.last().data.len()
    }
}

/// The bytes of the blocks, one block after the other.
pub open spec fn blocks_data(bs: Seq<Block>) -> Seq<u8>
    decreases bs.len(),
{
    if bs.len() == 0 {
        seq![]
    } else {
        blocks_data(bs.drop_last()) + bs.last().data
    }
}

/// The order blocks are put in: by piece, then by offset, then by their bytes, compared
/// byte by byte with a proper prefix first.
pub open spec fn block_le(a: Block, b: Block) -> bool {
    ||| a.index < b.index
    ||| a.index == b.index && a.begin < b.begin
    ||| a.index == b.index && a.begin == b.begin && (a.data == b.data || bytes_lt(a.data, b.data))
}

pub open spec fn block_order() -> spec_fn(Block, Block) -> bool {
    |a: Block, b: Block| block_le(a, b)
}

/// The bytes of a piece made of `mine`: its blocks in block order, one after the other.
pub open spec fn piece_bytes(mine: Seq<Block>) -> Seq<u8> {
    blocks_data(mine.sort_by(block_order()))
}

/// What became of a piece's blocks.
#[derive(Debug, PartialEq, Eq)]
pub enum BundleOutcome {
    /// Fewer bytes than the piece has were caught: wait for more.
    Waiting,
    /// Collecting took too long: the blocks are dropped.
    TimedOut,
    /// More bytes than the piece has were caught: the blocks are dropped.
    TooLong,
    /// The piece's bytes, which have the digest asked for: the blocks are taken.
    Complete(Vec<u8>),
    /// The bytes have another digest: the peer sent a wrong piece.
    WrongHash,
}

/// A bundling outcome as a mathematical value.
pub enum BundleModel {
    Waiting,
    TimedOut,
    TooLong,
    Complete(Seq<u8>),
    WrongHash,
}

impl View for BundleOutcome {
    type V = BundleModel;

    open spec fn view(&self) -> BundleModel {
        match self {
            BundleOutcome::Waiting => BundleModel::Waiting,
            BundleOutcome::TimedOut => BundleModel::TimedOut,
            BundleOutcome::TooLong => BundleModel::TooLong,
            BundleOutcome::Complete(d) => BundleModel::Complete(d@),
            BundleOutcome::WrongHash => BundleModel::WrongHash,
        }
    }
}

/// One look at the blocks caught for the piece `req` asks for, and the blocks kept after it.
/// Past the deadline the piece's blocks are dropped. Short of the piece's length nothing
/// changes; past it the blocks are dropped. At the length, the blocks put in order make the
/// piece: taken when their digest is the one asked for, else left as they are.
pub open spec fn bundle_step(caught: Seq<Block>, req: PieceReq, timed_out: bool) -> (
    BundleModel,
    Seq<Block>,
) {
    let mine = blocks_of_piece(caught, req.piece_index);
    let rest = blocks_of_other_pieces(caught, req.piece_index);
    if timed_out {
        (BundleModel::TimedOut, rest)
    } else if blocks_length(mine) < req.piece_length {
        (BundleModel::Waiting, caught)
    } else if blocks_length(mine) > req.piece_length {
        (BundleModel::TooLong, rest)
    } else if sha1_digest(piece_bytes(mine)) == req.piece_hash@ {
        (BundleModel::Complete(piece_bytes(mine)), rest)
    } else {
        (BundleModel::WrongHash, caught)
    }
}

/// The block order is a total order.
pub proof fn lemma_block_order_total()
    ensures
        total_ordering(block_order()),
{
    let r = block_order();
    assert forall|x: Block| #[trigger] r(x, x) by {}
    assert forall|x: Block, y: Block| #[trigger] r(x, y) && #[trigger] r(y, x) implies x == y by {
        if x.index == y.index && x.begin == y.begin && x.data != y.data {
            lemma_bytes_lt_asymmetric(x.data, y.data);
        }
    }
    assert forall|x: Block, y: Block, z: Block| #[trigger] r(x, y) && #[trigger] r(y, z) implies r(
        x,
        z,
    ) by {
        if x.index == y.index && y.index == z.index && x.begin == y.begin && y.begin == z.begin {
            if bytes_lt(x.data, y.data) && bytes_lt(y.data, z.data) {
                lemma_bytes_lt_transitive(x.data, y.data, z.data);
            }
        }
    }
    assert forall|x: Block, y: Block| #[trigger] r(x, y) || #[trigger] r(y, x) by {
        lemma_bytes_lt_total(x.data, y.data);
    }
}

/// Whether `a` comes strictly before `b` in block order.
fn block_before(a: &PieceResponse, b: &PieceResponse) -> (r: bool)
    ensures
        r == (block_le(a@, b@) && a@ != b@),
{
    if a.index != b.index {
        a.index < b.index
    } else if a.begin != b.begin {
        a.begin < b.begin
    } else {
        proof {
            lemma_bytes_lt_irreflexive(a.block@);
        }
        slice_lt(a.block.as_slice(), b.block.as_slice())
    }
}

/// Inserts `x` after the blocks not greater than it, keeping the blocks in order.
fn insert_in_order(sorted: &mut Vec<PieceResponse>, x: PieceResponse)
    requires
        sorted_by(blocks_view(old(sorted)@), block_order()),
    ensures
        sorted_by(blocks_view(final(sorted)@), block_order()),
        blocks_view(final(sorted)@).to_multiset() == blocks_view(old(sorted)@).to_multiset().insert(
            x@,
        ),
{
    proof {
        lemma_block_order_total();
    }
    let ghost old_view = blocks_view(sorted@);
    let mut p: usize = 0;
    while p < sorted.len() && !block_before(&x, &sorted[p])
        invariant
            0 <= p <= sorted@.len(),
            blocks_view(sorted@) == old_view,
            forall|k: int| 0 <= k < p ==> block_le(#[trigger] old_view[k], x@),
            total_ordering(block_order()),
        decreases sorted@.len() - p,
    {
        proof {
            let e = old_view[p as int];
            assert(block_order()(e, x@) || block_order()(x@, e));
        }
        p = p + 1;
    }
    let ghost xv = x@;
    sorted.insert(p, x);
    proof {
        let new_view = blocks_view(sorted@);
        assert(new_view =~= old_view.insert(p as int, xv));
        to_multiset_insert(old_view, p as int, xv);
        let r = block_order();
        assert forall|i: int, j: int| 0 <= i < j < new_view.len() implies #[trigger] r(
            new_view[i],
            new_view[j],
        ) by {
            if j < p {
                assert(new_view[i] == old_view[i] && new_view[j] == old_view[j]);
                assert(r(old_view[i], old_view[j]));
            } else if j == p {
                assert(new_view[i] == old_view[i] && new_view[j] == xv);
                assert(block_le(old_view[i], xv));
            } else if i < p {
                assert(new_view[i] == old_view[i] && new_view[j] == old_view[j - 1]);
                assert(r(old_view[i], old_view[j - 1]));
            } else if i == p {
                assert(new_view[i] == xv && new_view[j] == old_view[j - 1]);
                assert(r(xv, old_view[p as int]));
                if j - 1 > p {
                    assert(r(old_view[p as int], old_view[j - 1]));
                }
            } else {
                assert(new_view[i] == old_view[i - 1] && new_view[j] == old_view[j - 1]);
                assert(r(old_view[i - 1], old_view[j - 1]));
            }
        }
    }
}

/// The blocks in block order.
fn sort_blocks(mine: &Vec<PieceResponse>) -> (r: Vec<PieceResponse>)
    ensures
        sorted_by(blocks_view(r@), block_order()),
        blocks_view(r@).to_multiset() == blocks_view(mine@).to_multiset(),
{
    let mut out: Vec<PieceResponse> = Vec::new();
    let ghost m = blocks_view(mine@);
    let mut i: usize = 0;
    assert(blocks_view(out@) =~= m.take(0));
    while i < mine.len()
        invariant
            0 <= i <= mine@.len(),
            m == blocks_view(mine@),
            sorted_by(blocks_view(out@), block_order()),
            blocks_view(out@).to_multiset() == m.take(i as int).to_multiset(),
        decreases mine@.len() - i,
    {
        let x = mine[i].duplicate();
        insert_in_order(&mut out, x);
        proof {
            assert(m.take(i + 1) =~= m.take(i as int).push(m[i as int]));
            to_multiset_build(m.take(i as int), m[i as int]);
        }
        i = i + 1;
    }
    assert(m.take(mine@.len() as int) =~= m);
    out
}

/// The bytes of the blocks, one block after the other.
fn concat_blocks(bs: &Vec<PieceResponse>) -> (r: Vec<u8>)
    ensures
        r@ == blocks_data(blocks_view(bs@)),
{
    let ghost v = blocks_view(bs@);
    let mut out: Vec<u8> = Vec::new();
    let mut i: usize = 0;
    assert(v.take(0) =~= seq![]);
    while i < bs.len()
        invariant
            0 <= i <= bs@.len(),
            v == blocks_view(bs@),
            out@ == blocks_data(v.take(i as int)),
        decreases bs@.len() - i,
    {
        let block = &bs[i].block;
        let mut k: usize = 0;
        let ghost before = out@;
        while k < block.len()
            invariant
                0 <= k <= block@.len(),
                out@ == before + block@.take(k as int),
            decreases block@.len() - k,
        {
            out.push(block[k]);
            k = k + 1;
            assert(out@ =~= before + block@.take(k as int));
        }
        proof {
            assert(block@.take(block@.len() as int) =~= block@);
            assert(v.take(i + 1).drop_last() =~= v.take(i as int));
            assert(v.take(i + 1).last() == v[i as int]);
        }
        i = i + 1;
    }
    assert(v.take(bs@.len() as int) =~= v);
    out
}

/// Whether two digests are equal.
fn same_digest(a: &[u8; 20], b: &[u8; 20]) -> (r: bool)
    ensures
        r == (a@ == b@),
{
    let mut i: usize = 0;
    while i < 20
        invariant
            0 <= i <= 20,
            a@.len() == 20,
            b@.len() == 20,
            forall|k: int| 0 <= k < i ==> a@[k] == b@[k],
        decreases 20 - i,
    {
        if a[i] != b[i] {
            return false;
        }
        i = i + 1;
    }
    assert(a@ =~= b@);
    true
}

proof fn lemma_blocks_length_prefix(bs: Seq<Block>, i: int, j: int)
    requires
        0 <= i <= j <= bs.len(),
    ensures
        blocks_length(bs.take(i)) <= blocks_length(bs.take(j)),
    decreases j - i,
{
    if i < j {
        lemma_blocks_length_prefix(bs, i, j - 1);
        assert(bs.take(j).drop_last() =~= bs.take(j - 1));
    }
}

/// Looks at the blocks caught for the piece `req` asks for, `timed_out` telling whether the
/// time for collecting them is up, and keeps the blocks that `bundle_step` keeps. Past the
/// deadline the peer is no longer taken to have the piece.
pub fn bundle(state: &mut PeerState, req: &PieceReq, timed_out: bool) -> (r: BundleOutcome)
    ensures
        (r@, final(state)@.caught) == bundle_step(old(state)@.caught, *req, timed_out),
        final(state)@.peer == if timed_out {
            without_piece(old(state)@.peer, req.piece_index as int)
        } else {
            old(state)@.peer
        },
        final(state)@.sent == old(state)@.sent,
        final(state)@.choked == old(state)@.choked,
{
    let ghost caught = old(state)@.caught;
    let ghost index = req.piece_index;
    let mut mine: Vec<PieceResponse> = Vec::new();
    let mut rest: Vec<PieceResponse> = Vec::new();
    let mut i: usize = 0;
    assert(caught.take(0) =~= seq![]);
    assert(blocks_view(mine@) =~= seq![]);
    assert(blocks_view(rest@) =~= seq![]);
    while i < state.caught.len()
        invariant
            0 <= i <= caught.len(),
            caught == blocks_view(state.caught@),
            state@ == old(state)@,
            index == req.piece_index,
            blocks_view(mine@) == blocks_of_piece(caught.take(i as int), index),
            blocks_view(rest@) == blocks_of_other_pieces(caught.take(i as int), index),
        decreases caught.len() - i,
    {
        let b = state.caught[i].duplicate();
        proof {
            assert(caught.take(i + 1).drop_last() =~= caught.take(i as int));
            assert(caught.take(i + 1).last() == caught[i as int]);
        }
        if b.index == req.piece_index {
            let ghost before = blocks_view(mine@);
            let ghost bv = b@;
            mine.push(b);
            assert(blocks_view(mine@) =~= before + seq![bv]);
            assert(blocks_view(rest@) =~= blocks_view(rest@) + seq![]);
        } else {
            let ghost before = blocks_view(rest@);
            let ghost bv = b@;
            rest.push(b);
            assert(blocks_view(rest@) =~= before + seq![bv]);
            assert(blocks_view(mine@) =~= blocks_view(mine@) + seq![]);
        }
        i = i + 1;
    }
    assert(caught.take(caught.len() as int) =~= caught);
    let ghost mv = blocks_view(mine@);
    if timed_out {
        state.caught = rest;
        state.peer_bitfield.unset(req.piece_index);
        return BundleOutcome::TimedOut;
    }
    let piece_length = req.piece_length as u64;
    let mut total: u64 = 0;
    let mut k: usize = 0;
    assert(mv.take(0) =~= seq![]);
    while k < mine.len()
        invariant
            0 <= k <= mine@.len(),
            mv == blocks_view(mine@),
            piece_length == req.piece_length,
            state@ == old(state)@,
            caught == old(state)@.caught,
            index == req.piece_index,
            !timed_out,
            mv == blocks_of_piece(caught, index),
            blocks_view(rest@) == blocks_of_other_pieces(caught, index),
            total == blocks_length(mv.take(k as int)),
            total <= piece_length,
        decreases mine@.len() - k,
    {
        let len = mine[k].block.len() as u64;
        proof {
            assert(mv.take(k + 1).drop_last() =~= mv.take(k as int));
            assert(mv.take(k + 1).last() == mv[k as int]);
        }
        if len > piece_length - total {
            proof {
                lemma_blocks_length_prefix(mv, k + 1, mv.len() as int);
                assert(mv.take(mv.len() as int) =~= mv);
            }
            state.caught = rest;
            return BundleOutcome::TooLong;
        }
        total = total + len;
        k = k + 1;
    }
    assert(mv.take(mv.len() as int) =~= mv);
    if total < piece_length {
        return BundleOutcome::Waiting;
    }
    let sorted = sort_blocks(&mine);
    let data = concat_blocks(&sorted);
    proof {
        lemma_block_order_total();
        mv.lemma_sort_by_ensures(block_order());
        lemma_sorted_unique(blocks_view(sorted@), mv.sort_by(block_order()), block_order());
    }
    let digest = sha1(data.as_slice());
    if same_digest(&digest, &req.piece_hash) {
        state.caught = rest;
        BundleOutcome::Complete(data)
    } else {
        BundleOutcome::WrongHash
    }
}

/// Every block of another piece was caught.
proof fn lemma_other_pieces_from(caught: Seq<Block>, index: u32, x: Block)
    requires
        blocks_of_other_pieces(caught, index).contains(x),
    ensures
        caught.contains(x),
    decreases caught.len(),
{
    if caught.len() > 0 {
        let init = caught.drop_last();
        let prev = blocks_of_other_pieces(init, index);
        let cur = blocks_of_other_pieces(caught, index);
        let p = choose|p: int| 0 <= p < cur.len() && cur[p] == x;
        if p < prev.len() {
            assert(prev[p] == x);
            lemma_other_pieces_from(init, index, x);
            let q = choose|q: int| 0 <= q < init.len() && init[q] == x;
            assert(caught[q] == x);
        } else {
            assert(caught[caught.len() - 1] == x);
        }
    }
}

/// The blocks of other pieces are kept distinct when all caught blocks are.
proof fn lemma_other_pieces_distinct(caught: Seq<Block>, index: u32)
    requires
        distinct_blocks(caught),
    ensures
        distinct_blocks(blocks_of_other_pieces(caught, index)),
    decreases caught.len(),
{
    if caught.len() > 0 {
        let init = caught.drop_last();
        assert(distinct_blocks(init)) by {
            assert forall|i: int, j: int| 0 <= i < j < init.len() implies init[i] != init[j] by {
                assert(init[i] == caught[i] && init[j] == caught[j]);
            }
        }
        lemma_other_pieces_distinct(init, index);
        let prev = blocks_of_other_pieces(init, index);
        let cur = blocks_of_other_pieces(caught, index);
        let x = caught.last();
        if x.index != index {
            assert forall|i: int, j: int| 0 <= i < j < cur.len() implies cur[i] != cur[j] by {
                if j == prev.len() {
                    assert(cur[i] == prev[i]);
                    assert(prev.contains(prev[i]));
                    lemma_other_pieces_from(init, index, prev[i]);
                    let q = choose|q: int| 0 <= q < init.len() && init[q] == prev[i];
                    assert(caught[q] == init[q]);
                    assert(caught[caught.len() - 1] == x);
                } else {
                    assert(cur[i] == prev[i] && cur[j] == prev[j]);
                }
            }
        } else {
            assert(cur =~= prev);
        }
    }
}

/// Bundling keeps no block twice: if the caught blocks are distinct, so are those kept.
pub proof fn lemma_bundle_keeps_blocks_distinct(caught: Seq<Block>, req: PieceReq, timed_out: bool)
    requires
        distinct_blocks(caught),
    ensures
        distinct_blocks(bundle_step(caught, req, timed_out).1),
{
    lemma_other_pieces_distinct(caught, req.piece_index);
}

/// The bytes the blocks hold together, each block weighing its length.
proof fn lemma_blocks_length_remove(bs: Seq<Block>, k: int)
    requires
        0 <= k < bs.len(),
    ensures
        blocks_length(bs) == blocks_length(bs.remove(k)) + bs[k].data.len(),
    decreases bs.len(),
{
    if k == bs.len() - 1 {
        assert(bs.remove(k) =~= bs.drop_last());
    } else {
        lemma_blocks_length_remove(bs.drop_last(), k);
        assert(bs.remove(k).drop_last() =~= bs.drop_last().remove(k));
        assert(bs.remove(k).last() == bs.last());
    }
}

/// Blocks in another order hold as many bytes.
proof fn lemma_blocks_length_permutation(s: Seq<Block>, t: Seq<Block>)
    requires
        s.to_multiset() == t.to_multiset(),
    ensures
        blocks_length(s) == blocks_length(t),
    decreases s.len(),
{
    broadcast use vstd::multiset::group_multiset_axioms;

    to_multiset_len(s);
    to_multiset_len(t);
    if s.len() > 0 {
        let x = s.last();
        let init = s.drop_last();
        assert(s =~= init.push(x));
        to_multiset_build(init, x);
        to_multiset_contains(t, x);
        assert(t.to_multiset().contains(x));
        let k = choose|k: int| 0 <= k < t.len() && t[k] == x;
        to_multiset_remove(t, k);
        assert(t.remove(k).to_multiset() =~= init.to_multiset());
        lemma_blocks_length_permutation(init, t.remove(k));
        lemma_blocks_length_remove(t, k);
    }
}

proof fn lemma_blocks_data_len(bs: Seq<Block>)
    ensures
        blocks_data(bs).len() == blocks_length(bs),
    decreases bs.len(),
{
    if bs.len() > 0 {
        lemma_blocks_data_len(bs.drop_last());
    }
}

/// A piece is taken only whole and sound: the bytes it is made of are as many as the piece
/// has, and they have the digest the piece was asked for.
pub proof fn lemma_completed_piece_is_sound(caught: Seq<Block>, req: PieceReq, timed_out: bool)
    ensures
        bundle_step(caught, req, timed_out).0 matches BundleModel::Complete(data) ==> {
            &&& data.len() == req.piece_length
            &&& sha1_digest(data) == req.piece_hash@
        },
{
    let mine = blocks_of_piece(caught, req.piece_index);
    lemma_block_order_total();
    mine.lemma_sort_by_ensures(block_order());
    lemma_blocks_length_permutation(mine, mine.sort_by(block_order()));
    lemma_blocks_data_len(mine.sort_by(block_order()));
}

/// The block a peer that holds `data` sends for a request: the bytes the request asks for.
pub open spec fn answer(request: Message, data: Seq<u8>) -> Block {
    match request {
        Message::Request { index, begin, length } => Block {
            index,
            begin,
            data: data.subrange(begin as int, begin + length),
        },
        _ => Block { index: 0, begin: 0, data: seq![] },
    }
}

/// The blocks a peer that holds `data` sends for the requests the piece `req` is asked with.
pub open spec fn answered_blocks(req: PieceReq, data: Seq<u8>) -> Seq<Block> {
    Seq::new(
        block_count(req.piece_length),
        |i: int| answer(block_request(req.piece_index, req.piece_length, i), data),
    )
}

proof fn lemma_answered_blocks_data(req: PieceReq, data: Seq<u8>)
    requires
        data.len() == req.piece_length,
    ensures
        blocks_data(answered_blocks(req, data)) == data,
        sorted_by(answered_blocks(req, data), block_order()),
{
    let len = req.piece_length;
    let n = block_count(len) as int;
    let bs = answered_blocks(req, data);
    lemma_blocks_tile_piece(req.piece_index, len);
    assert forall|k: int| 0 <= k <= n implies #[trigger] blocks_data(bs.take(k)) == data.subrange(
        0,
        if k == 0 {
            0
        } else {
            block_end(len, k - 1)
        },
    ) by {
        lemma_answered_prefix(req, data, k);
    }
    if n == 0 {
        assert(bs.take(0) =~= bs);
        assert(data =~= data.subrange(0, 0));
    } else {
        assert(bs.take(n) =~= bs);
        assert(data.subrange(0, len as int) =~= data);
    }
    let r = block_order();
    assert forall|i: int, j: int| 0 <= i < j < bs.len() implies #[trigger] r(bs[i], bs[j]) by {
        let ri = block_request(req.piece_index, len, i);
        let rj = block_request(req.piece_index, len, j);
        assert(ri->Request_begin == i * BLOCK_SIZE);
        assert(rj->Request_begin == j * BLOCK_SIZE);
        assert(i * BLOCK_SIZE < j * BLOCK_SIZE);
    }
}

proof fn lemma_answered_prefix(req: PieceReq, data: Seq<u8>, k: int)
    requires
        data.len() == req.piece_length,
        0 <= k <= block_count(req.piece_length),
    ensures
        blocks_data(answered_blocks(req, data).take(k)) == data.subrange(
            0,
            if k == 0 {
                0
            } else {
                block_end(req.piece_length, k - 1)
            },
        ),
    decreases k,
{
    let len = req.piece_length;
    let bs = answered_blocks(req, data);
    lemma_blocks_tile_piece(req.piece_index, len);
    if k == 0 {
        assert(bs.take(0) =~= seq![]);
        assert(data.subrange(0, 0) =~= seq![]);
    } else {
        lemma_answered_prefix(req, data, k - 1);
        assert(bs.take(k).drop_last() =~= bs.take(k - 1));
        assert(bs.take(k).last() == bs[k - 1]);
        let rq = block_request(req.piece_index, len, k - 1);
        assert(rq->Request_begin + rq->Request_length == block_end(len, k - 1));
        let start: int = if k - 1 == 0 {
            0
        } else {
            block_end(len, k - 2)
        };
        assert(rq->Request_begin == start) by {
            if k - 1 > 0 {
                let prev = block_request(req.piece_index, len, k - 2);
                assert(prev->Request_begin + prev->Request_length == block_end(len, k - 2));
                assert(block_end(len, k - 2) == (k - 1) * BLOCK_SIZE);
            }
        }
        assert(data.subrange(0, start) + data.subrange(start, block_end(len, k - 1))
            =~= data.subrange(0, block_end(len, k - 1)));
    }
}

/// A piece asked for block by block and answered truthfully is put back together: when the
/// blocks caught for it are those a peer holding `data` sends for the block requests, in
/// any order, and `data` has the piece's length and digest, bundling takes `data` whole and
/// keeps only the blocks of other pieces.
pub proof fn lemma_answered_piece_completes(caught: Seq<Block>, req: PieceReq, data: Seq<u8>)
    requires
        data.len() == req.piece_length,
        sha1_digest(data) == req.piece_hash@,
        blocks_of_piece(caught, req.piece_index).to_multiset() == answered_blocks(
            req,
            data,
        ).to_multiset(),
    ensures
        bundle_step(caught, req, false) == (
            BundleModel::Complete(data),
            blocks_of_other_pieces(caught, req.piece_index),
        ),
{
    let mine = blocks_of_piece(caught, req.piece_index);
    let answered = answered_blocks(req, data);
    lemma_answered_blocks_data(req, data);
    lemma_blocks_data_len(answered);
    lemma_blocks_length_permutation(mine, answered);
    lemma_block_order_total();
    mine.lemma_sort_by_ensures(block_order());
    lemma_sorted_unique(mine.sort_by(block_order()), answered, block_order());
}

/// What we serve for a request of a piece we hold is what a truthful peer sends: the block
/// of the piece's bytes the request asks for, the connection's state left as it was.
pub proof fn lemma_served_block_is_answer(
    s: PeerModel,
    own: Seq<u8>,
    stored: Seq<PieceDownloaded>,
    index: u32,
    begin: u32,
    length: u32,
)
    requires
        (index as int) < stored.len(),
        begin + length <= stored[index as int].piece_data@.len(),
    ensures
        ({
            let request = Message::Request { index, begin, length };
            listener_step(s, own, stored, request) == Some(
                (
                    s,
                    Some(TaskModel::Response(answer(request, stored[index as int].piece_data@))),
                ),
            )
        }),
{
}

/// What happens to a connection's state: a message from the peer, handled with our pieces and
/// stored pieces of that moment; the owed `have`s sent; or a look at the blocks of a piece.
pub enum PeerEvent {
    Message { own: Seq<u8>, stored: Seq<PieceDownloaded>, m: Message },
    Haves { own: Seq<u8> },
    Bundle { req: PieceReq, timed_out: bool },
}

/// The state after one event, as `on_message`, `unsent_haves` and `bundle` leave it; a message
/// the listener does not expect leaves the state as it was.
pub open spec fn apply_event(s: PeerModel, e: PeerEvent) -> PeerModel {
    match e {
        PeerEvent::Message { own, stored, m } => match listener_step(s, own, stored, m) {
            Some((s2, _)) => s2,
            None => s,
        },
        PeerEvent::Haves { own } => PeerModel {
            peer: s.peer,
            sent: with_pieces(s.sent, owed_haves(own, s.peer, s.sent)),
            caught: s.caught,
            choked: s.choked,
        },
        PeerEvent::Bundle { req, timed_out } => PeerModel {
            peer: if timed_out {
                without_piece(s.peer, req.piece_index as int)
            } else {
                s.peer
            },
            sent: s.sent,
            caught: bundle_step(s.caught, req, timed_out).1,
            choked: s.choked,
        },
    }
}

/// The state after the events, one after the other.
pub open spec fn run_events(s: PeerModel, events: Seq<PeerEvent>) -> PeerModel
    decreases events.len(),
{
    if events.len() == 0 {
        s
    } else {
        apply_event(run_events(s, events.drop_last()), events.last())
    }
}

/// No block is ever kept twice: from a state that keeps none twice, such as the empty one
/// `PeerState::new` starts with, every run of messages, `have`s and bundling keeps the
/// caught blocks distinct.
pub proof fn lemma_caught_blocks_stay_distinct(s: PeerModel, events: Seq<PeerEvent>)
    requires
        distinct_blocks(s.caught),
    ensures
        distinct_blocks(run_events(s, events).caught),
    decreases events.len(),
{
    if events.len() > 0 {
        lemma_caught_blocks_stay_distinct(s, events.drop_last());
        let prev = run_events(s, events.drop_last());
        match events.last() {
            PeerEvent::Message { own, stored, m } => {
                if listener_step(prev, own, stored, m) is Some {
                    lemma_listener_keeps_blocks_distinct(prev, own, stored, m);
                }
            },
            PeerEvent::Haves { own } => {},
            PeerEvent::Bundle { req, timed_out } => {
                lemma_bundle_keeps_blocks_distinct(prev.caught, req, timed_out);
            },
        }
    }
}

} // verus!
