//! The download as a whole: which pieces to ask for, how the requests go round the peers,
//! and how the downloaded pieces become the bytes of the files.
use vstd::prelude::*;
use vstd::arithmetic::div_mod::lemma_fundamental_div_mod_converse;
use vstd::seq_lib::to_multiset_build;
use crate::bencoding_parser::str_views;
use crate::pieces::{has_piece, Bitfield, PieceDownloaded, PieceReq};
use crate::torrent_file::{File, TorrentFile};

verus! {

/// The length of piece `i` of `n`: the last one holds what is left of `total` bytes after
/// the whole pieces (a whole piece when nothing is left), every other one a whole piece.
/// Lengths and total are taken as `u32`, as the download does.
pub open spec fn piece_length_at(piece_length: i64, total: i64, n: int, i: int) -> u32 {
    let pl = piece_length as u32;
    let remainder = (total as u32) % pl;
    if i == n - 1 {
        if remainder == 0 {
            pl
        } else {
            remainder
        }
    } else {
        pl
    }
}

/// The request for every piece of the torrent, in piece order: its digest, its index and
/// its length.
pub fn piece_requests(torrent: &TorrentFile) -> (r: Vec<PieceReq>)
    requires
        torrent.info.pieces@.len() <= u32::MAX,
        torrent.info.piece_length as u32 != 0,
    ensures
        r@.len() == torrent.info.pieces@.len(),
        forall|i: int|
            0 <= i < r@.len() ==> #[trigger] r@[i] == (PieceReq {
                piece_hash: torrent.info.pieces@[i],
                piece_index: i as u32,
                piece_length: piece_length_at(
                    torrent.info.piece_length,
                    torrent.left_initial,
                    torrent.info.pieces@.len() as int,
                    i,
                ),
            }),
{
    let total_amount_of_pieces = torrent.info.pieces.len() as u32;
    let piece_length = torrent.info.piece_length as u32;
    let remainder = (torrent.left_initial as u32) % piece_length;
    let last_piece_length = if remainder == 0 {
        piece_length
    } else {
        remainder
    };
    let mut out: Vec<PieceReq> = Vec::new();
    let mut i: usize = 0;
    while i < torrent.info.pieces.len()
        invariant
            0 <= i <= torrent.info.pieces@.len(),
            torrent.info.pieces@.len() <= u32::MAX,
            total_amount_of_pieces == torrent.info.pieces@.len(),
            piece_length == torrent.info.piece_length as u32,
            last_piece_length == piece_length_at(
                torrent.info.piece_length,
                torrent.left_initial,
                torrent.info.pieces@.len() as int,
                torrent.info.pieces@.len() - 1,
            ),
            out@.len() == i,
            forall|k: int|
                0 <= k < i ==> #[trigger] out@[k] == (PieceReq {
                    piece_hash: torrent.info.pieces@[k],
                    piece_index: k as u32,
                    piece_length: piece_length_at(
                        torrent.info.piece_length,
                        torrent.left_initial,
                        torrent.info.pieces@.len() as int,
                        k,
                    ),
                }),
        decreases torrent.info.pieces@.len() - i,
    {
        let length = if (i as u32) == total_amount_of_pieces - 1 {
            last_piece_length
        } else {
            piece_length
        };
        out.push(
            PieceReq { piece_hash: torrent.info.pieces[i], piece_index: i as u32, piece_length: length },
        );
        i = i + 1;
    }
    out
}

/// The peer the next request goes to, going round the `peer_count` peers: the same one after
/// it took a request, the next one after it lacked the piece or could not take it.
pub fn next_peer_index(peer_index: usize, peer_count: usize, took_request: bool) -> (r: usize)
    requires
        peer_index < peer_count,
    ensures
        r == if took_request {
            peer_index as int
        } else {
            (peer_index + 1) % (peer_count as int)
        },
        r < peer_count,
{
    if took_request {
        peer_index
    } else {
        (peer_index + 1) % peer_count
    }
}

/// The requests whose piece `own` lacks, in their order.
pub open spec fn pending(reqs: Seq<PieceReq>, own: Seq<u8>) -> Seq<PieceReq>
    decreases reqs.len(),
{
    if reqs.len() == 0 {
        seq![]
    } else {
        pending(reqs.drop_last(), own) + if has_piece(own, reqs.last().piece_index as int) {
            seq![]
        } else {
            seq![reqs.last()]
        }
    }
}

/// Drops the requests for pieces that have been downloaded.
pub fn retain_pending(requests: &mut Vec<PieceReq>, own: &Bitfield)
    ensures
        final(requests)@ == pending(old(requests)@, own.bytes@),
{
    let ghost reqs = requests@;
    let mut kept: Vec<PieceReq> = Vec::new();
    let mut i: usize = 0;
    assert(reqs.take(0) =~= seq![]);
    while i < requests.len()
        invariant
            0 <= i <= reqs.len(),
            requests@ == reqs,
            kept@ == pending(reqs.take(i as int), own.bytes@),
        decreases reqs.len() - i,
    {
        let req = requests[i].duplicate();
        proof {
            assert(reqs.take(i + 1).drop_last() =~= reqs.take(i as int));
            assert(reqs.take(i + 1).last() == reqs[i as int]);
        }
        if !own.has(req.piece_index) {
            kept.push(req);
        } else {
            assert(kept@ =~= kept@ + seq![]);
        }
        i = i + 1;
    }
    assert(reqs.take(reqs.len() as int) =~= reqs);
    *requests = kept;
}

/// The lengths of the pieces added up.
pub open spec fn pieces_length(ps: Seq<PieceDownloaded>) -> int
    decreases ps.len(),
{
    if ps.len() == 0 {
        0
    } else {
        pieces_length(ps.drop_last()) + ps.last().piece_req.piece_length
    }
}

proof fn lemma_pieces_length_bound(ps: Seq<PieceDownloaded>)
    ensures
        0 <= pieces_length(ps) <= ps.len() * 0xffff_ffff,
    decreases ps.len(),
{
    if ps.len() > 0 {
        lemma_pieces_length_bound(ps.drop_last());
    }
}

/// How many bytes the downloaded pieces hold, by the lengths they were asked for with.
pub fn downloaded_length(pieces: &Vec<PieceDownloaded>) -> (r: u64)
    requires
        pieces@.len() <= u32::MAX,
    ensures
        r == pieces_length(pieces@),
{
    let ghost ps = pieces@;
    let mut total: u64 = 0;
    let mut i: usize = 0;
    assert(ps.take(0) =~= seq![]);
    while i < pieces.len()
        invariant
            0 <= i <= ps.len(),
            ps == pieces@,
            ps.len() <= u32::MAX,
            total == pieces_length(ps.take(i as int)),
        decreases ps.len() - i,
    {
        proof {
            assert(ps.take(i + 1).drop_last() =~= ps.take(i as int));
            lemma_pieces_length_bound(ps.take(i as int));
            assert(i * 0xffff_ffff + 0xffff_ffff <= 0xffff_ffff * 0xffff_ffff) by (nonlinear_arith)
                requires
                    i < 0xffff_ffff,
            ;
        }
        total = total + pieces[i].piece_req.piece_length as u64;
        i = i + 1;
    }
    assert(ps.take(ps.len() as int) =~= ps);
    total
}

/// Puts `x` after every piece of the ordered `s` whose index is not larger than its own.
pub open spec fn insert_by_index(s: Seq<PieceDownloaded>, x: PieceDownloaded) -> Seq<PieceDownloaded>
    decreases s.len(),
{
    if s.len() == 0 {
        seq![x]
    } else if x.piece_req.piece_index < s.last().piece_req.piece_index {
        insert_by_index(s.drop_last(), x).push(s.last())
    } else {
        s.push(x)
    }
}

/// The pieces ordered by index; pieces of the same index keep their order.
pub open spec fn sort_by_index(s: Seq<PieceDownloaded>) -> Seq<PieceDownloaded>
    decreases s.len(),
{
    if s.len() == 0 {
        seq![]
    } else {
        insert_by_index(sort_by_index(s.drop_last()), s.last())
    }
}

/// The bytes of the pieces, one piece after the other.
pub open spec fn pieces_data(s: Seq<PieceDownloaded>) -> Seq<u8>
    decreases s.len(),
{
    if s.len() == 0 {
        seq![]
    } else {
        pieces_data(s.drop_last()) + s.last().piece_data@
    }
}

pub open spec fn ordered_view(pieces: Seq<PieceDownloaded>, order: Seq<usize>) -> Seq<PieceDownloaded> {
    Seq::new(order.len(), |k: int| pieces[order[k] as int])
}

/// Every piece of the index order `s` from position `j` on has an index larger than `x`'s:
/// inserting `x` into the first `j` and putting the rest back gives the insertion.
proof fn lemma_insert_by_index_step(s: Seq<PieceDownloaded>, x: PieceDownloaded, j: int)
    requires
        0 < j <= s.len(),
        x.piece_req.piece_index < s[j - 1].piece_req.piece_index,
    ensures
        insert_by_index(s.take(j), x) + s.skip(j) == insert_by_index(s.take(j - 1), x) + s.skip(
            j - 1,
        ),
{
    assert(s.take(j).drop_last() =~= s.take(j - 1));
    assert(s.take(j).last() == s[j - 1]);
    assert(insert_by_index(s.take(j - 1), x).push(s[j - 1]) + s.skip(j) =~= insert_by_index(
        s.take(j - 1),
        x,
    ) + s.skip(j - 1));
}

/// The bytes of the downloaded pieces in piece order: ordered by index, pieces of the same
/// index in the order they came, their bytes one after the other.
pub fn assemble_pieces(pieces: &Vec<PieceDownloaded>) -> (r: Vec<u8>)
    ensures
        r@ == pieces_data(sort_by_index(pieces@)),
{
    let ghost ps = pieces@;
    let mut order: Vec<usize> = Vec::new();
    let mut i: usize = 0;
    assert(ordered_view(ps, order@) =~= sort_by_index(ps.take(0)));
    while i < pieces.len()
        invariant
            0 <= i <= ps.len(),
            ps == pieces@,
            forall|k: int| 0 <= k < order@.len() ==> #[trigger] order@[k] < i,
            ordered_view(ps, order@) == sort_by_index(ps.take(i as int)),
        decreases ps.len() - i,
    {
        let key = pieces[i].piece_req.piece_index;
        let ghost s = ordered_view(ps, order@);
        let ghost x = ps[i as int];
        let mut j: usize = order.len();
        assert(s.take(j as int) =~= s);
        assert(s.skip(j as int) =~= seq![]);
        while j > 0 && key < pieces[order[j - 1]].piece_req.piece_index
            invariant
                0 <= j <= order@.len(),
                ps == pieces@,
                i < ps.len(),
                key == x.piece_req.piece_index,
                x == ps[i as int],
                s == ordered_view(ps, order@),
                forall|k: int| 0 <= k < order@.len() ==> #[trigger] order@[k] < i,
                insert_by_index(s, x) == insert_by_index(s.take(j as int), x) + s.skip(j as int),
            decreases j,
        {
            proof {
                lemma_insert_by_index_step(s, x, j as int);
            }
            j = j - 1;
        }
        proof {
            if j > 0 {
                assert(s.take(j as int).last() == s[j - 1]);
                assert(insert_by_index(s.take(j as int), x) == s.take(j as int).push(x));
            } else {
                assert(s.take(0) =~= seq![]);
            }
            assert(insert_by_index(s.take(j as int), x) + s.skip(j as int) =~= s.insert(j as int, x));
        }
        order.insert(j, i);
        proof {
            assert(ordered_view(ps, order@) =~= s.insert(j as int, x));
            assert(ps.take(i + 1).drop_last() =~= ps.take(i as int));
            assert(ps.take(i + 1).last() == x);
        }
        i = i + 1;
    }
    assert(ps.take(ps.len() as int) =~= ps);
    let ghost sorted = ordered_view(ps, order@);
    let mut out: Vec<u8> = Vec::new();
    let mut k: usize = 0;
    assert(sorted.take(0) =~= seq![]);
    while k < order.len()
        invariant
            0 <= k <= order@.len(),
            ps == pieces@,
            forall|m: int| 0 <= m < order@.len() ==> #[trigger] order@[m] < ps.len(),
            sorted == ordered_view(ps, order@),
            out@ == pieces_data(sorted.take(k as int)),
        decreases order@.len() - k,
    {
        let data = &pieces[order[k]].piece_data;
        let ghost before = out@;
        let mut b: usize = 0;
        while b < data.len()
            invariant
                0 <= b <= data@.len(),
                out@ == before + data@.take(b as int),
            decreases data@.len() - b,
        {
            out.push(data[b]);
            b = b + 1;
            assert(out@ =~= before + data@.take(b as int));
        }
        proof {
            assert(data@.take(data@.len() as int) =~= data@);
            assert(sorted.take(k + 1).drop_last() =~= sorted.take(k as int));
            assert(sorted.take(k + 1).last() == sorted[k as int]);
        }
        k = k + 1;
    }
    assert(sorted.take(sorted.len() as int) =~= sorted);
    out
}

/// The lengths of the files added up.
pub open spec fn files_length(fs: Seq<File>) -> int
    decreases fs.len(),
{
    if fs.len() == 0 {
        0
    } else {
        files_length(fs.drop_last()) + fs.last().length
    }
}

/// Every file has a length that is no less than zero, and the lengths added up in turn stay
/// within `usize`.
pub open spec fn files_fit(fs: Seq<File>) -> bool {
    forall|k: int|
        0 <= k < fs.len() ==> 0 <= (#[trigger] fs[k]).length && files_length(fs.take(k + 1))
            <= usize::MAX
}

/// Where each file's bytes lie in the bytes of the download, the files one after the other:
/// from the end of the one before (0 for the first) for as many bytes as the file has.
/// `None` when a length is below zero or the offsets would not fit in `usize`.
pub fn file_ranges(files: &Vec<File>) -> (r: Option<Vec<(usize, usize)>>)
    ensures
        r is Some <==> files_fit(files@),
        r matches Some(v) ==> {
            &&& v@.len() == files@.len()
            &&& forall|k: int|
                0 <= k < v@.len() ==> #[trigger] v@[k] == (
                    files_length(files@.take(k)) as usize,
                    files_length(files@.take(k + 1)) as usize,
                )
        },
{
    let ghost fs = files@;
    let mut out: Vec<(usize, usize)> = Vec::new();
    let mut start: usize = 0;
    let mut i: usize = 0;
    assert(fs.take(0) =~= seq![]);
    while i < files.len()
        invariant
            0 <= i <= fs.len(),
            fs == files@,
            start == files_length(fs.take(i as int)),
            forall|k: int|
                0 <= k < i ==> 0 <= (#[trigger] fs[k]).length && files_length(fs.take(k + 1))
                    <= usize::MAX,
            out@.len() == i,
            forall|k: int|
                0 <= k < i ==> #[trigger] out@[k] == (
                    files_length(fs.take(k)) as usize,
                    files_length(fs.take(k + 1)) as usize,
                ),
        decreases fs.len() - i,
    {
        let length = files[i].length;
        proof {
            assert(fs.take(i + 1).drop_last() =~= fs.take(i as int));
            assert(fs.take(i + 1).last() == fs[i as int]);
        }
        if length < 0 || (length as u64) > (usize::MAX - start) as u64 {
            proof {
                assert(!(0 <= fs[i as int].length && files_length(fs.take(i + 1)) <= usize::MAX));
            }
            return None;
        }
        let end = start + length as usize;
        out.push((start, end));
        start = end;
        i = i + 1;
    }
    Some(out)
}

/// The name a file of a download of several files is written under: the parts of its path
/// one after the other.
pub open spec fn joined(parts: Seq<Seq<char>>) -> Seq<char>
    decreases parts.len(),
{
    if parts.len() == 0 {
        seq![]
    } else {
        joined(parts.drop_last()) + parts.last()
    }
}

/// The parts of the path one after the other.
pub fn file_name(path: &Vec<&str>) -> (r: String)
    ensures
        r@ == joined(str_views(path@)),
{
    let ghost parts = str_views(path@);
    let mut name = String::new();
    let mut i: usize = 0;
    assert(parts.take(0) =~= seq![]);
    while i < path.len()
        invariant
            0 <= i <= path@.len(),
            parts == str_views(path@),
            name@ == joined(parts.take(i as int)),
        decreases path@.len() - i,
    {
        name.append(path[i]);
        proof {
            assert(parts.take(i + 1).drop_last() =~= parts.take(i as int));
            assert(parts.take(i + 1).last() == path@[i as int]@);
        }
        i = i + 1;
    }
    assert(parts.take(parts.len() as int) =~= parts);
    name
}

/// The lengths of the first `k` of `n` pieces, added up.
pub open spec fn requested_length(piece_length: i64, total: i64, n: int, k: int) -> int
    decreases k,
{
    if k <= 0 {
        0
    } else {
        requested_length(piece_length, total, n, k - 1) + piece_length_at(
            piece_length,
            total,
            n,
            k - 1,
        )
    }
}

/// The pieces asked for cover the download exactly: when there are as many pieces as it
/// takes to hold the total (taken as `u32`, as the download does), their lengths add up to it.
pub proof fn lemma_requests_cover_download(piece_length: i64, total: i64, n: int)
    requires
        n >= 1,
        piece_length as u32 > 0,
        (n - 1) * (piece_length as u32) < total as u32 <= n * (piece_length as u32),
    ensures
        requested_length(piece_length, total, n, n) == total as u32,
{
    let p = piece_length as u32 as int;
    let t = total as u32 as int;
    assert forall|k: int| 0 <= k <= n - 1 implies #[trigger] requested_length(
        piece_length,
        total,
        n,
        k,
    ) == k * p by {
        lemma_requested_whole(piece_length, total, n, k, p);
    }
    let r = t - (n - 1) * p;
    assert(r <= p) by (nonlinear_arith)
        requires
            t <= n * p,
            r == t - (n - 1) * p,
    ;
    if r < p {
        lemma_fundamental_div_mod_converse(t, p, n - 1, r);
    } else {
        assert(t == n * p) by (nonlinear_arith)
            requires
                r == p,
                r == t - (n - 1) * p,
        ;
        lemma_fundamental_div_mod_converse(t, p, n, 0);
    }
    assert(requested_length(piece_length, total, n, n) == requested_length(
        piece_length,
        total,
        n,
        n - 1,
    ) + piece_length_at(piece_length, total, n, n - 1));
}

proof fn lemma_requested_whole(piece_length: i64, total: i64, n: int, k: int, p: int)
    requires
        0 <= k <= n - 1,
        p == piece_length as u32,
    ensures
        requested_length(piece_length, total, n, k) == k * p,
    decreases k,
{
    if k > 0 {
        lemma_requested_whole(piece_length, total, n, k - 1, p);
        assert(piece_length_at(piece_length, total, n, k - 1) == p);
        assert((k - 1) * p + p == k * p) by (nonlinear_arith);
    } else {
        assert(k * p == 0) by (nonlinear_arith)
            requires
                k == 0,
        ;
    }
}

/// The pieces of `s` all have an index no larger than `b`.
pub open spec fn indices_at_most(s: Seq<PieceDownloaded>, b: u32) -> bool {
    forall|k: int| 0 <= k < s.len() ==> (#[trigger] s[k]).piece_req.piece_index <= b
}

/// The pieces are ordered by index.
pub open spec fn ordered_by_index(s: Seq<PieceDownloaded>) -> bool {
    forall|i: int, j: int|
        0 <= i < j < s.len() ==> (#[trigger] s[i]).piece_req.piece_index <= (#[trigger] s[
            j
        ]).piece_req.piece_index
}

proof fn lemma_insert_by_index(t: Seq<PieceDownloaded>, x: PieceDownloaded, b: u32)
    requires
        ordered_by_index(t),
    ensures
        ordered_by_index(insert_by_index(t, x)),
        insert_by_index(t, x).to_multiset() == t.to_multiset().insert(x),
        pieces_data(insert_by_index(t, x)).len() == pieces_data(t).len() + x.piece_data@.len(),
        indices_at_most(t, b) && x.piece_req.piece_index <= b ==> indices_at_most(
            insert_by_index(t, x),
            b,
        ),
    decreases t.len(),
{
    broadcast use vstd::multiset::group_multiset_axioms;

    let r = insert_by_index(t, x);
    if t.len() == 0 {
        assert(r =~= seq![x]);
        to_multiset_build(t, x);
        assert(t.push(x) =~= seq![x]);
        assert(r.drop_last() =~= t);
    } else if x.piece_req.piece_index < t.last().piece_req.piece_index {
        let init = t.drop_last();
        let last = t.last();
        assert(ordered_by_index(init)) by {
            assert forall|i: int, j: int| 0 <= i < j < init.len() implies (
            #[trigger] init[i]).piece_req.piece_index <= (
            #[trigger] init[j]).piece_req.piece_index by {
                assert(init[i] == t[i] && init[j] == t[j]);
            }
        }
        assert(indices_at_most(init, last.piece_req.piece_index)) by {
            assert forall|k: int| 0 <= k < init.len() implies (
            #[trigger] init[k]).piece_req.piece_index <= last.piece_req.piece_index by {
                assert(init[k] == t[k]);
            }
        }
        lemma_insert_by_index(init, x, last.piece_req.piece_index);
        lemma_insert_by_index(init, x, b);
        let r0 = insert_by_index(init, x);
        assert(r == r0.push(last));
        assert(r.drop_last() =~= r0);
        assert(t.drop_last() =~= init);
        assert forall|i: int, j: int| 0 <= i < j < r.len() implies (
        #[trigger] r[i]).piece_req.piece_index <= (#[trigger] r[j]).piece_req.piece_index by {
            if j < r0.len() {
                assert(r[i] == r0[i] && r[j] == r0[j]);
            } else {
                assert(r[i] == r0[i]);
                assert(indices_at_most(r0, last.piece_req.piece_index));
            }
        }
        to_multiset_build(r0, last);
        to_multiset_build(init, last);
        assert(t =~= init.push(last));
        assert(r.to_multiset() =~= t.to_multiset().insert(x));
        assert(pieces_data(r) == pieces_data(r0) + last.piece_data@);
        assert(pieces_data(t) == pieces_data(init) + last.piece_data@);
        if indices_at_most(t, b) && x.piece_req.piece_index <= b {
            assert(indices_at_most(init, b)) by {
                assert forall|k: int| 0 <= k < init.len() implies (
                #[trigger] init[k]).piece_req.piece_index <= b by {
                    assert(init[k] == t[k]);
                }
            }
            assert forall|k: int| 0 <= k < r.len() implies (#[trigger] r[k]).piece_req.piece_index
                <= b by {
                if k < r0.len() {
                    assert(r[k] == r0[k]);
                } else {
                    assert(r[k] == t[t.len() - 1]);
                }
            }
        }
    } else {
        assert(r == t.push(x));
        assert(r.drop_last() =~= t);
        to_multiset_build(t, x);
        assert forall|i: int, j: int| 0 <= i < j < r.len() implies (
        #[trigger] r[i]).piece_req.piece_index <= (#[trigger] r[j]).piece_req.piece_index by {
            if j < t.len() {
                assert(r[i] == t[i] && r[j] == t[j]);
            } else {
                assert(r[i] == t[i]);
                if i < t.len() - 1 {
                    assert(t[i].piece_req.piece_index <= t[t.len() - 1].piece_req.piece_index);
                }
            }
        }
        if indices_at_most(t, b) && x.piece_req.piece_index <= b {
            assert forall|k: int| 0 <= k < r.len() implies (#[trigger] r[k]).piece_req.piece_index
                <= b by {
                if k < t.len() {
                    assert(r[k] == t[k]);
                }
            }
        }
    }
}

/// Putting the pieces in index order orders them by index and keeps every piece, each as
/// often as it came; the bytes written are as many as the pieces hold.
pub proof fn lemma_pieces_in_index_order(s: Seq<PieceDownloaded>)
    ensures
        ordered_by_index(sort_by_index(s)),
        sort_by_index(s).to_multiset() == s.to_multiset(),
        pieces_data(sort_by_index(s)).len() == pieces_data(s).len(),
    decreases s.len(),
{
    broadcast use vstd::multiset::group_multiset_axioms;

    if s.len() == 0 {
        assert(sort_by_index(s) =~= s);
    } else {
        let init = s.drop_last();
        lemma_pieces_in_index_order(init);
        lemma_insert_by_index(sort_by_index(init), s.last(), 0);
        to_multiset_build(init, s.last());
        assert(s =~= init.push(s.last()));
    }
}

/// Dropping downloaded requests keeps a request exactly when its own piece is not downloaded,
/// wherever it stands in the list, and keeps the requests in their order: the kept ones are
/// the list with the downloaded ones taken out.
pub proof fn lemma_pending_keeps_missing(reqs: Seq<PieceReq>, own: Seq<u8>)
    ensures
        forall|x: PieceReq| #[trigger] pending(reqs, own).contains(x) <==> (reqs.contains(x)
            && !has_piece(own, x.piece_index as int)),
        forall|k: int|
            0 <= k < pending(reqs, own).len() ==> !has_piece(
                own,
                (#[trigger] pending(reqs, own)[k]).piece_index as int,
            ),
        pending(reqs, own).len() <= reqs.len(),
        (forall|k: int| 0 <= k < reqs.len() ==> !has_piece(own, (#[trigger] reqs[k]).piece_index as int))
            ==> pending(reqs, own) == reqs,
    decreases reqs.len(),
{
    if reqs.len() > 0 {
        let init = reqs.drop_last();
        let x = reqs.last();
        lemma_pending_keeps_missing(init, own);
        let pi = pending(init, own);
        let p = pending(reqs, own);
        let last_part: Seq<PieceReq> = if has_piece(own, x.piece_index as int) {
            seq![]
        } else {
            seq![x]
        };
        assert(p == pi + last_part);
        assert forall|k: int| 0 <= k < pi.len() implies p[k] == pi[k] by {}
        assert forall|y: PieceReq| #[trigger] p.contains(y) <==> (reqs.contains(y) && !has_piece(
            own,
            y.piece_index as int,
        )) by {
            if p.contains(y) {
                let k = choose|k: int| 0 <= k < p.len() && p[k] == y;
                if k < pi.len() {
                    assert(pi[k] == y);
                    assert(pi.contains(y));
                    let q = choose|q: int| 0 <= q < init.len() && init[q] == y;
                    assert(reqs[q] == y);
                } else {
                    assert(y == x);
                    assert(reqs[reqs.len() - 1] == y);
                }
            }
            if reqs.contains(y) && !has_piece(own, y.piece_index as int) {
                let q = choose|q: int| 0 <= q < reqs.len() && reqs[q] == y;
                if q < init.len() {
                    assert(init[q] == y);
                    assert(init.contains(y));
                    assert(pi.contains(y));
                    let k = choose|k: int| 0 <= k < pi.len() && pi[k] == y;
                    assert(p[k] == y);
                } else {
                    assert(p[pi.len() as int] == y);
                }
            }
        }
        assert forall|k: int| 0 <= k < p.len() implies !has_piece(
            own,
            (#[trigger] p[k]).piece_index as int,
        ) by {
            if k < pi.len() {
                assert(p[k] == pi[k]);
            }
        }
        if forall|k: int| 0 <= k < reqs.len() ==> !has_piece(own, (#[trigger] reqs[k]).piece_index as int) {
            assert forall|k: int| 0 <= k < init.len() implies !has_piece(
                own,
                (#[trigger] init[k]).piece_index as int,
            ) by {
                assert(init[k] == reqs[k]);
            }
            assert(!has_piece(own, reqs[reqs.len() - 1].piece_index as int));
            assert(p =~= reqs);
        }
    }
}

} // verus!
