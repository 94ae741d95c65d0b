//! The decisions a peer connection makes: how frames become messages, how a piece is asked
//! for block by block, what an incoming message calls for, and which `have`s are still owed.
use vstd::prelude::*;
use crate::torrent_tcp_message::{payload_long_enough, spec_parse_message, Message, MessageError};
use crate::pieces::{
    block_of, blocks_view, diff_bytes, has_piece, lemma_diff_has, lemma_empty_has_none,
    lemma_set_pieces, lemma_set_then_has, set_pieces, with_piece, Bitfield, Block, PieceDownloaded, PieceReq,
    PieceResponse, Task, TaskModel,
};

pub use crate::torrent_tcp_message::TorrentTcpMessage;

verus! {

/// The message a frame carries: an empty frame is a keep-alive, any other is read from its
/// first byte, the id, and the rest, the payload.
pub open spec fn spec_decode_frame(frame: Seq<u8>) -> Option<Message> {
    if frame.len() == 0 {
        Some(Message::KeepAlive)
    } else {
        spec_parse_message(frame[0], frame.skip(1))
    }
}

/// The frame is long enough for what its message reads of it.
pub open spec fn frame_long_enough(frame: Seq<u8>) -> bool {
    frame.len() == 0 || payload_long_enough(frame[0], (frame.len() - 1) as nat)
}

/// Reads the message of a frame; fails for an unknown id.
pub fn decode_frame(frame: &[u8]) -> (r: Result<TorrentTcpMessage, MessageError>)
    requires
        frame_long_enough(frame@),
    ensures
        match spec_decode_frame(frame@) {
            Some(m) => r matches Ok(x) && x@ == m,
            None => r == Err::<TorrentTcpMessage, MessageError>(MessageError::UnknownId(frame@[0])),
        },
{
    if frame.len() == 0 {
        return Ok(TorrentTcpMessage::KeepAlive);
    }
    let payload = vstd::slice::slice_subrange(frame, 1, frame.len());
    assert(payload@ =~= frame@.skip(1));
    TorrentTcpMessage::parse(&frame[0], payload)
}

/// A received `piece` lets one more request go out.
pub fn frees_request_permit(message: &TorrentTcpMessage) -> (r: bool)
    ensures
        r == (message@ is Piece),
{
    match message {
        TorrentTcpMessage::Piece { .. } => true,
        _ => false,
    }
}

/// The size of the blocks a piece is asked for in.
pub const BLOCK_SIZE: u32 = 16384;

/// The number of blocks a piece of `len` bytes is asked for in.
pub open spec fn block_count(len: u32) -> nat {
    ((len as int + BLOCK_SIZE - 1) / BLOCK_SIZE as int) as nat
}

/// Block `i` of the piece: it starts at `i` blocks in and is a block long, or what is left.
pub open spec fn block_request(index: u32, len: u32, i: int) -> Message {
    let begin = i * BLOCK_SIZE;
    let length = if len - begin < BLOCK_SIZE { len - begin } else { BLOCK_SIZE as int };
    Message::Request { index, begin: begin as u32, length: length as u32 }
}

/// The end of block `i` of a piece of `len` bytes: where the next block starts, or `len` for
/// the last one.
pub open spec fn block_end(len: u32, i: int) -> int {
    if (i + 1) * BLOCK_SIZE < len { (i + 1) * BLOCK_SIZE } else { len as int }
}

/// The blocks a piece is asked for in cover it exactly, in order: the first starts at 0,
/// each starts where the one before ends, the last ends at the piece's end, and none is
/// empty or longer than `BLOCK_SIZE`.
pub proof fn lemma_blocks_tile_piece(index: u32, len: u32)
    ensures
        len == 0 <==> block_count(len) == 0,
        forall|i: int|
            0 <= i < block_count(len) ==> {
                let r = #[trigger] block_request(index, len, i);
                &&& r matches Message::Request { index: x, begin, length }
                &&& x == index
                &&& begin == i * BLOCK_SIZE
                &&& 0 < length <= BLOCK_SIZE
                &&& begin + length == block_end(len, i)
            },
        block_count(len) > 0 ==> block_end(len, block_count(len) - 1) == len,
{
    let n = block_count(len);
    assert(n == (len as int + 16383) / 16384);
    assert((len == 0) <==> (n == 0)) by (nonlinear_arith)
        requires
            n == (len as int + 16383) / 16384,
            len >= 0,
    ;
    assert forall|i: int| 0 <= i < n implies {
        let r = #[trigger] block_request(index, len, i);
        &&& r matches Message::Request { index: x, begin, length }
        &&& x == index
        &&& begin == i * BLOCK_SIZE
        &&& 0 < length <= BLOCK_SIZE
        &&& begin + length == block_end(len, i)
    } by {
        assert(i * 16384 < len) by (nonlinear_arith)
            requires
                0 <= i < n,
                n == (len as int + 16383) / 16384,
        ;
    }
    if n > 0 {
        assert(len <= n * 16384) by (nonlinear_arith)
            requires
                n == (len as int + 16383) / 16384,
        ;
    }
}

/// The requests that ask for a piece, block by block from its start.
pub fn block_requests(task: &PieceReq) -> (r: Vec<TorrentTcpMessage>)
    ensures
        r@.len() == block_count(task.piece_length),
        forall|i: int|
            0 <= i < r@.len() ==> #[trigger] r@[i]@ == block_request(task.piece_index, task.piece_length, i),
{
    let block_size: u32 = BLOCK_SIZE;
    let mut out: Vec<TorrentTcpMessage> = Vec::new();
    let mut offset: u32 = 0;
    let mut i: usize = 0;
    while offset < task.piece_length
        invariant
            block_size == BLOCK_SIZE,
            offset as int == i * BLOCK_SIZE,
            i as int * BLOCK_SIZE <= task.piece_length as int + BLOCK_SIZE - 1,
            offset < task.piece_length ==> i < block_count(task.piece_length),
            offset >= task.piece_length ==> i == block_count(task.piece_length),
            out@.len() == i,
            forall|k: int|
                0 <= k < i ==> #[trigger] out@[k]@ == block_request(task.piece_index, task.piece_length, k),
        decreases task.piece_length - offset,
    {
        let length = if block_size < task.piece_length - offset {
            block_size
        } else {
            task.piece_length - offset
        };
        out.push(TorrentTcpMessage::Request { index: task.piece_index, begin: offset, length });
        proof {
            assert(out@[i as int]@ == block_request(task.piece_index, task.piece_length, i as int));
        }
        if task.piece_length - offset <= block_size {
            offset = task.piece_length;
            i = i + 1;
            proof {
                assert(i == block_count(task.piece_length)) by (nonlinear_arith)
                    requires
                        (i - 1) * 16384 < task.piece_length as int,
                        task.piece_length as int <= i * 16384,
                        BLOCK_SIZE == 16384,
                        block_count(task.piece_length) == (task.piece_length as nat + 16383) / 16384,
                ;
            }
            assert(forall|k: int|
                0 <= k < i ==> #[trigger] out@[k]@ == block_request(task.piece_index, task.piece_length, k));
            return out;
        }
        offset = offset + block_size;
        i = i + 1;
        proof {
            assert(i < block_count(task.piece_length)) by (nonlinear_arith)
                requires
                    i * 16384 < task.piece_length as int,
                    block_count(task.piece_length) == (task.piece_length as nat + 16383) / 16384,
            ;
        }
    }
    out
}

/// Whether a frame is long enough for what its message reads of it.
pub fn frame_is_readable(frame: &[u8]) -> (r: bool)
    ensures
        r == frame_long_enough(frame@),
{
    if frame.len() == 0 {
        return true;
    }
    let id = frame[0];
    let len = frame.len() - 1;
    if id == 4 {
        len >= 4
    } else if id == 6 || id == 8 {
        len >= 12
    } else if id == 7 {
        len >= 8
    } else {
        true
    }
}

/// What a connection keeps of its peer: the pieces the peer has, the pieces it knows we have
/// (told by its bitfield or by our `have`s), the blocks caught and not yet bundled, and
/// whether the peer chokes us.
pub struct PeerState {
    pub peer_bitfield: Bitfield,
    pub sent_have: Bitfield,
    pub caught: Vec<PieceResponse>,
    pub choked: bool,
}

/// A connection's knowledge of its peer as a mathematical value.
pub struct PeerModel {
    pub peer: Seq<u8>,
    pub sent: Seq<u8>,
    pub caught: Seq<Block>,
    pub choked: bool,
}

impl View for PeerState {
    type V = PeerModel;

    open spec fn view(&self) -> PeerModel {
        PeerModel {
            peer: self.peer_bitfield.bytes@,
            sent: self.sent_have.bytes@,
            caught: blocks_view(self.caught@),
            choked: self.choked,
        }
    }
}

impl PeerState {
    /// A fresh connection to a torrent of `total_pieces` pieces: the peer has nothing, we
    /// told it of nothing, nothing is caught, and it chokes us.
    pub fn new(total_pieces: u64) -> (r: PeerState)
        ensures
            r@.peer.len() == r@.sent.len(),
            r@.peer == r@.sent,
            crate::pieces::all_zero(r@.peer),
            r@.peer.len() == ((total_pieces / 8 + if total_pieces % 8 != 0 { 1u64 } else { 0u64 }) as usize),
            r@.caught.len() == 0,
            r@.choked,
    {
        let peer_bitfield = Bitfield::new(total_pieces);
        let sent_have = Bitfield::new(total_pieces);
        assert(peer_bitfield.bytes@ =~= sent_have.bytes@);
        PeerState { peer_bitfield, sent_have, caught: Vec::new(), choked: true }
    }
}

/// Keeps a caught block, unless the very same block is kept already.
pub open spec fn record_block(caught: Seq<Block>, b: Block) -> Seq<Block> {
    if caught.contains(b) {
        caught
    } else {
        caught.push(b)
    }
}

/// A message that the listener does not expect from a peer: `interested`,
/// `not interested` or `cancel`.
#[derive(Debug, Clone, Copy, PartialEq, Eq)]
pub struct UnexpectedMessage;

/// What a message from the peer does to what we keep of it, and what task it calls for;
/// `None` for a message not expected. A bitfield is taken as the peer's and as what it knows
/// of ours; a `have` marks the piece as the peer's and, if we lack it, calls for
/// `interested`; a block is kept; a request for a block we hold calls for sending it.
pub open spec fn listener_step(
    s: PeerModel,
    own: Seq<u8>,
    stored: Seq<PieceDownloaded>,
    m: Message,
) -> Option<(PeerModel, Option<TaskModel>)> {
    match m {
        Message::KeepAlive => Some((s, None)),
        Message::Bitfield(raw) => Some(
            (PeerModel { peer: raw, sent: raw, caught: s.caught, choked: s.choked }, None),
        ),
        Message::Choke => Some(
            (PeerModel { peer: s.peer, sent: s.sent, caught: s.caught, choked: true }, None),
        ),
        Message::Unchoke => Some(
            (PeerModel { peer: s.peer, sent: s.sent, caught: s.caught, choked: false }, None),
        ),
        Message::Have(i) => Some(
            (
                PeerModel {
                    peer: with_piece(s.peer, i as int),
                    sent: s.sent,
                    caught: s.caught,
                    choked: s.choked,
                },
                if has_piece(own, i as int) {
                    None
                } else {
                    Some(TaskModel::Interested)
                },
            ),
        ),
        Message::Piece { index, begin, block } => Some(
            (
                PeerModel {
                    peer: s.peer,
                    sent: s.sent,
                    caught: record_block(s.caught, Block { index, begin, data: block }),
                    choked: s.choked,
                },
                None,
            ),
        ),
        Message::Request { index, begin, length } => Some(
            (
                s,
                match block_of(stored, index, begin, length) {
                    Some(data) => Some(TaskModel::Response(Block { index, begin, data })),
                    None => None,
                },
            ),
        ),
        _ => None,
    }
}

pub open spec fn task_opt_view(o: Option<Task>) -> Option<TaskModel> {
    match o {
        Some(t) => Some(t@),
        None => None,
    }
}

/// Whether the same block is among `v`.
fn contains_block(v: &Vec<PieceResponse>, x: &PieceResponse) -> (r: bool)
    ensures
        r == blocks_view(v@).contains(x@),
{
    let mut i: usize = 0;
    while i < v.len()
        invariant
            0 <= i <= v@.len(),
            forall|k: int| 0 <= k < i ==> v@[k]@ != x@,
        decreases v@.len() - i,
    {
        if v[i].same_as(x) {
            assert(blocks_view(v@)[i as int] == x@);
            return true;
        }
        i = i + 1;
    }
    assert forall|k: int| 0 <= k < blocks_view(v@).len() implies blocks_view(v@)[k] != x@ by {
        assert(blocks_view(v@)[k] == v@[k]@);
    }
    false
}

/// Handles one message from the peer: updates what we keep of it and gives the task it
/// calls for, if any; fails on a message the listener does not expect, changing nothing.
pub fn on_message(
    state: &mut PeerState,
    own: &Bitfield,
    stored: &Vec<PieceDownloaded>,
    message: TorrentTcpMessage,
) -> (r: Result<Option<Task>, UnexpectedMessage>)
    requires
        message@ matches Message::Request { begin, length, .. } ==> begin + length <= u32::MAX,
    ensures
        match listener_step(old(state)@, own.bytes@, stored@, message@) {
            Some((s, t)) => final(state)@ == s && (r matches Ok(o) && task_opt_view(o) == t),
            None => final(state)@ == old(state)@ && r is Err,
        },
{
    match message {
        TorrentTcpMessage::KeepAlive => Ok(None),
        TorrentTcpMessage::Bitfield(raw) => {
            state.peer_bitfield.set_all(&raw);
            state.sent_have.set_all(&raw);
            Ok(None)
        },
        TorrentTcpMessage::Choke => {
            state.choked = true;
            Ok(None)
        },
        TorrentTcpMessage::Unchoke => {
            state.choked = false;
            Ok(None)
        },
        TorrentTcpMessage::Have(piece_index) => {
            state.peer_bitfield.set(piece_index);
            if !own.has(piece_index) {
                Ok(Some(Task::Interested))
            } else {
                Ok(None)
            }
        },
        TorrentTcpMessage::Piece { index, begin, block } => {
            let pr = PieceResponse { index, begin, block };
            if !contains_block(&state.caught, &pr) {
                let ghost before = state.caught@;
                state.caught.push(pr);
                assert(blocks_view(state.caught@) =~= blocks_view(before).push(pr@));
            }
            Ok(None)
        },
        TorrentTcpMessage::Request { index, begin, length } => {
            match crate::pieces::get_block_from(stored, index, begin, length) {
                Some(block) => Ok(Some(Task::Response(PieceResponse { index, begin, block }))),
                None => Ok(None),
            }
        },
        _ => Err(UnexpectedMessage),
    }
}

/// `bytes` with each of the pieces `ps` set in turn.
pub open spec fn with_pieces(bytes: Seq<u8>, ps: Seq<int>) -> Seq<u8>
    decreases ps.len(),
{
    if ps.len() == 0 {
        bytes
    } else {
        with_piece(with_pieces(bytes, ps.drop_last()), ps.last())
    }
}

/// The pieces we have, that the peer lacks and that it has not been told of, in increasing
/// order: the `have`s still owed to it.
pub open spec fn owed_haves(own: Seq<u8>, peer: Seq<u8>, sent: Seq<u8>) -> Seq<int> {
    set_pieces(diff_bytes(diff_bytes(own, peer), sent))
}

/// Setting pieces one after the other sets exactly those that lie within the bytes.
pub proof fn lemma_with_pieces_has(bytes: Seq<u8>, ps: Seq<int>, j: int)
    requires
        forall|k: int| 0 <= k < ps.len() ==> 0 <= #[trigger] ps[k],
    ensures
        with_pieces(bytes, ps).len() == bytes.len(),
        has_piece(with_pieces(bytes, ps), j) == (has_piece(bytes, j) || (ps.contains(j) && j / 8
            < bytes.len())),
    decreases ps.len(),
{
    if ps.len() > 0 {
        let init = ps.drop_last();
        lemma_with_pieces_has(bytes, init, j);
        lemma_set_then_has(with_pieces(bytes, init), ps.last(), j);
        if ps.contains(j) && !init.contains(j) {
            let k = choose|k: int| 0 <= k < ps.len() && ps[k] == j;
            if k < init.len() {
                assert(init[k] == j);
            }
        }
        if init.contains(j) {
            let k = choose|k: int| 0 <= k < init.len() && init[k] == j;
            assert(ps[k] == j);
        }
    }
}

/// Once the owed `have`s are marked as told, none is owed any more: each is sent once.
pub proof fn lemma_haves_sent_once(own: Seq<u8>, peer: Seq<u8>, sent: Seq<u8>)
    ensures
        ({
            let owed = owed_haves(own, peer, sent);
            let after = with_pieces(sent, owed);
            &&& forall|i: int| #[trigger] owed.contains(i) ==> has_piece(after, i)
            &&& owed_haves(own, peer, after).len() == 0
        }),
{
    let d = diff_bytes(own, peer);
    let owed = owed_haves(own, peer, sent);
    let after = with_pieces(sent, owed);
    lemma_set_pieces(diff_bytes(d, sent));
    assert forall|k: int| 0 <= k < owed.len() implies 0 <= #[trigger] owed[k] by {
        assert(owed.contains(owed[k]));
    }
    assert forall|i: int| #[trigger] owed.contains(i) implies has_piece(after, i) by {
        lemma_with_pieces_has(sent, owed, i);
        lemma_diff_has(d, sent, i);
    }
    let d2 = diff_bytes(d, after);
    assert forall|i: int| !#[trigger] has_piece(d2, i) by {
        lemma_with_pieces_has(sent, owed, i);
        lemma_diff_has(d, after, i);
        lemma_diff_has(d, sent, i);
    }
    lemma_empty_has_none(d2);
}

/// The `have`s owed to the peer, in increasing order; each is marked as told.
pub fn unsent_haves(state: &mut PeerState, own: &Bitfield) -> (r: Vec<u32>)
    requires
        diff_bytes(diff_bytes(own.bytes@, old(state)@.peer), old(state)@.sent).len() <= 0x2000_0000,
    ensures
        ({
            let owed = owed_haves(own.bytes@, old(state)@.peer, old(state)@.sent);
            &&& r@.len() == owed.len()
            &&& forall|k: int| 0 <= k < r@.len() ==> #[trigger] r@[k] as int == owed[k]
            &&& final(state)@ == PeerModel {
                peer: old(state)@.peer,
                sent: with_pieces(old(state)@.sent, owed),
                caught: old(state)@.caught,
                choked: old(state)@.choked,
            }
        }),
{
    let have = own.diff(&state.peer_bitfield);
    let unsent = have.diff(&state.sent_have);
    let indices = unsent.get_set_indices();
    let ghost owed = owed_haves(own.bytes@, old(state)@.peer, old(state)@.sent);
    let ghost sent0 = old(state)@.sent;
    let mut k: usize = 0;
    assert(owed.take(0) =~= seq![]);
    while k < indices.len()
        invariant
            0 <= k <= indices@.len(),
            indices@.len() == owed.len(),
            forall|m: int| 0 <= m < indices@.len() ==> #[trigger] indices@[m] as int == owed[m],
            state@.peer == old(state)@.peer,
            state@.caught == old(state)@.caught,
            state@.choked == old(state)@.choked,
            state@.sent == with_pieces(sent0, owed.take(k as int)),
        decreases indices@.len() - k,
    {
        state.sent_have.set(indices[k]);
        proof {
            assert(owed.take(k + 1).drop_last() =~= owed.take(k as int));
            assert(owed.take(k + 1).last() == owed[k as int]);
        }
        k = k + 1;
    }
    assert(owed.take(owed.len() as int) =~= owed);
    indices
}

/// No block is kept twice.
pub open spec fn distinct_blocks(c: Seq<Block>) -> bool {
    forall|i: int, j: int| 0 <= i < j < c.len() ==> c[i] != c[j]
}

/// The listener keeps no block twice: if the kept blocks are distinct before a message,
/// they are after it.
pub proof fn lemma_listener_keeps_blocks_distinct(
    s: PeerModel,
    own: Seq<u8>,
    stored: Seq<PieceDownloaded>,
    m: Message,
)
    requires
        distinct_blocks(s.caught),
        listener_step(s, own, stored, m) is Some,
    ensures
        distinct_blocks(listener_step(s, own, stored, m).unwrap().0.caught),
{
    if let Message::Piece { index, begin, block } = m {
        let b = Block { index, begin, data: block };
        if !s.caught.contains(b) {
            let c = s.caught.push(b);
            assert forall|i: int, j: int| 0 <= i < j < c.len() implies c[i] != c[j] by {
                if j == s.caught.len() {
                    assert(c[i] == s.caught[i]);
                }
            }
        }
    }
}

} // verus!
