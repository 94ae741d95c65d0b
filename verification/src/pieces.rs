//! Pieces: which of them a peer has, as a bitfield, and what is asked of peers and got back.
use vstd::prelude::*;

verus! {

/// What the peer tasks are asked to do.
#[derive(Debug, Clone, PartialEq, Eq)]
pub enum Task {
    Interested,
    Have(u32),
    Request(PieceReq),
    Response(PieceResponse),
}

/// A block of a piece that a peer sent.
#[derive(Debug, Clone, PartialEq, Eq, PartialOrd, Ord)]
pub struct PieceResponse {
    pub index: u32,
    pub begin: u32,
    pub block: Vec<u8>,
}

/// A piece to download: its index, length and the SHA-1 digest it must have.
#[derive(Debug, Clone, PartialEq, Eq)]
pub struct PieceReq {
    pub piece_hash: [u8; 20],
    pub piece_index: u32,
    pub piece_length: u32,
}

/// A piece downloaded and checked.
#[derive(Debug, Clone, PartialEq, Eq)]
pub struct PieceDownloaded {
    pub piece_data: Vec<u8>,
    pub piece_req: PieceReq,
}

/// A block of a piece as a mathematical value.
pub struct Block {
    pub index: u32,
    pub begin: u32,
    pub data: Seq<u8>,
}

impl View for PieceResponse {
    type V = Block;

    open spec fn view(&self) -> Block {
        Block { index: self.index, begin: self.begin, data: self.block@ }
    }
}

/// A task as a mathematical value.
pub enum TaskModel {
    Interested,
    Have(u32),
    Request(PieceReq),
    Response(Block),
}

impl View for Task {
    type V = TaskModel;

    open spec fn view(&self) -> TaskModel {
        match self {
            Task::Interested => TaskModel::Interested,
            Task::Have(i) => TaskModel::Have(*i),
            Task::Request(r) => TaskModel::Request(*r),
            Task::Response(b) => TaskModel::Response(b@),
        }
    }
}

/// The blocks of a sequence of responses.
pub open spec fn blocks_view(v: Seq<PieceResponse>) -> Seq<Block> {
    Seq::new(v.len(), |i: int| v[i]@)
}

/// A copy of the bytes.
pub fn copy_bytes(b: &[u8]) -> (r: Vec<u8>)
    ensures
        r@ == b@,
{
    let mut copy: Vec<u8> = Vec::new();
    let mut i: usize = 0;
    while i < b.len()
        invariant
            0 <= i <= b@.len(),
            copy@ == b@.take(i as int),
        decreases b@.len() - i,
    {
        copy.push(b[i]);
        i = i + 1;
        assert(copy@ =~= b@.take(i as int));
    }
    assert(b@.take(b@.len() as int) =~= b@);
    copy
}

impl PieceResponse {
    /// A copy of this response.
    pub fn duplicate(&self) -> (r: PieceResponse)
        ensures
            r@ == self@,
    {
        PieceResponse { index: self.index, begin: self.begin, block: copy_bytes(self.block.as_slice()) }
    }

    /// Whether `other` is the same block of the same piece: index, offset and bytes all equal.
    pub fn same_as(&self, other: &PieceResponse) -> (r: bool)
        ensures
            r == (self@ == other@),
    {
        self.index == other.index && self.begin == other.begin && crate::bencoding_parser::slice_eq(
            self.block.as_slice(),
            other.block.as_slice(),
        )
    }
}

impl PieceReq {
    /// A copy of this request.
    pub fn duplicate(&self) -> (r: PieceReq)
        ensures
            r == *self,
    {
        PieceReq { piece_hash: self.piece_hash, piece_index: self.piece_index, piece_length: self.piece_length }
    }
}

/// Which pieces someone has: bit `i` stands for piece `i`, the most significant bit of each
/// byte first.
#[derive(Debug, Clone, PartialEq, Eq)]
pub struct Bitfield {
    pub bytes: Vec<u8>,
}

/// The mask of bit `k` of a byte, counting from the most significant bit.
pub open spec fn bit_mask(k: u32) -> u8 {
    0x80u8 >> k
}

/// Bit `k` of `b` is set, counting from the most significant bit.
pub open spec fn byte_has(b: u8, k: u32) -> bool {
    b & bit_mask(k) != 0
}

/// Piece `i` is set in `bytes`.
pub open spec fn has_piece(bytes: Seq<u8>, i: int) -> bool {
    0 <= i && i / 8 < bytes.len() && byte_has(bytes[i / 8], (i % 8) as u32)
}

/// `bytes` with piece `i` set; unchanged when `i` lies beyond them.
pub open spec fn with_piece(bytes: Seq<u8>, i: int) -> Seq<u8> {
    if 0 <= i && i / 8 < bytes.len() {
        bytes.update(i / 8, bytes[i / 8] | bit_mask((i % 8) as u32))
    } else {
        bytes
    }
}

/// `bytes` with piece `i` cleared; unchanged when `i` lies beyond them.
pub open spec fn without_piece(bytes: Seq<u8>, i: int) -> Seq<u8> {
    if 0 <= i && i / 8 < bytes.len() {
        bytes.update(i / 8, bytes[i / 8] & !bit_mask((i % 8) as u32))
    } else {
        bytes
    }
}

/// The pieces set in `a` and not in `b`, over as many bytes as both have.
pub open spec fn diff_bytes(a: Seq<u8>, b: Seq<u8>) -> Seq<u8> {
    let n = if a.len() < b.len() { a.len() } else { b.len() };
    Seq::new(n, |k: int| a[k] & !b[k])
}

/// The pieces set in the first `n` bits of `b`, numbered from `base`, in increasing order.
pub open spec fn byte_pieces(b: u8, base: int, n: nat) -> Seq<int>
    decreases n,
{
    if n == 0 {
        seq![]
    } else {
        byte_pieces(b, base, (n - 1) as nat) + if byte_has(b, (n - 1) as u32) {
            seq![base + n - 1]
        } else {
            seq![]
        }
    }
}

/// The pieces set in `bytes`, in increasing order.
pub open spec fn set_pieces(bytes: Seq<u8>) -> Seq<int>
    decreases bytes.len(),
{
    if bytes.len() == 0 {
        seq![]
    } else {
        set_pieces(bytes.drop_last()) + byte_pieces(bytes.last(), 8 * (bytes.len() - 1), 8)
    }
}

pub open spec fn all_zero(bytes: Seq<u8>) -> bool {
    forall|k: int| 0 <= k < bytes.len() ==> bytes[k] == 0
}

proof fn lemma_byte_bits(b: u8, m: u8, k: u32, j: u32)
    requires
        k < 8,
        j < 8,
    ensures
        byte_has(b | bit_mask(k), j) == (j == k || byte_has(b, j)),
        byte_has(b & !m, j) == (byte_has(b, j) && !byte_has(m, j)),
        !byte_has(0, j),
        byte_has(b & !bit_mask(k), j) == (j != k && byte_has(b, j)),
{
    assert(((b & !(0x80u8 >> k)) & (0x80u8 >> j) != 0) == (j != k && b & (0x80u8 >> j) != 0))
        by (bit_vector)
        requires
            k < 8,
            j < 8,
    ;
    assert(((b | (0x80u8 >> k)) & (0x80u8 >> j) != 0) == (j == k || b & (0x80u8 >> j) != 0))
        by (bit_vector)
        requires
            k < 8,
            j < 8,
    ;
    assert(((b & !m) & (0x80u8 >> j) != 0) == (b & (0x80u8 >> j) != 0 && m & (0x80u8 >> j) == 0))
        by (bit_vector)
        requires
            j < 8,
    ;
    assert((0u8 & (0x80u8 >> j)) == 0) by (bit_vector)
        requires
            j < 8,
    ;
}

proof fn lemma_zero_byte(b: u8)
    ensures
        b == 0 <==> forall|j: u32| j < 8 ==> !byte_has(b, j),
{
    assert(b != 0 ==> (b & (0x80u8 >> 0u32) != 0 || b & (0x80u8 >> 1u32) != 0 || b & (0x80u8 >> 2u32)
        != 0 || b & (0x80u8 >> 3u32) != 0 || b & (0x80u8 >> 4u32) != 0 || b & (0x80u8 >> 5u32) != 0
        || b & (0x80u8 >> 6u32) != 0 || b & (0x80u8 >> 7u32) != 0)) by (bit_vector);
    assert forall|j: u32| j < 8 && b == 0 implies !byte_has(b, j) by {
        lemma_byte_bits(b, 0, 0, j);
    }
    if b != 0 {
        assert(byte_has(b, 0) || byte_has(b, 1) || byte_has(b, 2) || byte_has(b, 3) || byte_has(b, 4)
            || byte_has(b, 5) || byte_has(b, 6) || byte_has(b, 7));
    }
}

/// What `byte_pieces` holds: exactly the set bits among the first `n`, each once, in order,
/// all within `[base, base + n)`.
proof fn lemma_byte_pieces(b: u8, base: int, n: nat)
    requires
        n <= 8,
    ensures
        forall|x: int| #[trigger] byte_pieces(b, base, n).contains(x) <==> (base <= x < base + n && byte_has(
            b,
            (x - base) as u32,
        )),
        forall|p: int, q: int|
            0 <= p < q < byte_pieces(b, base, n).len() ==> #[trigger] byte_pieces(b, base, n)[p]
                < #[trigger] byte_pieces(b, base, n)[q],
        forall|p: int|
            0 <= p < byte_pieces(b, base, n).len() ==> base <= #[trigger] byte_pieces(b, base, n)[p] < base + n,
    decreases n,
{
    if n > 0 {
        lemma_byte_pieces(b, base, (n - 1) as nat);
        let prev = byte_pieces(b, base, (n - 1) as nat);
        let cur = byte_pieces(b, base, n);
        if byte_has(b, (n - 1) as u32) {
            assert(cur == prev + seq![base + n - 1]);
            assert forall|x: int| cur.contains(x) <==> (base <= x < base + n && byte_has(
                b,
                (x - base) as u32,
            )) by {
                if cur.contains(x) {
                    let p = choose|p: int| 0 <= p < cur.len() && cur[p] == x;
                    if p < prev.len() {
                        assert(prev.contains(x));
                    }
                }
                if base <= x < base + n && byte_has(b, (x - base) as u32) {
                    if x < base + n - 1 {
                        assert(prev.contains(x));
                        let p = choose|p: int| 0 <= p < prev.len() && prev[p] == x;
                        assert(cur[p] == x);
                    } else {
                        assert(cur[prev.len() as int] == x);
                    }
                }
            }
        } else {
            assert(cur =~= prev);
            assert forall|x: int| cur.contains(x) <==> (base <= x < base + n && byte_has(
                b,
                (x - base) as u32,
            )) by {
                if base <= x < base + n && byte_has(b, (x - base) as u32) {
                    assert(x != base + n - 1);
                }
            }
        }
    }
}

/// What `set_pieces` holds: the set pieces, each once, in increasing order, all within the
/// bits there are.
pub proof fn lemma_set_pieces(bytes: Seq<u8>)
    ensures
        forall|x: int| #[trigger] set_pieces(bytes).contains(x) <==> has_piece(bytes, x),
        forall|p: int, q: int|
            0 <= p < q < set_pieces(bytes).len() ==> #[trigger] set_pieces(bytes)[p]
                < #[trigger] set_pieces(bytes)[q],
        forall|p: int|
            0 <= p < set_pieces(bytes).len() ==> 0 <= #[trigger] set_pieces(bytes)[p] < 8
                * bytes.len(),
    decreases bytes.len(),
{
    if bytes.len() > 0 {
        let init = bytes.drop_last();
        let base = 8 * (bytes.len() - 1);
        lemma_set_pieces(init);
        lemma_byte_pieces(bytes.last(), base, 8);
        let prev = set_pieces(init);
        let bp = byte_pieces(bytes.last(), base, 8);
        let cur = set_pieces(bytes);
        assert(cur == prev + bp);
        assert forall|x: int| #[trigger] cur.contains(x) <==> has_piece(bytes, x) by {
            if 0 <= x < base {
                assert(x / 8 < init.len());
                assert(bytes[x / 8] == init[x / 8]);
                assert(!bp.contains(x));
                if cur.contains(x) {
                    let p = choose|p: int| 0 <= p < cur.len() && cur[p] == x;
                    if p >= prev.len() {
                        assert(bp[p - prev.len()] == x);
                    }
                    assert(prev.contains(x));
                }
                if prev.contains(x) {
                    let p = choose|p: int| 0 <= p < prev.len() && prev[p] == x;
                    assert(cur[p] == x);
                }
            } else if base <= x < base + 8 {
                assert(x / 8 == bytes.len() - 1);
                assert(x % 8 == x - base);
                assert(!prev.contains(x));
                if cur.contains(x) {
                    let p = choose|p: int| 0 <= p < cur.len() && cur[p] == x;
                    assert(p >= prev.len());
                    assert(bp[p - prev.len()] == x);
                    assert(bp.contains(x));
                }
                if bp.contains(x) {
                    let p = choose|p: int| 0 <= p < bp.len() && bp[p] == x;
                    assert(cur[prev.len() + p] == x);
                }
            } else {
                if cur.contains(x) {
                    let p = choose|p: int| 0 <= p < cur.len() && cur[p] == x;
                    if p < prev.len() {
                        assert(prev[p] == x);
                    } else {
                        assert(bp[p - prev.len()] == x);
                    }
                }
                if x >= 0 {
                    assert(x / 8 >= bytes.len());
                }
            }
        }
        assert forall|p: int, q: int| 0 <= p < q < cur.len() implies #[trigger] cur[p]
            < #[trigger] cur[q] by {
            if q < prev.len() {
                assert(cur[p] == prev[p] && cur[q] == prev[q]);
            } else if p >= prev.len() {
                assert(cur[p] == bp[p - prev.len()] && cur[q] == bp[q - prev.len()]);
            } else {
                assert(cur[p] == prev[p] && cur[q] == bp[q - prev.len()]);
            }
        }
        assert forall|p: int| 0 <= p < cur.len() implies 0 <= #[trigger] cur[p] < 8 * bytes.len() by {
            if p < prev.len() {
                assert(cur[p] == prev[p]);
            } else {
                assert(cur[p] == bp[p - prev.len()]);
            }
        }
    }
}

proof fn lemma_byte_pieces_len(b: u8, base1: int, base2: int, n: nat)
    ensures
        byte_pieces(b, base1, n).len() == byte_pieces(b, base2, n).len(),
        byte_pieces(b, base1, n).len() <= n,
    decreases n,
{
    if n > 0 {
        lemma_byte_pieces_len(b, base1, base2, (n - 1) as nat);
    }
}

proof fn lemma_set_pieces_prefix_len(bytes: Seq<u8>, i: int)
    requires
        0 <= i <= bytes.len(),
    ensures
        set_pieces(bytes.take(i)).len() <= set_pieces(bytes).len(),
        set_pieces(bytes).len() <= 8 * bytes.len(),
    decreases bytes.len() - i,
{
    if i < bytes.len() {
        lemma_set_pieces_prefix_len(bytes, i + 1);
        assert(bytes.take(i + 1).drop_last() =~= bytes.take(i));
    } else {
        assert(bytes.take(i) =~= bytes);
        lemma_set_pieces_bound(bytes);
    }
}

proof fn lemma_set_pieces_bound(bytes: Seq<u8>)
    ensures
        set_pieces(bytes).len() <= 8 * bytes.len(),
    decreases bytes.len(),
{
    if bytes.len() > 0 {
        lemma_set_pieces_bound(bytes.drop_last());
        lemma_byte_pieces_len(bytes.last(), 8 * (bytes.len() - 1), 0, 8);
    }
}

/// The number of set bits of a byte.
fn byte_count(b: u8) -> (r: u32)
    ensures
        r == byte_pieces(b, 0, 8).len(),
{
    let mut count: u32 = 0;
    let mut k: u32 = 0;
    while k < 8
        invariant
            0 <= k <= 8,
            count == byte_pieces(b, 0, k as nat).len(),
            count <= k,
        decreases 8 - k,
    {
        proof {
            lemma_byte_pieces_len(b, 0, 0, k as nat);
        }
        if b & (0x80u8 >> k) != 0 {
            count = count + 1;
        }
        k = k + 1;
    }
    count
}

impl Bitfield {
    /// A bitfield for `total_pieces_amount` pieces, none of them set: as many zero bytes as
    /// it takes to hold that many bits.
    pub fn new(total_pieces_amount: u64) -> (r: Self)
        ensures
            r.bytes@.len() == ((total_pieces_amount / 8 + if total_pieces_amount % 8 != 0 {
                1u64
            } else {
                0u64
            }) as usize),
            all_zero(r.bytes@),
    {
        let n64: u64 = total_pieces_amount / 8 + if total_pieces_amount % 8 != 0 {
            1
        } else {
            0
        };
        let n = n64 as usize;
        let mut bytes: Vec<u8> = Vec::new();
        let mut i: usize = 0;
        while i < n
            invariant
                0 <= i <= n,
                bytes@.len() == i,
                all_zero(bytes@),
            decreases n - i,
        {
            bytes.push(0);
            i = i + 1;
        }
        Self { bytes }
    }

    /// No piece is set: every byte is zero.
    pub fn is_empty(&self) -> (r: bool)
        ensures
            r == all_zero(self.bytes@),
    {
        let mut i: usize = 0;
        while i < self.bytes.len()
            invariant
                0 <= i <= self.bytes@.len(),
                forall|k: int| 0 <= k < i ==> self.bytes@[k] == 0,
            decreases self.bytes@.len() - i,
        {
            if self.bytes[i] != 0 {
                return false;
            }
            i = i + 1;
        }
        true
    }

    /// Every byte has its least significant bit set (true for no bytes at all).
    pub fn is_full(&self) -> (r: bool)
        ensures
            r == forall|k: int| 0 <= k < self.bytes@.len() ==> #[trigger] self.bytes@[k] & 1 == 1,
    {
        let mut i: usize = 0;
        while i < self.bytes.len()
            invariant
                0 <= i <= self.bytes@.len(),
                forall|k: int| 0 <= k < i ==> #[trigger] self.bytes@[k] & 1 == 1,
            decreases self.bytes@.len() - i,
        {
            if self.bytes[i] & 1 != 1 {
                return false;
            }
            i = i + 1;
        }
        true
    }

    /// At most one percent of the bits, rounded up, are still unset: with `total` eight bits
    /// per byte, `total - total_set() <= ceil(total / 100)`.
    pub fn is_close_to_done(&self) -> (r: bool)
        requires
            8 * self.bytes@.len() <= u32::MAX,
        ensures
            ({
                let total = 8 * self.bytes@.len();
                r == (total - set_pieces(self.bytes@).len() <= (total + 99) / 100)
            }),
    {
        proof {
            lemma_set_pieces_bound(self.bytes@);
        }
        let total_set = self.total_set();
        let total = 8 * self.bytes.len() as u32;
        let ceil = total / 100 + if total % 100 != 0 {
            1
        } else {
            0
        };
        assert(ceil == (total + 99) / 100);
        total - total_set <= ceil
    }

    /// How many pieces are set.
    pub fn total_set(&self) -> (r: u32)
        requires
            set_pieces(self.bytes@).len() <= u32::MAX,
        ensures
            r == set_pieces(self.bytes@).len(),
    {
        let ghost bs = self.bytes@;
        let mut total: u32 = 0;
        let mut i: usize = 0;
        assert(bs.take(0) =~= seq![]);
        while i < self.bytes.len()
            invariant
                0 <= i <= bs.len(),
                bs == self.bytes@,
                set_pieces(bs).len() <= u32::MAX,
                total == set_pieces(bs.take(i as int)).len(),
            decreases bs.len() - i,
        {
            let c = byte_count(self.bytes[i]);
            proof {
                assert(bs.take(i + 1).drop_last() =~= bs.take(i as int));
                lemma_byte_pieces_len(bs[i as int], 8 * i, 0, 8);
                lemma_set_pieces_prefix_len(bs, i + 1);
            }
            total = total + c;
            i = i + 1;
        }
        assert(bs.take(bs.len() as int) =~= bs);
        total
    }

    /// Whether piece `piece_index` is set; `false` when it lies beyond the bytes.
    pub fn has(&self, piece_index: u32) -> (r: bool)
        ensures
            r == has_piece(self.bytes@, piece_index as int),
    {
        let byte_index = piece_index / 8;
        let bit_offset = piece_index % 8;
        if (byte_index as usize) < self.bytes.len() {
            let mask: u8 = 0b1000_0000 >> bit_offset;
            self.bytes[byte_index as usize] & mask != 0
        } else {
            false
        }
    }

    /// Sets piece `piece_index`; does nothing when it lies beyond the bytes.
    pub fn set(&mut self, piece_index: u32)
        ensures
            final(self).bytes@ == with_piece(old(self).bytes@, piece_index as int),
    {
        let byte_index = piece_index / 8;
        let bit_index = piece_index % 8;
        if (byte_index as usize) < self.bytes.len() {
            let mask: u8 = 0b1000_0000 >> bit_index;
            let b = self.bytes[byte_index as usize];
            self.bytes.set(byte_index as usize, b | mask);
        }
    }

    /// Clears piece `piece_index`; does nothing when it lies beyond the bytes.
    pub fn unset(&mut self, piece_index: u32)
        ensures
            final(self).bytes@ == without_piece(old(self).bytes@, piece_index as int),
    {
        let byte_index = piece_index / 8;
        let bit_index = piece_index % 8;
        if (byte_index as usize) < self.bytes.len() {
            let mask: u8 = 0b1000_0000 >> bit_index;
            let b = self.bytes[byte_index as usize];
            self.bytes.set(byte_index as usize, b & !mask);
        }
    }

    /// Takes the given bytes as the bitfield.
    pub fn set_all(&mut self, bytes: &Vec<u8>)
        ensures
            final(self).bytes@ == bytes@,
    {
        self.bytes = copy_bytes(bytes.as_slice());
    }

    /// The pieces set here and not in `bitfield`, over as many bytes as both have.
    pub fn diff(&self, bitfield: &Bitfield) -> (r: Bitfield)
        ensures
            r.bytes@ == diff_bytes(self.bytes@, bitfield.bytes@),
    {
        let n = if self.bytes.len() < bitfield.bytes.len() {
            self.bytes.len()
        } else {
            bitfield.bytes.len()
        };
        let mut bytes: Vec<u8> = Vec::new();
        let mut i: usize = 0;
        while i < n
            invariant
                0 <= i <= n,
                n <= self.bytes@.len(),
                n <= bitfield.bytes@.len(),
                bytes@.len() == i,
                forall|k: int| 0 <= k < i ==> #[trigger] bytes@[k] == self.bytes@[k] & !bitfield.bytes@[k],
            decreases n - i,
        {
            bytes.push(self.bytes[i] & !bitfield.bytes[i]);
            i = i + 1;
        }
        let r = Bitfield { bytes };
        assert(r.bytes@ =~= diff_bytes(self.bytes@, bitfield.bytes@));
        r
    }

    /// The set pieces, in increasing order.
    pub fn get_set_indices(&self) -> (r: Vec<u32>)
        requires
            self.bytes@.len() <= 0x2000_0000,
        ensures
            r@.len() == set_pieces(self.bytes@).len(),
            forall|k: int| 0 <= k < r@.len() ==> #[trigger] r@[k] as int == set_pieces(self.bytes@)[k],
    {
        let ghost bs = self.bytes@;
        let mut out: Vec<u32> = Vec::new();
        let mut byte_index: usize = 0;
        assert(bs.take(0) =~= seq![]);
        while byte_index < self.bytes.len()
            invariant
                0 <= byte_index <= bs.len(),
                bs == self.bytes@,
                bs.len() <= 0x2000_0000,
                out@.len() == set_pieces(bs.take(byte_index as int)).len(),
                forall|k: int| 0 <= k < out@.len() ==> #[trigger] out@[k] as int == set_pieces(bs.take(byte_index as int))[k],
            decreases bs.len() - byte_index,
        {
            let byte = self.bytes[byte_index];
            let ghost before = out@;
            let ghost prev = set_pieces(bs.take(byte_index as int));
            let ghost base = 8 * byte_index as int;
            assert(bs.take(byte_index + 1).drop_last() =~= bs.take(byte_index as int));
            assert(bs.take(byte_index + 1).last() == byte);
            if byte != 0 {
                let mut bit_index: u32 = 0;
                while bit_index < 8
                    invariant
                        0 <= bit_index <= 8,
                        byte_index < bs.len() <= 0x2000_0000,
                        base == 8 * byte_index as int,
                        out@.len() == before.len() + byte_pieces(byte, base, bit_index as nat).len(),
                        forall|k: int| 0 <= k < before.len() ==> #[trigger] out@[k] == before[k],
                        forall|k: int| 0 <= k < byte_pieces(byte, base, bit_index as nat).len()
                            ==> #[trigger] out@[before.len() + k] as int == byte_pieces(byte, base, bit_index as nat)[k],
                    decreases 8 - bit_index,
                {
                    let mask: u8 = 0b1000_0000 >> bit_index;
                    if (byte & mask) != 0 {
                        assert(8 * byte_index + bit_index <= u32::MAX);
                        out.push(byte_index as u32 * 8 + bit_index);
                    }
                    bit_index = bit_index + 1;
                }
            } else {
                proof {
                    lemma_zero_byte(byte);
                    lemma_byte_pieces(byte, base, 8);
                    if byte_pieces(byte, base, 8).len() > 0 {
                        assert(byte_pieces(byte, base, 8).contains(byte_pieces(byte, base, 8)[0]));
                    }
                }
            }
            proof {
                let cur = set_pieces(bs.take(byte_index + 1));
                assert(cur == prev + byte_pieces(byte, base, 8));
                assert forall|k: int| 0 <= k < out@.len() implies #[trigger] out@[k] as int == cur[k] by {
                    if k < before.len() {
                        assert(out@[k] == before[k]);
                    } else {
                        assert(out@[before.len() + (k - before.len())] == out@[k]);
                    }
                }
            }
            byte_index = byte_index + 1;
        }
        assert(bs.take(bs.len() as int) =~= bs);
        out
    }
}

/// The bit order of the protocol: piece `8k` is the most significant bit of byte `k` (set when
/// the byte is 128 or more) and piece `8k + 7` its least significant bit (set when the byte is
/// odd); pieces past the bytes are never set.
pub proof fn lemma_bit_order(bytes: Seq<u8>, k: int)
    requires
        0 <= k < bytes.len(),
    ensures
        has_piece(bytes, 8 * k) == (bytes[k] >= 128),
        has_piece(bytes, 8 * k + 7) == (bytes[k] % 2 == 1),
        !has_piece(bytes, 8 * (bytes.len() as int)),
{
    let b = bytes[k];
    let n: int = bytes.len() as int;
    assert((8 * k) / 8 == k && (8 * k) % 8 == 0);
    assert((8 * k + 7) / 8 == k && (8 * k + 7) % 8 == 7);
    assert((8 * n) / 8 == n);
    assert((b & (0x80u8 >> 0u32) != 0) == (b >= 128)) by (bit_vector);
    assert((b & (0x80u8 >> 7u32) != 0) == (b % 2 == 1)) by (bit_vector);
}

/// The pieces set in a bitfield.
pub open spec fn piece_set(bytes: Seq<u8>) -> Set<int> {
    Set::new(|i: int| has_piece(bytes, i))
}

/// `set_pieces` lists every set piece exactly once: its length is the number of pieces set,
/// the count `total_set` gives.
pub proof fn lemma_set_pieces_counts(bytes: Seq<u8>)
    ensures
        piece_set(bytes).finite(),
        set_pieces(bytes).len() == piece_set(bytes).len(),
{
    let s = set_pieces(bytes);
    lemma_set_pieces(bytes);
    assert(s.no_duplicates()) by {
        assert forall|i: int, j: int| 0 <= i < s.len() && 0 <= j < s.len() && i != j implies s[i]
            != s[j] by {
            if i < j {
                assert(s[i] < s[j]);
            } else {
                assert(s[j] < s[i]);
            }
        }
    }
    s.unique_seq_to_set();
    assert(s.to_set() =~= piece_set(bytes)) by {
        assert forall|x: int| s.to_set().contains(x) <==> piece_set(bytes).contains(x) by {
            assert(s.to_set().contains(x) <==> s.contains(x));
        }
    }
    vstd::seq_lib::seq_to_set_is_finite(s);
}

/// Setting piece `i` sets it and leaves every other piece as it was; past the bytes,
/// setting changes nothing.
pub proof fn lemma_set_then_has(bytes: Seq<u8>, i: int, j: int)
    requires
        0 <= i,
    ensures
        with_piece(bytes, i).len() == bytes.len(),
        has_piece(with_piece(bytes, i), j) == ((j == i && i / 8 < bytes.len()) || has_piece(bytes, j)),
{
    if 0 <= j && j / 8 < bytes.len() && i / 8 < bytes.len() {
        lemma_byte_bits(bytes[j / 8], 0, (i % 8) as u32, (j % 8) as u32);
        if j / 8 == i / 8 {
            assert(j == i <==> j % 8 == i % 8);
        }
    }
}

/// Clearing piece `i` clears it and leaves every other piece as it was.
pub proof fn lemma_unset_then_has(bytes: Seq<u8>, i: int, j: int)
    requires
        0 <= i,
    ensures
        without_piece(bytes, i).len() == bytes.len(),
        has_piece(without_piece(bytes, i), j) == (j != i && has_piece(bytes, j)),
{
    if 0 <= j && j / 8 < bytes.len() && i / 8 < bytes.len() {
        lemma_byte_bits(bytes[j / 8], 0, (i % 8) as u32, (j % 8) as u32);
        if j / 8 == i / 8 {
            assert(j == i <==> j % 8 == i % 8);
        }
    }
}

/// Piece `i` is set in the difference exactly when both bitfields reach it, the first has it
/// and the second has not.
pub proof fn lemma_diff_has(a: Seq<u8>, b: Seq<u8>, i: int)
    ensures
        has_piece(diff_bytes(a, b), i) == (i / 8 < b.len() && has_piece(a, i) && !has_piece(b, i)),
{
    if 0 <= i && i / 8 < a.len() && i / 8 < b.len() {
        lemma_byte_bits(a[i / 8], b[i / 8], 0, (i % 8) as u32);
    }
}

/// A bitfield is empty exactly when no piece is set, that is when it lists no pieces.
pub proof fn lemma_empty_has_none(bytes: Seq<u8>)
    ensures
        all_zero(bytes) <==> (forall|i: int| !#[trigger] has_piece(bytes, i)),
        all_zero(bytes) <==> set_pieces(bytes).len() == 0,
{
    lemma_set_pieces(bytes);
    if all_zero(bytes) {
        assert forall|i: int| !#[trigger] has_piece(bytes, i) by {
            if 0 <= i && i / 8 < bytes.len() {
                lemma_byte_bits(bytes[i / 8], 0, 0, (i % 8) as u32);
            }
        }
        if set_pieces(bytes).len() > 0 {
            assert(set_pieces(bytes).contains(set_pieces(bytes)[0]));
        }
    } else {
        let k = choose|k: int| 0 <= k < bytes.len() && bytes[k] != 0;
        lemma_zero_byte(bytes[k]);
        let j = choose|j: u32| j < 8 && byte_has(bytes[k], j);
        let i = 8 * k + j;
        assert(i / 8 == k && i % 8 == j);
        assert(has_piece(bytes, i));
        assert(set_pieces(bytes).contains(i));
    }
}

/// The block `length` bytes long from `begin` on of the piece stored at position `index`;
/// `None` when there is no such position or the piece is shorter.
pub open spec fn block_of(pieces: Seq<PieceDownloaded>, index: u32, begin: u32, length: u32) -> Option<
    Seq<u8>,
> {
    if (index as int) < pieces.len() && begin + length <= pieces[index as int].piece_data@.len() {
        Some(pieces[index as int].piece_data@.subrange(begin as int, begin + length))
    } else {
        None
    }
}

/// The block that a peer asks for: `length` bytes from `begin` on of the piece stored at
/// position `index` of `pieces`; `None` when there is no such position or the piece is shorter.
pub fn get_block_from(pieces: &Vec<PieceDownloaded>, index: u32, begin: u32, length: u32) -> (r: Option<Vec<u8>>)
    requires
        begin + length <= u32::MAX,
    ensures
        match r {
            Some(b) => block_of(pieces@, index, begin, length) == Some(b@),
            None => block_of(pieces@, index, begin, length) is None,
        },
{
    if (index as usize) >= pieces.len() {
        return None;
    }
    let piece = &pieces[index as usize];
    let start = begin as usize;
    let end = (begin + length) as usize;
    if end <= piece.piece_data.len() {
        let mut block: Vec<u8> = Vec::new();
        let mut i: usize = start;
        while i < end
            invariant
                start <= i <= end,
                end <= piece.piece_data@.len(),
                block@ == piece.piece_data@.subrange(start as int, i as int),
            decreases end - i,
        {
            block.push(piece.piece_data[i]);
            i = i + 1;
            assert(block@ =~= piece.piece_data@.subrange(start as int, i as int));
        }
        Some(block)
    } else {
        None
    }
}

} // verus!
