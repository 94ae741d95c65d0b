//! The handshake that opens a peer connection: 68 bytes, naming the protocol, the torrent's
//! info hash and the sender's peer id.
use vstd::prelude::*;
use crate::text::ascii_text;

verus! {

pub struct Handshake {
    pub info_hash: [u8; 20],
    pub peer_id: [u8; 20],
}

/// Why 68 bytes are no handshake.
#[derive(Debug, Clone, Copy, PartialEq, Eq)]
pub enum HandshakeError {
    /// The first byte is not 19.
    InvalidProtocolLength,
    /// The next 19 bytes are not `BitTorrent protocol`.
    InvalidProtocolString,
    /// The peer answered for another torrent.
    WrongInfoHash,
}

/// The name of the protocol, `BitTorrent protocol`.
pub open spec fn protocol_name() -> Seq<u8> {
    seq![66u8, 105, 116, 84, 111, 114, 114, 101, 110, 116, 32, 112, 114, 111, 116, 111, 99, 111, 108]
}

fn protocol_name_bytes() -> (r: &'static [u8])
    ensures
        r@ == protocol_name(),
{
    &[66u8, 105, 116, 84, 111, 114, 114, 101, 110, 116, 32, 112, 114, 111, 116, 111, 99, 111, 108]
}

/// The handshake that sends `info_hash` and `peer_id`: 19, the protocol's name,
/// eight reserved zero bytes, the info hash, the peer id.
pub open spec fn handshake_bytes(info_hash: Seq<u8>, peer_id: Seq<u8>) -> Seq<u8> {
    seq![19u8] + protocol_name() + Seq::new(8, |i: int| 0u8) + info_hash + peer_id
}

/// What 68 bytes say: the info hash and peer id they carry, or why they are no handshake.
/// The reserved bytes are not looked at.
pub open spec fn spec_parse_handshake(b: Seq<u8>) -> Result<(Seq<u8>, Seq<u8>), HandshakeError> {
    if b[0] != 19 {
        Err(HandshakeError::InvalidProtocolLength)
    } else if b.subrange(1, 20) != protocol_name() {
        Err(HandshakeError::InvalidProtocolString)
    } else {
        Ok((b.subrange(28, 48), b.subrange(48, 68)))
    }
}

impl View for Handshake {
    type V = (Seq<u8>, Seq<u8>);

    open spec fn view(&self) -> (Seq<u8>, Seq<u8>) {
        (self.info_hash@, self.peer_id@)
    }
}

/// Copies 20 bytes of `buf` from `start` on.
fn copy20(buf: &[u8; 68], start: usize) -> (r: [u8; 20])
    requires
        start + 20 <= 68,
    ensures
        r@ == buf@.subrange(start as int, start + 20),
{
    let mut r = [0u8; 20];
    let mut i: usize = 0;
    while i < 20
        invariant
            0 <= i <= 20,
            start + 20 <= 68,
            forall|k: int| 0 <= k < i ==> r@[k] == buf@[start + k],
        decreases 20 - i,
    {
        r[i] = buf[start + i];
        i = i + 1;
    }
    assert(r@ =~= buf@.subrange(start as int, start + 20));
    r
}

impl Handshake {
    /// Reads a handshake; fails when the first byte is not 19 or the protocol's name is not
    /// `BitTorrent protocol`.
    pub fn parse(buf: [u8; 68]) -> (r: Result<Self, HandshakeError>)
        ensures
            match spec_parse_handshake(buf@) {
                Ok(v) => r matches Ok(h) && h@ == v,
                Err(e) => r == Err::<Self, HandshakeError>(e),
            },
    {
        if buf[0] != 19 {
            return Err(HandshakeError::InvalidProtocolLength);
        }
        let name = protocol_name_bytes();
        let mut i: usize = 0;
        while i < 19
            invariant
                0 <= i <= 19,
                buf@[0] == 19,
                name@ == protocol_name(),
                forall|k: int| 0 <= k < i ==> buf@[1 + k] == name@[k],
            decreases 19 - i,
        {
            if buf[1 + i] != name[i] {
                assert(buf@.subrange(1, 20)[i as int] != protocol_name()[i as int]);
                return Err(HandshakeError::InvalidProtocolString);
            }
            i = i + 1;
        }
        assert(buf@.subrange(1, 20) =~= protocol_name());
        let info_hash = copy20(&buf, 28);
        let peer_id = copy20(&buf, 48);
        Ok(Self { info_hash, peer_id })
    }

    /// Reads the handshake a peer answered with, for the torrent of `info_hash`: fails as
    /// `parse` does, and when the peer answered for another torrent.
    pub fn check_reply(buf: [u8; 68], info_hash: &[u8; 20]) -> (r: Result<Self, HandshakeError>)
        ensures
            match spec_parse_handshake(buf@) {
                Ok(v) => if v.0 == info_hash@ {
                    r matches Ok(h) && h@ == v
                } else {
                    r == Err::<Self, HandshakeError>(HandshakeError::WrongInfoHash)
                },
                Err(e) => r == Err::<Self, HandshakeError>(e),
            },
    {
        let reply = Self::parse(buf)?;
        let mut i: usize = 0;
        while i < 20
            invariant
                0 <= i <= 20,
                spec_parse_handshake(buf@) == Ok::<(Seq<u8>, Seq<u8>), HandshakeError>(reply@),
                forall|k: int| 0 <= k < i ==> reply.info_hash@[k] == info_hash@[k],
            decreases 20 - i,
        {
            if reply.info_hash[i] != info_hash[i] {
                return Err(HandshakeError::WrongInfoHash);
            }
            i = i + 1;
        }
        assert(reply.info_hash@ =~= info_hash@);
        Ok(reply)
    }

    /// The 68 bytes of this handshake.
    pub fn serialize(&self) -> (r: [u8; 68])
        ensures
            r@ == handshake_bytes(self.info_hash@, self.peer_id@),
    {
        let mut res = [0u8; 68];
        res[0] = 19;
        let name = protocol_name_bytes();
        let mut i: usize = 0;
        while i < 19
            invariant
                0 <= i <= 19,
                name@ == protocol_name(),
                res@[0] == 19,
                forall|k: int| 0 <= k < i ==> res@[1 + k] == name@[k],
                forall|k: int| 20 <= k < 68 ==> res@[k] == 0,
            decreases 19 - i,
        {
            res[1 + i] = name[i];
            i = i + 1;
        }
        let mut j: usize = 0;
        while j < 20
            invariant
                0 <= j <= 20,
                res@[0] == 19,
                forall|k: int| 0 <= k < 19 ==> res@[1 + k] == protocol_name()[k],
                forall|k: int| 20 <= k < 28 ==> res@[k] == 0,
                forall|k: int| 0 <= k < j ==> res@[28 + k] == self.info_hash@[k],
                forall|k: int| 0 <= k < j ==> res@[48 + k] == self.peer_id@[k],
                forall|k: int| 28 + j <= k < 48 ==> res@[k] == 0,
                forall|k: int| 48 + j <= k < 68 ==> res@[k] == 0,
            decreases 20 - j,
        {
            res[28 + j] = self.info_hash[j];
            res[48 + j] = self.peer_id[j];
            j = j + 1;
        }
        assert(res@ =~= handshake_bytes(self.info_hash@, self.peer_id@));
        res
    }
}

/// Reading a handshake back gives the info hash and peer id it was made of.
pub proof fn lemma_handshake_roundtrip(info_hash: Seq<u8>, peer_id: Seq<u8>)
    requires
        info_hash.len() == 20,
        peer_id.len() == 20,
    ensures
        handshake_bytes(info_hash, peer_id).len() == 68,
        spec_parse_handshake(handshake_bytes(info_hash, peer_id)) == Ok::<
            (Seq<u8>, Seq<u8>),
            HandshakeError,
        >((info_hash, peer_id)),
{
    let b = handshake_bytes(info_hash, peer_id);
    assert(b.subrange(1, 20) =~= protocol_name());
    assert(b.subrange(28, 48) =~= info_hash);
    assert(b.subrange(48, 68) =~= peer_id);
}

/// The handshake's layout, as the protocol fixes it: byte 0 is 19, bytes 1 to 19 spell
/// `BitTorrent protocol`, bytes 20 to 27 are zero, the info hash fills bytes 28 to 47 and the
/// peer id bytes 48 to 67; reading 68 bytes takes the info hash and the peer id from those
/// places.
pub proof fn lemma_handshake_layout(info_hash: Seq<u8>, peer_id: Seq<u8>, b: Seq<u8>)
    requires
        info_hash.len() == 20,
        peer_id.len() == 20,
        b.len() == 68,
    ensures
        ({
            let h = handshake_bytes(info_hash, peer_id);
            &&& h.len() == 68 && h[0] == 19
            &&& ascii_text(h.subrange(1, 20)) == "BitTorrent protocol"@
            &&& forall|k: int| 20 <= k < 28 ==> h[k] == 0
            &&& h.subrange(28, 48) == info_hash
            &&& h.subrange(48, 68) == peer_id
        }),
        spec_parse_handshake(b) matches Ok((ih, pid)) ==> (ih == b.subrange(28, 48) && pid
            == b.subrange(48, 68) && b[0] == 19 && ascii_text(b.subrange(1, 20))
            == "BitTorrent protocol"@),
{
    reveal_strlit("BitTorrent protocol");
    let h = handshake_bytes(info_hash, peer_id);
    assert(h.subrange(1, 20) =~= protocol_name());
    assert(ascii_text(protocol_name()) =~= "BitTorrent protocol"@);
    assert(h.subrange(28, 48) =~= info_hash);
    assert(h.subrange(48, 68) =~= peer_id);
}

} // verus!
