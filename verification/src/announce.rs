//! Talking to a tracker: the query that announces us, and what the tracker answers.
use vstd::prelude::*;
use vstd::string::StringExecFns;
use crate::bencode_model::{dict_get, int_of, Value};
use crate::bencoding_parser::AST;
use crate::decimal::{
    int_digits, is_digit, lemma_dec_uint_of_digits, lemma_nat_digits_shape, nat_digits,
    push_i64_digits, push_u64_digits, spec_dec_uint,
};
use crate::text::{all_ascii, ascii_string, ascii_text};
use crate::torrent_file::{ConversionError, TorrentFile};

verus! {

/// A byte that form-urlencoding leaves as it is: an ASCII letter or digit, `*`, `-`, `.`, `_`.
pub open spec fn urlencode_unchanged(b: u8) -> bool {
    b == 42 || b == 45 || b == 46 || (48 <= b <= 57) || (65 <= b <= 90) || b == 95 || (97 <= b <= 122)
}

/// The uppercase hexadecimal digit of `d`.
pub open spec fn hex_digit(d: u8) -> char {
    if d < 10 {
        (48 + d) as char
    } else {
        (55 + d) as char
    }
}

/// How form-urlencoding writes one byte: itself when unchanged, `+` for a space,
/// else `%` and two uppercase hexadecimal digits.
pub open spec fn urlencode_byte(b: u8) -> Seq<char> {
    if urlencode_unchanged(b) {
        seq![b as char]
    } else if b == 32 {
        seq!['+']
    } else {
        seq!['%', hex_digit(b / 16), hex_digit(b % 16)]
    }
}

/// The `application/x-www-form-urlencoded` form of bytes.
pub open spec fn form_urlencoded(b: Seq<u8>) -> Seq<char>
    decreases b.len(),
{
    if b.len() == 0 {
        seq![]
    } else {
        urlencode_byte(b[0]) + form_urlencoded(b.drop_first())
    }
}

/// Calls `url::form_urlencoded::byte_serialize` on `bytes` and collects what it gives.
/// Claims what the crate's source does: each byte is written as `urlencode_byte` says,
/// in order.
#[verifier::external_body]
fn urlencode(bytes: &[u8]) -> (r: String)
    ensures
        r@ == form_urlencoded(bytes@),
{
    url::form_urlencoded::byte_serialize(bytes).collect()
}

/// The query that announces us to a tracker: our peer id, the torrent's info hash, our port,
/// nothing uploaded or downloaded yet, all of `left` still to get, and a compact peer list asked
/// for.
pub open spec fn announce_query_text(peer_id: Seq<u8>, info_hash: Seq<u8>, port: u16, left: int) -> Seq<char> {
    "peer_id="@ + form_urlencoded(peer_id) + "&info_hash="@ + form_urlencoded(info_hash) + "&port="@
        + form_urlencoded(nat_digits(port as nat)) + "&uploaded="@ + form_urlencoded(nat_digits(0))
        + "&downloaded="@ + form_urlencoded(nat_digits(0)) + "&left="@ + form_urlencoded(int_digits(left))
        + "&compact="@ + form_urlencoded(nat_digits(1))
}

/// The decimal spelling of `n`, form-urlencoded.
fn encoded_u64(n: u64) -> (r: String)
    ensures
        r@ == form_urlencoded(nat_digits(n as nat)),
{
    let mut digits: Vec<u8> = Vec::new();
    push_u64_digits(&mut digits, n);
    assert(digits@ =~= nat_digits(n as nat));
    urlencode(digits.as_slice())
}

/// The URL that announces us to the tracker at `url` for `torrent_file`: `url`, `?`, and the
/// announce query.
pub fn announce_url(url: &String, peer_id: &[u8; 20], torrent_file: &TorrentFile, port: u16) -> (r: String)
    ensures
        r@ == url@ + "?"@ + announce_query_text(
            peer_id@,
            torrent_file.info_hash@,
            port,
            torrent_file.left_initial as int,
        ),
{
    let mut left_digits: Vec<u8> = Vec::new();
    push_i64_digits(&mut left_digits, torrent_file.left_initial);
    assert(left_digits@ =~= int_digits(torrent_file.left_initial as int));

    let mut query = String::new();
    query.append("peer_id=");
    query.append(urlencode(peer_id.as_slice()).as_str());
    query.append("&info_hash=");
    query.append(urlencode(torrent_file.info_hash.as_slice()).as_str());
    query.append("&port=");
    query.append(encoded_u64(port as u64).as_str());
    query.append("&uploaded=");
    query.append(encoded_u64(0).as_str());
    query.append("&downloaded=");
    query.append(encoded_u64(0).as_str());
    query.append("&left=");
    query.append(urlencode(left_digits.as_slice()).as_str());
    query.append("&compact=");
    query.append(encoded_u64(1).as_str());

    let mut full = url.clone();
    full.append("?");
    full.append(query.as_str());
    assert(full@ =~= url@ + "?"@ + announce_query_text(
        peer_id@,
        torrent_file.info_hash@,
        port,
        torrent_file.left_initial as int,
    ));
    full
}

/// What a tracker answers: how long to wait before asking again, and the peers to try.
#[derive(Debug)]
pub struct AnnounceResponse {
    pub interval: i64,
    pub peers: Vec<(String, u16)>,
}

/// The key `interval`.
pub open spec fn interval_key() -> Seq<u8> {
    seq![105u8, 110, 116, 101, 114, 118, 97, 108]
}

/// The key `peers`.
pub open spec fn peers_key() -> Seq<u8> {
    seq![112u8, 101, 101, 114, 115]
}

/// An IPv4 address in dotted decimal: four numbers without leading zeros, joined by `.`.
pub open spec fn dotted_quad(c: Seq<u8>) -> Seq<u8> {
    nat_digits(c[0] as nat) + seq![46u8] + nat_digits(c[1] as nat) + seq![46u8] + nat_digits(
        c[2] as nat,
    ) + seq![46u8] + nat_digits(c[3] as nat)
}

/// A peer in the compact form: four bytes of IPv4 address, two of port, big-endian.
pub open spec fn compact_peer(c: Seq<u8>) -> (Seq<char>, u16) {
    (ascii_text(dotted_quad(c)), (c[4] as int * 256 + c[5] as int) as u16)
}

/// The peers of a compact peer list: runs of six bytes, a shorter rest dropped.
pub open spec fn compact_peers(b: Seq<u8>) -> Seq<(Seq<char>, u16)> {
    Seq::new(b.len() / 6, |i: int| compact_peer(b.subrange(6 * i, 6 * i + 6)))
}

pub open spec fn peers_view(v: Seq<(String, u16)>) -> Seq<(Seq<char>, u16)> {
    Seq::new(v.len(), |i: int| (v[i].0@, v[i].1))
}

/// Why a tracker's answer cannot be read: the first field found missing.
pub open spec fn announce_error(v: Value) -> Option<Seq<char>> {
    if !(dict_get(v, interval_key()) matches Some(Value::Int(_))) {
        Some("interval"@)
    } else if !(dict_get(v, peers_key()) matches Some(Value::Bytes(_))) {
        Some("peers"@)
    } else {
        None
    }
}

fn interval_key_bytes() -> (r: &'static [u8])
    ensures
        r@ == interval_key(),
{
    &[105u8, 110, 116, 101, 114, 118, 97, 108]
}

fn peers_key_bytes() -> (r: &'static [u8])
    ensures
        r@ == peers_key(),
{
    &[112u8, 101, 101, 114, 115]
}

proof fn lemma_digits_ascii(n: nat)
    ensures
        all_ascii(nat_digits(n)),
{
    lemma_nat_digits_shape(n);
    assert forall|i: int| 0 <= i < nat_digits(n).len() implies #[trigger] nat_digits(n)[i] < 128 by {
        assert(crate::decimal::is_digit(nat_digits(n)[i]));
    }
}

/// The dotted decimal form of the address in `c[0..4]`.
fn address_string(c: &[u8]) -> (r: String)
    requires
        c@.len() >= 4,
    ensures
        r@ == ascii_text(dotted_quad(c@)),
{
    let mut bytes: Vec<u8> = Vec::new();
    push_u64_digits(&mut bytes, c[0] as u64);
    bytes.push(46);
    push_u64_digits(&mut bytes, c[1] as u64);
    bytes.push(46);
    push_u64_digits(&mut bytes, c[2] as u64);
    bytes.push(46);
    push_u64_digits(&mut bytes, c[3] as u64);
    assert(bytes@ =~= dotted_quad(c@));
    proof {
        lemma_digits_ascii(c@[0] as nat);
        lemma_digits_ascii(c@[1] as nat);
        lemma_digits_ascii(c@[2] as nat);
        lemma_digits_ascii(c@[3] as nat);
        assert forall|i: int| 0 <= i < bytes@.len() implies #[trigger] bytes@[i] < 128 by {
            let d0 = nat_digits(c@[0] as nat);
            let d1 = nat_digits(c@[1] as nat);
            let d2 = nat_digits(c@[2] as nat);
            let d3 = nat_digits(c@[3] as nat);
            if i < d0.len() {
                assert(bytes@[i] == d0[i]);
            } else if i == d0.len() {
            } else if i < d0.len() + 1 + d1.len() {
                assert(bytes@[i] == d1[i - d0.len() - 1]);
            } else if i == d0.len() + 1 + d1.len() {
            } else if i < d0.len() + 2 + d1.len() + d2.len() {
                assert(bytes@[i] == d2[i - d0.len() - d1.len() - 2]);
            } else if i == d0.len() + 2 + d1.len() + d2.len() {
            } else {
                assert(bytes@[i] == d3[i - d0.len() - d1.len() - d2.len() - 3]);
            }
        }
    }
    ascii_string(bytes.as_slice())
}

/// Reads a tracker's answer: its integer `interval` and its compact `peers` list.
/// Fails, naming the field, when either is missing or of the wrong kind.
pub fn parse_announce_response<'a>(ast: AST<'a>) -> (r: Result<AnnounceResponse, ConversionError>)
    ensures
        match r {
            Err(e) => announce_error(ast@) == Some(e.failed_to_find@),
            Ok(resp) => announce_error(ast@) is None && Some(resp.interval as int) == int_of(
                dict_get(ast@, interval_key()).unwrap(),
            ) && peers_view(resp.peers@) == compact_peers(
                dict_get(ast@, peers_key()).unwrap()->Bytes_0,
            ),
        },
{
    let interval = match ast.get_int(interval_key_bytes()) {
        Some(i) => i,
        None => {
            return Err(ConversionError::new("interval"));
        },
    };
    let peers_raw: &[u8] = match ast.get_from_dict(peers_key_bytes()) {
        Some(AST::ByteString(b)) => b,
        _ => {
            return Err(ConversionError::new("peers"));
        },
    };
    let len = peers_raw.len();
    let n = len / 6;
    let mut peers: Vec<(String, u16)> = Vec::new();
    let mut i: usize = 0;
    while i < n
        invariant
            len == peers_raw@.len(),
            n == peers_raw@.len() / 6,
            0 <= i <= n,
            peers@.len() == i,
            forall|k: int| 0 <= k < i ==> #[trigger] peers_view(peers@)[k] == compact_peer(
                peers_raw@.subrange(6 * k, 6 * k + 6),
            ),
        decreases n - i,
    {
        assert(6 * i + 6 <= len) by (nonlinear_arith)
            requires
                i < n,
                n == len / 6,
        ;
        let chunk = vstd::slice::slice_subrange(peers_raw, 6 * i, 6 * i + 6);
        let ip = address_string(chunk);
        let port: u16 = (chunk[4] as u16) * 256 + chunk[5] as u16;
        let ghost before = peers@;
        peers.push((ip, port));
        proof {
            assert forall|k: int| 0 <= k < i + 1 implies #[trigger] peers_view(peers@)[k] == compact_peer(
                peers_raw@.subrange(6 * k, 6 * k + 6),
            ) by {
                if k < i {
                    assert(peers@[k] == before[k]);
                    assert(peers_view(before)[k] == peers_view(peers@)[k]);
                }
            }
        }
        i = i + 1;
    }
    assert(peers_view(peers@) =~= compact_peers(peers_raw@));
    Ok(AnnounceResponse { interval, peers })
}

/// `s` holds the numbers `c[k]`, `c[k + 1]`, ... up to `c[3]`, each written in decimal as the
/// decimal reader reads it back, separated by `.`, and nothing more.
pub open spec fn reads_as_octets(s: Seq<u8>, c: Seq<u8>, k: int) -> bool
    decreases 4 - k,
{
    if k < 0 || k >= 4 {
        false
    } else {
        match spec_dec_uint(s) {
            Some((v, n)) => v == c[k] && if k == 3 {
                n == s.len()
            } else {
                n < s.len() && s[n as int] == 46 && reads_as_octets(s.skip(n + 1 as int), c, k + 1)
            },
            None => false,
        }
    }
}

proof fn lemma_last_octet(c: Seq<u8>)
    requires
        c.len() >= 4,
    ensures
        reads_as_octets(nat_digits(c[3] as nat), c, 3),
{
    lemma_dec_uint_of_digits(c[3] as nat, seq![]);
    assert(nat_digits(c[3] as nat) + seq![] =~= nat_digits(c[3] as nat));
}

proof fn lemma_octet_step(c: Seq<u8>, k: int, rest: Seq<u8>)
    requires
        c.len() >= 4,
        0 <= k < 3,
        reads_as_octets(rest, c, k + 1),
    ensures
        reads_as_octets(nat_digits(c[k] as nat) + seq![46u8] + rest, c, k),
{
    let d = nat_digits(c[k] as nat);
    let s = d + seq![46u8] + rest;
    lemma_dec_uint_of_digits(c[k] as nat, seq![46u8] + rest);
    assert(s =~= d + (seq![46u8] + rest));
    assert(s.skip(d.len() + 1 as int) =~= rest);
    assert(s[d.len() as int] == 46);
}

/// A peer's address is written as its four octets, each an unsigned number from 0 to 255 in
/// decimal, separated by dots: the text holds only digits and dots, and reading its numbers
/// back gives the four address bytes.
pub proof fn lemma_address_text(c: Seq<u8>)
    requires
        c.len() >= 4,
    ensures
        reads_as_octets(dotted_quad(c), c, 0),
        forall|i: int|
            0 <= i < dotted_quad(c).len() ==> is_digit(#[trigger] dotted_quad(c)[i])
                || dotted_quad(c)[i] == 46,
{
    let s3 = nat_digits(c[3] as nat);
    let s2 = nat_digits(c[2] as nat) + seq![46u8] + s3;
    let s1 = nat_digits(c[1] as nat) + seq![46u8] + s2;
    lemma_last_octet(c);
    lemma_octet_step(c, 2, s3);
    lemma_octet_step(c, 1, s2);
    lemma_octet_step(c, 0, s1);
    assert(dotted_quad(c) =~= nat_digits(c[0] as nat) + seq![46u8] + s1);
    lemma_nat_digits_shape(c[0] as nat);
    lemma_nat_digits_shape(c[1] as nat);
    lemma_nat_digits_shape(c[2] as nat);
    lemma_nat_digits_shape(c[3] as nat);
    let d0 = nat_digits(c[0] as nat);
    let d1 = nat_digits(c[1] as nat);
    let d2 = nat_digits(c[2] as nat);
    let d3 = nat_digits(c[3] as nat);
    let s = dotted_quad(c);
    assert forall|i: int| 0 <= i < s.len() implies is_digit(#[trigger] s[i]) || s[i] == 46 by {
        if i < d0.len() {
            assert(s[i] == d0[i]);
        } else if i == d0.len() {
        } else if i < d0.len() + 1 + d1.len() {
            assert(s[i] == d1[i - d0.len() - 1]);
        } else if i == d0.len() + 1 + d1.len() {
        } else if i < d0.len() + 2 + d1.len() + d2.len() {
            assert(s[i] == d2[i - d0.len() - d1.len() - 2]);
        } else if i == d0.len() + 2 + d1.len() + d2.len() {
        } else {
            assert(s[i] == d3[i - d0.len() - d1.len() - d2.len() - 3]);
        }
    }
}

/// A compact peer list gives one peer for each full run of six bytes: as many peers as fit,
/// with at most five bytes left over. Peer `i` has the port of bytes `6i + 4` and `6i + 5`, most
/// significant first, and the address text of bytes `6i` to `6i + 3`, which reads back as
/// those bytes (`lemma_address_text`).
pub proof fn lemma_compact_peers(b: Seq<u8>)
    ensures
        6 * compact_peers(b).len() <= b.len() < 6 * compact_peers(b).len() + 6,
        forall|i: int|
            0 <= i < compact_peers(b).len() ==> {
                &&& (#[trigger] compact_peers(b)[i]).1 == b[6 * i + 4] * 256 + b[6 * i + 5]
                &&& compact_peers(b)[i].0 == ascii_text(dotted_quad(b.subrange(6 * i, 6 * i + 4)))
                &&& reads_as_octets(
                    dotted_quad(b.subrange(6 * i, 6 * i + 4)),
                    b.subrange(6 * i, 6 * i + 4),
                    0,
                )
            },
{
    let n = compact_peers(b).len();
    assert(n == b.len() / 6);
    assert forall|i: int| 0 <= i < n implies {
        &&& (#[trigger] compact_peers(b)[i]).1 == b[6 * i + 4] * 256 + b[6 * i + 5]
        &&& compact_peers(b)[i].0 == ascii_text(dotted_quad(b.subrange(6 * i, 6 * i + 4)))
        &&& reads_as_octets(
            dotted_quad(b.subrange(6 * i, 6 * i + 4)),
            b.subrange(6 * i, 6 * i + 4),
            0,
        )
    } by {
        assert(6 * i + 6 <= b.len()) by (nonlinear_arith)
            requires
                0 <= i < n,
                n == b.len() / 6,
        ;
        let c = b.subrange(6 * i, 6 * i + 6);
        let a = b.subrange(6 * i, 6 * i + 4);
        assert(c[4] == b[6 * i + 4] && c[5] == b[6 * i + 5]);
        assert(compact_peers(b)[i] == compact_peer(c));
        assert(dotted_quad(c) =~= dotted_quad(a)) by {
            assert(c[0] == a[0] && c[1] == a[1] && c[2] == a[2] && c[3] == a[3]);
        }
        lemma_address_text(a);
    }
}

} // verus!
