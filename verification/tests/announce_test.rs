use torrent_reader::announce::{announce_url, parse_announce_response};
use torrent_reader::announce_response;
use torrent_reader::bencoding_parser::parse_bencode;
use torrent_reader::torrent_file::{FileData, TorrentFile, TorrentInfo};

fn torrent(info_hash: [u8; 20], left: i64) -> TorrentFile<'static> {
    TorrentFile {
        info: TorrentInfo {
            file_data: FileData::Single { length: left },
            name: "x",
            piece_length: 64,
            pieces: vec![],
        },
        info_hash,
        left_initial: left,
        announce: None,
        announce_list: None,
        url_list: None,
        comment: None,
        created_by: None,
        creation_date: None,
        encoding: None,
        publisher: None,
        publisher_url: None,
    }
}

#[test]
fn builds_the_announce_url() {
    let mut info_hash = [0x31u8; 20];
    info_hash[..8].copy_from_slice(&[0x00, 0x7e, 0x2e, 0x2a, 0x20, 0x5f, 0x41, 0xff]);
    let t = torrent(info_hash, 12345);
    let url = announce_url(
        &"http://tracker.example/announce".to_string(),
        b"-GT0001-os9964142111",
        &t,
        6881,
    );
    assert_eq!(
        url,
        "http://tracker.example/announce?peer_id=-GT0001-os9964142111\
         &info_hash=%00%7E.*+_A%FF111111111111&port=6881&uploaded=0&downloaded=0\
         &left=12345&compact=1"
    );
}

#[test]
fn negative_left_is_written_with_its_sign() {
    let t = torrent([b'a'; 20], -5);
    let url = announce_url(&"u".to_string(), &[b'p'; 20], &t, 1);
    assert!(url.ends_with("&left=-5&compact=1"), "{}", url);
    assert!(url.starts_with("u?peer_id=pppppppppppppppppppp&info_hash=aaaaaaaaaaaaaaaaaaaa&port=1&"));
}

#[test]
fn reads_the_tracker_answer() {
    let mut bytes = b"d8:intervali1800e5:peers14:".to_vec();
    bytes.extend([127, 0, 0, 1, 0x1a, 0xe1, 10, 0, 0, 2, 0xc8, 0xd5, 9, 9]);
    bytes.push(b'e');
    let mut input: &[u8] = &bytes;
    let ast = parse_bencode(&mut input).unwrap();
    let r = parse_announce_response(ast).unwrap();
    assert_eq!(r.interval, 1800);
    assert_eq!(
        r.peers,
        vec![("127.0.0.1".to_string(), 6881), ("10.0.0.2".to_string(), 51413)]
    );
}

#[test]
fn tracker_answer_errors() {
    let mut input: &[u8] = b"d5:peers0:e";
    let ast = parse_bencode(&mut input).unwrap();
    assert_eq!(parse_announce_response(ast).err().unwrap().failed_to_find, "interval");
    let mut input: &[u8] = b"d8:intervali5e5:peerslee";
    let ast = parse_bencode(&mut input).unwrap();
    assert_eq!(
        announce_response::parse_announce_response(ast).err().unwrap().failed_to_find,
        "peers"
    );
    let mut input: &[u8] = b"d8:interval1:x5:peers0:e";
    let ast = parse_bencode(&mut input).unwrap();
    assert_eq!(parse_announce_response(ast).err().unwrap().failed_to_find, "interval");
}
