use torrent_reader::bencoding_parser::{parse_bencode, AST};
use torrent_reader::torrent_file::{bentree_to_torrent_file, check_total_length, ConversionError, FileData};

fn bstr(s: &[u8]) -> Vec<u8> {
    let mut out = s.len().to_string().into_bytes();
    out.push(b':');
    out.extend_from_slice(s);
    out
}

fn single_file_torrent() -> Vec<u8> {
    let mut info = b"d".to_vec();
    info.extend(bstr(b"length"));
    info.extend(b"i100e");
    info.extend(bstr(b"name"));
    info.extend(bstr(b"file.bin"));
    info.extend(bstr(b"piece length"));
    info.extend(b"i64e");
    info.extend(bstr(b"pieces"));
    let mut pieces = vec![1u8; 20];
    pieces.extend(vec![2u8; 20]);
    info.extend(bstr(&pieces));
    info.push(b'e');

    let mut t = b"d".to_vec();
    t.extend(bstr(b"announce"));
    t.extend(bstr(b"http://tracker.example/announce"));
    t.extend(bstr(b"comment"));
    t.extend(bstr(b"just a test"));
    t.extend(bstr(b"created by"));
    t.extend(bstr(b"hand 1.0"));
    t.extend(bstr(b"creation date"));
    t.extend(b"i1700000000e");
    t.extend(bstr(b"info"));
    t.extend(info);
    t.push(b'e');
    t
}

fn multi_file_torrent() -> Vec<u8> {
    let mut info = b"d".to_vec();
    info.extend(bstr(b"files"));
    info.extend(b"l");
    info.extend(b"d");
    info.extend(bstr(b"length"));
    info.extend(b"i30e");
    info.extend(bstr(b"path"));
    info.extend(b"l");
    info.extend(bstr(b"dir"));
    info.extend(bstr(b"a.txt"));
    info.extend(b"e");
    info.extend(b"e");
    info.extend(b"d");
    info.extend(bstr(b"length"));
    info.extend(b"i12e");
    info.extend(bstr(b"path"));
    info.extend(b"l");
    info.extend(bstr(b"b.txt"));
    info.extend(b"e");
    info.extend(b"e");
    info.extend(b"e");
    info.extend(bstr(b"name"));
    info.extend(bstr(b"folder"));
    info.extend(bstr(b"piece length"));
    info.extend(b"i32e");
    info.extend(bstr(b"pieces"));
    info.extend(bstr(&[7u8; 40]));
    info.push(b'e');

    let mut t = b"d".to_vec();
    t.extend(bstr(b"announce"));
    t.extend(bstr(b"http://one.example/ann"));
    t.extend(bstr(b"announce-list"));
    t.extend(b"l");
    t.extend(b"l");
    t.extend(bstr(b"http://one.example/ann"));
    t.extend(b"e");
    t.extend(b"l");
    t.extend(bstr(b"http://two.example/announce"));
    t.extend(b"e");
    t.extend(b"e");
    t.extend(bstr(b"encoding"));
    t.extend(bstr(b"UTF-8"));
    t.extend(bstr(b"info"));
    t.extend(info);
    t.extend(bstr(b"url-list"));
    t.extend(b"l");
    t.extend(bstr(b"http://mirror.example/"));
    t.extend(b"e");
    t.push(b'e');
    t
}

fn info_digest(ast: &AST) -> [u8; 20] {
    let info = ast.get_from_dict(b"info").unwrap();
    <sha1::Sha1 as sha1::Digest>::digest(info.serialize()).into()
}

#[test]
fn single_file_parsing() {
    let bytes = single_file_torrent();
    let mut input: &[u8] = &bytes;
    let ast = parse_bencode(&mut input).expect("Bencode decoding failed");
    assert!(check_total_length(&ast));
    let torrent = bentree_to_torrent_file(&ast).expect("Conversion to TorrentFile failed");

    assert_eq!(torrent.announce, Some("http://tracker.example/announce"));
    assert_eq!(torrent.announce_list, None);
    assert_eq!(torrent.url_list, None);
    assert_eq!(torrent.comment, Some("just a test"));
    assert_eq!(torrent.created_by, Some("hand 1.0"));
    assert_eq!(torrent.creation_date, Some(1700000000));
    assert_eq!(torrent.encoding, None);
    assert_eq!(torrent.publisher, None);
    assert_eq!(torrent.info.name, "file.bin");
    assert_eq!(torrent.info.piece_length, 64);
    assert_eq!(torrent.info.pieces, vec![[1u8; 20], [2u8; 20]]);
    assert_eq!(torrent.left_initial, 100);
    assert_eq!(torrent.info_hash, info_digest(&ast));
    let FileData::Single { length } = torrent.info.file_data else {
        panic!("Expected a single file torrent")
    };
    assert_eq!(length, 100);
    let length_by_pieces: i64 = torrent.info.piece_length * torrent.info.pieces.len() as i64;
    assert!(length <= length_by_pieces);
    assert!(length_by_pieces - torrent.info.piece_length <= length);
}

#[test]
fn multi_file_parsing() {
    let bytes = multi_file_torrent();
    let mut input: &[u8] = &bytes;
    let ast = parse_bencode(&mut input).expect("Bencode decoding failed");
    let torrent = bentree_to_torrent_file(&ast).expect("Conversion to TorrentFile failed");

    assert_eq!(torrent.announce, Some("http://one.example/ann"));
    assert_eq!(
        torrent.announce_list,
        Some(vec!["http://one.example/ann", "http://two.example/announce"])
    );
    assert_eq!(torrent.url_list, Some(vec!["http://mirror.example/"]));
    assert_eq!(torrent.encoding, Some("UTF-8"));
    assert_eq!(torrent.info.name, "folder");
    assert_eq!(torrent.info.piece_length, 32);
    assert_eq!(torrent.info.pieces.len(), 2);
    assert_eq!(torrent.left_initial, 42);
    assert_eq!(torrent.info_hash, info_digest(&ast));
    let FileData::Multi { files } = torrent.info.file_data else {
        panic!("Expected a multi file torrent")
    };
    assert_eq!(files.len(), 2);
    assert_eq!(files[0].length, 30);
    assert_eq!(files[0].path, vec!["dir", "a.txt"]);
    assert_eq!(files[1].length, 12);
    assert_eq!(files[1].path, vec!["b.txt"]);
    let length: i64 = files.iter().map(|f| f.length).sum();
    let length_by_pieces: i64 = torrent.info.piece_length * torrent.info.pieces.len() as i64;
    assert!(length <= length_by_pieces);
    assert!(length_by_pieces - torrent.info.piece_length <= length);
}

fn missing_field(bytes: &[u8]) -> String {
    let mut input: &[u8] = bytes;
    let ast = parse_bencode(&mut input).unwrap();
    match bentree_to_torrent_file(&ast) {
        Ok(_) => panic!("conversion should fail"),
        Err(ConversionError { failed_to_find }) => failed_to_find,
    }
}

#[test]
fn conversion_errors_name_the_field() {
    assert_eq!(missing_field(b"de"), "info");
    assert_eq!(missing_field(b"d4:infodee"), "name");
    assert_eq!(missing_field(b"d4:infod4:name1:xee"), "piece length");
    assert_eq!(missing_field(b"d4:infod4:name1:x12:piece lengthi1eee"), "pieces");
    assert_eq!(
        missing_field(b"d4:infod4:name1:x12:piece lengthi1e6:pieces0:ee"),
        "length | files"
    );
    assert_eq!(
        missing_field(b"d4:infod5:filesld6:lengthi1eee4:name1:x12:piece lengthi1e6:pieces0:ee"),
        "files"
    );
}

#[test]
fn conversion_error_text() {
    let e = ConversionError::new("info");
    assert_eq!(e.failed_to_find, "info");
    assert_eq!(e.to_string(), "Failed to find [info] field(s)");
}

#[test]
fn total_length_overflow_is_detected() {
    let bytes = b"d4:infod5:filesld6:lengthi9223372036854775807e4:pathl1:aeed6:lengthi1e4:pathl1:beee4:name1:x12:piece lengthi1e6:pieces0:ee";
    let mut input: &[u8] = bytes;
    let ast = parse_bencode(&mut input).unwrap();
    assert!(!check_total_length(&ast));
}

#[test]
fn a_missing_field_is_named_before_lengths_are_added() {
    let bytes = b"d4:infod5:filesld6:lengthi9223372036854775807e4:pathl1:aeed6:lengthi1e4:pathl1:beee12:piece lengthi1e6:pieces0:ee";
    let mut input: &[u8] = bytes;
    let ast = parse_bencode(&mut input).unwrap();
    assert!(check_total_length(&ast));
    assert_eq!(bentree_to_torrent_file(&ast).err().unwrap().failed_to_find, "name");
}
