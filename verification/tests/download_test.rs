use torrent_reader::download::{
    assemble_pieces, downloaded_length, file_name, file_ranges, next_peer_index, piece_requests,
    retain_pending,
};
use torrent_reader::pieces::{Bitfield, PieceDownloaded, PieceReq};
use torrent_reader::torrent_file::{File, FileData, TorrentFile, TorrentInfo};

fn torrent(pieces: usize, piece_length: i64, total: i64) -> TorrentFile<'static> {
    TorrentFile {
        info: TorrentInfo {
            file_data: FileData::Single { length: total },
            name: "x",
            piece_length,
            pieces: (0..pieces).map(|i| [i as u8; 20]).collect(),
        },
        info_hash: [0; 20],
        left_initial: total,
        announce: None,
        announce_list: None,
        url_list: None,
        comment: None,
        created_by: None,
        creation_date: None,
        encoding: None,
        publisher: None,
        publisher_url: None,
    }
}

#[test]
fn last_piece_holds_the_rest() {
    let reqs = piece_requests(&torrent(3, 100, 250));
    assert_eq!(
        reqs,
        vec![
            PieceReq { piece_hash: [0; 20], piece_index: 0, piece_length: 100 },
            PieceReq { piece_hash: [1; 20], piece_index: 1, piece_length: 100 },
            PieceReq { piece_hash: [2; 20], piece_index: 2, piece_length: 50 },
        ]
    );
    let even = piece_requests(&torrent(2, 100, 200));
    assert_eq!(even[1].piece_length, 100);
    assert!(piece_requests(&torrent(0, 100, 0)).is_empty());
}

#[test]
fn requests_go_round_the_peers() {
    assert_eq!(next_peer_index(0, 3, true), 0);
    assert_eq!(next_peer_index(0, 3, false), 1);
    assert_eq!(next_peer_index(2, 3, false), 0);
}

#[test]
fn downloaded_requests_are_dropped() {
    let mut reqs = piece_requests(&torrent(4, 10, 40));
    let own = Bitfield { bytes: vec![0b1010_0000] };
    retain_pending(&mut reqs, &own);
    assert_eq!(reqs.iter().map(|r| r.piece_index).collect::<Vec<_>>(), vec![1, 3]);
}

fn piece(index: u32, data: &[u8]) -> PieceDownloaded {
    PieceDownloaded {
        piece_data: data.to_vec(),
        piece_req: PieceReq { piece_hash: [0; 20], piece_index: index, piece_length: data.len() as u32 },
    }
}

#[test]
fn pieces_are_written_in_index_order() {
    let pieces = vec![piece(2, b"ef"), piece(0, b"ab"), piece(1, b"cd")];
    assert_eq!(assemble_pieces(&pieces), b"abcdef".to_vec());
    assert_eq!(downloaded_length(&pieces), 6);
    // Pieces with the same index keep the order they came in.
    let twice = vec![piece(1, b"x"), piece(0, b"a"), piece(1, b"y")];
    assert_eq!(assemble_pieces(&twice), b"axy".to_vec());
    assert_eq!(assemble_pieces(&vec![]), Vec::<u8>::new());
}

#[test]
fn files_lie_one_after_the_other() {
    let files = vec![
        File { length: 30, path: vec!["dir", "a.txt"] },
        File { length: 0, path: vec!["e"] },
        File { length: 12, path: vec!["b.txt"] },
    ];
    assert_eq!(file_ranges(&files), Some(vec![(0, 30), (30, 30), (30, 42)]));
    assert_eq!(file_name(&files[0].path), "dira.txt");
    assert_eq!(file_name(&vec![]), "");
    let bad = vec![File { length: 3, path: vec![] }, File { length: -1, path: vec![] }];
    assert_eq!(file_ranges(&bad), None);
    let huge = vec![File { length: i64::MAX, path: vec![] }, File { length: i64::MAX, path: vec![] }, File { length: 2, path: vec![] }];
    assert_eq!(file_ranges(&huge), None);
}
