# torrent_reader

A small BitTorrent client. The library in `src/` holds everything the client decides or
computes, each function with a contract proved by Verus:

- `decimal`, `bencode_model`, `bencoding_parser`, `parser`: the bencode grammar as a
  mathematical model, a reader and a writer proved against it, and the round trip between them;
- `torrent_file`: the metainfo of a torrent, read out of its dictionary;
- `announce`, `announce_response`: the announce URL and the tracker's compact peer list;
- `handshake`, `wire`, `torrent_tcp_message`: the peer wire protocol;
- `pieces`: bitfields and the pieces asked for and received;
- `peer`, `bundle`: what a connection does with each message, which `have`s it still owes,
  how a piece is asked for block by block and assembled and checked from its blocks;
- `download`: the requests for all pieces, how they go round the peers, and how the pieces
  become the bytes of the files;
- `display`: the texts values are shown as;
- `digest`, `text`: SHA-1 and UTF-8, as the `sha1` crate and the standard library give them.

`app/` is the program around it: the command line, the tracker's HTTP request, the TCP
connections and their tasks, and the files written. Run it with the path of a `.torrent` file.
