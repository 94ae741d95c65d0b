//! The metainfo of a torrent, read out of its bencoded dictionary.
use vstd::prelude::*;
use crate::bencode_model::{wf_value, dict_get, int_of, list_flat_texts, list_texts, serialize_value, text_of, texts, Value};
use crate::bencoding_parser::{str_views, views, AST};
use crate::digest::sha1_digest;
use crate::text::ascii_text;

verus! {

/// The keys of a metainfo dictionary that the reader looks at.
#[derive(Debug, Clone, Copy, PartialEq, Eq)]
pub enum MetaKey {
    /// `announce`
    Announce,
    /// `info`
    Info,
    /// `name`
    Name,
    /// `piece length`
    PieceLength,
    /// `pieces`
    Pieces,
    /// `length`
    Length,
    /// `files`
    Files,
    /// `path`
    Path,
    /// `announce-list`
    AnnounceList,
    /// `url-list`
    UrlList,
    /// `comment`
    Comment,
    /// `created by`
    CreatedBy,
    /// `creation date`
    CreationDate,
    /// `encoding`
    Encoding,
    /// `publisher`
    Publisher,
    /// `publisher-url`
    PublisherUrl,
}

/// The bytes of a key.
pub open spec fn meta_key(k: MetaKey) -> Seq<u8> {
    match k {
        MetaKey::Announce => seq![97u8, 110, 110, 111, 117, 110, 99, 101],
        MetaKey::Info => seq![105u8, 110, 102, 111],
        MetaKey::Name => seq![110u8, 97, 109, 101],
        MetaKey::PieceLength => seq![112u8, 105, 101, 99, 101, 32, 108, 101, 110, 103, 116, 104],
        MetaKey::Pieces => seq![112u8, 105, 101, 99, 101, 115],
        MetaKey::Length => seq![108u8, 101, 110, 103, 116, 104],
        MetaKey::Files => seq![102u8, 105, 108, 101, 115],
        MetaKey::Path => seq![112u8, 97, 116, 104],
        MetaKey::AnnounceList => seq![97u8, 110, 110, 111, 117, 110, 99, 101, 45, 108, 105, 115, 116],
        MetaKey::UrlList => seq![117u8, 114, 108, 45, 108, 105, 115, 116],
        MetaKey::Comment => seq![99u8, 111, 109, 109, 101, 110, 116],
        MetaKey::CreatedBy => seq![99u8, 114, 101, 97, 116, 101, 100, 32, 98, 121],
        MetaKey::CreationDate => seq![99u8, 114, 101, 97, 116, 105, 111, 110, 32, 100, 97, 116, 101],
        MetaKey::Encoding => seq![101u8, 110, 99, 111, 100, 105, 110, 103],
        MetaKey::Publisher => seq![112u8, 117, 98, 108, 105, 115, 104, 101, 114],
        MetaKey::PublisherUrl => seq![112u8, 117, 98, 108, 105, 115, 104, 101, 114, 45, 117, 114, 108],
    }
}

/// Each field of the metainfo is read under its own key: the key's bytes spell, one ASCII
/// character each, the name the BitTorrent metainfo format gives the field.
pub proof fn lemma_meta_key_names()
    ensures
        ascii_text(meta_key(MetaKey::Announce)) == "announce"@,
        ascii_text(meta_key(MetaKey::Info)) == "info"@,
        ascii_text(meta_key(MetaKey::Name)) == "name"@,
        ascii_text(meta_key(MetaKey::PieceLength)) == "piece length"@,
        ascii_text(meta_key(MetaKey::Pieces)) == "pieces"@,
        ascii_text(meta_key(MetaKey::Length)) == "length"@,
        ascii_text(meta_key(MetaKey::Files)) == "files"@,
        ascii_text(meta_key(MetaKey::Path)) == "path"@,
        ascii_text(meta_key(MetaKey::AnnounceList)) == "announce-list"@,
        ascii_text(meta_key(MetaKey::UrlList)) == "url-list"@,
        ascii_text(meta_key(MetaKey::Comment)) == "comment"@,
        ascii_text(meta_key(MetaKey::CreatedBy)) == "created by"@,
        ascii_text(meta_key(MetaKey::CreationDate)) == "creation date"@,
        ascii_text(meta_key(MetaKey::Encoding)) == "encoding"@,
        ascii_text(meta_key(MetaKey::Publisher)) == "publisher"@,
        ascii_text(meta_key(MetaKey::PublisherUrl)) == "publisher-url"@,
{
    reveal_strlit("announce");
    reveal_strlit("info");
    reveal_strlit("name");
    reveal_strlit("piece length");
    reveal_strlit("pieces");
    reveal_strlit("length");
    reveal_strlit("files");
    reveal_strlit("path");
    reveal_strlit("announce-list");
    reveal_strlit("url-list");
    reveal_strlit("comment");
    reveal_strlit("created by");
    reveal_strlit("creation date");
    reveal_strlit("encoding");
    reveal_strlit("publisher");
    reveal_strlit("publisher-url");
    assert(ascii_text(meta_key(MetaKey::Announce)) =~= "announce"@);
    assert(ascii_text(meta_key(MetaKey::Info)) =~= "info"@);
    assert(ascii_text(meta_key(MetaKey::Name)) =~= "name"@);
    assert(ascii_text(meta_key(MetaKey::PieceLength)) =~= "piece length"@);
    assert(ascii_text(meta_key(MetaKey::Pieces)) =~= "pieces"@);
    assert(ascii_text(meta_key(MetaKey::Length)) =~= "length"@);
    assert(ascii_text(meta_key(MetaKey::Files)) =~= "files"@);
    assert(ascii_text(meta_key(MetaKey::Path)) =~= "path"@);
    assert(ascii_text(meta_key(MetaKey::AnnounceList)) =~= "announce-list"@);
    assert(ascii_text(meta_key(MetaKey::UrlList)) =~= "url-list"@);
    assert(ascii_text(meta_key(MetaKey::Comment)) =~= "comment"@);
    assert(ascii_text(meta_key(MetaKey::CreatedBy)) =~= "created by"@);
    assert(ascii_text(meta_key(MetaKey::CreationDate)) =~= "creation date"@);
    assert(ascii_text(meta_key(MetaKey::Encoding)) =~= "encoding"@);
    assert(ascii_text(meta_key(MetaKey::Publisher)) =~= "publisher"@);
    assert(ascii_text(meta_key(MetaKey::PublisherUrl)) =~= "publisher-url"@);
}

fn meta_key_bytes(k: MetaKey) -> (r: &'static [u8])
    ensures
        r@ == meta_key(k),
{
    match k {
        MetaKey::Announce => &[97u8, 110, 110, 111, 117, 110, 99, 101],
        MetaKey::Info => &[105u8, 110, 102, 111],
        MetaKey::Name => &[110u8, 97, 109, 101],
        MetaKey::PieceLength => &[112u8, 105, 101, 99, 101, 32, 108, 101, 110, 103, 116, 104],
        MetaKey::Pieces => &[112u8, 105, 101, 99, 101, 115],
        MetaKey::Length => &[108u8, 101, 110, 103, 116, 104],
        MetaKey::Files => &[102u8, 105, 108, 101, 115],
        MetaKey::Path => &[112u8, 97, 116, 104],
        MetaKey::AnnounceList => &[97u8, 110, 110, 111, 117, 110, 99, 101, 45, 108, 105, 115, 116],
        MetaKey::UrlList => &[117u8, 114, 108, 45, 108, 105, 115, 116],
        MetaKey::Comment => &[99u8, 111, 109, 109, 101, 110, 116],
        MetaKey::CreatedBy => &[99u8, 114, 101, 97, 116, 101, 100, 32, 98, 121],
        MetaKey::CreationDate => &[99u8, 114, 101, 97, 116, 105, 111, 110, 32, 100, 97, 116, 101],
        MetaKey::Encoding => &[101u8, 110, 99, 111, 100, 105, 110, 103],
        MetaKey::Publisher => &[112u8, 117, 98, 108, 105, 115, 104, 101, 114],
        MetaKey::PublisherUrl => &[112u8, 117, 98, 108, 105, 115, 104, 101, 114, 45, 117, 114, 108],
    }
}

/// A torrent's metainfo.
#[derive(Debug)]
pub struct TorrentFile<'a> {
    pub info: TorrentInfo<'a>,
    /// The SHA-1 digest of the bencoded `info` dictionary.
    pub info_hash: [u8; 20],
    /// How many bytes the download holds in all.
    pub left_initial: i64,
    pub announce: Option<&'a str>,
    pub announce_list: Option<Vec<&'a str>>,
    pub url_list: Option<Vec<&'a str>>,
    pub comment: Option<&'a str>,
    pub created_by: Option<&'a str>,
    pub creation_date: Option<i64>,
    pub encoding: Option<&'a str>,
    pub publisher: Option<&'a str>,
    pub publisher_url: Option<&'a str>,
}

/// The `info` dictionary of a torrent.
#[derive(Debug)]
pub struct TorrentInfo<'a> {
    pub file_data: FileData<'a>,
    pub name: &'a str,
    pub piece_length: i64,
    /// The SHA-1 digest of each piece.
    pub pieces: Vec<[u8; 20]>,
}

/// One file of the download, or several.
#[derive(Debug)]
pub enum FileData<'a> {
    Single { length: i64 },
    Multi { files: Vec<File<'a>> },
}

/// A file of a download of several files.
#[derive(Debug)]
pub struct File<'a> {
    pub length: i64,
    pub path: Vec<&'a str>,
}

/// A field that the metainfo must have is missing or has the wrong kind.
#[derive(Debug, Clone)]
pub struct ConversionError {
    pub failed_to_find: String,
}

impl ConversionError {
    pub fn new(msg: &str) -> (r: Self)
        ensures
            r.failed_to_find@ == msg@,
    {
        Self { failed_to_find: msg.to_owned() }
    }
}

/// A file's length and the parts of its path.
pub open spec fn file_view(f: File) -> (int, Seq<Seq<char>>) {
    (f.length as int, str_views(f.path@))
}

pub open spec fn files_view(fs: Seq<File>) -> Seq<(int, Seq<Seq<char>>)> {
    Seq::new(fs.len(), |i: int| file_view(fs[i]))
}

/// The text a dictionary holds under a key.
pub open spec fn text_field(v: Value, k: MetaKey) -> Option<Seq<char>> {
    match dict_get(v, meta_key(k)) {
        Some(x) => text_of(x),
        None => None,
    }
}

/// The integer a dictionary holds under a key.
pub open spec fn int_field(v: Value, k: MetaKey) -> Option<int> {
    match dict_get(v, meta_key(k)) {
        Some(x) => int_of(x),
        None => None,
    }
}

/// The byte string a dictionary holds under a key.
pub open spec fn bytes_field(v: Value, k: MetaKey) -> Option<Seq<u8>> {
    match dict_get(v, meta_key(k)) {
        Some(Value::Bytes(b)) => Some(b),
        _ => None,
    }
}

/// A file entry: a dictionary with an integer `length` and a `path` that is a list of texts.
pub open spec fn file_entry(node: Value) -> Option<(int, Seq<Seq<char>>)> {
    match (int_field(node, MetaKey::Length), dict_get(node, meta_key(MetaKey::Path))) {
        (Some(l), Some(p)) => match list_texts(p) {
            Some(ps) => Some((l, ps)),
            None => None,
        },
        _ => None,
    }
}

/// The file entries of all the nodes, when every node is one.
pub open spec fn file_entries(nodes: Seq<Value>) -> Option<Seq<(int, Seq<Seq<char>>)>>
    decreases nodes.len(),
{
    if nodes.len() == 0 {
        Some(seq![])
    } else {
        match (file_entries(nodes.drop_last()), file_entry(nodes.last())) {
            (Some(fs), Some(f)) => Some(fs.push(f)),
            _ => None,
        }
    }
}

/// The sum of the lengths of the files.
pub open spec fn lengths_sum(fs: Seq<(int, Seq<Seq<char>>)>) -> int
    decreases fs.len(),
{
    if fs.len() == 0 {
        0
    } else {
        lengths_sum(fs.drop_last()) + fs.last().0
    }
}

/// Adding up the lengths one by one stays within an `i64` all the way.
pub open spec fn lengths_sum_fits(fs: Seq<(int, Seq<Seq<char>>)>) -> bool {
    forall|i: int| 0 <= i <= fs.len() ==> i64::MIN <= #[trigger] lengths_sum(fs.take(i)) <= i64::MAX
}

/// The `info` dictionary of a metainfo dictionary.
pub open spec fn info_of(t: Value) -> Option<Value> {
    dict_get(t, meta_key(MetaKey::Info))
}

/// The files of the download, when the metainfo describes several.
pub open spec fn multi_files(info: Value) -> Option<Seq<(int, Seq<Seq<char>>)>> {
    if int_field(info, MetaKey::Length) is Some {
        None
    } else {
        match dict_get(info, meta_key(MetaKey::Files)) {
            Some(Value::List(nodes)) => file_entries(nodes),
            _ => None,
        }
    }
}

/// Why a metainfo dictionary cannot be read, as the name of the first field found missing;
/// `None` when it can be read.
pub open spec fn conversion_error(t: Value) -> Option<Seq<char>> {
    match info_of(t) {
        None => Some("info"@),
        Some(info) => if text_field(info, MetaKey::Name) is None {
            Some("name"@)
        } else if int_field(info, MetaKey::PieceLength) is None {
            Some("piece length"@)
        } else if bytes_field(info, MetaKey::Pieces) is None {
            Some("pieces"@)
        } else if int_field(info, MetaKey::Length) is Some {
            None
        } else {
            match dict_get(info, meta_key(MetaKey::Files)) {
                Some(Value::List(nodes)) => if file_entries(nodes) is None {
                    Some("files"@)
                } else {
                    None
                },
                _ => Some("length | files"@),
            }
        },
    }
}

/// The metainfo can be read without its total length leaving the range of an `i64`.
pub open spec fn total_length_fits(t: Value) -> bool {
    match info_of(t) {
        Some(info) => match multi_files(info) {
            Some(fs) => lengths_sum_fits(fs),
            None => true,
        },
        None => true,
    }
}

/// The digests of the pieces: the bytes cut into runs of 20, a shorter rest dropped.
pub open spec fn chunks20(b: Seq<u8>) -> Seq<Seq<u8>> {
    Seq::new(b.len() / 20, |i: int| b.subrange(20 * i, 20 * i + 20))
}

pub open spec fn digests_view(ps: Seq<[u8; 20]>) -> Seq<Seq<u8>> {
    Seq::new(ps.len(), |i: int| ps[i]@)
}

pub open spec fn opt_text(o: Option<&str>) -> Option<Seq<char>> {
    match o {
        Some(s) => Some(s@),
        None => None,
    }
}

pub open spec fn opt_texts(o: Option<Vec<&str>>) -> Option<Seq<Seq<char>>> {
    match o {
        Some(v) => Some(str_views(v@)),
        None => None,
    }
}

pub open spec fn opt_int(o: Option<i64>) -> Option<int> {
    match o {
        Some(i) => Some(i as int),
        None => None,
    }
}

/// The texts a list-valued field holds: flattened from a list of lists when `flat`.
pub open spec fn list_field(t: Value, k: MetaKey, flat: bool) -> Option<Seq<Seq<char>>> {
    match dict_get(t, meta_key(k)) {
        Some(x) => if flat {
            list_flat_texts(x)
        } else {
            list_texts(x)
        },
        None => None,
    }
}

/// The file data that an `info` dictionary describes.
pub open spec fn file_data_matches(info: Value, fd: FileData) -> bool {
    match int_field(info, MetaKey::Length) {
        Some(l) => fd == FileData::Single { length: l as i64 },
        None => fd matches FileData::Multi { files } && Some(files_view(files@)) == multi_files(info),
    }
}

/// The total length of what an `info` dictionary describes.
pub open spec fn total_length(info: Value) -> int {
    match int_field(info, MetaKey::Length) {
        Some(l) => l,
        None => lengths_sum(multi_files(info).unwrap()),
    }
}

/// `t` is what the metainfo dictionary `m` describes.
pub open spec fn torrent_matches(m: Value, t: TorrentFile) -> bool {
    let info = info_of(m).unwrap();
    &&& Some(t.info.name@) == text_field(info, MetaKey::Name)
    &&& Some(t.info.piece_length as int) == int_field(info, MetaKey::PieceLength)
    &&& digests_view(t.info.pieces@) == chunks20(bytes_field(info, MetaKey::Pieces).unwrap())
    &&& file_data_matches(info, t.info.file_data)
    &&& t.left_initial == total_length(info)
    &&& t.info_hash@ == sha1_digest(serialize_value(info))
    &&& opt_text(t.announce) == text_field(m, MetaKey::Announce)
    &&& opt_texts(t.announce_list) == list_field(m, MetaKey::AnnounceList, true)
    &&& opt_texts(t.url_list) == list_field(m, MetaKey::UrlList, false)
    &&& opt_text(t.comment) == text_field(m, MetaKey::Comment)
    &&& opt_text(t.created_by) == text_field(m, MetaKey::CreatedBy)
    &&& opt_int(t.creation_date) == int_field(m, MetaKey::CreationDate)
    &&& opt_text(t.encoding) == text_field(m, MetaKey::Encoding)
    &&& opt_text(t.publisher) == text_field(m, MetaKey::Publisher)
    &&& opt_text(t.publisher_url) == text_field(m, MetaKey::PublisherUrl)
}

/// The bytes cut into runs of 20, a shorter rest dropped.
fn chunks_of_20(b: &[u8]) -> (r: Vec<[u8; 20]>)
    ensures
        digests_view(r@) == chunks20(b@),
{
    let len = b.len();
    let n = len / 20;
    let mut r: Vec<[u8; 20]> = Vec::new();
    let mut i: usize = 0;
    while i < n
        invariant
            len == b@.len(),
            n == b@.len() / 20,
            0 <= i <= n,
            r@.len() == i,
            forall|k: int| 0 <= k < i ==> #[trigger] r@[k]@ == b@.subrange(20 * k, 20 * k + 20),
        decreases n - i,
    {
        let mut a = [0u8; 20];
        assert(20 * i + 20 <= b@.len()) by (nonlinear_arith)
            requires
                i < n,
                n == b@.len() / 20,
        ;
        assert(20 * i + 20 <= len);
        let base = 20 * i;
        let mut j: usize = 0;
        while j < 20
            invariant
                0 <= j <= 20,
                i < n,
                n == b@.len() / 20,
                base == 20 * i,
                base + 20 <= b@.len(),
                len == b@.len(),
                forall|m: int| 0 <= m < j ==> a@[m] == b@[base + m],
            decreases 20 - j,
        {
            a[j] = b[base + j];
            j = j + 1;
        }
        assert(a@ =~= b@.subrange(20 * i, 20 * i + 20));
        r.push(a);
        i = i + 1;
    }
    assert(digests_view(r@) =~= chunks20(b@));
    r
}

/// The file entries of the nodes, when every node is one.
fn files_from<'a>(nodes: &'a Vec<AST<'a>>) -> (r: Option<Vec<File<'a>>>)
    ensures
        match r {
            Some(fs) => file_entries(views(nodes@)) == Some(files_view(fs@)),
            None => file_entries(views(nodes@)) is None,
        },
{
    let ghost vs = views(nodes@);
    let mut fs: Vec<File<'a>> = Vec::new();
    let mut i: usize = 0;
    assert(vs.take(0) =~= seq![]);
    assert(files_view(fs@) =~= seq![]);
    while i < nodes.len()
        invariant
            0 <= i <= nodes@.len(),
            vs == views(nodes@),
            file_entries(vs.take(i as int)) == Some(files_view(fs@)),
        decreases nodes@.len() - i,
    {
        let node = &nodes[i];
        assert(vs.take(i + 1).drop_last() =~= vs.take(i as int));
        assert(vs[i as int] == node@);
        let length = node.get_int(meta_key_bytes(MetaKey::Length));
        let path = match node.get_from_dict(meta_key_bytes(MetaKey::Path)) {
            Some(p) => p.text_list(),
            None => None,
        };
        match (length, path) {
            (Some(length), Some(path)) => {
                let ghost before = fs@;
                fs.push(File { length, path });
                assert(files_view(fs@) =~= files_view(before).push(file_view(fs@.last())));
            },
            _ => {
                proof {
                    lemma_file_entries_none_grows(vs, i + 1, vs.len() as int);
                    assert(vs.take(vs.len() as int) =~= vs);
                }
                return None;
            },
        }
        i = i + 1;
    }
    assert(vs.take(vs.len() as int) =~= vs);
    Some(fs)
}

/// Once one node is no file entry, no longer run of nodes gives file entries.
proof fn lemma_file_entries_none_grows(vs: Seq<Value>, i: int, j: int)
    requires
        0 <= i <= j <= vs.len(),
        file_entries(vs.take(i)) is None,
    ensures
        file_entries(vs.take(j)) is None,
    decreases j - i,
{
    if j > i {
        lemma_file_entries_none_grows(vs, i, j - 1);
        assert(vs.take(j).drop_last() =~= vs.take(j - 1));
    }
}

/// The sum of the lengths of the files.
fn sum_lengths(files: &Vec<File>) -> (r: i64)
    requires
        lengths_sum_fits(files_view(files@)),
    ensures
        r == lengths_sum(files_view(files@)),
{
    let ghost fv = files_view(files@);
    let mut total: i64 = 0;
    let mut i: usize = 0;
    assert(fv.take(0) =~= seq![]);
    while i < files.len()
        invariant
            0 <= i <= files@.len(),
            fv == files_view(files@),
            lengths_sum_fits(fv),
            total == lengths_sum(fv.take(i as int)),
        decreases files@.len() - i,
    {
        assert(fv.take(i + 1).drop_last() =~= fv.take(i as int));
        assert(i64::MIN <= lengths_sum(fv.take(i + 1)) <= i64::MAX);
        total = total + files[i].length;
        i = i + 1;
    }
    assert(fv.take(fv.len() as int) =~= fv);
    total
}

/// Reads the metainfo of a torrent out of its bencoded dictionary.
///
/// Fails, naming the field, when the dictionary lacks an `info` dictionary, or when that lacks
/// a text `name`, an integer `piece length`, a byte string `pieces`, or both an integer
/// `length` and a list of `files` each with an integer `length` and a `path` of texts.
/// The dictionary is a well-formed one, as the reader and `AST::dictionary` build.
pub fn bentree_to_torrent_file<'a>(ast: &'a AST<'a>) -> (r: Result<TorrentFile<'a>, ConversionError>)
    requires
        wf_value(ast@),
        conversion_error(ast@) is None ==> total_length_fits(ast@),
    ensures
        match r {
            Err(e) => conversion_error(ast@) == Some(e.failed_to_find@),
            Ok(t) => conversion_error(ast@) is None && torrent_matches(ast@, t),
        },
{
    let announce = ast.get_text(meta_key_bytes(MetaKey::Announce));

    let info_dict = match ast.get_from_dict(meta_key_bytes(MetaKey::Info)) {
        Some(i) => i,
        None => {
            return Err(ConversionError::new("info"));
        },
    };
    proof {
        crate::bencode_model::lemma_dict_get_wf(ast@, meta_key(MetaKey::Info));
    }
    let name = match info_dict.get_text(meta_key_bytes(MetaKey::Name)) {
        Some(n) => n,
        None => {
            return Err(ConversionError::new("name"));
        },
    };
    let piece_length = match info_dict.get_int(meta_key_bytes(MetaKey::PieceLength)) {
        Some(l) => l,
        None => {
            return Err(ConversionError::new("piece length"));
        },
    };
    let pieces_raw: &'a [u8] = match info_dict.get_from_dict(meta_key_bytes(MetaKey::Pieces)) {
        Some(AST::ByteString(b)) => b,
        _ => {
            return Err(ConversionError::new("pieces"));
        },
    };
    let pieces = chunks_of_20(pieces_raw);

    let file_data = if let Some(length) = info_dict.get_int(meta_key_bytes(MetaKey::Length)) {
        FileData::Single { length }
    } else {
        match info_dict.get_from_dict(meta_key_bytes(MetaKey::Files)) {
            Some(AST::List(files_list)) => {
                proof {
                    crate::bencoding_parser::lemma_view_list(*files_list);
                }
                match files_from(files_list) {
                    Some(files) => FileData::Multi { files },
                    None => {
                        return Err(ConversionError::new("files"));
                    },
                }
            },
            _ => {
                return Err(ConversionError::new("length | files"));
            },
        }
    };

    let left_initial: i64 = match &file_data {
        FileData::Single { length } => *length,
        FileData::Multi { files } => sum_lengths(files),
    };

    let info = TorrentInfo { name, piece_length, pieces, file_data };

    let announce_list = match ast.get_from_dict(meta_key_bytes(MetaKey::AnnounceList)) {
        Some(node) => node.flat_text_list(),
        None => None,
    };
    let url_list = match ast.get_from_dict(meta_key_bytes(MetaKey::UrlList)) {
        Some(node) => node.text_list(),
        None => None,
    };

    let comment = ast.get_text(meta_key_bytes(MetaKey::Comment));
    let created_by = ast.get_text(meta_key_bytes(MetaKey::CreatedBy));
    let creation_date = ast.get_int(meta_key_bytes(MetaKey::CreationDate));
    let encoding = ast.get_text(meta_key_bytes(MetaKey::Encoding));
    let publisher = ast.get_text(meta_key_bytes(MetaKey::Publisher));
    let publisher_url = ast.get_text(meta_key_bytes(MetaKey::PublisherUrl));

    Ok(TorrentFile {
        info,
        info_hash: info_dict.hash(),
        left_initial,
        announce,
        announce_list,
        url_list,
        comment,
        created_by,
        creation_date,
        encoding,
        publisher,
        publisher_url,
    })
}

/// Whether reading the metainfo either fails on a missing field or adds up the total length
/// within an `i64`, as `bentree_to_torrent_file` requires.
pub fn check_total_length<'a>(ast: &'a AST<'a>) -> (r: bool)
    ensures
        r == (conversion_error(ast@) is None ==> total_length_fits(ast@)),
{
    let info_dict = match ast.get_from_dict(meta_key_bytes(MetaKey::Info)) {
        Some(i) => i,
        None => {
            return true;
        },
    };
    if info_dict.get_text(meta_key_bytes(MetaKey::Name)).is_none() {
        return true;
    }
    if info_dict.get_int(meta_key_bytes(MetaKey::PieceLength)).is_none() {
        return true;
    }
    match info_dict.get_from_dict(meta_key_bytes(MetaKey::Pieces)) {
        Some(AST::ByteString(_)) => {},
        _ => {
            return true;
        },
    }
    if info_dict.get_int(meta_key_bytes(MetaKey::Length)).is_some() {
        return true;
    }
    let files = match info_dict.get_from_dict(meta_key_bytes(MetaKey::Files)) {
        Some(AST::List(files_list)) => {
            proof {
                crate::bencoding_parser::lemma_view_list(*files_list);
            }
            match files_from(files_list) {
                Some(files) => files,
                None => {
                    return true;
                },
            }
        },
        _ => {
            return true;
        },
    };
    let ghost fv = files_view(files@);
    let mut total: i64 = 0;
    let mut i: usize = 0;
    assert(fv.take(0) =~= seq![]);
    assert(multi_files(info_of(ast@).unwrap()) == Some(fv));
    assert(conversion_error(ast@) is None);
    while i < files.len()
        invariant
            0 <= i <= files@.len(),
            fv == files_view(files@),
            info_of(ast@) is Some,
            conversion_error(ast@) is None,
            multi_files(info_of(ast@).unwrap()) == Some(fv),
            total == lengths_sum(fv.take(i as int)),
            forall|k: int| 0 <= k <= i ==> i64::MIN <= #[trigger] lengths_sum(fv.take(k)) <= i64::MAX,
        decreases files@.len() - i,
    {
        assert(fv.take(i + 1).drop_last() =~= fv.take(i as int));
        match total.checked_add(files[i].length) {
            Some(t) => {
                total = t;
            },
            None => {
                assert(!(i64::MIN <= lengths_sum(fv.take(i + 1)) <= i64::MAX));
                return false;
            },
        }
        i = i + 1;
    }
    assert(fv.take(fv.len() as int) =~= fv);
    true
}

} // verus!
